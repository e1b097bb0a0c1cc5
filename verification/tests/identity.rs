use xo::membership::{MembershipIdentity, PeerId};
use xo::peer_protocol::{GossipAnnouncement, ProtocolError};

#[test]
fn identities_round_trip_secret_bytes() {
    let identity = MembershipIdentity::generate(PeerId::parse("phone".to_owned()).unwrap());
    let restored = MembershipIdentity::from_secret_bytes(identity.peer_id().duplicate(), &identity.secret_bytes());
    assert_eq!(restored.public_key(), identity.public_key());
    assert_eq!(restored.fingerprint(), identity.fingerprint());
    assert_eq!(restored.actor_id().0, identity.fingerprint());
    assert_eq!(identity.fingerprint().len(), 64);
}

#[test]
fn announcements_verify_against_the_payload_they_were_signed_over() {
    let identity = MembershipIdentity::from_secret_bytes(PeerId::parse("laptop".to_owned()).unwrap(), &[7; 32]);
    let payload = b"canonical announcement fields".to_vec();
    let announcement = GossipAnnouncement::create(
        &identity,
        "workspace".to_owned(),
        "endpoint".to_owned(),
        vec!["head-a".to_owned()],
        1_000,
        &payload,
    );
    assert_eq!(announcement.signature.len(), 64);
    assert_eq!(announcement.public_key, identity.public_key());
    assert_eq!(announcement.signature, identity.sign(&payload));
    assert_eq!(announcement.verify(&payload), Ok(()));
    assert_eq!(announcement.verify(b"other fields"), Err(ProtocolError::InvalidSignature));
    let unnamed = GossipAnnouncement::create(&identity, String::new(), "endpoint".to_owned(), vec![], 1_000, &payload);
    assert_eq!(unnamed.verify(&payload), Err(ProtocolError::InvalidAnnouncement));
}
