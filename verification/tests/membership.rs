use ed25519_dalek::{Signer, SigningKey};
use xo::domain::{ActorId, WorkspaceId};
use xo::hlc::Hlc;
use xo::membership::{
    public_key_fingerprint, MemberStatus, MembershipError, MembershipEvent, MembershipRegistry,
    PeerId, SignedMembershipEvent,
};

struct Identity {
    key: SigningKey,
    peer: &'static str,
}

impl Identity {
    fn new(seed: u8, peer: &'static str) -> Identity {
        Identity { key: SigningKey::from_bytes(&[seed; 32]), peer }
    }

    fn public_key(&self) -> [u8; 32] {
        self.key.verifying_key().to_bytes()
    }

    fn fingerprint(&self) -> String {
        public_key_fingerprint(&self.public_key())
    }

    fn peer_id(&self) -> PeerId {
        PeerId::parse(self.peer.to_string()).unwrap()
    }
}

fn time(actor: &str) -> Hlc {
    Hlc { physical_ms: 10, logical: 0, actor_id: ActorId::new(actor) }
}

/// A signed event over `canonical`, which stands for the canonical encoding
/// of its unsigned part.
fn signed(issuer: &Identity, canonical: &[u8], payload: MembershipEvent) -> SignedMembershipEvent {
    SignedMembershipEvent {
        workspace_id: WorkspaceId::new("workspace"),
        event_id: blake3::hash(canonical).to_hex().to_string(),
        issuer: issuer.fingerprint(),
        issuer_public_key: issuer.public_key(),
        issued_at: time(&issuer.fingerprint()),
        payload,
        signature: issuer.key.sign(canonical).to_bytes().to_vec(),
    }
}

#[test]
fn validates_peer_ids() {
    assert_eq!(
        PeerId::parse("workstation-1".to_string()).unwrap().as_str(),
        "workstation-1"
    );
    for invalid in ["", "contains spaces", "phone/one"] {
        assert!(PeerId::parse(invalid.to_string()).is_err());
    }
}

#[test]
fn peer_id_errors_name_the_rule_that_failed() {
    assert_eq!(PeerId::parse(String::new()), Err(MembershipError::InvalidPeerIdLength));
    assert_eq!(PeerId::parse("a".repeat(65)), Err(MembershipError::InvalidPeerIdLength));
    assert!(PeerId::parse("a".repeat(64)).is_ok());
    assert_eq!(
        PeerId::parse("phone/one".to_string()),
        Err(MembershipError::InvalidPeerIdCharacter)
    );
    assert_eq!(PeerId::parse("a.b_c-9".to_string()).unwrap().as_str(), "a.b_c-9");
}

#[test]
fn fingerprint_is_the_hex_blake3_digest_of_the_key() {
    let key = [7u8; 32];
    let fingerprint = public_key_fingerprint(&key);
    assert_eq!(fingerprint, blake3::hash(&key).to_hex().to_string());
    assert_eq!(fingerprint.len(), 64);
}

#[test]
fn membership_events_are_signed_and_tamper_evident() {
    let identity = Identity::new(1, "laptop");
    let canonical = b"genesis of workspace".to_vec();
    let event = signed(
        &identity,
        &canonical,
        MembershipEvent::Genesis {
            peer_id: identity.peer_id(),
            public_key: identity.public_key(),
            endpoint_id: "endpoint-a".to_owned(),
        },
    );
    assert_eq!(event.verify(&canonical), Ok(()));
    assert_eq!(
        event.verify(b"tampered payload"),
        Err(MembershipError::EventIdMismatch)
    );
}

#[test]
fn event_verification_reports_each_failure() {
    let identity = Identity::new(1, "laptop");
    let canonical = b"event".to_vec();
    let payload = || MembershipEvent::EndpointBound {
        public_key: identity.public_key(),
        endpoint_id: "endpoint-b".to_owned(),
    };

    let mut wrong_issuer = signed(&identity, &canonical, payload());
    wrong_issuer.issuer = "someone-else".to_owned();
    assert_eq!(wrong_issuer.verify(&canonical), Err(MembershipError::IssuerMismatch));

    let mut short_signature = signed(&identity, &canonical, payload());
    short_signature.signature.truncate(10);
    assert_eq!(
        short_signature.verify(&canonical),
        Err(MembershipError::InvalidSignatureLength)
    );

    let mut forged = signed(&identity, &canonical, payload());
    forged.signature[0] ^= 1;
    assert_eq!(forged.verify(&canonical), Err(MembershipError::InvalidSignature));
}

#[test]
fn registry_propagates_approval_and_terminal_removal() {
    let owner = Identity::new(1, "owner");
    let candidate = Identity::new(2, "phone");
    let genesis = signed(
        &owner,
        b"genesis",
        MembershipEvent::Genesis {
            peer_id: owner.peer_id(),
            public_key: owner.public_key(),
            endpoint_id: "owner-endpoint".into(),
        },
    );
    let approval = signed(
        &owner,
        b"approval",
        MembershipEvent::JoinApproved {
            peer_id: candidate.peer_id(),
            public_key: candidate.public_key(),
            endpoint_id: "phone-endpoint".into(),
        },
    );
    let removal = signed(
        &owner,
        b"removal",
        MembershipEvent::PeerRemoved {
            peer_id: candidate.peer_id(),
            public_key: candidate.public_key(),
            accepted_actor_sequence: 4,
            accepted_heads: vec!["head".into()],
            reason: None,
        },
    );

    let mut registry = MembershipRegistry::new();
    assert_eq!(registry.apply(&genesis, b"genesis"), Ok(true));
    assert_eq!(registry.apply(&approval, b"approval"), Ok(true));
    assert!(registry.is_active_key(&candidate.public_key()));
    assert_eq!(registry.apply(&removal, b"removal"), Ok(true));
    assert!(!registry.is_active_key(&candidate.public_key()));
    let member = registry.member(&candidate.fingerprint()).unwrap();
    assert_eq!(member.status, MemberStatus::Removed);
    assert_eq!(member.accepted_actor_sequence, Some(4));
    assert_eq!(member.accepted_heads, vec!["head".to_string()]);
    assert_eq!(registry.members().len(), 2);
}

#[test]
fn applying_an_event_twice_reports_it_as_old() {
    let owner = Identity::new(1, "owner");
    let genesis = signed(
        &owner,
        b"genesis",
        MembershipEvent::Genesis {
            peer_id: owner.peer_id(),
            public_key: owner.public_key(),
            endpoint_id: "owner-endpoint".into(),
        },
    );
    let mut registry = MembershipRegistry::new();
    assert_eq!(registry.apply(&genesis, b"genesis"), Ok(true));
    assert_eq!(registry.apply(&genesis, b"genesis"), Ok(false));
    assert_eq!(registry.members().len(), 1);
}

#[test]
fn unknown_key_cannot_approve_a_candidate() {
    let owner = Identity::new(1, "owner");
    let outsider = Identity::new(3, "outsider");
    let candidate = Identity::new(2, "phone");
    let genesis = signed(
        &owner,
        b"genesis",
        MembershipEvent::Genesis {
            peer_id: owner.peer_id(),
            public_key: owner.public_key(),
            endpoint_id: "owner-endpoint".into(),
        },
    );
    let approval = signed(
        &outsider,
        b"approval",
        MembershipEvent::JoinApproved {
            peer_id: candidate.peer_id(),
            public_key: candidate.public_key(),
            endpoint_id: "phone-endpoint".into(),
        },
    );
    let mut registry = MembershipRegistry::new();
    registry.apply(&genesis, b"genesis").unwrap();
    assert_eq!(
        registry.apply(&approval, b"approval"),
        Err(MembershipError::UnauthorizedEvent)
    );
    assert!(!registry.is_active_key(&candidate.public_key()));
}

#[test]
fn duplicate_peer_ids_and_members_are_refused() {
    let owner = Identity::new(1, "owner");
    let twin = Identity::new(2, "owner");
    let genesis = signed(
        &owner,
        b"genesis",
        MembershipEvent::Genesis {
            peer_id: owner.peer_id(),
            public_key: owner.public_key(),
            endpoint_id: "owner-endpoint".into(),
        },
    );
    let same_peer = signed(
        &owner,
        b"same peer",
        MembershipEvent::JoinApproved {
            peer_id: twin.peer_id(),
            public_key: twin.public_key(),
            endpoint_id: "twin-endpoint".into(),
        },
    );
    let same_key = signed(
        &owner,
        b"same key",
        MembershipEvent::JoinApproved {
            peer_id: PeerId::parse("other".to_string()).unwrap(),
            public_key: owner.public_key(),
            endpoint_id: "other-endpoint".into(),
        },
    );
    let mut registry = MembershipRegistry::new();
    registry.apply(&genesis, b"genesis").unwrap();
    assert_eq!(
        registry.apply(&same_peer, b"same peer"),
        Err(MembershipError::DuplicatePeerId)
    );
    assert_eq!(
        registry.apply(&same_key, b"same key"),
        Err(MembershipError::DuplicateMember)
    );
}

#[test]
fn second_genesis_and_foreign_endpoint_binding_are_unauthorized() {
    let owner = Identity::new(1, "owner");
    let other = Identity::new(2, "other");
    let genesis = signed(
        &owner,
        b"genesis",
        MembershipEvent::Genesis {
            peer_id: owner.peer_id(),
            public_key: owner.public_key(),
            endpoint_id: "owner-endpoint".into(),
        },
    );
    let second = signed(
        &other,
        b"second genesis",
        MembershipEvent::Genesis {
            peer_id: other.peer_id(),
            public_key: other.public_key(),
            endpoint_id: "other-endpoint".into(),
        },
    );
    let binding = signed(
        &owner,
        b"bind",
        MembershipEvent::EndpointBound {
            public_key: other.public_key(),
            endpoint_id: "x".into(),
        },
    );
    let own_binding = signed(
        &owner,
        b"bind own",
        MembershipEvent::EndpointBound {
            public_key: owner.public_key(),
            endpoint_id: "another-endpoint".into(),
        },
    );
    let mut registry = MembershipRegistry::new();
    registry.apply(&genesis, b"genesis").unwrap();
    assert_eq!(
        registry.apply(&second, b"second genesis"),
        Err(MembershipError::UnauthorizedEvent)
    );
    assert_eq!(
        registry.apply(&binding, b"bind"),
        Err(MembershipError::UnauthorizedEvent)
    );
    assert_eq!(registry.apply(&own_binding, b"bind own"), Ok(true));
    let member = registry.member(&owner.fingerprint()).unwrap();
    assert_eq!(
        member.endpoint_ids,
        vec!["another-endpoint".to_string(), "owner-endpoint".to_string()]
    );
}
