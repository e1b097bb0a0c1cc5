use ed25519_dalek::{Signer, SigningKey};
use xo::encryption::{
    envelope_body, envelope_json, is_encrypted, open, seal, EncryptionError, Envelope, PREFIX,
};
use xo::legacy_config::{diagnose_legacy_module, MigrationError, LEGACY_MODULE_ADVICE};
use xo::membership::PeerId;
use xo::paths::{extension, file_name};
use xo::peer_protocol::{verify_signature, AuthHello, GossipAnnouncement, JoinRequest, ProtocolError};
use xo::steel_runtime::{valid_config_path, valid_module_path, valid_plugin_path};

#[test]
fn round_trip_binds_ciphertext_to_note_id() {
    let envelope = seal("note001", "hunter2", "secret", [7; 16], [9; 12]).unwrap();
    assert_eq!(open("note001", "hunter2", &envelope).unwrap(), "secret");
    assert_eq!(open("note002", "hunter2", &envelope), Err(EncryptionError::Decrypt));
    assert_eq!(open("note001", "wrong", &envelope), Err(EncryptionError::Decrypt));
}

#[test]
fn malformed_envelopes_are_refused_before_key_derivation() {
    let envelope = seal("note001", "hunter2", "secret", [7; 16], [9; 12]).unwrap();
    let mut other_kdf = envelope.clone();
    other_kdf.kdf = "scrypt".into();
    assert_eq!(open("note001", "hunter2", &other_kdf), Err(EncryptionError::InvalidEnvelope));
    let mut short_salt = envelope.clone();
    short_salt.s = "AAAA".into();
    assert_eq!(open("note001", "hunter2", &short_salt), Err(EncryptionError::InvalidEnvelope));
    let mut not_base64 = envelope.clone();
    not_base64.ct = "***".into();
    assert_eq!(open("note001", "hunter2", &not_base64), Err(EncryptionError::InvalidEnvelope));
    let mut zero_lanes: Envelope = envelope;
    zero_lanes.p = 0;
    assert_eq!(open("note001", "hunter2", &zero_lanes), Err(EncryptionError::InvalidEnvelope));
}

#[test]
fn envelopes_are_framed_after_the_prefix() {
    let body = envelope_body(b"{\"v\":1}");
    assert!(body.starts_with(PREFIX));
    assert!(is_encrypted(&body));
    assert!(!is_encrypted("plain text"));
    assert_eq!(envelope_json(&body), Ok(b"{\"v\":1}".to_vec()));
    assert_eq!(envelope_json("plain"), Err(EncryptionError::NotEncrypted));
    assert_eq!(envelope_json("exo-encrypted:v1:!!"), Err(EncryptionError::InvalidEnvelope));
}

#[test]
fn envelope_bodies_use_unpadded_url_safe_base64() {
    assert_eq!(envelope_body(b"{}"), format!("{PREFIX}e30"));
    assert_eq!(envelope_body(&[0xfb, 0xff]), format!("{PREFIX}-_8"));
    assert_eq!(envelope_body(b"abc"), format!("{PREFIX}YWJj"));
    assert_eq!(envelope_body(b""), PREFIX.to_owned());
}

#[test]
fn file_names_and_extensions_follow_std_path() {
    for path in ["a/b.lua", "x.tar.gz", ".hidden", "..", "a/..", "a/b/.", "dir/", "/", ".", "a.", "..lua", "./x.fnl", "a//b.c"] {
        let std_path = std::path::Path::new(path);
        assert_eq!(
            file_name(path).as_deref(),
            std_path.file_name().and_then(|v| v.to_str()),
            "file name of {path}"
        );
        assert_eq!(
            extension(path).as_deref(),
            std_path.extension().and_then(|v| v.to_str()),
            "extension of {path}"
        );
    }
}

#[test]
fn legacy_modules_are_diagnosed() {
    assert_eq!(
        diagnose_legacy_module("modules/old.FNL"),
        Some(MigrationError::Unsupported {
            location: "modules/old.FNL".into(),
            construct: LEGACY_MODULE_ADVICE.into()
        })
    );
    assert!(diagnose_legacy_module("init.lua").is_some());
    assert!(diagnose_legacy_module("modules/new.scm").is_none());
    assert!(diagnose_legacy_module(".lua").is_none());
}

#[test]
fn configuration_paths_are_confined() {
    assert!(valid_config_path("xo.scm"));
    assert!(valid_config_path("modules/actions/main.scm"));
    assert!(valid_config_path("plugins/hardcover.scm"));
    assert!(!valid_config_path("modules/../xo.scm"));
    assert!(!valid_config_path("modules//x.scm"));
    assert!(!valid_config_path("modules/./x.scm"));
    assert!(!valid_config_path("modules/x.fnl"));
    assert!(!valid_config_path("other/x.scm"));
    assert!(valid_module_path("modules/a.scm"));
    assert!(!valid_module_path("plugins/a.scm"));
    assert!(valid_plugin_path("plugins/a.scm"));
}

fn key() -> SigningKey {
    SigningKey::from_bytes(&[4; 32])
}

#[test]
fn signed_protocol_messages_verify_against_their_payload() {
    let key = key();
    let payload = b"canonical payload".to_vec();
    let signature = key.sign(&payload).to_bytes().to_vec();
    let request = JoinRequest {
        version: 1,
        workspace_id: "workspace".into(),
        peer_id: PeerId::parse("phone".to_string()).unwrap(),
        public_key: key.verifying_key().to_bytes(),
        endpoint_id: "endpoint".into(),
        endpoint_addresses: vec![],
        requested_at_ms: 10,
        nonce: [1; 32],
        signature: signature.clone(),
    };
    assert_eq!(request.verify(&payload), Ok(()));
    assert_eq!(request.verify(b"other"), Err(ProtocolError::InvalidSignature));

    let hello = AuthHello {
        version: 2,
        workspace_id: "workspace".into(),
        peer_id: PeerId::parse("phone".to_string()).unwrap(),
        public_key: key.verifying_key().to_bytes(),
        endpoint_id: "endpoint".into(),
        nonce: [1; 32],
        remote_nonce: [2; 32],
        signature: signature.clone(),
    };
    assert_eq!(hello.verify(&payload), Err(ProtocolError::InvalidAuthHello));

    let announcement = GossipAnnouncement {
        version: 1,
        workspace_id: String::new(),
        peer_id: PeerId::parse("phone".to_string()).unwrap(),
        public_key: key.verifying_key().to_bytes(),
        endpoint_id: "endpoint".into(),
        heads: vec!["head".into()],
        timestamp_ms: 5,
        signature,
    };
    assert_eq!(announcement.verify(&payload), Err(ProtocolError::InvalidAnnouncement));
    assert_eq!(
        verify_signature(&key.verifying_key().to_bytes(), &payload, &[0; 3]),
        Err(ProtocolError::InvalidSignatureLength)
    );
}
