use ed25519_dalek::{Signer, SigningKey};
use xo::auth::{
    issuer_matches, token_grants, trim_trailing_slashes, BrowserAuthConfig, READ_PERMISSION,
    SYNC_PERMISSION, WRITE_PERMISSION,
};
use xo::authenticated_change::{AuthenticatedChangeError, ChangeHeader, SignedAutomergeChange};
use xo::backup::{
    backup_entry, backup_manifest, check_schema, relative_string, validate_relative,
    verify_entry, BackupError, BACKUP_SCHEMA,
};
use xo::central_sync::{validate_sync_message, ControlMessage, MAX_SYNC_MESSAGE_BYTES};
use xo::llm::{first_header_value, render_document, request_origin, valid_host};
use xo::peer_protocol::{check_invitation, invitation_bytes, invitation_ticket, ProtocolError};
use xo::pwa::{cache_control, content_type, serve, serve_head, EmbeddedAsset, PwaBody};
use xo::record_workspace::{record_kind, AuthoredRecordKind};
use xo::rotation::{check_rotation, reinvite_endpoints, RotationDevice, RotationRefusal};
use xo::watcher::{is_projection_path, order_events, ProjectionEvent};
use xo::ActorId;

fn assets() -> Vec<EmbeddedAsset> {
    ["assets/app-dev.js", "index.html", "manifest.webmanifest", "sw.js"]
        .iter()
        .map(|path| EmbeddedAsset {
            path: (*path).to_owned(),
            bytes: path.as_bytes().to_vec(),
        })
        .collect()
}

#[test]
fn root_and_spa_routes_use_embedded_index_without_masking_missing_assets() {
    let assets = assets();
    let root = serve(&assets, "/");
    assert_eq!(root.status, 200);
    assert_eq!(root.cache_control, "no-cache");
    assert_eq!(root.body, PwaBody::Asset(1));
    assert_eq!(serve(&assets, "/notes/abcdefg").status, 200);
    assert_eq!(serve(&assets, "/missing.js").status, 404);
}

#[test]
fn cache_and_content_type_rules_are_stable() {
    let assets = assets();
    let script = serve(&assets, "/assets/app-dev.js");
    assert_eq!(script.status, 200);
    assert_eq!(script.content_type, "text/javascript; charset=utf-8");
    assert_eq!(script.cache_control, "public, max-age=31536000, immutable");
    assert_eq!(serve(&assets, "/sw.js").cache_control, "no-cache");
    assert_eq!(content_type("runtime.wasm"), "application/wasm");
    assert_eq!(content_type("manifest.webmanifest"), "application/manifest+json");
}

#[test]
fn missing_assets_answer_with_uncached_text() {
    let assets = assets();
    let missing = serve(&assets, "/assets/gone.css");
    assert_eq!(missing.status, 404);
    assert_eq!(missing.content_type, "text/plain; charset=utf-8");
    assert_eq!(missing.cache_control, "no-store");
    assert_eq!(missing.body, PwaBody::NotFound);
    let head = serve_head(&assets, "/index.html");
    assert_eq!(head.status, 200);
    assert_eq!(head.content_type, "text/html; charset=utf-8");
    assert_eq!(head.body, PwaBody::Empty);
    assert_eq!(content_type("archive"), "application/octet-stream");
    assert_eq!(content_type("a.b/c.PNG"), "application/octet-stream");
    assert_eq!(cache_control("assetsx/a.js"), "no-cache");
}

#[test]
fn extensionless_route_without_shell_is_not_found() {
    let assets = vec![EmbeddedAsset { path: "app.js".into(), bytes: Vec::new() }];
    assert_eq!(serve(&assets, "/dashboard").status, 404);
    assert_eq!(serve(&assets, "app.js").body, PwaBody::Asset(0));
}

#[test]
fn backup_paths_stay_inside_the_backup() {
    assert!(validate_relative("notes/a.md").is_ok());
    assert!(validate_relative("a/..b/c").is_ok());
    assert_eq!(validate_relative(""), Err(BackupError::InvalidPath(String::new())));
    assert_eq!(validate_relative("/etc/passwd"), Err(BackupError::InvalidPath("/etc/passwd".into())));
    assert_eq!(validate_relative("a/../../b"), Err(BackupError::InvalidPath("a/../../b".into())));
    assert_eq!(validate_relative(".."), Err(BackupError::InvalidPath("..".into())));
    assert_eq!(relative_string("keys\\peer.key"), Ok("keys/peer.key".to_owned()));
    assert_eq!(relative_string("..\\x"), Err(BackupError::InvalidPath("../x".into())));
}

#[test]
fn verified_entries_reject_corruption() {
    let bytes = b"peer state".to_vec();
    let entry = backup_entry("state/db".into(), &bytes, Some(0o600));
    assert_eq!(entry.size, 10);
    assert_eq!(entry.blake3, blake3::hash(&bytes).to_hex().to_string());
    assert_eq!(verify_entry(&entry, &bytes), Ok(()));
    let mut damaged = bytes.clone();
    damaged[0] ^= 1;
    assert_eq!(verify_entry(&entry, &damaged), Err(BackupError::Verification("state/db".into())));
    let mut longer = bytes.clone();
    longer.push(0);
    assert!(verify_entry(&entry, &longer).is_err());
    let manifest = backup_manifest(vec![entry]);
    assert_eq!(manifest.schema, BACKUP_SCHEMA);
    assert_eq!(check_schema(&manifest), Ok(()));
    let mut future = manifest.clone();
    future.schema = 2;
    assert_eq!(
        check_schema(&future),
        Err(BackupError::Verification("unsupported manifest schema".into()))
    );
}

#[test]
fn issuers_match_up_to_trailing_slashes() {
    assert_eq!(trim_trailing_slashes("https://id.example.test///"), "https://id.example.test");
    assert!(issuer_matches("https://id.example.test/", "https://id.example.test"));
    assert!(!issuer_matches("https://id.example.test", "https://other.example.test"));
    let config = BrowserAuthConfig::new("https://id.example.test/".into(), "xo", "https://notes.example.test/");
    assert_eq!(config.issuer, "https://id.example.test/");
    assert_eq!(config.client_id, "xo");
    assert_eq!(config.resource, "https://notes.example.test");
    assert_eq!(config.scopes, vec![READ_PERMISSION, WRITE_PERMISSION, SYNC_PERMISSION]);
}

#[test]
fn token_permissions_come_from_scope_words_and_claims() {
    assert!(token_grants("openid xo:read\txo:write", &vec![], "xo:write"));
    assert!(!token_grants("openid xo:readwrite", &vec![], "xo:read"));
    assert!(!token_grants("xo:read", &vec![], ""));
    assert!(token_grants("", &vec!["xo:sync".to_owned()], "xo:sync"));
    assert!(!token_grants("xo: sync", &vec!["xo:read".to_owned()], "xo:sync"));
}

#[test]
fn forwarded_origin_is_reflected_only_when_safe() {
    assert_eq!(
        request_origin(Some("https"), Some("notes.example.test"), Some("127.0.0.1:9464")),
        "https://notes.example.test"
    );
    assert_eq!(
        request_origin(Some("javascript"), Some("example.test/path"), Some("localhost:9464")),
        "http://localhost:9464"
    );
    assert_eq!(request_origin(None, None, None), "http://localhost");
    assert_eq!(request_origin(Some(" https , http"), Some("a.test, b.test"), None), "https://a.test");
    assert_eq!(first_header_value("  x , y"), "x");
    assert!(valid_host("[::1]:80"));
    assert!(!valid_host("ex ample"));
    assert_eq!(
        render_document("Base URL: {{BASE_URL}}\n{{BASE_URL}}/api", "https://n.test"),
        "Base URL: https://n.test\nhttps://n.test/api"
    );
}

fn device(author: &str, endpoint: &str, retired: bool) -> RotationDevice {
    RotationDevice {
        author_id: ActorId::new(author),
        endpoint_id: endpoint.into(),
        retired,
    }
}

#[test]
fn rotation_reinvites_only_active_endpoints() {
    let devices = vec![
        device("a", "endpoint-z", false),
        device("b", "endpoint-r", true),
        device("c", "endpoint-a", false),
        device("d", "endpoint-z", false),
    ];
    assert_eq!(check_rotation(0, &devices, &ActorId::new("a")), Ok(()));
    assert_eq!(check_rotation(2, &devices, &ActorId::new("a")), Err(RotationRefusal::SourceDiagnostics(2)));
    assert_eq!(
        check_rotation(0, &devices, &ActorId::new("b")),
        Err(RotationRefusal::RotatingAuthorRetired)
    );
    assert_eq!(
        check_rotation(0, &devices[..1].to_vec(), &ActorId::new("a")),
        Err(RotationRefusal::NoRetiredDevice)
    );
    assert_eq!(reinvite_endpoints(&devices), vec!["endpoint-a".to_owned(), "endpoint-z".to_owned()]);
}

fn components(path: &str) -> Vec<String> {
    let mut parts = vec!["/".to_owned()];
    parts.extend(path.split('/').filter(|part| !part.is_empty()).map(str::to_owned));
    parts
}

#[test]
fn projection_paths_coalesce_and_skip_hidden_state() {
    let root = components("tmp/projection");
    assert!(is_projection_path(&root, &components("tmp/projection/notes/old.md")));
    assert!(!is_projection_path(&root, &components("tmp/projection/.xo/state.md")));
    assert!(!is_projection_path(&root, &components("tmp/projection/assets/picture.md")));
    assert!(!is_projection_path(&root, &components("tmp/elsewhere/note.md")));
    let events = order_events(
        vec!["/tmp/projection/notes/new.md".into(), "/tmp/projection/notes/old.md".into()],
        &vec![true, false],
    );
    assert_eq!(
        events,
        vec![
            ProjectionEvent::Upsert("/tmp/projection/notes/new.md".into()),
            ProjectionEvent::Remove("/tmp/projection/notes/old.md".into()),
        ]
    );
    assert_eq!(events[1].path(), "/tmp/projection/notes/old.md");
}

#[test]
fn projection_paths_include_only_supported_configuration() {
    let root = components("w");
    assert!(is_projection_path(&root, &components("w/xo.scm")));
    assert!(!is_projection_path(&root, &components("w/unsupported.scm")));
    assert!(is_projection_path(&root, &components("w/modules/views/books.scm")));
    assert!(is_projection_path(&root, &components("w/plugins/hardcover.scm")));
    assert!(!is_projection_path(&root, &components("w/script.scm")));
    assert!(!is_projection_path(&root, &components("w/modules/.hidden.scm")));
}

#[test]
fn authored_records_are_recognised_by_key() {
    assert_eq!(record_kind(b"note/abc/revision/r1", false), Some(AuthoredRecordKind::NoteRevision));
    assert_eq!(record_kind(b"note/abc/head/actor", false), Some(AuthoredRecordKind::Head));
    assert_eq!(record_kind(b"config/xo.scm/r1", false), Some(AuthoredRecordKind::ConfigRevision));
    assert_eq!(record_kind(b"tombstone/abc", false), Some(AuthoredRecordKind::Tombstone));
    assert_eq!(record_kind(b"device/laptop", false), None);
    assert_eq!(record_kind(b"device/laptop", true), Some(AuthoredRecordKind::Device));
    assert_eq!(record_kind(&[0xff, b'/'], true), None);
    assert_eq!(record_kind(b"asset/a", true), None);
}

#[test]
fn signed_changes_bind_actor_sequence_hash_and_signature() {
    let key = SigningKey::from_bytes(&[5; 32]);
    let public_key = key.verifying_key().to_bytes();
    let header = ChangeHeader { actor: public_key.to_vec(), sequence: 3, hash: "abc".into() };
    let payload = b"canonical payload".to_vec();
    let signature = key.sign(&payload).to_bytes().to_vec();
    let signed = SignedAutomergeChange::assemble(
        "workspace-a".into(),
        public_key,
        &header,
        vec![1, 2, 3],
        signature,
    )
    .unwrap();
    assert_eq!(signed.verify(&header, &payload), Ok(()));
    assert_eq!(signed.change_bytes_hash(), blake3::hash(&[1, 2, 3]).to_hex().to_string());
    assert_eq!(
        signed.verify(&header, b"other payload"),
        Err(AuthenticatedChangeError::InvalidSignature)
    );
    let later = ChangeHeader { sequence: 4, ..header.clone() };
    assert_eq!(signed.verify(&later, &payload), Err(AuthenticatedChangeError::SequenceMismatch));
    let rehashed = ChangeHeader { hash: "abd".into(), ..header.clone() };
    assert_eq!(signed.verify(&rehashed, &payload), Err(AuthenticatedChangeError::HashMismatch));
    let stranger = ChangeHeader { actor: vec![9; 32], ..header.clone() };
    assert_eq!(signed.verify(&stranger, &payload), Err(AuthenticatedChangeError::ActorMismatch));
    let mut short = signed.clone();
    short.signature.pop();
    assert_eq!(short.verify(&header, &payload), Err(AuthenticatedChangeError::InvalidSignatureLength));
    assert_eq!(
        SignedAutomergeChange::assemble("w".into(), [9; 32], &header, vec![], vec![]),
        Err(AuthenticatedChangeError::ActorMismatch)
    );
}

#[test]
fn invitation_tickets_are_base64_of_checked_invitations() {
    let ticket = invitation_ticket(1, 1, b"encoded invitation").unwrap();
    assert_eq!(invitation_bytes(&format!("  {ticket}\n")), Ok(b"encoded invitation".to_vec()));
    assert_eq!(invitation_ticket(2, 1, b"x"), Err(ProtocolError::InvalidInvitation));
    assert_eq!(invitation_ticket(1, 0, b"x"), Err(ProtocolError::InvalidInvitation));
    assert_eq!(invitation_bytes("***"), Err(ProtocolError::InvalidInvitation));
    assert_eq!(check_invitation(1, "workspace", 1), Ok(()));
    assert_eq!(check_invitation(1, "", 1), Err(ProtocolError::InvalidInvitation));
    assert_eq!(check_invitation(1, "workspace", 0), Err(ProtocolError::InvalidInvitation));
}

#[test]
fn invalid_identifiers_versions_and_frames_are_rejected() {
    assert!(ControlMessage::client_hello("contains spaces".into()).validate().is_err());
    assert!(ControlMessage::ClientHello { protocol_version: 2, client_id: "browser".into() }
        .validate()
        .is_err());
    assert!(validate_sync_message(&[]).is_err());
    assert!(validate_sync_message(&vec![0; MAX_SYNC_MESSAGE_BYTES + 1]).is_err());
}
