use sha2::Digest as _;
use xo::api_keys::{ApiKeyError, ApiKeys, TOKEN_PREFIX};

fn permissions(values: &[&str]) -> Vec<String> {
    let mut values: Vec<String> = values.iter().map(|v| v.to_string()).collect();
    values.sort();
    values.dedup();
    values
}

#[test]
fn keys_are_hashed_scoped_and_owned() {
    let mut keys = ApiKeys::new();
    let created = keys
        .create("alice", "  automation ", permissions(&["xo:read", "xo:write"]), [0xab; 32], 1700)
        .unwrap();
    assert!(created.token.starts_with(TOKEN_PREFIX));
    assert_eq!(created.token, format!("xok_{}", "ab".repeat(32)));
    assert_eq!(created.metadata.id, "ab".repeat(8));
    assert_eq!(created.metadata.label, "automation");
    assert_eq!(created.metadata.created_at, 1700);
    assert!(keys.authorize(&created.token, "xo:read"));
    assert!(!keys.authorize(&created.token, "xo:sync"));
    assert!(!keys.authorize("xok_other", "xo:read"));
    assert_eq!(keys.list("alice").len(), 1);
    assert!(keys.list("bob").is_empty());

    let stored = keys.stored()[0].clone();
    assert!(!stored.hash.contains(&created.token));
    let expected: String = sha2::Sha256::digest(created.token.as_bytes())
        .iter()
        .map(|b| format!("{b:02x}"))
        .collect();
    assert_eq!(stored.hash, expected);

    let mut reopened = ApiKeys::from_stored(keys.stored().to_vec());
    assert!(reopened.authorize(&created.token, "xo:write"));
    assert!(!reopened.remove("bob", &created.metadata.id));
    assert!(reopened.remove("alice", &created.metadata.id));
    assert!(!reopened.authorize(&created.token, "xo:read"));
    assert!(reopened.list("alice").is_empty());
}

#[test]
fn key_creation_validates_label_and_permissions() {
    let mut keys = ApiKeys::new();
    assert_eq!(
        keys.create("alice", "   ", permissions(&["xo:read"]), [1; 32], 0),
        Err(ApiKeyError::InvalidLabel)
    );
    assert_eq!(
        keys.create("alice", &"x".repeat(121), permissions(&["xo:read"]), [1; 32], 0),
        Err(ApiKeyError::InvalidLabel)
    );
    assert!(keys.create("alice", &"x".repeat(120), permissions(&["xo:read"]), [1; 32], 0).is_ok());
    assert_eq!(
        keys.create("alice", "label", vec![], [1; 32], 0),
        Err(ApiKeyError::NoPermissions)
    );
    assert_eq!(keys.stored().len(), 1);
}
