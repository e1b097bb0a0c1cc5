use xo::steel_runtime::SteelConfigError;
use xo::xo_config::{parse_xo_config, XoConfig};

fn refusal(offset: usize, message: &str) -> Result<XoConfig, SteelConfigError> {
    Err(SteelConfigError::NativeConfig { offset, message: message.to_owned() })
}

#[test]
fn complete_file_is_read_field_by_field() {
    let source = r#"(xo-config
  ; where the daemon keeps its state
  (schema 1)
  (state-dir "~/.local/state/xo")
  (peer-id #f)
  (workspace "notes")
  (projection "/home/me/notes")
  (pwa-url "https://xo.exokephalos.dev/")
  (leader-key "space"))
"#;
    assert_eq!(
        parse_xo_config(source),
        Ok(XoConfig {
            schema: 1,
            state_dir: "~/.local/state/xo".to_owned(),
            peer_id: None,
            workspace: Some("notes".to_owned()),
            projection: "/home/me/notes".to_owned(),
            pwa_url: "https://xo.exokephalos.dev/".to_owned(),
            leader_key: "space".to_owned(),
        })
    );
}

#[test]
fn string_escapes_are_decoded_and_workspace_may_be_absent() {
    let source = r#"(xo-config (schema 7) (state-dir "a\"b") (peer-id "peer") (workspace #f) (projection ".") (pwa-url "u") (leader-key "k"))"#;
    assert_eq!(
        parse_xo_config(source),
        Ok(XoConfig {
            schema: 7,
            state_dir: "a\"b".to_owned(),
            peer_id: Some("peer".to_owned()),
            workspace: None,
            projection: ".".to_owned(),
            pwa_url: "u".to_owned(),
            leader_key: "k".to_owned(),
        })
    );
}

#[test]
fn a_field_given_twice_is_refused() {
    assert_eq!(parse_xo_config("(xo-config (schema 1) (schema 2))"), refusal(31, "duplicate field schema"));
}

#[test]
fn unknown_fields_and_ambient_calls_are_refused() {
    assert_eq!(parse_xo_config("(xo-config (env-var \"HOME\"))"), refusal(19, "unknown field env-var"));
    assert_eq!(parse_xo_config("(xo-config (state-dir (env-var \"HOME\")))"), refusal(23, "expected string"));
}

#[test]
fn missing_fields_are_reported_at_the_end() {
    assert_eq!(parse_xo_config("(xo-config (schema 1))"), refusal(22, "missing field state-dir"));
}

#[test]
fn other_forms_and_trailing_text_are_refused() {
    assert_eq!(parse_xo_config("(workspace-config)"), refusal(17, "expected xo-config, found workspace-config"));
    assert_eq!(parse_xo_config("(xo-config) (x)"), refusal(12, "unexpected trailing form"));
    assert_eq!(parse_xo_config("(xo-config (schema x))"), refusal(20, "schema must be an unsigned 16-bit integer"));
}

#[test]
fn oversized_files_are_refused() {
    let source = " ".repeat(1_048_577);
    assert_eq!(parse_xo_config(&source), Err(SteelConfigError::TooLarge));
}
