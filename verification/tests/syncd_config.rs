use xo::syncd_config::{
    default_path, parse_config, ConfigError, Parser, SyncdConfig, SyntaxProblem, CURRENT_SCHEMA,
};

#[test]
fn rejects_unknown_duplicate_and_trailing_forms() {
    for source in [
        "(xo-syncd-config (schema 1) (unknown \"x\"))",
        "(xo-syncd-config (schema 1) (bind #f) (bind #f))",
        "(xo-syncd-config (schema 1)) (+ 1 2)",
    ] {
        assert!(Parser::new(source).parse().is_err(), "accepted {source}");
    }
}

#[test]
fn configuration_errors_name_the_problem_and_byte() {
    assert_eq!(
        parse_config("(xo-syncd-config (schema 1) (unknown \"x\"))"),
        Err(ConfigError::Syntax {
            position: 36,
            problem: SyntaxProblem::UnknownField("unknown".into())
        })
    );
    assert_eq!(
        parse_config("(xo-syncd-config (schema 1) (bind #f) (bind #f))"),
        Err(ConfigError::Duplicate { field: "bind".into(), position: 46 })
    );
    assert_eq!(
        parse_config("(xo-syncd-config (schema 1)) (+ 1 2)"),
        Err(ConfigError::Syntax { position: 29, problem: SyntaxProblem::TrailingForm })
    );
    assert_eq!(parse_config("(xo-syncd-config)"), Err(ConfigError::MissingSchema));
    assert_eq!(
        parse_config("(xo-syncd-config (schema -1))"),
        Err(ConfigError::InvalidSchema { position: 27 })
    );
    assert_eq!(
        parse_config("(other)"),
        Err(ConfigError::Syntax {
            position: 6,
            problem: SyntaxProblem::ExpectedWord {
                expected: "xo-syncd-config".into(),
                found: "other".into()
            }
        })
    );
    assert_eq!(
        parse_config("(xo-syncd-config (bind \"open"),
        Err(ConfigError::Syntax { position: 28, problem: SyntaxProblem::UnterminatedString })
    );
    assert_eq!(
        parse_config("(xo-syncd-config (bind 12))"),
        Err(ConfigError::Syntax { position: 25, problem: SyntaxProblem::OptionalValue })
    );
    assert_eq!(
        parse_config("(xo-syncd-config (bind \"\\q\"))"),
        Err(ConfigError::InvalidString)
    );
    assert_eq!(
        parse_config("x"),
        Err(ConfigError::Syntax { position: 1, problem: SyntaxProblem::ExpectedChar('(') })
    );
    let large = format!("(xo-syncd-config (schema 1)){}", " ".repeat(65536));
    assert_eq!(parse_config(&large), Err(ConfigError::TooLarge));
}

#[test]
fn comments_whitespace_and_escapes_are_accepted() {
    let source = "; server\n(xo-syncd-config ; fields follow\n  (schema +1)\n  (bind \"127.0.0.1:9464\")\n  (oidc-issuer \"a\\\"b\")\n  (state-dir #f))\n; end\n";
    let config = parse_config(source).unwrap();
    assert_eq!(config.schema, 1);
    assert_eq!(config.bind.as_deref(), Some("127.0.0.1:9464"));
    assert_eq!(config.oidc_issuer.as_deref(), Some("a\"b"));
    assert_eq!(config.state_dir, None);
    assert_eq!(config.oidc_audience, None);
}

#[test]
fn document_round_trips() {
    let config = SyncdConfig {
        schema: 1,
        state_dir: Some("~/.local/share/xo-syncd".into()),
        bind: Some("127.0.0.1:9464".into()),
        oidc_issuer: Some("https://id.example.test".into()),
        oidc_audience: Some("https://notes.example.test".into()),
        oidc_client_id: None,
    };
    let document = config.document();
    assert!(document.contains("(state-dir \"~/.local/share/xo-syncd\")"));
    assert!(document.contains("(oidc-client-id #f))"));
    assert_eq!(parse_config(&document), Ok(config.clone()));
    assert_eq!(SyncdConfig::from_document(&document), Ok(config));
    assert_eq!(
        SyncdConfig::from_document("(xo-syncd-config (schema 2))"),
        Err(ConfigError::UnsupportedSchema(2))
    );
    let defaults = SyncdConfig::default();
    assert_eq!(defaults.schema, CURRENT_SCHEMA);
    assert_eq!(parse_config(&defaults.document()), Ok(defaults));
}

#[test]
fn default_path_is_under_the_home_directory() {
    assert_eq!(default_path("/home/test"), "/home/test/.config/xo-syncd/config.scm");
    assert_eq!(default_path("/home/test/"), "/home/test/.config/xo-syncd/config.scm");
    assert_eq!(default_path(""), ".config/xo-syncd/config.scm");
}
