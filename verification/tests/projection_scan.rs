use xo::domain::FrontmatterValue;
use xo::markdown::{MarkdownDocument, MarkdownError};
use xo::projection::{scan_documents, Diagnostic, ScannedFile};
use xo::yaml::{frontmatter_of_yaml, YamlNode};

fn note(path: &str, id: FrontmatterValue, body: &str) -> ScannedFile {
    (
        path.to_owned(),
        Ok(MarkdownDocument {
            frontmatter: Some(vec![("id".to_owned(), id), ("title".to_owned(), FrontmatterValue::String(path.to_owned()))]),
            body: body.to_owned(),
        }),
    )
}

fn diagnostic(path: &str, code: &str, message: &str) -> Diagnostic {
    Diagnostic { path: path.to_owned(), code: code.to_owned(), message: message.to_owned() }
}

#[test]
fn malformed_frontmatter_is_diagnosed() {
    let sequence = YamlNode::Sequence(vec![YamlNode::String("a".to_owned())]);
    assert_eq!(frontmatter_of_yaml(&sequence), Err(MarkdownError::UnsupportedValue));
    let files = vec![("broken.md".to_owned(), Err(MarkdownError::InvalidYaml("did not find expected key".to_owned())))];
    let report = scan_documents(&files);
    assert!(report.notes.is_empty());
    assert_eq!(
        report.diagnostics,
        vec![diagnostic("broken.md", "malformed-markdown", "invalid YAML frontmatter: did not find expected key")]
    );
}

#[test]
fn every_file_becomes_a_note_or_a_diagnostic() {
    let files = vec![
        note("a.md", FrontmatterValue::String("aaaaaaa".to_owned()), "first"),
        ("b.md".to_owned(), Ok(MarkdownDocument { frontmatter: None, body: "plain".to_owned() })),
        note("c.md", FrontmatterValue::Integer(7), "numeric id"),
        note("d.md", FrontmatterValue::String("Not-An-Id".to_owned()), "bad id"),
        note("e.md", FrontmatterValue::String("aaaaaaa".to_owned()), "again"),
        note("f.md", FrontmatterValue::String("bbbbbbb".to_owned()), "second"),
    ];
    let report = scan_documents(&files);
    assert_eq!(report.notes.len(), 2);
    assert_eq!(report.notes[0].id.0, "aaaaaaa");
    assert_eq!(report.notes[0].path, "a.md");
    assert_eq!(report.notes[0].body, "first");
    assert_eq!(report.notes[0].frontmatter.len(), 2);
    assert_eq!(report.notes[1].id.0, "bbbbbbb");
    assert_eq!(report.notes[1].path, "f.md");
    assert_eq!(
        report.diagnostics,
        vec![
            diagnostic("b.md", "missing-frontmatter", "Markdown document has no YAML frontmatter"),
            diagnostic("c.md", "missing-id", "frontmatter has no string id"),
            diagnostic("d.md", "invalid-id", "invalid note ID: Not-An-Id"),
            diagnostic("e.md", "duplicate-id", "note ID aaaaaaa is already used by a.md"),
        ]
    );
}

#[test]
fn yaml_mappings_are_kept_in_key_order_with_the_last_value_winning() {
    let document = YamlNode::Mapping(vec![
        (YamlNode::String("title".to_owned()), YamlNode::String("First".to_owned())),
        (YamlNode::String("id".to_owned()), YamlNode::Tagged(Box::new(YamlNode::String("note002".to_owned())))),
        (YamlNode::String("count".to_owned()), YamlNode::Unsigned(5)),
        (YamlNode::String("title".to_owned()), YamlNode::String("Second".to_owned())),
        (
            YamlNode::String("tags".to_owned()),
            YamlNode::Sequence(vec![YamlNode::String("x".to_owned()), YamlNode::Bool(true), YamlNode::Null]),
        ),
    ]);
    assert_eq!(
        frontmatter_of_yaml(&document),
        Ok(vec![
            ("count".to_owned(), FrontmatterValue::Integer(5)),
            ("id".to_owned(), FrontmatterValue::String("note002".to_owned())),
            (
                "tags".to_owned(),
                FrontmatterValue::Sequence(vec![
                    FrontmatterValue::String("x".to_owned()),
                    FrontmatterValue::Bool(true),
                    FrontmatterValue::Null,
                ])
            ),
            ("title".to_owned(), FrontmatterValue::String("Second".to_owned())),
        ])
    );
}

#[test]
fn yaml_refusals() {
    assert_eq!(frontmatter_of_yaml(&YamlNode::Null), Ok(vec![]));
    let numeric_key = YamlNode::Mapping(vec![(YamlNode::Integer(1), YamlNode::Null)]);
    assert_eq!(frontmatter_of_yaml(&numeric_key), Err(MarkdownError::NonStringKey));
    let huge = YamlNode::Mapping(vec![(YamlNode::String("n".to_owned()), YamlNode::Unsigned(u64::MAX))]);
    assert_eq!(frontmatter_of_yaml(&huge), Err(MarkdownError::UnsupportedValue));
    let nested = YamlNode::Mapping(vec![(
        YamlNode::String("m".to_owned()),
        YamlNode::Mapping(vec![(YamlNode::String("b".to_owned()), YamlNode::Float(1.5f64.to_bits()))]),
    )]);
    assert_eq!(
        frontmatter_of_yaml(&nested),
        Ok(vec![(
            "m".to_owned(),
            FrontmatterValue::Mapping(vec![("b".to_owned(), FrontmatterValue::Float(1.5f64.to_bits()))])
        )])
    );
}
