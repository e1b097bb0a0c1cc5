use xo::domain::FrontmatterValue;
use xo::frontmatter::{find_entry, required_frontmatter, set_entry, tags};
use xo::markdown::{frame_document, MarkdownError};

fn text(value: &str) -> FrontmatterValue {
    FrontmatterValue::String(value.to_owned())
}

#[test]
fn entries_stay_in_key_order() {
    let mut entries = Vec::new();
    set_entry(&mut entries, "title".to_owned(), text("Hello"));
    set_entry(&mut entries, "created".to_owned(), text("today"));
    set_entry(&mut entries, "tags".to_owned(), FrontmatterValue::Sequence(Vec::new()));
    set_entry(&mut entries, "title".to_owned(), text("Again"));
    let keys: Vec<&str> = entries.iter().map(|(k, _)| k.as_str()).collect();
    assert_eq!(keys, vec!["created", "tags", "title"]);
    assert_eq!(entries[2].1, text("Again"));
    assert_eq!(find_entry(&entries, "tags"), Some(1));
    assert_eq!(find_entry(&entries, "missing"), None);
}

#[test]
fn tags_are_the_text_items_of_the_tags_list() {
    let entries = vec![
        (
            "tags".to_owned(),
            FrontmatterValue::Sequence(vec![text("rust"), FrontmatterValue::Integer(3), text("notes")]),
        ),
        ("title".to_owned(), text("Hello")),
    ];
    assert_eq!(tags(&entries), vec!["rust", "notes"]);
    let comma_text = vec![("tags".to_owned(), text("rust, notes"))];
    assert!(tags(&comma_text).is_empty());
    assert!(tags(&Vec::new()).is_empty());
}

#[test]
fn every_note_carries_identity_creation_tags_title_and_type() {
    let filled = required_frontmatter(Vec::new(), "abcdefg", "2026-01-02T03:04:05+00:00");
    assert_eq!(
        filled,
        vec![
            ("created".to_owned(), text("2026-01-02T03:04:05+00:00")),
            ("id".to_owned(), text("abcdefg")),
            ("tags".to_owned(), FrontmatterValue::Sequence(Vec::new())),
            ("title".to_owned(), text("Untitled")),
            ("type".to_owned(), text("note")),
        ]
    );
}

#[test]
fn existing_text_fields_are_kept_and_other_kinds_replaced() {
    let given = vec![
        ("id".to_owned(), text("old")),
        ("tags".to_owned(), text("a, b")),
        ("title".to_owned(), FrontmatterValue::Integer(1)),
        ("type".to_owned(), text("book")),
    ];
    let filled = required_frontmatter(given, "abcdefg", "now");
    assert_eq!(
        filled,
        vec![
            ("created".to_owned(), text("now")),
            ("id".to_owned(), text("abcdefg")),
            ("tags".to_owned(), text("a, b")),
            ("title".to_owned(), text("Untitled")),
            ("type".to_owned(), text("book")),
        ]
    );
    let listed = vec![("tags".to_owned(), FrontmatterValue::Bool(true))];
    let filled = required_frontmatter(listed, "abcdefg", "now");
    assert_eq!(filled[2], ("tags".to_owned(), FrontmatterValue::Sequence(Vec::new())));
}

#[test]
fn documents_are_framed_and_errors_explained() {
    assert_eq!(
        frame_document("title: Hello\n", "# Body\n"),
        "---\ntitle: Hello\n---\n# Body\n"
    );
    assert_eq!(
        MarkdownError::InvalidYaml("bad".to_owned()).message(),
        "invalid YAML frontmatter: bad"
    );
    assert_eq!(MarkdownError::NonStringKey.message(), "frontmatter keys must be strings");
    assert_eq!(MarkdownError::UnsupportedValue.message(), "unsupported YAML value");
}
