use xo::domain::{DomainError, FrontmatterValue, Note, NoteRevision, SchemaVersion};
use xo::workspace_projection::{is_config_path, local_revision};
use xo::{ActorId, Hlc, NoteId, RevisionId};

#[test]
fn configuration_paths_are_the_root_files_and_plain_modules() {
    assert!(is_config_path("xo.scm"));
    assert!(is_config_path("exo.scm"));
    assert!(is_config_path("modules/views/books.scm"));
    assert!(is_config_path("modules/x.y.scm"));
    assert!(!is_config_path("modules/.scm"));
    assert!(!is_config_path("modules/a/../b.scm"));
    assert!(!is_config_path("modules/./b.scm"));
    assert!(!is_config_path("modules//b.scm"));
    assert!(!is_config_path("modules/b.scm/"));
    assert!(!is_config_path("modules/b.txt"));
    assert!(!is_config_path("plugins/hardcover.scm"));
    assert!(!is_config_path("notes/xo.scm"));
    assert!(!is_config_path("script.scm"));
}

fn hlc(actor: &str, logical: u32) -> Hlc {
    Hlc {
        physical_ms: 4_000_000_000_000,
        logical,
        actor_id: ActorId::new(actor),
    }
}

fn frontmatter() -> Vec<(String, FrontmatterValue)> {
    vec![
        ("id".to_owned(), FrontmatterValue::String("note002".to_owned())),
        ("title".to_owned(), FrontmatterValue::String("Lifecycle".to_owned())),
    ]
}

fn base() -> NoteRevision {
    NoteRevision {
        schema: SchemaVersion(1),
        note_id: NoteId::new("note002"),
        frontmatter: frontmatter(),
        body: "initial\n".to_owned(),
        materialized_path: "notes/initial.md".to_owned(),
        hlc: hlc("local", 0),
        author_id: ActorId::new("local"),
        predecessors: Vec::new(),
        deleted: false,
    }
}

fn note(body: &str, path: &str) -> Note {
    Note {
        id: NoteId::new("note002"),
        frontmatter: frontmatter(),
        body: body.to_owned(),
        path: path.to_owned(),
    }
}

#[test]
fn local_create_becomes_an_initial_revision_without_predecessors() {
    let revision = local_revision(None, b"", note("new note\n", "notes/new.md"), hlc("local", 1), ActorId::new("local"))
        .unwrap()
        .unwrap();
    assert_eq!(revision.note_id, NoteId::new("note002"));
    assert!(revision.predecessors.is_empty());
    assert!(!revision.deleted);
    assert_eq!(revision.body, "new note\n");
    assert_eq!(revision.materialized_path, "notes/new.md");
}

#[test]
fn an_unchanged_note_needs_no_revision() {
    let base = base();
    assert_eq!(
        local_revision(Some(&base), b"base", note("initial\n", "notes/initial.md"), hlc("local", 1), ActorId::new("local")),
        Ok(None)
    );
}

#[test]
fn local_edits_and_renames_revise_the_winning_revision() {
    let base = base();
    let edited = local_revision(Some(&base), b"base", note("locally edited\n", "notes/initial.md"), hlc("local", 1), ActorId::new("local"))
        .unwrap()
        .unwrap();
    assert_eq!(edited.body, "locally edited\n");
    assert_eq!(
        edited.predecessors,
        vec![RevisionId(blake3::hash(b"base").to_hex().to_string())]
    );
    let renamed = local_revision(Some(&base), b"base", note("initial\n", "archive/renamed.md"), hlc("local", 1), ActorId::new("local"))
        .unwrap()
        .unwrap();
    assert_eq!(renamed.materialized_path, "archive/renamed.md");
    assert!(!renamed.deleted);
}

#[test]
fn writing_a_deleted_note_back_restores_it() {
    let mut deleted = base();
    deleted.deleted = true;
    let restored = local_revision(Some(&deleted), b"gone", note("initial\n", "notes/initial.md"), hlc("local", 2), ActorId::new("local"))
        .unwrap()
        .unwrap();
    assert!(!restored.deleted);
}

#[test]
fn a_frontmatter_change_is_a_change() {
    let base = base();
    let mut changed = note("initial\n", "notes/initial.md");
    changed.frontmatter[1].1 = FrontmatterValue::String("Renamed".to_owned());
    assert!(local_revision(Some(&base), b"base", changed, hlc("local", 1), ActorId::new("local"))
        .unwrap()
        .is_some());
}

#[test]
fn local_changes_are_validated() {
    let base = base();
    assert!(matches!(
        local_revision(Some(&base), b"base", note("x\n", "../escape.md"), hlc("local", 1), ActorId::new("local")),
        Err(DomainError::InvalidPath(_))
    ));
    assert_eq!(
        local_revision(Some(&base), b"base", note("x\n", "notes/a.md"), hlc("other", 1), ActorId::new("local")),
        Err(DomainError::AuthorMismatch)
    );
}

#[test]
fn frontmatter_numbers_compare_as_numbers() {
    let zero = FrontmatterValue::Float(0.0f64.to_bits());
    let negative_zero = FrontmatterValue::Float((-0.0f64).to_bits());
    let nan = FrontmatterValue::Float(f64::NAN.to_bits());
    assert!(zero.equals(&negative_zero));
    assert!(!nan.equals(&nan));
    assert!(!zero.equals(&FrontmatterValue::Integer(0)));
    let a = FrontmatterValue::Mapping(vec![("k".to_owned(), FrontmatterValue::Sequence(vec![FrontmatterValue::Bool(true)]))]);
    let b = FrontmatterValue::Mapping(vec![("k".to_owned(), FrontmatterValue::Sequence(vec![FrontmatterValue::Bool(true)]))]);
    let c = FrontmatterValue::Mapping(vec![("j".to_owned(), FrontmatterValue::Sequence(vec![FrontmatterValue::Bool(true)]))]);
    assert!(a.equals(&b));
    assert!(!a.equals(&c));
}
