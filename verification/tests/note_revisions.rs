use xo::domain::{
    copy_entries, DomainError, FrontmatterValue, NoteRevision, SchemaVersion,
};
use xo::{ActorId, Hlc, NoteId, RevisionId};

fn timestamp(actor: &str, logical: u32) -> Hlc {
    Hlc {
        physical_ms: 100,
        logical,
        actor_id: ActorId::new(actor),
    }
}

fn revision() -> NoteRevision {
    NoteRevision {
        schema: SchemaVersion(1),
        note_id: NoteId::new("note002"),
        frontmatter: vec![(
            "title".to_owned(),
            FrontmatterValue::String("A note".to_owned()),
        )],
        body: "body".to_owned(),
        materialized_path: "notes/a-note.md".to_owned(),
        hlc: timestamp("device-a", 0),
        author_id: ActorId::new("device-a"),
        predecessors: Vec::new(),
        deleted: false,
    }
}

fn blake3_hex(bytes: &[u8]) -> String {
    blake3::hash(bytes).to_hex().to_string()
}

#[test]
fn rejects_non_finite_frontmatter_before_hashing() {
    let mut revision = revision();
    revision.frontmatter.push((
        "broken".to_owned(),
        FrontmatterValue::Float(f64::NAN.to_bits()),
    ));
    assert_eq!(revision.id(b"canonical"), Err(DomainError::NonFiniteNumber));
}

#[test]
fn delete_restore_and_rename_form_a_predecessor_chain() {
    let base = revision();
    let base_bytes = b"base revision".as_slice();
    let base_id = base.id(base_bytes).unwrap();
    let deleted = base
        .delete(base_bytes, timestamp("device-b", 1), ActorId::new("device-b"))
        .unwrap();
    assert!(deleted.deleted);
    assert_eq!(deleted.predecessors, vec![base_id]);

    let deleted_bytes = b"deleted revision".as_slice();
    let deleted_id = deleted.id(deleted_bytes).unwrap();
    let restored = deleted
        .restore(deleted_bytes, timestamp("device-b", 2), ActorId::new("device-b"))
        .unwrap();
    assert!(!restored.deleted);
    assert_eq!(restored.predecessors, vec![deleted_id]);

    let restored_bytes = b"restored revision".as_slice();
    let restored_id = restored.id(restored_bytes).unwrap();
    let renamed = restored
        .rename(
            restored_bytes,
            "archive/a-note.md".to_owned(),
            timestamp("device-c", 3),
            ActorId::new("device-c"),
        )
        .unwrap();
    assert_eq!(renamed.materialized_path, "archive/a-note.md");
    assert_eq!(renamed.predecessors, vec![restored_id]);
}

#[test]
fn rejects_paths_outside_the_projection() {
    let revision = revision();
    assert!(matches!(
        revision.rename(
            b"canonical",
            "../escape.md".to_owned(),
            timestamp("device-a", 1),
            ActorId::new("device-a")
        ),
        Err(DomainError::InvalidPath(_))
    ));
}

#[test]
fn revision_identity_is_the_blake3_digest_of_the_canonical_bytes() {
    let id = revision().id(b"abc").unwrap();
    assert_eq!(id, RevisionId(blake3_hex(b"abc")));
    assert_eq!(
        id.0,
        "6437b3ac38465133ffb63b75273a8db548c558465d79db03fd359c6cd5bd9d85"
    );
}

#[test]
fn deletion_keeps_content_and_records_the_new_author() {
    let base = revision();
    let deleted = base
        .delete(b"x", timestamp("device-b", 1), ActorId::new("device-b"))
        .unwrap();
    assert_eq!(deleted.note_id, base.note_id);
    assert_eq!(deleted.frontmatter, base.frontmatter);
    assert_eq!(deleted.body, "body");
    assert_eq!(deleted.materialized_path, "notes/a-note.md");
    assert_eq!(deleted.author_id, ActorId::new("device-b"));
    assert_eq!(deleted.hlc.logical, 1);
}

#[test]
fn a_revision_must_be_stamped_by_its_author() {
    let base = revision();
    assert_eq!(
        base.delete(b"x", timestamp("device-b", 1), ActorId::new("device-c")),
        Err(DomainError::AuthorMismatch)
    );
    assert_eq!(
        base.delete(b"x", timestamp("", 1), ActorId::new("")),
        Err(DomainError::EmptyField { field: "author_id" })
    );
    let mut stale = revision();
    stale.schema = SchemaVersion(2);
    assert_eq!(stale.id(b"x"), Err(DomainError::UnsupportedSchema(2)));
    let mut bad_id = revision();
    bad_id.note_id = NoteId::new("nope");
    assert_eq!(bad_id.id(b"x"), Err(DomainError::InvalidNoteId("nope".to_owned())));
}

#[test]
fn notes_may_not_be_materialized_below_assets() {
    let base = revision();
    assert_eq!(
        base.rename(b"x", "assets/a.md".to_owned(), timestamp("device-a", 1), ActorId::new("device-a")),
        Err(DomainError::InvalidPath("assets/a.md".to_owned()))
    );
    assert!(base
        .rename(b"x", "assetsx/a.md".to_owned(), timestamp("device-a", 1), ActorId::new("device-a"))
        .is_ok());
}

#[test]
fn nested_non_finite_numbers_are_found() {
    let nested = FrontmatterValue::Mapping(vec![(
        "inner".to_owned(),
        FrontmatterValue::Sequence(vec![
            FrontmatterValue::Float(1.5f64.to_bits()),
            FrontmatterValue::Float(f64::INFINITY.to_bits()),
        ]),
    )]);
    assert_eq!(nested.validate(), Err(DomainError::NonFiniteNumber));
    let finite = FrontmatterValue::Sequence(vec![
        FrontmatterValue::Float(f64::MAX.to_bits()),
        FrontmatterValue::Float((-0.0f64).to_bits()),
        FrontmatterValue::Integer(-3),
    ]);
    assert_eq!(finite.validate(), Ok(()));
    assert_eq!(
        FrontmatterValue::Float(f64::NEG_INFINITY.to_bits()).validate(),
        Err(DomainError::NonFiniteNumber)
    );
}

#[test]
fn copies_are_deep_and_equal() {
    let entries = vec![(
        "tags".to_owned(),
        FrontmatterValue::Sequence(vec![
            FrontmatterValue::String("rust".to_owned()),
            FrontmatterValue::Bool(true),
            FrontmatterValue::Null,
        ]),
    )];
    assert_eq!(copy_entries(&entries), entries);
    assert_eq!(entries[0].1.copied(), entries[0].1);
}
