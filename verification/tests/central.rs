use xo::central::{
    item_revision, note_path, patched_note, revision_note, ClientPresence, ItemError,
};
use xo::domain::{FrontmatterValue, Note, NoteRevision, SchemaVersion};
use xo::{ActorId, Hlc, NoteId, RevisionId};

fn existing() -> NoteRevision {
    NoteRevision {
        schema: SchemaVersion(1),
        note_id: NoteId::new("abcdefg"),
        frontmatter: vec![
            ("id".to_owned(), FrontmatterValue::String("abcdefg".to_owned())),
            ("title".to_owned(), FrontmatterValue::String("Before".to_owned())),
        ],
        body: "original".to_owned(),
        materialized_path: "ignored.md".to_owned(),
        hlc: Hlc {
            physical_ms: 1,
            logical: 0,
            actor_id: ActorId::new("server-a"),
        },
        author_id: ActorId::new("server-a"),
        predecessors: Vec::new(),
        deleted: false,
    }
}

#[test]
fn patches_replace_only_what_they_carry() {
    let id = NoteId::new("abcdefg");
    let note = patched_note(&id, existing(), None, Some("updated".to_owned())).unwrap();
    assert_eq!(note.body, "updated");
    assert_eq!(note.frontmatter, existing().frontmatter);
    assert_eq!(note.path, "ignored.md");
    assert_eq!(note.id, id);
}

#[test]
fn patches_may_not_name_another_item() {
    let id = NoteId::new("abcdefg");
    let other = vec![("id".to_owned(), FrontmatterValue::String("another".to_owned()))];
    let refused = patched_note(&id, existing(), Some(other), None);
    assert_eq!(refused, Err(ItemError::FrontmatterIdMismatch));
    assert!(ItemError::FrontmatterIdMismatch.message().contains("frontmatter id"));
    let numeric = vec![("id".to_owned(), FrontmatterValue::Integer(7))];
    assert!(patched_note(&id, existing(), Some(numeric), None).is_err());
    let untitled = vec![("title".to_owned(), FrontmatterValue::String("No id".to_owned()))];
    assert!(patched_note(&id, existing(), Some(untitled), None).is_ok());
}

#[test]
fn committed_items_supersede_the_winner_and_every_conflict() {
    let note = Note {
        id: NoteId::new("abcdefg"),
        frontmatter: vec![("title".to_owned(), FrontmatterValue::String("Central TUI".to_owned()))],
        body: "through HTTP".to_owned(),
        path: "ignored.md".to_owned(),
    };
    let hlc = Hlc {
        physical_ms: 5,
        logical: 0,
        actor_id: ActorId::new("server-a"),
    };
    let revision = item_revision(
        &note,
        false,
        &RevisionId::new("bbb"),
        &[RevisionId::new("ccc"), RevisionId::new("aaa"), RevisionId::new("bbb")],
        hlc.clone(),
        ActorId::new("server-a"),
    );
    assert_eq!(
        revision.predecessors,
        vec![RevisionId::new("aaa"), RevisionId::new("bbb"), RevisionId::new("ccc")]
    );
    assert_eq!(revision.materialized_path, "abc/abcdefg-central-tui.md");
    assert_eq!(revision.materialized_path, note_path(&note.id, &note.frontmatter));
    assert_eq!(revision.hlc, hlc);
    assert!(!revision.deleted);
    assert_eq!(revision.frontmatter, note.frontmatter);
    let shown = revision_note(revision);
    assert_eq!(shown.body, "through HTTP");
    assert_eq!(shown.path, "abc/abcdefg-central-tui.md");
}

#[test]
fn untitled_items_are_materialized_as_untitled() {
    assert_eq!(note_path(&NoteId::new("abcdefg"), &Vec::new()), "abc/abcdefg-untitled.md");
    let numeric_title = vec![("title".to_owned(), FrontmatterValue::Integer(3))];
    assert_eq!(
        note_path(&NoteId::new("abcdefg"), &numeric_title),
        "abc/abcdefg-untitled.md"
    );
}

#[test]
fn presence_counts_connections_per_client() {
    let mut presence = ClientPresence::new();
    presence.add_client("tui-b");
    presence.add_client("tui-a");
    presence.add_client("tui-b");
    assert_eq!(presence.client_ids(), vec!["tui-a".to_owned(), "tui-b".to_owned()]);
    assert_eq!(presence.count("tui-b"), 2);
    presence.remove_client("tui-b");
    assert_eq!(presence.count("tui-b"), 1);
    presence.remove_client("tui-b");
    assert_eq!(presence.client_ids(), vec!["tui-a".to_owned()]);
    presence.remove_client("unknown");
    assert_eq!(presence.client_ids(), vec!["tui-a".to_owned()]);
}

#[test]
fn closing_a_connection_undoes_opening_it() {
    let mut presence = ClientPresence::new();
    presence.add_client("one");
    let before = presence.client_ids();
    presence.add_client("two");
    presence.remove_client("two");
    assert_eq!(presence.client_ids(), before);
    presence.add_client("one");
    presence.remove_client("one");
    assert_eq!(presence.count("one"), 1);
}
