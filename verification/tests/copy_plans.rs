use xo::admin::{import_copies, path_within};
use xo::domain::{ActorId, FrontmatterValue, Note, NoteId, NoteRevision, RevisionId, SchemaVersion};
use xo::hlc::Hlc;
use xo::rotation::rotation_copies;

fn actor(name: &str) -> ActorId {
    ActorId(name.to_owned())
}

fn hlc(physical_ms: u64, logical: u32, who: &str) -> Hlc {
    Hlc { physical_ms, logical, actor_id: actor(who) }
}

fn revision(id: &str, body: &str) -> NoteRevision {
    NoteRevision {
        schema: SchemaVersion(1),
        note_id: NoteId(id.to_owned()),
        frontmatter: vec![("title".to_owned(), FrontmatterValue::String(body.to_owned()))],
        body: body.to_owned(),
        materialized_path: format!("{id}.md"),
        hlc: hlc(5, 3, "old-author"),
        author_id: actor("old-author"),
        predecessors: vec![RevisionId("earlier".to_owned())],
        deleted: false,
    }
}

#[test]
fn rotation_restates_visible_revisions_with_fresh_stamps() {
    let visible = vec![revision("aaaaaaa", "one"), revision("bbbbbbb", "two")];
    let copies = rotation_copies(&visible, 1, &actor("rotator"), 1_000);
    assert_eq!(copies.notes.len(), 2);
    assert_eq!(copies.notes[0].hlc, hlc(1_000, 0, "rotator"));
    assert_eq!(copies.notes[1].hlc, hlc(1_001, 0, "rotator"));
    assert_eq!(copies.config_stamps, vec![hlc(1_002, 0, "rotator")]);
    for (copy, source) in copies.notes.iter().zip(&visible) {
        assert_eq!(copy.note_id, source.note_id);
        assert_eq!(copy.frontmatter, source.frontmatter);
        assert_eq!(copy.body, source.body);
        assert_eq!(copy.materialized_path, source.materialized_path);
        assert_eq!(copy.author_id, actor("rotator"));
        assert!(copy.predecessors.is_empty());
        assert!(!copy.deleted);
    }
}

#[test]
fn rotation_at_the_epoch_still_orders_its_stamps() {
    let copies = rotation_copies(&vec![revision("aaaaaaa", "one")], 2, &actor("r"), 0);
    assert_eq!(copies.notes[0].hlc, hlc(0, 1, "r"));
    assert_eq!(copies.config_stamps, vec![hlc(1, 0, "r"), hlc(2, 0, "r")]);
}

#[test]
fn import_stamps_every_note_at_one_wall_time() {
    let notes = vec![
        Note { id: NoteId("aaaaaaa".to_owned()), frontmatter: vec![], body: "a".to_owned(), path: "a.md".to_owned() },
        Note { id: NoteId("bbbbbbb".to_owned()), frontmatter: vec![], body: "b".to_owned(), path: "b.md".to_owned() },
    ];
    let copies = import_copies(&notes, true, &actor("importer"), 1_000);
    assert_eq!(copies.revisions.len(), 2);
    assert_eq!(copies.revisions[0].hlc, hlc(1_000, 0, "importer"));
    assert_eq!(copies.revisions[1].hlc, hlc(1_000, 1, "importer"));
    assert_eq!(copies.config_stamp, Some(hlc(1_000, 2, "importer")));
    assert_eq!(copies.revisions[1].materialized_path, "b.md");
    assert_eq!(copies.revisions[1].schema, SchemaVersion(1));
    let without = import_copies(&notes, false, &actor("importer"), 1_000);
    assert_eq!(without.config_stamp, None);
}

#[test]
fn state_directories_inside_the_source_are_detected_name_by_name() {
    assert!(path_within("/home/me/notes/.xo", "/home/me/notes"));
    assert!(path_within("/home/me/notes", "/home/me/notes/"));
    assert!(!path_within("/home/me/notes-state", "/home/me/notes"));
    assert!(!path_within("/var/lib/xo", "/home/me/notes"));
    assert!(!path_within("home/me/notes/x", "/home/me/notes"));
}

#[test]
fn every_copy_is_stamped_later_than_the_one_before() {
    let visible: Vec<NoteRevision> = (0..4).map(|i| revision(&format!("aaaaaa{i}"), "x")).collect();
    let copies = rotation_copies(&visible, 3, &actor("r"), u64::MAX - 2);
    let mut stamps: Vec<(u64, u32)> = copies.notes.iter().map(|n| (n.hlc.physical_ms, n.hlc.logical)).collect();
    stamps.extend(copies.config_stamps.iter().map(|h| (h.physical_ms, h.logical)));
    assert_eq!(stamps.len(), 7);
    for pair in stamps.windows(2) {
        assert!(pair[0] < pair[1], "{:?} then {:?}", pair[0], pair[1]);
    }
    assert_eq!(stamps[2], (u64::MAX, 0));
    assert_eq!(stamps[3], (u64::MAX, 1));
}
