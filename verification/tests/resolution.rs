use xo::domain::{ActorId, Head, NoteId, RevisionId};
use xo::hlc::Hlc;
use xo::resolution::{is_ancestor, resolve_heads, RevisionInfo, RevisionMap};

fn info(actor: &str, logical: u32, predecessors: &[&str]) -> RevisionInfo {
    RevisionInfo {
        note_id: NoteId::new("note001"),
        hlc: Hlc { physical_ms: 100, logical, actor_id: ActorId::new(actor) },
        predecessors: predecessors.iter().map(|p| RevisionId::new(p)).collect(),
        deleted: false,
    }
}

fn head(author: &str, revision: &str) -> Head {
    Head {
        note_id: NoteId::new("note001"),
        author_id: ActorId::new(author),
        revision_id: RevisionId::new(revision),
    }
}

#[test]
fn concurrent_heads_choose_deterministically_and_report_conflict() {
    let mut revisions = RevisionMap::new();
    revisions.insert(RevisionId::new("rev-a"), info("a", 0, &[]));
    revisions.insert(RevisionId::new("rev-b"), info("b", 0, &[]));
    let heads = vec![head("a", "rev-a"), head("b", "rev-b")];
    let resolved = resolve_heads(&revisions, &heads).unwrap();
    assert_eq!(resolved.winning_revision, RevisionId::new("rev-b"));
    assert_eq!(
        resolved.conflict.unwrap().concurrent_revisions,
        vec![RevisionId::new("rev-a")]
    );
    let reversed = vec![head("b", "rev-b"), head("a", "rev-a")];
    assert_eq!(
        resolve_heads(&revisions, &reversed).unwrap().winning_revision,
        RevisionId::new("rev-b")
    );
}

#[test]
fn predecessor_is_history_not_a_conflict() {
    let mut revisions = RevisionMap::new();
    revisions.insert(RevisionId::new("base"), info("a", 0, &[]));
    revisions.insert(RevisionId::new("next"), info("a", 1, &["base"]));
    let heads = vec![head("old", "base"), head("a", "next")];
    let resolved = resolve_heads(&revisions, &heads).unwrap();
    assert_eq!(resolved.winning_revision, RevisionId::new("next"));
    assert!(resolved.conflict.is_none());
    assert!(resolved.visible);
}

#[test]
fn equal_timestamps_fall_back_to_revision_identifiers() {
    let mut revisions = RevisionMap::new();
    revisions.insert(RevisionId::new("x1"), info("a", 0, &[]));
    revisions.insert(RevisionId::new("x2"), info("a", 0, &[]));
    let resolved = resolve_heads(&revisions, &[head("a", "x1"), head("b", "x2")]).unwrap();
    assert_eq!(resolved.winning_revision, RevisionId::new("x2"));
}

#[test]
fn heads_of_other_notes_or_missing_revisions_are_ignored() {
    let mut revisions = RevisionMap::new();
    revisions.insert(RevisionId::new("r"), info("a", 0, &[]));
    let mut foreign = head("a", "r");
    foreign.note_id = NoteId::new("note002");
    assert!(resolve_heads(&revisions, &[foreign, head("a", "missing")]).is_none());
    assert!(resolve_heads(&revisions, &[]).is_none());
}

#[test]
fn deleted_winners_are_not_visible() {
    let mut revisions = RevisionMap::new();
    let mut tombstone = info("a", 3, &["r"]);
    tombstone.deleted = true;
    revisions.insert(RevisionId::new("r"), info("a", 0, &[]));
    revisions.insert(RevisionId::new("gone"), tombstone);
    let resolved = resolve_heads(&revisions, &[head("a", "gone"), head("a", "r")]).unwrap();
    assert_eq!(resolved.winning_revision, RevisionId::new("gone"));
    assert!(!resolved.visible);
    assert!(resolved.conflict.is_none());
}

#[test]
fn ancestry_follows_predecessors_through_cycles() {
    let mut revisions = RevisionMap::new();
    revisions.insert(RevisionId::new("c"), info("a", 2, &["b"]));
    revisions.insert(RevisionId::new("b"), info("a", 1, &["a", "c"]));
    revisions.insert(RevisionId::new("a"), info("a", 0, &["unknown"]));
    assert!(is_ancestor("a", "c", &revisions));
    assert!(is_ancestor("unknown", "c", &revisions));
    assert!(is_ancestor("c", "c", &revisions));
    assert!(!is_ancestor("c", "a", &revisions));
    assert!(!is_ancestor("a", "a", &revisions));
    assert!(!is_ancestor("x", "missing", &revisions));
}
