//! The decisions of the bridge between replicated records and the local
//! Markdown projection: which local files are configuration, and what a
//! locally changed note becomes in the record history.

use vstd::prelude::*;

use crate::domain::{
    content_validation, entries_eq, entries_equal, entries_view, follows,
    note_revision_validation, reports, ActorId, DomainError, Note, NoteRevision, SchemaVersion,
};
use crate::hlc::Hlc;
use crate::text::{
    chars_of, ends_with_str, eq_str, is_prefix, is_suffix, split_char, split_spec,
    starts_with_str, string_views,
};

verus! {

/// Whether one `/`-separated part of a path is a plain name: not empty, and
/// neither `.` nor `..`.
pub open spec fn plain_part(part: Seq<char>) -> bool {
    part.len() > 0 && part != seq!['.'] && part != seq!['.', '.']
}

/// Whether a file name has the extension `scm`: it ends with `.scm` after at
/// least one other character.
pub open spec fn scm_file_name(name: Seq<char>) -> bool {
    name.len() > 4 && is_suffix(seq!['.', 's', 'c', 'm'], name)
}

/// Whether a path relative to the projection root names a configuration
/// file: `xo.scm`, `exo.scm`, or a Steel module below `modules/` whose parts
/// are all plain names.
pub open spec fn config_path_spec(path: Seq<char>) -> bool {
    let parts = split_spec(path, '/');
    ||| path == "xo.scm"@
    ||| path == "exo.scm"@
    ||| (is_prefix("modules/"@, path) && scm_file_name(parts.last()) && forall|i: int|
        0 <= i < parts.len() ==> plain_part(#[trigger] parts[i]))
}

/// Whether a local path is configuration rather than a note.
pub fn is_config_path(path: &str) -> (result: bool)
    ensures
        result == config_path_spec(path@),
{
    proof {
        reveal_strlit(".scm");
        reveal_strlit(".");
        reveal_strlit("..");
    }
    let chars = chars_of(path);
    if eq_str(chars.as_slice(), "xo.scm") || eq_str(chars.as_slice(), "exo.scm") {
        return true;
    }
    if !starts_with_str(chars.as_slice(), "modules/") {
        return false;
    }
    let parts = split_char(path, '/');
    let ghost views = string_views(parts@);
    proof {
        assert(views.len() >= 1);
        assert(config_path_spec(path@) == (scm_file_name(views.last()) && forall|j: int|
            0 <= j < views.len() ==> plain_part(#[trigger] views[j])));
    }
    let mut i: usize = 0;
    while i < parts.len()
        invariant
            i <= parts@.len(),
            views == string_views(parts@),
            views == split_spec(path@, '/'),
            forall|j: int| 0 <= j < i ==> plain_part(#[trigger] views[j]),
            config_path_spec(path@) == (scm_file_name(views.last()) && forall|j: int|
                0 <= j < views.len() ==> plain_part(#[trigger] views[j])),
            "."@ == seq!['.'],
            ".."@ == seq!['.', '.'],
        decreases parts@.len() - i,
    {
        let part = chars_of(parts[i].as_str());
        proof {
            assert(views[i as int] == part@);
        }
        if part.len() == 0 || eq_str(part.as_slice(), ".") || eq_str(part.as_slice(), "..") {
            return false;
        }
        i = i + 1;
    }
    let last = chars_of(parts[parts.len() - 1].as_str());
    proof {
        assert(views.last() == last@);
        assert(".scm"@ == seq!['.', 's', 'c', 'm']);
    }
    last.len() > 4 && ends_with_str(last.as_slice(), ".scm")
}

/// Whether a note read from the projection matches the revision it was
/// materialized from: that revision is not deleted, and frontmatter, body
/// and path are equal.
pub open spec fn unchanged(base: NoteRevision, note: Note) -> bool {
    &&& !base.deleted
    &&& entries_eq(entries_view(base.frontmatter@), entries_view(note.frontmatter@))
    &&& base.body@ == note.body@
    &&& base.materialized_path@ == note.path@
}

/// The revision that a note written in the projection becomes, if any.
/// Without a winning revision to build on it is the note's first revision;
/// a note equal to the visible revision it came from needs none; otherwise
/// it revises the winning revision `base`, whose canonical encoding is
/// `base_canonical`. `hlc` is the timestamp taken for this change.
pub fn local_revision(
    base: Option<&NoteRevision>,
    base_canonical: &[u8],
    note: Note,
    hlc: Hlc,
    author_id: ActorId,
) -> (result: Result<Option<NoteRevision>, DomainError>)
    ensures
        match base {
            None => result matches Ok(Some(r)) && r.schema.0 == 1 && r.note_id == note.id
                && r.frontmatter == note.frontmatter && r.body == note.body
                && r.materialized_path == note.path && r.hlc == hlc && r.author_id == author_id
                && r.predecessors@.len() == 0 && !r.deleted,
            Some(b) => if unchanged(*b, note) {
                result matches Ok(None)
            } else {
                match note_revision_validation(*b) {
                    Some(e) => result matches Err(x) && reports(x, e),
                    None => match content_validation(author_id, hlc, note.path, note.frontmatter@) {
                        Some(e) => result matches Err(x) && reports(x, e),
                        None => result matches Ok(Some(r)) && follows(r, *b, base_canonical@, hlc, author_id, false)
                            && r.frontmatter == note.frontmatter && r.body == note.body
                            && r.materialized_path == note.path,
                    },
                }
            },
        },
{
    match base {
        None => Ok(Some(NoteRevision {
            schema: SchemaVersion(1),
            note_id: note.id,
            frontmatter: note.frontmatter,
            body: note.body,
            materialized_path: note.path,
            hlc,
            author_id,
            predecessors: Vec::new(),
            deleted: false,
        })),
        Some(b) => {
            if !b.deleted && entries_equal(&b.frontmatter, &note.frontmatter) && b.body == note.body
                && b.materialized_path == note.path {
                return Ok(None);
            }
            let revision = b.revise(
                base_canonical,
                note.frontmatter,
                note.body,
                note.path,
                hlc,
                author_id,
                false,
            )?;
            Ok(Some(revision))
        },
    }
}

} // verus!
