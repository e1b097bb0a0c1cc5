//! Reports about the Markdown projection of a workspace: which files of a
//! projection become notes, and why the others are passed over.

use vstd::prelude::*;

use crate::domain::{copy_entries, entries_view, FrontmatterValue, FrontmatterView, Note, NoteId};
use crate::frontmatter::{find_entry, first_entry};
use crate::id::{is_valid, valid_id_spec};
use crate::markdown::{MarkdownDocument, MarkdownError};
use crate::text::push_str;
use crate::text_map::TextMap;

verus! {

/// A problem found in a file of the projection.
#[derive(Clone, Debug, PartialEq, Eq)]
pub struct Diagnostic {
    pub path: String,
    pub code: String,
    pub message: String,
}

/// The notes read from a projection, in file order, and a diagnostic for
/// each file that was passed over.
#[derive(Debug, PartialEq)]
pub struct ScanReport {
    pub notes: Vec<Note>,
    pub diagnostics: Vec<Diagnostic>,
}

/// A file of the projection: its path relative to the root, and what reading
/// it as a Markdown document gave.
pub type ScannedFile = (String, Result<MarkdownDocument, MarkdownError>);

/// The text of a Markdown error.
pub open spec fn markdown_message(e: MarkdownError) -> Seq<char> {
    match e {
        MarkdownError::InvalidYaml(detail) => "invalid YAML frontmatter: "@ + detail@,
        MarkdownError::NonStringKey => "frontmatter keys must be strings"@,
        MarkdownError::UnsupportedValue => "unsupported YAML value"@,
    }
}

/// The `id` of frontmatter entries, where it is a string.
pub open spec fn string_id(entries: Seq<(Seq<char>, FrontmatterView)>) -> Option<Seq<char>> {
    match first_entry(entries, "id"@) {
        Some(i) => match entries[i].1 {
            FrontmatterView::Text(t) => Some(t),
            _ => None,
        },
        None => None,
    }
}

/// What becomes of one file: it is a note with an identifier, or it is
/// passed over with a diagnostic code and message.
pub enum FileVerdict {
    Note(Seq<char>),
    Passed(Seq<char>, Seq<char>),
}

/// What becomes of a file, given the path of the file that first used each
/// identifier.
pub open spec fn file_verdict(first: Map<Seq<char>, Seq<char>>, doc: Result<MarkdownDocument, MarkdownError>) -> FileVerdict {
    match doc {
        Err(e) => FileVerdict::Passed("malformed-markdown"@, markdown_message(e)),
        Ok(d) => match d.frontmatter {
            None => FileVerdict::Passed("missing-frontmatter"@, "Markdown document has no YAML frontmatter"@),
            Some(entries) => match string_id(entries_view(entries@)) {
                None => FileVerdict::Passed("missing-id"@, "frontmatter has no string id"@),
                Some(id) => if !valid_id_spec(vstd::utf8::encode_utf8(id)) {
                    FileVerdict::Passed("invalid-id"@, "invalid note ID: "@ + id)
                } else if first.contains_key(id) {
                    FileVerdict::Passed("duplicate-id"@, "note ID "@ + id + " is already used by "@ + first[id])
                } else {
                    FileVerdict::Note(id)
                },
            },
        },
    }
}

/// The identifiers of the notes read from `files`, each with the path of the
/// file it was read from.
pub open spec fn first_paths(files: Seq<ScannedFile>) -> Map<Seq<char>, Seq<char>>
    decreases files.len(),
{
    if files.len() == 0 {
        Map::empty()
    } else {
        let prior = first_paths(files.drop_last());
        match file_verdict(prior, files.last().1) {
            FileVerdict::Note(id) => prior.insert(id, files.last().0@),
            FileVerdict::Passed(_, _) => prior,
        }
    }
}

/// What becomes of file `i` of `files`.
pub open spec fn verdict_at(files: Seq<ScannedFile>, i: int) -> FileVerdict {
    file_verdict(first_paths(files.take(i)), files[i].1)
}

/// The positions of the files that become notes.
pub open spec fn note_files(files: Seq<ScannedFile>) -> Seq<int>
    decreases files.len(),
{
    if files.len() == 0 {
        Seq::empty()
    } else {
        let prior = note_files(files.drop_last());
        match file_verdict(first_paths(files.drop_last()), files.last().1) {
            FileVerdict::Note(_) => prior.push(files.len() - 1),
            FileVerdict::Passed(_, _) => prior,
        }
    }
}

/// The diagnostics of the files passed over, in file order, as path, code
/// and message.
pub open spec fn scan_diagnostics(files: Seq<ScannedFile>) -> Seq<(Seq<char>, Seq<char>, Seq<char>)>
    decreases files.len(),
{
    if files.len() == 0 {
        Seq::empty()
    } else {
        let prior = scan_diagnostics(files.drop_last());
        match file_verdict(first_paths(files.drop_last()), files.last().1) {
            FileVerdict::Note(_) => prior,
            FileVerdict::Passed(code, message) => prior.push((files.last().0@, code, message)),
        }
    }
}

/// Whether `n` is the note read from file `file` with identifier `id`.
pub open spec fn note_read_from(n: Note, file: ScannedFile, id: Seq<char>) -> bool {
    &&& file.1 matches Ok(d)
    &&& d.frontmatter matches Some(entries)
    &&& n.id.0@ == id
    &&& n.path@ == file.0@
    &&& n.body@ == d.body@
    &&& entries_view(n.frontmatter@) == entries_view(entries@)
}

pub open spec fn diagnostic_view(d: Diagnostic) -> (Seq<char>, Seq<char>, Seq<char>) {
    (d.path@, d.code@, d.message@)
}

/// The identifier of file `i` where it becomes a note.
pub open spec fn note_id_at(files: Seq<ScannedFile>, i: int) -> Seq<char> {
    match verdict_at(files, i) {
        FileVerdict::Note(id) => id,
        FileVerdict::Passed(_, _) => Seq::empty(),
    }
}

/// The files that become notes are files of the scan whose identifiers
/// are all recorded as taken.
proof fn lemma_note_files_taken(files: Seq<ScannedFile>)
    ensures
        forall|k: int|
            0 <= k < note_files(files).len() ==> {
                let i = #[trigger] note_files(files)[k];
                &&& 0 <= i < files.len()
                &&& verdict_at(files, i) is Note
                &&& first_paths(files).contains_key(note_id_at(files, i))
            },
        forall|k: int, m: int| 0 <= k < m < note_files(files).len() ==> #[trigger] note_files(files)[k] < #[trigger] note_files(files)[m],
    decreases files.len(),
{
    if files.len() > 0 {
        let prior = files.drop_last();
        lemma_note_files_taken(prior);
        let n = prior.len() as int;
        assert forall|i: int| 0 <= i < n implies verdict_at(files, i) == verdict_at(prior, i) && note_id_at(files, i)
            == note_id_at(prior, i) by {
            assert(files.take(i) =~= prior.take(i));
            assert(files[i] == prior[i]);
        }
        assert(files.take(n) =~= prior);
    }
}

/// No two notes of a scan share an identifier: a file whose identifier an
/// earlier note took is passed over.
pub proof fn lemma_scanned_ids_distinct(files: Seq<ScannedFile>)
    ensures
        forall|k: int, m: int|
            0 <= k < m < note_files(files).len() ==> note_id_at(files, #[trigger] note_files(files)[k]) != note_id_at(
                files,
                #[trigger] note_files(files)[m],
            ),
    decreases files.len(),
{
    lemma_note_files_taken(files);
    if files.len() > 0 {
        let prior = files.drop_last();
        lemma_scanned_ids_distinct(prior);
        lemma_note_files_taken(prior);
        let n = prior.len() as int;
        assert forall|i: int| 0 <= i < n implies verdict_at(files, i) == verdict_at(prior, i) && note_id_at(files, i)
            == note_id_at(prior, i) by {
            assert(files.take(i) =~= prior.take(i));
            assert(files[i] == prior[i]);
        }
        assert(files.take(n) =~= prior);
        let nf = note_files(files);
        let pf = note_files(prior);
        assert forall|k: int, m: int| 0 <= k < m < nf.len() implies note_id_at(files, #[trigger] nf[k]) != note_id_at(
            files,
            #[trigger] nf[m],
        ) by {
            if m < pf.len() {
                assert(nf[k] == pf[k] && nf[m] == pf[m]);
            } else {
                assert(nf[m] == n);
                assert(nf[k] == pf[k]);
                assert(first_paths(prior).contains_key(note_id_at(prior, pf[k])));
            }
        }
    }
}

/// What one file gives, with the identifiers already taken.
fn read_file(taken: &TextMap, file: &ScannedFile) -> (result: Result<Note, Diagnostic>)
    requires
        taken.wf(),
    ensures
        match file_verdict(taken.view(), file.1) {
            FileVerdict::Note(id) => result matches Ok(n) && note_read_from(n, *file, id),
            FileVerdict::Passed(code, message) => result matches Err(d) && diagnostic_view(d) == (file.0@, code, message),
        },
{
    let path = &file.0;
    let document = match &file.1 {
        Ok(d) => d,
        Err(e) => {
            proof {
                reveal_strlit("malformed-markdown");
            }
            return Err(Diagnostic { path: path.clone(), code: "malformed-markdown".to_owned(), message: e.message() });
        },
    };
    let entries = match &document.frontmatter {
        Some(entries) => entries,
        None => {
            proof {
                reveal_strlit("missing-frontmatter");
                reveal_strlit("Markdown document has no YAML frontmatter");
            }
            return Err(
                Diagnostic {
                    path: path.clone(),
                    code: "missing-frontmatter".to_owned(),
                    message: "Markdown document has no YAML frontmatter".to_owned(),
                },
            );
        },
    };
    proof {
        reveal_strlit("id");
        crate::domain::lemma_entries_view_index(entries@);
    }
    let note_id = match find_entry(entries, "id") {
        Some(i) => match &entries[i].1 {
            FrontmatterValue::String(text) => text,
            _ => {
                proof {
                    reveal_strlit("missing-id");
                    reveal_strlit("frontmatter has no string id");
                }
                return Err(
                    Diagnostic {
                        path: path.clone(),
                        code: "missing-id".to_owned(),
                        message: "frontmatter has no string id".to_owned(),
                    },
                );
            },
        },
        None => {
            proof {
                reveal_strlit("missing-id");
                reveal_strlit("frontmatter has no string id");
            }
            return Err(
                Diagnostic {
                    path: path.clone(),
                    code: "missing-id".to_owned(),
                    message: "frontmatter has no string id".to_owned(),
                },
            );
        },
    };
    if !is_valid(note_id.as_str()) {
        proof {
            reveal_strlit("invalid-id");
            reveal_strlit("invalid note ID: ");
        }
        let mut message = "invalid note ID: ".to_owned();
        push_str(&mut message, note_id.as_str());
        return Err(Diagnostic { path: path.clone(), code: "invalid-id".to_owned(), message });
    }
    match taken.get(note_id.as_str()) {
        Some(first_path) => {
            proof {
                reveal_strlit("duplicate-id");
                reveal_strlit("note ID ");
                reveal_strlit(" is already used by ");
            }
            let mut message = "note ID ".to_owned();
            push_str(&mut message, note_id.as_str());
            push_str(&mut message, " is already used by ");
            push_str(&mut message, first_path.as_str());
            proof {
                assert(message@ =~= "note ID "@ + note_id@ + " is already used by "@ + taken.view()[note_id@]);
            }
            Err(Diagnostic { path: path.clone(), code: "duplicate-id".to_owned(), message })
        },
        None => Ok(
            Note {
                id: NoteId(note_id.clone()),
                frontmatter: copy_entries(entries),
                body: document.body.clone(),
                path: path.clone(),
            },
        ),
    }
}

/// Sort the files of a projection into notes and diagnostics, in the order
/// given: a file that cannot be read, has no frontmatter, no string `id`, an
/// invalid one, or one that an earlier file used is passed over with a
/// diagnostic; every other file is a note.
pub fn scan_documents(files: &Vec<ScannedFile>) -> (report: ScanReport)
    ensures
        report.notes@.len() == note_files(files@).len(),
        forall|k: int|
            0 <= k < report.notes@.len() ==> {
                let i = #[trigger] note_files(files@)[k];
                &&& 0 <= i < files@.len()
                &&& verdict_at(files@, i) matches FileVerdict::Note(id)
                &&& note_read_from(report.notes@[k], files@[i], id)
            },
        report.diagnostics@.map_values(|d: Diagnostic| diagnostic_view(d)) == scan_diagnostics(files@),
{
    let mut report = ScanReport { notes: Vec::new(), diagnostics: Vec::new() };
    let mut taken = TextMap::new();
    let mut i: usize = 0;
    while i < files.len()
        invariant
            i <= files@.len(),
            taken.wf(),
            taken.view() == first_paths(files@.take(i as int)),
            report.notes@.len() == note_files(files@.take(i as int)).len(),
            forall|k: int|
                0 <= k < report.notes@.len() ==> {
                    let j = #[trigger] note_files(files@.take(i as int))[k];
                    &&& 0 <= j < i
                    &&& verdict_at(files@, j) matches FileVerdict::Note(id)
                    &&& note_read_from(report.notes@[k], files@[j], id)
                },
            report.diagnostics@.map_values(|d: Diagnostic| diagnostic_view(d)) == scan_diagnostics(files@.take(i as int)),
        decreases files@.len() - i,
    {
        let ghost before = files@.take(i as int);
        let ghost after = files@.take(i + 1);
        proof {
            assert(after.drop_last() =~= before);
            assert(after.last() == files@[i as int]);
            assert(files@.take(i as int) == before);
        }
        let ghost old_notes = report.notes@;
        let ghost old_diags = report.diagnostics@;
        match read_file(&taken, &files[i]) {
            Ok(note) => {
                let id = note.id.0.clone();
                let path = note.path.clone();
                report.notes.push(note);
                taken.insert(id, path);
            },
            Err(d) => {
                report.diagnostics.push(d);
                proof {
                    assert(report.diagnostics@.map_values(|d: Diagnostic| diagnostic_view(d)) =~= old_diags.map_values(
                        |d: Diagnostic| diagnostic_view(d),
                    ).push(diagnostic_view(d)));
                }
            },
        }
        proof {
            assert forall|k: int| 0 <= k < report.notes@.len() implies {
                let j = #[trigger] note_files(after)[k];
                &&& 0 <= j < i + 1
                &&& verdict_at(files@, j) matches FileVerdict::Note(id)
                &&& note_read_from(report.notes@[k], files@[j], id)
            } by {
                if k < old_notes.len() {
                    assert(note_files(after)[k] == note_files(before)[k]);
                    assert(report.notes@[k] == old_notes[k]);
                } else {
                    assert(note_files(after)[k] == i as int);
                }
            }
        }
        i = i + 1;
    }
    proof {
        assert(files@.take(files@.len() as int) =~= files@);
    }
    report
}

} // verus!
