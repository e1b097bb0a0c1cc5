//! The rules of importing an existing workspace with the administration
//! tool: how source assets are identified and typed, which legacy files stop
//! an import, and how a refused import is explained.

use vstd::prelude::*;

use crate::behavior::{decimal, decimal_spec};
use crate::crypto::{blake3_hex, fingerprint_spec};
use crate::domain::{copy_entries, entries_view, ActorId, AssetId, Note, NoteId, NoteRevision, SchemaVersion, CURRENT_SCHEMA};
use crate::hlc::{clock_run, clock_stamps, lemma_clock_run_len, stamp, Hlc};
use crate::paths::{extension, extension_spec};
use crate::projection::Diagnostic;
use crate::text::{
    chars_of, eq_ignore_ascii_case, eq_ignore_ascii_case_spec, eq_str, push_str, split_char, split_spec,
    string_views,
};

verus! {

/// The media type of an asset file with extension `ext`, its ASCII letters
/// compared without case.
pub open spec fn mime_for_extension(ext: Seq<char>) -> Seq<char> {
    if eq_ignore_ascii_case_spec(ext, "png"@) {
        "image/png"@
    } else if eq_ignore_ascii_case_spec(ext, "jpg"@) || eq_ignore_ascii_case_spec(ext, "jpeg"@) {
        "image/jpeg"@
    } else if eq_ignore_ascii_case_spec(ext, "gif"@) {
        "image/gif"@
    } else if eq_ignore_ascii_case_spec(ext, "webp"@) {
        "image/webp"@
    } else if eq_ignore_ascii_case_spec(ext, "svg"@) {
        "image/svg+xml"@
    } else if eq_ignore_ascii_case_spec(ext, "pdf"@) {
        "application/pdf"@
    } else if eq_ignore_ascii_case_spec(ext, "txt"@) || eq_ignore_ascii_case_spec(ext, "md"@) {
        "text/plain"@
    } else if eq_ignore_ascii_case_spec(ext, "json"@) {
        "application/json"@
    } else {
        "application/octet-stream"@
    }
}

/// The media type recorded for an imported asset at `path`.
pub open spec fn asset_mime_spec(path: Seq<char>) -> Seq<char> {
    match extension_spec(path) {
        Some(ext) => mime_for_extension(ext),
        None => "application/octet-stream"@,
    }
}

/// The media type recorded for an imported asset, by its extension.
pub fn asset_mime(path: &str) -> (result: &'static str)
    ensures
        result@ == asset_mime_spec(path@),
{
    let ext = match extension(path) {
        Some(ext) => ext,
        None => return "application/octet-stream",
    };
    let e = chars_of(ext.as_str());
    let s = e.as_slice();
    if eq_ignore_ascii_case(s, "png") {
        "image/png"
    } else if eq_ignore_ascii_case(s, "jpg") || eq_ignore_ascii_case(s, "jpeg") {
        "image/jpeg"
    } else if eq_ignore_ascii_case(s, "gif") {
        "image/gif"
    } else if eq_ignore_ascii_case(s, "webp") {
        "image/webp"
    } else if eq_ignore_ascii_case(s, "svg") {
        "image/svg+xml"
    } else if eq_ignore_ascii_case(s, "pdf") {
        "application/pdf"
    } else if eq_ignore_ascii_case(s, "txt") || eq_ignore_ascii_case(s, "md") {
        "text/plain"
    } else if eq_ignore_ascii_case(s, "json") {
        "application/json"
    } else {
        "application/octet-stream"
    }
}

/// The bytes that identify an imported asset: its workspace-relative path,
/// a zero byte, and its contents.
pub open spec fn asset_identity_bytes(relative: Seq<char>, bytes: Seq<u8>) -> Seq<u8> {
    vstd::utf8::encode_utf8(relative) + seq![0u8] + bytes
}

/// The identifier of an imported asset: the hexadecimal BLAKE3 digest of its
/// path and contents.
pub fn asset_identity(relative: &str, bytes: &[u8]) -> (result: AssetId)
    ensures
        result.0@ == fingerprint_spec(asset_identity_bytes(relative@, bytes@)),
{
    let path = relative.as_bytes();
    let mut identity: Vec<u8> = Vec::new();
    let mut i: usize = 0;
    while i < path.len()
        invariant
            i <= path@.len(),
            identity@ == path@.take(i as int),
        decreases path@.len() - i,
    {
        identity.push(path[i]);
        i = i + 1;
        assert(identity@ =~= path@.take(i as int));
    }
    identity.push(0u8);
    let ghost prefix = identity@;
    let mut j: usize = 0;
    while j < bytes.len()
        invariant
            j <= bytes@.len(),
            identity@ == prefix + bytes@.take(j as int),
        decreases bytes@.len() - j,
    {
        identity.push(bytes[j]);
        j = j + 1;
        assert(identity@ =~= prefix + bytes@.take(j as int));
    }
    proof {
        assert(path@.take(path@.len() as int) =~= path@);
        assert(bytes@.take(bytes@.len() as int) =~= bytes@);
        assert(identity@ =~= asset_identity_bytes(relative@, bytes@));
    }
    AssetId(blake3_hex(identity.as_slice()))
}

/// Whether a file is a legacy Fennel or Lua module, which an import refuses
/// to carry over.
pub open spec fn legacy_module_spec(path: Seq<char>) -> bool {
    extension_spec(path) == Some("fnl"@) || extension_spec(path) == Some("lua"@)
}

/// Whether a file is a legacy Fennel or Lua module.
pub fn is_legacy_module(path: &str) -> (result: bool)
    ensures
        result == legacy_module_spec(path@),
{
    match extension(path) {
        Some(ext) => {
            let e = chars_of(ext.as_str());
            eq_str(e.as_slice(), "fnl") || eq_str(e.as_slice(), "lua")
        },
        None => false,
    }
}

/// `items` joined with `separator` between them.
pub open spec fn joined(items: Seq<Seq<char>>, separator: Seq<char>) -> Seq<char>
    decreases items.len(),
{
    if items.len() == 0 {
        Seq::empty()
    } else if items.len() == 1 {
        items[0]
    } else {
        joined(items.drop_last(), separator) + separator + items.last()
    }
}

/// Append `item` to `out`, which holds `items` joined so far.
fn push_joined(out: &mut String, count: usize, separator: &str, item: &str, items: Ghost<Seq<Seq<char>>>)
    requires
        old(out)@ == joined(items@, separator@),
        count == items@.len(),
    ensures
        final(out)@ == joined(items@.push(item@), separator@),
{
    proof {
        assert(items@.push(item@).drop_last() =~= items@);
    }
    if count > 0 {
        push_str(out, separator);
    } else {
        assert(items@.push(item@) =~= seq![item@]);
    }
    push_str(out, item);
}

/// A diagnostic as one line of a refused import's explanation.
pub open spec fn diagnostic_line(d: Diagnostic) -> Seq<char> {
    d.path@ + " ["@ + d.code@ + "]: "@ + d.message@
}

/// The explanation of an import refused for the diagnostics of its source:
/// their number, then the first ten of them, one per line.
pub open spec fn import_refusal_spec(diagnostics: Seq<Diagnostic>) -> Seq<char> {
    let shown = diagnostics.take(if diagnostics.len() < 10 { diagnostics.len() as int } else { 10 });
    "source workspace has "@ + decimal_spec(diagnostics.len()) + " diagnostic(s); import aborted\n"@
        + joined(shown.map_values(|d: Diagnostic| diagnostic_line(d)), "\n"@)
}

/// Explain why an import is refused.
pub fn import_refusal(diagnostics: &[Diagnostic]) -> (result: String)
    ensures
        result@ == import_refusal_spec(diagnostics@),
{
    proof {
        reveal_strlit("\n");
    }
    let n = diagnostics.len();
    let shown = if n < 10 { n } else { 10 };
    let ghost lines = diagnostics@.take(shown as int).map_values(|d: Diagnostic| diagnostic_line(d));
    let mut details = String::new();
    let mut i: usize = 0;
    while i < shown
        invariant
            shown <= n == diagnostics@.len(),
            i <= shown,
            lines == diagnostics@.take(shown as int).map_values(|d: Diagnostic| diagnostic_line(d)),
            details@ == joined(lines.take(i as int), "\n"@),
        decreases shown - i,
    {
        let d = &diagnostics[i];
        let mut line = String::new();
        push_str(&mut line, d.path.as_str());
        push_str(&mut line, " [");
        push_str(&mut line, d.code.as_str());
        push_str(&mut line, "]: ");
        push_str(&mut line, d.message.as_str());
        proof {
            reveal_strlit(" [");
            reveal_strlit("]: ");
            assert(line@ =~= diagnostic_line(diagnostics@[i as int]));
            assert(lines.take(i + 1) =~= lines.take(i as int).push(line@));
        }
        push_joined(&mut details, i, "\n", line.as_str(), Ghost(lines.take(i as int)));
        i = i + 1;
    }
    proof {
        assert(lines.take(i as int) =~= lines);
    }
    let mut out = String::new();
    push_str(&mut out, "source workspace has ");
    let count = decimal(n as u64);
    push_str(&mut out, count.as_str());
    push_str(&mut out, " diagnostic(s); import aborted\n");
    push_str(&mut out, details.as_str());
    proof {
        reveal_strlit("source workspace has ");
        reveal_strlit(" diagnostic(s); import aborted\n");
    }
    assert(out@ =~= import_refusal_spec(diagnostics@));
    out
}

/// The explanation of an import refused for legacy modules, named by their
/// paths relative to the source.
pub open spec fn legacy_refusal_spec(modules: Seq<Seq<char>>) -> Seq<char> {
    "unsupported legacy Fennel/Lua modules: "@ + joined(modules, ", "@)
        + "; migrate them explicitly to declarative modules/**/*.scm files"@
}

/// Explain why legacy modules stop an import.
pub fn legacy_refusal(modules: &[String]) -> (result: String)
    ensures
        result@ == legacy_refusal_spec(modules@.map_values(|m: String| m@)),
{
    let ghost names = modules@.map_values(|m: String| m@);
    let mut details = String::new();
    let mut i: usize = 0;
    while i < modules.len()
        invariant
            i <= modules@.len(),
            names == modules@.map_values(|m: String| m@),
            details@ == joined(names.take(i as int), ", "@),
        decreases modules@.len() - i,
    {
        proof {
            assert(names.take(i + 1) =~= names.take(i as int).push(modules@[i as int]@));
        }
        push_joined(&mut details, i, ", ", modules[i].as_str(), Ghost(names.take(i as int)));
        i = i + 1;
    }
    proof {
        assert(names.take(i as int) =~= names);
    }
    let mut out = String::new();
    push_str(&mut out, "unsupported legacy Fennel/Lua modules: ");
    push_str(&mut out, details.as_str());
    push_str(&mut out, "; migrate them explicitly to declarative modules/**/*.scm files");
    assert(out@ =~= legacy_refusal_spec(names));
    out
}


/// The names a `/`-separated path passes through: its segments other than
/// empty ones and `.`.
pub open spec fn path_names(segments: Seq<Seq<char>>) -> Seq<Seq<char>>
    decreases segments.len(),
{
    if segments.len() == 0 {
        Seq::empty()
    } else {
        let prior = path_names(segments.drop_last());
        let last = segments.last();
        if last.len() == 0 || last == "."@ {
            prior
        } else {
            prior.push(last)
        }
    }
}

/// Whether a path starts at the root.
pub open spec fn rooted(p: Seq<char>) -> bool {
    p.len() > 0 && p[0] == '/'
}

/// Whether `path` lies at or below `base`: both start at the root or
/// neither does, and the names of `base` begin those of `path`.
pub open spec fn within_spec(path: Seq<char>, base: Seq<char>) -> bool {
    let p = path_names(split_spec(path, '/'));
    let b = path_names(split_spec(base, '/'));
    &&& rooted(path) == rooted(base)
    &&& b.len() <= p.len()
    &&& p.take(b.len() as int) == b
}

/// The names of a path.
fn names(path: &str) -> (result: Vec<String>)
    ensures
        string_views(result@) == path_names(split_spec(path@, '/')),
{
    let segments = split_char(path, '/');
    let ghost segs = string_views(segments@);
    let mut out: Vec<String> = Vec::new();
    let mut i: usize = 0;
    proof {
        assert(segs.take(0) =~= Seq::<Seq<char>>::empty());
        assert(string_views(out@) =~= Seq::<Seq<char>>::empty());
    }
    while i < segments.len()
        invariant
            i <= segments@.len(),
            segs == string_views(segments@),
            segs.len() == segments@.len(),
            string_views(out@) == path_names(segs.take(i as int)),
        decreases segments@.len() - i,
    {
        proof {
            reveal_strlit(".");
            assert(segs.take(i + 1).drop_last() =~= segs.take(i as int));
            assert(segs.take(i + 1).last() == segments@[i as int]@);
        }
        let segment = chars_of(segments[i].as_str());
        if segment.len() > 0 && !eq_str(segment.as_slice(), ".") {
            let ghost before = out@;
            out.push(segments[i].clone());
            proof {
                assert(string_views(out@) =~= string_views(before).push(segments@[i as int]@));
            }
        }
        i = i + 1;
    }
    proof {
        assert(segs.take(segments@.len() as int) =~= segs);
    }
    out
}

/// Whether `path` lies at or below `base`, name by name. An import refuses
/// a state directory that lies within the workspace it reads.
pub fn path_within(path: &str, base: &str) -> (result: bool)
    ensures
        result == within_spec(path@, base@),
{
    let path_chars = chars_of(path);
    let base_chars = chars_of(base);
    let path_rooted = path_chars.len() > 0 && path_chars[0] == '/';
    let base_rooted = base_chars.len() > 0 && base_chars[0] == '/';
    if path_rooted != base_rooted {
        return false;
    }
    let p = names(path);
    let b = names(base);
    if b.len() > p.len() {
        return false;
    }
    let mut i: usize = 0;
    while i < b.len()
        invariant
            i <= b@.len(),
            b@.len() <= p@.len(),
            rooted(path@) == rooted(base@),
            string_views(p@) == path_names(split_spec(path@, '/')),
            string_views(b@) == path_names(split_spec(base@, '/')),
            forall|j: int| 0 <= j < i ==> #[trigger] string_views(p@)[j] == string_views(b@)[j],
        decreases b@.len() - i,
    {
        proof {
            assert(string_views(p@)[i as int] == p@[i as int]@);
            assert(string_views(b@)[i as int] == b@[i as int]@);
        }
        let x = chars_of(p[i].as_str());
        if !eq_str(x.as_slice(), b[i].as_str()) {
            proof {
                assert(string_views(p@)[i as int] == p@[i as int]@);
                assert(string_views(b@)[i as int] == b@[i as int]@);
                assert(string_views(p@).take(b@.len() as int)[i as int] != string_views(b@)[i as int]);
                assert(string_views(p@).take(b@.len() as int) != string_views(b@));
            }
            return false;
        }
        i = i + 1;
    }
    proof {
        assert(string_views(p@).take(b@.len() as int) =~= string_views(b@));
    }
    true
}

/// Whether `copy` writes `note` afresh into an imported workspace: the
/// current schema, the note's identifier, content and path, stamped `hlc`
/// by `author`, with no predecessors.
pub open spec fn imports(copy: NoteRevision, note: Note, hlc: Hlc, author: ActorId) -> bool {
    &&& copy.schema.0 == CURRENT_SCHEMA
    &&& copy.note_id.0@ == note.id.0@
    &&& entries_view(copy.frontmatter@) == entries_view(note.frontmatter@)
    &&& copy.body@ == note.body@
    &&& copy.materialized_path@ == note.path@
    &&& copy.hlc == hlc
    &&& copy.author_id == author
    &&& copy.predecessors@.len() == 0
    &&& !copy.deleted
}

/// What an import writes besides the assets.
#[derive(Debug, PartialEq)]
pub struct ImportCopies {
    /// A revision for each note, in order.
    pub revisions: Vec<NoteRevision>,
    /// The timestamp of the migrated configuration, where there is one.
    pub config_stamp: Option<Hlc>,
}

/// The revisions an import by `actor` at `wall_clock_ms` writes: one per
/// note, then the migrated configuration if there is one, all stamped by a
/// fresh clock at the same wall time.
pub fn import_copies(notes: &Vec<Note>, migrated_config: bool, actor: &ActorId, wall_clock_ms: u64) -> (result: ImportCopies)
    requires
        notes@.len() < usize::MAX,
    ensures
        result.revisions@.len() == notes@.len(),
        forall|k: int|
            0 <= k < notes@.len() ==> imports(
                #[trigger] result.revisions@[k],
                notes@[k],
                stamp(clock_run(Seq::new((notes@.len() + if migrated_config { 1int } else { 0int }) as nat, |i: int| wall_clock_ms))[k], *actor),
                *actor,
            ),
        result.config_stamp is Some == migrated_config,
        result.config_stamp matches Some(h) ==> h == stamp(
            clock_run(Seq::new((notes@.len() + 1) as nat, |i: int| wall_clock_ms))[notes@.len() as int],
            *actor,
        ),
{
    let total = if migrated_config { notes.len() + 1 } else { notes.len() };
    let ghost walls_spec = Seq::new(total as nat, |i: int| wall_clock_ms);
    let mut walls: Vec<u64> = Vec::new();
    let mut k: usize = 0;
    while k < total
        invariant
            k <= total,
            walls@.len() == k,
            walls_spec == Seq::new(total as nat, |i: int| wall_clock_ms),
            forall|j: int| 0 <= j < k ==> #[trigger] walls@[j] == wall_clock_ms,
        decreases total - k,
    {
        walls.push(wall_clock_ms);
        k = k + 1;
    }
    proof {
        assert(walls@ =~= walls_spec);
        lemma_clock_run_len(walls@);
    }
    let stamps = clock_stamps(actor, &walls);
    let mut revisions: Vec<NoteRevision> = Vec::new();
    let mut i: usize = 0;
    while i < notes.len()
        invariant
            i <= notes@.len(),
            stamps@.len() == total,
            notes@.len() <= total,
            forall|k: int| 0 <= k < total ==> #[trigger] stamps@[k] == stamp(clock_run(walls@)[k], *actor),
            revisions@.len() == i,
            forall|k: int| 0 <= k < i ==> imports(#[trigger] revisions@[k], notes@[k], stamps@[k], *actor),
        decreases notes@.len() - i,
    {
        let note = &notes[i];
        let copy = NoteRevision {
            schema: SchemaVersion(CURRENT_SCHEMA),
            note_id: NoteId(note.id.0.clone()),
            frontmatter: copy_entries(&note.frontmatter),
            body: note.body.clone(),
            materialized_path: note.path.clone(),
            hlc: Hlc {
                physical_ms: stamps[i].physical_ms,
                logical: stamps[i].logical,
                actor_id: ActorId(stamps[i].actor_id.0.clone()),
            },
            author_id: ActorId(actor.0.clone()),
            predecessors: Vec::new(),
            deleted: false,
        };
        revisions.push(copy);
        i = i + 1;
    }
    let config_stamp = if migrated_config {
        let s = &stamps[notes.len()];
        Some(Hlc { physical_ms: s.physical_ms, logical: s.logical, actor_id: ActorId(s.actor_id.0.clone()) })
    } else {
        None
    };
    ImportCopies { revisions, config_stamp }
}

} // verus!
