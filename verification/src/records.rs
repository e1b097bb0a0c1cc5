//! The keys under which the typed, immutable records of a workspace are
//! stored, and the checks applied to what is read back.

use vstd::prelude::*;

use crate::domain::{ActorId, AssetId, ConfigRevision, DomainError, NoteId, RevisionId, Tombstone};
use crate::id::{is_valid, valid_id_spec};
use crate::projection::Diagnostic;
use crate::text::{eq_str, push_str, split_char, split_spec, string_views, chars_of};

verus! {

pub const NOTE_PREFIX: &'static str = "note/";

pub const ASSET_PREFIX: &'static str = "asset/";

pub const ASSET_BLOB_PREFIX: &'static str = "asset-blob/";

pub const CONFIG_PREFIX: &'static str = "config/";

pub const CONFIG_BLOB_PREFIX: &'static str = "config-blob/";

pub const TOMBSTONE_PREFIX: &'static str = "tombstone/";

/// Why a record could not be written or read.
#[derive(Clone, Debug, PartialEq, Eq)]
pub enum RecordError {
    Domain(DomainError),
    Graph(String),
    Index(String),
    Transport(String),
    InvalidKey(String),
    Encoding(String),
    Decoding(String),
    MissingRevision(RevisionId),
    KeyMismatch(String),
    AuthorMismatch(String),
    MissingBlob(AssetId),
    BlobMismatch(AssetId),
    MissingContent(String),
    ContentMismatch(String),
}

/// A configuration revision together with the bytes it describes.
#[derive(Clone, Debug, PartialEq, Eq)]
pub struct ProjectedConfig {
    pub revision_id: RevisionId,
    pub record: ConfigRevision,
    pub bytes: Vec<u8>,
}

/// The key of a note revision.
pub open spec fn revision_key_spec(note_id: Seq<char>, revision_id: Seq<char>) -> Seq<char> {
    NOTE_PREFIX@ + note_id + "/revision/"@ + revision_id
}

/// The key of an author's head for a note.
pub open spec fn head_key_spec(note_id: Seq<char>, author_id: Seq<char>) -> Seq<char> {
    NOTE_PREFIX@ + note_id + "/head/"@ + author_id
}

pub fn revision_key(note_id: &NoteId, revision_id: &RevisionId) -> (result: String)
    ensures
        result@ == revision_key_spec(note_id.0@, revision_id.0@),
{
    let mut key = String::new();
    push_str(&mut key, NOTE_PREFIX);
    push_str(&mut key, note_id.0.as_str());
    push_str(&mut key, "/revision/");
    push_str(&mut key, revision_id.0.as_str());
    key
}

pub fn head_key(note_id: &NoteId, author_id: &ActorId) -> (result: String)
    ensures
        result@ == head_key_spec(note_id.0@, author_id.0@),
{
    let mut key = String::new();
    push_str(&mut key, NOTE_PREFIX);
    push_str(&mut key, note_id.0.as_str());
    push_str(&mut key, "/head/");
    push_str(&mut key, author_id.0.as_str());
    key
}

pub fn asset_key(asset_id: &AssetId) -> (result: String)
    ensures
        result@ == ASSET_PREFIX@ + asset_id.0@,
{
    let mut key = String::new();
    push_str(&mut key, ASSET_PREFIX);
    push_str(&mut key, asset_id.0.as_str());
    key
}

pub fn asset_blob_key(asset_id: &AssetId) -> (result: String)
    ensures
        result@ == ASSET_BLOB_PREFIX@ + asset_id.0@,
{
    let mut key = String::new();
    push_str(&mut key, ASSET_BLOB_PREFIX);
    push_str(&mut key, asset_id.0.as_str());
    key
}

pub fn config_key(record: &ConfigRevision, revision_id: &RevisionId) -> (result: String)
    ensures
        result@ == CONFIG_PREFIX@ + record.path@ + "/"@ + revision_id.0@,
{
    let mut key = String::new();
    push_str(&mut key, CONFIG_PREFIX);
    push_str(&mut key, record.path.as_str());
    push_str(&mut key, "/");
    push_str(&mut key, revision_id.0.as_str());
    key
}

pub fn config_blob_key(revision_id: &RevisionId) -> (result: String)
    ensures
        result@ == CONFIG_BLOB_PREFIX@ + revision_id.0@,
{
    let mut key = String::new();
    push_str(&mut key, CONFIG_BLOB_PREFIX);
    push_str(&mut key, revision_id.0.as_str());
    key
}

pub fn tombstone_key(record: &Tombstone) -> (result: String)
    ensures
        result@ == TOMBSTONE_PREFIX@ + record.target_id@ + "/"@ + record.author_id.0@,
{
    let mut key = String::new();
    push_str(&mut key, TOMBSTONE_PREFIX);
    push_str(&mut key, record.target_id.as_str());
    push_str(&mut key, "/");
    push_str(&mut key, record.author_id.0.as_str());
    key
}

/// The kind of a note record key.
#[derive(Clone, Copy, Debug, PartialEq, Eq, Structural)]
pub enum NoteKeyKind {
    Revision,
    Head,
}

/// Whether `parts` are the pieces of a note record key: `note`, a valid note
/// identifier, `revision` or `head`, and a non-empty last piece.
pub open spec fn note_key_parts_ok(parts: Seq<Seq<char>>) -> bool {
    &&& parts.len() == 4
    &&& parts[0] == "note"@
    &&& valid_id_spec(vstd::utf8::encode_utf8(parts[1]))
    &&& (parts[2] == "revision"@ || parts[2] == "head"@)
    &&& parts[3].len() > 0
}

/// The note that a record key belongs to, if it is a note record key.
pub fn note_id_from_key(key: &str) -> (result: Option<NoteId>)
    ensures
        result is Some <==> note_key_parts_ok(split_spec(key@, '/')),
        result matches Some(id) ==> id.0@ == split_spec(key@, '/')[1],
{
    let parts = split_char(key, '/');
    if parts.len() != 4 {
        return None;
    }
    let first = chars_of(parts[0].as_str());
    let third = chars_of(parts[2].as_str());
    proof {
        assert(string_views(parts@)[1] == parts@[1]@);
    }
    if eq_str(first.as_slice(), "note") && is_valid(parts[1].as_str())
        && (eq_str(third.as_slice(), "revision") || eq_str(third.as_slice(), "head"))
        && !parts[3].as_str().is_empty() {
        Some(NoteId::new(parts[1].as_str()))
    } else {
        None
    }
}

/// Check that the author a record claims is the author that stored it.
pub fn verify_author(key: &str, claimed: &ActorId, stored_author: &ActorId) -> (result: Result<(), RecordError>)
    ensures
        claimed.0@ == stored_author.0@ ==> result is Ok,
        claimed.0@ != stored_author.0@ ==> (result matches Err(RecordError::AuthorMismatch(k)) && k@ == key@),
{
    if claimed.0 == stored_author.0 {
        Ok(())
    } else {
        Err(RecordError::AuthorMismatch(key.to_owned()))
    }
}

/// The diagnostic for a record that could not be read.
pub fn record_diagnostic(path: &str, message: &str) -> (result: Diagnostic)
    ensures
        result.path@ == path@,
        result.code@ == "invalid-record"@,
        result.message@ == message@,
{
    Diagnostic { path: path.to_owned(), code: "invalid-record".to_owned(), message: message.to_owned() }
}

/// A note record key taken apart: its note, its kind and its last piece.
pub fn parse_note_key(key: &str) -> (result: Result<(NoteId, NoteKeyKind, String), RecordError>)
    ensures
        match result {
            Ok((id, kind, last)) => {
                let parts = split_spec(key@, '/');
                &&& note_key_parts_ok(parts)
                &&& id.0@ == parts[1]
                &&& (kind == NoteKeyKind::Revision <==> parts[2] == "revision"@)
                &&& last@ == parts[3]
            },
            Err(e) => !note_key_parts_ok(split_spec(key@, '/')) && (e matches RecordError::InvalidKey(k) && k@ == key@),
        },
{
    let parts = split_char(key, '/');
    if parts.len() != 4 {
        return Err(RecordError::InvalidKey(key.to_owned()));
    }
    let first = chars_of(parts[0].as_str());
    let third = chars_of(parts[2].as_str());
    proof {
        assert(string_views(parts@)[1] == parts@[1]@);
        assert(string_views(parts@)[3] == parts@[3]@);
    }
    if !eq_str(first.as_slice(), "note") || !is_valid(parts[1].as_str()) || parts[3].as_str().is_empty() {
        return Err(RecordError::InvalidKey(key.to_owned()));
    }
    let kind = if eq_str(third.as_slice(), "revision") {
        NoteKeyKind::Revision
    } else if eq_str(third.as_slice(), "head") {
        proof {
            reveal_strlit("revision");
            reveal_strlit("head");
            assert("head"@[0] != "revision"@[0]);
        }
        NoteKeyKind::Head
    } else {
        return Err(RecordError::InvalidKey(key.to_owned()));
    };
    Ok((NoteId::new(parts[1].as_str()), kind, parts[3].clone()))
}

} // verus!
