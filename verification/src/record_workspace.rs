//! Values of the record store together with their signing author, and which
//! record type names the author of a stored value.

use vstd::prelude::*;

use crate::operator::str_from_utf8;
use crate::text::{chars_of, contains_spec, contains_str, is_prefix, starts_with_str};

verus! {

/// A stored value with the author that signed it.
#[derive(Clone, Debug, PartialEq, Eq)]
pub struct AuthoredWorkspaceValue {
    pub key: Vec<u8>,
    pub value: Vec<u8>,
    pub author: String,
}

/// A stored value of a peer-to-peer workspace with the author that signed it.
#[derive(Clone, Debug, PartialEq, Eq)]
pub struct SignedWorkspaceValue {
    pub key: Vec<u8>,
    pub value: Vec<u8>,
    pub author: String,
}

/// The record type whose `author_id` field names the author of a value.
#[derive(Clone, Copy, Debug, PartialEq, Eq, Structural)]
pub enum AuthoredRecordKind {
    NoteRevision,
    Head,
    ConfigRevision,
    Tombstone,
    Device,
}

/// Which record type a key holds, judged by the key alone: note revisions and
/// heads by their path segment, configuration, tombstones and (where asked
/// for) devices by their prefix.
pub open spec fn record_kind_spec(key: Seq<char>, devices: bool) -> Option<AuthoredRecordKind> {
    if contains_spec(key, "/revision/"@) {
        Some(AuthoredRecordKind::NoteRevision)
    } else if contains_spec(key, "/head/"@) {
        Some(AuthoredRecordKind::Head)
    } else if is_prefix("config/"@, key) {
        Some(AuthoredRecordKind::ConfigRevision)
    } else if is_prefix("tombstone/"@, key) {
        Some(AuthoredRecordKind::Tombstone)
    } else if devices && is_prefix("device/"@, key) {
        Some(AuthoredRecordKind::Device)
    } else {
        None
    }
}

/// Which record type to decode from the value stored under `key` to learn
/// its author; a key that is not UTF-8 names none.
pub fn record_kind(key: &[u8], devices: bool) -> (result: Option<AuthoredRecordKind>)
    ensures
        result == (if vstd::utf8::valid_utf8(key@) {
            record_kind_spec(vstd::utf8::decode_utf8(key@), devices)
        } else {
            None
        }),
{
    let text = match str_from_utf8(key) {
        Some(text) => text,
        None => {
            return None;
        },
    };
    proof {
        vstd::utf8::encode_utf8_decode_utf8(text@);
    }
    let chars = chars_of(text);
    if contains_str(chars.as_slice(), "/revision/") {
        Some(AuthoredRecordKind::NoteRevision)
    } else if contains_str(chars.as_slice(), "/head/") {
        Some(AuthoredRecordKind::Head)
    } else if starts_with_str(chars.as_slice(), "config/") {
        Some(AuthoredRecordKind::ConfigRevision)
    } else if starts_with_str(chars.as_slice(), "tombstone/") {
        Some(AuthoredRecordKind::Tombstone)
    } else if devices && starts_with_str(chars.as_slice(), "device/") {
        Some(AuthoredRecordKind::Device)
    } else {
        None
    }
}

} // verus!
