//! The manifest of an offline peer-state backup, and the checks that decide
//! whether a backup's files are what its manifest says.

use vstd::prelude::*;

use crate::crypto::{blake3_hex, fingerprint_spec};
use crate::domain::{contains_parent_segment, has_parent_segment};
use crate::text::{chars_of, replace_all, replace_spec};

verus! {

/// The manifest schema this library writes and reads.
pub const BACKUP_SCHEMA: u16 = 1;

/// One file of a backup: where it lies below the state directory, its size,
/// its BLAKE3 fingerprint and its Unix permission bits.
#[derive(Clone, Debug, PartialEq, Eq)]
pub struct BackupEntry {
    pub path: String,
    pub size: u64,
    pub blake3: String,
    pub mode: Option<u32>,
}

/// The list of files a backup holds.
#[derive(Clone, Debug, PartialEq, Eq)]
pub struct BackupManifest {
    pub schema: u16,
    pub entries: Vec<BackupEntry>,
}

/// Why a backup could not be made, checked or restored.
#[derive(Clone, Debug, PartialEq, Eq)]
pub enum BackupError {
    Io(String),
    Manifest(String),
    InvalidPath(String),
    DestinationExists(String),
    DestinationNotEmpty(String),
    Verification(String),
    Persist(String),
}

/// Whether `path` names a file strictly inside the backed-up directory: it is
/// not empty, not absolute, and no component of it is `..`.
pub open spec fn backup_path_ok(path: Seq<char>) -> bool {
    path.len() > 0 && path[0] != '/' && !has_parent_segment(path)
}

/// Refuse a manifest path that could reach outside the backup.
pub fn validate_relative(value: &str) -> (result: Result<(), BackupError>)
    ensures
        backup_path_ok(value@) <==> result is Ok,
        !backup_path_ok(value@) ==> (result matches Err(BackupError::InvalidPath(p)) && p@
            == value@),
{
    let chars = chars_of(value);
    if chars.len() == 0 || chars[0] == '/' || contains_parent_segment(chars.as_slice()) {
        Err(BackupError::InvalidPath(value.to_owned()))
    } else {
        Ok(())
    }
}

/// The manifest form of a path below the source directory: backslashes become
/// slashes, and the result must pass `validate_relative`.
pub fn relative_string(path: &str) -> (result: Result<String, BackupError>)
    ensures
        ({
            let normal = replace_spec(path@, seq!['\\'], seq!['/']);
            &&& backup_path_ok(normal) ==> (result matches Ok(s) && s@ == normal)
            &&& !backup_path_ok(normal) ==> (result matches Err(BackupError::InvalidPath(p))
                && p@ == normal)
        }),
{
    proof {
        reveal_strlit("\\");
        reveal_strlit("/");
    }
    let value = replace_all(path, "\\", "/");
    assert("\\"@ =~= seq!['\\']);
    assert("/"@ =~= seq!['/']);
    match validate_relative(value.as_str()) {
        Ok(()) => Ok(value),
        Err(error) => Err(error),
    }
}

/// The manifest entry for a file of `bytes` found at `path`.
pub fn backup_entry(path: String, bytes: &[u8], mode: Option<u32>) -> (result: BackupEntry)
    ensures
        result.path@ == path@,
        result.size == bytes@.len(),
        result.blake3@ == fingerprint_spec(bytes@),
        result.mode == mode,
{
    BackupEntry { path, size: bytes.len() as u64, blake3: blake3_hex(bytes), mode }
}

/// A manifest of the current schema listing `entries`.
pub fn backup_manifest(entries: Vec<BackupEntry>) -> (result: BackupManifest)
    ensures
        result.schema == BACKUP_SCHEMA,
        result.entries@ == entries@,
{
    BackupManifest { schema: BACKUP_SCHEMA, entries }
}

/// Refuse a manifest written under another schema.
pub fn check_schema(manifest: &BackupManifest) -> (result: Result<(), BackupError>)
    ensures
        manifest.schema == BACKUP_SCHEMA <==> result is Ok,
        manifest.schema != BACKUP_SCHEMA ==> (result matches Err(BackupError::Verification(m))
            && m@ == "unsupported manifest schema"@),
{
    if manifest.schema != BACKUP_SCHEMA {
        Err(BackupError::Verification("unsupported manifest schema".to_owned()))
    } else {
        Ok(())
    }
}

/// Whether the stored `bytes` are the file that `entry` describes.
pub open spec fn entry_matches(entry: BackupEntry, bytes: Seq<u8>) -> bool {
    entry.size == bytes.len() && entry.blake3@ == fingerprint_spec(bytes)
}

/// Check one backed-up file against its manifest entry: its path must stay
/// inside the backup, and its size and fingerprint must match.
pub fn verify_entry(entry: &BackupEntry, bytes: &[u8]) -> (result: Result<(), BackupError>)
    ensures
        result is Ok <==> backup_path_ok(entry.path@) && entry_matches(*entry, bytes@),
        !backup_path_ok(entry.path@) ==> (result matches Err(BackupError::InvalidPath(p)) && p@
            == entry.path@),
        backup_path_ok(entry.path@) && !entry_matches(*entry, bytes@) ==> (result matches Err(
            BackupError::Verification(p),
        ) && p@ == entry.path@),
{
    if let Err(error) = validate_relative(entry.path.as_str()) {
        return Err(error);
    }
    let size_ok = bytes.len() as u64 == entry.size;
    if !size_ok || blake3_hex(bytes) != entry.blake3 {
        return Err(BackupError::Verification(entry.path.clone()));
    }
    Ok(())
}

/// A manifest made from files checks out against those same files.
pub proof fn lemma_fresh_entry_verifies(entry: BackupEntry, bytes: Seq<u8>)
    requires
        backup_path_ok(entry.path@),
        entry.size == bytes.len(),
        entry.blake3@ == fingerprint_spec(bytes),
    ensures
        entry_matches(entry, bytes),
{
}

} // verus!
