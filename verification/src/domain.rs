//! Replicated record types and their structural validation.

use vstd::prelude::*;

use crate::hlc::Hlc;
use crate::id::{is_valid, valid_id_spec};
use crate::crypto::{blake3_hex, fingerprint_spec};
use crate::text::chars_of;

verus! {

/// Identifier of a workspace.
#[derive(Clone, Debug, PartialEq, Eq)]
pub struct WorkspaceId(pub String);

/// Identifier of an actor (a device key fingerprint) that authors records.
#[derive(Clone, Debug, PartialEq, Eq)]
pub struct ActorId(pub String);

/// Identifier of a note.
#[derive(Clone, Debug, PartialEq, Eq)]
pub struct NoteId(pub String);

/// Content-addressed identifier of a revision.
#[derive(Clone, Debug, PartialEq, Eq)]
pub struct RevisionId(pub String);

/// Identifier of an asset.
#[derive(Clone, Debug, PartialEq, Eq)]
pub struct AssetId(pub String);

impl WorkspaceId {
    pub fn new(value: &str) -> (result: Self)
        ensures
            result.0@ == value@,
    {
        WorkspaceId(value.to_owned())
    }

    pub fn as_str(&self) -> (result: &str)
        ensures
            result@ == self.0@,
    {
        self.0.as_str()
    }
}

impl ActorId {
    pub fn new(value: &str) -> (result: Self)
        ensures
            result.0@ == value@,
    {
        ActorId(value.to_owned())
    }

    pub fn as_str(&self) -> (result: &str)
        ensures
            result@ == self.0@,
    {
        self.0.as_str()
    }
}

impl NoteId {
    pub fn new(value: &str) -> (result: Self)
        ensures
            result.0@ == value@,
    {
        NoteId(value.to_owned())
    }

    pub fn as_str(&self) -> (result: &str)
        ensures
            result@ == self.0@,
    {
        self.0.as_str()
    }
}

impl RevisionId {
    pub fn new(value: &str) -> (result: Self)
        ensures
            result.0@ == value@,
    {
        RevisionId(value.to_owned())
    }

    pub fn as_str(&self) -> (result: &str)
        ensures
            result@ == self.0@,
    {
        self.0.as_str()
    }
}

impl AssetId {
    pub fn new(value: &str) -> (result: Self)
        ensures
            result.0@ == value@,
    {
        AssetId(value.to_owned())
    }

    pub fn as_str(&self) -> (result: &str)
        ensures
            result@ == self.0@,
    {
        self.0.as_str()
    }
}


/// Version of a replicated record schema.
#[derive(Clone, Copy, Debug, PartialEq, Eq)]
pub struct SchemaVersion(pub u16);

/// Version number of the replicated record schema written by this build.
pub const CURRENT_SCHEMA: u16 = 1;

/// The replicated record schema written by this build.
pub fn current_schema() -> (result: SchemaVersion)
    ensures
        result.0 == CURRENT_SCHEMA,
{
    SchemaVersion(CURRENT_SCHEMA)
}

/// Why a record failed validation.
#[derive(Clone, Debug, PartialEq, Eq)]
pub enum DomainError {
    UnsupportedSchema(u16),
    EmptyField { field: &'static str },
    InvalidNoteId(String),
    InvalidPath(String),
    InvalidAssetPath(String),
    NonFiniteNumber,
    AuthorMismatch,
    Serialization(String),
}

/// Index of the first `/` in `s`, or its length.
pub open spec fn first_slash(s: Seq<char>) -> int
    decreases s.len(),
{
    if s.len() == 0 {
        0
    } else if s[0] == '/' {
        0
    } else {
        1 + first_slash(s.drop_first())
    }
}

/// The first `/`-separated segment of `s`: the first component of a relative path.
pub open spec fn first_segment(s: Seq<char>) -> Seq<char> {
    s.take(first_slash(s))
}

/// Whether some `/`-separated segment of `s` is `..`.
pub open spec fn has_parent_segment(s: Seq<char>) -> bool {
    exists|k: int|
        0 <= k && k + 2 <= s.len() && #[trigger] s[k] == '.' && s[k + 1] == '.' && (k == 0 || s[k
            - 1] == '/') && (k + 2 == s.len() || s[k + 2] == '/')
}

/// Whether `path` is a relative path that stays inside the projection and
/// outside its `.xo` state directory.
pub open spec fn relative_path_ok(path: Seq<char>) -> bool {
    path.len() > 0 && path[0] != '/' && !has_parent_segment(path) && first_segment(path) != seq![
        '.',
        'x',
        'o',
    ]
}

/// Where the first `/` lies.
pub proof fn lemma_first_slash_bounds(s: Seq<char>)
    ensures
        0 <= first_slash(s) <= s.len(),
        forall|i: int| 0 <= i < first_slash(s) ==> s[i] != '/',
        first_slash(s) < s.len() ==> s[first_slash(s)] == '/',
    decreases s.len(),
{
    if s.len() > 0 && s[0] != '/' {
        lemma_first_slash_bounds(s.drop_first());
        assert forall|i: int| 0 <= i < first_slash(s) implies s[i] != '/' by {
            if i > 0 {
                assert(s[i] == s.drop_first()[i - 1]);
            }
        }
    }
}

/// Position of the first `/` in `chars`, or its length.
pub fn find_first_slash(chars: &[char]) -> (result: usize)
    ensures
        result == first_slash(chars@),
{
    let mut i: usize = 0;
    while i < chars.len()
        invariant
            i <= chars@.len(),
            forall|j: int| 0 <= j < i ==> chars@[j] != '/',
        decreases chars@.len() - i,
    {
        if chars[i] == '/' {
            proof {
                lemma_first_slash_unique(chars@, i as int);
            }
            return i;
        }
        i = i + 1;
    }
    proof {
        lemma_first_slash_unique(chars@, i as int);
    }
    i
}

/// The first `/` is the one with no `/` before it.
pub proof fn lemma_first_slash_unique(s: Seq<char>, k: int)
    requires
        0 <= k <= s.len(),
        forall|j: int| 0 <= j < k ==> s[j] != '/',
        k < s.len() ==> s[k] == '/',
    ensures
        first_slash(s) == k,
    decreases s.len(),
{
    if s.len() > 0 && k > 0 {
        assert forall|j: int| 0 <= j < k - 1 implies s.drop_first()[j] != '/' by {
            assert(s.drop_first()[j] == s[j + 1]);
        }
        lemma_first_slash_unique(s.drop_first(), k - 1);
    }
}

/// Whether some segment of `chars` is `..`.
pub fn contains_parent_segment(chars: &[char]) -> (result: bool)
    ensures
        result == has_parent_segment(chars@),
{
    let mut k: usize = 0;
    while chars.len() >= 2 && k <= chars.len() - 2
        invariant
            forall|j: int|
                0 <= j < k && j + 2 <= chars@.len() ==> !(#[trigger] chars@[j] == '.' && chars@[j
                    + 1] == '.' && (j == 0 || chars@[j - 1] == '/') && (j + 2 == chars@.len()
                    || chars@[j + 2] == '/')),
        decreases chars@.len() - k,
    {
        if chars[k] == '.' && chars[k + 1] == '.' && (k == 0 || chars[k - 1] == '/') && (k + 2
            == chars.len() || chars[k + 2] == '/') {
            return true;
        }
        k = k + 1;
    }
    false
}

/// Whether the first segment of `chars` is exactly the two-to-six letter `word`.
fn first_segment_is(chars: &[char], word: &str) -> (result: bool)
    ensures
        result == (first_segment(chars@) == word@),
{
    let end = find_first_slash(chars);
    proof {
        lemma_first_slash_bounds(chars@);
    }
    let w = chars_of(word);
    if end != w.len() {
        return false;
    }
    let mut i: usize = 0;
    while i < end
        invariant
            end == first_slash(chars@),
            end == w@.len(),
            end <= chars@.len(),
            w@ == word@,
            i <= end,
            forall|j: int| 0 <= j < i ==> chars@[j] == w@[j],
        decreases end - i,
    {
        if chars[i] != w[i] {
            assert(first_segment(chars@)[i as int] != word@[i as int]);
            return false;
        }
        i = i + 1;
    }
    assert(first_segment(chars@) =~= word@);
    true
}

pub fn validate_schema(schema: SchemaVersion) -> (result: Result<(), DomainError>)
    ensures
        schema.0 == 1 ==> result is Ok,
        schema.0 != 1 ==> result == Err::<(), DomainError>(DomainError::UnsupportedSchema(schema.0)),
{
    if schema.0 == CURRENT_SCHEMA {
        Ok(())
    } else {
        Err(DomainError::UnsupportedSchema(schema.0))
    }
}

pub fn validate_relative_path(path: &str) -> (result: Result<(), DomainError>)
    ensures
        relative_path_ok(path@) ==> result is Ok,
        !relative_path_ok(path@) ==> (result matches Err(DomainError::InvalidPath(p)) && p@
            == path@),
{
    let chars = chars_of(path);
    proof {
        reveal_strlit(".xo");
        assert(".xo"@ =~= seq!['.', 'x', 'o']);
    }
    let invalid = chars.len() == 0 || chars[0] == '/' || contains_parent_segment(chars.as_slice())
        || first_segment_is(chars.as_slice(), ".xo");
    if invalid {
        Err(DomainError::InvalidPath(path.to_owned()))
    } else {
        Ok(())
    }
}

/// The `(note, author, revision)` triple naming an author's latest revision of a note.
#[derive(Clone, Debug, PartialEq, Eq)]
pub struct Head {
    pub note_id: NoteId,
    pub author_id: ActorId,
    pub revision_id: RevisionId,
}

/// Concurrent revisions of a note that its winning revision does not descend
/// from. The concurrent revisions are listed in ascending order.
#[derive(Clone, Debug, PartialEq, Eq)]
pub struct Conflict {
    pub note_id: NoteId,
    pub winning_revision: RevisionId,
    pub concurrent_revisions: Vec<RevisionId>,
}

/// Metadata of a binary asset stored below `assets/`.
#[derive(Clone, Debug, PartialEq, Eq)]
pub struct AssetRecord {
    pub schema: SchemaVersion,
    pub id: AssetId,
    pub blob_hash: String,
    pub mime: String,
    pub size: u64,
    pub materialized_path: String,
}

/// A revision of a configuration file.
#[derive(Clone, Debug, PartialEq, Eq)]
pub struct ConfigRevision {
    pub schema: SchemaVersion,
    pub path: String,
    pub blob_hash: String,
    pub size: u64,
    pub hlc: Hlc,
    pub author_id: ActorId,
    pub predecessors: Vec<RevisionId>,
}

/// A deletion marker for a record.
#[derive(Clone, Debug, PartialEq, Eq)]
pub struct Tombstone {
    pub schema: SchemaVersion,
    pub target_id: String,
    pub author_id: ActorId,
    pub revision_id: RevisionId,
    pub hlc: Hlc,
}

/// Which error, if any, validating an asset record reports.
pub open spec fn asset_validation(record: AssetRecord) -> Option<DomainError> {
    if record.schema.0 != 1 {
        Some(DomainError::UnsupportedSchema(record.schema.0))
    } else if record.id.0@.len() == 0 {
        Some(DomainError::EmptyField { field: "asset_id" })
    } else if record.blob_hash@.len() == 0 {
        Some(DomainError::EmptyField { field: "blob_hash" })
    } else if record.mime@.len() == 0 {
        Some(DomainError::EmptyField { field: "mime" })
    } else if !relative_path_ok(record.materialized_path@) {
        Some(DomainError::InvalidPath(record.materialized_path))
    } else if first_segment(record.materialized_path@) != seq!['a', 's', 's', 'e', 't', 's'] {
        Some(DomainError::InvalidAssetPath(record.materialized_path))
    } else {
        None
    }
}

impl AssetRecord {
    pub fn validate(&self) -> (result: Result<(), DomainError>)
        ensures
            asset_validation(*self) matches Some(e) ==> (result matches Err(r) && (match e {
                DomainError::InvalidPath(p) => r matches DomainError::InvalidPath(q) && q@ == p@,
                DomainError::InvalidAssetPath(p) => r matches DomainError::InvalidAssetPath(q)
                    && q@ == p@,
                _ => r == e,
            })),
            asset_validation(*self) is None ==> result is Ok,
    {
        validate_schema(self.schema)?;
        if self.id.0.as_str().is_empty() {
            return Err(DomainError::EmptyField { field: "asset_id" });
        }
        if self.blob_hash.as_str().is_empty() {
            return Err(DomainError::EmptyField { field: "blob_hash" });
        }
        if self.mime.as_str().is_empty() {
            return Err(DomainError::EmptyField { field: "mime" });
        }
        validate_relative_path(self.materialized_path.as_str())?;
        let chars = chars_of(self.materialized_path.as_str());
        proof {
            reveal_strlit("assets");
            assert("assets"@ =~= seq!['a', 's', 's', 'e', 't', 's']);
        }
        if !first_segment_is(chars.as_slice(), "assets") {
            return Err(DomainError::InvalidAssetPath(self.materialized_path.clone()));
        }
        Ok(())
    }
}

/// Which error, if any, validating a configuration revision reports.
pub open spec fn config_validation(record: ConfigRevision) -> Option<DomainError> {
    if record.schema.0 != 1 {
        Some(DomainError::UnsupportedSchema(record.schema.0))
    } else if !relative_path_ok(record.path@) {
        Some(DomainError::InvalidPath(record.path))
    } else if record.blob_hash@.len() == 0 {
        Some(DomainError::EmptyField { field: "blob_hash" })
    } else if record.author_id.0@ != record.hlc.actor_id.0@ {
        Some(DomainError::AuthorMismatch)
    } else {
        None
    }
}

impl ConfigRevision {
    pub fn validate(&self) -> (result: Result<(), DomainError>)
        ensures
            config_validation(*self) matches Some(e) ==> (result matches Err(r) && (match e {
                DomainError::InvalidPath(p) => r matches DomainError::InvalidPath(q) && q@ == p@,
                _ => r == e,
            })),
            config_validation(*self) is None ==> result is Ok,
    {
        validate_schema(self.schema)?;
        validate_relative_path(self.path.as_str())?;
        if self.blob_hash.as_str().is_empty() {
            return Err(DomainError::EmptyField { field: "blob_hash" });
        }
        if self.author_id.0 != self.hlc.actor_id.0 {
            return Err(DomainError::AuthorMismatch);
        }
        Ok(())
    }
}

/// Which error, if any, validating a head reports.
pub open spec fn head_validation(head: &Head) -> Option<DomainError> {
    if !valid_id_spec(vstd::utf8::encode_utf8(head.note_id.0@)) {
        Some(DomainError::InvalidNoteId(head.note_id.0))
    } else if head.author_id.0@.len() == 0 {
        Some(DomainError::EmptyField { field: "author_id" })
    } else if head.revision_id.0@.len() == 0 {
        Some(DomainError::EmptyField { field: "revision_id" })
    } else {
        None
    }
}

impl Head {
    pub fn validate(&self) -> (result: Result<(), DomainError>)
        ensures
            head_validation(self) matches Some(e) ==> (result matches Err(r) && (match e {
                DomainError::InvalidNoteId(p) => r matches DomainError::InvalidNoteId(q) && q@
                    == p@,
                _ => r == e,
            })),
            head_validation(self) is None ==> result is Ok,
    {
        if !is_valid(self.note_id.0.as_str()) {
            return Err(DomainError::InvalidNoteId(self.note_id.0.clone()));
        }
        if self.author_id.0.as_str().is_empty() {
            return Err(DomainError::EmptyField { field: "author_id" });
        }
        if self.revision_id.0.as_str().is_empty() {
            return Err(DomainError::EmptyField { field: "revision_id" });
        }
        Ok(())
    }
}

/// Which error, if any, validating a tombstone reports.
pub open spec fn tombstone_validation(record: Tombstone) -> Option<DomainError> {
    if record.schema.0 != 1 {
        Some(DomainError::UnsupportedSchema(record.schema.0))
    } else if record.target_id@.len() == 0 {
        Some(DomainError::EmptyField { field: "target_id" })
    } else if record.author_id.0@ != record.hlc.actor_id.0@ {
        Some(DomainError::AuthorMismatch)
    } else {
        None
    }
}

impl Tombstone {
    pub fn validate(&self) -> (result: Result<(), DomainError>)
        ensures
            tombstone_validation(*self) matches Some(e) ==> result == Err::<(), DomainError>(e),
            tombstone_validation(*self) is None ==> result is Ok,
    {
        validate_schema(self.schema)?;
        if self.target_id.as_str().is_empty() {
            return Err(DomainError::EmptyField { field: "target_id" });
        }
        if self.author_id.0 != self.hlc.actor_id.0 {
            return Err(DomainError::AuthorMismatch);
        }
        Ok(())
    }
}

/// A frontmatter value, with mappings kept in key order. A floating-point
/// number is held as its IEEE 754 binary64 bit pattern.
#[derive(Debug, PartialEq, Eq)]
pub enum FrontmatterValue {
    Null,
    Bool(bool),
    Integer(i64),
    Float(u64),
    String(String),
    Sequence(Vec<FrontmatterValue>),
    Mapping(Vec<(String, FrontmatterValue)>),
}

/// The abstract value of a frontmatter value.
pub enum FrontmatterView {
    Null,
    Bool(bool),
    Integer(i64),
    Float(u64),
    Text(Seq<char>),
    Sequence(Seq<FrontmatterView>),
    Mapping(Seq<(Seq<char>, FrontmatterView)>),
}

impl FrontmatterValue {
    pub open spec fn view(self) -> FrontmatterView
        decreases self,
    {
        match self {
            FrontmatterValue::Null => FrontmatterView::Null,
            FrontmatterValue::Bool(b) => FrontmatterView::Bool(b),
            FrontmatterValue::Integer(n) => FrontmatterView::Integer(n),
            FrontmatterValue::Float(bits) => FrontmatterView::Float(bits),
            FrontmatterValue::String(s) => FrontmatterView::Text(s@),
            FrontmatterValue::Sequence(items) => FrontmatterView::Sequence(values_view(items@)),
            FrontmatterValue::Mapping(entries) => FrontmatterView::Mapping(entries_view(entries@)),
        }
    }
}

/// The abstract values of a sequence of frontmatter values.
pub open spec fn values_view(items: Seq<FrontmatterValue>) -> Seq<FrontmatterView>
    decreases items,
{
    if items.len() == 0 {
        Seq::empty()
    } else {
        seq![items[0].view()] + values_view(items.drop_first())
    }
}

/// The abstract value of frontmatter entries: each key with its value.
pub open spec fn entries_view(entries: Seq<(String, FrontmatterValue)>) -> Seq<(Seq<char>, FrontmatterView)>
    decreases entries,
{
    if entries.len() == 0 {
        Seq::empty()
    } else {
        seq![(entries[0].0@, entries[0].1.view())] + entries_view(entries.drop_first())
    }
}

/// Whether a binary64 bit pattern is a finite number: its exponent field is
/// not all ones (which would make it an infinity or a NaN).
pub open spec fn finite_bits(bits: u64) -> bool {
    (bits >> 52u64) & 0x7ffu64 != 0x7ffu64
}

/// Whether every number in a frontmatter value is finite.
pub open spec fn finite_value(v: FrontmatterView) -> bool
    decreases v,
{
    match v {
        FrontmatterView::Float(bits) => finite_bits(bits),
        FrontmatterView::Sequence(items) => finite_values(items),
        FrontmatterView::Mapping(entries) => finite_entries(entries),
        _ => true,
    }
}

/// Whether every number in a sequence of values is finite.
pub open spec fn finite_values(items: Seq<FrontmatterView>) -> bool
    decreases items,
{
    if items.len() == 0 {
        true
    } else {
        finite_value(items[0]) && finite_values(items.drop_first())
    }
}

/// Whether every number in the values of some entries is finite.
pub open spec fn finite_entries(entries: Seq<(Seq<char>, FrontmatterView)>) -> bool
    decreases entries,
{
    if entries.len() == 0 {
        true
    } else {
        finite_value(entries[0].1) && finite_entries(entries.drop_first())
    }
}

/// Each view of values is the view of the value at that place.
pub proof fn lemma_values_view_index(items: Seq<FrontmatterValue>)
    ensures
        values_view(items).len() == items.len(),
        forall|i: int| 0 <= i < items.len() ==> values_view(items)[i] == (#[trigger] items[i]).view(),
    decreases items.len(),
{
    if items.len() > 0 {
        lemma_values_view_index(items.drop_first());
        assert forall|i: int| 0 <= i < items.len() implies values_view(items)[i] == (#[trigger] items[i]).view() by {
            if i > 0 {
                assert(items.drop_first()[i - 1] == items[i]);
            }
        }
    }
}

/// Each view of entries is the key and the view of the value at that place.
pub proof fn lemma_entries_view_index(entries: Seq<(String, FrontmatterValue)>)
    ensures
        entries_view(entries).len() == entries.len(),
        forall|i: int| 0 <= i < entries.len() ==> entries_view(entries)[i] == ((#[trigger] entries[i]).0@, entries[i].1.view()),
    decreases entries.len(),
{
    if entries.len() > 0 {
        lemma_entries_view_index(entries.drop_first());
        assert forall|i: int| 0 <= i < entries.len() implies entries_view(entries)[i] == ((#[trigger] entries[i]).0@, entries[i].1.view()) by {
            if i > 0 {
                assert(entries.drop_first()[i - 1] == entries[i]);
            }
        }
    }
}

/// A sequence of values is finite exactly when each of them is.
pub proof fn lemma_finite_values(items: Seq<FrontmatterView>)
    ensures
        finite_values(items) <==> forall|i: int| 0 <= i < items.len() ==> finite_value(#[trigger] items[i]),
    decreases items.len(),
{
    if items.len() > 0 {
        lemma_finite_values(items.drop_first());
        if finite_values(items) {
            assert forall|i: int| 0 <= i < items.len() implies finite_value(#[trigger] items[i]) by {
                if i > 0 {
                    assert(items.drop_first()[i - 1] == items[i]);
                }
            }
        }
        if forall|i: int| 0 <= i < items.len() ==> finite_value(#[trigger] items[i]) {
            assert forall|i: int| 0 <= i < items.drop_first().len() implies finite_value(#[trigger] items.drop_first()[i]) by {
                assert(items.drop_first()[i] == items[i + 1]);
            }
        }
    }
}

/// Entries are finite exactly when each of their values is.
pub proof fn lemma_finite_entries(entries: Seq<(Seq<char>, FrontmatterView)>)
    ensures
        finite_entries(entries) <==> forall|i: int| 0 <= i < entries.len() ==> finite_value(#[trigger] entries[i].1),
    decreases entries.len(),
{
    if entries.len() > 0 {
        lemma_finite_entries(entries.drop_first());
        if finite_entries(entries) {
            assert forall|i: int| 0 <= i < entries.len() implies finite_value(#[trigger] entries[i].1) by {
                if i > 0 {
                    assert(entries.drop_first()[i - 1] == entries[i]);
                }
            }
        }
        if forall|i: int| 0 <= i < entries.len() ==> finite_value(#[trigger] entries[i].1) {
            assert forall|i: int| 0 <= i < entries.drop_first().len() implies finite_value(#[trigger] entries.drop_first()[i].1) by {
                assert(entries.drop_first()[i] == entries[i + 1]);
            }
        }
    }
}

impl FrontmatterValue {
    /// Reject a value that holds a non-finite number.
    pub fn validate(&self) -> (result: Result<(), DomainError>)
        ensures
            finite_value(self.view()) ==> result is Ok,
            !finite_value(self.view()) ==> result == Err::<(), DomainError>(DomainError::NonFiniteNumber),
        decreases self,
    {
        match self {
            FrontmatterValue::Float(bits) => {
                if (*bits >> 52u64) & 0x7ffu64 == 0x7ffu64 {
                    Err(DomainError::NonFiniteNumber)
                } else {
                    Ok(())
                }
            },
            FrontmatterValue::Sequence(items) => {
                let ghost views = values_view(items@);
                proof {
                    lemma_values_view_index(items@);
                    lemma_finite_values(views);
                }
                let mut i: usize = 0;
                while i < items.len()
                    invariant
                        i <= items@.len(),
                        *self == FrontmatterValue::Sequence(*items),
                        views == values_view(items@),
                        views.len() == items@.len(),
                        forall|j: int| 0 <= j < items@.len() ==> views[j] == (#[trigger] items@[j]).view(),
                        finite_values(views) <==> forall|j: int| 0 <= j < views.len() ==> finite_value(#[trigger] views[j]),
                        forall|j: int| 0 <= j < i ==> finite_value(#[trigger] views[j]),
                    decreases items@.len() - i,
                {
                    proof {
                        assert(decreases_to!(*self => self->Sequence_0));
                        assert(decreases_to!(*items => items@));
                        assert(decreases_to!(items@ => items@[i as int]));
                    }
                    if items[i].validate().is_err() {
                        assert(!finite_value(views[i as int]));
                        return Err(DomainError::NonFiniteNumber);
                    }
                    i = i + 1;
                }
                Ok(())
            },
            FrontmatterValue::Mapping(entries) => {
                let ghost views = entries_view(entries@);
                proof {
                    lemma_entries_view_index(entries@);
                    lemma_finite_entries(views);
                }
                let mut i: usize = 0;
                while i < entries.len()
                    invariant
                        i <= entries@.len(),
                        *self == FrontmatterValue::Mapping(*entries),
                        views == entries_view(entries@),
                        views.len() == entries@.len(),
                        forall|j: int| 0 <= j < entries@.len() ==> views[j] == ((#[trigger] entries@[j]).0@, entries@[j].1.view()),
                        finite_entries(views) <==> forall|j: int| 0 <= j < views.len() ==> finite_value(#[trigger] views[j].1),
                        forall|j: int| 0 <= j < i ==> finite_value(#[trigger] views[j].1),
                    decreases entries@.len() - i,
                {
                    proof {
                        assert(decreases_to!(*self => self->Mapping_0));
                        assert(decreases_to!(*entries => entries@));
                        assert(decreases_to!(entries@ => entries@[i as int]));
                        assert(decreases_to!(entries@[i as int] => entries@[i as int].1));
                    }
                    if entries[i].1.validate().is_err() {
                        assert(!finite_value(views[i as int].1));
                        return Err(DomainError::NonFiniteNumber);
                    }
                    i = i + 1;
                }
                Ok(())
            },
            _ => Ok(()),
        }
    }

    /// A deep copy of the value.
    pub fn copied(&self) -> (result: FrontmatterValue)
        ensures
            result.view() == self.view(),
        decreases self,
    {
        match self {
            FrontmatterValue::Null => FrontmatterValue::Null,
            FrontmatterValue::Bool(b) => FrontmatterValue::Bool(*b),
            FrontmatterValue::Integer(n) => FrontmatterValue::Integer(*n),
            FrontmatterValue::Float(bits) => FrontmatterValue::Float(*bits),
            FrontmatterValue::String(text) => FrontmatterValue::String(text.clone()),
            FrontmatterValue::Sequence(items) => {
                proof {
                    lemma_values_view_index(items@);
                }
                let mut out: Vec<FrontmatterValue> = Vec::new();
                let mut i: usize = 0;
                while i < items.len()
                    invariant
                        i <= items@.len(),
                        *self == FrontmatterValue::Sequence(*items),
                        out@.len() == i,
                        values_view(items@).len() == items@.len(),
                        forall|j: int| 0 <= j < items@.len() ==> values_view(items@)[j] == (#[trigger] items@[j]).view(),
                        forall|j: int| 0 <= j < i ==> (#[trigger] out@[j]).view() == items@[j].view(),
                    decreases items@.len() - i,
                {
                    proof {
                        assert(decreases_to!(*self => self->Sequence_0));
                        assert(decreases_to!(*items => items@));
                        assert(decreases_to!(items@ => items@[i as int]));
                    }
                    let item = items[i].copied();
                    out.push(item);
                    i = i + 1;
                }
                proof {
                    lemma_values_view_index(out@);
                    assert forall|j: int| 0 <= j < items@.len() implies values_view(out@)[j] == values_view(items@)[j] by {
                        assert(out@[j].view() == items@[j].view());
                    }
                    assert(values_view(out@) =~= values_view(items@));
                }
                FrontmatterValue::Sequence(out)
            },
            FrontmatterValue::Mapping(entries) => {
                let copy = copy_entries(entries);
                proof {
                    assert(decreases_to!(*self => self->Mapping_0));
                }
                FrontmatterValue::Mapping(copy)
            },
        }
    }
}

/// A deep copy of frontmatter entries.
pub fn copy_entries(entries: &Vec<(String, FrontmatterValue)>) -> (result: Vec<(String, FrontmatterValue)>)
    ensures
        entries_view(result@) == entries_view(entries@),
    decreases entries,
{
    proof {
        lemma_entries_view_index(entries@);
    }
    let mut out: Vec<(String, FrontmatterValue)> = Vec::new();
    let mut i: usize = 0;
    while i < entries.len()
        invariant
            i <= entries@.len(),
            out@.len() == i,
            entries_view(entries@).len() == entries@.len(),
            forall|j: int| 0 <= j < i ==> (#[trigger] out@[j]).0@ == entries@[j].0@ && out@[j].1.view() == entries@[j].1.view(),
        decreases entries@.len() - i,
    {
        proof {
            assert(decreases_to!(*entries => entries@));
            assert(decreases_to!(entries@ => entries@[i as int]));
            assert(decreases_to!(entries@[i as int] => entries@[i as int].1));
        }
        let value = entries[i].1.copied();
        out.push((entries[i].0.clone(), value));
        i = i + 1;
    }
    proof {
        lemma_entries_view_index(out@);
        assert forall|j: int| 0 <= j < entries@.len() implies entries_view(out@)[j] == entries_view(entries@)[j] by {
            assert(out@[j].0@ == entries@[j].0@ && out@[j].1.view() == entries@[j].1.view());
        }
        assert(entries_view(out@) =~= entries_view(entries@));
    }
    out
}

/// A note as materialized: its identifier, frontmatter, body and path.
#[derive(Debug, PartialEq)]
pub struct Note {
    pub id: NoteId,
    pub frontmatter: Vec<(String, FrontmatterValue)>,
    pub body: String,
    pub path: String,
}

/// An immutable revision of a note. `predecessors` names the revisions it
/// supersedes.
#[derive(Debug, PartialEq)]
pub struct NoteRevision {
    pub schema: SchemaVersion,
    pub note_id: NoteId,
    pub frontmatter: Vec<(String, FrontmatterValue)>,
    pub body: String,
    pub materialized_path: String,
    pub hlc: Hlc,
    pub author_id: ActorId,
    pub predecessors: Vec<RevisionId>,
    pub deleted: bool,
}

/// Whether the error `x` reports the error `e`: the same variant, with the
/// same text.
pub open spec fn reports(x: DomainError, e: DomainError) -> bool {
    match e {
        DomainError::InvalidPath(p) => x matches DomainError::InvalidPath(q) && q@ == p@,
        DomainError::InvalidNoteId(p) => x matches DomainError::InvalidNoteId(q) && q@ == p@,
        DomainError::InvalidAssetPath(p) => x matches DomainError::InvalidAssetPath(q) && q@ == p@,
        DomainError::Serialization(p) => x matches DomainError::Serialization(q) && q@ == p@,
        _ => x == e,
    }
}

/// Which error, if any, the authored content of a note revision reports: its
/// author, timestamp, path and frontmatter.
pub open spec fn content_validation(
    author_id: ActorId,
    hlc: Hlc,
    path: String,
    frontmatter: Seq<(String, FrontmatterValue)>,
) -> Option<DomainError> {
    if author_id.0@.len() == 0 {
        Some(DomainError::EmptyField { field: "author_id" })
    } else if author_id.0@ != hlc.actor_id.0@ {
        Some(DomainError::AuthorMismatch)
    } else if !relative_path_ok(path@) {
        Some(DomainError::InvalidPath(path))
    } else if first_segment(path@) == seq!['a', 's', 's', 'e', 't', 's'] {
        Some(DomainError::InvalidPath(path))
    } else if !finite_entries(entries_view(frontmatter)) {
        Some(DomainError::NonFiniteNumber)
    } else {
        None
    }
}

/// Which error, if any, validating a note revision reports.
pub open spec fn note_revision_validation(revision: NoteRevision) -> Option<DomainError> {
    if revision.schema.0 != 1 {
        Some(DomainError::UnsupportedSchema(revision.schema.0))
    } else if !valid_id_spec(vstd::utf8::encode_utf8(revision.note_id.0@)) {
        Some(DomainError::InvalidNoteId(revision.note_id.0))
    } else {
        content_validation(
            revision.author_id,
            revision.hlc,
            revision.materialized_path,
            revision.frontmatter@,
        )
    }
}

/// Whether `next` is a current-schema revision of the same note as `prior`,
/// stamped with `hlc` by `author_id`, whose only predecessor is the revision
/// whose canonical encoding is `canonical`.
pub open spec fn follows(
    next: NoteRevision,
    prior: NoteRevision,
    canonical: Seq<u8>,
    hlc: Hlc,
    author_id: ActorId,
    deleted: bool,
) -> bool {
    &&& next.schema.0 == 1
    &&& next.note_id == prior.note_id
    &&& next.hlc == hlc
    &&& next.author_id == author_id
    &&& next.deleted == deleted
    &&& next.predecessors@.len() == 1
    &&& next.predecessors@[0].0@ == fingerprint_spec(canonical)
    &&& note_revision_validation(next) is None
}

/// Check the authored content of a note revision.
fn validate_content(
    author_id: &ActorId,
    hlc: &Hlc,
    path: &String,
    frontmatter: &Vec<(String, FrontmatterValue)>,
) -> (result: Result<(), DomainError>)
    ensures
        content_validation(*author_id, *hlc, *path, frontmatter@) matches Some(e) ==> (result matches Err(x) && reports(x, e)),
        content_validation(*author_id, *hlc, *path, frontmatter@) is None ==> result is Ok,
{
    if author_id.0.as_str().is_empty() {
        return Err(DomainError::EmptyField { field: "author_id" });
    }
    if author_id.0 != hlc.actor_id.0 {
        return Err(DomainError::AuthorMismatch);
    }
    validate_relative_path(path.as_str())?;
    let chars = chars_of(path.as_str());
    proof {
        reveal_strlit("assets");
        assert("assets"@ =~= seq!['a', 's', 's', 'e', 't', 's']);
    }
    if first_segment_is(chars.as_slice(), "assets") {
        return Err(DomainError::InvalidPath(path.clone()));
    }
    let ghost views = entries_view(frontmatter@);
    proof {
        lemma_entries_view_index(frontmatter@);
        lemma_finite_entries(views);
    }
    let mut i: usize = 0;
    while i < frontmatter.len()
        invariant
            i <= frontmatter@.len(),
            views == entries_view(frontmatter@),
            views.len() == frontmatter@.len(),
            forall|j: int| 0 <= j < frontmatter@.len() ==> views[j] == ((#[trigger] frontmatter@[j]).0@, frontmatter@[j].1.view()),
            finite_entries(views) <==> forall|j: int| 0 <= j < views.len() ==> finite_value(#[trigger] views[j].1),
            forall|j: int| 0 <= j < i ==> finite_value(#[trigger] views[j].1),
            !finite_entries(views) ==> content_validation(*author_id, *hlc, *path, frontmatter@) == Some(DomainError::NonFiniteNumber),
            finite_entries(views) ==> content_validation(*author_id, *hlc, *path, frontmatter@) is None,
        decreases frontmatter@.len() - i,
    {
        if frontmatter[i].1.validate().is_err() {
            assert(!finite_value(views[i as int].1));
            return Err(DomainError::NonFiniteNumber);
        }
        i = i + 1;
    }
    Ok(())
}

impl NoteRevision {
    pub fn validate(&self) -> (result: Result<(), DomainError>)
        ensures
            note_revision_validation(*self) matches Some(e) ==> (result matches Err(x) && reports(x, e)),
            note_revision_validation(*self) is None ==> result is Ok,
    {
        validate_schema(self.schema)?;
        if !is_valid(self.note_id.0.as_str()) {
            return Err(DomainError::InvalidNoteId(self.note_id.0.clone()));
        }
        validate_content(&self.author_id, &self.hlc, &self.materialized_path, &self.frontmatter)
    }

    /// The content-addressed identifier of the revision: the hexadecimal
    /// BLAKE3 digest of `canonical`, its canonical CBOR encoding, which the
    /// caller serializes. An invalid revision has none.
    pub fn id(&self, canonical: &[u8]) -> (result: Result<RevisionId, DomainError>)
        ensures
            note_revision_validation(*self) matches Some(e) ==> (result matches Err(x) && reports(x, e)),
            note_revision_validation(*self) is None ==> (result matches Ok(r) && r.0@ == fingerprint_spec(canonical@)),
    {
        self.validate()?;
        Ok(RevisionId(blake3_hex(canonical)))
    }

    /// The next revision of this note, with new content, superseding this
    /// one; `canonical` is this revision's canonical encoding.
    pub fn revise(
        &self,
        canonical: &[u8],
        frontmatter: Vec<(String, FrontmatterValue)>,
        body: String,
        materialized_path: String,
        hlc: Hlc,
        author_id: ActorId,
        deleted: bool,
    ) -> (result: Result<NoteRevision, DomainError>)
        ensures
            note_revision_validation(*self) matches Some(e) ==> (result matches Err(x) && reports(x, e)),
            note_revision_validation(*self) is None ==> match content_validation(author_id, hlc, materialized_path, frontmatter@) {
                Some(e) => result matches Err(x) && reports(x, e),
                None => result matches Ok(r) && follows(r, *self, canonical@, hlc, author_id, deleted)
                    && r.frontmatter == frontmatter && r.body == body && r.materialized_path == materialized_path,
            },
    {
        let predecessor = self.id(canonical)?;
        let mut predecessors: Vec<RevisionId> = Vec::new();
        predecessors.push(predecessor);
        let revision = NoteRevision {
            schema: current_schema(),
            note_id: NoteId(self.note_id.0.clone()),
            frontmatter,
            body,
            materialized_path,
            hlc,
            author_id,
            predecessors,
            deleted,
        };
        revision.validate()?;
        Ok(revision)
    }

    /// A revision that marks the note deleted, keeping its content.
    pub fn delete(&self, canonical: &[u8], hlc: Hlc, author_id: ActorId) -> (result: Result<NoteRevision, DomainError>)
        ensures
            note_revision_validation(*self) matches Some(e) ==> (result matches Err(x) && reports(x, e)),
            note_revision_validation(*self) is None ==> match content_validation(author_id, hlc, self.materialized_path, self.frontmatter@) {
                Some(e) => result matches Err(x) && reports(x, e),
                None => result matches Ok(r) && follows(r, *self, canonical@, hlc, author_id, true)
                    && entries_view(r.frontmatter@) == entries_view(self.frontmatter@) && r.body == self.body
                    && r.materialized_path == self.materialized_path,
            },
    {
        self.revise(
            canonical,
            copy_entries(&self.frontmatter),
            self.body.clone(),
            self.materialized_path.clone(),
            hlc,
            author_id,
            true,
        )
    }

    /// A revision that brings a deleted note back, keeping its content.
    pub fn restore(&self, canonical: &[u8], hlc: Hlc, author_id: ActorId) -> (result: Result<NoteRevision, DomainError>)
        ensures
            note_revision_validation(*self) matches Some(e) ==> (result matches Err(x) && reports(x, e)),
            note_revision_validation(*self) is None ==> match content_validation(author_id, hlc, self.materialized_path, self.frontmatter@) {
                Some(e) => result matches Err(x) && reports(x, e),
                None => result matches Ok(r) && follows(r, *self, canonical@, hlc, author_id, false)
                    && entries_view(r.frontmatter@) == entries_view(self.frontmatter@) && r.body == self.body
                    && r.materialized_path == self.materialized_path,
            },
    {
        self.revise(
            canonical,
            copy_entries(&self.frontmatter),
            self.body.clone(),
            self.materialized_path.clone(),
            hlc,
            author_id,
            false,
        )
    }

    /// A revision that moves the note to `path`, keeping its content and
    /// whether it is deleted.
    pub fn rename(&self, canonical: &[u8], path: String, hlc: Hlc, author_id: ActorId) -> (result: Result<NoteRevision, DomainError>)
        ensures
            note_revision_validation(*self) matches Some(e) ==> (result matches Err(x) && reports(x, e)),
            note_revision_validation(*self) is None ==> match content_validation(author_id, hlc, path, self.frontmatter@) {
                Some(e) => result matches Err(x) && reports(x, e),
                None => result matches Ok(r) && follows(r, *self, canonical@, hlc, author_id, self.deleted)
                    && entries_view(r.frontmatter@) == entries_view(self.frontmatter@) && r.body == self.body
                    && r.materialized_path == path,
            },
    {
        self.revise(
            canonical,
            copy_entries(&self.frontmatter),
            self.body.clone(),
            path,
            hlc,
            author_id,
            self.deleted,
        )
    }
}

/// Whether a binary64 bit pattern is a NaN: all-ones exponent and a nonzero
/// fraction.
pub open spec fn nan_bits(bits: u64) -> bool {
    !finite_bits(bits) && bits & 0xf_ffff_ffff_ffffu64 != 0
}

/// IEEE 754 equality of two binary64 numbers given by their bit patterns:
/// a NaN equals nothing, the two zeros are equal, and otherwise equal
/// numbers have equal bits.
pub open spec fn float_eq_bits(a: u64, b: u64) -> bool {
    !nan_bits(a) && !nan_bits(b) && (a == b || (a & 0x7fff_ffff_ffff_ffffu64 == 0 && b
        & 0x7fff_ffff_ffff_ffffu64 == 0))
}

/// Equality of frontmatter values: the same kind with equal contents,
/// numbers compared as IEEE 754 numbers and mappings entry by entry in key
/// order.
pub open spec fn value_eq(a: FrontmatterView, b: FrontmatterView) -> bool
    decreases a,
{
    match a {
        FrontmatterView::Null => b is Null,
        FrontmatterView::Bool(x) => b matches FrontmatterView::Bool(y) && x == y,
        FrontmatterView::Integer(x) => b matches FrontmatterView::Integer(y) && x == y,
        FrontmatterView::Float(x) => b matches FrontmatterView::Float(y) && float_eq_bits(x, y),
        FrontmatterView::Text(x) => b matches FrontmatterView::Text(y) && x == y,
        FrontmatterView::Sequence(xs) => match b {
            FrontmatterView::Sequence(ys) => values_eq(xs, ys),
            _ => false,
        },
        FrontmatterView::Mapping(xs) => match b {
            FrontmatterView::Mapping(ys) => entries_eq(xs, ys),
            _ => false,
        },
    }
}

/// Element-wise equality of two sequences of values.
pub open spec fn values_eq(xs: Seq<FrontmatterView>, ys: Seq<FrontmatterView>) -> bool
    decreases xs,
{
    if xs.len() == 0 {
        ys.len() == 0
    } else {
        ys.len() == xs.len() && value_eq(xs[0], ys[0]) && values_eq(xs.drop_first(), ys.drop_first())
    }
}

/// Entry-wise equality of two sequences of entries: equal keys and equal
/// values, in order.
pub open spec fn entries_eq(xs: Seq<(Seq<char>, FrontmatterView)>, ys: Seq<(Seq<char>, FrontmatterView)>) -> bool
    decreases xs,
{
    if xs.len() == 0 {
        ys.len() == 0
    } else {
        ys.len() == xs.len() && xs[0].0 == ys[0].0 && value_eq(xs[0].1, ys[0].1) && entries_eq(
            xs.drop_first(),
            ys.drop_first(),
        )
    }
}

/// Sequences of values are equal exactly when they are equal at each place.
pub proof fn lemma_values_eq(xs: Seq<FrontmatterView>, ys: Seq<FrontmatterView>)
    ensures
        values_eq(xs, ys) <==> (xs.len() == ys.len() && forall|i: int| 0 <= i < xs.len() ==> value_eq(#[trigger] xs[i], ys[i])),
    decreases xs.len(),
{
    if xs.len() > 0 && ys.len() == xs.len() {
        lemma_values_eq(xs.drop_first(), ys.drop_first());
        if values_eq(xs, ys) {
            assert forall|i: int| 0 <= i < xs.len() implies value_eq(#[trigger] xs[i], ys[i]) by {
                if i > 0 {
                    assert(xs.drop_first()[i - 1] == xs[i]);
                    assert(ys.drop_first()[i - 1] == ys[i]);
                }
            }
        }
        if forall|i: int| 0 <= i < xs.len() ==> value_eq(#[trigger] xs[i], ys[i]) {
            assert forall|i: int| 0 <= i < xs.drop_first().len() implies value_eq(#[trigger] xs.drop_first()[i], ys.drop_first()[i]) by {
                assert(xs.drop_first()[i] == xs[i + 1]);
                assert(ys.drop_first()[i] == ys[i + 1]);
            }
        }
    }
}

/// Sequences of entries are equal exactly when they are equal at each place.
pub proof fn lemma_entries_eq(xs: Seq<(Seq<char>, FrontmatterView)>, ys: Seq<(Seq<char>, FrontmatterView)>)
    ensures
        entries_eq(xs, ys) <==> (xs.len() == ys.len() && forall|i: int| 0 <= i < xs.len() ==> (#[trigger] xs[i]).0 == ys[i].0 && value_eq(xs[i].1, ys[i].1)),
    decreases xs.len(),
{
    if xs.len() > 0 && ys.len() == xs.len() {
        lemma_entries_eq(xs.drop_first(), ys.drop_first());
        if entries_eq(xs, ys) {
            assert forall|i: int| 0 <= i < xs.len() implies (#[trigger] xs[i]).0 == ys[i].0 && value_eq(xs[i].1, ys[i].1) by {
                if i > 0 {
                    assert(xs.drop_first()[i - 1] == xs[i]);
                    assert(ys.drop_first()[i - 1] == ys[i]);
                }
            }
        }
        if forall|i: int| 0 <= i < xs.len() ==> (#[trigger] xs[i]).0 == ys[i].0 && value_eq(xs[i].1, ys[i].1) {
            assert forall|i: int| 0 <= i < xs.drop_first().len() implies (#[trigger] xs.drop_first()[i]).0 == ys.drop_first()[i].0 && value_eq(xs.drop_first()[i].1, ys.drop_first()[i].1) by {
                assert(xs.drop_first()[i] == xs[i + 1]);
                assert(ys.drop_first()[i] == ys[i + 1]);
            }
        }
    }
}

/// Equality of two binary64 numbers given by their bit patterns.
pub fn float_bits_eq(a: u64, b: u64) -> (result: bool)
    ensures
        result == float_eq_bits(a, b),
{
    let a_nan = (a >> 52u64) & 0x7ffu64 == 0x7ffu64 && a & 0xf_ffff_ffff_ffffu64 != 0;
    let b_nan = (b >> 52u64) & 0x7ffu64 == 0x7ffu64 && b & 0xf_ffff_ffff_ffffu64 != 0;
    !a_nan && !b_nan && (a == b || (a & 0x7fff_ffff_ffff_ffffu64 == 0 && b & 0x7fff_ffff_ffff_ffffu64 == 0))
}

impl FrontmatterValue {
    /// Whether two values are equal: the same kind with equal contents.
    pub fn equals(&self, other: &FrontmatterValue) -> (result: bool)
        ensures
            result == value_eq(self.view(), other.view()),
        decreases self,
    {
        match self {
            FrontmatterValue::Null => matches!(other, FrontmatterValue::Null),
            FrontmatterValue::Bool(x) => match other {
                FrontmatterValue::Bool(y) => *x == *y,
                _ => false,
            },
            FrontmatterValue::Integer(x) => match other {
                FrontmatterValue::Integer(y) => *x == *y,
                _ => false,
            },
            FrontmatterValue::Float(x) => match other {
                FrontmatterValue::Float(y) => float_bits_eq(*x, *y),
                _ => false,
            },
            FrontmatterValue::String(x) => match other {
                FrontmatterValue::String(y) => *x == *y,
                _ => false,
            },
            FrontmatterValue::Sequence(xs) => match other {
                FrontmatterValue::Sequence(ys) => {
                    proof {
                        lemma_values_view_index(xs@);
                        lemma_values_view_index(ys@);
                        lemma_values_eq(values_view(xs@), values_view(ys@));
                    }
                    if xs.len() != ys.len() {
                        return false;
                    }
                    let mut i: usize = 0;
                    while i < xs.len()
                        invariant
                            i <= xs@.len(),
                            xs@.len() == ys@.len(),
                            *self == FrontmatterValue::Sequence(*xs),
                            *other == FrontmatterValue::Sequence(*ys),
                            values_view(xs@).len() == xs@.len(),
                            values_view(ys@).len() == ys@.len(),
                            forall|j: int| 0 <= j < xs@.len() ==> values_view(xs@)[j] == (#[trigger] xs@[j]).view(),
                            forall|j: int| 0 <= j < ys@.len() ==> values_view(ys@)[j] == (#[trigger] ys@[j]).view(),
                            values_eq(values_view(xs@), values_view(ys@)) <==> forall|j: int| 0 <= j < xs@.len() ==> value_eq(#[trigger] values_view(xs@)[j], values_view(ys@)[j]),
                            forall|j: int| 0 <= j < i ==> value_eq(#[trigger] values_view(xs@)[j], values_view(ys@)[j]),
                        decreases xs@.len() - i,
                    {
                        proof {
                            assert(decreases_to!(*self => self->Sequence_0));
                            assert(decreases_to!(*xs => xs@));
                            assert(decreases_to!(xs@ => xs@[i as int]));
                        }
                        if !xs[i].equals(&ys[i]) {
                            assert(!value_eq(values_view(xs@)[i as int], values_view(ys@)[i as int]));
                            return false;
                        }
                        i = i + 1;
                    }
                    true
                },
                _ => false,
            },
            FrontmatterValue::Mapping(xs) => match other {
                FrontmatterValue::Mapping(ys) => {
                    proof {
                        assert(decreases_to!(*self => self->Mapping_0));
                    }
                    entries_equal(xs, ys)
                },
                _ => false,
            },
        }
    }
}

/// Whether two frontmatter entry lists are equal, entry by entry.
pub fn entries_equal(xs: &Vec<(String, FrontmatterValue)>, ys: &Vec<(String, FrontmatterValue)>) -> (result: bool)
    ensures
        result == entries_eq(entries_view(xs@), entries_view(ys@)),
    decreases xs,
{
    proof {
        lemma_entries_view_index(xs@);
        lemma_entries_view_index(ys@);
        lemma_entries_eq(entries_view(xs@), entries_view(ys@));
    }
    if xs.len() != ys.len() {
        return false;
    }
    let ghost vx = entries_view(xs@);
    let ghost vy = entries_view(ys@);
    let mut i: usize = 0;
    while i < xs.len()
        invariant
            i <= xs@.len(),
            xs@.len() == ys@.len(),
            vx == entries_view(xs@),
            vy == entries_view(ys@),
            vx.len() == xs@.len(),
            vy.len() == ys@.len(),
            forall|j: int| 0 <= j < xs@.len() ==> vx[j] == ((#[trigger] xs@[j]).0@, xs@[j].1.view()),
            forall|j: int| 0 <= j < ys@.len() ==> vy[j] == ((#[trigger] ys@[j]).0@, ys@[j].1.view()),
            entries_eq(vx, vy) <==> forall|j: int| 0 <= j < vx.len() ==> (#[trigger] vx[j]).0 == vy[j].0 && value_eq(vx[j].1, vy[j].1),
            forall|j: int| 0 <= j < i ==> (#[trigger] vx[j]).0 == vy[j].0 && value_eq(vx[j].1, vy[j].1),
        decreases xs@.len() - i,
    {
        proof {
            assert(decreases_to!(*xs => xs@));
            assert(decreases_to!(xs@ => xs@[i as int]));
            assert(decreases_to!(xs@[i as int] => xs@[i as int].1));
        }
        let ghost xi = xs@[i as int];
        let ghost yi = ys@[i as int];
        if xs[i].0 != ys[i].0 || !xs[i].1.equals(&ys[i].1) {
            assert(vx[i as int] == (xi.0@, xi.1.view()));
            assert(vy[i as int] == (yi.0@, yi.1.view()));
            assert(!(vx[i as int].0 == vy[i as int].0 && value_eq(vx[i as int].1, vy[i as int].1)));
            return false;
        }
        i = i + 1;
    }
    true
}

} // verus!
