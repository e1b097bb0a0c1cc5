//! Owner-scoped API keys of the sync server. Only a SHA-256 hash of each
//! token is kept; a token grants the permissions its key was created with.

use vstd::prelude::*;

use sha2::Digest as _;

use crate::crypto::{encode_hex, hex_spec};
use crate::text::{push_str, string_views, strictly_sorted, trim, trim_spec};

verus! {

pub const TOKEN_PREFIX: &'static str = "xok_";

/// The longest label, in bytes.
pub const MAX_LABEL_BYTES: usize = 120;

/// The SHA-256 digest of `data`.
pub uninterp spec fn sha256_digest(data: Seq<u8>) -> Seq<u8>;

/// `sha2::Sha256::digest`: the 32-byte SHA-256 digest of `data`.
#[verifier::external_body]
fn sha256(data: &[u8]) -> (result: Vec<u8>)
    ensures
        result@ == sha256_digest(data@),
{
    sha2::Sha256::digest(data).to_vec()
}

/// The stored hash of a token: the hexadecimal SHA-256 digest of its bytes.
pub open spec fn token_hash(token: Seq<char>) -> Seq<char> {
    hex_spec(sha256_digest(vstd::utf8::encode_utf8(token)))
}

fn digest(token: &str) -> (result: String)
    ensures
        result@ == token_hash(token@),
{
    let hash = sha256(token.as_bytes());
    encode_hex(hash.as_slice())
}

/// What a key's owner sees of it. Permissions are listed in ascending order
/// without repetition.
#[derive(Clone, Debug, PartialEq, Eq)]
pub struct ApiKeyMetadata {
    pub id: String,
    pub label: String,
    pub permissions: Vec<String>,
    pub created_at: i64,
}

/// The abstract value of key metadata.
pub struct MetadataView {
    pub id: Seq<char>,
    pub label: Seq<char>,
    pub permissions: Seq<Seq<char>>,
    pub created_at: i64,
}

impl ApiKeyMetadata {
    pub open spec fn view(self) -> MetadataView {
        MetadataView {
            id: self.id@,
            label: self.label@,
            permissions: string_views(self.permissions@),
            created_at: self.created_at,
        }
    }
}

/// A key as the store keeps it.
#[derive(Clone, Debug, PartialEq, Eq)]
pub struct StoredKey {
    pub metadata: ApiKeyMetadata,
    pub owner: String,
    pub hash: String,
}

/// A freshly created key with its token, which is shown once.
#[derive(Clone, Debug, PartialEq, Eq)]
pub struct CreatedApiKey {
    pub metadata: ApiKeyMetadata,
    pub token: String,
}

/// Why a key could not be created.
#[derive(Clone, Copy, Debug, PartialEq, Eq, Structural)]
pub enum ApiKeyError {
    InvalidLabel,
    NoPermissions,
}

/// The keys of a server.
#[derive(Clone, Debug, PartialEq, Eq)]
pub struct ApiKeys {
    keys: Vec<StoredKey>,
}

/// Whether `key` grants `permission` to a token with hash `hash`.
pub open spec fn grants(key: StoredKey, hash: Seq<char>, permission: Seq<char>) -> bool {
    key.hash@ == hash && string_views(key.metadata.permissions@).contains(permission)
}

/// The metadata of `owner`'s keys, in the order they were created.
pub open spec fn owned(keys: Seq<StoredKey>, owner: Seq<char>) -> Seq<MetadataView>
    decreases keys.len(),
{
    if keys.len() == 0 {
        Seq::empty()
    } else if keys.last().owner@ == owner {
        owned(keys.drop_last(), owner).push(keys.last().metadata.view())
    } else {
        owned(keys.drop_last(), owner)
    }
}

/// The keys other than `owner`'s key `id`, in order.
pub open spec fn kept(keys: Seq<StoredKey>, owner: Seq<char>, id: Seq<char>) -> Seq<StoredKey>
    decreases keys.len(),
{
    if keys.len() == 0 {
        Seq::empty()
    } else if is_named(keys.last(), owner, id) {
        kept(keys.drop_last(), owner, id)
    } else {
        kept(keys.drop_last(), owner, id).push(keys.last())
    }
}

/// Whether a key is the one `owner` names `id`.
pub open spec fn is_named(key: StoredKey, owner: Seq<char>, id: Seq<char>) -> bool {
    key.metadata.id@ == id && key.owner@ == owner
}

/// Why a creation request is refused, if it is.
pub open spec fn creation_error(label: Seq<char>, permissions: Seq<String>) -> Option<ApiKeyError> {
    if trim_spec(label).len() == 0 || vstd::utf8::encode_utf8(label).len() > MAX_LABEL_BYTES {
        Some(ApiKeyError::InvalidLabel)
    } else if permissions.len() == 0 {
        Some(ApiKeyError::NoPermissions)
    } else {
        None
    }
}

fn copy_metadata(m: &ApiKeyMetadata) -> (result: ApiKeyMetadata)
    ensures
        result.view() == m.view(),
{
    ApiKeyMetadata {
        id: m.id.clone(),
        label: m.label.clone(),
        permissions: crate::text::clone_strings(&m.permissions),
        created_at: m.created_at,
    }
}

impl ApiKeys {
    /// The stored keys, in the order they were created.
    pub closed spec fn view(self) -> Seq<StoredKey> {
        self.keys@
    }

    pub fn new() -> (result: ApiKeys)
        ensures
            result.view() == Seq::<StoredKey>::empty(),
    {
        ApiKeys { keys: Vec::new() }
    }

    /// A store holding keys read back from disk.
    pub fn from_stored(keys: Vec<StoredKey>) -> (result: ApiKeys)
        ensures
            result.view() == keys@,
    {
        ApiKeys { keys }
    }

    /// The keys to write to disk.
    pub fn stored(&self) -> (result: &[StoredKey])
        ensures
            result@ == self.view(),
    {
        self.keys.as_slice()
    }

    /// Whether `token` belongs to a key that grants `permission`.
    pub fn authorize(&self, token: &str, permission: &str) -> (result: bool)
        ensures
            result == exists|i: int| 0 <= i < self.view().len() && grants(#[trigger] self.view()[i], token_hash(token@), permission@),
    {
        let hash = digest(token);
        let mut i: usize = 0;
        while i < self.keys.len()
            invariant
                hash@ == token_hash(token@),
                i <= self.keys@.len(),
                forall|j: int| 0 <= j < i ==> !grants(#[trigger] self.keys@[j], hash@, permission@),
            decreases self.keys@.len() - i,
        {
            let key = &self.keys[i];
            if key.hash == hash {
                match crate::text::find_string(&key.metadata.permissions, permission) {
                    Some(k) => {
                        proof {
                            assert(string_views(key.metadata.permissions@)[k as int] == permission@);
                            assert(grants(self.keys@[i as int], hash@, permission@));
                            assert(grants(self.view()[i as int], token_hash(token@), permission@));
                        }
                        return true;
                    },
                    None => {},
                }
            }
            i = i + 1;
        }
        false
    }

    /// Create a key for `owner` from 32 random bytes: its token is the
    /// prefix and the bytes in hexadecimal, its identifier the first eight
    /// bytes in hexadecimal, and only the token's hash is kept.
    pub fn create(
        &mut self,
        owner: &str,
        label: &str,
        permissions: Vec<String>,
        random: [u8; 32],
        created_at: i64,
    ) -> (result: Result<CreatedApiKey, ApiKeyError>)
        requires
            strictly_sorted(string_views(permissions@)),
        ensures
            match creation_error(label@, permissions@) {
                Some(e) => result == Err::<CreatedApiKey, ApiKeyError>(e) && final(self).view() == old(self).view(),
                None => result matches Ok(created) && {
                    &&& created.token@ == TOKEN_PREFIX@ + hex_spec(random@)
                    &&& created.metadata.id@ == hex_spec(random@.take(8))
                    &&& created.metadata.label@ == trim_spec(label@)
                    &&& string_views(created.metadata.permissions@) == string_views(permissions@)
                    &&& created.metadata.created_at == created_at
                    &&& final(self).view().len() == old(self).view().len() + 1
                    &&& final(self).view().take(old(self).view().len() as int) == old(self).view()
                    &&& final(self).view().last().metadata.view() == created.metadata.view()
                    &&& final(self).view().last().owner@ == owner@
                    &&& final(self).view().last().hash@ == token_hash(created.token@)
                },
            },
    {
        let trimmed = trim(label);
        proof {
            crate::text::lemma_utf8_len_encoded(label@);
        }
        if trimmed.as_str().is_empty() || label.as_bytes().len() > MAX_LABEL_BYTES {
            return Err(ApiKeyError::InvalidLabel);
        }
        if permissions.len() == 0 {
            return Err(ApiKeyError::NoPermissions);
        }
        let mut token = String::new();
        push_str(&mut token, TOKEN_PREFIX);
        let random_hex = encode_hex(&random);
        push_str(&mut token, random_hex.as_str());
        let mut head: Vec<u8> = Vec::new();
        let mut i: usize = 0;
        while i < 8
            invariant
                i <= 8,
                random@.len() == 32,
                head@ == random@.take(i as int),
            decreases 8 - i,
        {
            head.push(random[i]);
            i = i + 1;
            assert(random@.take(i as int) =~= random@.take((i - 1) as int).push(random@[i - 1]));
        }
        let id = encode_hex(head.as_slice());
        let metadata = ApiKeyMetadata { id, label: trimmed, permissions, created_at };
        let hash = digest(token.as_str());
        let ghost before = self.keys@;
        self.keys.push(StoredKey { metadata: copy_metadata(&metadata), owner: owner.to_owned(), hash });
        proof {
            assert(self.keys@.take(before.len() as int) =~= before);
            assert(token@ =~= TOKEN_PREFIX@ + hex_spec(random@));
        }
        Ok(CreatedApiKey { metadata, token })
    }

    /// Remove `owner`'s key `id`; whether there was one.
    pub fn remove(&mut self, owner: &str, id: &str) -> (result: bool)
        ensures
            final(self).view() == kept(old(self).view(), owner@, id@),
            result == exists|i: int| 0 <= i < old(self).view().len() && is_named(#[trigger] old(self).view()[i], owner@, id@),
    {
        let ghost before = self.keys@;
        let mut rest: Vec<StoredKey> = Vec::new();
        std::mem::swap(&mut rest, &mut self.keys);
        let mut remaining: Vec<StoredKey> = Vec::new();
        let mut removed = false;
        let owner_chars = crate::text::chars_of(owner);
        let id_chars = crate::text::chars_of(id);
        proof {
            assert(before.skip(0) =~= before);
            assert(before.take(0) =~= Seq::<StoredKey>::empty());
        }
        while rest.len() > 0
            invariant
                owner_chars@ == owner@,
                id_chars@ == id@,
                rest@.len() <= before.len(),
                rest@ == before.skip(before.len() - rest@.len()),
                remaining@ == kept(before.take(before.len() - rest@.len()), owner@, id@),
                removed == exists|j: int| 0 <= j < before.len() - rest@.len() && is_named(#[trigger] before[j], owner@, id@),
            decreases rest@.len(),
        {
            let ghost i = before.len() - rest@.len();
            let key = rest.remove(0);
            proof {
                assert(key == before[i]);
                assert(rest@ =~= before.skip(i + 1));
                assert(before.take(i + 1).drop_last() =~= before.take(i));
                assert(before.take(i + 1).last() == before[i]);
            }
            let named = crate::text::eq_str(id_chars.as_slice(), key.metadata.id.as_str())
                && crate::text::eq_str(owner_chars.as_slice(), key.owner.as_str());
            if named {
                removed = true;
            } else {
                remaining.push(key);
            }
        }
        proof {
            assert(before.take(before.len() as int) =~= before);
            assert(old(self).view() == before);
            if removed {
                let j = choose|j: int| 0 <= j < before.len() && is_named(#[trigger] before[j], owner@, id@);
                assert(is_named(old(self).view()[j], owner@, id@));
            }
            if exists|i: int| 0 <= i < old(self).view().len() && is_named(#[trigger] old(self).view()[i], owner@, id@) {
                let i = choose|i: int| 0 <= i < old(self).view().len() && is_named(#[trigger] old(self).view()[i], owner@, id@);
                assert(is_named(before[i], owner@, id@));
            }
        }
        self.keys = remaining;
        removed
    }

    /// The metadata of `owner`'s keys.
    pub fn list(&self, owner: &str) -> (result: Vec<ApiKeyMetadata>)
        ensures
            result@.map_values(|m: ApiKeyMetadata| m.view()) == owned(self.view(), owner@),
    {
        let mut result: Vec<ApiKeyMetadata> = Vec::new();
        let mut i: usize = 0;
        while i < self.keys.len()
            invariant
                i <= self.keys@.len(),
                result@.map_values(|m: ApiKeyMetadata| m.view()) == owned(self.keys@.take(i as int), owner@),
            decreases self.keys@.len() - i,
        {
            let key = &self.keys[i];
            proof {
                assert(self.keys@.take(i + 1).drop_last() =~= self.keys@.take(i as int));
            }
            let owner_chars = crate::text::chars_of(key.owner.as_str());
            let ghost before = result@;
            if crate::text::eq_str(owner_chars.as_slice(), owner) {
                result.push(copy_metadata(&key.metadata));
                proof {
                    assert(result@.map_values(|m: ApiKeyMetadata| m.view()) =~= before.map_values(|m: ApiKeyMetadata| m.view()).push(key.metadata.view()));
                }
            }
            i = i + 1;
        }
        proof {
            assert(self.keys@.take(i as int) =~= self.keys@);
        }
        result
    }
}

/// A created key's token is authorized for every permission the key grants:
/// `create` appends a key whose hash is the token's hash, and `authorize`
/// accepts any key with that hash and permission.
pub proof fn lemma_created_token_authorizes(keys: Seq<StoredKey>, token: Seq<char>, permission: Seq<char>)
    requires
        keys.len() > 0,
        keys.last().hash@ == token_hash(token),
        string_views(keys.last().metadata.permissions@).contains(permission),
    ensures
        exists|i: int| 0 <= i < keys.len() && grants(#[trigger] keys[i], token_hash(token), permission),
{
    assert(grants(keys[keys.len() - 1], token_hash(token), permission));
}

/// After a removal the owner no longer lists a key with the removed identifier.
pub proof fn lemma_removed_key_is_not_listed(keys: Seq<StoredKey>, owner: Seq<char>, id: Seq<char>)
    ensures
        forall|i: int| 0 <= i < owned(kept(keys, owner, id), owner).len() ==> (#[trigger] owned(kept(keys, owner, id), owner)[i]).id != id,
    decreases keys.len(),
{
    if keys.len() > 0 {
        lemma_removed_key_is_not_listed(keys.drop_last(), owner, id);
        let rest = kept(keys.drop_last(), owner, id);
        if !is_named(keys.last(), owner, id) {
            assert(rest.push(keys.last()).drop_last() =~= rest);
            assert(rest.push(keys.last()).last() == keys.last());
            let listed = owned(kept(keys, owner, id), owner);
            assert forall|i: int| 0 <= i < listed.len() implies (#[trigger] listed[i]).id != id by {
                if keys.last().owner@ == owner && i == listed.len() - 1 {
                    assert(listed[i] == keys.last().metadata.view());
                } else {
                    assert(listed[i] == owned(rest, owner)[i]);
                }
            }
        }
    }
}

/// A removal leaves other owners' lists unchanged.
pub proof fn lemma_removal_spares_other_owners(keys: Seq<StoredKey>, owner: Seq<char>, id: Seq<char>, other: Seq<char>)
    requires
        other != owner,
    ensures
        owned(kept(keys, owner, id), other) == owned(keys, other),
    decreases keys.len(),
{
    if keys.len() > 0 {
        lemma_removal_spares_other_owners(keys.drop_last(), owner, id, other);
        let rest = kept(keys.drop_last(), owner, id);
        if !is_named(keys.last(), owner, id) {
            assert(rest.push(keys.last()).drop_last() =~= rest);
        }
    }
}


/// Removing a key revokes its token: once the removed key is the only one
/// that grants a permission to a token hash, no kept key grants it.
pub proof fn lemma_removed_key_revokes(keys: Seq<StoredKey>, owner: Seq<char>, id: Seq<char>, hash: Seq<char>, permission: Seq<char>)
    requires
        forall|i: int| 0 <= i < keys.len() && grants(#[trigger] keys[i], hash, permission) ==> is_named(keys[i], owner, id),
    ensures
        forall|i: int| 0 <= i < kept(keys, owner, id).len() ==> !grants(#[trigger] kept(keys, owner, id)[i], hash, permission),
    decreases keys.len(),
{
    if keys.len() > 0 {
        let prior = keys.drop_last();
        assert forall|i: int| 0 <= i < prior.len() && grants(#[trigger] prior[i], hash, permission) implies is_named(prior[i], owner, id) by {
            assert(prior[i] == keys[i]);
        }
        lemma_removed_key_revokes(prior, owner, id, hash, permission);
        let rest = kept(prior, owner, id);
        if !is_named(keys.last(), owner, id) {
            let all = rest.push(keys.last());
            assert(!grants(keys[keys.len() - 1], hash, permission));
            assert forall|i: int| 0 <= i < all.len() implies !grants(#[trigger] all[i], hash, permission) by {
                if i < rest.len() {
                    assert(all[i] == rest[i]);
                }
            }
        }
    }
}

} // verus!
