//! The decisions of OpenID Connect sign-in that do not need the network:
//! matching a discovered issuer, the settings handed to the browser client,
//! and whether a validated access token grants a permission.

use vstd::prelude::*;

use crate::text::{chars_of, eq_str, string_range};

verus! {

pub const READ_PERMISSION: &'static str = "xo:read";

pub const WRITE_PERMISSION: &'static str = "xo:write";

pub const SYNC_PERMISSION: &'static str = "xo:sync";

/// The public sign-in settings of the browser client.
#[derive(Clone, Debug, PartialEq, Eq)]
pub struct BrowserAuthConfig {
    pub issuer: String,
    pub client_id: String,
    pub resource: String,
    pub scopes: Vec<String>,
}

/// `s` without trailing `/` characters.
pub open spec fn trim_slashes_spec(s: Seq<char>) -> Seq<char>
    decreases s.len(),
{
    if s.len() > 0 && s.last() == '/' {
        trim_slashes_spec(s.drop_last())
    } else {
        s
    }
}

/// `str::trim_end_matches('/')`.
pub fn trim_trailing_slashes(s: &str) -> (result: String)
    ensures
        result@ == trim_slashes_spec(s@),
{
    let chars = chars_of(s);
    let mut end = chars.len();
    proof {
        assert(chars@.take(end as int) =~= s@);
    }
    while end > 0 && chars[end - 1] == '/'
        invariant
            end <= chars@.len(),
            chars@ == s@,
            trim_slashes_spec(chars@.take(end as int)) == trim_slashes_spec(s@),
        decreases end,
    {
        proof {
            assert(chars@.take(end - 1) =~= chars@.take(end as int).drop_last());
        }
        end = end - 1;
    }
    let result = string_range(chars.as_slice(), 0, end);
    proof {
        assert(chars@.subrange(0, end as int) =~= chars@.take(end as int));
    }
    result
}

/// Whether a discovery document names the configured issuer, trailing
/// slashes aside.
pub fn issuer_matches(configured: &str, discovered: &str) -> (result: bool)
    ensures
        result == (trim_slashes_spec(configured@) == trim_slashes_spec(discovered@)),
{
    let a = trim_trailing_slashes(configured);
    let b = trim_trailing_slashes(discovered);
    let a_chars = chars_of(a.as_str());
    eq_str(a_chars.as_slice(), b.as_str())
}

impl BrowserAuthConfig {
    /// The settings for a discovered issuer: the client signs in as
    /// `client_id` for the `audience` resource, asking for read, write and
    /// synchronization permission.
    pub fn new(issuer: String, client_id: &str, audience: &str) -> (result: BrowserAuthConfig)
        ensures
            result.issuer@ == issuer@,
            result.client_id@ == client_id@,
            result.resource@ == trim_slashes_spec(audience@),
            result.scopes@.len() == 3,
            result.scopes@[0]@ == READ_PERMISSION@,
            result.scopes@[1]@ == WRITE_PERMISSION@,
            result.scopes@[2]@ == SYNC_PERMISSION@,
    {
        let mut scopes: Vec<String> = Vec::new();
        scopes.push(READ_PERMISSION.to_owned());
        scopes.push(WRITE_PERMISSION.to_owned());
        scopes.push(SYNC_PERMISSION.to_owned());
        BrowserAuthConfig {
            issuer,
            client_id: client_id.to_owned(),
            resource: trim_trailing_slashes(audience),
            scopes,
        }
    }
}

/// `u8::is_ascii_whitespace` on characters.
pub open spec fn is_ascii_space(c: char) -> bool {
    c == ' ' || c == '\t' || c == '\n' || c == '\x0C' || c == '\r'
}

/// Whether `word` is one of the words of `s` split at ASCII white space,
/// starting at position `i`.
pub open spec fn word_at(s: Seq<char>, word: Seq<char>, i: int) -> bool {
    &&& word.len() > 0
    &&& 0 <= i && i + word.len() <= s.len()
    &&& s.subrange(i, i + word.len()) == word
    &&& (i == 0 || is_ascii_space(s[i - 1]))
    &&& (i + word.len() == s.len() || is_ascii_space(s[i + word.len()]))
    &&& forall|k: int| 0 <= k < word.len() ==> !is_ascii_space(#[trigger] word[k])
}

/// Whether `word` is one of the words of `s` split at ASCII white space.
pub open spec fn has_word(s: Seq<char>, word: Seq<char>) -> bool {
    exists|i: int| word_at(s, word, i)
}

/// Whether a token with this `scope` claim and `permissions` claim grants
/// `permission`.
pub open spec fn grants_permission(scope: Seq<char>, permissions: Seq<String>, permission: Seq<char>) -> bool {
    has_word(scope, permission) || exists|i: int|
        0 <= i < permissions.len() && (#[trigger] permissions[i])@ == permission
}

fn has_space(chars: &Vec<char>) -> (result: bool)
    ensures
        result == exists|k: int| 0 <= k < chars@.len() && is_ascii_space(#[trigger] chars@[k]),
{
    let mut k: usize = 0;
    while k < chars.len()
        invariant
            k <= chars@.len(),
            forall|j: int| 0 <= j < k ==> !is_ascii_space(#[trigger] chars@[j]),
        decreases chars@.len() - k,
    {
        let c = chars[k];
        if c == ' ' || c == '\t' || c == '\n' || c == '\x0C' || c == '\r' {
            return true;
        }
        k = k + 1;
    }
    false
}

fn is_space_char(c: char) -> (result: bool)
    ensures
        result == is_ascii_space(c),
{
    c == ' ' || c == '\t' || c == '\n' || c == '\x0C' || c == '\r'
}

/// Whether `word` stands at position `i` of `s`, bounded by white space.
fn word_at_exec(s: &Vec<char>, word: &Vec<char>, i: usize) -> (result: bool)
    requires
        word@.len() > 0,
        forall|k: int| 0 <= k < word@.len() ==> !is_ascii_space(#[trigger] word@[k]),
        i + word@.len() <= s@.len(),
    ensures
        result == word_at(s@, word@, i as int),
{
    if i > 0 && !is_space_char(s[i - 1]) {
        return false;
    }
    let n = s.len();
    let end = i + word.len();
    if end < s.len() && !is_space_char(s[end]) {
        return false;
    }
    let mut k: usize = 0;
    while k < word.len()
        invariant
            k <= word@.len(),
            end == i + word@.len(),
            end <= s@.len(),
            forall|j: int| 0 <= j < k ==> s@[i + j] == word@[j],
        decreases word@.len() - k,
    {
        if s[i + k] != word[k] {
            assert(s@.subrange(i as int, end as int)[k as int] != word@[k as int]);
            return false;
        }
        k = k + 1;
    }
    assert(s@.subrange(i as int, end as int) =~= word@);
    true
}

/// Whether an access token whose claims are `scope` (space-separated) and
/// `permissions` grants `permission`.
pub fn token_grants(scope: &str, permissions: &Vec<String>, permission: &str) -> (result: bool)
    ensures
        result == grants_permission(scope@, permissions@, permission@),
{
    let wanted = chars_of(permission);
    let mut i: usize = 0;
    while i < permissions.len()
        invariant
            i <= permissions@.len(),
            wanted@ == permission@,
            forall|j: int| 0 <= j < i ==> (#[trigger] permissions@[j])@ != permission@,
        decreases permissions@.len() - i,
    {
        let listed = chars_of(permissions[i].as_str());
        if eq_str(listed.as_slice(), permission) {
            return true;
        }
        i = i + 1;
    }
    let text = chars_of(scope);
    if wanted.len() == 0 || wanted.len() > text.len() || has_space(&wanted) {
        proof {
            assert forall|p: int| !word_at(scope@, permission@, p) by {
                if word_at(scope@, permission@, p) && wanted@.len() > 0 && wanted@.len()
                    <= text@.len() {
                    let k = choose|k: int|
                        0 <= k < wanted@.len() && is_ascii_space(#[trigger] wanted@[k]);
                    assert(!is_ascii_space(permission@[k]));
                }
            }
        }
        return false;
    }
    let n = text.len();
    let last = n - wanted.len();
    let mut p: usize = 0;
    while p <= last
        invariant
            p <= last + 1,
            n == text@.len(),
            last + wanted@.len() == text@.len(),
            text@ == scope@,
            wanted@ == permission@,
            wanted@.len() > 0,
            forall|k: int| 0 <= k < wanted@.len() ==> !is_ascii_space(#[trigger] wanted@[k]),
            forall|q: int| 0 <= q < p ==> !word_at(scope@, permission@, q),
            forall|j: int| 0 <= j < permissions@.len() ==> (#[trigger] permissions@[j])@ != permission@,
        decreases last + 1 - p,
    {
        if word_at_exec(&text, &wanted, p) {
            return true;
        }
        p = p + 1;
    }
    false
}

} // verus!
