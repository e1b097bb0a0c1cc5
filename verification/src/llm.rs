//! The public origin under which the server describes itself in its
//! machine-readable usage document, taken from request headers only where
//! they are safe to reflect.

use vstd::prelude::*;

use crate::text::{
    ascii_alnum, chars_of, eq_str, first_index, is_ascii_alnum, lemma_first_index,
    lemma_first_index_unique, push_str, replace_all, replace_spec, string_range, trim, trim_spec,
};

verus! {

/// The placeholder that the usage document holds for the origin.
pub const BASE_URL_PLACEHOLDER: &'static str = "{{BASE_URL}}";

/// The first comma-separated element of a header value, trimmed.
pub open spec fn first_value_spec(raw: Seq<char>) -> Seq<char> {
    trim_spec(raw.take(first_index(raw, ',')))
}

/// A forwarded scheme is reflected only when it is `http` or `https`.
pub open spec fn scheme_ok(value: Seq<char>) -> bool {
    value == "http"@ || value == "https"@
}

/// A character that may appear in a reflected host.
pub open spec fn host_char(c: char) -> bool {
    is_ascii_alnum(c) || c == '.' || c == '-' || c == ':' || c == '[' || c == ']'
}

/// A host is reflected only when it is non-empty and made of host characters.
pub open spec fn host_ok(value: Seq<char>) -> bool {
    value.len() > 0 && forall|i: int| 0 <= i < value.len() ==> host_char(#[trigger] value[i])
}

/// The scheme of the origin, from the raw `x-forwarded-proto` header.
pub open spec fn origin_scheme(forwarded_proto: Option<Seq<char>>) -> Seq<char> {
    match forwarded_proto {
        Some(raw) => if scheme_ok(first_value_spec(raw)) {
            first_value_spec(raw)
        } else {
            "http"@
        },
        None => "http"@,
    }
}

/// The host of the origin, from the raw `x-forwarded-host` and `host` headers.
pub open spec fn origin_host(forwarded_host: Option<Seq<char>>, host: Option<Seq<char>>) -> Seq<char> {
    if forwarded_host is Some && host_ok(first_value_spec(forwarded_host->0)) {
        first_value_spec(forwarded_host->0)
    } else if host is Some && host_ok(first_value_spec(host->0)) {
        first_value_spec(host->0)
    } else {
        "localhost"@
    }
}

/// The origin `scheme://host` of a request.
pub open spec fn origin_spec(
    forwarded_proto: Option<Seq<char>>,
    forwarded_host: Option<Seq<char>>,
    host: Option<Seq<char>>,
) -> Seq<char> {
    origin_scheme(forwarded_proto) + "://"@ + origin_host(forwarded_host, host)
}

/// The view of an optional header value.
pub open spec fn header_view(value: Option<&str>) -> Option<Seq<char>> {
    match value {
        Some(v) => Some(v@),
        None => None,
    }
}

/// The first comma-separated element of a header value, trimmed.
pub fn first_header_value(raw: &str) -> (result: String)
    ensures
        result@ == first_value_spec(raw@),
{
    let chars = chars_of(raw);
    let mut i: usize = 0;
    while i < chars.len() && chars[i] != ','
        invariant
            i <= chars@.len(),
            forall|j: int| 0 <= j < i ==> chars@[j] != ',',
        decreases chars@.len() - i,
    {
        i = i + 1;
    }
    proof {
        lemma_first_index_unique(raw@, ',', i as int);
    }
    let piece = string_range(chars.as_slice(), 0, i);
    assert(piece@ =~= raw@.take(i as int));
    trim(piece.as_str())
}

fn is_host_char(c: char) -> (result: bool)
    ensures
        result == host_char(c),
{
    ascii_alnum(c) || c == '.' || c == '-' || c == ':' || c == '[' || c == ']'
}

/// Whether a host may be reflected.
pub fn valid_host(value: &str) -> (result: bool)
    ensures
        result == host_ok(value@),
{
    let chars = chars_of(value);
    if chars.len() == 0 {
        return false;
    }
    let mut i: usize = 0;
    while i < chars.len()
        invariant
            i <= chars@.len(),
            chars@ == value@,
            forall|j: int| 0 <= j < i ==> host_char(#[trigger] chars@[j]),
        decreases chars@.len() - i,
    {
        if !is_host_char(chars[i]) {
            return false;
        }
        i = i + 1;
    }
    true
}

/// Whether a scheme may be reflected.
pub fn valid_scheme(value: &str) -> (result: bool)
    ensures
        result == scheme_ok(value@),
{
    let chars = chars_of(value);
    eq_str(chars.as_slice(), "http") || eq_str(chars.as_slice(), "https")
}

/// The host chosen from one raw header value, if it may be reflected.
fn reflected_host(raw: Option<&str>) -> (result: Option<String>)
    ensures
        match result {
            Some(h) => raw is Some && host_ok(first_value_spec(raw->0@)) && h@ == first_value_spec(
                raw->0@,
            ),
            None => raw is None || !host_ok(first_value_spec(raw->0@)),
        },
{
    match raw {
        Some(value) => {
            let first = first_header_value(value);
            if valid_host(first.as_str()) {
                Some(first)
            } else {
                None
            }
        },
        None => None,
    }
}

/// The public origin of a request, from its raw `x-forwarded-proto`,
/// `x-forwarded-host` and `host` header values: forwarded values win when
/// they are safe to reflect, and `http://localhost` fills what is missing.
pub fn request_origin(
    forwarded_proto: Option<&str>,
    forwarded_host: Option<&str>,
    host: Option<&str>,
) -> (result: String)
    ensures
        result@ == origin_spec(
            header_view(forwarded_proto),
            header_view(forwarded_host),
            header_view(host),
        ),
{
    let mut origin = match forwarded_proto {
        Some(raw) => {
            let first = first_header_value(raw);
            if valid_scheme(first.as_str()) {
                first
            } else {
                "http".to_owned()
            }
        },
        None => "http".to_owned(),
    };
    push_str(&mut origin, "://");
    let chosen = match reflected_host(forwarded_host) {
        Some(h) => h,
        None => match reflected_host(host) {
            Some(h) => h,
            None => "localhost".to_owned(),
        },
    };
    push_str(&mut origin, chosen.as_str());
    origin
}

/// The usage document `template` with every placeholder replaced by `origin`.
pub fn render_document(template: &str, origin: &str) -> (result: String)
    ensures
        result@ == replace_spec(template@, BASE_URL_PLACEHOLDER@, origin@),
{
    proof {
        reveal_strlit("{{BASE_URL}}");
    }
    replace_all(template, BASE_URL_PLACEHOLDER, origin)
}

} // verus!
