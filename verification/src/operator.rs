//! The operator interface of the sync server: which route a request takes,
//! bearer-token checks, setup-form decoding and HTML escaping.

use vstd::prelude::*;

use subtle::ConstantTimeEq as _;

use crate::text::{chars_of, eq_str, is_prefix, replace_all, replace_spec, split_char, split_spec, starts_with_str, string_range, string_views};
use crate::text_map::TextMap;

verus! {

/// `subtle`'s constant-time comparison of two byte strings: equal lengths
/// and equal bytes.
#[verifier::external_body]
fn constant_time_equal(a: &[u8], b: &[u8]) -> (result: bool)
    ensures
        result == (a@ == b@),
{
    bool::from(a.ct_eq(b))
}

/// `String::from_utf8`: the text whose UTF-8 encoding is `bytes`, if they are valid UTF-8.
#[verifier::external_body]
fn text_from_utf8(bytes: Vec<u8>) -> (result: Option<String>)
    ensures
        result is Some <==> vstd::utf8::valid_utf8(bytes@),
        result matches Some(s) ==> vstd::utf8::encode_utf8(s@) == bytes@,
{
    String::from_utf8(bytes).ok()
}

/// `std::str::from_utf8`.
#[verifier::external_body]
pub(crate) fn str_from_utf8(bytes: &[u8]) -> (result: Option<&str>)
    ensures
        result is Some <==> vstd::utf8::valid_utf8(bytes@),
        result matches Some(s) ==> vstd::utf8::encode_utf8(s@) == bytes@,
{
    std::str::from_utf8(bytes).ok()
}

/// The HTTP methods the operator interface distinguishes.
#[derive(Clone, Copy, Debug, PartialEq, Eq, Structural)]
pub enum Method {
    Get,
    Post,
    Other,
}

/// What the operator interface does with a request.
#[derive(Clone, Copy, Debug, PartialEq, Eq, Structural)]
pub enum OperatorRoute {
    Health,
    Ready,
    SetupPage,
    Unauthorized,
    Status,
    Workspaces,
    Metrics,
    NotFound,
}

/// The route of a request: health, readiness and the setup page are public;
/// everything else needs the operator token.
pub open spec fn route_spec(method: Method, path: Seq<char>, authorized: bool) -> OperatorRoute {
    if method == Method::Get && path == "/healthz"@ {
        OperatorRoute::Health
    } else if method == Method::Get && path == "/readyz"@ {
        OperatorRoute::Ready
    } else if method == Method::Get && (path == "/"@ || path == "/setup"@) {
        OperatorRoute::SetupPage
    } else if !authorized {
        OperatorRoute::Unauthorized
    } else if method == Method::Get && path == "/v1/status"@ {
        OperatorRoute::Status
    } else if method == Method::Get && path == "/v1/workspaces"@ {
        OperatorRoute::Workspaces
    } else if method == Method::Get && path == "/metrics"@ {
        OperatorRoute::Metrics
    } else {
        OperatorRoute::NotFound
    }
}

/// Route a request.
pub fn route(method: Method, path: &str, authorized: bool) -> (result: OperatorRoute)
    ensures
        result == route_spec(method, path@, authorized),
{
    let p = chars_of(path);
    let get = method == Method::Get;
    if get && eq_str(p.as_slice(), "/healthz") {
        OperatorRoute::Health
    } else if get && eq_str(p.as_slice(), "/readyz") {
        OperatorRoute::Ready
    } else if get && (eq_str(p.as_slice(), "/") || eq_str(p.as_slice(), "/setup")) {
        OperatorRoute::SetupPage
    } else if !authorized {
        OperatorRoute::Unauthorized
    } else if get && eq_str(p.as_slice(), "/v1/status") {
        OperatorRoute::Status
    } else if get && eq_str(p.as_slice(), "/v1/workspaces") {
        OperatorRoute::Workspaces
    } else if get && eq_str(p.as_slice(), "/metrics") {
        OperatorRoute::Metrics
    } else {
        OperatorRoute::NotFound
    }
}

/// Whether an `Authorization` header carries the bearer token `expected`.
pub open spec fn authorized_spec(header: Option<Seq<char>>, expected: Seq<u8>) -> bool {
    match header {
        Some(h) => is_prefix("Bearer "@, h) && vstd::utf8::encode_utf8(h.skip(7)) == expected,
        None => false,
    }
}

/// Check an `Authorization` header against the operator token in constant time.
pub fn authorized(header: Option<&str>, expected: &[u8]) -> (result: bool)
    ensures
        result == authorized_spec(
            match header {
                Some(h) => Some(h@),
                None => None,
            },
            expected@,
        ),
{
    proof {
        reveal_strlit("Bearer ");
    }
    match header {
        None => false,
        Some(h) => {
            let chars = chars_of(h);
            if !starts_with_str(chars.as_slice(), "Bearer ") {
                return false;
            }
            let provided = string_range(chars.as_slice(), 7, chars.len());
            proof {
                assert(provided@ =~= h@.skip(7));
            }
            constant_time_equal(provided.as_str().as_bytes(), expected)
        },
    }
}

/// The value of a hexadecimal digit byte.
pub open spec fn hex_value_spec(b: u8) -> Option<u8> {
    if 48 <= b <= 57 {
        Some((b - 48) as u8)
    } else if 97 <= b <= 102 {
        Some((b - 97 + 10) as u8)
    } else if 65 <= b <= 70 {
        Some((b - 65 + 10) as u8)
    } else {
        None
    }
}

fn hex_value(b: u8) -> (result: Option<u8>)
    ensures
        result == hex_value_spec(b),
{
    if 48 <= b && b <= 57 {
        Some(b - 48)
    } else if 97 <= b && b <= 102 {
        Some(b - 97 + 10)
    } else if 65 <= b && b <= 70 {
        Some(b - 65 + 10)
    } else {
        None
    }
}

/// Why setup form data was refused.
#[derive(Clone, Copy, Debug, PartialEq, Eq, Structural)]
pub enum FormError {
    NotUtf8,
    IncompleteEscape,
    InvalidEscape,
    InvalidUtf8,
}

/// The bytes that a form component spells from position `i` on: `+` is a
/// space and `%` with two hexadecimal digits is a byte.
pub open spec fn form_bytes(b: Seq<u8>, i: int) -> Result<Seq<u8>, FormError>
    decreases b.len() - i,
{
    if i < 0 || i >= b.len() {
        Ok(Seq::empty())
    } else if b[i] == 43 {
        match form_bytes(b, i + 1) {
            Ok(rest) => Ok(seq![32u8] + rest),
            Err(e) => Err(e),
        }
    } else if b[i] == 37 && i + 2 < b.len() {
        match (hex_value_spec(b[i + 1]), hex_value_spec(b[i + 2])) {
            (Some(high), Some(low)) => match form_bytes(b, i + 3) {
                Ok(rest) => Ok(seq![(high * 16 + low) as u8] + rest),
                Err(e) => Err(e),
            },
            _ => Err(FormError::InvalidEscape),
        }
    } else if b[i] == 37 {
        Err(FormError::IncompleteEscape)
    } else {
        match form_bytes(b, i + 1) {
            Ok(rest) => Ok(seq![b[i]] + rest),
            Err(e) => Err(e),
        }
    }
}

/// The text a form component spells.
pub open spec fn form_component_spec(value: Seq<char>) -> Result<Seq<char>, FormError> {
    match form_bytes(vstd::utf8::encode_utf8(value), 0) {
        Err(e) => Err(e),
        Ok(bytes) => if vstd::utf8::valid_utf8(bytes) {
            Ok(vstd::utf8::decode_utf8(bytes))
        } else {
            Err(FormError::InvalidUtf8)
        },
    }
}

/// Decode one `application/x-www-form-urlencoded` component.
pub fn decode_form_component(value: &str) -> (result: Result<String, FormError>)
    ensures
        match form_component_spec(value@) {
            Ok(text) => result matches Ok(s) && s@ == text,
            Err(e) => result == Err::<String, FormError>(e),
        },
{
    let input = value.as_bytes();
    let ghost b = input@;
    let mut bytes: Vec<u8> = Vec::new();
    let mut index: usize = 0;
    while index < input.len()
        invariant
            b == input@,
            b == vstd::utf8::encode_utf8(value@),
            index <= b.len(),
            match form_bytes(b, 0) {
                Ok(all) => match form_bytes(b, index as int) {
                    Ok(rest) => all == bytes@ + rest,
                    Err(_) => false,
                },
                Err(e) => form_bytes(b, index as int) == Err::<Seq<u8>, FormError>(e),
            },
        decreases b.len() - index,
    {
        let c = input[index];
        if c == 43 {
            proof {
                if let Ok(rest) = form_bytes(b, index + 1) {
                    assert(bytes@.push(32u8) + rest =~= bytes@ + (seq![32u8] + rest));
                }
            }
            bytes.push(32);
        } else if c == 37 && input.len() - index > 2 {
            let high = match hex_value(input[index + 1]) {
                Some(v) => v,
                None => {
                    proof {
                        assert(hex_value_spec(b[index + 1]) is None);
                        assert(form_bytes(b, index as int) == Err::<Seq<u8>, FormError>(FormError::InvalidEscape));
                    }
                    return Err(FormError::InvalidEscape);
                },
            };
            let low = match hex_value(input[index + 2]) {
                Some(v) => v,
                None => {
                    proof {
                        assert(hex_value_spec(b[index + 2]) is None);
                        assert(form_bytes(b, index as int) == Err::<Seq<u8>, FormError>(FormError::InvalidEscape));
                    }
                    return Err(FormError::InvalidEscape);
                },
            };
            let byte = high * 16 + low;
            proof {
                if let Ok(rest) = form_bytes(b, index + 3) {
                    assert(bytes@.push(byte) + rest =~= bytes@ + (seq![byte] + rest));
                }
            }
            bytes.push(byte);
            index = index + 2;
        } else if c == 37 {
            return Err(FormError::IncompleteEscape);
        } else {
            proof {
                if let Ok(rest) = form_bytes(b, index + 1) {
                    assert(bytes@.push(c) + rest =~= bytes@ + (seq![c] + rest));
                }
            }
            bytes.push(c);
        }
        index = index + 1;
    }
    proof {
        assert(bytes@ + Seq::<u8>::empty() =~= bytes@);
    }
    match text_from_utf8(bytes) {
        Some(text) => {
            proof {
                vstd::utf8::encode_utf8_decode_utf8(text@);
            }
            Ok(text)
        },
        None => Err(FormError::InvalidUtf8),
    }
}

/// `field` split at its first `=`: the key and the value, which is empty
/// where there is no `=`.
pub open spec fn field_parts(field: Seq<char>) -> (Seq<char>, Seq<char>) {
    let k = crate::text::first_index(field, '=');
    if k < field.len() {
        (field.take(k), field.skip(k + 1))
    } else {
        (field, Seq::empty())
    }
}

/// The decoded fields of form data from field `i` on, later fields
/// replacing earlier ones with the same key.
pub open spec fn form_fields(fields: Seq<Seq<char>>, m: Map<Seq<char>, Seq<char>>) -> Result<Map<Seq<char>, Seq<char>>, FormError>
    decreases fields.len(),
{
    if fields.len() == 0 {
        Ok(m)
    } else if fields[0].len() == 0 {
        form_fields(fields.drop_first(), m)
    } else {
        match (form_component_spec(field_parts(fields[0]).0), form_component_spec(field_parts(fields[0]).1)) {
            (Ok(k), Ok(v)) => form_fields(fields.drop_first(), m.insert(k, v)),
            (Err(e), _) => Err(e),
            (Ok(_), Err(e)) => Err(e),
        }
    }
}

/// What a setup form body holds: its `&`-separated fields, decoded.
pub open spec fn parse_form_spec(body: Seq<u8>) -> Result<Map<Seq<char>, Seq<char>>, FormError> {
    if !vstd::utf8::valid_utf8(body) {
        Err(FormError::NotUtf8)
    } else {
        form_fields(split_spec(vstd::utf8::decode_utf8(body), '&'), Map::empty())
    }
}

/// Decode a setup form body.
pub fn parse_form(body: &[u8]) -> (result: Result<TextMap, FormError>)
    ensures
        match parse_form_spec(body@) {
            Ok(m) => result matches Ok(map) && map.wf() && map.view() == m,
            Err(e) => result == Err::<TextMap, FormError>(e),
        },
{
    let text = match str_from_utf8(body) {
        Some(t) => t,
        None => {
            return Err(FormError::NotUtf8);
        },
    };
    proof {
        vstd::utf8::encode_utf8_decode_utf8(text@);
    }
    let fields = split_char(text, '&');
    let ghost all = string_views(fields@);
    let mut map = TextMap::new();
    let mut i: usize = 0;
    proof {
        assert(all.skip(0) =~= all);
    }
    while i < fields.len()
        invariant
            all == string_views(fields@),
            i <= fields@.len(),
            map.wf(),
            form_fields(all.skip(i as int), map.view()) == parse_form_spec(body@),
        decreases fields@.len() - i,
    {
        let field = &fields[i];
        proof {
            assert(all.skip(i as int)[0] == field@);
            assert(all.skip(i as int).drop_first() =~= all.skip(i + 1));
        }
        if !field.as_str().is_empty() {
            let chars = chars_of(field.as_str());
            let mut k: usize = 0;
            while k < chars.len() && chars[k] != '='
                invariant
                    k <= chars@.len(),
                    forall|j: int| 0 <= j < k ==> chars@[j] != '=',
                decreases chars@.len() - k,
            {
                k = k + 1;
            }
            proof {
                crate::text::lemma_first_index_unique(chars@, '=', k as int);
            }
            let (raw_key, raw_value) = if k < chars.len() {
                (string_range(chars.as_slice(), 0, k), string_range(chars.as_slice(), k + 1, chars.len()))
            } else {
                (string_range(chars.as_slice(), 0, k), String::new())
            };
            proof {
                assert(chars@ == field@);
                if k < chars@.len() {
                    assert(raw_key@ =~= field@.take(k as int));
                    assert(raw_value@ =~= field@.skip(k + 1));
                } else {
                    assert(raw_key@ =~= field@);
                }
            }
            let key = decode_form_component(raw_key.as_str())?;
            let value = decode_form_component(raw_value.as_str())?;
            map.insert(key, value);
        }
        i = i + 1;
    }
    Ok(map)
}

/// The text with `&`, `<`, `>`, `"` and `'` written as HTML entities.
pub open spec fn html_escape_spec(value: Seq<char>) -> Seq<char> {
    replace_spec(
        replace_spec(
            replace_spec(replace_spec(replace_spec(value, "&"@, "&amp;"@), "<"@, "&lt;"@), ">"@, "&gt;"@),
            "\""@,
            "&quot;"@,
        ),
        "'"@,
        "&#39;"@,
    )
}

/// Escape text for HTML.
pub fn html_escape(value: &str) -> (result: String)
    ensures
        result@ == html_escape_spec(value@),
{
    proof {
        reveal_strlit("&");
        reveal_strlit("<");
        reveal_strlit(">");
        reveal_strlit("\"");
        reveal_strlit("'");
    }
    let a = replace_all(value, "&", "&amp;");
    let b = replace_all(a.as_str(), "<", "&lt;");
    let c = replace_all(b.as_str(), ">", "&gt;");
    let d = replace_all(c.as_str(), "\"", "&quot;");
    replace_all(d.as_str(), "'", "&#39;")
}

} // verus!
