//! The native `(xo-config …)` file: one form whose fields each appear at
//! most once, read without evaluating anything, and the canonical program
//! rebuilt from the fields.

use vstd::prelude::*;

use crate::behavior::{decimal, decimal_spec};
use crate::steel_runtime::{SteelConfigError, MAX_CONFIG_BYTES};
use crate::syncd_config::{
    byte_at, comment_end, decode_json_string, json_quoted, json_string_value, lemma_scan_bounds,
    lemma_skip_ignored_bounds, lemma_string_end_bounds, parse_u16, parse_u16_spec,
    quote_json_string, skip_ignored, skip_white, string_end,
};
use crate::text::{
    byte_offsets, chars_of, eq_str, is_white_space, is_whitespace, push_char, push_str,
    string_range, utf8_len,
};

verus! {

/// The fields of an `xo-config` file.
#[derive(Clone, Debug, PartialEq, Eq)]
pub struct XoConfig {
    pub schema: u16,
    pub state_dir: String,
    pub peer_id: Option<String>,
    pub workspace: Option<String>,
    pub projection: String,
    pub pwa_url: String,
    pub leader_key: String,
}

/// The abstract value of an `xo-config` file.
pub struct XoConfigView {
    pub schema: u16,
    pub state_dir: Seq<char>,
    pub peer_id: Option<Seq<char>>,
    pub workspace: Option<Seq<char>>,
    pub projection: Seq<char>,
    pub pwa_url: Seq<char>,
    pub leader_key: Seq<char>,
}

pub open spec fn opt_text(value: Option<String>) -> Option<Seq<char>> {
    match value {
        Some(v) => Some(v@),
        None => None,
    }
}

impl XoConfig {
    pub open spec fn view(self) -> XoConfigView {
        XoConfigView {
            schema: self.schema,
            state_dir: self.state_dir@,
            peer_id: opt_text(self.peer_id),
            workspace: opt_text(self.workspace),
            projection: self.projection@,
            pwa_url: self.pwa_url@,
            leader_key: self.leader_key@,
        }
    }
}

/// Why a file was refused: it is too large, or something is wrong at a
/// byte offset.
pub enum XoFailure {
    TooLarge,
    At { offset: int, message: Seq<char> },
}

/// Whether a refusal of the loader is the refusal `x`.
pub open spec fn reports(e: SteelConfigError, x: XoFailure) -> bool {
    match x {
        XoFailure::TooLarge => e == SteelConfigError::TooLarge,
        XoFailure::At { offset, message } => e matches SteelConfigError::NativeConfig { offset: o, message: m }
            && o == offset && m@ == message,
    }
}

/// The refusal at character position `p` of `s`.
pub open spec fn fail_at(s: Seq<char>, p: int, message: Seq<char>) -> XoFailure {
    XoFailure::At { offset: byte_at(s, p), message }
}

/// Characters that may stand in a bare token of this file.
pub open spec fn xo_token_char(c: char) -> bool {
    !is_white_space(c) && c != '(' && c != ')' && c != ';'
}

/// The end of the token that starts at `p`.
pub open spec fn xo_token_end(s: Seq<char>, p: int) -> int
    decreases s.len() - p,
{
    if 0 <= p < s.len() && xo_token_char(s[p]) {
        xo_token_end(s, p + 1)
    } else {
        p
    }
}

pub proof fn lemma_token_end_bounds(s: Seq<char>, p: int)
    requires
        0 <= p <= s.len(),
    ensures
        p <= xo_token_end(s, p) <= s.len(),
    decreases s.len() - p,
{
    if p < s.len() {
        lemma_token_end_bounds(s, p + 1);
    }
}

/// A bare token after the ignored text at `p`, and where it ends.
pub open spec fn token_spec(s: Seq<char>, p: int) -> Result<(Seq<char>, int), XoFailure> {
    let q = skip_ignored(s, p);
    let e = xo_token_end(s, q);
    if e == q {
        Err(fail_at(s, q, "expected identifier or value"@))
    } else {
        Ok((s.subrange(q, e), e))
    }
}

/// The character `c` after the ignored text at `p`; a wrong character is
/// consumed before it is reported.
pub open spec fn expect_char_spec(s: Seq<char>, p: int, c: char) -> Result<int, XoFailure> {
    let q = skip_ignored(s, p);
    if q < s.len() && s[q] == c {
        Ok(q + 1)
    } else {
        Err(fail_at(s, if q < s.len() { q + 1 } else { q }, "expected "@ + seq![c]))
    }
}

/// A string literal at `q`, where a `"` stands, decoded as JSON, and where
/// it ends.
pub open spec fn literal_spec(s: Seq<char>, q: int) -> Result<(Seq<char>, int), XoFailure> {
    match string_end(s, q + 1, false) {
        None => Err(fail_at(s, s.len() as int, "unterminated string"@)),
        Some(e) => match json_string_value(s.subrange(q, e)) {
            Some(v) => Ok((v, e)),
            None => Err(fail_at(s, q, "invalid string escape"@)),
        },
    }
}

/// A string after the ignored text at `p`.
pub open spec fn string_spec(s: Seq<char>, p: int) -> Result<(Seq<char>, int), XoFailure> {
    let q = skip_ignored(s, p);
    if q < s.len() && s[q] == '"' {
        literal_spec(s, q)
    } else {
        Err(fail_at(s, if q < s.len() { q + 1 } else { q }, "expected string"@))
    }
}

/// A string or `#f` after the ignored text at `p`.
pub open spec fn optional_spec(s: Seq<char>, p: int) -> Result<(Option<Seq<char>>, int), XoFailure> {
    let q = skip_ignored(s, p);
    if q < s.len() && s[q] == '"' {
        match literal_spec(s, q) {
            Ok((v, e)) => Ok((Some(v), e)),
            Err(x) => Err(x),
        }
    } else {
        match token_spec(s, q) {
            Err(x) => Err(x),
            Ok((t, e)) => if t == "#f"@ {
                Ok((None, e))
            } else {
                Err(fail_at(s, e, "optional values must be a string or #f"@))
            },
        }
    }
}

/// The schema number after the ignored text at `p`.
pub open spec fn integer_spec(s: Seq<char>, p: int) -> Result<(u16, int), XoFailure> {
    match token_spec(s, p) {
        Err(x) => Err(x),
        Ok((t, e)) => match parse_u16_spec(t) {
            Some(v) => Ok((v, e)),
            None => Err(fail_at(s, e, "schema must be an unsigned 16-bit integer"@)),
        },
    }
}

/// The name of text field `i`.
pub open spec fn field_name(i: int) -> Seq<char> {
    if i == 0 {
        "state-dir"@
    } else if i == 1 {
        "peer-id"@
    } else if i == 2 {
        "workspace"@
    } else if i == 3 {
        "projection"@
    } else if i == 4 {
        "pwa-url"@
    } else {
        "leader-key"@
    }
}

/// Which text field `key` names.
pub open spec fn field_index(key: Seq<char>) -> Option<int> {
    if key == "state-dir"@ {
        Some(0)
    } else if key == "peer-id"@ {
        Some(1)
    } else if key == "workspace"@ {
        Some(2)
    } else if key == "projection"@ {
        Some(3)
    } else if key == "pwa-url"@ {
        Some(4)
    } else if key == "leader-key"@ {
        Some(5)
    } else {
        None
    }
}

/// Whether text field `i` may be `#f`.
pub open spec fn optional_field(i: int) -> bool {
    i == 1 || i == 2
}

/// The fields read so far: the schema, and for each text field whether it
/// was given and with what value (`None` for `#f`).
pub struct FieldsView {
    pub schema: Option<u16>,
    pub text: Seq<Option<Option<Seq<char>>>>,
}

pub open spec fn no_fields() -> FieldsView {
    FieldsView { schema: None, text: seq![None, None, None, None, None, None] }
}

/// The value of text field `i` after the ignored text at `p`.
pub open spec fn value_spec(s: Seq<char>, p: int, i: int) -> Result<(Option<Seq<char>>, int), XoFailure> {
    if optional_field(i) {
        optional_spec(s, p)
    } else {
        match string_spec(s, p) {
            Ok((v, e)) => Ok((Some(v), e)),
            Err(x) => Err(x),
        }
    }
}

/// One field form `(key value)`: the fields with it added and where it ends.
pub open spec fn field_spec(s: Seq<char>, p: int, f: FieldsView) -> Result<(FieldsView, int), XoFailure> {
    match expect_char_spec(s, p, '(') {
        Err(x) => Err(x),
        Ok(p1) => match token_spec(s, p1) {
            Err(x) => Err(x),
            Ok((key, p2)) => if key == "schema"@ {
                match integer_spec(s, p2) {
                    Err(x) => Err(x),
                    Ok((v, p3)) => if f.schema is Some {
                        Err(fail_at(s, p3, "duplicate field schema"@))
                    } else {
                        match expect_char_spec(s, p3, ')') {
                            Err(x) => Err(x),
                            Ok(p4) => Ok((FieldsView { schema: Some(v), ..f }, p4)),
                        }
                    },
                }
            } else {
                match field_index(key) {
                    None => Err(fail_at(s, p2, "unknown field "@ + key)),
                    Some(i) => match value_spec(s, p2, i) {
                        Err(x) => Err(x),
                        Ok((v, p3)) => if f.text[i] is Some {
                            Err(fail_at(s, p3, "duplicate field "@ + key))
                        } else {
                            match expect_char_spec(s, p3, ')') {
                                Err(x) => Err(x),
                                Ok(p4) => Ok((FieldsView { text: f.text.update(i, Some(v)), ..f }, p4)),
                            }
                        },
                    },
                }
            },
        },
    }
}

/// Positions only move forward while fields are read.
pub proof fn lemma_field_advances(s: Seq<char>, p: int, f: FieldsView)
    requires
        0 <= p <= s.len(),
    ensures
        field_spec(s, p, f) matches Ok((_, e)) ==> p < e <= s.len(),
{
    lemma_skip_ignored_bounds(s, p);
    if let Ok(p1) = expect_char_spec(s, p, '(') {
        lemma_skip_ignored_bounds(s, p1);
        let q1 = skip_ignored(s, p1);
        lemma_token_end_bounds(s, q1);
        if let Ok((key, p2)) = token_spec(s, p1) {
            lemma_skip_ignored_bounds(s, p2);
            let q2 = skip_ignored(s, p2);
            lemma_token_end_bounds(s, q2);
            lemma_skip_ignored_bounds(s, q2);
            let q3 = skip_ignored(s, q2);
            lemma_token_end_bounds(s, q3);
            lemma_string_end_bounds(s, q2 + 1, false);
            if key == "schema"@ {
                if let Ok((v, p3)) = integer_spec(s, p2) {
                    lemma_skip_ignored_bounds(s, p3);
                }
            } else if let Some(i) = field_index(key) {
                if let Ok((v, p3)) = value_spec(s, p2, i) {
                    lemma_skip_ignored_bounds(s, p3);
                }
            }
        }
    }
}

/// The field forms from `p` up to and including the closing `)`.
pub open spec fn fields_spec(s: Seq<char>, p: int, f: FieldsView) -> Result<(FieldsView, int), XoFailure>
    decreases s.len() - p,
{
    if 0 <= p <= s.len() {
        let q = skip_ignored(s, p);
        if q < s.len() && s[q] == ')' {
            Ok((f, q + 1))
        } else {
            match field_spec(s, p, f) {
                Err(x) => Err(x),
                Ok((g, e)) => {
                    proof {
                        lemma_field_advances(s, p, f);
                    }
                    fields_spec(s, e, g)
                },
            }
        }
    } else {
        Err(XoFailure::TooLarge)
    }
}

/// The text of a required field, if given.
pub open spec fn given_text(f: FieldsView, i: int) -> Option<Seq<char>> {
    match f.text[i] {
        Some(Some(v)) => Some(v),
        _ => None,
    }
}

/// The configuration an `xo-config` file describes, or the first refusal.
/// Every field but `peer-id` must be given; `peer-id` and `workspace` may be
/// `#f`.
pub open spec fn xo_config_spec(s: Seq<char>) -> Result<XoConfigView, XoFailure> {
    if utf8_len(s) > MAX_CONFIG_BYTES {
        Err(XoFailure::TooLarge)
    } else {
        match expect_char_spec(s, 0, '(') {
            Err(x) => Err(x),
            Ok(p1) => match token_spec(s, p1) {
                Err(x) => Err(x),
                Ok((t, p2)) => if t != "xo-config"@ {
                    Err(fail_at(s, p2, "expected xo-config, found "@ + t))
                } else {
                    match fields_spec(s, p2, no_fields()) {
                        Err(x) => Err(x),
                        Ok((f, p3)) => {
                            let q = skip_ignored(s, p3);
                            if q != s.len() {
                                Err(fail_at(s, q, "unexpected trailing form"@))
                            } else {
                                finished_spec(s, f)
                            }
                        },
                    }
                },
            },
        }
    }
}

/// The configuration the fields give once the whole file is read, or the
/// first missing field.
pub open spec fn finished_spec(s: Seq<char>, f: FieldsView) -> Result<XoConfigView, XoFailure> {
    let end = s.len() as int;
    if f.schema is None {
        Err(fail_at(s, end, "missing field schema"@))
    } else if given_text(f, 0) is None {
        Err(fail_at(s, end, "missing field state-dir"@))
    } else if f.text[2] is None {
        Err(fail_at(s, end, "missing field workspace"@))
    } else if given_text(f, 3) is None {
        Err(fail_at(s, end, "missing field projection"@))
    } else if given_text(f, 4) is None {
        Err(fail_at(s, end, "missing field pwa-url"@))
    } else if given_text(f, 5) is None {
        Err(fail_at(s, end, "missing field leader-key"@))
    } else {
        Ok(XoConfigView {
            schema: f.schema->0,
            state_dir: given_text(f, 0)->0,
            peer_id: match f.text[1] {
                Some(v) => v,
                None => None,
            },
            workspace: f.text[2]->0,
            projection: given_text(f, 3)->0,
            pwa_url: given_text(f, 4)->0,
            leader_key: given_text(f, 5)->0,
        })
    }
}

/// How a parse result relates to the abstract result.
pub open spec fn parsed_as(result: Result<XoConfig, SteelConfigError>, expected: Result<XoConfigView, XoFailure>) -> bool {
    match expected {
        Ok(c) => result matches Ok(r) && r.view() == c,
        Err(x) => result matches Err(e) && reports(e, x),
    }
}

/// Which text field `key` names.
fn key_index(key: &[char]) -> (result: Option<usize>)
    ensures
        match result {
            Some(i) => i < 6 && field_index(key@) == Some(i as int),
            None => field_index(key@) is None,
        },
{
    if eq_str(key, "state-dir") {
        Some(0)
    } else if eq_str(key, "peer-id") {
        Some(1)
    } else if eq_str(key, "workspace") {
        Some(2)
    } else if eq_str(key, "projection") {
        Some(3)
    } else if eq_str(key, "pwa-url") {
        Some(4)
    } else if eq_str(key, "leader-key") {
        Some(5)
    } else {
        None
    }
}

pub open spec fn opt_opt(v: Option<Option<String>>) -> Option<Option<Seq<char>>> {
    match v {
        Some(inner) => Some(opt_text(inner)),
        None => None,
    }
}

/// The fields read so far.
struct Fields {
    schema: Option<u16>,
    text: Vec<Option<Option<String>>>,
}

impl Fields {
    spec fn view(self) -> FieldsView {
        FieldsView { schema: self.schema, text: self.text@.map_values(|v: Option<Option<String>>| opt_opt(v)) }
    }

    fn new() -> (result: Fields)
        ensures
            result.text@.len() == 6,
            result.view() == no_fields(),
    {
        let mut text: Vec<Option<Option<String>>> = Vec::new();
        let mut i: usize = 0;
        while i < 6
            invariant
                i <= 6,
                text@.len() == i,
                forall|k: int| 0 <= k < i ==> #[trigger] text@[k] is None,
            decreases 6 - i,
        {
            text.push(None);
            i = i + 1;
        }
        let result = Fields { schema: None, text };
        assert(result.view().text =~= no_fields().text);
        result
    }
}

/// The byte offset of a character position as the loader reports it.
fn native_error(offset: usize, message: String) -> (result: SteelConfigError)
    ensures
        result == (SteelConfigError::NativeConfig { offset, message }),
{
    SteelConfigError::NativeConfig { offset, message }
}

fn xo_token_char_exec(c: char) -> (result: bool)
    ensures
        result == xo_token_char(c),
{
    !is_whitespace(c) && c != '(' && c != ')' && c != ';'
}

/// An `xo-config` file being read, with the byte offset of every character
/// position.
struct XoParser {
    chars: Vec<char>,
    offsets: Vec<usize>,
    position: usize,
}

impl XoParser {
    spec fn wf(self) -> bool {
        &&& self.offsets@.len() == self.chars@.len() + 1
        &&& forall|k: int| 0 <= k <= self.chars@.len() ==> #[trigger] self.offsets@[k] == byte_at(self.chars@, k)
        &&& self.position <= self.chars@.len()
    }

    fn fail(&self, at: usize, message: String) -> (result: SteelConfigError)
        requires
            self.wf(),
            at <= self.chars@.len(),
        ensures
            reports(result, fail_at(self.chars@, at as int, message@)),
    {
        native_error(self.offsets[at], message)
    }

    fn skip_ignored(&mut self)
        requires
            old(self).wf(),
        ensures
            final(self).wf(),
            final(self).chars@ == old(self).chars@,
            final(self).position == skip_ignored(old(self).chars@, old(self).position as int),
    {
        let ghost s = self.chars@;
        let ghost target = skip_ignored(s, self.position as int);
        loop
            invariant
                self.wf(),
                self.chars@ == s,
                s == old(self).chars@,
                target == skip_ignored(old(self).chars@, old(self).position as int),
                skip_ignored(s, self.position as int) == target,
            decreases s.len() - self.position,
        {
            let ghost p = self.position as int;
            proof {
                lemma_scan_bounds(s, p);
            }
            while self.position < self.chars.len() && is_whitespace(self.chars[self.position])
                invariant
                    self.wf(),
                    self.chars@ == s,
                    0 <= p <= self.position,
                    skip_white(s, self.position as int) == skip_white(s, p),
                decreases s.len() - self.position,
            {
                self.position = self.position + 1;
            }
            if self.position >= self.chars.len() || self.chars[self.position] != ';' {
                proof {
                    assert(skip_ignored(s, p) == self.position);
                }
                return;
            }
            self.position = self.position + 1;
            proof {
                lemma_scan_bounds(s, self.position as int);
            }
            while self.position < self.chars.len() && self.chars[self.position] != '\n'
                invariant
                    self.wf(),
                    self.chars@ == s,
                    0 <= p < self.position,
                    skip_white(s, p) < s.len(),
                    s[skip_white(s, p)] == ';',
                    comment_end(s, self.position as int) == comment_end(s, skip_white(s, p) + 1),
                decreases s.len() - self.position,
            {
                self.position = self.position + 1;
            }
            proof {
                assert(skip_ignored(s, p) == skip_ignored(s, self.position as int));
            }
        }
    }

    fn token(&mut self) -> (result: Result<String, SteelConfigError>)
        requires
            old(self).wf(),
        ensures
            final(self).wf(),
            final(self).chars@ == old(self).chars@,
            match token_spec(old(self).chars@, old(self).position as int) {
                Ok((t, e)) => result matches Ok(r) && r@ == t && final(self).position == e,
                Err(x) => result matches Err(r) && reports(r, x),
            },
    {
        self.skip_ignored();
        let ghost s = self.chars@;
        let start = self.position;
        proof {
            lemma_token_end_bounds(s, start as int);
        }
        while self.position < self.chars.len() && xo_token_char_exec(self.chars[self.position])
            invariant
                self.wf(),
                self.chars@ == s,
                start <= self.position,
                xo_token_end(s, self.position as int) == xo_token_end(s, start as int),
            decreases s.len() - self.position,
        {
            self.position = self.position + 1;
        }
        if self.position == start {
            proof {
                reveal_strlit("expected identifier or value");
            }
            Err(self.fail(start, "expected identifier or value".to_owned()))
        } else {
            Ok(string_range(self.chars.as_slice(), start, self.position))
        }
    }

    fn expect_char(&mut self, expected: char) -> (result: Result<(), SteelConfigError>)
        requires
            old(self).wf(),
        ensures
            final(self).wf(),
            final(self).chars@ == old(self).chars@,
            match expect_char_spec(old(self).chars@, old(self).position as int, expected) {
                Ok(e) => result is Ok && final(self).position == e,
                Err(x) => result matches Err(r) && reports(r, x),
            },
    {
        self.skip_ignored();
        let mut message = "expected ".to_owned();
        push_char(&mut message, expected);
        proof {
            reveal_strlit("expected ");
            assert(message@ =~= "expected "@ + seq![expected]);
        }
        if self.position < self.chars.len() {
            let c = self.chars[self.position];
            self.position = self.position + 1;
            if c == expected {
                Ok(())
            } else {
                Err(self.fail(self.position, message))
            }
        } else {
            Err(self.fail(self.position, message))
        }
    }

    /// A string literal at the current position, where a `"` stands.
    fn literal(&mut self) -> (result: Result<String, SteelConfigError>)
        requires
            old(self).wf(),
            old(self).position < old(self).chars@.len(),
            old(self).chars@[old(self).position as int] == '"',
        ensures
            final(self).wf(),
            final(self).chars@ == old(self).chars@,
            match literal_spec(old(self).chars@, old(self).position as int) {
                Ok((v, e)) => result matches Ok(r) && r@ == v && final(self).position == e,
                Err(x) => result matches Err(r) && reports(r, x),
            },
    {
        let ghost s = self.chars@;
        let n = self.chars.len();
        let start = self.position;
        self.position = self.position + 1;
        let mut escaped = false;
        while self.position < n
            invariant
                self.wf(),
                self.chars@ == s,
                s == old(self).chars@,
                start == old(self).position,
                n == s.len(),
                start < self.position,
                string_end(s, self.position as int, escaped) == string_end(s, start + 1, false),
            decreases s.len() - self.position,
        {
            let c = self.chars[self.position];
            self.position = self.position + 1;
            if escaped {
                escaped = false;
            } else if c == '\\' {
                escaped = true;
            } else if c == '"' {
                let raw = string_range(self.chars.as_slice(), start, self.position);
                proof {
                    reveal_strlit("invalid string escape");
                }
                return match decode_json_string(raw.as_str()) {
                    Ok(v) => Ok(v),
                    Err(_) => Err(self.fail(start, "invalid string escape".to_owned())),
                };
            }
        }
        proof {
            reveal_strlit("unterminated string");
        }
        Err(self.fail(self.position, "unterminated string".to_owned()))
    }

    fn string(&mut self) -> (result: Result<String, SteelConfigError>)
        requires
            old(self).wf(),
        ensures
            final(self).wf(),
            final(self).chars@ == old(self).chars@,
            match string_spec(old(self).chars@, old(self).position as int) {
                Ok((v, e)) => result matches Ok(r) && r@ == v && final(self).position == e,
                Err(x) => result matches Err(r) && reports(r, x),
            },
    {
        self.skip_ignored();
        if self.position < self.chars.len() && self.chars[self.position] == '"' {
            self.literal()
        } else {
            if self.position < self.chars.len() {
                self.position = self.position + 1;
            }
            proof {
                reveal_strlit("expected string");
            }
            Err(self.fail(self.position, "expected string".to_owned()))
        }
    }

    fn optional(&mut self) -> (result: Result<Option<String>, SteelConfigError>)
        requires
            old(self).wf(),
        ensures
            final(self).wf(),
            final(self).chars@ == old(self).chars@,
            match optional_spec(old(self).chars@, old(self).position as int) {
                Ok((v, e)) => result matches Ok(r) && opt_text(r) == v && final(self).position == e,
                Err(x) => result matches Err(r) && reports(r, x),
            },
    {
        self.skip_ignored();
        proof {
            reveal_strlit("#f");
            reveal_strlit("optional values must be a string or #f");
        }
        if self.position < self.chars.len() && self.chars[self.position] == '"' {
            match self.literal() {
                Ok(v) => Ok(Some(v)),
                Err(e) => Err(e),
            }
        } else {
            let token = self.token()?;
            let chars = chars_of(token.as_str());
            if chars.len() == 2 && chars[0] == '#' && chars[1] == 'f' {
                proof {
                    assert(chars@ =~= "#f"@);
                }
                Ok(None)
            } else {
                proof {
                    if token@ == "#f"@ {
                        assert(chars@[0] == '#' && chars@[1] == 'f');
                    }
                }
                Err(self.fail(self.position, "optional values must be a string or #f".to_owned()))
            }
        }
    }

    fn integer(&mut self) -> (result: Result<u16, SteelConfigError>)
        requires
            old(self).wf(),
        ensures
            final(self).wf(),
            final(self).chars@ == old(self).chars@,
            match integer_spec(old(self).chars@, old(self).position as int) {
                Ok((v, e)) => result == Ok::<u16, SteelConfigError>(v) && final(self).position == e,
                Err(x) => result matches Err(r) && reports(r, x),
            },
    {
        let token = self.token()?;
        let chars = chars_of(token.as_str());
        proof {
            reveal_strlit("schema must be an unsigned 16-bit integer");
        }
        match parse_u16(chars.as_slice()) {
            Some(v) => Ok(v),
            None => Err(self.fail(self.position, "schema must be an unsigned 16-bit integer".to_owned())),
        }
    }

    /// The value of text field `i`.
    fn value(&mut self, i: usize) -> (result: Result<Option<String>, SteelConfigError>)
        requires
            old(self).wf(),
        ensures
            final(self).wf(),
            final(self).chars@ == old(self).chars@,
            match value_spec(old(self).chars@, old(self).position as int, i as int) {
                Ok((v, e)) => result matches Ok(r) && opt_text(r) == v && final(self).position == e,
                Err(x) => result matches Err(r) && reports(r, x),
            },
    {
        if i == 1 || i == 2 {
            self.optional()
        } else {
            match self.string() {
                Ok(v) => Ok(Some(v)),
                Err(e) => Err(e),
            }
        }
    }

    /// One field form `(key value)` at the current position.
    fn field(&mut self, f: &mut Fields) -> (result: Result<(), SteelConfigError>)
        requires
            old(self).wf(),
            old(f).text@.len() == 6,
        ensures
            final(self).wf(),
            final(self).chars@ == old(self).chars@,
            final(f).text@.len() == 6,
            match field_spec(old(self).chars@, old(self).position as int, old(f).view()) {
                Ok((g, e)) => result is Ok && final(f).view() == g && final(self).position == e,
                Err(x) => result matches Err(r) && reports(r, x),
            },
    {
        proof {
            reveal_strlit("schema");
            reveal_strlit("duplicate field schema");
            reveal_strlit("duplicate field ");
            reveal_strlit("unknown field ");
        }
        self.expect_char('(')?;
        let key = self.token()?;
        let chars = chars_of(key.as_str());
        if eq_str(chars.as_slice(), "schema") {
            let value = self.integer()?;
            if f.schema.is_some() {
                return Err(self.fail(self.position, "duplicate field schema".to_owned()));
            }
            self.expect_char(')')?;
            f.schema = Some(value);
            Ok(())
        } else {
            match key_index(chars.as_slice()) {
                Some(i) => {
                    let value = self.value(i)?;
                    if f.text[i].is_some() {
                        let mut message = "duplicate field ".to_owned();
                        push_str(&mut message, key.as_str());
                        return Err(self.fail(self.position, message));
                    }
                    self.expect_char(')')?;
                    let ghost before = f.text@;
                    let ghost vv = opt_text(value);
                    f.text.set(i, Some(value));
                    proof {
                        assert(f.view().text =~= old(f).view().text.update(i as int, Some(vv)));
                    }
                    Ok(())
                },
                None => {
                    let mut message = "unknown field ".to_owned();
                    push_str(&mut message, key.as_str());
                    Err(self.fail(self.position, message))
                },
            }
        }
    }

    /// The field forms up to and including the closing `)`.
    fn fields(&mut self, f: &mut Fields) -> (result: Result<(), SteelConfigError>)
        requires
            old(self).wf(),
            old(f).text@.len() == 6,
        ensures
            final(self).wf(),
            final(self).chars@ == old(self).chars@,
            final(f).text@.len() == 6,
            match fields_spec(old(self).chars@, old(self).position as int, old(f).view()) {
                Ok((g, e)) => result is Ok && final(f).view() == g && final(self).position == e,
                Err(x) => result matches Err(r) && reports(r, x),
            },
    {
        let ghost s = self.chars@;
        let ghost target = fields_spec(s, self.position as int, f.view());
        let n = self.chars.len();
        loop
            invariant
                self.wf(),
                self.chars@ == s,
                n == s.len(),
                s == old(self).chars@,
                f.text@.len() == 6,
                target == fields_spec(old(self).chars@, old(self).position as int, old(f).view()),
                fields_spec(s, self.position as int, f.view()) == target,
            decreases s.len() - self.position,
        {
            let before = self.position;
            let ghost fv = f.view();
            self.skip_ignored();
            if self.position < n && self.chars[self.position] == ')' {
                self.position = self.position + 1;
                return Ok(());
            }
            self.position = before;
            match self.field(f) {
                Err(e) => {
                    return Err(e);
                },
                Ok(()) => {},
            }
            proof {
                lemma_field_advances(s, before as int, fv);
            }
        }
    }
}

/// The text of a required field.
fn required_text(f: &Fields, i: usize) -> (result: Option<String>)
    requires
        f.text@.len() == 6,
        i < 6,
    ensures
        opt_text(result) == given_text(f.view(), i as int),
{
    match &f.text[i] {
        Some(Some(v)) => Some(v.clone()),
        _ => None,
    }
}

/// Read the fields of an `xo-config` file, without evaluating anything: one
/// `(xo-config …)` form whose fields each appear at most once.
#[verifier::spinoff_prover]
#[verifier::rlimit(40)]
pub fn parse_xo_config(source: &str) -> (result: Result<XoConfig, SteelConfigError>)
    ensures
        parsed_as(result, xo_config_spec(source@)),
{
    let chars = chars_of(source);
    let offsets = byte_offsets(source, &chars);
    let mut parser = XoParser { chars, offsets, position: 0 };
    let ghost s = parser.chars@;
    let n = parser.chars.len();
    proof {
        assert(s.take(s.len() as int) =~= s);
    }
    if parser.offsets[n] > MAX_CONFIG_BYTES {
        return Err(SteelConfigError::TooLarge);
    }
    proof {
        reveal_strlit("xo-config");
        reveal_strlit("expected xo-config, found ");
        reveal_strlit("unexpected trailing form");
    }
    parser.expect_char('(')?;
    let word = parser.token()?;
    let word_chars = chars_of(word.as_str());
    if !eq_str(word_chars.as_slice(), "xo-config") {
        let mut message = "expected xo-config, found ".to_owned();
        push_str(&mut message, word.as_str());
        return Err(parser.fail(parser.position, message));
    }
    let mut f = Fields::new();
    parser.fields(&mut f)?;
    parser.skip_ignored();
    if parser.position != n {
        return Err(parser.fail(parser.position, "unexpected trailing form".to_owned()));
    }
    finish(&parser, &f)
}

/// The configuration the fields give once the whole file is read.
fn finish(parser: &XoParser, f: &Fields) -> (result: Result<XoConfig, SteelConfigError>)
    requires
        parser.wf(),
        parser.position == parser.chars@.len(),
        f.text@.len() == 6,
    ensures
        parsed_as(result, finished_spec(parser.chars@, f.view())),
{
    proof {
        reveal_strlit("missing field schema");
        reveal_strlit("missing field state-dir");
        reveal_strlit("missing field workspace");
        reveal_strlit("missing field projection");
        reveal_strlit("missing field pwa-url");
        reveal_strlit("missing field leader-key");
    }
    let end = parser.position;
    let schema = match f.schema {
        Some(v) => v,
        None => return Err(parser.fail(end, "missing field schema".to_owned())),
    };
    let state_dir = match required_text(f, 0) {
        Some(v) => v,
        None => return Err(parser.fail(end, "missing field state-dir".to_owned())),
    };
    let workspace = match &f.text[2] {
        Some(v) => v.clone(),
        None => return Err(parser.fail(end, "missing field workspace".to_owned())),
    };
    let projection = match required_text(f, 3) {
        Some(v) => v,
        None => return Err(parser.fail(end, "missing field projection".to_owned())),
    };
    let pwa_url = match required_text(f, 4) {
        Some(v) => v,
        None => return Err(parser.fail(end, "missing field pwa-url".to_owned())),
    };
    let leader_key = match required_text(f, 5) {
        Some(v) => v,
        None => return Err(parser.fail(end, "missing field leader-key".to_owned())),
    };
    let peer_id = match &f.text[1] {
        Some(v) => v.clone(),
        None => None,
    };
    Ok(XoConfig { schema, state_dir, peer_id, workspace, projection, pwa_url, leader_key })
}

} // verus!
