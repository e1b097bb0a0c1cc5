//! The xo-syncd server configuration: a small Scheme-like document.
//!
//! ```text
//! (xo-syncd-config
//!   (schema 1)
//!   (state-dir "~/.local/share/xo-syncd")
//!   (bind #f))
//! ```
//!
//! Whitespace and `;` comments may stand between any two forms. Each field
//! appears at most once; strings are JSON string literals.

use vstd::prelude::*;

use crate::behavior::{decimal, decimal_spec, digit_char};
use crate::text::{byte_offsets, chars_of, eq_str, is_white_space, is_whitespace, push_str, string_range, utf8_len};

verus! {

pub const DEFAULT_RELATIVE_PATH: &'static str = ".config/xo-syncd/config.scm";

pub const MAX_CONFIG_BYTES: usize = 65536;

pub const CURRENT_SCHEMA: u16 = 1;

/// `serde_json::Error`, carried through unread.
#[verifier::external_type_specification]
#[verifier::external_body]
pub struct ExJsonError(serde_json::Error);

/// The value `serde_json` decodes from a JSON document that must hold a
/// string, or `None` where it reports an error.
pub uninterp spec fn json_string_value(raw: Seq<char>) -> Option<Seq<char>>;

/// The lowercase hexadecimal digit of a nibble.
pub open spec fn hex_digit(n: int) -> char {
    if n < 10 {
        (48 + n) as char
    } else {
        (87 + n) as char
    }
}

/// How `serde_json` writes one character inside a string literal: `"` and
/// `\` after a backslash, the other control characters below U+0020 as a
/// short escape or as `\u00XX` in lowercase hexadecimal, and every other
/// character as itself.
pub open spec fn json_char(c: char) -> Seq<char> {
    if c == '"' {
        seq!['\\', '"']
    } else if c == '\\' {
        seq!['\\', '\\']
    } else if c == '\u{8}' {
        seq!['\\', 'b']
    } else if c == '\t' {
        seq!['\\', 't']
    } else if c == '\n' {
        seq!['\\', 'n']
    } else if c == '\u{c}' {
        seq!['\\', 'f']
    } else if c == '\r' {
        seq!['\\', 'r']
    } else if (c as u32) < 0x20 {
        seq!['\\', 'u', '0', '0', hex_digit((c as u32 as int) / 16), hex_digit((c as u32 as int) % 16)]
    } else {
        seq![c]
    }
}

/// The characters of a string as `serde_json` writes them inside quotes.
pub open spec fn json_chars(value: Seq<char>) -> Seq<char>
    decreases value.len(),
{
    if value.len() == 0 {
        Seq::empty()
    } else {
        json_char(value[0]) + json_chars(value.drop_first())
    }
}

/// The JSON string literal that `serde_json` writes for a string.
pub open spec fn json_quoted(value: Seq<char>) -> Seq<char> {
    seq!['"'] + json_chars(value) + seq!['"']
}

/// `serde_json::from_str::<String>`: decode a JSON string literal. The
/// literal that `serde_json` writes for a string decodes to that string.
#[verifier::external_body]
pub(crate) fn decode_json_string(raw: &str) -> (result: Result<String, serde_json::Error>)
    ensures
        match result {
            Ok(v) => json_string_value(raw@) == Some(v@),
            Err(_) => json_string_value(raw@) is None,
        },
        forall|v: Seq<char>| raw@ == #[trigger] json_quoted(v) ==> result is Ok && result->Ok_0@ == v,
{
    serde_json::from_str::<String>(raw)
}

/// `serde_json::to_string` of a string: its JSON string literal, escaped as
/// `format_escaped_str` does. Writing a `str` into memory cannot fail in
/// `serde_json`.
#[verifier::external_body]
pub(crate) fn quote_json_string(value: &str) -> (result: String)
    ensures
        result@ == json_quoted(value@),
{
    serde_json::to_string(value).expect("strings are serializable")
}

/// The server configuration. Absent values leave the command line or the
/// built-in default in charge.
#[derive(Clone, Debug, PartialEq, Eq)]
pub struct SyncdConfig {
    pub schema: u16,
    pub state_dir: Option<String>,
    pub bind: Option<String>,
    pub oidc_issuer: Option<String>,
    pub oidc_audience: Option<String>,
    pub oidc_client_id: Option<String>,
}

impl Default for SyncdConfig {
    fn default() -> (result: SyncdConfig)
        ensures
            result.schema == CURRENT_SCHEMA,
            result.state_dir is None,
            result.bind is None,
            result.oidc_issuer is None,
            result.oidc_audience is None,
            result.oidc_client_id is None,
    {
        SyncdConfig {
            schema: CURRENT_SCHEMA,
            state_dir: None,
            bind: None,
            oidc_issuer: None,
            oidc_audience: None,
            oidc_client_id: None,
        }
    }
}

/// What went wrong at a position of the document.
#[derive(Clone, Debug, PartialEq, Eq)]
pub enum SyntaxProblem {
    ExpectedChar(char),
    ExpectedToken,
    ExpectedWord { expected: String, found: String },
    ExpectedString,
    UnterminatedString,
    OptionalValue,
    UnknownField(String),
    TrailingForm,
}

/// Why a configuration document was refused. Positions count bytes.
#[derive(Clone, Debug, PartialEq, Eq)]
pub enum ConfigError {
    TooLarge,
    Syntax { position: usize, problem: SyntaxProblem },
    InvalidSchema { position: usize },
    InvalidString,
    Duplicate { field: String, position: usize },
    MissingSchema,
    UnsupportedSchema(u16),
}

/// The abstract value of a syntax problem.
pub enum ProblemView {
    ExpectedChar(char),
    ExpectedToken,
    ExpectedWord { expected: Seq<char>, found: Seq<char> },
    ExpectedString,
    UnterminatedString,
    OptionalValue,
    UnknownField(Seq<char>),
    TrailingForm,
}

/// The abstract value of a configuration error.
pub enum ErrorView {
    TooLarge,
    Syntax { position: int, problem: ProblemView },
    InvalidSchema { position: int },
    InvalidString,
    Duplicate { field: Seq<char>, position: int },
    MissingSchema,
    UnsupportedSchema(u16),
}

impl SyntaxProblem {
    pub open spec fn view(self) -> ProblemView {
        match self {
            SyntaxProblem::ExpectedChar(c) => ProblemView::ExpectedChar(c),
            SyntaxProblem::ExpectedToken => ProblemView::ExpectedToken,
            SyntaxProblem::ExpectedWord { expected, found } => ProblemView::ExpectedWord {
                expected: expected@,
                found: found@,
            },
            SyntaxProblem::ExpectedString => ProblemView::ExpectedString,
            SyntaxProblem::UnterminatedString => ProblemView::UnterminatedString,
            SyntaxProblem::OptionalValue => ProblemView::OptionalValue,
            SyntaxProblem::UnknownField(key) => ProblemView::UnknownField(key@),
            SyntaxProblem::TrailingForm => ProblemView::TrailingForm,
        }
    }
}

impl ConfigError {
    pub open spec fn view(self) -> ErrorView {
        match self {
            ConfigError::TooLarge => ErrorView::TooLarge,
            ConfigError::Syntax { position, problem } => ErrorView::Syntax {
                position: position as int,
                problem: problem.view(),
            },
            ConfigError::InvalidSchema { position } => ErrorView::InvalidSchema { position: position as int },
            ConfigError::InvalidString => ErrorView::InvalidString,
            ConfigError::Duplicate { field, position } => ErrorView::Duplicate {
                field: field@,
                position: position as int,
            },
            ConfigError::MissingSchema => ErrorView::MissingSchema,
            ConfigError::UnsupportedSchema(v) => ErrorView::UnsupportedSchema(v),
        }
    }
}

/// The abstract value of a configuration.
pub struct ConfigView {
    pub schema: u16,
    pub state_dir: Option<Seq<char>>,
    pub bind: Option<Seq<char>>,
    pub oidc_issuer: Option<Seq<char>>,
    pub oidc_audience: Option<Seq<char>>,
    pub oidc_client_id: Option<Seq<char>>,
}

pub open spec fn opt_view(value: Option<String>) -> Option<Seq<char>> {
    match value {
        Some(s) => Some(s@),
        None => None,
    }
}

impl SyncdConfig {
    pub open spec fn view(self) -> ConfigView {
        ConfigView {
            schema: self.schema,
            state_dir: opt_view(self.state_dir),
            bind: opt_view(self.bind),
            oidc_issuer: opt_view(self.oidc_issuer),
            oidc_audience: opt_view(self.oidc_audience),
            oidc_client_id: opt_view(self.oidc_client_id),
        }
    }
}

// ---------------------------------------------------------------------------
// The grammar, over the characters `s` of the document and character
// positions `p` in it.

/// The byte offset of character position `p`.
pub open spec fn byte_at(s: Seq<char>, p: int) -> int {
    utf8_len(s.take(p)) as int
}

/// Characters that may stand in a bare token.
pub open spec fn is_token_char(c: char) -> bool {
    !is_white_space(c) && c != '(' && c != ')' && c != ';' && c != '"'
}

/// The end of the white space that starts at `p`.
pub open spec fn skip_white(s: Seq<char>, p: int) -> int
    decreases s.len() - p,
{
    if 0 <= p < s.len() && is_white_space(s[p]) {
        skip_white(s, p + 1)
    } else {
        p
    }
}

/// The end of the comment text that starts at `p`: the next line break.
pub open spec fn comment_end(s: Seq<char>, p: int) -> int
    decreases s.len() - p,
{
    if 0 <= p < s.len() && s[p] != '\n' {
        comment_end(s, p + 1)
    } else {
        p
    }
}

/// The end of the token that starts at `p`.
pub open spec fn token_end(s: Seq<char>, p: int) -> int
    decreases s.len() - p,
{
    if 0 <= p < s.len() && is_token_char(s[p]) {
        token_end(s, p + 1)
    } else {
        p
    }
}

/// Where the bounds of the scans above lie.
pub proof fn lemma_scan_bounds(s: Seq<char>, p: int)
    requires
        0 <= p <= s.len(),
    ensures
        p <= skip_white(s, p) <= s.len(),
        p <= comment_end(s, p) <= s.len(),
        p <= token_end(s, p) <= s.len(),
    decreases s.len() - p,
{
    if p < s.len() {
        lemma_scan_bounds(s, p + 1);
    }
}

/// The end of the white space and comments that start at `p`.
pub open spec fn skip_ignored(s: Seq<char>, p: int) -> int
    decreases s.len() - p,
{
    if 0 <= p <= s.len() {
        let q = skip_white(s, p);
        proof {
            lemma_scan_bounds(s, p);
        }
        if q < s.len() && s[q] == ';' {
            proof {
                lemma_scan_bounds(s, q + 1);
            }
            skip_ignored(s, comment_end(s, q + 1))
        } else {
            q
        }
    } else {
        p
    }
}

pub proof fn lemma_skip_ignored_bounds(s: Seq<char>, p: int)
    requires
        0 <= p <= s.len(),
    ensures
        p <= skip_ignored(s, p) <= s.len(),
    decreases s.len() - p,
{
    lemma_scan_bounds(s, p);
    let q = skip_white(s, p);
    if q < s.len() && s[q] == ';' {
        lemma_scan_bounds(s, q + 1);
        lemma_skip_ignored_bounds(s, comment_end(s, q + 1));
    }
}

/// A bare token after the ignored text at `p`, and where it ends.
pub open spec fn token_spec(s: Seq<char>, p: int) -> Result<(Seq<char>, int), ErrorView> {
    let q = skip_ignored(s, p);
    let e = token_end(s, q);
    if e == q {
        Err(ErrorView::Syntax { position: byte_at(s, q), problem: ProblemView::ExpectedToken })
    } else {
        Ok((s.subrange(q, e), e))
    }
}

/// The character `c` after the ignored text at `p`; a wrong character is
/// consumed before it is reported.
pub open spec fn expect_char_spec(s: Seq<char>, p: int, c: char) -> Result<int, ErrorView> {
    let q = skip_ignored(s, p);
    if q < s.len() && s[q] == c {
        Ok(q + 1)
    } else {
        Err(
            ErrorView::Syntax {
                position: byte_at(s, if q < s.len() { q + 1 } else { q }),
                problem: ProblemView::ExpectedChar(c),
            },
        )
    }
}

/// Where the string whose body starts at `p` ends (after its closing
/// quote), or `None` if it is not closed. A backslash escapes the next
/// character.
pub open spec fn string_end(s: Seq<char>, p: int, escaped: bool) -> Option<int>
    decreases s.len() - p,
{
    if p < 0 || p >= s.len() {
        None
    } else if escaped {
        string_end(s, p + 1, false)
    } else if s[p] == '\\' {
        string_end(s, p + 1, true)
    } else if s[p] == '"' {
        Some(p + 1)
    } else {
        string_end(s, p + 1, false)
    }
}

pub proof fn lemma_string_end_bounds(s: Seq<char>, p: int, escaped: bool)
    requires
        0 <= p,
    ensures
        string_end(s, p, escaped) matches Some(e) ==> p < e <= s.len(),
    decreases s.len() - p,
{
    if p < s.len() {
        lemma_string_end_bounds(s, p + 1, false);
        lemma_string_end_bounds(s, p + 1, true);
    }
}

/// A string literal at `q` (where a `"` stands), decoded, and where it ends.
pub open spec fn string_spec(s: Seq<char>, q: int) -> Result<(Seq<char>, int), ErrorView> {
    match string_end(s, q + 1, false) {
        None => Err(ErrorView::Syntax { position: byte_at(s, s.len() as int), problem: ProblemView::UnterminatedString }),
        Some(e) => match json_string_value(s.subrange(q, e)) {
            Some(v) => Ok((v, e)),
            None => Err(ErrorView::InvalidString),
        },
    }
}

/// A string or `#f` after the ignored text at `p`.
pub open spec fn optional_string_spec(s: Seq<char>, p: int) -> Result<(Option<Seq<char>>, int), ErrorView> {
    let q = skip_ignored(s, p);
    if q < s.len() && s[q] == '"' {
        match string_spec(s, q) {
            Ok((v, e)) => Ok((Some(v), e)),
            Err(x) => Err(x),
        }
    } else {
        match token_spec(s, q) {
            Err(x) => Err(x),
            Ok((t, e)) => if t == "#f"@ {
                Ok((None, e))
            } else {
                Err(ErrorView::Syntax { position: byte_at(s, e), problem: ProblemView::OptionalValue })
            },
        }
    }
}

/// The value of a decimal digit character.
pub open spec fn digit_value(c: char) -> int {
    (c as u32) - 48
}

pub open spec fn is_digit(c: char) -> bool {
    '0' <= c && c <= '9'
}

/// The number that a sequence of decimal digits spells.
pub open spec fn digits_value(d: Seq<char>) -> int
    decreases d.len(),
{
    if d.len() == 0 {
        0
    } else {
        digits_value(d.drop_last()) * 10 + digit_value(d.last())
    }
}

/// The digits of an unsigned number: `t` without a leading `+`.
pub open spec fn unsigned_digits(t: Seq<char>) -> Seq<char> {
    if t.len() > 0 && t[0] == '+' {
        t.drop_first()
    } else {
        t
    }
}

/// Whether every character of `d` is a decimal digit.
pub open spec fn all_digits(d: Seq<char>) -> bool {
    forall|i: int| 0 <= i < d.len() ==> is_digit(#[trigger] d[i])
}

/// What `str::parse::<u16>` returns: an optional `+`, then one or more
/// decimal digits whose value fits in 16 bits.
pub open spec fn parse_u16_spec(t: Seq<char>) -> Option<u16> {
    let d = unsigned_digits(t);
    if d.len() == 0 || !all_digits(d) || digits_value(d) > 65535 {
        None
    } else {
        Some(digits_value(d) as u16)
    }
}

/// The schema number after the ignored text at `p`.
pub open spec fn integer_spec(s: Seq<char>, p: int) -> Result<(u16, int), ErrorView> {
    match token_spec(s, p) {
        Err(x) => Err(x),
        Ok((t, e)) => match parse_u16_spec(t) {
            Some(v) => Ok((v, e)),
            None => Err(ErrorView::InvalidSchema { position: byte_at(s, e) }),
        },
    }
}

/// The fields read so far; `Some` marks a field that was given.
pub struct FieldsView {
    pub schema: Option<u16>,
    pub state_dir: Option<Option<Seq<char>>>,
    pub bind: Option<Option<Seq<char>>>,
    pub oidc_issuer: Option<Option<Seq<char>>>,
    pub oidc_audience: Option<Option<Seq<char>>>,
    pub oidc_client_id: Option<Option<Seq<char>>>,
}

pub open spec fn no_fields() -> FieldsView {
    FieldsView {
        schema: None,
        state_dir: None,
        bind: None,
        oidc_issuer: None,
        oidc_audience: None,
        oidc_client_id: None,
    }
}

/// The names of the string fields.
pub open spec fn is_text_field(key: Seq<char>) -> bool {
    key == "state-dir"@ || key == "bind"@ || key == "oidc-issuer"@ || key == "oidc-audience"@
        || key == "oidc-client-id"@
}

/// Whether text field `key` was given already.
pub open spec fn text_field_given(f: FieldsView, key: Seq<char>) -> bool {
    if key == "state-dir"@ {
        f.state_dir is Some
    } else if key == "bind"@ {
        f.bind is Some
    } else if key == "oidc-issuer"@ {
        f.oidc_issuer is Some
    } else if key == "oidc-audience"@ {
        f.oidc_audience is Some
    } else {
        f.oidc_client_id is Some
    }
}

/// `f` with text field `key` given as `value`.
pub open spec fn with_text_field(f: FieldsView, key: Seq<char>, value: Option<Seq<char>>) -> FieldsView {
    if key == "state-dir"@ {
        FieldsView { state_dir: Some(value), ..f }
    } else if key == "bind"@ {
        FieldsView { bind: Some(value), ..f }
    } else if key == "oidc-issuer"@ {
        FieldsView { oidc_issuer: Some(value), ..f }
    } else if key == "oidc-audience"@ {
        FieldsView { oidc_audience: Some(value), ..f }
    } else {
        FieldsView { oidc_client_id: Some(value), ..f }
    }
}

/// One field form `(key value)`, its opening parenthesis at or after `p`
/// already known not to be `)`: the fields with it added and where it ends.
pub open spec fn field_spec(s: Seq<char>, p: int, f: FieldsView) -> Result<(FieldsView, int), ErrorView> {
    match expect_char_spec(s, p, '(') {
        Err(x) => Err(x),
        Ok(p1) => match token_spec(s, p1) {
            Err(x) => Err(x),
            Ok((key, p2)) => if key == "schema"@ {
                match integer_spec(s, p2) {
                    Err(x) => Err(x),
                    Ok((v, p3)) => if f.schema is Some {
                        Err(ErrorView::Duplicate { field: key, position: byte_at(s, p3) })
                    } else {
                        match expect_char_spec(s, p3, ')') {
                            Err(x) => Err(x),
                            Ok(p4) => Ok((FieldsView { schema: Some(v), ..f }, p4)),
                        }
                    },
                }
            } else if is_text_field(key) {
                match optional_string_spec(s, p2) {
                    Err(x) => Err(x),
                    Ok((v, p3)) => if text_field_given(f, key) {
                        Err(ErrorView::Duplicate { field: key, position: byte_at(s, p3) })
                    } else {
                        match expect_char_spec(s, p3, ')') {
                            Err(x) => Err(x),
                            Ok(p4) => Ok((with_text_field(f, key, v), p4)),
                        }
                    },
                }
            } else {
                Err(ErrorView::Syntax { position: byte_at(s, p2), problem: ProblemView::UnknownField(key) })
            },
        },
    }
}

/// Positions only move forward while fields are read.
pub proof fn lemma_field_advances(s: Seq<char>, p: int, f: FieldsView)
    requires
        0 <= p <= s.len(),
    ensures
        field_spec(s, p, f) matches Ok((_, e)) ==> p < e <= s.len(),
{
    lemma_skip_ignored_bounds(s, p);
    if let Ok(p1) = expect_char_spec(s, p, '(') {
        lemma_skip_ignored_bounds(s, p1);
        let q1 = skip_ignored(s, p1);
        lemma_scan_bounds(s, q1);
        if let Ok((key, p2)) = token_spec(s, p1) {
            lemma_skip_ignored_bounds(s, p2);
            let q2 = skip_ignored(s, p2);
            lemma_scan_bounds(s, q2);
            lemma_skip_ignored_bounds(s, q2);
            let q3 = skip_ignored(s, q2);
            lemma_scan_bounds(s, q3);
            lemma_string_end_bounds(s, q2 + 1, false);
            if key == "schema"@ {
                if let Ok((v, p3)) = integer_spec(s, p2) {
                    lemma_skip_ignored_bounds(s, p3);
                }
            } else if is_text_field(key) {
                if let Ok((v, p3)) = optional_string_spec(s, p2) {
                    lemma_skip_ignored_bounds(s, p3);
                }
            }
        }
    }
}

/// The field forms from `p` up to and including the closing `)`.
#[verifier::opaque]
pub open spec fn fields_spec(s: Seq<char>, p: int, f: FieldsView) -> Result<(FieldsView, int), ErrorView>
    decreases s.len() - p,
{
    if 0 <= p <= s.len() {
        let q = skip_ignored(s, p);
        if q < s.len() && s[q] == ')' {
            Ok((f, q + 1))
        } else {
            match field_spec(s, p, f) {
                Err(x) => Err(x),
                Ok((g, e)) => {
                    proof {
                        lemma_field_advances(s, p, f);
                    }
                    fields_spec(s, e, g)
                },
            }
        }
    } else {
        Err(ErrorView::MissingSchema)
    }
}

/// The configuration a document describes, or the first error in it.
pub open spec fn config_spec(s: Seq<char>) -> Result<ConfigView, ErrorView> {
    if utf8_len(s) > MAX_CONFIG_BYTES {
        Err(ErrorView::TooLarge)
    } else {
        match expect_char_spec(s, 0, '(') {
            Err(x) => Err(x),
            Ok(p1) => match token_spec(s, p1) {
                Err(x) => Err(x),
                Ok((t, p2)) => if t != "xo-syncd-config"@ {
                    Err(
                        ErrorView::Syntax {
                            position: byte_at(s, p2),
                            problem: ProblemView::ExpectedWord { expected: "xo-syncd-config"@, found: t },
                        },
                    )
                } else {
                    match fields_spec(s, p2, no_fields()) {
                        Err(x) => Err(x),
                        Ok((f, p3)) => if skip_ignored(s, p3) != s.len() {
                            Err(
                                ErrorView::Syntax {
                                    position: byte_at(s, skip_ignored(s, p3)),
                                    problem: ProblemView::TrailingForm,
                                },
                            )
                        } else {
                            match f.schema {
                                None => Err(ErrorView::MissingSchema),
                                Some(v) => Ok(
                                    ConfigView {
                                        schema: v,
                                        state_dir: flatten(f.state_dir),
                                        bind: flatten(f.bind),
                                        oidc_issuer: flatten(f.oidc_issuer),
                                        oidc_audience: flatten(f.oidc_audience),
                                        oidc_client_id: flatten(f.oidc_client_id),
                                    },
                                ),
                            }
                        },
                    }
                },
            },
        }
    }
}

/// A field given as `#f` and a field not given both leave the value absent.
pub open spec fn flatten(v: Option<Option<Seq<char>>>) -> Option<Seq<char>> {
    match v {
        Some(inner) => inner,
        None => None,
    }
}

/// How a parse result relates to the abstract result.
pub open spec fn parsed_as(result: Result<SyncdConfig, ConfigError>, expected: Result<ConfigView, ErrorView>) -> bool {
    match expected {
        Ok(c) => result matches Ok(r) && r.view() == c,
        Err(x) => result matches Err(e) && e.view() == x,
    }
}


/// The name of text field `i`.
pub open spec fn text_field_name(i: int) -> Seq<char> {
    if i == 0 {
        "state-dir"@
    } else if i == 1 {
        "bind"@
    } else if i == 2 {
        "oidc-issuer"@
    } else if i == 3 {
        "oidc-audience"@
    } else {
        "oidc-client-id"@
    }
}

proof fn lemma_field_names()
    ensures
        "state-dir"@ != "bind"@,
        "state-dir"@ != "oidc-issuer"@,
        "state-dir"@ != "oidc-audience"@,
        "state-dir"@ != "oidc-client-id"@,
        "bind"@ != "oidc-issuer"@,
        "bind"@ != "oidc-audience"@,
        "bind"@ != "oidc-client-id"@,
        "oidc-issuer"@ != "oidc-audience"@,
        "oidc-issuer"@ != "oidc-client-id"@,
        "oidc-audience"@ != "oidc-client-id"@,
        "state-dir"@ != "schema"@,
        "bind"@ != "schema"@,
        "oidc-issuer"@ != "schema"@,
        "oidc-audience"@ != "schema"@,
        "oidc-client-id"@ != "schema"@,
{
    reveal_strlit("state-dir");
    reveal_strlit("bind");
    reveal_strlit("oidc-issuer");
    reveal_strlit("oidc-audience");
    reveal_strlit("oidc-client-id");
    reveal_strlit("schema");
    assert("state-dir"@[0] != "bind"@[0]);
    assert("state-dir"@[0] != "oidc-issuer"@[0]);
    assert("state-dir"@[0] != "oidc-audience"@[0]);
    assert("state-dir"@[0] != "oidc-client-id"@[0]);
    assert("bind"@[0] != "oidc-issuer"@[0]);
    assert("bind"@[0] != "oidc-audience"@[0]);
    assert("bind"@[0] != "oidc-client-id"@[0]);
    assert("oidc-issuer"@[5] != "oidc-audience"@[5]);
    assert("oidc-issuer"@[5] != "oidc-client-id"@[5]);
    assert("oidc-audience"@[5] != "oidc-client-id"@[5]);
    assert("state-dir"@[1] != "schema"@[1]);
    assert("bind"@[0] != "schema"@[0]);
    assert("oidc-issuer"@[0] != "schema"@[0]);
    assert("oidc-audience"@[0] != "schema"@[0]);
    assert("oidc-client-id"@[0] != "schema"@[0]);
}

/// Which text field `key` names.
fn text_field_index(key: &[char]) -> (result: Option<usize>)
    ensures
        match result {
            Some(i) => i < 5 && key@ == text_field_name(i as int),
            None => !is_text_field(key@),
        },
{
    if eq_str(key, "state-dir") {
        Some(0)
    } else if eq_str(key, "bind") {
        Some(1)
    } else if eq_str(key, "oidc-issuer") {
        Some(2)
    } else if eq_str(key, "oidc-audience") {
        Some(3)
    } else if eq_str(key, "oidc-client-id") {
        Some(4)
    } else {
        None
    }
}

/// The fields read so far.
struct Fields {
    schema: Option<u16>,
    text: Vec<Option<Option<String>>>,
}

pub open spec fn opt_opt_view(v: Option<Option<String>>) -> Option<Option<Seq<char>>> {
    match v {
        Some(inner) => Some(opt_view(inner)),
        None => None,
    }
}

impl Fields {
    spec fn view(self) -> FieldsView {
        FieldsView {
            schema: self.schema,
            state_dir: opt_opt_view(self.text@[0]),
            bind: opt_opt_view(self.text@[1]),
            oidc_issuer: opt_opt_view(self.text@[2]),
            oidc_audience: opt_opt_view(self.text@[3]),
            oidc_client_id: opt_opt_view(self.text@[4]),
        }
    }

    fn new() -> (result: Fields)
        ensures
            result.text@.len() == 5,
            result.view() == no_fields(),
    {
        let mut text: Vec<Option<Option<String>>> = Vec::new();
        let mut i: usize = 0;
        while i < 5
            invariant
                i <= 5,
                text@.len() == i,
                forall|k: int| 0 <= k < i ==> #[trigger] text@[k] is None,
            decreases 5 - i,
        {
            text.push(None);
            i = i + 1;
        }
        Fields { schema: None, text }
    }

    fn given(&self, i: usize) -> (result: bool)
        requires
            self.text@.len() == 5,
            i < 5,
        ensures
            result == text_field_given(self.view(), text_field_name(i as int)),
    {
        proof {
            lemma_field_names();
        }
        let r = self.text[i].is_some();
        proof {
            if i == 0 {
                assert(text_field_name(0) == "state-dir"@);
            } else if i == 1 {
                assert(text_field_name(1) == "bind"@);
            } else if i == 2 {
                assert(text_field_name(2) == "oidc-issuer"@);
            } else if i == 3 {
                assert(text_field_name(3) == "oidc-audience"@);
            } else {
                assert(text_field_name(4) == "oidc-client-id"@);
            }
        }
        r
    }

    fn set(&mut self, i: usize, value: Option<String>)
        requires
            old(self).text@.len() == 5,
            i < 5,
        ensures
            final(self).text@.len() == 5,
            final(self).view() == with_text_field(old(self).view(), text_field_name(i as int), opt_view(value)),
    {
        proof {
            lemma_field_names();
        }
        let ghost before = self.view();
        let ghost v = opt_view(value);
        self.text.set(i, Some(value));
        proof {
            if i == 0 {
                assert(self.view() == with_text_field(before, "state-dir"@, v));
            } else if i == 1 {
                assert(self.view() == with_text_field(before, "bind"@, v));
            } else if i == 2 {
                assert(self.view() == with_text_field(before, "oidc-issuer"@, v));
            } else if i == 3 {
                assert(self.view() == with_text_field(before, "oidc-audience"@, v));
            } else {
                assert(self.view() == with_text_field(before, "oidc-client-id"@, v));
            }
        }
    }

    /// The value of the last text field, removed.
    fn pop_value(&mut self) -> (result: Option<String>)
        requires
            old(self).text@.len() > 0,
        ensures
            final(self).schema == old(self).schema,
            final(self).text@ == old(self).text@.drop_last(),
            opt_view(result) == flatten(opt_opt_view(old(self).text@.last())),
    {
        match self.text.pop() {
            Some(Some(Some(value))) => Some(value),
            _ => None,
        }
    }
}

// ---------------------------------------------------------------------------
// The parser.

/// Parse `digits` as `str::parse::<u16>` does.
pub fn parse_u16(t: &[char]) -> (result: Option<u16>)
    ensures
        result == parse_u16_spec(t@),
{
    let start: usize = if t.len() > 0 && t[0] == '+' {
        1
    } else {
        0
    };
    let ghost d = if t@.len() > 0 && t@[0] == '+' {
        t@.drop_first()
    } else {
        t@
    };
    if start == t.len() {
        return None;
    }
    let mut value: u32 = 0;
    let mut i: usize = start;
    proof {
        assert(d.take(0) =~= Seq::<char>::empty());
    }
    while i < t.len()
        invariant
            start <= i <= t@.len(),
            start < t@.len(),
            start == (if t@.len() > 0 && t@[0] == '+' { 1int } else { 0int }),
            d == unsigned_digits(t@),
            d =~= t@.skip(start as int),
            value == if digits_value(d.take(i - start)) > 65535 {
                65536
            } else {
                digits_value(d.take(i - start))
            },
            forall|k: int| 0 <= k < i - start ==> is_digit(#[trigger] d[k]),
        decreases t@.len() - i,
    {
        let c = t[i];
        if !('0' <= c && c <= '9') {
            proof {
                let k = i - start;
                assert(d[k] == c);
                assert(0 <= k < d.len() && !is_digit(d[k]));
            }
            return None;
        }
        let ghost before = d.take(i - start);
        proof {
            assert(d.take(i - start + 1) =~= before.push(c));
            assert(d.take(i - start + 1).drop_last() =~= before);
            if digits_value(before) > 65535 {
                assert(digits_value(before) * 10 + digit_value(c) > 65535);
            }
        }
        let next: u32 = value * 10 + ((c as u32) - 48);
        value = if next > 65535 {
            65536
        } else {
            next
        };
        i = i + 1;
    }
    proof {
        assert(d.take(d.len() as int) =~= d);
        assert(i - start == d.len());
    }
    if value > 65535 {
        None
    } else {
        Some(value as u16)
    }
}

fn token_char(c: char) -> (result: bool)
    ensures
        result == is_token_char(c),
{
    !is_whitespace(c) && c != '(' && c != ')' && c != ';' && c != '"'
}

/// A configuration document being read, with the byte offset of every
/// character position.
pub struct Parser {
    chars: Vec<char>,
    offsets: Vec<usize>,
    position: usize,
}

impl Parser {
    /// The characters of the document.
    pub closed spec fn source(self) -> Seq<char> {
        self.chars@
    }

    /// The character position reached.
    pub closed spec fn at(self) -> int {
        self.position as int
    }

    pub closed spec fn wf(self) -> bool {
        &&& self.offsets@.len() == self.chars@.len() + 1
        &&& forall|k: int| 0 <= k <= self.chars@.len() ==> #[trigger] self.offsets@[k] == byte_at(self.chars@, k)
        &&& self.position <= self.chars@.len()
    }

    pub fn new(source: &str) -> (result: Parser)
        ensures
            result.wf(),
            result.source() == source@,
            result.at() == 0,
    {
        let chars = chars_of(source);
        let offsets = byte_offsets(source, &chars);
        Parser { chars, offsets, position: 0 }
    }

    fn syntax(&self, at: usize, problem: SyntaxProblem) -> (result: ConfigError)
        requires
            self.wf(),
            at <= self.chars@.len(),
        ensures
            result.view() == (ErrorView::Syntax { position: byte_at(self.source(), at as int), problem: problem.view() }),
    {
        ConfigError::Syntax { position: self.offsets[at], problem }
    }

    fn skip_ignored(&mut self)
        requires
            old(self).wf(),
        ensures
            final(self).wf(),
            final(self).source() == old(self).source(),
            final(self).at() == skip_ignored(old(self).source(), old(self).at()),
    {
        let ghost s = self.chars@;
        let ghost target = skip_ignored(s, self.position as int);
        loop
            invariant
                self.wf(),
                self.chars@ == s,
                s == old(self).source(),
                target == skip_ignored(old(self).source(), old(self).at()),
                skip_ignored(s, self.position as int) == target,
            decreases s.len() - self.position,
        {
            let ghost p = self.position as int;
            proof {
                lemma_scan_bounds(s, p);
            }
            while self.position < self.chars.len() && is_whitespace(self.chars[self.position])
                invariant
                    self.wf(),
                    self.chars@ == s,
                    0 <= p <= self.position,
                    skip_white(s, self.position as int) == skip_white(s, p),
                decreases s.len() - self.position,
            {
                self.position = self.position + 1;
            }
            if self.position >= self.chars.len() || self.chars[self.position] != ';' {
                proof {
                    assert(skip_ignored(s, p) == self.position);
                }
                return;
            }
            self.position = self.position + 1;
            proof {
                lemma_scan_bounds(s, self.position as int);
            }
            while self.position < self.chars.len() && self.chars[self.position] != '\n'
                invariant
                    self.wf(),
                    self.chars@ == s,
                    0 <= p < self.position,
                    skip_white(s, p) < s.len(),
                    s[skip_white(s, p)] == ';',
                    comment_end(s, self.position as int) == comment_end(s, skip_white(s, p) + 1),
                decreases s.len() - self.position,
            {
                self.position = self.position + 1;
            }
            proof {
                assert(skip_ignored(s, p) == skip_ignored(s, self.position as int));
            }
        }
    }

    fn token(&mut self) -> (result: Result<String, ConfigError>)
        requires
            old(self).wf(),
        ensures
            final(self).wf(),
            final(self).source() == old(self).source(),
            match token_spec(old(self).source(), old(self).at()) {
                Ok((t, e)) => result matches Ok(r) && r@ == t && final(self).at() == e,
                Err(x) => result matches Err(r) && r.view() == x,
            },
    {
        self.skip_ignored();
        let ghost s = self.chars@;
        let start = self.position;
        proof {
            lemma_scan_bounds(s, start as int);
        }
        while self.position < self.chars.len() && token_char(self.chars[self.position])
            invariant
                self.wf(),
                self.chars@ == s,
                start <= self.position,
                token_end(s, self.position as int) == token_end(s, start as int),
            decreases s.len() - self.position,
        {
            self.position = self.position + 1;
        }
        if self.position == start {
            Err(self.syntax(start, SyntaxProblem::ExpectedToken))
        } else {
            Ok(string_range(self.chars.as_slice(), start, self.position))
        }
    }

    fn expect_char(&mut self, expected: char) -> (result: Result<(), ConfigError>)
        requires
            old(self).wf(),
        ensures
            final(self).wf(),
            final(self).source() == old(self).source(),
            match expect_char_spec(old(self).source(), old(self).at(), expected) {
                Ok(e) => result is Ok && final(self).at() == e,
                Err(x) => result matches Err(r) && r.view() == x,
            },
    {
        self.skip_ignored();
        if self.position < self.chars.len() {
            let c = self.chars[self.position];
            self.position = self.position + 1;
            if c == expected {
                Ok(())
            } else {
                Err(self.syntax(self.position, SyntaxProblem::ExpectedChar(expected)))
            }
        } else {
            Err(self.syntax(self.position, SyntaxProblem::ExpectedChar(expected)))
        }
    }

    /// A string literal at the current position, where a `"` stands.
    fn string(&mut self) -> (result: Result<String, ConfigError>)
        requires
            old(self).wf(),
            old(self).at() < old(self).source().len(),
            old(self).source()[old(self).at()] == '"',
        ensures
            final(self).wf(),
            final(self).source() == old(self).source(),
            match string_spec(old(self).source(), old(self).at()) {
                Ok((v, e)) => result matches Ok(r) && r@ == v && final(self).at() == e,
                Err(x) => result matches Err(r) && r.view() == x,
            },
    {
        let ghost s = self.chars@;
        let n = self.chars.len();
        let start = self.position;
        self.position = self.position + 1;
        let mut escaped = false;
        while self.position < n
            invariant
                self.wf(),
                self.chars@ == s,
                s == old(self).source(),
                start == old(self).at(),
                n == s.len(),
                start < self.position,
                string_end(s, self.position as int, escaped) == string_end(s, start + 1, false),
            decreases s.len() - self.position,
        {
            let c = self.chars[self.position];
            self.position = self.position + 1;
            if escaped {
                escaped = false;
            } else if c == '\\' {
                escaped = true;
            } else if c == '"' {
                let raw = string_range(self.chars.as_slice(), start, self.position);
                return match decode_json_string(raw.as_str()) {
                    Ok(v) => Ok(v),
                    Err(_) => Err(ConfigError::InvalidString),
                };
            }
        }
        Err(self.syntax(self.position, SyntaxProblem::UnterminatedString))
    }

    fn optional_string(&mut self) -> (result: Result<Option<String>, ConfigError>)
        requires
            old(self).wf(),
        ensures
            final(self).wf(),
            final(self).source() == old(self).source(),
            match optional_string_spec(old(self).source(), old(self).at()) {
                Ok((v, e)) => result matches Ok(r) && opt_view(r) == v && final(self).at() == e,
                Err(x) => result matches Err(r) && r.view() == x,
            },
    {
        self.skip_ignored();
        proof {
            reveal_strlit("#f");
        }
        if self.position < self.chars.len() && self.chars[self.position] == '"' {
            match self.string() {
                Ok(v) => Ok(Some(v)),
                Err(e) => Err(e),
            }
        } else {
            let token = self.token()?;
            let chars = chars_of(token.as_str());
            if chars.len() == 2 && chars[0] == '#' && chars[1] == 'f' {
                proof {
                    assert(chars@ =~= "#f"@);
                }
                Ok(None)
            } else {
                proof {
                    if token@ == "#f"@ {
                        assert(chars@[0] == '#' && chars@[1] == 'f');
                    }
                }
                Err(self.syntax(self.position, SyntaxProblem::OptionalValue))
            }
        }
    }

    fn integer(&mut self) -> (result: Result<u16, ConfigError>)
        requires
            old(self).wf(),
        ensures
            final(self).wf(),
            final(self).source() == old(self).source(),
            match integer_spec(old(self).source(), old(self).at()) {
                Ok((v, e)) => result == Ok::<u16, ConfigError>(v) && final(self).at() == e,
                Err(x) => result matches Err(r) && r.view() == x,
            },
    {
        let token = self.token()?;
        let chars = chars_of(token.as_str());
        match parse_u16(chars.as_slice()) {
            Some(v) => Ok(v),
            None => Err(ConfigError::InvalidSchema { position: self.offsets[self.position] }),
        }
    }

    /// One field form `(key value)` at the current position.
    fn field(&mut self, f: &mut Fields) -> (result: Result<(), ConfigError>)
        requires
            old(self).wf(),
            old(f).text@.len() == 5,
        ensures
            final(self).wf(),
            final(self).source() == old(self).source(),
            final(f).text@.len() == 5,
            match field_spec(old(self).source(), old(self).at(), old(f).view()) {
                Ok((g, e)) => result is Ok && final(f).view() == g && final(self).at() == e,
                Err(x) => result matches Err(r) && r.view() == x,
            },
    {
        proof {
            lemma_field_names();
            reveal_strlit("schema");
        }
        self.expect_char('(')?;
        let key = self.token()?;
        let chars = chars_of(key.as_str());
        if eq_str(chars.as_slice(), "schema") {
            let value = self.integer()?;
            if f.schema.is_some() {
                return Err(ConfigError::Duplicate { field: key, position: self.offsets[self.position] });
            }
            self.expect_char(')')?;
            f.schema = Some(value);
            Ok(())
        } else {
            match text_field_index(chars.as_slice()) {
                Some(i) => {
                    proof {
                        assert(is_text_field(key@));
                    }
                    let value = self.optional_string()?;
                    if f.given(i) {
                        return Err(ConfigError::Duplicate { field: key, position: self.offsets[self.position] });
                    }
                    self.expect_char(')')?;
                    f.set(i, value);
                    Ok(())
                },
                None => Err(self.syntax(self.position, SyntaxProblem::UnknownField(key))),
            }
        }
    }

    /// The field forms up to and including the closing `)`.
    fn fields(&mut self, f: &mut Fields) -> (result: Result<(), ConfigError>)
        requires
            old(self).wf(),
            old(f).text@.len() == 5,
        ensures
            final(self).wf(),
            final(self).source() == old(self).source(),
            final(f).text@.len() == 5,
            match fields_spec(old(self).source(), old(self).at(), old(f).view()) {
                Ok((g, e)) => result is Ok && final(f).view() == g && final(self).at() == e,
                Err(x) => result matches Err(r) && r.view() == x,
            },
    {
        reveal(fields_spec);
        let ghost s = self.chars@;
        let ghost target = fields_spec(s, self.position as int, f.view());
        let n = self.chars.len();
        loop
            invariant
                self.wf(),
                self.chars@ == s,
                n == s.len(),
                s == old(self).source(),
                f.text@.len() == 5,
                target == fields_spec(old(self).source(), old(self).at(), old(f).view()),
                fields_spec(s, self.position as int, f.view()) == target,
            decreases s.len() - self.position,
        {
            proof {
                reveal(fields_spec);
            }
            let before = self.position;
            let ghost fv = f.view();
            self.skip_ignored();
            if self.position < n && self.chars[self.position] == ')' {
                self.position = self.position + 1;
                return Ok(());
            }
            self.position = before;
            match self.field(f) {
                Err(e) => {
                    return Err(e);
                },
                Ok(()) => {},
            }
            proof {
                lemma_field_advances(s, before as int, fv);
            }
        }
    }

    /// Read the whole document.
    #[verifier::spinoff_prover]
    #[verifier::rlimit(40)]
    pub fn parse(self) -> (result: Result<SyncdConfig, ConfigError>)
        requires
            self.wf(),
            self.at() == 0,
        ensures
            parsed_as(result, config_spec(self.source())),
    {
        let mut parser = self;
        let ghost s = parser.chars@;
        let n = parser.chars.len();
        if parser.offsets[n] > MAX_CONFIG_BYTES {
            proof {
                assert(s.take(s.len() as int) =~= s);
            }
            return Err(ConfigError::TooLarge);
        }
        proof {
            assert(s.take(s.len() as int) =~= s);
            reveal_strlit("xo-syncd-config");
        }
        parser.expect_char('(')?;
        let word = parser.token()?;
        let chars = chars_of(word.as_str());
        if !eq_str(chars.as_slice(), "xo-syncd-config") {
            let at = parser.position;
            return Err(parser.syntax(at, SyntaxProblem::ExpectedWord { expected: "xo-syncd-config".to_owned(), found: word }));
        }
        let mut f = Fields::new();
        parser.fields(&mut f)?;
        parser.skip_ignored();
        if parser.position != n {
            let at = parser.position;
            return Err(parser.syntax(at, SyntaxProblem::TrailingForm));
        }
        let ghost fv = f.view();
        let oidc_client_id = f.pop_value();
        let oidc_audience = f.pop_value();
        let oidc_issuer = f.pop_value();
        let bind = f.pop_value();
        let state_dir = f.pop_value();
        match f.schema {
            None => Err(ConfigError::MissingSchema),
            Some(schema) => Ok(SyncdConfig { schema, state_dir, bind, oidc_issuer, oidc_audience, oidc_client_id }),
        }
    }
}

/// Parse a configuration document.
pub fn parse_config(source: &str) -> (result: Result<SyncdConfig, ConfigError>)
    ensures
        parsed_as(result, config_spec(source@)),
{
    Parser::new(source).parse()
}

impl SyncdConfig {
    /// The configuration a document describes, refusing other schemas.
    pub fn from_document(source: &str) -> (result: Result<SyncdConfig, ConfigError>)
        ensures
            match config_spec(source@) {
                Ok(c) => if c.schema == CURRENT_SCHEMA {
                    result matches Ok(r) && r.view() == c
                } else {
                    result == Err::<SyncdConfig, ConfigError>(ConfigError::UnsupportedSchema(c.schema))
                },
                Err(x) => result matches Err(e) && e.view() == x,
            },
    {
        let config = parse_config(source)?;
        if config.schema != CURRENT_SCHEMA {
            return Err(ConfigError::UnsupportedSchema(config.schema));
        }
        Ok(config)
    }
}

/// How the document writes an optional string: its JSON literal, or `#f`.
pub open spec fn optional_document_value(value: Option<Seq<char>>) -> Seq<char> {
    match value {
        Some(v) => json_quoted(v),
        None => "#f"@,
    }
}

/// The opening of every document: the comment line and the form's name.
#[verifier::opaque]
pub open spec fn document_head() -> Seq<char> {
    "; xo-syncd server configuration; command-line flags override these values.\n(xo-syncd-config"@
}

/// A field form as a document writes it: a line break, two spaces, and
/// `(key value)`.
#[verifier::opaque]
pub open spec fn field_form(key: Seq<char>, value: Seq<char>) -> Seq<char> {
    "\n  ("@ + key + " "@ + value + ")"@
}

/// The document that describes a configuration: its head, a field form for
/// each field, and the closing parenthesis on the last line.
pub open spec fn document_spec(c: ConfigView) -> Seq<char> {
    document_head() + field_form("schema"@, decimal_spec(c.schema as nat))
        + field_form("state-dir"@, optional_document_value(c.state_dir))
        + field_form("bind"@, optional_document_value(c.bind))
        + field_form("oidc-issuer"@, optional_document_value(c.oidc_issuer))
        + field_form("oidc-audience"@, optional_document_value(c.oidc_audience))
        + field_form("oidc-client-id"@, optional_document_value(c.oidc_client_id)) + ")\n"@
}

/// Append a field form.
fn push_field(document: &mut String, key: &str, value: &str)
    ensures
        final(document)@ == old(document)@ + field_form(key@, value@),
{
    push_str(document, "\n  (");
    push_str(document, key);
    push_str(document, " ");
    push_str(document, value);
    push_str(document, ")");
    reveal(field_form);
    assert(document@ =~= old(document)@ + field_form(key@, value@));
}

/// How a document writes an optional string.
fn optional_value(value: &Option<String>) -> (result: String)
    ensures
        result@ == optional_document_value(opt_view(*value)),
{
    match value {
        Some(v) => quote_json_string(v.as_str()),
        None => "#f".to_owned(),
    }
}

impl SyncdConfig {
    /// The configuration as a document that reads back as it.
    pub fn document(&self) -> (result: String)
        ensures
            result@ == document_spec(self.view()),
    {
        let mut document = "; xo-syncd server configuration; command-line flags override these values.\n(xo-syncd-config".to_owned();
        proof {
            reveal(document_head);
        }
        let schema = decimal(self.schema as u64);
        push_field(&mut document, "schema", schema.as_str());
        push_field(&mut document, "state-dir", optional_value(&self.state_dir).as_str());
        push_field(&mut document, "bind", optional_value(&self.bind).as_str());
        push_field(&mut document, "oidc-issuer", optional_value(&self.oidc_issuer).as_str());
        push_field(&mut document, "oidc-audience", optional_value(&self.oidc_audience).as_str());
        push_field(&mut document, "oidc-client-id", optional_value(&self.oidc_client_id).as_str());
        push_str(&mut document, ")\n");
        document
    }
}

/// `home` joined with a relative path, as `Path::join` does on Unix: a
/// separator is added unless `home` is empty or already ends in one.
pub open spec fn join_relative(home: Seq<char>, relative: Seq<char>) -> Seq<char> {
    if home.len() == 0 || home.last() == '/' {
        home + relative
    } else {
        home + seq!['/'] + relative
    }
}

/// Where the configuration lives under a home directory.
pub fn default_path(home: &str) -> (result: String)
    ensures
        result@ == join_relative(home@, DEFAULT_RELATIVE_PATH@),
{
    let chars = chars_of(home);
    let mut path = String::new();
    push_str(&mut path, home);
    if chars.len() > 0 && chars[chars.len() - 1] != '/' {
        push_str(&mut path, "/");
        proof {
            reveal_strlit("/");
        }
    }
    push_str(&mut path, DEFAULT_RELATIVE_PATH);
    proof {
        if chars@.len() > 0 && chars@.last() != '/' {
            assert(path@ =~= home@ + seq!['/'] + DEFAULT_RELATIVE_PATH@);
        } else {
            assert(path@ =~= home@ + DEFAULT_RELATIVE_PATH@);
        }
    }
    path
}


// Reading a document back: what each scan finds over the text it passes.

proof fn lemma_white_run(s: Seq<char>, p: int, e: int)
    requires
        0 <= p <= e <= s.len(),
        forall|j: int| p <= j < e ==> is_white_space(#[trigger] s[j]),
        e == s.len() || !is_white_space(s[e]),
    ensures
        skip_white(s, p) == e,
    decreases e - p,
{
    if p < e {
        lemma_white_run(s, p + 1, e);
    }
}

proof fn lemma_comment_run(s: Seq<char>, p: int, e: int)
    requires
        0 <= p <= e < s.len(),
        forall|j: int| p <= j < e ==> #[trigger] s[j] != '\n',
        s[e] == '\n',
    ensures
        comment_end(s, p) == e,
    decreases e - p,
{
    if p < e {
        lemma_comment_run(s, p + 1, e);
    }
}

proof fn lemma_token_run(s: Seq<char>, p: int, e: int)
    requires
        0 <= p <= e <= s.len(),
        forall|j: int| p <= j < e ==> is_token_char(#[trigger] s[j]),
        e == s.len() || !is_token_char(s[e]),
    ensures
        token_end(s, p) == e,
    decreases e - p,
{
    if p < e {
        lemma_token_run(s, p + 1, e);
    }
}

/// White space from `p` up to a character that is neither white space nor
/// `;` is all the ignored text there is.
proof fn lemma_skip_to(s: Seq<char>, p: int, e: int)
    requires
        0 <= p <= e < s.len(),
        forall|j: int| p <= j < e ==> is_white_space(#[trigger] s[j]),
        !is_white_space(s[e]),
        s[e] != ';',
    ensures
        skip_ignored(s, p) == e,
{
    lemma_white_run(s, p, e);
}

/// A token of token characters at `p`, ended by a character that is not one.
proof fn lemma_token_at(s: Seq<char>, p: int, w: Seq<char>)
    requires
        0 <= p,
        p + w.len() < s.len(),
        w.len() > 0,
        s.subrange(p, p + w.len()) == w,
        forall|j: int| 0 <= j < w.len() ==> is_token_char(#[trigger] w[j]),
        !is_token_char(s[p + w.len()]),
        s[p] != ';',
    ensures
        token_spec(s, p) == Ok::<(Seq<char>, int), ErrorView>((w, p + w.len())),
{
    assert(s[p] == w[0]);
    lemma_skip_to(s, p, p);
    assert forall|j: int| p <= j < p + w.len() implies is_token_char(#[trigger] s[j]) by {
        assert(s[j] == w[j - p]);
    }
    lemma_token_run(s, p, p + w.len());
}

/// The string scan passes over the characters that `serde_json` writes for
/// `v` and stops after the closing quote.
proof fn lemma_json_chars_scan(s: Seq<char>, p: int, v: Seq<char>)
    requires
        0 <= p,
        p + json_chars(v).len() < s.len(),
        s.subrange(p, p + json_chars(v).len()) == json_chars(v),
        s[p + json_chars(v).len()] == '"',
    ensures
        string_end(s, p, false) == Some(p + json_chars(v).len() + 1),
    decreases v.len(),
{
    if v.len() > 0 {
        let chunk = json_char(v[0]);
        let rest = json_chars(v.drop_first());
        let n = chunk.len();
        assert(json_chars(v) == chunk + rest);
        assert forall|i: int| 0 <= i < n implies s[p + i] == #[trigger] chunk[i] by {
            assert(s.subrange(p, p + json_chars(v).len())[i] == s[p + i]);
        }
        assert(s.subrange(p + n, p + n + rest.len()) =~= rest) by {
            assert forall|i: int| 0 <= i < rest.len() implies s.subrange(p + n, p + n + rest.len())[i] == rest[i] by {
                assert(s.subrange(p, p + json_chars(v).len())[n + i] == s[p + n + i]);
            }
        }
        lemma_json_chars_scan(s, p + n, v.drop_first());
        let c = v[0];
        assert(p < s.len());
        if n == 6 {
            let hi = (c as u32 as int) / 16;
            let lo = (c as u32 as int) % 16;
            assert(0 <= hi < 16 && 0 <= lo < 16);
            assert(chunk[0] == '\\' && chunk[2] == '0' && chunk[3] == '0');
            assert(chunk[4] == hex_digit(hi) && chunk[5] == hex_digit(lo));
            assert(hex_digit(hi) != '"' && hex_digit(hi) != '\\');
            assert(hex_digit(lo) != '"' && hex_digit(lo) != '\\');
            assert(string_end(s, p + 5, false) == string_end(s, p + 6, false));
            assert(string_end(s, p + 4, false) == string_end(s, p + 5, false));
            assert(string_end(s, p + 3, false) == string_end(s, p + 4, false));
            assert(string_end(s, p + 2, false) == string_end(s, p + 3, false));
            assert(string_end(s, p + 1, true) == string_end(s, p + 2, false));
            assert(string_end(s, p, false) == string_end(s, p + 1, true));
        } else if n == 2 {
            assert(chunk[0] == '\\');
            assert(string_end(s, p + 1, true) == string_end(s, p + 2, false));
            assert(string_end(s, p, false) == string_end(s, p + 1, true));
        } else {
            assert(n == 1 && chunk[0] == c && c != '"' && c != '\\');
            assert(string_end(s, p, false) == string_end(s, p + 1, false));
        }
    }
}

/// The decimal digits of a number read back as that number.
proof fn lemma_decimal_digits(n: nat)
    ensures
        decimal_spec(n).len() > 0,
        all_digits(decimal_spec(n)),
        digits_value(decimal_spec(n)) == n,
    decreases n,
{
    if n >= 10 {
        lemma_decimal_digits(n / 10);
        let d = decimal_spec(n);
        assert(d.drop_last() == decimal_spec(n / 10));
        assert(d.last() == digit_char((n % 10) as int));
        assert(digit_value(digit_char((n % 10) as int)) == n % 10);
        assert(n == (n / 10) * 10 + n % 10);
        assert(digits_value(d) == digits_value(d.drop_last()) * 10 + digit_value(d.last()));
        assert forall|i: int| 0 <= i < d.len() implies is_digit(#[trigger] d[i]) by {
            if i < d.len() - 1 {
                assert(d[i] == decimal_spec(n / 10)[i]);
            }
        }
    } else {
        let d = decimal_spec(n);
        assert(digit_value(digit_char(n as int)) == n);
        assert(d.drop_last() =~= Seq::<char>::empty());
        assert(digits_value(d) == digits_value(d.drop_last()) * 10 + digit_value(d.last()));
        assert(is_digit(d[0]));
    }
}


/// A token found after the ignored text at `p`.
proof fn lemma_token_after(s: Seq<char>, p: int, q: int, w: Seq<char>)
    requires
        0 <= p <= q,
        skip_ignored(s, p) == q,
        q + w.len() < s.len(),
        w.len() > 0,
        s.subrange(q, q + w.len()) == w,
        forall|j: int| 0 <= j < w.len() ==> is_token_char(#[trigger] w[j]),
        !is_token_char(s[q + w.len()]),
    ensures
        token_spec(s, p) == Ok::<(Seq<char>, int), ErrorView>((w, q + w.len())),
{
    assert forall|j: int| q <= j < q + w.len() implies is_token_char(#[trigger] s[j]) by {
        assert(s.subrange(q, q + w.len())[j - q] == s[j]);
    }
    lemma_token_run(s, q, q + w.len());
}

/// What the opening of a field form gives: the `(` after the line break
/// and indentation, the key, and the start of the value after one space.
proof fn lemma_form_opening(s: Seq<char>, p: int, key: Seq<char>, value: Seq<char>)
    requires
        0 <= p,
        p + field_form(key, value).len() <= s.len(),
        s.subrange(p, p + field_form(key, value).len()) == field_form(key, value),
        key.len() > 0,
        forall|j: int| 0 <= j < key.len() ==> is_token_char(#[trigger] key[j]),
        value.len() > 0,
        !is_white_space(value[0]),
        value[0] != ';',
    ensures
        expect_char_spec(s, p, '(') == Ok::<int, ErrorView>(p + 4),
        token_spec(s, p + 4) == Ok::<(Seq<char>, int), ErrorView>((key, p + 4 + key.len())),
        skip_ignored(s, p + 4 + key.len()) == p + 5 + key.len(),
        s.subrange(p + 5 + key.len(), p + 5 + key.len() + value.len()) == value,
        s[p + 5 + key.len() + value.len()] == ')',
        skip_ignored(s, p + 5 + key.len() + value.len()) == p + 5 + key.len() + value.len(),
        field_form(key, value).len() == key.len() + value.len() + 6,
{
    reveal(field_form);
    reveal_strlit("\n  (");
    reveal_strlit(" ");
    reveal_strlit(")");
    let f = field_form(key, value);
    let k = key.len() as int;
    let n = value.len() as int;
    assert(f.len() == k + n + 6);
    assert forall|i: int| 0 <= i < f.len() implies s[p + i] == #[trigger] f[i] by {
        assert(s.subrange(p, p + f.len())[i] == s[p + i]);
    }
    assert(f[0] == '\n' && f[1] == ' ' && f[2] == ' ' && f[3] == '(');
    assert(s[p] == '\n' && s[p + 1] == ' ' && s[p + 2] == ' ' && s[p + 3] == '(');
    lemma_skip_to(s, p, p + 3);
    assert forall|j: int| 0 <= j < k implies s[p + 4 + j] == #[trigger] key[j] by {
        assert(f[4 + j] == key[j]);
    }
    assert(s.subrange(p + 4, p + 4 + k) =~= key);
    assert(f[4 + k] == ' ');
    assert(s[p + 4 + k] == ' ');
    assert(s[p + 4] == key[0] && is_token_char(key[0]));
    lemma_skip_to(s, p + 4, p + 4);
    lemma_token_after(s, p + 4, p + 4, key);
    assert forall|j: int| 0 <= j < n implies s[p + 5 + k + j] == #[trigger] value[j] by {
        assert(f[5 + k + j] == value[j]);
    }
    assert(s.subrange(p + 5 + k, p + 5 + k + n) =~= value);
    assert(s[p + 5 + k] == value[0]);
    lemma_skip_to(s, p + 4 + k, p + 5 + k);
    assert(f[5 + k + n] == ')');
    assert(s[p + 5 + k + n] == ')');
    lemma_skip_to(s, p + 5 + k + n, p + 5 + k + n);
}

/// The schema form of a document adds the schema to fields without one.
proof fn lemma_schema_form(s: Seq<char>, p: int, n: u16, f: FieldsView)
    requires
        0 <= p,
        f.schema is None,
        p + field_form("schema"@, decimal_spec(n as nat)).len() <= s.len(),
        s.subrange(p, p + field_form("schema"@, decimal_spec(n as nat)).len()) == field_form("schema"@, decimal_spec(n as nat)),
    ensures
        field_spec(s, p, f) == Ok::<(FieldsView, int), ErrorView>(
            (FieldsView { schema: Some(n), ..f }, p + field_form("schema"@, decimal_spec(n as nat)).len()),
        ),
        skip_ignored(s, p) == p + 3,
        s[p + 3] == '(',
{
    reveal_strlit("schema");
    let key = "schema"@;
    let d = decimal_spec(n as nat);
    lemma_decimal_digits(n as nat);
    assert(key.len() == 6);
    assert(forall|j: int| 0 <= j < key.len() ==> is_token_char(#[trigger] key[j]));
    assert(is_digit(d[0]));
    lemma_form_opening(s, p, key, d);
    let q = p + 5 + key.len();
    assert forall|j: int| 0 <= j < d.len() implies is_token_char(#[trigger] d[j]) by {
        assert(is_digit(d[j]));
    }
    lemma_token_after(s, q - 1, q, d);
    assert(unsigned_digits(d) == d);
    assert(parse_u16_spec(d) == Some(n));
}

/// A text field form of a document adds the field to fields without it.
proof fn lemma_text_form(s: Seq<char>, p: int, key: Seq<char>, v: Option<Seq<char>>, f: FieldsView)
    requires
        0 <= p,
        is_text_field(key),
        !text_field_given(f, key),
        v matches Some(x) ==> json_string_value(json_quoted(x)) == Some(x),
        p + field_form(key, optional_document_value(v)).len() <= s.len(),
        s.subrange(p, p + field_form(key, optional_document_value(v)).len()) == field_form(key, optional_document_value(v)),
    ensures
        field_spec(s, p, f) == Ok::<(FieldsView, int), ErrorView>(
            (with_text_field(f, key, v), p + field_form(key, optional_document_value(v)).len()),
        ),
        skip_ignored(s, p) == p + 3,
        s[p + 3] == '(',
{
    reveal_strlit("schema");
    reveal_strlit("state-dir");
    reveal_strlit("bind");
    reveal_strlit("oidc-issuer");
    reveal_strlit("oidc-audience");
    reveal_strlit("oidc-client-id");
    reveal_strlit("#f");
    let w = optional_document_value(v);
    assert(key.len() > 0);
    assert(forall|j: int| 0 <= j < key.len() ==> is_token_char(#[trigger] key[j]));
    assert(key != "schema"@);
    assert(w.len() > 0 && !is_white_space(w[0]) && w[0] != ';');
    lemma_form_opening(s, p, key, w);
    let q = p + 5 + key.len();
    match v {
        Some(x) => {
            let jc = json_chars(x);
            assert(w == seq!['"'] + jc + seq!['"']);
            assert(s[q] == '"');
            assert(s.subrange(q + 1, q + 1 + jc.len()) =~= jc) by {
                assert forall|i: int| 0 <= i < jc.len() implies s.subrange(q + 1, q + 1 + jc.len())[i] == jc[i] by {
                    assert(s.subrange(q, q + w.len())[1 + i] == w[1 + i]);
                }
            }
            assert(s.subrange(q, q + w.len())[w.len() - 1] == w[w.len() - 1]);
            lemma_json_chars_scan(s, q + 1, x);
            assert(s.subrange(q, q + w.len()) == json_quoted(x));
        },
        None => {
            assert(w == "#f"@);
            assert(s[q] == '#');
            lemma_skip_to(s, q, q);
            assert(forall|j: int| 0 <= j < w.len() ==> is_token_char(#[trigger] w[j]));
            lemma_token_after(s, q, q, w);
        },
    }
}


/// Where a text begins with `x + y`, `y` stands right after `x`.
proof fn lemma_part(s: Seq<char>, x: Seq<char>, y: Seq<char>)
    requires
        x.len() + y.len() <= s.len(),
        s.take((x.len() + y.len()) as int) == x + y,
    ensures
        s.take(x.len() as int) == x,
        s.subrange(x.len() as int, (x.len() + y.len()) as int) == y,
{
    assert forall|i: int| 0 <= i < x.len() implies s.take(x.len() as int)[i] == x[i] by {
        assert(s.take((x.len() + y.len()) as int)[i] == (x + y)[i]);
    }
    assert(s.take(x.len() as int) =~= x);
    assert forall|i: int| 0 <= i < y.len() implies s.subrange(x.len() as int, (x.len() + y.len()) as int)[i] == y[i] by {
        assert(s.take((x.len() + y.len()) as int)[x.len() + i] == (x + y)[x.len() + i]);
        assert((x + y)[x.len() + i] == y[i]);
        assert(s.subrange(x.len() as int, (x.len() + y.len()) as int)[i] == s[x.len() + i]);
    }
    assert(s.subrange(x.len() as int, (x.len() + y.len()) as int) =~= y);
}

/// A field form starts with a line break.
proof fn lemma_form_starts(key: Seq<char>, value: Seq<char>)
    ensures
        field_form(key, value).len() > 0,
        field_form(key, value)[0] == '\n',
{
    reveal(field_form);
    reveal_strlit("\n  (");
    assert(field_form(key, value)[0] == "\n  ("@[0]);
}

proof fn lemma_head_len()
    ensures
        document_head().len() == 91,
{
    reveal(document_head);
    reveal_strlit("; xo-syncd server configuration; command-line flags override these values.\n(xo-syncd-config");
}

/// A document opens with its form: the comment line is ignored, and the
/// form's name follows the `(`.
proof fn lemma_document_opening(s: Seq<char>)
    requires
        s.len() > 91,
        s.take(91) == document_head(),
        s[91] == '\n',
    ensures
        expect_char_spec(s, 0, '(') == Ok::<int, ErrorView>(76),
        token_spec(s, 76) == Ok::<(Seq<char>, int), ErrorView>(("xo-syncd-config"@, 91)),
{
    let h = document_head();
    reveal(document_head);
    reveal_strlit("; xo-syncd server configuration; command-line flags override these values.\n(xo-syncd-config");
    reveal_strlit("xo-syncd-config");
    assert(h.len() == 91);
    assert forall|i: int| 0 <= i < 91 implies s[i] == #[trigger] h[i] by {
        assert(s.take(91)[i] == s[i]);
    }
    assert(h[0] == ';' && h[74] == '\n' && h[75] == '(');
    assert(s[0] == ';');
    lemma_white_run(s, 0, 0);
    assert forall|j: int| 1 <= j < 74 implies #[trigger] s[j] != '\n' by {
        assert(s[j] == h[j]);
    }
    assert(s[74] == '\n');
    lemma_comment_run(s, 1, 74);
    assert(s[75] == '(');
    assert(h[76] == 'x');
    lemma_skip_to(s, 74, 75);
    assert(skip_ignored(s, 0) == skip_ignored(s, 74));
    let name = "xo-syncd-config"@;
    assert(s.subrange(76, 91) =~= name) by {
        assert forall|i: int| 0 <= i < 15 implies s.subrange(76, 91)[i] == name[i] by {
            assert(s[76 + i] == h[76 + i]);
        }
    }
    assert(forall|j: int| 0 <= j < name.len() ==> is_token_char(#[trigger] name[j]));
    lemma_skip_to(s, 76, 76);
    lemma_token_after(s, 76, 76, name);
}

/// A field form read at `p` leaves the remaining forms to be read after it.
proof fn lemma_fields_step(s: Seq<char>, p: int, f: FieldsView, g: FieldsView, e: int)
    requires
        0 <= p <= s.len(),
        skip_ignored(s, p) == p + 3,
        s[p + 3] == '(',
        p + 3 < s.len(),
        field_spec(s, p, f) == Ok::<(FieldsView, int), ErrorView>((g, e)),
    ensures
        fields_spec(s, p, f) == fields_spec(s, e, g),
{
    reveal(fields_spec);
}

/// A document whose form and fields are read up to the end gives the
/// configuration its fields hold.
proof fn lemma_config_from(s: Seq<char>, g: FieldsView, e: int)
    requires
        utf8_len(s) <= MAX_CONFIG_BYTES,
        expect_char_spec(s, 0, '(') == Ok::<int, ErrorView>(76),
        token_spec(s, 76) == Ok::<(Seq<char>, int), ErrorView>(("xo-syncd-config"@, 91)),
        fields_spec(s, 91, no_fields()) == Ok::<(FieldsView, int), ErrorView>((g, e)),
        skip_ignored(s, e) == s.len(),
        g.schema is Some,
    ensures
        config_spec(s) == Ok::<ConfigView, ErrorView>(
            ConfigView {
                schema: g.schema->0,
                state_dir: flatten(g.state_dir),
                bind: flatten(g.bind),
                oidc_issuer: flatten(g.oidc_issuer),
                oidc_audience: flatten(g.oidc_audience),
                oidc_client_id: flatten(g.oidc_client_id),
            },
        ),
{
}

/// Whether each text value of a configuration reads back from the JSON
/// literal that `serde_json` writes for it.
pub open spec fn literals_read_back(c: ConfigView) -> bool {
    &&& (c.state_dir matches Some(x) ==> json_string_value(json_quoted(x)) == Some(x))
    &&& (c.bind matches Some(x) ==> json_string_value(json_quoted(x)) == Some(x))
    &&& (c.oidc_issuer matches Some(x) ==> json_string_value(json_quoted(x)) == Some(x))
    &&& (c.oidc_audience matches Some(x) ==> json_string_value(json_quoted(x)) == Some(x))
    &&& (c.oidc_client_id matches Some(x) ==> json_string_value(json_quoted(x)) == Some(x))
}

/// The forms of a document, in order: its head, a field form for each
/// field, and the closing.
pub open spec fn document_parts(c: ConfigView) -> Seq<Seq<char>> {
    seq![
        document_head(),
        field_form("schema"@, decimal_spec(c.schema as nat)),
        field_form("state-dir"@, optional_document_value(c.state_dir)),
        field_form("bind"@, optional_document_value(c.bind)),
        field_form("oidc-issuer"@, optional_document_value(c.oidc_issuer)),
        field_form("oidc-audience"@, optional_document_value(c.oidc_audience)),
        field_form("oidc-client-id"@, optional_document_value(c.oidc_client_id)),
        ")\n"@,
    ]
}

/// Where part `i` of a document starts.
pub open spec fn part_start(parts: Seq<Seq<char>>, i: int) -> int
    decreases i,
{
    if i <= 0 {
        0
    } else {
        part_start(parts, i - 1) + parts[i - 1].len()
    }
}

/// Whether `s` consists of `parts`, one after another.
pub open spec fn laid_out(s: Seq<char>, parts: Seq<Seq<char>>) -> bool {
    &&& s.len() == part_start(parts, parts.len() as int)
    &&& forall|i: int| 0 <= i < parts.len() ==> s.subrange(part_start(parts, i), part_start(parts, i + 1)) == #[trigger] parts[i]
}

/// A document consists of its parts.
proof fn lemma_document_laid_out(c: ConfigView)
    ensures
        laid_out(document_spec(c), document_parts(c)),
{
    let s = document_spec(c);
    let parts = document_parts(c);
    let h = parts[0];
    let f1 = parts[1];
    let f2 = parts[2];
    let f3 = parts[3];
    let f4 = parts[4];
    let f5 = parts[5];
    let f6 = parts[6];
    let close = parts[7];
    let p1 = h + f1;
    let p2 = p1 + f2;
    let p3 = p2 + f3;
    let p4 = p3 + f4;
    let p5 = p4 + f5;
    let p6 = p5 + f6;
    assert(s == p6 + close);
    assert(s.take(s.len() as int) =~= s);
    lemma_part(s, p6, close);
    lemma_part(s, p5, f6);
    lemma_part(s, p4, f5);
    lemma_part(s, p3, f4);
    lemma_part(s, p2, f3);
    lemma_part(s, p1, f2);
    lemma_part(s, h, f1);
    assert(s.subrange(0, h.len() as int) == s.take(h.len() as int));
    assert(part_start(parts, 0) == 0);
    assert(part_start(parts, 1) == h.len());
    assert(part_start(parts, 2) == p1.len());
    assert(part_start(parts, 3) == p2.len());
    assert(part_start(parts, 4) == p3.len());
    assert(part_start(parts, 5) == p4.len());
    assert(part_start(parts, 6) == p5.len());
    assert(part_start(parts, 7) == p6.len());
    assert(part_start(parts, 8) == s.len());
}

/// The field names of a document other than the schema are text fields.
proof fn lemma_text_field_names()
    ensures
        is_text_field("state-dir"@),
        is_text_field("bind"@),
        is_text_field("oidc-issuer"@),
        is_text_field("oidc-audience"@),
        is_text_field("oidc-client-id"@),
{
}

/// The fields a document of `c` gives.
pub open spec fn document_fields(c: ConfigView) -> FieldsView {
    FieldsView {
        schema: Some(c.schema),
        state_dir: Some(c.state_dir),
        bind: Some(c.bind),
        oidc_issuer: Some(c.oidc_issuer),
        oidc_audience: Some(c.oidc_audience),
        oidc_client_id: Some(c.oidc_client_id),
    }
}

/// The field forms of a document, read one after another.
#[verifier::rlimit(60)]
proof fn lemma_fields_chain(s: Seq<char>, c: ConfigView, e1: int, e2: int, e3: int, e4: int, e5: int, e6: int)
    requires
        literals_read_back(c),
        e6 + 2 == s.len(),
        91 <= e1 <= e2 <= e3 <= e4 <= e5 <= e6,
        s.subrange(91, e1) == field_form("schema"@, decimal_spec(c.schema as nat)),
        s.subrange(e1, e2) == field_form("state-dir"@, optional_document_value(c.state_dir)),
        s.subrange(e2, e3) == field_form("bind"@, optional_document_value(c.bind)),
        s.subrange(e3, e4) == field_form("oidc-issuer"@, optional_document_value(c.oidc_issuer)),
        s.subrange(e4, e5) == field_form("oidc-audience"@, optional_document_value(c.oidc_audience)),
        s.subrange(e5, e6) == field_form("oidc-client-id"@, optional_document_value(c.oidc_client_id)),
        s[e6] == ')',
        s[e6 + 1] == '\n',
    ensures
        fields_spec(s, 91, no_fields()) == Ok::<(FieldsView, int), ErrorView>((document_fields(c), e6 + 1)),
        skip_ignored(s, e6 + 1) == s.len(),
{
    lemma_field_names();
    lemma_text_field_names();
    let g1 = FieldsView { schema: Some(c.schema), ..no_fields() };
    let g2 = with_text_field(g1, "state-dir"@, c.state_dir);
    let g3 = with_text_field(g2, "bind"@, c.bind);
    let g4 = with_text_field(g3, "oidc-issuer"@, c.oidc_issuer);
    let g5 = with_text_field(g4, "oidc-audience"@, c.oidc_audience);
    let g6 = with_text_field(g5, "oidc-client-id"@, c.oidc_client_id);
    assert(fields_spec(s, 91, no_fields()) == fields_spec(s, e1, g1)) by {
        lemma_schema_form(s, 91, c.schema, no_fields());
        lemma_fields_step(s, 91, no_fields(), g1, e1);
    }
    assert(fields_spec(s, e1, g1) == fields_spec(s, e2, g2)) by {
        lemma_text_form(s, e1, "state-dir"@, c.state_dir, g1);
        lemma_fields_step(s, e1, g1, g2, e2);
    }
    assert(fields_spec(s, e2, g2) == fields_spec(s, e3, g3)) by {
        lemma_text_form(s, e2, "bind"@, c.bind, g2);
        lemma_fields_step(s, e2, g2, g3, e3);
    }
    assert(fields_spec(s, e3, g3) == fields_spec(s, e4, g4)) by {
        lemma_text_form(s, e3, "oidc-issuer"@, c.oidc_issuer, g3);
        lemma_fields_step(s, e3, g3, g4, e4);
    }
    assert(fields_spec(s, e4, g4) == fields_spec(s, e5, g5)) by {
        lemma_text_form(s, e4, "oidc-audience"@, c.oidc_audience, g4);
        lemma_fields_step(s, e4, g4, g5, e5);
    }
    assert(fields_spec(s, e5, g5) == fields_spec(s, e6, g6)) by {
        lemma_text_form(s, e5, "oidc-client-id"@, c.oidc_client_id, g5);
        lemma_fields_step(s, e5, g5, g6, e6);
    }
    assert(fields_spec(s, e6, g6) == Ok::<(FieldsView, int), ErrorView>((g6, e6 + 1))) by {
        reveal(fields_spec);
        lemma_skip_to(s, e6, e6);
    }
    assert(g6 == document_fields(c));
    lemma_white_run(s, e6 + 1, s.len() as int);
}

/// A text laid out as a document's parts reads as the configuration.
proof fn lemma_read_parts(s: Seq<char>, c: ConfigView)
    requires
        utf8_len(s) <= MAX_CONFIG_BYTES,
        literals_read_back(c),
        laid_out(s, document_parts(c)),
    ensures
        config_spec(s) == Ok::<ConfigView, ErrorView>(c),
{
    let parts = document_parts(c);
    lemma_head_len();
    assert(parts[0] == document_head());
    let e0 = part_start(parts, 1);
    let e1 = part_start(parts, 2);
    let e2 = part_start(parts, 3);
    let e3 = part_start(parts, 4);
    let e4 = part_start(parts, 5);
    let e5 = part_start(parts, 6);
    let e6 = part_start(parts, 7);
    let e7 = part_start(parts, 8);
    assert(part_start(parts, 0) == 0);
    assert(e0 == 91);
    assert(e1 == e0 + parts[1].len());
    assert(e2 == e1 + parts[2].len());
    assert(e3 == e2 + parts[3].len());
    assert(e4 == e3 + parts[4].len());
    assert(e5 == e4 + parts[5].len());
    assert(e6 == e5 + parts[6].len());
    assert(e7 == e6 + parts[7].len());
    assert(s.subrange(0, 91) == parts[0]);
    assert(s.subrange(91, e1) == parts[1]);
    assert(s.subrange(e1, e2) == parts[2]);
    assert(s.subrange(e2, e3) == parts[3]);
    assert(s.subrange(e3, e4) == parts[4]);
    assert(s.subrange(e4, e5) == parts[5]);
    assert(s.subrange(e5, e6) == parts[6]);
    assert(s.subrange(e6, e7) == parts[7]);
    assert(s[e6] == ')' && s[e6 + 1] == '\n' && e7 == e6 + 2) by {
        reveal_strlit(")\n");
        assert(s[e6] == s.subrange(e6, e7)[0]);
        assert(s[e6 + 1] == s.subrange(e6, e7)[1]);
    }
    assert(expect_char_spec(s, 0, '(') == Ok::<int, ErrorView>(76) && token_spec(s, 76) == Ok::<
        (Seq<char>, int),
        ErrorView,
    >(("xo-syncd-config"@, 91))) by {
        lemma_form_starts("schema"@, decimal_spec(c.schema as nat));
        assert(s[91] == s.subrange(91, e1)[0]);
        assert(s.take(91) == s.subrange(0, 91));
        lemma_document_opening(s);
    }
    lemma_fields_chain(s, c, e1, e2, e3, e4, e5, e6);
    lemma_config_from(s, document_fields(c), e6 + 1);
}

/// The document of a configuration reads back as that configuration, a
/// value written as `#f` reading back as absent, wherever the document is
/// not too large and its JSON literals decode to what was written
/// (`decode_json_string` states that they do).
pub proof fn lemma_document_round_trip(c: ConfigView)
    requires
        utf8_len(document_spec(c)) <= MAX_CONFIG_BYTES,
        literals_read_back(c),
    ensures
        config_spec(document_spec(c)) == Ok::<ConfigView, ErrorView>(c),
{
    lemma_document_laid_out(c);
    lemma_read_parts(document_spec(c), c);
}

} // verus!
