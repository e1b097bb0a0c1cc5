//! Short, date-prefixed note identifiers.

use vstd::prelude::*;

use crate::text::push_char;
use vstd::string::StringSliceAdditionalSpecFns;
use vstd::string::StrSliceExecFns;
use vstd::string::StringExecFns;
use crate::timestamp::{julian_day_of, julian_day_spec, ordinal_date};
use rand::Rng;
use time::OffsetDateTime;

verus! {

/// Julian day number of the identifier epoch, 1989-01-17.
pub const EPOCH_JULIAN_DAY: i32 = 2447544;

/// The lowercase base32 alphabet `a..z` followed by `2..7`.
pub open spec fn base32_digit(d: nat) -> char {
    if d < 26 {
        (('a' as nat) + d) as char
    } else {
        (('2' as nat) + (d - 26)) as char
    }
}

/// Whether `c` belongs to the base32 alphabet.
pub open spec fn is_base32_char(c: char) -> bool {
    ('a' <= c && c <= 'z') || ('2' <= c && c <= '7')
}

/// Base32 digits of `v`, most significant first; zero encodes as `a`.
pub open spec fn base32_spec(v: nat) -> Seq<char>
    decreases v,
{
    if v < 32 {
        seq![base32_digit(v)]
    } else {
        base32_spec(v / 32).push(base32_digit(v % 32))
    }
}

/// The base32 alphabet character for `digit`.
pub fn base32_char(digit: u64) -> (result: char)
    requires
        digit < 32,
    ensures
        result == base32_digit(digit as nat),
        is_base32_char(result),
{
    if digit < 26 {
        let code: u32 = 97 + digit as u32;
        proof {
            assert(code < 0xd800);
        }
        char_from_code(code)
    } else {
        let code: u32 = 50 + (digit - 26) as u32;
        char_from_code(code)
    }
}

/// The character with an ASCII code point.
fn char_from_code(code: u32) -> (result: char)
    requires
        code < 128,
    ensures
        result as u32 == code,
        result == code as char,
{
    let byte: u8 = code as u8;
    byte as char
}

/// Days from the identifier epoch to a Julian day, or 0 before the epoch.
pub fn days_from_julian_day(julian_day: i32) -> (result: u64)
    ensures
        result == (if julian_day >= EPOCH_JULIAN_DAY {
            julian_day - EPOCH_JULIAN_DAY
        } else {
            0
        }),
{
    if julian_day >= EPOCH_JULIAN_DAY {
        (julian_day - EPOCH_JULIAN_DAY) as u64
    } else {
        0
    }
}

/// Days from the identifier epoch to a Julian day, or 0 before the epoch.
pub open spec fn days_from_julian_spec(julian_day: int) -> int {
    if julian_day >= EPOCH_JULIAN_DAY {
        julian_day - EPOCH_JULIAN_DAY
    } else {
        0
    }
}

/// Whole days from the identifier epoch to the date of `timestamp`, or 0 before it:
/// the date is some day of a year within `time`'s range.
pub fn days_since_epoch(timestamp: OffsetDateTime) -> (result: u64)
    ensures
        exists|year: int, ordinal: int|
            -9999 <= year <= 9999 && 1 <= ordinal <= 366 && result == days_from_julian_spec(
                #[trigger] julian_day_spec(year, ordinal),
            ),
{
    let (year, ordinal) = ordinal_date(&timestamp);
    let result = days_from_julian_day(julian_day_of(year, ordinal));
    assert(result == days_from_julian_spec(julian_day_spec(year as int, ordinal as int)));
    result
}

proof fn lemma_base32_len(v: nat)
    ensures
        base32_spec(v).len() >= 1,
    decreases v,
{
    if v >= 32 {
        lemma_base32_len(v / 32);
    }
}

/// `32^k`.
pub open spec fn pow32(k: nat) -> nat
    decreases k,
{
    if k == 0 {
        1
    } else {
        32 * pow32((k - 1) as nat)
    }
}

proof fn lemma_base32_len_bound(v: nat, k: nat)
    requires
        k >= 1,
        v < pow32(k),
    ensures
        base32_spec(v).len() <= k,
    decreases k,
{
    if v >= 32 {
        assert(k >= 2) by {
            if k == 1 {
                assert(pow32(1) == 32 * pow32(0));
            }
        }
        let p = pow32((k - 1) as nat);
        assert(pow32(k) == 32 * p);
        assert(v / 32 < p) by (nonlinear_arith)
            requires
                v < 32 * p,
        ;
        lemma_base32_len_bound(v / 32, (k - 1) as nat);
    }
}

/// Encoding a `u64` takes at most thirteen base32 digits.
proof fn lemma_base32_u64_len(v: u64)
    ensures
        1 <= base32_spec(v as nat).len() <= 13,
{
    reveal_with_fuel(pow32, 14);
    assert(pow32(13) == 36893488147419103232nat);
    lemma_base32_len_bound(v as nat, 13);
    lemma_base32_len(v as nat);
}

/// Encode `value` in base32, most significant digit first.
pub fn encode_base32(value: u64) -> (result: String)
    ensures
        result@ == base32_spec(value as nat),
{
    if value == 0 {
        let mut s = String::new();
        push_char(&mut s, 'a');
        proof {
            assert(s@ =~= seq!['a']);
        }
        return s;
    }
    let ghost original = value as nat;
    let mut remaining = value;
    let mut digits: Vec<char> = Vec::new();
    while remaining > 0
        invariant
            original > 0,
            remaining > 0 ==> base32_spec(original) =~= base32_spec(remaining as nat)
                + digits@.reverse(),
            remaining == 0 ==> base32_spec(original) =~= digits@.reverse(),
        decreases remaining,
    {
        let digit = base32_char(remaining % 32);
        let ghost before = remaining as nat;
        digits.push(digit);
        remaining = remaining / 32;
        proof {
            if remaining > 0 {
                assert(base32_spec(before) =~= base32_spec(remaining as nat).push(digit));
            } else {
                assert(base32_spec(before) =~= seq![digit]);
            }
            assert(digits@.reverse() =~= seq![digit] + digits@.drop_last().reverse());
        }
    }
    let mut result = String::new();
    let mut i: usize = digits.len();
    while i > 0
        invariant
            i <= digits@.len(),
            result@ =~= digits@.reverse().take((digits@.len() - i) as int),
        decreases i,
    {
        i = i - 1;
        push_char(&mut result, digits[i]);
        proof {
            assert(digits@.reverse().take((digits@.len() - i) as int) =~= digits@.reverse().take(
                (digits@.len() - i - 1) as int,
            ).push(digits@[i as int]));
        }
    }
    proof {
        assert(digits@.reverse().take(digits@.len() as int) =~= digits@.reverse());
    }
    result
}

/// Whether `b` may occur in an identifier: `0` or a base32 character.
pub open spec fn is_id_byte(b: u8) -> bool {
    b == 48 || (97 <= b && b <= 122) || (50 <= b && b <= 55)
}

/// Whether `value` has the current identifier format: seven bytes, each `0`
/// or a lowercase base32 character.
pub open spec fn valid_id_spec(value: Seq<u8>) -> bool {
    value.len() == 7 && forall|i: int| 0 <= i < 7 ==> is_id_byte(#[trigger] value[i])
}

/// Whether `value` has the current identifier format.
pub fn is_valid(value: &str) -> (result: bool)
    ensures
        result == valid_id_spec(value.spec_bytes()),
{
    let bytes = value.as_bytes();
    if bytes.len() != 7 {
        return false;
    }
    let mut i: usize = 0;
    while i < 7
        invariant
            bytes@ == value.spec_bytes(),
            bytes@.len() == 7,
            i <= 7,
            forall|j: int| 0 <= j < i ==> is_id_byte(#[trigger] bytes@[j]),
        decreases 7 - i,
    {
        let b = bytes[i];
        if !(b == 48 || (97 <= b && b <= 122) || (50 <= b && b <= 55)) {
            return false;
        }
        i = i + 1;
    }
    true
}

/// `s` left-padded with `0` to at least seven characters.
pub open spec fn pad_to_seven(s: Seq<char>) -> Seq<char> {
    if s.len() >= 7 {
        s
    } else {
        Seq::new((7 - s.len()) as nat, |i: int| '0') + s
    }
}

/// The identifier for `days` since the epoch with the four random suffix
/// digits `suffix`.
pub open spec fn assembled_id(days: nat, suffix: Seq<u8>) -> Seq<char> {
    pad_to_seven(
        base32_spec(days) + Seq::new(4, |i: int| base32_digit(suffix[i] as nat)),
    )
}

/// Build an identifier from a day count and four base32 digits.
pub fn assemble(days: u64, suffix: [u8; 4]) -> (result: String)
    requires
        forall|i: int| 0 <= i < 4 ==> suffix@[i] < 32,
    ensures
        result@ == assembled_id(days as nat, suffix@),
{
    let encoded = encode_base32(days);
    let mut tail: Vec<char> = Vec::new();
    let mut i: usize = 0;
    while i < 4
        invariant
            i <= 4,
            forall|k: int| 0 <= k < 4 ==> suffix@[k] < 32,
            tail@ =~= Seq::new(i as nat, |k: int| base32_digit(suffix@[k] as nat)),
        decreases 4 - i,
    {
        tail.push(base32_char(suffix[i] as u64));
        i = i + 1;
    }
    let ghost unpadded = encoded@ + tail@;
    proof {
        lemma_base32_u64_len(days);
    }
    let length = encoded.as_str().unicode_len() + 4;
    let mut result = String::new();
    let mut padding: usize = 0;
    if length < 7 {
        while padding < 7 - length
            invariant
                length < 7,
                padding <= 7 - length,
                result@ =~= Seq::new(padding as nat, |k: int| '0'),
            decreases 7 - length - padding,
        {
            push_char(&mut result, '0');
            padding = padding + 1;
        }
    }
    let mut result = result;
    result.append(encoded.as_str());
    let mut j: usize = 0;
    while j < 4
        invariant
            j <= 4,
            tail@.len() == 4,
            result@ =~= Seq::new(padding as nat, |k: int| '0') + encoded@ + tail@.take(j as int),
        decreases 4 - j,
    {
        push_char(&mut result, tail[j]);
        j = j + 1;
        proof {
            assert(tail@.take(j as int) =~= tail@.take((j - 1) as int).push(tail@[j - 1]));
        }
    }
    proof {
        assert(tail@.take(4) =~= tail@);
        assert(unpadded.len() == length);
        if length >= 7 {
            assert(Seq::new(padding as nat, |k: int| '0') =~= Seq::<char>::empty());
        }
    }
    result
}

/// Whether `c` may occur in an identifier: `0` or a base32 character.
pub open spec fn is_id_char(c: char) -> bool {
    c == '0' || is_base32_char(c)
}

proof fn lemma_base32_digit(d: nat)
    requires
        d < 32,
    ensures
        is_base32_char(base32_digit(d)),
{
}

proof fn lemma_base32_chars(v: nat)
    ensures
        forall|i: int| 0 <= i < base32_spec(v).len() ==> is_base32_char(#[trigger] base32_spec(v)[i]),
    decreases v,
{
    lemma_base32_digit(v % 32);
    if v >= 32 {
        lemma_base32_chars(v / 32);
        let prefix = base32_spec(v / 32);
        assert(base32_spec(v) == prefix.push(base32_digit(v % 32)));
        assert forall|i: int| 0 <= i < base32_spec(v).len() implies is_base32_char(
            #[trigger] base32_spec(v)[i],
        ) by {
            if i < prefix.len() {
                assert(base32_spec(v)[i] == prefix[i]);
            }
        }
    } else {
        assert(v % 32 == v);
    }
}

/// Identifiers assembled from fewer than 32768 days (dates before 2078) and
/// four base32 digits have the current identifier format.
pub proof fn lemma_assembled_ids_are_valid(id: &str, days: nat, suffix: Seq<u8>)
    requires
        days < 32768,
        suffix.len() == 4,
        forall|i: int| 0 <= i < 4 ==> suffix[i] < 32,
        id@ == assembled_id(days, suffix),
    ensures
        valid_id_spec(id.spec_bytes()),
{
    reveal_with_fuel(pow32, 4);
    lemma_base32_len_bound(days, 3);
    lemma_base32_len(days);
    lemma_base32_chars(days);
    let unpadded = base32_spec(days) + Seq::new(4, |i: int| base32_digit(suffix[i] as nat));
    assert forall|i: int| 0 <= i < id@.len() implies is_id_char(#[trigger] id@[i]) by {
        if unpadded.len() < 7 {
            if i >= 7 - unpadded.len() {
                assert(id@[i] == unpadded[i - (7 - unpadded.len())]);
            }
        }
    }
    assert(vstd::string::is_ascii(id));
    vstd::string::is_ascii_spec_bytes(id);
    assert(id@.len() == 7);
    assert forall|i: int| 0 <= i < 7 implies is_id_byte(#[trigger] id.spec_bytes()[i]) by {
        assert(is_id_char(id@[i]));
    }
}

/// A random index into the base32 alphabet.
#[verifier::external_body]
fn random_digit() -> (result: u8)
    ensures
        result < 32,
{
    rand::rng().random_range(0..32u8)
}

/// Generate a fresh identifier for a note created at `timestamp`.
pub fn generate(timestamp: OffsetDateTime) -> (result: String)
    ensures
        exists|days: nat, suffix: Seq<u8>|
            suffix.len() == 4 && (forall|i: int| 0 <= i < 4 ==> suffix[i] < 32) && result@
                == assembled_id(days, suffix),
{
    let days = days_since_epoch(timestamp);
    let suffix: [u8; 4] = [random_digit(), random_digit(), random_digit(), random_digit()];
    let result = assemble(days, suffix);
    proof {
        assert(suffix@.len() == 4);
    }
    result
}

} // verus!
