//! RFC 3339 timestamps with explicit numeric offsets.

use vstd::prelude::*;

use crate::text::{chars_of, ends_with_str, push_char, string_range};
use time::OffsetDateTime;

verus! {

#[verifier::external_type_specification]
#[verifier::external_body]
pub struct ExOffsetDateTime(OffsetDateTime);

#[verifier::external_type_specification]
#[verifier::external_body]
pub struct ExFormatError(time::error::Format);

#[verifier::external_type_specification]
#[verifier::external_body]
pub struct ExIndeterminateOffset(time::error::IndeterminateOffset);

/// Why a timestamp could not be produced.
#[derive(Debug)]
pub enum TimestampError {
    /// The system time zone offset is unavailable.
    LocalOffset(time::error::IndeterminateOffset),
    /// Formatting failed.
    Format(time::error::Format),
}

/// `time`'s ordinal date of `instant` in its own offset
/// (`OffsetDateTime::to_ordinal_date`): the year, within the ±9999 range of
/// `time`'s dates, and the day of that year, from 1 to 366.
#[verifier::external_body]
pub(crate) fn ordinal_date(instant: &OffsetDateTime) -> (result: (i32, u16))
    ensures
        -9999 <= result.0 <= 9999,
        1 <= result.1 <= 366,
{
    instant.to_ordinal_date()
}

/// The Julian day number of day `ordinal` of `year`, by the computation of
/// `time::Date::to_julian_day`.
pub open spec fn julian_day_spec(year: int, ordinal: int) -> int {
    let adj = year + 999_999;
    let century = adj / 100;
    (1461 * adj) / 4 - century + century / 4 + ordinal - 363_521_075
}

/// The Julian day number of day `ordinal` of `year`.
pub fn julian_day_of(year: i32, ordinal: u16) -> (result: i32)
    requires
        -9999 <= year <= 9999,
        1 <= ordinal <= 366,
    ensures
        result == julian_day_spec(year as int, ordinal as int),
{
    let adj: i64 = year as i64 + 999_999;
    let century: i64 = adj / 100;
    assert(989_999 <= adj <= 1_009_998);
    assert(1461 * 989_999 <= 1461 * adj <= 1461 * 1_009_998) by (nonlinear_arith)
        requires
            989_999 <= adj <= 1_009_998,
    ;
    let days: i64 = 1461 * adj / 4 - century + century / 4 + ordinal as i64 - 363_521_075;
    days as i32
}

/// An instant as `time` holds it, in plain values: seconds since the Unix
/// epoch, the nanosecond within that second, and the offset from UTC in
/// seconds at which it is read.
#[derive(Clone, Copy, Debug, PartialEq, Eq)]
pub struct Instant {
    pub unix_seconds: i64,
    pub nanosecond: u32,
    pub offset_seconds: i32,
}

/// Local time, in seconds since the Unix epoch, of -9999-01-01 00:00:00.
pub const MIN_LOCAL_SECONDS: i64 = -377705203200;

/// Local time, in seconds since the Unix epoch, of 9999-12-31 23:59:59.
pub const MAX_LOCAL_SECONDS: i64 = 253402300799;

impl Instant {
    /// Whether `time` can hold the instant: a nanosecond below one second, an
    /// offset within ±25:59:59, and a local date within years ±9999.
    pub open spec fn wf(self) -> bool {
        &&& self.nanosecond < 1_000_000_000
        &&& -93599 <= self.offset_seconds <= 93599
        &&& MIN_LOCAL_SECONDS <= self.unix_seconds + self.offset_seconds <= MAX_LOCAL_SECONDS
    }

    /// The day of the local date, counted from 1970-01-01.
    pub open spec fn local_days(self) -> int {
        (self.unix_seconds + self.offset_seconds) / 86400
    }
}

/// The proleptic Gregorian date of day `days` counted from 1970-01-01, as
/// the steps of the days-to-civil computation: the 400-year era, the day of
/// the era, the year of the era, the day of the year from March, and the
/// month from March.
pub open spec fn civil_era(days: int) -> int {
    (days + 719468) / 146097
}

pub open spec fn civil_day_of_era(days: int) -> int {
    days + 719468 - civil_era(days) * 146097
}

pub open spec fn civil_year_of_era(days: int) -> int {
    let doe = civil_day_of_era(days);
    (doe - doe / 1460 + doe / 36524 - doe / 146096) / 365
}

pub open spec fn civil_day_of_year(days: int) -> int {
    let yoe = civil_year_of_era(days);
    civil_day_of_era(days) - (365 * yoe + yoe / 4 - yoe / 100)
}

pub open spec fn civil_month_index(days: int) -> int {
    (5 * civil_day_of_year(days) + 2) / 153
}

/// The day of the month of day `days`.
pub open spec fn civil_day(days: int) -> int {
    civil_day_of_year(days) - (153 * civil_month_index(days) + 2) / 5 + 1
}

/// The month, 1 to 12, of day `days`.
pub open spec fn civil_month(days: int) -> int {
    if civil_month_index(days) < 10 {
        civil_month_index(days) + 3
    } else {
        civil_month_index(days) - 9
    }
}

/// The year of day `days`.
pub open spec fn civil_year(days: int) -> int {
    civil_year_of_era(days) + civil_era(days) * 400 + if civil_month(days) <= 2 {
        1int
    } else {
        0int
    }
}

/// The instant an `OffsetDateTime` stands for. `time` keeps the local date
/// within its range and the offset within ±25:59:59.
#[verifier::external_body]
pub fn instant_of(value: OffsetDateTime) -> (result: Instant)
    ensures
        result.wf(),
{
    Instant {
        unix_seconds: value.unix_timestamp(),
        nanosecond: value.nanosecond(),
        offset_seconds: value.offset().whole_seconds(),
    }
}

/// `time`'s calendar date of `instant` in its own offset (`year`, `month`
/// and `day` of `OffsetDateTime`): the proleptic Gregorian date of its local
/// day.
#[verifier::external_body]
pub fn calendar_date(instant: &Instant) -> (result: (i32, u8, u8))
    requires
        instant.wf(),
    ensures
        result.0 == civil_year(instant.local_days()),
        result.1 == civil_month(instant.local_days()),
        result.2 == civil_day(instant.local_days()),
        -9999 <= result.0 <= 9999,
        1 <= result.1 <= 12,
        1 <= result.2 <= 31,
{
    let value = OffsetDateTime::from_unix_timestamp(instant.unix_seconds + instant.offset_seconds as i64)
        .unwrap()
        .replace_nanosecond(instant.nanosecond)
        .unwrap()
        .replace_offset(time::UtcOffset::from_whole_seconds(instant.offset_seconds).unwrap());
    (value.year(), u8::from(value.month()), value.day())
}

/// The text `time` writes for an instant in RFC 3339 (`OffsetDateTime::format`
/// with `Rfc3339`), which writes a zero offset as `Z`.
pub uninterp spec fn rfc3339_text(unix_seconds: i64, nanosecond: u32, offset_seconds: i32) -> Seq<char>;

/// Whether `time` can write an instant in RFC 3339: its local year is in
/// 0..=9999 and its offset is less than a day and a whole number of minutes.
pub open spec fn rfc3339_writable(instant: Instant) -> bool {
    &&& 0 <= civil_year(instant.local_days()) <= 9999
    &&& -86400 < instant.offset_seconds < 86400
    &&& instant.offset_seconds % 60 == 0
}

/// RFC 3339 rendering of `instant` by `time` (`OffsetDateTime::format` with
/// `Rfc3339`). It fails exactly when the local year is outside 0..=9999, the
/// offset has 24 hours or more, or the offset has seconds.
#[verifier::external_body]
fn format_rfc3339(instant: &Instant) -> (result: Result<String, time::error::Format>)
    requires
        instant.wf(),
    ensures
        result is Ok <==> rfc3339_writable(*instant),
        result matches Ok(text) ==> text@ == rfc3339_text(
            instant.unix_seconds,
            instant.nanosecond,
            instant.offset_seconds,
        ),
{
    OffsetDateTime::from_unix_timestamp(instant.unix_seconds + instant.offset_seconds as i64)
        .unwrap()
        .replace_nanosecond(instant.nanosecond)
        .unwrap()
        .replace_offset(time::UtcOffset::from_whole_seconds(instant.offset_seconds).unwrap())
        .format(&time::format_description::well_known::Rfc3339)
}

/// `formatted` with a trailing `Z` replaced by `+00:00`.
pub open spec fn numeric_offset_spec(formatted: Seq<char>) -> Seq<char> {
    if formatted.len() > 0 && formatted.last() == 'Z' {
        formatted.drop_last() + seq!['+', '0', '0', ':', '0', '0']
    } else {
        formatted
    }
}

/// Rewrite a UTC designator `Z` at the end of an RFC 3339 timestamp as the
/// numeric offset `+00:00`; any other text is returned unchanged.
pub fn with_numeric_offset(formatted: String) -> (result: String)
    ensures
        result@ == numeric_offset_spec(formatted@),
{
    let chars = chars_of(formatted.as_str());
    if chars.len() > 0 && chars[chars.len() - 1] == 'Z' {
        let mut result = string_range(chars.as_slice(), 0, chars.len() - 1);
        push_char(&mut result, '+');
        push_char(&mut result, '0');
        push_char(&mut result, '0');
        push_char(&mut result, ':');
        push_char(&mut result, '0');
        push_char(&mut result, '0');
        proof {
            assert(result@ =~= numeric_offset_spec(formatted@));
        }
        result
    } else {
        formatted
    }
}

/// Format an RFC 3339 timestamp with an explicit numeric UTC offset.
pub fn format(instant: Instant) -> (result: Result<String, time::error::Format>)
    requires
        instant.wf(),
    ensures
        result is Ok <==> rfc3339_writable(instant),
        result matches Ok(text) ==> text@ == numeric_offset_spec(
            rfc3339_text(instant.unix_seconds, instant.nanosecond, instant.offset_seconds),
        ),
{
    match format_rfc3339(&instant) {
        Ok(formatted) => {
            let result = with_numeric_offset(formatted);
            Ok(result)
        },
        Err(error) => Err(error),
    }
}

} // verus!
