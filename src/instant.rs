use vstd::prelude::*;
use chrono::Datelike;

use crate::error::OrbitError;

verus! {

/// Seconds in one day.
pub const SECONDS_PER_DAY: i64 = 86_400;

/// Day number of 1970-01-01 when 0001-01-01 of the proleptic Gregorian
/// calendar is day 1.
pub const UNIX_EPOCH_DAY_NUMBER: i64 = 719_163;

/// 2000-01-01T00:00:00 UTC in seconds since 1970-01-01T00:00:00 UTC.
pub const REFERENCE_EPOCH_SECONDS: i64 = 946_684_800;

/// An instant in UTC, in whole seconds since 1970-01-01T00:00:00 UTC.
#[derive(Debug, Clone, Copy, PartialEq, Eq, Structural)]
pub struct Instant {
    pub seconds: i64,
}

/// The instant that a day number (0001-01-01 is day 1) denotes at midnight UTC.
pub open spec fn midnight_seconds(day: int) -> int {
    (day - UNIX_EPOCH_DAY_NUMBER) * SECONDS_PER_DAY
}

/// What the text denotes as a day number (0001-01-01 is day 1) when read as
/// year, month and day in the pattern `%Y-%m-%d`, or `None` where it is no
/// valid date so read. The reading is chrono's: it also admits a signed year,
/// a month or day of one digit, and whitespace before each number.
pub uninterp spec fn calendar_day_of(s: Seq<char>) -> Option<int>;

/// Relies on chrono's `NaiveDate::parse_from_str` with the format `%Y-%m-%d`,
/// the date read out through `Datelike::num_days_from_ce`; the result depends
/// on the text alone.
#[verifier::external_body]
fn parse_calendar_day(s: &str) -> (r: Result<i32, chrono::ParseError>)
    ensures
        r is Ok <==> calendar_day_of(s@) is Some,
        r matches Ok(n) ==> calendar_day_of(s@) == Some(n as int),
{
    chrono::NaiveDate::parse_from_str(s, "%Y-%m-%d").map(|d| d.num_days_from_ce())
}

/// chrono's parse error, carried as an opaque value until it is mapped to
/// this library's own error.
#[verifier::external_type_specification]
#[verifier::external_body]
pub struct ExParseError(chrono::ParseError);

impl Instant {
    /// The reference epoch of the orbital model, 2000-01-01T00:00:00 UTC.
    pub fn reference_epoch() -> (r: Instant)
        ensures
            r.seconds == REFERENCE_EPOCH_SECONDS,
    {
        Instant { seconds: REFERENCE_EPOCH_SECONDS }
    }

    /// Midnight UTC of the day with the given number, 0001-01-01 being day 1.
    pub fn from_day_number(day: i32) -> (r: Instant)
        ensures
            r.seconds == midnight_seconds(day as int),
    {
        let d: i64 = day as i64 - UNIX_EPOCH_DAY_NUMBER;
        Instant { seconds: d * SECONDS_PER_DAY }
    }
}

/// Reads a date selector: `now` is the instant `now` (seconds since
/// 1970-01-01T00:00:00 UTC, read from the clock by the caller), any other
/// text a calendar date `YYYY-MM-DD` at midnight UTC.
pub fn parse_date_str(date_str: String, now: i64) -> (r: Result<Instant, OrbitError>)
    ensures
        date_str@ == "now"@ ==> r == Ok::<Instant, OrbitError>(Instant { seconds: now }),
        date_str@ != "now"@ ==> match calendar_day_of(date_str@) {
            Some(day) => r matches Ok(i) && i.seconds == midnight_seconds(day),
            None => r == Err::<Instant, OrbitError>(OrbitError::DateParseError(date_str)),
        },
{
    let now_word = String::from_str("now");
    if date_str == now_word {
        return Ok(Instant { seconds: now });
    }
    match parse_calendar_day(date_str.as_str()) {
        Ok(day) => Ok(Instant::from_day_number(day)),
        Err(_) => Err(OrbitError::DateParseError(date_str)),
    }
}

} // verus!
