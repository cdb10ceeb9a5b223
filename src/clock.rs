//! UTC instants as whole seconds since 1970-01-01 00:00:00 UTC, read and
//! written by chrono.
use chrono::Datelike;
use vstd::prelude::*;

verus! {

/// The earliest instant that chrono represents: -262143-01-01 00:00:00 UTC.
pub const MIN_INSTANT: i64 = -8334601315200;

/// The latest instant that chrono represents: +262142-12-31 23:59:59 UTC.
pub const MAX_INSTANT: i64 = 8210266876799;

pub const SECONDS_PER_DAY: i64 = 86400;

/// An instant that chrono can represent.
pub open spec fn in_range(t: int) -> bool {
    MIN_INSTANT <= t <= MAX_INSTANT
}

/// The instant that chrono reads from an RFC 3339 text, if it reads one.
pub uninterp spec fn utc_instant(text: Seq<char>) -> Option<i64>;

/// chrono's display of an instant, as in "2019-08-05 12:30:00 UTC".
pub uninterp spec fn utc_text(t: int) -> Seq<char>;

/// chrono's display of the calendar date of an instant, as in "2019-08-05".
pub uninterp spec fn date_text(t: int) -> Seq<char>;

/// Day of the week of an instant, Monday = 1 ... Sunday = 7
/// (1970-01-01 was a Thursday).
pub open spec fn weekday(t: int) -> int {
    (t / 86400 + 3) % 7 + 1
}

/// Relies on chrono's `FromStr` for `DateTime<Utc>` (relaxed RFC 3339) and on
/// `DateTime::timestamp`; every `DateTime<Utc>` lies between
/// `DateTime::<Utc>::MIN_UTC` and `MAX_UTC`.
#[verifier::external_body]
pub fn parse_instant(text: &str) -> (r: Option<i64>)
    ensures
        r == utc_instant(text@),
        r matches Some(t) ==> in_range(t as int),
{
    text.parse::<chrono::DateTime<chrono::Utc>>().ok().map(|d| d.timestamp())
}

/// Relies on `DateTime::<Utc>::from_timestamp`, which succeeds on every
/// instant in range, and on the `Display` of `DateTime<Utc>`.
#[verifier::external_body]
pub fn instant_text(t: i64) -> (r: String)
    requires
        in_range(t as int),
    ensures
        r@ == utc_text(t as int),
{
    chrono::DateTime::<chrono::Utc>::from_timestamp(t, 0).expect("instant in range").to_string()
}

/// Relies on `DateTime::<Utc>::from_timestamp`, which succeeds on every
/// instant in range, and on the `Display` of `NaiveDate` (year-month-day).
#[verifier::external_body]
pub fn instant_date_text(t: i64) -> (r: String)
    requires
        in_range(t as int),
    ensures
        r@ == date_text(t as int),
{
    chrono::DateTime::<chrono::Utc>::from_timestamp(t, 0).expect("instant in range").date_naive().to_string()
}

/// Relies on `DateTime::<Utc>::from_timestamp`, which succeeds on every
/// instant in range, and on `Weekday::number_from_monday`.
#[verifier::external_body]
pub fn weekday_number(t: i64) -> (r: u32)
    requires
        in_range(t as int),
    ensures
        r == weekday(t as int),
{
    chrono::DateTime::<chrono::Utc>::from_timestamp(t, 0).expect("instant in range").weekday().number_from_monday()
}

} // verus!
