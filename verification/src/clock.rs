//! The current time and date, read with the `chrono` crate.

use vstd::prelude::*;
use chrono::{Datelike, Utc};
use crate::dates::is_calendar_date;
use crate::session::Clock;

verus! {

/// `nanos` nanoseconds since the epoch fall within second `seconds`.
pub open spec fn within_second(seconds: int, nanos: int) -> bool {
    seconds * 1_000_000_000 <= nanos < seconds * 1_000_000_000 + 1_000_000_000
}

/// A reading of nanoseconds agrees with one of seconds: it falls within that second, or it
/// is 0 where the nanoseconds since the epoch at the end of that second overflow an `i64`.
pub open spec fn nanos_agree(seconds: int, nanos: int) -> bool {
    within_second(seconds, nanos) || (nanos == 0 && seconds * 1_000_000_000 + 1_000_000_000
        > i64::MAX)
}

/// Largest Unix timestamp, in seconds, that the clock can read: chrono's last date (the end
/// of the year 262142) lies before it.
pub const LATEST_SECONDS: i64 = 10_000_000_000_000;

/// Reads the clock with `chrono::Utc::now`, as its Unix timestamp in seconds
/// (`DateTime::timestamp`) and in nanoseconds (`DateTime::timestamp_nanos_opt`, `None` where
/// that overflows an `i64`). Trusted: `Utc::now` only returns times from the Unix epoch on
/// (it panics on a system clock set before it, and on one beyond chrono's range of dates,
/// which ends with the year 262142), so the seconds lie between 0 and `LATEST_SECONDS`.
/// The nanoseconds are the seconds times 10^9 plus the nanoseconds within the second
/// (`Utc::now` builds the time from a `Duration`, whose sub-second part is under 10^9, and
/// `timestamp_nanos_opt` adds them with checked arithmetic, so it gives `None` exactly where
/// that sum leaves the `i64` range). What the clock reads is not stated.
#[verifier::external_body]
fn read_utc_clock() -> (r: (i64, Option<i64>))
    ensures
        0 <= r.0 <= LATEST_SECONDS,
        match r.1 {
            Some(n) => within_second(r.0 as int, n as int),
            None => r.0 * 1_000_000_000 + 1_000_000_000 > i64::MAX,
        },
{
    let now = Utc::now();
    (now.timestamp(), now.timestamp_nanos_opt())
}

/// Reads today's date in UTC with `chrono::Utc::now().date_naive()`, as its year, month
/// and day (`Datelike`). Trusted: a `NaiveDate` is always a day of the calendar within
/// chrono's range of years, which is the range `is_calendar_date` admits. Which day it is
/// is not stated.
#[verifier::external_body]
pub(crate) fn read_utc_date() -> (r: (i32, u32, u32))
    ensures
        is_calendar_date(r.0 as int, r.1 as int, r.2 as int),
{
    let today = Utc::now().date_naive();
    (today.year(), today.month(), today.day())
}

/// The current time: seconds since the Unix epoch, and nanoseconds since it (0 where they
/// do not fit an `i64`).
pub fn now() -> (c: Clock)
    ensures
        0 <= c.seconds <= LATEST_SECONDS,
        nanos_agree(c.seconds as int, c.nanos as int),
{
    let (seconds, nanos) = read_utc_clock();
    let nanos = match nanos {
        Some(n) => n,
        None => 0,
    };
    Clock { seconds, nanos }
}

} // verus!
