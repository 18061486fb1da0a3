//! Today.

use vstd::prelude::*;

use crate::config::DAY_SECONDS;

verus! {

/// `chrono::NaiveDate`: a day of the calendar.
#[verifier::external_type_specification]
#[verifier::external_body]
pub struct ExNaiveDate(chrono::NaiveDate);

/// `chrono::NaiveDateTime`: a day of the calendar and a time of day.
#[verifier::external_type_specification]
#[verifier::external_body]
pub struct ExNaiveDateTime(chrono::NaiveDateTime);

/// The instants at which the clocks on the wall show a certain time, as seconds
/// since the epoch. Of two, either may be the earlier.
#[derive(Debug, Clone, Copy, PartialEq, Eq, Structural)]
pub enum LocalInstants {
    Single(i64),
    /// The clocks are set back: they show it twice.
    Ambiguous(i64, i64),
    /// There is none: the clocks are set forward and never show it.
    Skipped,
}

/// `chrono::Local::now`, and the day of that moment by `DateTime::date_naive`:
/// today, where the machine is. Nothing can be said of the day.
#[verifier::external_body]
fn today() -> (r: chrono::NaiveDate) {
    chrono::Local::now().date_naive()
}

/// The midnight that a day starts with, as `chrono::NaiveDate::and_hms_opt` gives
/// it.
pub uninterp spec fn midnight_of(date: chrono::NaiveDate) -> chrono::NaiveDateTime;

/// The timestamp of a time in UTC, as `chrono::NaiveDateTime::and_utc` and
/// `DateTime::timestamp` give it.
pub uninterp spec fn utc_seconds(time: chrono::NaiveDateTime) -> i64;

/// `chrono::NaiveDate::and_hms_opt` at midnight.
///
/// Claimed: every day has a midnight, which is a function of the day, and in UTC
/// it lies a whole number of days from the epoch. Which number belongs to which
/// day is left unsaid.
#[verifier::external_body]
fn midnight(date: &chrono::NaiveDate) -> (r: Option<chrono::NaiveDateTime>)
    ensures
        r == Some(midnight_of(*date)),
        r matches Some(time) ==> utc_seconds(time) as int % DAY_SECONDS as int == 0,
{
    date.and_hms_opt(0, 0, 0)
}

/// The instants lie less than a day from the same time in UTC.
pub open spec fn near_utc(local: LocalInstants, utc: i64) -> bool {
    match local {
        LocalInstants::Single(t) => utc - DAY_SECONDS < t < utc + DAY_SECONDS,
        LocalInstants::Ambiguous(t, u) => {
            &&& utc - DAY_SECONDS < t < utc + DAY_SECONDS
            &&& utc - DAY_SECONDS < u < utc + DAY_SECONDS
        },
        LocalInstants::Skipped => true,
    }
}

/// `chrono::TimeZone::from_local_datetime` of the machine's time zone, with each
/// instant as its timestamp.
///
/// Claimed: a time zone is less than a day ahead of UTC or behind it. How many
/// instants there are, and which, is left unsaid: it depends on the time zone of
/// the machine.
#[verifier::external_body]
fn local_instants(time: &chrono::NaiveDateTime) -> (r: LocalInstants)
    ensures
        near_utc(r, utc_seconds(*time)),
{
    match chrono::TimeZone::from_local_datetime(&chrono::Local, time) {
        chrono::LocalResult::Single(dt) => LocalInstants::Single(dt.timestamp()),
        chrono::LocalResult::Ambiguous(a, b) => {
            LocalInstants::Ambiguous(a.timestamp(), b.timestamp())
        },
        chrono::LocalResult::None => LocalInstants::Skipped,
    }
}

/// `chrono::NaiveDateTime::and_utc`, and the timestamp of that instant by
/// `DateTime::timestamp`.
///
/// Claimed: the timestamp is a function of the time.
#[verifier::external_body]
fn utc_instant(time: &chrono::NaiveDateTime) -> (r: i64)
    ensures
        r == utc_seconds(*time),
{
    time.and_utc().timestamp()
}

/// The instant that a day starts at: the first that is given of those that the
/// clocks show midnight at, or midnight in UTC where they never do.
pub open spec fn start_of_day(local: LocalInstants, utc: i64) -> i64 {
    match local {
        LocalInstants::Single(t) => t,
        LocalInstants::Ambiguous(t, _) => t,
        LocalInstants::Skipped => utc,
    }
}

/// Picks the instant that a day starts at.
pub fn pick_start_of_day(local: LocalInstants, utc: i64) -> (r: i64)
    ensures
        r == start_of_day(local, utc),
{
    match local {
        LocalInstants::Single(t) => t,
        LocalInstants::Ambiguous(t, _) => t,
        LocalInstants::Skipped => utc,
    }
}

/// The day starts at this instant in some time zone: the one that is picked among
/// instants that the zone allows, given midnight of that day in UTC, a whole
/// number of days from the epoch.
pub open spec fn starts_day(date: chrono::NaiveDate, instant: i64) -> bool {
    let utc = utc_seconds(midnight_of(date));
    &&& utc as int % DAY_SECONDS as int == 0
    &&& exists|local: LocalInstants| #[trigger]
        near_utc(local, utc) && instant == start_of_day(local, utc)
}

/// The start of a day in the time zone of the machine, in seconds since the
/// epoch. Which time zone that is is left open.
pub fn start_of_date(date: &chrono::NaiveDate) -> (r: i64)
    ensures
        starts_day(*date, r),
        utc_seconds(midnight_of(*date)) - DAY_SECONDS < r < utc_seconds(midnight_of(*date))
            + DAY_SECONDS,
{
    match midnight(date) {
        Some(time) => {
            let local = local_instants(&time);
            let utc = utc_instant(&time);
            assert(near_utc(local, utc));
            pick_start_of_day(local, utc)
        },
        None => 0,
    }
}

/// The start of today, in seconds since the epoch. Which day it is depends on the
/// clock, and so is left open; whichever it is, the result is its start.
pub fn get_current_date_epoch_seconds() -> (r: i64)
    ensures
        exists|date: chrono::NaiveDate| #[trigger] starts_day(date, r),
{
    start_of_date(&today())
}

} // verus!
