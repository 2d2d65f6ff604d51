//! Calendar dates, their chronological order, and the date parsers of chrono.
use chrono::Datelike;
use vstd::prelude::*;

verus! {

/// A calendar date of the proleptic Gregorian calendar.
#[derive(Clone, Copy, Debug, PartialEq, Eq, Structural)]
pub struct Date {
    pub year: i32,
    pub month: u32,
    pub day: u32,
}

/// The outcome of chrono's `NaiveDate::parse_from_str(s, "%Y-%m-%d")`, as (year, month, day).
pub uninterp spec fn iso_date_of(s: Seq<char>) -> Option<(int, int, int)>;

/// The outcome of chrono's `DateTime::parse_from_rfc3339(s)`, date part, as (year, month, day).
pub uninterp spec fn rfc3339_date_of(s: Seq<char>) -> Option<(int, int, int)>;

/// The date `days` days after 1970-01-01 in chrono's calendar, as (year, month, day).
pub uninterp spec fn date_after_unix_epoch(days: int) -> Option<(int, int, int)>;

impl Date {
    /// Month and day are in their calendar ranges.
    pub open spec fn wf(self) -> bool {
        1 <= self.month <= 12 && 1 <= self.day <= 31
    }

    /// The date as a (year, month, day) triple.
    pub open spec fn ymd(self) -> (int, int, int) {
        (self.year as int, self.month as int, self.day as int)
    }

    /// Chronological order: `self` is on or before `other`.
    pub open spec fn spec_le(self, other: Date) -> bool {
        self.year < other.year || (self.year == other.year && (self.month < other.month || (
        self.month == other.month && self.day <= other.day)))
    }

    /// Whether `self` is on or before `other`.
    pub fn on_or_before(&self, other: &Date) -> (r: bool)
        ensures
            r == self.spec_le(*other),
    {
        self.year < other.year || (self.year == other.year && (self.month < other.month || (
        self.month == other.month && self.day <= other.day)))
    }
}

/// Whether an optional (year, month, day) triple is what an optional date holds.
pub open spec fn date_matches(r: Option<Date>, t: Option<(int, int, int)>) -> bool {
    match r {
        Some(d) => d.wf() && t == Some(d.ymd()),
        None => t is None,
    }
}

/// Relies on chrono's `NaiveDate::parse_from_str` with the format `%Y-%m-%d`:
/// its result, and that a chrono date has month 1..=12 and day 1..=31.
#[verifier::external_body]
pub(crate) fn parse_iso_date(s: &str) -> (r: Option<Date>)
    ensures
        date_matches(r, iso_date_of(s@)),
{
    match chrono::NaiveDate::parse_from_str(s, "%Y-%m-%d") {
        Ok(d) => Some(Date { year: d.year(), month: d.month(), day: d.day() }),
        Err(_) => None,
    }
}

/// Relies on chrono's `DateTime::parse_from_rfc3339`: the date part of the
/// timestamp as written (`date_naive`), and that a chrono date has month
/// 1..=12 and day 1..=31.
#[verifier::external_body]
pub(crate) fn parse_rfc3339_date(s: &str) -> (r: Option<Date>)
    ensures
        date_matches(r, rfc3339_date_of(s@)),
{
    match chrono::DateTime::parse_from_rfc3339(s) {
        Ok(t) => {
            let d = t.date_naive();
            Some(Date { year: d.year(), month: d.month(), day: d.day() })
        },
        Err(_) => None,
    }
}

/// Relies on chrono's `NaiveDate::from_epoch_days`: the date `days` days
/// after 1970-01-01, or `None` outside chrono's range of dates.
#[verifier::external_body]
pub(crate) fn unix_days_to_date(days: i32) -> (r: Option<Date>)
    ensures
        date_matches(r, date_after_unix_epoch(days as int)),
{
    match chrono::NaiveDate::from_epoch_days(days) {
        Some(d) => Some(Date { year: d.year(), month: d.month(), day: d.day() }),
        None => None,
    }
}

} // verus!
