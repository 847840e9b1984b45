use chrono::{Datelike, NaiveDate};
use vstd::prelude::*;

verus! {

/// Earliest year that a date of the calendar may carry.
pub const MIN_YEAR: i32 = -262143;

/// Latest year that a date of the calendar may carry.
pub const MAX_YEAR: i32 = 262142;

/// Leap years of the proleptic Gregorian calendar.
pub open spec fn is_leap_year(y: int) -> bool {
    (y % 4 == 0 && y % 100 != 0) || y % 400 == 0
}

pub open spec fn days_in_month(y: int, m: int) -> int {
    if m == 2 {
        if is_leap_year(y) {
            29
        } else {
            28
        }
    } else if m == 4 || m == 6 || m == 9 || m == 11 {
        30
    } else {
        31
    }
}

/// The day exists in the proleptic Gregorian calendar, within the supported years.
pub open spec fn is_calendar_date(y: int, m: int, d: int) -> bool {
    &&& MIN_YEAR <= y <= MAX_YEAR
    &&& 1 <= m <= 12
    &&& 1 <= d <= days_in_month(y, m)
}

/// A calendar day in UTC.
#[derive(Clone, Copy, Debug, PartialEq, Eq, Structural)]
pub struct CalendarDate {
    pub year: i32,
    pub month: u32,
    pub day: u32,
}

impl CalendarDate {
    pub open spec fn wf(self) -> bool {
        is_calendar_date(self.year as int, self.month as int, self.day as int)
    }

    /// The last day that the calendar holds.
    pub open spec fn is_last(self) -> bool {
        self.year == MAX_YEAR && self.month == 12 && self.day == 31
    }

    /// A number that grows with the order of the days: every month is given
    /// room for 31 days, so it is not a count of days.
    pub open spec fn key(self) -> int {
        self.year * 372 + self.month * 31 + self.day
    }

    /// The day after this one.
    pub open spec fn next(self) -> CalendarDate {
        if (self.day as int) < days_in_month(self.year as int, self.month as int) {
            CalendarDate { year: self.year, month: self.month, day: (self.day + 1) as u32 }
        } else if self.month < 12 {
            CalendarDate { year: self.year, month: (self.month + 1) as u32, day: 1 }
        } else {
            CalendarDate { year: (self.year + 1) as i32, month: 1, day: 1 }
        }
    }

    /// Whether the fields name a day of the calendar.
    pub fn is_valid(&self) -> (r: bool)
        ensures
            r == self.wf(),
    {
        date_exists(self.year, self.month, self.day)
    }

    /// The day after this one.
    pub fn next_day(&self) -> (r: CalendarDate)
        requires
            self.wf(),
            !self.is_last(),
        ensures
            r == self.next(),
            r.wf(),
            r.key() > self.key(),
    {
        let (year, month, day) = following_date(self.year, self.month, self.day);
        let r = CalendarDate { year, month, day };
        proof {
            lemma_next_day(*self);
        }
        r
    }

    /// Whether this day comes before `other`.
    pub fn is_before(&self, other: &CalendarDate) -> (r: bool)
        requires
            self.wf(),
            other.wf(),
        ensures
            r == (self.key() < other.key()),
    {
        if self.year != other.year {
            self.year < other.year
        } else if self.month != other.month {
            self.month < other.month
        } else {
            self.day < other.day
        }
    }
}

/// The day after a day of the calendar is one too, unless it is the last, and
/// its key is greater.
pub proof fn lemma_next_day(d: CalendarDate)
    requires
        d.wf(),
    ensures
        d.next().key() > d.key(),
        !d.is_last() ==> d.next().wf(),
{
}

/// Relies on chrono's `NaiveDate::from_ymd_opt`: it returns a date exactly for
/// the days of the proleptic Gregorian calendar from `NaiveDate::MIN`
/// (1 January of `MIN_YEAR`) to `NaiveDate::MAX` (31 December of `MAX_YEAR`).
#[verifier::external_body]
fn date_exists(year: i32, month: u32, day: u32) -> (r: bool)
    ensures
        r == is_calendar_date(year as int, month as int, day as int),
{
    NaiveDate::from_ymd_opt(year, month, day).is_some()
}

/// Relies on chrono's `NaiveDate::succ_opt`, applied to the date that
/// `NaiveDate::from_ymd_opt` builds from the fields: the next calendar day,
/// present for every date but `NaiveDate::MAX`.
#[verifier::external_body]
fn following_date(year: i32, month: u32, day: u32) -> (r: (i32, u32, u32))
    requires
        is_calendar_date(year as int, month as int, day as int),
        !(year == MAX_YEAR && month == 12 && day == 31),
    ensures
        (CalendarDate { year: r.0, month: r.1, day: r.2 }) == (CalendarDate {
            year,
            month,
            day,
        }).next(),
{
    let date = NaiveDate::from_ymd_opt(year, month, day).unwrap();
    let next = date.succ_opt().unwrap();
    (next.year(), next.month(), next.day())
}

} // verus!
