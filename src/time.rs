use crate::calendar::CalendarDate;
use vstd::prelude::*;

verus! {

/// Why a time query was refused.
#[derive(Clone, Copy, Debug, PartialEq, Eq, Structural)]
pub enum QueryError {
    /// The start of a range does not come strictly before its end.
    InvalidRange,
    /// A bucket found under a day does not name an hour.
    MalformedBucketComponent,
}

/// A point in time given to the day, or to the hour when `hour` is set.
#[derive(Clone, Copy, Debug, PartialEq, Eq, Structural)]
pub struct FetchEntriesTime {
    pub year: i32,
    pub month: u32,
    pub day: u32,
    pub hour: Option<u32>,
}

impl FetchEntriesTime {
    pub open spec fn date(self) -> CalendarDate {
        CalendarDate { year: self.year, month: self.month, day: self.day }
    }

    pub open spec fn wf(self) -> bool {
        &&& self.date().wf()
        &&& (self.hour matches Some(h) ==> h < 24)
    }

    /// The hour that the point stands for when it is compared: a day without
    /// an hour counts from its start.
    pub open spec fn start_hour(self) -> int {
        match self.hour {
            Some(h) => h as int,
            None => 0,
        }
    }

    /// A number that grows with the order of the points in time.
    pub open spec fn instant(self) -> int {
        self.date().key() * 24 + self.start_hour()
    }

    /// The day of this point.
    pub fn to_date(&self) -> (r: CalendarDate)
        ensures
            r == self.date(),
    {
        CalendarDate { year: self.year, month: self.month, day: self.day }
    }

    /// The point at the given hour of a day.
    pub fn from_date(date: CalendarDate, hour: Option<u32>) -> (r: FetchEntriesTime)
        ensures
            r.date() == date,
            r.hour == hour,
    {
        FetchEntriesTime { year: date.year, month: date.month, day: date.day, hour }
    }

    /// Whether the fields name a day of the calendar and, if set, an hour of it.
    pub fn is_valid(&self) -> (r: bool)
        ensures
            r == self.wf(),
    {
        let hour_ok = match self.hour {
            Some(h) => h < 24,
            None => true,
        };
        hour_ok && self.to_date().is_valid()
    }

    /// Whether this point comes strictly before `other`.
    pub fn is_before(&self, other: &FetchEntriesTime) -> (r: bool)
        requires
            self.wf(),
            other.wf(),
        ensures
            r == (self.instant() < other.instant()),
    {
        let a = self.to_date();
        let b = other.to_date();
        if a.is_before(&b) {
            true
        } else if b.is_before(&a) {
            false
        } else {
            let ha: u32 = match self.hour {
                Some(h) => h,
                None => 0,
            };
            let hb: u32 = match other.hour {
                Some(h) => h,
                None => 0,
            };
            ha < hb
        }
    }
}

/// Accepts a range only when its start comes strictly before its end.
pub fn is_valid_date_range(start: FetchEntriesTime, end: FetchEntriesTime) -> (r: Result<
    (),
    QueryError,
>)
    requires
        start.wf(),
        end.wf(),
    ensures
        r is Ok <==> start.instant() < end.instant(),
        r is Err ==> r == Err::<(), QueryError>(QueryError::InvalidRange),
{
    if start.is_before(&end) {
        Ok(())
    } else {
        Err(QueryError::InvalidRange)
    }
}

} // verus!
