use crate::calendar::CalendarDate;
use crate::time::{is_valid_date_range, FetchEntriesTime, QueryError};
use vstd::prelude::*;

verus! {

/// One lookup in the time index: a whole day, or one hour of a day.
#[derive(Clone, Copy, Debug, PartialEq, Eq, Structural)]
pub enum TimeBucket {
    Day(CalendarDate),
    Hour(CalendarDate, u32),
}

/// The days from `from` up to, but not including, `to`.
pub open spec fn days_until(from: CalendarDate, to: CalendarDate) -> Seq<CalendarDate>
    decreases if from.key() < to.key() {
        to.key() - from.key()
    } else {
        0
    },
{
    if !from.wf() || from.key() >= to.key() {
        Seq::empty()
    } else {
        proof {
            crate::calendar::lemma_next_day(from);
        }
        seq![from] + days_until(from.next(), to)
    }
}

/// A whole-day lookup for each of the days.
pub open spec fn day_buckets(days: Seq<CalendarDate>) -> Seq<TimeBucket> {
    days.map_values(|d: CalendarDate| TimeBucket::Day(d))
}

/// An hour lookup for each hour of `date` from `first` to `last`, both included.
pub open spec fn hour_buckets(date: CalendarDate, first: int, last: int) -> Seq<TimeBucket> {
    Seq::new((last - first + 1) as nat, |i: int| TimeBucket::Hour(date, (first + i) as u32))
}

/// The lookups that cover the range from `start` to `end`, in the order in
/// which they are made. A day that the range holds only in part is read hour
/// by hour; every other day is read whole.
pub open spec fn range_plan(start: FetchEntriesTime, end: FetchEntriesTime) -> Seq<TimeBucket> {
    match (start.hour, end.hour) {
        (None, None) => day_buckets(days_until(start.date(), end.date())).push(
            TimeBucket::Day(end.date()),
        ),
        (None, Some(eh)) => day_buckets(days_until(start.date(), end.date())) + hour_buckets(
            end.date(),
            0,
            eh as int,
        ),
        (Some(sh), None) => hour_buckets(start.date(), sh as int, 23) + day_buckets(
            days_until(start.date().next(), end.date()),
        ).push(TimeBucket::Day(end.date())),
        (Some(sh), Some(eh)) => if start.date() == end.date() {
            hour_buckets(start.date(), sh as int, eh as int)
        } else {
            hour_buckets(start.date(), sh as int, 23) + day_buckets(
                days_until(start.date().next(), end.date()),
            ) + hour_buckets(end.date(), 0, eh as int)
        },
    }
}

/// The lookup reads the given hour of the given day.
pub open spec fn covers(bucket: TimeBucket, date: CalendarDate, hour: int) -> bool {
    match bucket {
        TimeBucket::Day(d) => d == date && 0 <= hour < 24,
        TimeBucket::Hour(d, h) => d == date && h == hour,
    }
}

/// The last hour that a range ending at `end` holds: the end hour, or the last
/// hour of the end day when the end gives no hour.
pub open spec fn last_instant(end: FetchEntriesTime) -> int {
    match end.hour {
        Some(h) => end.date().key() * 24 + h,
        None => end.date().key() * 24 + 23,
    }
}

/// The hour lies in the range from `start` to `end`.
pub open spec fn in_range(start: FetchEntriesTime, end: FetchEntriesTime, date: CalendarDate, hour: int) -> bool {
    &&& date.wf()
    &&& 0 <= hour < 24
    &&& start.instant() <= date.key() * 24 + hour <= last_instant(end)
}

/// The lookup that answers a query for one point in time.
pub open spec fn time_bucket(time: FetchEntriesTime) -> TimeBucket {
    match time.hour {
        None => TimeBucket::Day(time.date()),
        Some(h) => TimeBucket::Hour(time.date(), h),
    }
}

proof fn lemma_days_until_step(from: CalendarDate, to: CalendarDate)
    requires
        from.wf(),
        from.key() < to.key(),
    ensures
        day_buckets(days_until(from, to)) == seq![TimeBucket::Day(from)] + day_buckets(
            days_until(from.next(), to),
        ),
{
    let rest = days_until(from.next(), to);
    assert(days_until(from, to) == seq![from] + rest);
    assert(day_buckets(seq![from] + rest) =~= seq![TimeBucket::Day(from)] + day_buckets(rest));
}

/// Two days of the calendar with the same key are the same day.
proof fn lemma_key_injective(a: CalendarDate, b: CalendarDate)
    requires
        a.wf(),
        b.wf(),
        a.key() == b.key(),
    ensures
        a == b,
{
}

/// No day of the calendar lies strictly between a day and the next.
proof fn lemma_next_is_adjacent(a: CalendarDate, b: CalendarDate)
    requires
        a.wf(),
        b.wf(),
        a.key() < b.key(),
    ensures
        a.next().key() <= b.key(),
{
}

/// The days from `from` until `to` are days of the calendar between the two.
proof fn lemma_days_until_bounds(from: CalendarDate, to: CalendarDate)
    ensures
        forall|i: int|
            0 <= i < days_until(from, to).len() ==> {
                let d = #[trigger] days_until(from, to)[i];
                &&& d.wf()
                &&& from.key() <= d.key() < to.key()
            },
    decreases
            if from.key() < to.key() {
                to.key() - from.key()
            } else {
                0
            },
{
    if from.wf() && from.key() < to.key() {
        crate::calendar::lemma_next_day(from);
        lemma_days_until_bounds(from.next(), to);
        let rest = days_until(from.next(), to);
        assert forall|i: int| 0 <= i < days_until(from, to).len() implies {
            let d = #[trigger] days_until(from, to)[i];
            &&& d.wf()
            &&& from.key() <= d.key() < to.key()
        } by {
            if i > 0 {
                assert(days_until(from, to)[i] == rest[i - 1]);
            }
        }
    }
}

/// The days from `from` until `to` start at `from`, go on one day at a time,
/// and stop on the day before `to`.
proof fn lemma_days_until_chain(from: CalendarDate, to: CalendarDate)
    requires
        from.wf(),
        to.wf(),
        from.key() < to.key(),
    ensures
        days_until(from, to).len() >= 1,
        days_until(from, to)[0] == from,
        days_until(from, to).last().next() == to,
        forall|i: int|
            0 <= i < days_until(from, to).len() - 1 ==> days_until(from, to)[i + 1]
                == #[trigger] days_until(from, to)[i].next(),
    decreases to.key() - from.key(),
{
    crate::calendar::lemma_next_day(from);
    lemma_next_is_adjacent(from, to);
    let rest = days_until(from.next(), to);
    assert(days_until(from, to) == seq![from] + rest);
    if from.next().key() < to.key() {
        lemma_days_until_chain(from.next(), to);
        assert forall|i: int| 0 <= i < days_until(from, to).len() - 1 implies days_until(
            from,
            to,
        )[i + 1] == #[trigger] days_until(from, to)[i].next() by {
            if i > 0 {
                assert(days_until(from, to)[i] == rest[i - 1]);
            }
        }
    } else {
        lemma_key_injective(from.next(), to);
        assert(rest.len() == 0);
    }
}

/// Every day between `from` and `to` is among the days from `from` until `to`.
proof fn lemma_days_until_complete(from: CalendarDate, to: CalendarDate, x: CalendarDate) -> (i: int)
    requires
        from.wf(),
        x.wf(),
        from.key() <= x.key() < to.key(),
    ensures
        0 <= i < days_until(from, to).len(),
        days_until(from, to)[i] == x,
    decreases x.key() - from.key(),
{
    let rest = days_until(from.next(), to);
    assert(days_until(from, to) == seq![from] + rest);
    if x.key() == from.key() {
        lemma_key_injective(from, x);
        0
    } else {
        crate::calendar::lemma_next_day(from);
        lemma_next_is_adjacent(from, x);
        let j = lemma_days_until_complete(from.next(), to, x);
        assert(days_until(from, to)[j + 1] == rest[j]);
        j + 1
    }
}

/// Appends a whole-day lookup for each day from `from` up to, but not including, `to`.
fn push_days_until(out: &mut Vec<TimeBucket>, from: CalendarDate, to: CalendarDate)
    requires
        from.wf(),
        to.wf(),
    ensures
        final(out)@ == old(out)@ + day_buckets(days_until(from, to)),
{
    let ghost initial = out@;
    let mut d = from;
    while d.is_before(&to)
        invariant
            d.wf(),
            to.wf(),
            out@ + day_buckets(days_until(d, to)) == initial + day_buckets(days_until(from, to)),
        decreases to.key() - d.key(),
    {
        proof {
            lemma_days_until_step(d, to);
        }
        out.push(TimeBucket::Day(d));
        d = d.next_day();
        assert(out@ + day_buckets(days_until(d, to)) =~= initial + day_buckets(
            days_until(from, to),
        ));
    }
    assert(days_until(d, to) =~= Seq::<CalendarDate>::empty());
    assert(out@ =~= initial + day_buckets(days_until(from, to)));
}

/// Appends an hour lookup for each hour of `date` from `first` to `last`.
fn push_hours(out: &mut Vec<TimeBucket>, date: CalendarDate, first: u32, last: u32)
    requires
        first <= last < 24,
    ensures
        final(out)@ == old(out)@ + hour_buckets(date, first as int, last as int),
{
    let ghost initial = out@;
    let mut h = first;
    while h <= last
        invariant
            first <= h <= last + 1,
            last < 24,
            out@ == initial + hour_buckets(date, first as int, h as int - 1),
        decreases last + 1 - h,
    {
        out.push(TimeBucket::Hour(date, h));
        h = h + 1;
        assert(out@ =~= initial + hour_buckets(date, first as int, h as int - 1));
    }
}

/// The lookups for a range between two whole days: every day from the start
/// day through the end day.
pub fn fetch_entries_from_day_to_day(start: FetchEntriesTime, end: FetchEntriesTime) -> (r: Vec<
    TimeBucket,
>)
    requires
        start.wf(),
        end.wf(),
        start.hour is None,
        end.hour is None,
        start.instant() < end.instant(),
    ensures
        r@ == range_plan(start, end),
{
    let mut out: Vec<TimeBucket> = Vec::new();
    let end_date = end.to_date();
    push_days_until(&mut out, start.to_date(), end_date);
    out.push(TimeBucket::Day(end_date));
    out
}

/// The lookups for a range from a whole day to an hour: every day from the
/// start day up to the day before the end, then the end day hour by hour up
/// to the end hour.
pub fn fetch_entries_from_day_to_hour(start: FetchEntriesTime, end: FetchEntriesTime) -> (r: Vec<
    TimeBucket,
>)
    requires
        start.wf(),
        end.wf(),
        start.hour is None,
        end.hour is Some,
        start.instant() < end.instant(),
    ensures
        r@ == range_plan(start, end),
{
    let mut out: Vec<TimeBucket> = Vec::new();
    let end_date = end.to_date();
    push_days_until(&mut out, start.to_date(), end_date);
    match end.hour {
        Some(eh) => push_hours(&mut out, end_date, 0, eh),
        None => {},
    }
    out
}

/// The lookups for a range from an hour to a whole day: the start day hour by
/// hour from the start hour to its last hour, then every day after the start
/// day through the end day.
pub fn fetch_entries_from_hour_to_day(start: FetchEntriesTime, end: FetchEntriesTime) -> (r: Vec<
    TimeBucket,
>)
    requires
        start.wf(),
        end.wf(),
        start.hour is Some,
        end.hour is None,
        start.instant() < end.instant(),
    ensures
        r@ == range_plan(start, end),
{
    let mut out: Vec<TimeBucket> = Vec::new();
    let start_date = start.to_date();
    let end_date = end.to_date();
    match start.hour {
        Some(sh) => push_hours(&mut out, start_date, sh, 23),
        None => {},
    }
    let second_day = start_date.next_day();
    push_days_until(&mut out, second_day, end_date);
    out.push(TimeBucket::Day(end_date));
    out
}

/// The lookups for a range between two hours. On one day: that day hour by
/// hour. Otherwise: the rest of the start day hour by hour, every day strictly
/// between the two days, then the end day hour by hour up to the end hour.
pub fn fetch_entries_from_hour_to_hour(start: FetchEntriesTime, end: FetchEntriesTime) -> (r: Vec<
    TimeBucket,
>)
    requires
        start.wf(),
        end.wf(),
        start.hour is Some,
        end.hour is Some,
        start.instant() < end.instant(),
    ensures
        r@ == range_plan(start, end),
{
    let mut out: Vec<TimeBucket> = Vec::new();
    let start_date = start.to_date();
    let end_date = end.to_date();
    let sh: u32 = match start.hour {
        Some(h) => h,
        None => 0,
    };
    let eh: u32 = match end.hour {
        Some(h) => h,
        None => 0,
    };
    if start_date == end_date {
        push_hours(&mut out, start_date, sh, eh);
    } else {
        push_hours(&mut out, start_date, sh, 23);
        let second_day = start_date.next_day();
        push_days_until(&mut out, second_day, end_date);
        push_hours(&mut out, end_date, 0, eh);
    }
    out
}

/// The lookups that answer a query for the range from `start` to `end`, in
/// the order in which their results are joined. A range whose start does not
/// come strictly before its end is refused.
pub fn fetch_entries_in_time_range(start: FetchEntriesTime, end: FetchEntriesTime) -> (r: Result<
    Vec<TimeBucket>,
    QueryError,
>)
    requires
        start.wf(),
        end.wf(),
    ensures
        r is Ok <==> start.instant() < end.instant(),
        r matches Ok(v) ==> v@ == range_plan(start, end),
        r is Err ==> r == Err::<Vec<TimeBucket>, QueryError>(QueryError::InvalidRange),
{
    match is_valid_date_range(start, end) {
        Err(e) => Err(e),
        Ok(()) => match (start.hour, end.hour) {
            (None, None) => Ok(fetch_entries_from_day_to_day(start, end)),
            (None, Some(_)) => Ok(fetch_entries_from_day_to_hour(start, end)),
            (Some(_), None) => Ok(fetch_entries_from_hour_to_day(start, end)),
            (Some(_), Some(_)) => Ok(fetch_entries_from_hour_to_hour(start, end)),
        },
    }
}

/// The lookup that answers a query for one point in time: its day when no
/// hour is given, else that hour of its day.
pub fn fetch_entries_by_time(time: FetchEntriesTime) -> (r: TimeBucket)
    ensures
        r == time_bucket(time),
{
    match time.hour {
        None => TimeBucket::Day(time.to_date()),
        Some(h) => TimeBucket::Hour(time.to_date(), h),
    }
}

/// A range between two whole days is read as every day from the start day
/// through the end day, each day once and in order, and nothing else.
pub proof fn lemma_day_range_reads_each_day(start: FetchEntriesTime, end: FetchEntriesTime)
    requires
        start.wf(),
        end.wf(),
        start.hour is None,
        end.hour is None,
        start.instant() < end.instant(),
    ensures
        range_plan(start, end).len() >= 2,
        range_plan(start, end)[0] == TimeBucket::Day(start.date()),
        range_plan(start, end).last() == TimeBucket::Day(end.date()),
        forall|i: int|
            0 <= i < range_plan(start, end).len() - 1 ==> {
                &&& #[trigger] range_plan(start, end)[i] matches TimeBucket::Day(d)
                &&& range_plan(start, end)[i + 1] == TimeBucket::Day(d.next())
            },
{
    let days = days_until(start.date(), end.date());
    lemma_days_until_chain(start.date(), end.date());
    let plan = range_plan(start, end);
    assert(plan == day_buckets(days).push(TimeBucket::Day(end.date())));
    assert forall|i: int| 0 <= i < plan.len() - 1 implies {
        &&& #[trigger] plan[i] matches TimeBucket::Day(d)
        &&& plan[i + 1] == TimeBucket::Day(d.next())
    } by {
        assert(plan[i] == TimeBucket::Day(days[i]));
        if i < days.len() - 1 {
            assert(plan[i + 1] == TimeBucket::Day(days[i + 1]));
        }
    }
}

/// A range that lies within one day is read hour by hour, from the start
/// hour (the first hour of the day when the start gives none) through the
/// end hour, which such a range always gives.
pub proof fn lemma_range_within_one_day(start: FetchEntriesTime, end: FetchEntriesTime)
    requires
        start.wf(),
        end.wf(),
        start.instant() < end.instant(),
        start.date() == end.date(),
    ensures
        end.hour is Some,
        range_plan(start, end) == hour_buckets(
            start.date(),
            start.start_hour(),
            end.start_hour(),
        ),
{
    if start.hour is None {
        assert(days_until(start.date(), end.date()) =~= Seq::<CalendarDate>::empty());
        assert(range_plan(start, end) =~= hour_buckets(
            start.date(),
            start.start_hour(),
            end.start_hour(),
        ));
    }
}

/// A day that the range holds only in part is never read whole: not the start
/// day when the start gives an hour, nor the end day when the end gives one.
pub proof fn lemma_partial_days_read_by_hour(start: FetchEntriesTime, end: FetchEntriesTime)
    requires
        start.wf(),
        end.wf(),
        start.instant() < end.instant(),
    ensures
        forall|i: int|
            0 <= i < range_plan(start, end).len() ==> (#[trigger] range_plan(start, end)[i] matches TimeBucket::Day(d) ==> {
                &&& start.hour is Some ==> d != start.date()
                &&& end.hour is Some ==> d != end.date()
            }),
{
    let plan = range_plan(start, end);
    let s = start.date();
    let e = end.date();
    crate::calendar::lemma_next_day(s);
    lemma_days_until_bounds(s, e);
    lemma_days_until_bounds(s.next(), e);
    assert forall|i: int| 0 <= i < plan.len() implies (#[trigger] plan[i] matches TimeBucket::Day(d) ==> {
        &&& start.hour is Some ==> d != s
        &&& end.hour is Some ==> d != e
    }) by {
        match (start.hour, end.hour) {
            (None, None) => {},
            (None, Some(eh)) => {
                let days = days_until(s, e);
                if i < days.len() {
                    assert(plan[i] == TimeBucket::Day(days[i]));
                } else {
                    assert(plan[i] == hour_buckets(e, 0, eh as int)[i - days.len()]);
                }
            },
            (Some(sh), None) => {
                let head = hour_buckets(s, sh as int, 23);
                let days = days_until(s.next(), e);
                if i < head.len() {
                    assert(plan[i] == head[i]);
                } else if i < head.len() + days.len() {
                    assert(plan[i] == TimeBucket::Day(days[i - head.len()]));
                }
            },
            (Some(sh), Some(eh)) => {
                if s != e {
                    let head = hour_buckets(s, sh as int, 23);
                    let days = days_until(s.next(), e);
                    if i < head.len() {
                        assert(plan[i] == head[i]);
                    } else if i < head.len() + days.len() {
                        assert(plan[i] == TimeBucket::Day(days[i - head.len()]));
                    } else {
                        assert(plan[i] == hour_buckets(e, 0, eh as int)[i - head.len()
                            - days.len()]);
                    }
                } else {
                    assert(plan[i] == hour_buckets(s, sh as int, eh as int)[i]);
                }
            },
        }
    }
}

/// The lookups of a range read every hour that the range holds, and no hour
/// outside it.
pub proof fn lemma_range_plan_covers_range(
    start: FetchEntriesTime,
    end: FetchEntriesTime,
    date: CalendarDate,
    hour: int,
)
    requires
        start.wf(),
        end.wf(),
        start.instant() < end.instant(),
    ensures
        in_range(start, end, date, hour) ==> exists|i: int|
            0 <= i < range_plan(start, end).len() && covers(
                #[trigger] range_plan(start, end)[i],
                date,
                hour,
            ),
        (exists|i: int|
            0 <= i < range_plan(start, end).len() && covers(
                #[trigger] range_plan(start, end)[i],
                date,
                hour,
            )) ==> in_range(start, end, date, hour),
{
    lemma_plan_reaches_range(start, end, date, hour);
    lemma_plan_stays_in_range(start, end, date, hour);
}

proof fn lemma_plan_reaches_range(
    start: FetchEntriesTime,
    end: FetchEntriesTime,
    date: CalendarDate,
    hour: int,
)
    requires
        start.wf(),
        end.wf(),
        start.instant() < end.instant(),
    ensures
        in_range(start, end, date, hour) ==> exists|i: int|
            0 <= i < range_plan(start, end).len() && covers(
                #[trigger] range_plan(start, end)[i],
                date,
                hour,
            ),
{
    if in_range(start, end, date, hour) {
        let plan = range_plan(start, end);
        let s = start.date();
        let e = end.date();
        crate::calendar::lemma_next_day(s);
        match (start.hour, end.hour) {
            (None, None) => {
                let days = days_until(s, e);
                if date.key() < e.key() {
                    let k = lemma_days_until_complete(s, e, date);
                    assert(covers(plan[k], date, hour));
                } else {
                    lemma_key_injective(date, e);
                    assert(covers(plan[days.len() as int], date, hour));
                }
            },
            (None, Some(eh)) => {
                let days = days_until(s, e);
                if date.key() < e.key() {
                    let k = lemma_days_until_complete(s, e, date);
                    assert(covers(plan[k], date, hour));
                } else {
                    lemma_key_injective(date, e);
                    assert(plan[days.len() + hour] == hour_buckets(e, 0, eh as int)[hour]);
                    assert(covers(plan[days.len() + hour], date, hour));
                }
            },
            (Some(sh), None) => {
                let head = hour_buckets(s, sh as int, 23);
                let days = days_until(s.next(), e);
                if date.key() == s.key() {
                    lemma_key_injective(date, s);
                    assert(plan[hour - sh] == head[hour - sh]);
                    assert(covers(plan[hour - sh], date, hour));
                } else if date.key() < e.key() {
                    lemma_next_is_adjacent(s, date);
                    let k = lemma_days_until_complete(s.next(), e, date);
                    assert(plan[head.len() + k] == TimeBucket::Day(days[k]));
                    assert(covers(plan[head.len() + k], date, hour));
                } else {
                    lemma_key_injective(date, e);
                    assert(covers(plan[(head.len() + days.len()) as int], date, hour));
                }
            },
            (Some(sh), Some(eh)) => {
                if s == e {
                    lemma_key_injective(date, s);
                    assert(plan[hour - sh] == hour_buckets(s, sh as int, eh as int)[hour - sh]);
                    assert(covers(plan[hour - sh], date, hour));
                } else {
                    let head = hour_buckets(s, sh as int, 23);
                    let days = days_until(s.next(), e);
                    if date.key() == s.key() {
                        lemma_key_injective(date, s);
                        assert(plan[hour - sh] == head[hour - sh]);
                        assert(covers(plan[hour - sh], date, hour));
                    } else if date.key() < e.key() {
                        lemma_next_is_adjacent(s, date);
                        let k = lemma_days_until_complete(s.next(), e, date);
                        assert(plan[head.len() + k] == TimeBucket::Day(days[k]));
                        assert(covers(plan[head.len() + k], date, hour));
                    } else {
                        lemma_key_injective(date, e);
                        let at = head.len() + days.len() + hour;
                        assert(plan[at] == hour_buckets(e, 0, eh as int)[hour]);
                        assert(covers(plan[at], date, hour));
                    }
                }
            },
        }
    }
}

proof fn lemma_plan_stays_in_range(
    start: FetchEntriesTime,
    end: FetchEntriesTime,
    date: CalendarDate,
    hour: int,
)
    requires
        start.wf(),
        end.wf(),
        start.instant() < end.instant(),
    ensures
        (exists|i: int|
            0 <= i < range_plan(start, end).len() && covers(
                #[trigger] range_plan(start, end)[i],
                date,
                hour,
            )) ==> in_range(start, end, date, hour),
{
    let plan = range_plan(start, end);
    let s = start.date();
    let e = end.date();
    crate::calendar::lemma_next_day(s);
    lemma_days_until_bounds(s, e);
    lemma_days_until_bounds(s.next(), e);
    if exists|i: int| 0 <= i < plan.len() && covers(#[trigger] plan[i], date, hour) {
        let i = choose|i: int| 0 <= i < plan.len() && covers(#[trigger] plan[i], date, hour);
        match (start.hour, end.hour) {
            (None, None) => {
                let days = days_until(s, e);
                if i < days.len() {
                    assert(plan[i] == TimeBucket::Day(days[i]));
                }
            },
            (None, Some(eh)) => {
                let days = days_until(s, e);
                if i < days.len() {
                    assert(plan[i] == TimeBucket::Day(days[i]));
                } else {
                    assert(plan[i] == hour_buckets(e, 0, eh as int)[i - days.len()]);
                }
            },
            (Some(sh), None) => {
                let head = hour_buckets(s, sh as int, 23);
                let days = days_until(s.next(), e);
                if i < head.len() {
                    assert(plan[i] == head[i]);
                } else if i < head.len() + days.len() {
                    assert(plan[i] == TimeBucket::Day(days[i - head.len()]));
                }
            },
            (Some(sh), Some(eh)) => {
                if s == e {
                    assert(plan[i] == hour_buckets(s, sh as int, eh as int)[i]);
                } else {
                    let head = hour_buckets(s, sh as int, 23);
                    let days = days_until(s.next(), e);
                    if i < head.len() {
                        assert(plan[i] == head[i]);
                    } else if i < head.len() + days.len() {
                        assert(plan[i] == TimeBucket::Day(days[i - head.len()]));
                    } else {
                        assert(plan[i] == hour_buckets(e, 0, eh as int)[i - head.len()
                            - days.len()]);
                    }
                }
            },
        }
    }
}

} // verus!
