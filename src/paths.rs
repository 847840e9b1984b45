use crate::buckets::TimeBucket;
use crate::calendar::CalendarDate;
use crate::day_index::{all_digits, is_digit};
use vstd::prelude::*;
use vstd::string::StringExecFns;

verus! {

/// The character of a decimal digit.
pub open spec fn digit_char(n: int) -> char {
    if n == 0 {
        '0'
    } else if n == 1 {
        '1'
    } else if n == 2 {
        '2'
    } else if n == 3 {
        '3'
    } else if n == 4 {
        '4'
    } else if n == 5 {
        '5'
    } else if n == 6 {
        '6'
    } else if n == 7 {
        '7'
    } else if n == 8 {
        '8'
    } else {
        '9'
    }
}

/// The decimal digits of a natural number, without leading zeros.
pub open spec fn nat_text(n: nat) -> Seq<char>
    decreases n,
{
    if n < 10 {
        seq![digit_char(n as int)]
    } else {
        nat_text(n / 10) + seq![digit_char((n % 10) as int)]
    }
}

/// The decimal text of an integer, with a leading minus sign when it is negative.
pub open spec fn int_text(i: int) -> Seq<char> {
    if i < 0 {
        seq!['-'] + nat_text((-i) as nat)
    } else {
        nat_text(i as nat)
    }
}

/// The key of a day bucket: `base.year-month-day`.
pub open spec fn day_key(base: Seq<char>, date: CalendarDate) -> Seq<char> {
    base + seq!['.'] + int_text(date.year as int) + seq!['-'] + nat_text(date.month as nat)
        + seq!['-'] + nat_text(date.day as nat)
}

/// The key of an hour bucket: `base.year-month-day.hour`.
pub open spec fn hour_key(base: Seq<char>, date: CalendarDate, hour: nat) -> Seq<char> {
    day_key(base, date) + seq!['.'] + nat_text(hour)
}

/// The key of the bucket that a lookup reads.
pub open spec fn bucket_key(base: Seq<char>, bucket: TimeBucket) -> Seq<char> {
    match bucket {
        TimeBucket::Day(date) => day_key(base, date),
        TimeBucket::Hour(date, h) => hour_key(base, date, h as nat),
    }
}

/// The one-character text of a decimal digit.
fn digit_str(n: u64) -> (r: &'static str)
    requires
        n < 10,
    ensures
        r@ == seq![digit_char(n as int)],
{
    proof {
        reveal_strlit("0");
        reveal_strlit("1");
        reveal_strlit("2");
        reveal_strlit("3");
        reveal_strlit("4");
        reveal_strlit("5");
        reveal_strlit("6");
        reveal_strlit("7");
        reveal_strlit("8");
        reveal_strlit("9");
    }
    if n == 0 {
        "0"
    } else if n == 1 {
        "1"
    } else if n == 2 {
        "2"
    } else if n == 3 {
        "3"
    } else if n == 4 {
        "4"
    } else if n == 5 {
        "5"
    } else if n == 6 {
        "6"
    } else if n == 7 {
        "7"
    } else if n == 8 {
        "8"
    } else {
        "9"
    }
}

/// Appends the decimal digits of `n`.
fn append_decimal(s: &mut String, n: u64)
    ensures
        final(s)@ == old(s)@ + nat_text(n as nat),
    decreases n,
{
    if n >= 10 {
        append_decimal(s, n / 10);
    }
    s.append(digit_str(n % 10));
    proof {
        assert(final(s)@ =~= old(s)@ + nat_text(n as nat));
    }
}

/// Appends the decimal text of a year.
fn append_year(s: &mut String, year: i32)
    ensures
        final(s)@ == old(s)@ + int_text(year as int),
{
    if year < 0 {
        s.append("-");
        let magnitude: u64 = (0i64 - year as i64) as u64;
        append_decimal(s, magnitude);
        proof {
            reveal_strlit("-");
            assert(final(s)@ =~= old(s)@ + int_text(year as int));
        }
    } else {
        append_decimal(s, year as u64);
    }
}

/// Appends `.year-month-day`.
fn append_date(s: &mut String, date: CalendarDate)
    ensures
        final(s)@ == old(s)@ + seq!['.'] + int_text(date.year as int) + seq!['-'] + nat_text(
            date.month as nat,
        ) + seq!['-'] + nat_text(date.day as nat),
{
    proof {
        reveal_strlit(".");
        reveal_strlit("-");
    }
    s.append(".");
    append_year(s, date.year);
    s.append("-");
    append_decimal(s, date.month as u64);
    s.append("-");
    append_decimal(s, date.day as u64);
    proof {
        assert(final(s)@ =~= old(s)@ + seq!['.'] + int_text(date.year as int) + seq!['-']
            + nat_text(date.month as nat) + seq!['-'] + nat_text(date.day as nat));
    }
}

/// The key of the bucket that holds what was written on a day.
pub fn day_path_from_date(base_component: String, year: i32, month: u32, day: u32) -> (r: String)
    ensures
        r@ == day_key(base_component@, CalendarDate { year, month, day }),
{
    let mut s = base_component;
    append_date(&mut s, CalendarDate { year, month, day });
    s
}

/// The key of the bucket that holds what was written in an hour of a day.
pub fn hour_path_from_date(base_component: String, year: i32, month: u32, day: u32, hour: u32) -> (r:
    String)
    ensures
        r@ == hour_key(base_component@, CalendarDate { year, month, day }, hour as nat),
{
    let mut s = day_path_from_date(base_component, year, month, day);
    proof {
        reveal_strlit(".");
    }
    s.append(".");
    append_decimal(&mut s, hour as u64);
    proof {
        assert(s@ =~= hour_key(base_component@, CalendarDate { year, month, day }, hour as nat));
    }
    s
}

/// The key of the bucket that a lookup reads.
pub fn bucket_path(base_component: String, bucket: TimeBucket) -> (r: String)
    ensures
        r@ == bucket_key(base_component@, bucket),
{
    match bucket {
        TimeBucket::Day(date) => day_path_from_date(base_component, date.year, date.month, date.day),
        TimeBucket::Hour(date, hour) => hour_path_from_date(
            base_component,
            date.year,
            date.month,
            date.day,
            hour,
        ),
    }
}

proof fn lemma_nat_text_digits(n: nat)
    ensures
        nat_text(n).len() >= 1,
        all_digits(nat_text(n)),
        n >= 10 ==> nat_text(n).len() >= 2,
    decreases n,
{
    if n >= 10 {
        lemma_nat_text_digits(n / 10);
        let t = nat_text(n);
        assert forall|i: int| 0 <= i < t.len() implies is_digit(#[trigger] t[i]) by {
            if i < t.len() - 1 {
                assert(t[i] == nat_text(n / 10)[i]);
            }
        }
    }
}

proof fn lemma_nat_text_injective(a: nat, b: nat)
    requires
        nat_text(a) == nat_text(b),
    ensures
        a == b,
    decreases a,
{
    lemma_nat_text_digits(a);
    lemma_nat_text_digits(b);
    if a >= 10 && b >= 10 {
        let ta = nat_text(a);
        assert(ta.drop_last() =~= nat_text(a / 10));
        assert(nat_text(b).drop_last() =~= nat_text(b / 10));
        assert(ta.last() == digit_char((a % 10) as int));
        assert(nat_text(b).last() == digit_char((b % 10) as int));
        lemma_nat_text_injective(a / 10, b / 10);
        assert(a % 10 == b % 10);
        assert(a == 10 * (a / 10) + a % 10) by (nonlinear_arith);
        assert(b == 10 * (b / 10) + b % 10) by (nonlinear_arith);
    } else if a < 10 && b < 10 {
        assert(nat_text(a)[0] == digit_char(a as int));
        assert(nat_text(b)[0] == digit_char(b as int));
    }
}

/// Text split at the first separator that is no digit, after a run of digits.
proof fn lemma_split_after_digits(x1: Seq<char>, y1: Seq<char>, x2: Seq<char>, y2: Seq<char>, sep: char)
    requires
        all_digits(x1),
        all_digits(x2),
        !is_digit(sep),
        x1 + seq![sep] + y1 == x2 + seq![sep] + y2,
    ensures
        x1 == x2,
        y1 == y2,
{
    let whole = x1 + seq![sep] + y1;
    if x1.len() < x2.len() {
        assert(whole[x1.len() as int] == sep);
        assert((x2 + seq![sep] + y2)[x1.len() as int] == x2[x1.len() as int]);
    } else if x2.len() < x1.len() {
        assert((x2 + seq![sep] + y2)[x2.len() as int] == sep);
        assert(whole[x2.len() as int] == x1[x2.len() as int]);
    } else {
        assert(x1 =~= whole.subrange(0, x1.len() as int));
        assert(x2 =~= (x2 + seq![sep] + y2).subrange(0, x2.len() as int));
        assert(y1 =~= whole.subrange((x1.len() + 1) as int, whole.len() as int));
        assert(y2 =~= (x2 + seq![sep] + y2).subrange((x2.len() + 1) as int, whole.len() as int));
    }
}

proof fn lemma_int_text_then_dash(a: int, r1: Seq<char>, b: int, r2: Seq<char>)
    requires
        int_text(a) + seq!['-'] + r1 == int_text(b) + seq!['-'] + r2,
    ensures
        a == b,
        r1 == r2,
{
    let na = if a < 0 { (-a) as nat } else { a as nat };
    let nb = if b < 0 { (-b) as nat } else { b as nat };
    lemma_nat_text_digits(na);
    lemma_nat_text_digits(nb);
    let wa = int_text(a) + seq!['-'] + r1;
    let wb = int_text(b) + seq!['-'] + r2;
    if a < 0 && b < 0 {
        assert(wa.drop_first() =~= nat_text(na) + seq!['-'] + r1);
        assert(wb.drop_first() =~= nat_text(nb) + seq!['-'] + r2);
        lemma_split_after_digits(nat_text(na), r1, nat_text(nb), r2, '-');
        lemma_nat_text_injective(na, nb);
    } else if a >= 0 && b >= 0 {
        lemma_split_after_digits(nat_text(na), r1, nat_text(nb), r2, '-');
        lemma_nat_text_injective(na, nb);
    } else if a < 0 {
        assert(wa[0] == '-');
        assert(wb[0] == nat_text(nb)[0]);
    } else {
        assert(wb[0] == '-');
        assert(wa[0] == nat_text(na)[0]);
    }
}

/// The text of a key after `base.`: the date, then what follows the day.
spec fn date_text(date: CalendarDate, tail: Seq<char>) -> Seq<char> {
    int_text(date.year as int) + seq!['-'] + (nat_text(date.month as nat) + seq!['-'] + (nat_text(
        date.day as nat,
    ) + tail))
}

/// What follows the day in a bucket's key: nothing, or `.hour`.
spec fn hour_text(bucket: TimeBucket) -> Seq<char> {
    match bucket {
        TimeBucket::Day(_) => Seq::empty(),
        TimeBucket::Hour(_, h) => seq!['.'] + nat_text(h as nat),
    }
}

spec fn bucket_date(bucket: TimeBucket) -> CalendarDate {
    match bucket {
        TimeBucket::Day(d) => d,
        TimeBucket::Hour(d, _) => d,
    }
}

proof fn lemma_bucket_key_shape(base: Seq<char>, b: TimeBucket)
    ensures
        bucket_key(base, b) == base + seq!['.'] + date_text(bucket_date(b), hour_text(b)),
{
    assert(bucket_key(base, b) =~= base + seq!['.'] + date_text(bucket_date(b), hour_text(b)));
}

proof fn lemma_date_text_distinct(d1: CalendarDate, t1: Seq<char>, d2: CalendarDate, t2: Seq<char>)
    requires
        date_text(d1, t1) == date_text(d2, t2),
    ensures
        d1.year == d2.year,
        d1.month == d2.month,
        nat_text(d1.day as nat) + t1 == nat_text(d2.day as nat) + t2,
{
    let ma = nat_text(d1.month as nat);
    let mb = nat_text(d2.month as nat);
    let ta = nat_text(d1.day as nat) + t1;
    let tb = nat_text(d2.day as nat) + t2;
    lemma_int_text_then_dash(d1.year as int, ma + seq!['-'] + ta, d2.year as int, mb + seq!['-'] + tb);
    lemma_nat_text_digits(d1.month as nat);
    lemma_nat_text_digits(d2.month as nat);
    lemma_split_after_digits(ma, ta, mb, tb, '-');
    lemma_nat_text_injective(d1.month as nat, d2.month as nat);
}

/// Under one base name, two lookups that share a bucket key are the same
/// lookup: no two days, no two hours, and no day and hour share a key.
pub proof fn lemma_bucket_keys_distinct(base: Seq<char>, a: TimeBucket, b: TimeBucket)
    requires
        bucket_key(base, a) == bucket_key(base, b),
    ensures
        a == b,
{
    lemma_bucket_key_shape(base, a);
    lemma_bucket_key_shape(base, b);
    let ka = bucket_key(base, a);
    let ra = date_text(bucket_date(a), hour_text(a));
    let rb = date_text(bucket_date(b), hour_text(b));
    assert(ra =~= ka.subrange((base.len() + 1) as int, ka.len() as int));
    assert(rb =~= ka.subrange((base.len() + 1) as int, ka.len() as int));
    lemma_date_text_distinct(bucket_date(a), hour_text(a), bucket_date(b), hour_text(b));
    let xa = nat_text(bucket_date(a).day as nat);
    let xb = nat_text(bucket_date(b).day as nat);
    lemma_nat_text_digits(bucket_date(a).day as nat);
    lemma_nat_text_digits(bucket_date(b).day as nat);
    let ta = xa + hour_text(a);
    let tb = xb + hour_text(b);
    match (a, b) {
        (TimeBucket::Day(_), TimeBucket::Day(_)) => {
            assert(ta =~= xa);
            assert(tb =~= xb);
            lemma_nat_text_injective(bucket_date(a).day as nat, bucket_date(b).day as nat);
        },
        (TimeBucket::Hour(_, h1), TimeBucket::Hour(_, h2)) => {
            assert(ta =~= xa + seq!['.'] + nat_text(h1 as nat));
            assert(tb =~= xb + seq!['.'] + nat_text(h2 as nat));
            lemma_split_after_digits(xa, nat_text(h1 as nat), xb, nat_text(h2 as nat), '.');
            lemma_nat_text_injective(bucket_date(a).day as nat, bucket_date(b).day as nat);
            lemma_nat_text_injective(h1 as nat, h2 as nat);
        },
        (TimeBucket::Day(_), TimeBucket::Hour(_, _)) => {
            assert(ta =~= xa);
            assert(tb[xb.len() as int] == '.');
            if xa.len() > xb.len() {
                assert(xa[xb.len() as int] == '.');
            }
        },
        (TimeBucket::Hour(_, _), TimeBucket::Day(_)) => {
            assert(tb =~= xb);
            assert(ta[xa.len() as int] == '.');
            if xb.len() > xa.len() {
                assert(xb[xa.len() as int] == '.');
            }
        },
    }
}

} // verus!
