//! Dates and times of day, counted from the Unix epoch in UTC.
use vstd::prelude::*;

use crate::text::{padded, padded_decimal};

verus! {

/// A day of the proleptic Gregorian calendar. The years before year 1 are
/// counted down from 0.
pub struct DateView {
    pub year: int,
    pub month: int,
    pub day: int,
}

pub open spec fn leap_year(y: int) -> bool {
    y % 4 == 0 && (y % 100 != 0 || y % 400 == 0)
}

pub open spec fn month_len(y: int, m: int) -> int {
    if m == 2 {
        if leap_year(y) {
            29
        } else {
            28
        }
    } else if m == 4 || m == 6 || m == 9 || m == 11 {
        30
    } else {
        31
    }
}

pub open spec fn year_len(y: int) -> int {
    if leap_year(y) {
        366
    } else {
        365
    }
}

/// The days of year `y` before month `m`.
pub open spec fn days_before_month(y: int, m: int) -> int
    decreases m,
{
    if m <= 1 {
        0
    } else {
        days_before_month(y, m - 1) + month_len(y, m - 1)
    }
}

/// The days from the first day of year 1 to the first day of year `y`.
pub open spec fn days_before_year(y: int) -> int {
    let p = y - 1;
    365 * p + p / 4 - p / 100 + p / 400
}

pub open spec fn valid_date(d: DateView) -> bool {
    1 <= d.month <= 12 && 1 <= d.day <= month_len(d.year, d.month)
}

/// The number of a day, counted from 1970-01-01.
pub open spec fn day_number(d: DateView) -> int {
    days_before_year(d.year) - days_before_year(1970) + days_before_month(d.year, d.month) + d.day
        - 1
}

/// The day with the given number.
pub open spec fn date_of(days: int) -> DateView {
    choose|d: DateView| valid_date(d) && #[trigger] day_number(d) == days
}

/// `YYYY-MM-DD`.
pub open spec fn date_text(d: DateView) -> Seq<char> {
    padded(d.year as nat, 4) + "-"@ + padded(d.month as nat, 2) + "-"@ + padded(d.day as nat, 2)
}

/// `YYYYMMDD`.
pub open spec fn compact_date_text(d: DateView) -> Seq<char> {
    padded(d.year as nat, 4) + padded(d.month as nat, 2) + padded(d.day as nat, 2)
}

// ── Laws ───────────────────────────────────────────────────────────────────

/// The years follow each other: each begins where the one before it ends.
pub proof fn law_years_follow(y: int)
    ensures
        days_before_year(y + 1) == days_before_year(y) + year_len(y),
{
    let p = y - 1;
    assert(y / 4 == p / 4 + if y % 4 == 0 { 1int } else { 0 });
    assert(y / 100 == p / 100 + if y % 100 == 0 { 1int } else { 0 });
    assert(y / 400 == p / 400 + if y % 400 == 0 { 1int } else { 0 });
    assert(y % 100 == 0 ==> y % 4 == 0);
    assert(y % 400 == 0 ==> y % 100 == 0);
}

/// The months of a year fill it.
pub proof fn law_months_fill_year(y: int)
    ensures
        days_before_month(y, 13) == year_len(y),
{
    reveal_with_fuel(days_before_month, 14);
}

proof fn lemma_years_grow(y1: int, y2: int)
    requires
        y1 < y2,
    ensures
        days_before_year(y1) + year_len(y1) <= days_before_year(y2),
    decreases y2 - y1,
{
    law_years_follow(y2 - 1);
    if y1 < y2 - 1 {
        lemma_years_grow(y1, y2 - 1);
    }
}

proof fn lemma_months_grow(y: int, m1: int, m2: int)
    requires
        1 <= m1 < m2,
    ensures
        0 <= days_before_month(y, m1),
        days_before_month(y, m1) + month_len(y, m1) <= days_before_month(y, m2),
    decreases m2,
{
    lemma_months_nonneg(y, m1);
    if m1 < m2 - 1 {
        lemma_months_grow(y, m1, m2 - 1);
    }
}

proof fn lemma_months_nonneg(y: int, m: int)
    ensures
        0 <= days_before_month(y, m),
    decreases m,
{
    if m > 1 {
        lemma_months_nonneg(y, m - 1);
    }
}

/// A valid date lies within its year.
proof fn lemma_date_in_year(d: DateView)
    requires
        valid_date(d),
    ensures
        0 <= days_before_month(d.year, d.month) + d.day - 1 < year_len(d.year),
{
    lemma_months_nonneg(d.year, d.month);
    lemma_months_grow(d.year, d.month, 13);
    law_months_fill_year(d.year);
}

/// Different dates have different numbers.
pub proof fn law_day_numbers_differ(a: DateView, b: DateView)
    requires
        valid_date(a),
        valid_date(b),
        day_number(a) == day_number(b),
    ensures
        a == b,
{
    lemma_date_in_year(a);
    lemma_date_in_year(b);
    if a.year < b.year {
        lemma_years_grow(a.year, b.year);
    } else if b.year < a.year {
        lemma_years_grow(b.year, a.year);
    } else if a.month < b.month {
        lemma_months_grow(a.year, a.month, b.month);
    } else if b.month < a.month {
        lemma_months_grow(a.year, b.month, a.month);
    }
}

/// A date is the day with its own number.
pub proof fn law_date_of_number(d: DateView)
    requires
        valid_date(d),
    ensures
        date_of(day_number(d)) == d,
{
    law_day_numbers_differ(date_of(day_number(d)), d);
}

// ── Computing ──────────────────────────────────────────────────────────────

/// A year by its place in its cycles of 400, 100, 4 and 1 years.
proof fn lemma_year_cycles(a: int, b: int, c: int, d: int)
    requires
        0 <= b <= 3,
        0 <= c <= 24,
        0 <= d <= 3,
    ensures
        days_before_year(400 * a + 100 * b + 4 * c + d + 1) == 146097 * a + 36524 * b + 1461 * c
            + 365 * d,
{
    let p = 400 * a + 100 * b + 4 * c + d;
    assert(p / 4 == 100 * a + 25 * b + c);
    assert(p / 100 == 4 * a + b);
    assert(p / 400 == a);
}

/// Only the last year of a cycle has a day more.
proof fn lemma_last_year_leap(a: int, b: int, c: int)
    requires
        0 <= b <= 3,
        0 <= c <= 24,
        c < 24 || b == 3,
    ensures
        leap_year(400 * a + 100 * b + 4 * c + 4),
{
    let y = 400 * a + 100 * b + 4 * c + 4;
    assert(y % 4 == 0);
    if c == 24 {
        assert(y == 400 * (a + 1));
        assert(y % 400 == 0);
    } else {
        assert(y == 100 * (4 * a + b) + 4 * (c + 1));
        assert(y % 100 == 4 * (c + 1));
    }
}

/// From the epoch on the years are those from 1970 on.
proof fn lemma_years_from_epoch(d: DateView)
    requires
        valid_date(d),
        0 <= day_number(d),
    ensures
        1970 <= d.year,
{
    lemma_date_in_year(d);
    if d.year < 1970 {
        lemma_years_grow(d.year, 1970);
    }
}

/// The cycle of 400 years in which the day `n` lies, and its place there.
fn cycle_of(n: i64) -> (r: (i64, u64))
    requires
        i64::MIN + 719162 <= n,
    ensures
        n == 146097 * r.0 + r.1,
        r.1 < 146097,
{
    if n >= 0 {
        let m: u64 = n as u64;
        ((m / 146097) as i64, m % 146097)
    } else {
        let m: u64 = (-n) as u64;
        let q: u64 = (m + 146096) / 146097;
        (-(q as i64), q * 146097 - m)
    }
}

/// The year of a day, how many days of that year come before it, and whether it
/// is a leap year.
fn year_of(days: i64) -> (r: (i64, u64, bool))
    requires
        days <= i64::MAX - 719468,
    ensures
        days_before_year(r.0 as int) + r.1 == days + days_before_year(1970),
        r.1 < year_len(r.0 as int),
        r.2 == leap_year(r.0 as int),
{
    let n: i64 = days + 719162;
    let (a, r) = cycle_of(n);
    let b: u64 = if r / 36524 > 3 {
        3
    } else {
        r / 36524
    };
    let r1: u64 = r - b * 36524;
    let c: u64 = r1 / 1461;
    let r2: u64 = r1 % 1461;
    let d: u64 = if r2 / 365 > 3 {
        3
    } else {
        r2 / 365
    };
    assert(r1 <= 36524 && (b < 3 ==> r1 < 36524));
    assert(c <= 24);
    let day_of_year: u64 = r2 - d * 365;
    let place: u64 = 100 * b + 4 * c + d + 1;
    let year: i64 = 400 * a + place as i64;
    let leap: bool = place % 4 == 0 && (place % 100 != 0 || place % 400 == 0);
    assert(leap == leap_year(year as int));
    proof {
        lemma_year_cycles(a as int, b as int, c as int, d as int);
        if day_of_year == 365 {
            assert(d == 3 && r2 == 1460);
            lemma_last_year_leap(a as int, b as int, c as int);
        }
    }
    (year, day_of_year, leap)
}

/// Convert days since the Unix epoch to (year, month, day).
pub fn days_to_ymd(days: i64) -> (r: (i64, u32, u32))
    requires
        days <= i64::MAX - 719468,
    ensures
        valid_date(
            (DateView { year: r.0 as int, month: r.1 as int, day: r.2 as int }),
        ),
        day_number((DateView { year: r.0 as int, month: r.1 as int, day: r.2 as int })) == days,
        date_of(days as int) == (DateView { year: r.0 as int, month: r.1 as int, day: r.2 as int }),
{
    let (year, day_of_year, leap) = year_of(days);
    let ghost y = year as int;
    proof {
        law_months_fill_year(y);
    }
    let mut month: u32 = 1;
    let mut rest: u64 = day_of_year;
    let mut len: u64 = 31;
    while rest >= len
        invariant
            1 <= month <= 12,
            y == year,
            leap == leap_year(y),
            len == month_len(y, month as int),
            days_before_month(y, month as int) + rest == day_of_year,
            day_of_year < year_len(y),
            days_before_month(y, 13) == year_len(y),
        decreases 13 - month,
    {
        assert(days_before_month(y, month + 1) == days_before_month(y, month as int) + month_len(
            y,
            month as int,
        ));
        assert(month < 12) by {
            if month == 12 {
                assert(days_before_month(y, 13) <= day_of_year);
            }
        }
        rest = rest - len;
        month = month + 1;
        len = if month == 2 {
            if leap {
                29
            } else {
                28
            }
        } else if month == 4 || month == 6 || month == 9 || month == 11 {
            30
        } else {
            31
        };
    }
    let day: u32 = (rest + 1) as u32;
    proof {
        let date = DateView { year: y, month: month as int, day: day as int };
        assert(valid_date(date));
        assert(day_number(date) == days);
        law_date_of_number(date);
    }
    (year, month, day)
}

/// The date at a time in seconds since the Unix epoch, as YYYY-MM-DD.
pub fn today_date(secs: u64) -> (r: String)
    ensures
        r@ == date_text(date_of(secs as int / 86400)),
{
    let (y, m, d) = days_to_ymd((secs / 86400) as i64);
    proof {
        lemma_years_from_epoch(DateView { year: y as int, month: m as int, day: d as int });
    }
    let year = padded_decimal(y as u128, 4);
    let month = padded_decimal(m as u128, 2);
    let day = padded_decimal(d as u128, 2);
    let mut out = year;
    out.append("-");
    out.append(month.as_str());
    out.append("-");
    out.append(day.as_str());
    out
}

/// The time of day at a time in seconds since the Unix epoch, with `sep` between
/// hours, minutes and seconds.
pub open spec fn time_text(secs: int, sep: Seq<char>) -> Seq<char> {
    let t = secs % 86400;
    padded((t / 3600) as nat, 2) + sep + padded((t % 3600 / 60) as nat, 2) + sep + padded(
        (t % 60) as nat,
        2,
    )
}

fn time_of_day(secs: u64, sep: &str) -> (r: String)
    ensures
        r@ == time_text(secs as int, sep@),
{
    let t: u64 = secs % 86400;
    let mut out = padded_decimal((t / 3600) as u128, 2);
    out.append(sep);
    let minutes = padded_decimal((t % 3600 / 60) as u128, 2);
    out.append(minutes.as_str());
    out.append(sep);
    let seconds = padded_decimal((t % 60) as u128, 2);
    out.append(seconds.as_str());
    out
}

/// A compact backup timestamp: YYYYMMDD-HHMMSS.
pub fn backup_timestamp(secs: u64) -> (r: String)
    ensures
        r@ == compact_date_text(date_of(secs as int / 86400)) + "-"@ + time_text(
            secs as int,
            Seq::empty(),
        ),
{
    let (y, m, d) = days_to_ymd((secs / 86400) as i64);
    proof {
        lemma_years_from_epoch(DateView { year: y as int, month: m as int, day: d as int });
    }
    let mut out = padded_decimal(y as u128, 4);
    let month = padded_decimal(m as u128, 2);
    let day = padded_decimal(d as u128, 2);
    out.append(month.as_str());
    out.append(day.as_str());
    out.append("-");
    proof {
        reveal_strlit("");
        assert(""@ =~= Seq::<char>::empty());
    }
    let time = time_of_day(secs, "");
    out.append(time.as_str());
    out
}

/// An ISO 8601 UTC timestamp: YYYY-MM-DDTHH:MM:SSZ.
pub fn iso8601(secs: u64) -> (r: String)
    ensures
        r@ == date_text(date_of(secs as int / 86400)) + "T"@ + time_text(secs as int, ":"@) + "Z"@,
{
    let mut out = today_date(secs);
    out.append("T");
    let time = time_of_day(secs, ":");
    out.append(time.as_str());
    out.append("Z");
    out
}

/// January, March, May, July, August, October and December have 31 days, the other months
/// 30, but February, which has 28 and in a leap year 29.
pub proof fn law_months_have_their_lengths(y: int, m: int)
    requires
        1 <= m <= 12,
    ensures
        month_len(y, m) == 31 <==> m == 1 || m == 3 || m == 5 || m == 7 || m == 8 || m == 10 || m
            == 12,
        month_len(y, m) == 30 <==> m == 4 || m == 6 || m == 9 || m == 11,
        m == 2 ==> month_len(y, m) == if leap_year(y) {
            29int
        } else {
            28
        },
{
}

/// Every fourth year is a leap year, but of those that begin a century only every fourth;
/// so four hundred years have 97 of them.
pub proof fn law_leap_years(y: int)
    ensures
        y % 4 != 0 ==> !leap_year(y),
        y % 4 == 0 && y % 100 != 0 ==> leap_year(y),
        y % 100 == 0 ==> (leap_year(y) <==> y % 400 == 0),
        days_before_year(y + 400) == days_before_year(y) + 400 * 365 + 97,
{
    let p = y - 1;
    assert((p + 400) / 4 == p / 4 + 100);
    assert((p + 400) / 100 == p / 100 + 4);
    assert((p + 400) / 400 == p / 400 + 1);
    assert(y % 100 == 0 ==> y % 4 == 0);
}

/// A time of day tells hours, minutes and seconds that make up the seconds of the day.
pub proof fn law_time_of_day_adds_up(secs: int, sep: Seq<char>) -> (r: (nat, nat, nat))
    requires
        0 <= secs,
    ensures
        r.0 < 24,
        r.1 < 60,
        r.2 < 60,
        r.0 * 3600 + r.1 * 60 + r.2 == secs % 86400,
        time_text(secs, sep) == padded(r.0, 2) + sep + padded(r.1, 2) + sep + padded(r.2, 2),
{
    let t = secs % 86400;
    let h = (t / 3600) as nat;
    let m = (t % 3600 / 60) as nat;
    let s = (t % 60) as nat;
    assert(t % 3600 % 60 == t % 60);
    (h, m, s)
}

/// A date is told by its year, month and day, in this order; the compact form leaves
/// the dashes out.
pub proof fn law_dates_are_told_in_order(d: DateView)
    requires
        valid_date(d),
        0 <= d.year,
    ensures
        date_text(d) == padded(d.year as nat, 4) + "-"@ + padded(d.month as nat, 2) + "-"@ + padded(
            d.day as nat,
            2,
        ),
        compact_date_text(d) == padded(d.year as nat, 4) + padded(d.month as nat, 2) + padded(
            d.day as nat,
            2,
        ),
{
}

/// The Unix epoch is the first of January 1970, and the day after a day has the next
/// number.
pub proof fn law_days_are_counted_from_the_epoch(d: DateView)
    requires
        valid_date(d),
    ensures
        day_number((DateView { year: 1970, month: 1, day: 1 })) == 0,
        d.day < month_len(d.year, d.month) ==> day_number(
            (DateView { day: d.day + 1, ..d }),
        ) == day_number(d) + 1,
        d.day == month_len(d.year, d.month) && d.month < 12 ==> day_number(
            (DateView { year: d.year, month: d.month + 1, day: 1 }),
        ) == day_number(d) + 1,
        d.day == 31 && d.month == 12 ==> day_number(
            (DateView { year: d.year + 1, month: 1, day: 1 }),
        ) == day_number(d) + 1,
{
    law_years_follow(d.year);
    law_months_fill_year(d.year);
    reveal_with_fuel(days_before_month, 2);
}

} // verus!
