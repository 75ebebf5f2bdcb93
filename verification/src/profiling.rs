//! Timestamps in the names of profiles. Sampling and writing stay outside.
use vstd::prelude::*;

use crate::clock::UnixTime;
use crate::text;

verus! {

/// Default sampling frequency (Hz).
pub const DEFAULT_FREQUENCY: i32 = 99;

/// Whether a year of the Gregorian calendar has a leap day.
pub open spec fn leap(year: int) -> bool {
    (year % 4 == 0 && year % 100 != 0) || year % 400 == 0
}

/// Days in a year.
pub open spec fn year_len(year: int) -> int {
    if leap(year) {
        366
    } else {
        365
    }
}

/// Days from the start of 1970 to the start of `year`.
pub open spec fn days_before_year(year: int) -> int
    decreases year - 1970,
{
    if year <= 1970 {
        0
    } else {
        days_before_year(year - 1) + year_len(year - 1)
    }
}

/// Days in a month, 1 = January.
pub open spec fn month_len(year: int, month: int) -> int {
    if month == 2 {
        if leap(year) {
            29
        } else {
            28
        }
    } else if month == 4 || month == 6 || month == 9 || month == 11 {
        30
    } else {
        31
    }
}

/// Days from the start of the year to the start of the month.
pub open spec fn days_before_month(year: int, month: int) -> int
    decreases month,
{
    if month <= 1 {
        0
    } else {
        days_before_month(year, month - 1) + month_len(year, month - 1)
    }
}

/// The date of the day that is `days` days after 1970-01-01.
pub open spec fn is_date(days: int, year: int, month: int, day: int) -> bool {
    &&& year >= 1970
    &&& 1 <= month <= 12
    &&& 1 <= day <= month_len(year, month)
    &&& days == days_before_year(year) + days_before_month(year, month) + day - 1
}

pub fn is_leap_year(year: u64) -> (r: bool)
    ensures
        r == leap(year as int),
{
    (year % 4 == 0 && year % 100 != 0) || year % 400 == 0
}

fn days_in_year(year: u64) -> (r: u64)
    ensures
        r == year_len(year as int),
{
    if is_leap_year(year) {
        366
    } else {
        365
    }
}

/// A date.
#[derive(Debug, Clone, Copy, PartialEq, Eq, Structural)]
pub struct Date {
    pub year: u64,
    pub month: u64,
    pub day: u64,
}

proof fn lemma_year_days(year: int)
    ensures
        days_before_month(year, 13) == year_len(year),
{
    reveal_with_fuel(days_before_month, 14);
}

/// The date of the day that is `days` days after 1970-01-01.
pub fn days_to_date(days: u64) -> (r: Date)
    requires
        days <= u64::MAX - 1970,
    ensures
        is_date(days as int, r.year as int, r.month as int, r.day as int),
{
    let mut year: u64 = 1970;
    let mut rest = days;
    let mut len: u64 = days_in_year(year);
    while rest >= len
        invariant
            1970 <= year,
            len == year_len(year as int),
            year - 1970 + rest <= days <= u64::MAX - 1970,
            days == days_before_year(year as int) + rest,
        decreases rest,
    {
        rest = rest - len;
        year = year + 1;
        len = days_in_year(year);
    }
    let long = is_leap_year(year);
    let mut month: u64 = 1;
    proof {
        lemma_year_days(year as int);
    }
    loop
        invariant
            1 <= month <= 12,
            long == leap(year as int),
            year >= 1970,
            days == days_before_year(year as int) + days_before_month(year as int, month as int)
                + rest,
            days_before_month(year as int, month as int) + rest < year_len(year as int),
            days_before_month(year as int, 13) == year_len(year as int),
        decreases 13 - month,
    {
        let len: u64 = if month == 2 {
            if long {
                29
            } else {
                28
            }
        } else if month == 4 || month == 6 || month == 9 || month == 11 {
            30
        } else {
            31
        };
        assert(len == month_len(year as int, month as int));
        if rest < len {
            return Date { year, month, day: rest + 1 };
        }
        rest = rest - len;
        assert(days_before_month(year as int, month + 1) == days_before_month(
            year as int,
            month as int,
        ) + len);
        month = month + 1;
    }
}

proof fn lemma_years_grow(a: int, b: int)
    requires
        1970 <= a < b,
    ensures
        days_before_year(a) + year_len(a) <= days_before_year(b),
    decreases b - a,
{
    if a + 1 < b {
        lemma_years_grow(a, b - 1);
    }
}

proof fn lemma_months_grow(year: int, a: int, b: int)
    requires
        1 <= a < b <= 13,
    ensures
        days_before_month(year, a) + month_len(year, a) <= days_before_month(year, b),
    decreases b - a,
{
    if a + 1 < b {
        lemma_months_grow(year, a, b - 1);
    }
}

/// A day has one date.
pub proof fn law_dates_are_unique(
    days: int,
    year: int,
    month: int,
    day: int,
    year2: int,
    month2: int,
    day2: int,
)
    requires
        is_date(days, year, month, day),
        is_date(days, year2, month2, day2),
    ensures
        year == year2 && month == month2 && day == day2,
{
    lemma_year_days(year);
    lemma_year_days(year2);
    lemma_months_grow(year, month, 13);
    lemma_months_grow(year2, month2, 13);
    lemma_month_start(year, month);
    lemma_month_start(year2, month2);
    if year < year2 {
        lemma_years_grow(year, year2);
    } else if year2 < year {
        lemma_years_grow(year2, year);
    } else if month < month2 {
        lemma_months_grow(year, month, month2);
    } else if month2 < month {
        lemma_months_grow(year, month2, month);
    }
}

proof fn lemma_month_start(year: int, month: int)
    ensures
        days_before_month(year, month) >= 0,
    decreases month,
{
    if month > 1 {
        lemma_month_start(year, month - 1);
    }
}

/// A time of day on a date as `YYYYMMDD_HHMMSS`.
pub open spec fn stamp(year: int, month: int, day: int, secs: int) -> Seq<char> {
    text::padded(year as nat, 4) + text::padded(month as nat, 2) + text::padded(day as nat, 2)
        + seq!['_'] + text::padded((secs / 3600) as nat, 2) + text::padded(
        (secs / 60 % 60) as nat,
        2,
    ) + text::padded((secs % 60) as nat, 2)
}

/// Seconds since the epoch; 0 before it.
pub open spec fn seconds_of(t: UnixTime) -> int {
    if t.secs < 0 {
        0
    } else {
        t.secs as int
    }
}

/// Format a time as `YYYYMMDD_HHMMSS` (UTC).
pub fn format_timestamp(now: UnixTime) -> (r: String)
    ensures
        forall|y: int, m: int, d: int|
            is_date(seconds_of(now) / 86400, y, m, d) ==> r@ == #[trigger] stamp(
                y,
                m,
                d,
                seconds_of(now) % 86400,
            ),
        exists|y: int, m: int, d: int|
            is_date(seconds_of(now) / 86400, y, m, d) && r@ == #[trigger] stamp(
                y,
                m,
                d,
                seconds_of(now) % 86400,
            ),
{
    let secs: u64 = if now.secs < 0 {
        0
    } else {
        now.secs as u64
    };
    let days = secs / 86400;
    let time_secs = secs % 86400;
    let date = days_to_date(days);
    let mut out = String::new();
    text::push_padded(&mut out, date.year, 4);
    text::push_padded(&mut out, date.month, 2);
    text::push_padded(&mut out, date.day, 2);
    out.push('_');
    text::push_padded(&mut out, time_secs / 3600, 2);
    text::push_padded(&mut out, time_secs / 60 % 60, 2);
    text::push_padded(&mut out, time_secs % 60, 2);
    proof {
        let t = stamp(
            date.year as int,
            date.month as int,
            date.day as int,
            seconds_of(now) % 86400,
        );
        assert(out@ =~= t);
        assert forall|y: int, m: int, d: int|
            is_date(seconds_of(now) / 86400, y, m, d) implies out@ == #[trigger] stamp(
            y,
            m,
            d,
            seconds_of(now) % 86400,
        ) by {
            law_dates_are_unique(
                seconds_of(now) / 86400,
                y,
                m,
                d,
                date.year as int,
                date.month as int,
                date.day as int,
            );
        }
    }
    out
}

/// The name of a profile: prefix and timestamp.
pub fn profile_name(prefix: &str, timestamp: &str) -> (r: String)
    ensures
        r@ == prefix@ + seq!['_'] + timestamp@ + ".svg"@,
{
    let mut out = String::new();
    text::push_str(&mut out, prefix);
    out.push('_');
    text::push_str(&mut out, timestamp);
    text::push_str(&mut out, ".svg");
    assert(out@ =~= prefix@ + seq!['_'] + timestamp@ + ".svg"@);
    out
}

// ── the calendar ────────────────────────────────────────────────────────

/// The days before a year follow from its number: 365 for each year, one more
/// for every fourth, but not for a hundredth that is no four hundredth.
pub proof fn law_days_before_years(year: int)
    requires
        year >= 1970,
    ensures
        days_before_year(year) == 365 * (year - 1970) + (year - 1) / 4 - (year - 1) / 100 + (year
            - 1) / 400 - 477,
    decreases year,
{
    if year > 1970 {
        law_days_before_years(year - 1);
    }
}

/// The months begin on the days that everybody knows; from March on one later
/// in a leap year.
pub proof fn law_months_begin(year: int)
    ensures
        ({
            let d: int = if year % 4 == 0 && (year % 100 != 0 || year % 400 == 0) {
                1
            } else {
                0
            };
            &&& days_before_month(year, 1) == 0
            &&& days_before_month(year, 2) == 31
            &&& days_before_month(year, 3) == 59 + d
            &&& days_before_month(year, 4) == 90 + d
            &&& days_before_month(year, 5) == 120 + d
            &&& days_before_month(year, 6) == 151 + d
            &&& days_before_month(year, 7) == 181 + d
            &&& days_before_month(year, 8) == 212 + d
            &&& days_before_month(year, 9) == 243 + d
            &&& days_before_month(year, 10) == 273 + d
            &&& days_before_month(year, 11) == 304 + d
            &&& days_before_month(year, 12) == 334 + d
        }),
{
    reveal_with_fuel(days_before_month, 13);
}

/// A day after a day is the next of its month, the first of the next month, or
/// the first of the next year.
pub proof fn law_days_follow_each_other(days: int, year: int, month: int, day: int)
    requires
        is_date(days, year, month, day),
    ensures
        is_date(days + 1, year, month, day + 1) || is_date(days + 1, year, month + 1, 1)
            || is_date(days + 1, year + 1, 1, 1),
        is_date(0, 1970, 1, 1),
{
    lemma_year_days(year);
    assert(days_before_month(year, month + 1) == days_before_month(year, month) + month_len(
        year,
        month,
    ));
    assert(days_before_year(year + 1) == days_before_year(year) + year_len(year));
}

/// A stamp is fifteen characters that sort by time: four digits of the year, two
/// each of month and day, a low line, and two each of hour, minute and second.
pub proof fn law_stamps_are_read_back(year: int, month: int, day: int, secs: int)
    requires
        0 <= year < 10_000,
        0 <= month < 100,
        0 <= day < 100,
        0 <= secs < 86_400,
    ensures
        ({
            let t = stamp(year, month, day, secs);
            &&& t.len() == 15
            &&& 100 * two_digits(t, 0) + two_digits(t, 2) == year
            &&& two_digits(t, 4) == month
            &&& two_digits(t, 6) == day
            &&& t[8] == '_'
            &&& two_digits(t, 9) < 24 && two_digits(t, 11) < 60 && two_digits(t, 13) < 60
            &&& 3_600 * two_digits(t, 9) + 60 * two_digits(t, 11) + two_digits(t, 13) == secs
        }),
{
    let (h, m, s) = (secs / 3600, secs / 60 % 60, secs % 60);
    lemma_padded_four(year as nat);
    lemma_padded_two(month as nat);
    lemma_padded_two(day as nat);
    lemma_padded_two(h as nat);
    lemma_padded_two(m as nat);
    lemma_padded_two(s as nat);
    let t = stamp(year, month, day, secs);
    let y = text::padded(year as nat, 4);
    assert(t[0] == y[0] && t[1] == y[1] && t[2] == y[2] && t[3] == y[3]);
    let mm = text::padded(month as nat, 2);
    let dd = text::padded(day as nat, 2);
    let hh = text::padded(h as nat, 2);
    let nn = text::padded(m as nat, 2);
    let ss = text::padded(s as nat, 2);
    assert(t[4] == mm[0] && t[5] == mm[1] && t[6] == dd[0] && t[7] == dd[1]);
    assert(t[9] == hh[0] && t[10] == hh[1] && t[11] == nn[0] && t[12] == nn[1]);
    assert(t[13] == ss[0] && t[14] == ss[1]);
}

/// The number that two digits make.
pub open spec fn two_digits(t: Seq<char>, i: int) -> int {
    10 * (t[i] as int - 48) + (t[i + 1] as int - 48)
}

proof fn lemma_padded_two(n: nat)
    requires
        n < 100,
    ensures
        text::padded(n, 2).len() == 2,
        two_digits(text::padded(n, 2), 0) == n,
{
    reveal_with_fuel(text::decimal, 3);
}

proof fn lemma_padded_four(n: nat)
    requires
        n < 10_000,
    ensures
        text::padded(n, 4).len() == 4,
        100 * two_digits(text::padded(n, 4), 0) + two_digits(text::padded(n, 4), 2) == n,
{
    reveal_with_fuel(text::decimal, 5);
    let p = text::padded(n, 4);
    if n < 10 {
        assert(text::decimal(n).len() == 1);
    } else if n < 100 {
        assert(text::decimal(n).len() == 2);
    } else if n < 1000 {
        assert(text::decimal(n).len() == 3);
    } else {
        assert(text::decimal(n).len() == 4);
    }
}

} // verus!
