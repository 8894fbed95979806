//! Dates in the form in which Gamma states them: `YYYY-MM-DDTHH:MM:SSZ`, with or
//! without a fraction of the second.

use crate::text;
use vstd::prelude::*;

verus! {

pub open spec fn is_leap_year(year: int) -> bool {
    year % 4 == 0 && (year % 100 != 0 || year % 400 == 0)
}

pub open spec fn days_in_month(year: int, month: int) -> int {
    if month == 2 {
        if is_leap_year(year) {
            29
        } else {
            28
        }
    } else if month == 4 || month == 6 || month == 9 || month == 11 {
        30
    } else {
        31
    }
}

/// The days of a year before its month `month`.
pub open spec fn days_before_month(year: int, month: int) -> int
    decreases month,
{
    if month <= 1 {
        0
    } else {
        days_before_month(year, month - 1) + days_in_month(year, month - 1)
    }
}

/// The days from the start of year 1 to the start of `year`.
pub open spec fn days_before_year(year: int) -> int {
    365 * (year - 1) + (year - 1) / 4 - (year - 1) / 100 + (year - 1) / 400
}

/// The seconds from the start of 1970 to a point in time.
pub open spec fn unix_seconds(
    year: int,
    month: int,
    day: int,
    hour: int,
    minute: int,
    second: int,
) -> int {
    (days_before_year(year) - days_before_year(1970) + days_before_month(year, month) + day - 1)
        * 86400 + hour * 3600 + minute * 60 + second
}

/// The number that the digits from `from` up to `to` make.
pub open spec fn number_at(s: Seq<char>, from: int, to: int) -> int {
    text::numeral_value(s.subrange(from, to)) as int
}

/// What follows the seconds: nothing but the mark of UTC, or a fraction before it.
pub open spec fn ends_in_utc(s: Seq<char>) -> bool {
    &&& s.last() == 'Z'
    &&& s.len() == 20 || s.len() >= 22 && s[19] == '.' && text::all_digits(
        s.subrange(20, s.len() - 1),
    )
}

/// The text has the form of a date.
pub open spec fn has_form(s: Seq<char>) -> bool {
    &&& s.len() >= 20
    &&& text::all_digits(s.subrange(0, 4))
    &&& s[4] == '-'
    &&& text::all_digits(s.subrange(5, 7))
    &&& s[7] == '-'
    &&& text::all_digits(s.subrange(8, 10))
    &&& s[10] == 'T'
    &&& text::all_digits(s.subrange(11, 13))
    &&& s[13] == ':'
    &&& text::all_digits(s.subrange(14, 16))
    &&& s[16] == ':'
    &&& text::all_digits(s.subrange(17, 19))
    &&& ends_in_utc(s)
}

/// The numbers of a date name a day and a time that exist.
pub open spec fn exists_in_calendar(
    year: int,
    month: int,
    day: int,
    hour: int,
    minute: int,
    second: int,
) -> bool {
    &&& 1 <= year
    &&& 1 <= month <= 12
    &&& 1 <= day <= days_in_month(year, month)
    &&& hour < 24
    &&& minute < 60
    &&& second < 60
}

/// The second in which the date falls, counted from 1970; none for a text that is no
/// date.
pub open spec fn date_of(s: Seq<char>) -> Option<int> {
    let year = number_at(s, 0, 4);
    let month = number_at(s, 5, 7);
    let day = number_at(s, 8, 10);
    let hour = number_at(s, 11, 13);
    let minute = number_at(s, 14, 16);
    let second = number_at(s, 17, 19);
    if has_form(s) && exists_in_calendar(year, month, day, hour, minute, second) {
        Some(unix_seconds(year, month, day, hour, minute, second))
    } else {
        None
    }
}

/// Reads the number between two positions, of at most four digits.
fn read_number(s: &str, from: usize, to: usize) -> (r: Option<i64>)
    requires
        from < to <= s@.len(),
        to - from <= 4,
    ensures
        match r {
            Some(n) => text::all_digits(s@.subrange(from as int, to as int)) && n == number_at(
                s@,
                from as int,
                to as int,
            ) && 0 <= n < 10000,
            None => !text::all_digits(s@.subrange(from as int, to as int)),
        },
{
    let ghost digits = s@.subrange(from as int, to as int);
    let ghost mut bound: int = 1;
    let mut value: i64 = 0;
    let mut i: usize = from;
    assert(digits.take(0) =~= Seq::empty());
    while i < to
        invariant
            from <= i <= to <= s@.len(),
            to - from <= 4,
            digits == s@.subrange(from as int, to as int),
            text::all_digits(digits.take(i - from)),
            value == text::numeral_value(digits.take(i - from)),
            0 <= value < bound,
            bound == if i - from == 0 {
                1int
            } else if i - from == 1 {
                10int
            } else if i - from == 2 {
                100int
            } else if i - from == 3 {
                1000int
            } else {
                10000int
            },
        decreases to - i,
    {
        let c = s.get_char(i);
        assert(c == digits[i - from]);
        if c < '0' || c > '9' {
            return None;
        }
        let d: i64 = c as i64 - 48;
        assert(digits.take(i - from + 1).drop_last() =~= digits.take(i - from));
        assert(digits.take(i - from + 1).last() == c);
        value = value * 10 + d;
        proof {
            bound = bound * 10;
        }
        i = i + 1;
    }
    assert(digits.take(i - from) =~= digits);
    Some(value)
}

fn read_end(s: &str) -> (yes: bool)
    requires
        s@.len() >= 20,
    ensures
        yes == ends_in_utc(s@),
{
    let n: usize = s.unicode_len();
    if s.get_char(n - 1) != 'Z' {
        return false;
    }
    if n == 20 {
        return true;
    }
    if n < 22 || s.get_char(19) != '.' {
        return false;
    }
    let ghost fraction = s@.subrange(20, n - 1);
    let mut i: usize = 20;
    while i < n - 1
        invariant
            20 <= i <= n - 1,
            n == s@.len(),
            fraction == s@.subrange(20, n - 1),
            forall|k: int| 0 <= k < i - 20 ==> '0' <= #[trigger] fraction[k] <= '9',
        decreases n - i,
    {
        let c = s.get_char(i);
        assert(c == fraction[i - 20]);
        if c < '0' || c > '9' {
            return false;
        }
        i = i + 1;
    }
    true
}

fn month_days(year: i64, month: i64) -> (n: i64)
    requires
        0 <= year < 10000,
    ensures
        n == days_in_month(year as int, month as int),
        28 <= n <= 31,
{
    if month == 2 {
        if year % 4 == 0 && (year % 100 != 0 || year % 400 == 0) {
            29
        } else {
            28
        }
    } else if month == 4 || month == 6 || month == 9 || month == 11 {
        30
    } else {
        31
    }
}

fn day_number(year: i64, month: i64, day: i64) -> (n: i64)
    requires
        1 <= year < 10000,
        1 <= month <= 12,
        1 <= day <= 31,
    ensures
        n == days_before_year(year as int) - days_before_year(1970) + days_before_month(
            year as int,
            month as int,
        ) + day - 1,
        -1_000_000 < n < 10_000_000,
{
    let past: i64 = year - 1;
    let years: i64 = 365 * past + past / 4 - past / 100 + past / 400;
    assert(years == days_before_year(year as int));
    assert(days_before_year(1970) == 719162);
    let mut months: i64 = 0;
    let mut m: i64 = 1;
    while m < month
        invariant
            1 <= year < 10000,
            1 <= m <= month <= 12,
            months == days_before_month(year as int, m as int),
            0 <= months <= 31 * (m - 1),
        decreases month - m,
    {
        months = months + month_days(year, m);
        m = m + 1;
    }
    years - 719162 + months + day - 1
}

/// Reads a date.
pub fn parse_date(s: &str) -> (r: Option<i64>)
    ensures
        match r {
            Some(at) => date_of(s@) == Some(at as int),
            None => date_of(s@) is None,
        },
{
    if s.unicode_len() < 20 || !read_end(s) {
        return None;
    }
    if s.get_char(4) != '-' || s.get_char(7) != '-' || s.get_char(10) != 'T' || s.get_char(13)
        != ':' || s.get_char(16) != ':' {
        return None;
    }
    match (
        read_number(s, 0, 4),
        read_number(s, 5, 7),
        read_number(s, 8, 10),
        read_number(s, 11, 13),
        read_number(s, 14, 16),
        read_number(s, 17, 19),
    ) {
        (Some(year), Some(month), Some(day), Some(hour), Some(minute), Some(second)) => {
            if year < 1 || month < 1 || month > 12 || day < 1 || day > month_days(year, month)
                || hour >= 24 || minute >= 60 || second >= 60 {
                return None;
            }
            Some(day_number(year, month, day) * 86400 + hour * 3600 + minute * 60 + second)
        },
        _ => None,
    }
}

/// The quotient grows by one exactly at the multiples.
proof fn lemma_quotient_step(n: int, d: int)
    requires
        d == 4 || d == 100 || d == 400,
    ensures
        n / d - (n - 1) / d == if n % d == 0 {
            1int
        } else {
            0int
        },
{
    if d == 4 {
        assert(n / 4 - (n - 1) / 4 == if n % 4 == 0 { 1int } else { 0int });
    } else if d == 100 {
        assert(n / 100 - (n - 1) / 100 == if n % 100 == 0 { 1int } else { 0int });
    } else {
        assert(n / 400 - (n - 1) / 400 == if n % 400 == 0 { 1int } else { 0int });
    }
}

proof fn lemma_days_in_year(year: int)
    ensures
        days_before_month(year, 12) + days_in_month(year, 12) == if is_leap_year(year) {
            366int
        } else {
            365int
        },
{
    let feb = days_in_month(year, 2);
    assert(days_before_month(year, 1) == 0);
    assert(days_before_month(year, 2) == 31);
    assert(days_before_month(year, 3) == 31 + feb);
    assert(days_before_month(year, 4) == 62 + feb);
    assert(days_before_month(year, 5) == 92 + feb);
    assert(days_before_month(year, 6) == 123 + feb);
    assert(days_before_month(year, 7) == 153 + feb);
    assert(days_before_month(year, 8) == 184 + feb);
    assert(days_before_month(year, 9) == 215 + feb);
    assert(days_before_month(year, 10) == 245 + feb);
    assert(days_before_month(year, 11) == 276 + feb);
    assert(days_before_month(year, 12) == 306 + feb);
}

/// The year that follows has the days of this one behind it.
pub proof fn law_years_join(year: int)
    requires
        1 <= year,
    ensures
        days_before_year(year + 1) == days_before_year(year) + days_before_month(year, 12)
            + days_in_month(year, 12),
{
    lemma_days_in_year(year);
    lemma_quotient_step(year, 4);
    lemma_quotient_step(year, 100);
    lemma_quotient_step(year, 400);
    assert(year % 400 == 0 ==> year % 100 == 0);
    assert(year % 100 == 0 ==> year % 4 == 0);
}

} // verus!
