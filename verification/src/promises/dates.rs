//! Dates count the seconds of the calendar: the second that follows has the number that
//! follows, and the count starts with 1970.

use crate::dates;
use crate::text;
use vstd::prelude::*;

verus! {

/// A second of the calendar.
pub struct Moment {
    pub year: int,
    pub month: int,
    pub day: int,
    pub hour: int,
    pub minute: int,
    pub second: int,
}

/// How long a month is: April, June, September and November have thirty days, February
/// has twenty-eight, and one more every fourth year but in three of four centuries.
pub open spec fn length_of(year: int, month: int) -> int {
    let short = month == 4 || month == 6 || month == 9 || month == 11;
    let leap = year % 400 == 0 || (year % 4 == 0 && year % 100 != 0);
    if short {
        30
    } else if month != 2 {
        31
    } else if leap {
        29
    } else {
        28
    }
}

/// The moment exists, in a year of four digits.
pub open spec fn is_real(m: Moment) -> bool {
    &&& 1 <= m.year <= 9999
    &&& 1 <= m.month <= 12
    &&& 1 <= m.day <= length_of(m.year, m.month)
    &&& 0 <= m.hour <= 23
    &&& 0 <= m.minute <= 59
    &&& 0 <= m.second <= 59
}

/// The second that follows.
pub open spec fn following(m: Moment) -> Moment {
    if m.second < 59 {
        Moment { second: m.second + 1, ..m }
    } else if m.minute < 59 {
        Moment { minute: m.minute + 1, second: 0, ..m }
    } else if m.hour < 23 {
        Moment { hour: m.hour + 1, minute: 0, second: 0, ..m }
    } else if m.day < length_of(m.year, m.month) {
        Moment { day: m.day + 1, hour: 0, minute: 0, second: 0, ..m }
    } else if m.month < 12 {
        Moment { month: m.month + 1, day: 1, hour: 0, minute: 0, second: 0, ..m }
    } else {
        Moment { year: m.year + 1, month: 1, day: 1, hour: 0, minute: 0, second: 0 }
    }
}

/// `a` comes before `b`.
pub open spec fn is_earlier(a: Moment, b: Moment) -> bool {
    if a.year != b.year {
        a.year < b.year
    } else if a.month != b.month {
        a.month < b.month
    } else if a.day != b.day {
        a.day < b.day
    } else if a.hour != b.hour {
        a.hour < b.hour
    } else if a.minute != b.minute {
        a.minute < b.minute
    } else {
        a.second < b.second
    }
}

/// The last digit of a number.
pub open spec fn last_digit(n: int) -> char {
    (48 + n % 10) as char
}

/// A moment, written up to its seconds: `YYYY-MM-DDTHH:MM:SS`.
pub open spec fn stamp(m: Moment) -> Seq<char> {
    seq![
        last_digit(m.year / 1000),
        last_digit(m.year / 100),
        last_digit(m.year / 10),
        last_digit(m.year),
        '-',
        last_digit(m.month / 10),
        last_digit(m.month),
        '-',
        last_digit(m.day / 10),
        last_digit(m.day),
        'T',
        last_digit(m.hour / 10),
        last_digit(m.hour),
        ':',
        last_digit(m.minute / 10),
        last_digit(m.minute),
        ':',
        last_digit(m.second / 10),
        last_digit(m.second),
    ]
}

/// What may stand behind the seconds: the mark of UTC, or a fraction and then that mark.
pub open spec fn is_tail(tail: Seq<char>) -> bool {
    ||| tail == seq!['Z']
    ||| {
        &&& tail.len() >= 3
        &&& tail[0] == '.'
        &&& tail.last() == 'Z'
        &&& forall|i: int| 1 <= i < tail.len() - 1 ==> '0' <= #[trigger] tail[i] <= '9'
    }
}

proof fn lemma_two_digits(a: int, b: int, s: Seq<char>)
    requires
        s =~= seq![last_digit(a), last_digit(b)],
    ensures
        text::all_digits(s),
        text::numeral_value(s) == (a % 10) * 10 + b % 10,
{
    reveal_with_fuel(text::numeral_value, 3);
    assert(s.drop_last() =~= seq![last_digit(a)]);
    assert(s.drop_last().drop_last() =~= Seq::empty());
}

proof fn lemma_four_digits(n: int, s: Seq<char>)
    requires
        0 <= n <= 9999,
        s =~= seq![
            last_digit(n / 1000),
            last_digit(n / 100),
            last_digit(n / 10),
            last_digit(n),
        ],
    ensures
        text::all_digits(s),
        text::numeral_value(s) == n,
{
    let front = s.take(2);
    assert(front =~= seq![last_digit(n / 1000), last_digit(n / 100)]);
    lemma_two_digits(n / 1000, n / 100, front);
    assert(s.drop_last().drop_last() =~= front);
    reveal_with_fuel(text::numeral_value, 3);
    assert(n == (n / 1000 % 10) * 1000 + (n / 100 % 10) * 100 + (n / 10 % 10) * 10 + n % 10);
}

proof fn lemma_field(s: Seq<char>, i: int, n: int)
    requires
        0 <= i <= s.len() - 2,
        0 <= n <= 99,
        s[i] == last_digit(n / 10),
        s[i + 1] == last_digit(n),
    ensures
        text::all_digits(s.subrange(i, i + 2)),
        dates::number_at(s, i, i + 2) == n,
{
    lemma_two_digits(n / 10, n, s.subrange(i, i + 2));
}

/// Every moment can be read, whatever fraction stands behind its seconds.
proof fn lemma_read(m: Moment, tail: Seq<char>)
    requires
        is_real(m),
        is_tail(tail),
    ensures
        dates::date_of(stamp(m) + tail) == Some(
            dates::unix_seconds(m.year, m.month, m.day, m.hour, m.minute, m.second),
        ),
{
    let s = stamp(m) + tail;
    assert(s.take(19) =~= stamp(m));
    lemma_four_digits(m.year, s.subrange(0, 4));
    lemma_field(s, 5, m.month);
    lemma_field(s, 8, m.day);
    lemma_field(s, 11, m.hour);
    lemma_field(s, 14, m.minute);
    lemma_field(s, 17, m.second);
    assert(s.last() == tail.last());
    if tail.len() > 1 {
        assert(s[19] == tail[0]);
        let fraction = s.subrange(20, s.len() - 1);
        assert forall|i: int| 0 <= i < fraction.len() implies '0' <= #[trigger] fraction[i]
            <= '9' by {
            assert(fraction[i] == tail[i + 1]);
        }
    }
}

proof fn lemma_months(year: int, a: int, b: int)
    requires
        1 <= a < b <= 12,
    ensures
        dates::days_before_month(year, a) + length_of(year, a) <= dates::days_before_month(year, b),
        dates::days_before_month(year, a) >= 0,
    decreases b - a,
{
    lemma_months_grow(year, a);
    if a + 1 < b {
        lemma_months(year, a, b - 1);
    }
}

proof fn lemma_months_grow(year: int, month: int)
    requires
        1 <= month <= 12,
    ensures
        dates::days_before_month(year, month) >= 0,
    decreases month,
{
    if month > 1 {
        lemma_months_grow(year, month - 1);
    }
}

proof fn lemma_years(a: int, b: int)
    requires
        1 <= a < b,
    ensures
        dates::days_before_year(a) + dates::days_before_month(a, 12) + length_of(a, 12)
            <= dates::days_before_year(b),
    decreases b - a,
{
    if a + 1 < b {
        lemma_years(a, b - 1);
        dates::law_years_join(b - 1);
        lemma_months_grow(b - 1, 12);
    } else {
        dates::law_years_join(a);
    }
}

/// Every moment of the calendar can be read, and a fraction of its second does not count.
pub proof fn law_every_moment_is_read(m: Moment, tail: Seq<char>)
    requires
        is_real(m),
        is_tail(tail),
    ensures
        dates::date_of(stamp(m) + tail) is Some,
        dates::date_of(stamp(m) + tail) == dates::date_of(stamp(m) + seq!['Z']),
{
    lemma_read(m, tail);
    lemma_read(m, seq!['Z']);
}

/// The second that follows, on whatever day, in whatever month and year, has the number
/// that follows.
pub proof fn law_following_second_counts_one_more(m: Moment, tail: Seq<char>, other: Seq<char>)
    requires
        is_real(m),
        is_real(following(m)),
        is_tail(tail),
        is_tail(other),
    ensures
        dates::date_of(stamp(m) + tail) matches Some(at) && dates::date_of(
            stamp(following(m)) + other,
        ) == Some(at + 1),
{
    lemma_read(m, tail);
    lemma_read(following(m), other);
    lemma_following(m);
}

/// The day that follows has the number that follows.
proof fn lemma_next_day(m: Moment)
    requires
        is_real(m),
    ensures
        ({
            let (year, month, day) = if m.day < length_of(m.year, m.month) {
                (m.year, m.month, m.day + 1)
            } else if m.month < 12 {
                (m.year, m.month + 1, 1)
            } else {
                (m.year + 1, 1, 1)
            };
            dates::days_before_year(year) + dates::days_before_month(year, month) + day
                == dates::days_before_year(m.year) + dates::days_before_month(m.year, m.month)
                + m.day + 1
        }),
{
    dates::law_years_join(m.year);
}

proof fn lemma_following(m: Moment)
    requires
        is_real(m),
    ensures
        ({
            let n = following(m);
            dates::unix_seconds(n.year, n.month, n.day, n.hour, n.minute, n.second)
                == dates::unix_seconds(m.year, m.month, m.day, m.hour, m.minute, m.second) + 1
        }),
{
    lemma_next_day(m);
}

/// The count starts with 1970.
pub proof fn law_count_starts_with_1970()
    ensures
        ({
            let start = Moment { year: 1970, month: 1, day: 1, hour: 0, minute: 0, second: 0 };
            dates::date_of(stamp(start) + seq!['Z']) == Some(0int)
        }),
{
    let start = Moment { year: 1970, month: 1, day: 1, hour: 0, minute: 0, second: 0 };
    lemma_read(start, seq!['Z']);
}

/// Of two moments the later one has the larger number.
pub proof fn law_later_is_larger(a: Moment, b: Moment, tail: Seq<char>, other: Seq<char>)
    requires
        is_real(a),
        is_real(b),
        is_earlier(a, b),
        is_tail(tail),
        is_tail(other),
    ensures
        dates::date_of(stamp(a) + tail) matches Some(x) && (dates::date_of(
            stamp(b) + other,
        ) matches Some(y) && x < y),
{
    lemma_read(a, tail);
    lemma_read(b, other);
    lemma_months_grow(b.year, b.month);
    if a.year != b.year {
        lemma_years(a.year, b.year);
        if a.month < 12 {
            lemma_months(a.year, a.month, 12);
        }
    } else if a.month != b.month {
        lemma_months(a.year, a.month, b.month);
    }
}

/// Nothing but a moment of the calendar is read as a date.
pub proof fn law_nothing_else_is_a_date(s: Seq<char>)
    requires
        dates::date_of(s) is Some,
    ensures
        exists|m: Moment|
            is_real(m) && s.len() >= 20 && s.take(19) == #[trigger] stamp(m) && is_tail(s.skip(19)),
{
    let m = Moment {
        year: dates::number_at(s, 0, 4),
        month: dates::number_at(s, 5, 7),
        day: dates::number_at(s, 8, 10),
        hour: dates::number_at(s, 11, 13),
        minute: dates::number_at(s, 14, 16),
        second: dates::number_at(s, 17, 19),
    };
    lemma_four_read(s, 0);
    lemma_two_read(s, 5);
    lemma_two_read(s, 8);
    lemma_two_read(s, 11);
    lemma_two_read(s, 14);
    lemma_two_read(s, 17);
    assert(s.take(19) =~= stamp(m));
    let tail = s.skip(19);
    if s.len() == 20 {
        assert(tail =~= seq!['Z']);
    } else {
        let fraction = s.subrange(20, s.len() - 1);
        assert forall|i: int| 1 <= i < tail.len() - 1 implies '0' <= #[trigger] tail[i] <= '9' by {
            assert(fraction[i - 1] == tail[i]);
        }
    }
}

proof fn lemma_two_read(s: Seq<char>, i: int)
    requires
        0 <= i <= s.len() - 2,
        text::all_digits(s.subrange(i, i + 2)),
    ensures
        ({
            let n = dates::number_at(s, i, i + 2);
            0 <= n <= 99 && s[i] == last_digit(n / 10) && s[i + 1] == last_digit(n)
        }),
{
    let part = s.subrange(i, i + 2);
    reveal_with_fuel(text::numeral_value, 3);
    assert(part[0] == s[i]);
    assert(part[1] == s[i + 1]);
    assert(part.drop_last().drop_last() =~= Seq::empty());
    assert(part.drop_last().last() == s[i]);
}

proof fn lemma_four_read(s: Seq<char>, i: int)
    requires
        0 <= i <= s.len() - 4,
        text::all_digits(s.subrange(i, i + 4)),
    ensures
        ({
            let n = dates::number_at(s, i, i + 4);
            &&& 0 <= n <= 9999
            &&& s[i] == last_digit(n / 1000)
            &&& s[i + 1] == last_digit(n / 100)
            &&& s[i + 2] == last_digit(n / 10)
            &&& s[i + 3] == last_digit(n)
        }),
{
    let part = s.subrange(i, i + 4);
    let front = s.subrange(i, i + 2);
    assert forall|k: int| 0 <= k < front.len() implies '0' <= #[trigger] front[k] <= '9' by {
        assert(part[k] == front[k]);
    }
    lemma_two_read(s, i);
    reveal_with_fuel(text::numeral_value, 3);
    assert(part[2] == s[i + 2]);
    assert(part[3] == s[i + 3]);
    assert(part.drop_last().last() == s[i + 2]);
    assert(part.drop_last().drop_last() =~= front);
}

} // verus!
