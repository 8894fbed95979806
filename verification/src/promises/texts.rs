//! What is done to texts: comparing, trimming, splitting, reading and writing numbers.

use crate::text;
use vstd::prelude::*;

verus! {

/// The byte string of `a` is a proper beginning of that of `b`, or has the smaller byte
/// where the two first differ.
pub open spec fn precedes(a: Seq<char>, b: Seq<char>) -> bool {
    let (x, y) = (vstd::utf8::encode_utf8(a), vstd::utf8::encode_utf8(b));
    exists|k: int|
        0 <= k <= x.len() && k < y.len() && #[trigger] x.take(k) == y.take(k) && (k == x.len()
            || x[k] < y[k])
}

/// Tickers are ordered by the bytes of their UTF-8 encoding.
pub proof fn law_order_is_by_bytes(a: Seq<char>, b: Seq<char>)
    ensures
        text::before(a, b) <==> precedes(a, b),
{
    let (x, y) = (vstd::utf8::encode_utf8(a), vstd::utf8::encode_utf8(b));
    if text::before(a, b) {
        let k = choose|k: int| text::falls_below_at(x, y, k);
        assert(x.take(k) =~= y.take(k));
    }
    if precedes(a, b) {
        let k = choose|k: int|
            0 <= k <= x.len() && k < y.len() && #[trigger] x.take(k) == y.take(k) && (k == x.len()
                || x[k] < y[k]);
        assert forall|i: int| 0 <= i < k implies x[i] == y[i] by {
            assert(x.take(k)[i] == y.take(k)[i]);
        }
        assert(text::falls_below_at(x, y, k));
    }
}

/// Of two different texts exactly one comes before the other.
pub proof fn law_order_is_total(a: Seq<char>, b: Seq<char>)
    ensures
        a != b ==> (precedes(a, b) <==> !precedes(b, a)),
        !precedes(a, a),
{
    law_order_is_by_bytes(a, b);
    law_order_is_by_bytes(b, a);
    law_order_is_by_bytes(a, a);
    text::lemma_before_irreflexive(a);
    text::lemma_before_total(a, b);
    if text::before(a, b) {
        text::lemma_before_asymmetric(a, b);
    }
}

/// The text begins with the bytes of the prefix.
pub open spec fn begins_with(s: Seq<char>, prefix: Seq<char>) -> bool {
    let (x, p) = (vstd::utf8::encode_utf8(s), vstd::utf8::encode_utf8(prefix));
    p.len() <= x.len() && x.take(p.len() as int) == p
}

/// A prefix search compares byte for byte.
pub proof fn law_prefixes_are_beginnings(s: Seq<char>, prefix: Seq<char>)
    ensures
        text::starts_with(s, prefix) <==> begins_with(s, prefix),
{
    let (x, p) = (vstd::utf8::encode_utf8(s), vstd::utf8::encode_utf8(prefix));
    if begins_with(s, prefix) {
        assert(p =~= x.subrange(0, p.len() as int));
    }
    if text::starts_with(s, prefix) {
        assert(x.take(p.len() as int) =~= p);
    }
}

// ---------------------------------------------------------------------------
// White space
// ---------------------------------------------------------------------------

/// White space, as Unicode has it.
pub open spec fn is_blank(c: char) -> bool {
    let n = c as int;
    ||| n == 0x20 || n == 0x85 || n == 0xa0 || n == 0x1680 || n == 0x3000
    ||| n == 0x2028 || n == 0x2029 || n == 0x202f || n == 0x205f
    ||| 0x9 <= n <= 0xd
    ||| 0x2000 <= n <= 0x200a
}

/// `core` is `s` without the white space at its ends: around it there is nothing else, and
/// it neither starts nor ends with white space.
pub open spec fn is_core(core: Seq<char>, s: Seq<char>) -> bool {
    exists|i: int, j: int|
        {
            &&& 0 <= i <= j <= s.len()
            &&& core == #[trigger] s.subrange(i, j)
            &&& forall|k: int| 0 <= k < i || j <= k < s.len() ==> is_blank(#[trigger] s[k])
            &&& core.len() > 0 ==> !is_blank(core[0]) && !is_blank(core.last())
        }
}

proof fn lemma_front(s: Seq<char>, i: int)
    requires
        0 <= i <= s.len(),
        forall|k: int| 0 <= k < i ==> is_blank(#[trigger] s[k]),
        i < s.len() ==> !is_blank(s[i]),
    ensures
        text::trimmed_front(s) == s.skip(i),
    decreases i,
{
    if i > 0 {
        let rest = s.drop_first();
        assert(is_blank(s[0]));
        assert forall|k: int| 0 <= k < i - 1 implies is_blank(#[trigger] rest[k]) by {
            assert(is_blank(s[k + 1]));
        }
        lemma_front(rest, i - 1);
        assert(rest.skip(i - 1) =~= s.skip(i));
    } else {
        assert(s.skip(0) =~= s);
    }
}

proof fn lemma_back(s: Seq<char>, j: int)
    requires
        0 <= j <= s.len(),
        forall|k: int| j <= k < s.len() ==> is_blank(#[trigger] s[k]),
        j > 0 ==> !is_blank(s[j - 1]),
    ensures
        text::trimmed_back(s) == s.take(j),
    decreases s.len(),
{
    if j < s.len() {
        let rest = s.drop_last();
        assert(is_blank(s[s.len() - 1]));
        assert forall|k: int| j <= k < rest.len() implies is_blank(#[trigger] rest[k]) by {
            assert(is_blank(s[k]));
        }
        lemma_back(rest, j);
        assert(rest.take(j) =~= s.take(j));
    } else {
        assert(s.take(j) =~= s);
    }
}

proof fn lemma_core_is_trimmed(core: Seq<char>, s: Seq<char>)
    requires
        is_core(core, s),
    ensures
        text::trimmed(s) == core,
{
    let (i, j) = choose|i: int, j: int|
        {
            &&& 0 <= i <= j <= s.len()
            &&& core == #[trigger] s.subrange(i, j)
            &&& forall|k: int| 0 <= k < i || j <= k < s.len() ==> is_blank(#[trigger] s[k])
            &&& core.len() > 0 ==> !is_blank(core[0]) && !is_blank(core.last())
        };
    if core.len() == 0 {
        lemma_front(s, s.len() as int);
        assert(s.skip(s.len() as int) =~= Seq::empty());
        assert(core =~= Seq::empty());
    } else {
        assert(core[0] == s[i]);
        assert(core.last() == s[j - 1]);
        lemma_front(s, i);
        let rest = s.skip(i);
        assert forall|k: int| j - i <= k < rest.len() implies is_blank(#[trigger] rest[k]) by {
            assert(is_blank(s[k + i]));
        }
        lemma_back(rest, j - i);
        assert(rest.take(j - i) =~= core);
    }
}

proof fn lemma_front_blank(s: Seq<char>) -> (i: int)
    ensures
        0 <= i <= s.len(),
        forall|k: int| 0 <= k < i ==> is_blank(#[trigger] s[k]),
        i < s.len() ==> !is_blank(s[i]),
    decreases s.len(),
{
    if s.len() > 0 && is_blank(s[0]) {
        let n = lemma_front_blank(s.drop_first());
        assert forall|k: int| 0 <= k < n + 1 implies is_blank(#[trigger] s[k]) by {
            if k > 0 {
                assert(is_blank(s.drop_first()[k - 1]));
            }
        }
        n + 1
    } else {
        0
    }
}

proof fn lemma_back_blank(s: Seq<char>) -> (j: int)
    ensures
        0 <= j <= s.len(),
        forall|k: int| j <= k < s.len() ==> is_blank(#[trigger] s[k]),
        j > 0 ==> !is_blank(s[j - 1]),
    decreases s.len(),
{
    if s.len() > 0 && is_blank(s.last()) {
        let n = lemma_back_blank(s.drop_last());
        assert forall|k: int| n <= k < s.len() implies is_blank(#[trigger] s[k]) by {
            if k < s.len() - 1 {
                assert(is_blank(s.drop_last()[k]));
            }
        }
        n
    } else {
        s.len() as int
    }
}

/// Trimming takes off exactly the white space at the ends.
pub proof fn law_trimming_takes_off_white_space(s: Seq<char>, core: Seq<char>)
    ensures
        is_core(core, s) <==> text::trimmed(s) == core,
{
    let i = lemma_front_blank(s);
    let j = lemma_back_blank(s);
    let found = if i < j {
        s.subrange(i, j)
    } else {
        s.subrange(0, 0)
    };
    if i < j {
        assert(found[0] == s[i] && found.last() == s[j - 1]);
        assert(is_core(found, s));
    } else {
        assert forall|k: int| 0 <= k < s.len() implies is_blank(#[trigger] s[k]) by {
            if k >= i {
                assert(j <= k);
            }
        }
        assert(is_core(found, s));
    }
    lemma_core_is_trimmed(found, s);
    if is_core(core, s) {
        lemma_core_is_trimmed(core, s);
    }
}

/// `content` is `line` without the carriage returns and line feeds at its end.
pub open spec fn is_content(content: Seq<char>, line: Seq<char>) -> bool {
    &&& content.len() <= line.len()
    &&& content == line.take(content.len() as int)
    &&& forall|k: int|
        content.len() <= k < line.len() ==> #[trigger] line[k] == '\r' || line[k] == '\n'
    &&& content.len() > 0 ==> content.last() != '\r' && content.last() != '\n'
}

/// A line is taken without its end.
pub proof fn law_line_ends_are_taken_off(line: Seq<char>)
    ensures
        is_content(text::without_line_end(line), line),
    decreases line.len(),
{
    if line.len() > 0 && (line.last() == '\r' || line.last() == '\n') {
        let rest = line.drop_last();
        law_line_ends_are_taken_off(rest);
        let content = text::without_line_end(rest);
        assert(content =~= line.take(content.len() as int));
        assert forall|k: int| content.len() <= k < line.len() implies #[trigger] line[k] == '\r'
            || line[k] == '\n' by {
            if k < rest.len() {
                assert(rest[k] == line[k]);
            }
        }
    } else {
        assert(line.take(line.len() as int) =~= line);
    }
}

// ---------------------------------------------------------------------------
// Pieces
// ---------------------------------------------------------------------------

/// The pieces with the separator between each two of them.
pub open spec fn joined(pieces: Seq<Seq<char>>, separator: char) -> Seq<char>
    decreases pieces.len(),
{
    if pieces.len() == 0 {
        Seq::empty()
    } else if pieces.len() == 1 {
        pieces[0]
    } else {
        joined(pieces.drop_last(), separator) + seq![separator] + pieces.last()
    }
}

/// A text is split at every separator and nowhere else: the pieces make the text again,
/// and none holds the separator.
pub proof fn law_splitting_loses_nothing(s: Seq<char>, separator: char)
    ensures
        text::split_on(s, separator).len() > 0,
        joined(text::split_on(s, separator), separator) == s,
        forall|p: int, k: int|
            0 <= p < text::split_on(s, separator).len() && 0 <= k < text::split_on(
                s,
                separator,
            )[p].len() ==> #[trigger] text::split_on(s, separator)[p][k] != separator,
    decreases s.len(),
{
    if s.len() > 0 {
        let rest = s.drop_last();
        let before = text::split_on(rest, separator);
        let pieces = text::split_on(s, separator);
        law_splitting_loses_nothing(rest, separator);
        if s.last() == separator {
            assert(pieces.drop_last() =~= before);
            assert(joined(pieces, separator) =~= rest.push(separator));
        } else {
            assert(pieces.drop_last() =~= before.drop_last());
            if before.len() == 1 {
                assert(joined(pieces, separator) =~= before[0].push(s.last()));
            } else {
                assert(joined(pieces, separator) =~= joined(before, separator).push(s.last()));
            }
        }
        assert(rest.push(s.last()) =~= s);
        assert forall|p: int, k: int|
            0 <= p < pieces.len() && 0 <= k < pieces[p].len() implies #[trigger] pieces[p][k]
            != separator by {
            if p < before.len() && k < before[p].len() {
                assert(before[p][k] != separator);
            }
        }
    }
}

// ---------------------------------------------------------------------------
// Numbers
// ---------------------------------------------------------------------------

/// The number that decimal digits make, the most significant first.
pub open spec fn value_of(digits: Seq<char>) -> int
    decreases digits.len(),
{
    if digits.len() == 0 {
        0
    } else {
        value_of(digits.drop_last()) * 10 + (digits.last() as int - 48)
    }
}

/// Nothing but decimal digits, and at least one.
pub open spec fn is_numeral(s: Seq<char>) -> bool {
    s.len() > 0 && forall|i: int| 0 <= i < s.len() ==> 48 <= #[trigger] s[i] as int <= 57
}

proof fn lemma_value(digits: Seq<char>)
    requires
        forall|i: int| 0 <= i < digits.len() ==> 48 <= #[trigger] digits[i] as int <= 57,
    ensures
        text::numeral_value(digits) == value_of(digits),
    decreases digits.len(),
{
    if digits.len() > 0 {
        let rest = digits.drop_last();
        assert forall|i: int| 0 <= i < rest.len() implies 48 <= #[trigger] rest[i] as int
            <= 57 by {
            assert(rest[i] == digits[i]);
        }
        lemma_value(rest);
        assert(48 <= digits[digits.len() - 1] as int);
    }
}

/// A number is written as the numeral that stands for it, without leading zeros.
pub proof fn law_numbers_are_written_in_decimal(n: nat)
    ensures
        is_numeral(text::decimal(n)),
        value_of(text::decimal(n)) == n,
        n > 0 ==> text::decimal(n)[0] != '0',
        n == 0 ==> text::decimal(n).len() == 1,
    decreases n,
{
    let s = text::decimal(n);
    if n >= 10 {
        law_numbers_are_written_in_decimal(n / 10);
        let front = text::decimal(n / 10);
        assert(s.drop_last() =~= front);
        assert forall|i: int| 0 <= i < s.len() implies 48 <= #[trigger] s[i] as int <= 57 by {
            if i < front.len() {
                assert(s[i] == front[i]);
            }
        }
        assert(s[0] == front[0]);
    } else {
        assert(s.drop_last() =~= Seq::empty());
        reveal_with_fuel(value_of, 2);
    }
}

/// A setting is read as a number exactly where it is a numeral, after a plus sign at most,
/// of a number that fits.
pub proof fn law_numbers_are_read_in_decimal(s: Seq<char>)
    ensures
        ({
            let digits = if s.len() > 0 && s[0] == '+' {
                s.skip(1)
            } else {
                s
            };
            match text::u64_of(s) {
                Some(n) => is_numeral(digits) && value_of(digits) == n,
                None => !is_numeral(digits) || value_of(digits) > u64::MAX,
            }
        }),
{
    let digits = if s.len() > 0 && s[0] == '+' {
        s.skip(1)
    } else {
        s
    };
    if s.len() > 0 && s[0] == '+' {
        assert(digits =~= s.drop_first());
    }
    if is_numeral(digits) {
        lemma_value(digits);
    }
    if text::all_digits(digits) {
        assert forall|i: int| 0 <= i < digits.len() implies 48 <= #[trigger] digits[i] as int
            <= 57 by {
            assert('0' <= digits[i] <= '9');
        }
        lemma_value(digits);
    }
}

} // verus!
