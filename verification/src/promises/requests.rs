//! Which lines are requests.

use crate::envelope;
use crate::json;
use crate::json::JsonView;
use crate::text;
use vstd::prelude::*;

verus! {

/// A line that is read as a request is JSON, and the request is the document that it holds.
pub proof fn law_request_is_the_document(line: Seq<char>, request: JsonView)
    requires
        envelope::request_on(line) == Ok::<JsonView, Seq<char>>(request),
    ensures
        json::json_parsed(vstd::utf8::encode_utf8(line)) == Ok::<JsonView, Seq<char>>(request),
{
}

/// There is nothing but white space from `a` up to `b`: space, tab, line feed or carriage
/// return.
pub open spec fn is_gap(bytes: Seq<u8>, a: int, b: int) -> bool {
    &&& 0 <= a <= b <= bytes.len()
    &&& forall|i: int|
        a <= i < b ==> (#[trigger] bytes[i] == 32 || bytes[i] == 9 || bytes[i] == 10 || bytes[i]
            == 13)
}

/// A byte stands at a place.
pub open spec fn is_at(bytes: Seq<u8>, i: int, c: char) -> bool {
    0 <= i < bytes.len() && bytes[i] == c as u8
}

/// Where the parts of a pair of an object stand.
pub struct Pair {
    pub key: Seq<char>,
    pub key_at: int,
    pub colon: int,
    pub value_at: int,
    pub end: int,
}

/// There is such a pair, between the place `from` and its end. An `op` is a text; other
/// values are anything that can stand in a list.
pub open spec fn is_pair(bytes: Seq<u8>, from: int, pair: Pair) -> bool {
    &&& is_gap(bytes, from, pair.key_at)
    &&& is_at(bytes, pair.key_at, '"')
    &&& json::leading_value(bytes.skip(pair.key_at)) matches Some((JsonView::Str(key), n)) && key
        == pair.key && is_gap(bytes, pair.key_at + n, pair.colon)
    &&& is_at(bytes, pair.colon, ':')
    &&& pair.value_at < pair.end <= bytes.len()
    &&& json::leading_value(bytes.skip(pair.value_at)) matches Some((_, n)) && pair.end
        == pair.value_at + n
    &&& if pair.key == "op"@ {
        is_gap(bytes, pair.colon + 1, pair.value_at) && is_at(bytes, pair.value_at, '"')
    } else {
        pair.value_at == pair.colon + 1 && json::json_parsed(
            seq!['[' as u8] + bytes.subrange(pair.value_at, pair.end) + seq![']' as u8],
        ) is Ok
    }
}

/// The line is an object of these pairs, with commas between them.
pub open spec fn is_object_of(bytes: Seq<u8>, open: int, pairs: Seq<Pair>, close: int) -> bool {
    &&& is_gap(bytes, 0, open)
    &&& is_at(bytes, open, '{')
    &&& is_at(bytes, close, '}')
    &&& is_gap(
        bytes,
        if pairs.len() == 0 {
            open + 1
        } else {
            pairs.last().end
        },
        close,
    )
    &&& forall|k: int|
        0 <= k < pairs.len() ==> if k == 0 {
            is_pair(bytes, open + 1, #[trigger] pairs[k])
        } else {
            exists|comma: int|
                is_gap(bytes, pairs[k - 1].end, comma) && #[trigger] is_at(bytes, comma, ',')
                    && is_pair(bytes, comma + 1, pairs[k])
        }
}

/// The key is one of the first `n`.
pub open spec fn occurs(pairs: Seq<Pair>, n: int, key: Seq<char>) -> bool {
    exists|k: int| 0 <= k < n && (#[trigger] pairs[k]).key == key
}

/// The key occurs no more than once.
pub open spec fn is_single(pairs: Seq<Pair>, key: Seq<char>) -> bool {
    forall|i: int, j: int|
        0 <= i < j < pairs.len() ==> (#[trigger] pairs[i]).key != key || (#[trigger] pairs[j]).key
            != key
}

proof fn lemma_gap(bytes: Seq<u8>, a: int, b: int)
    requires
        is_gap(bytes, a, b),
        b < bytes.len(),
        bytes[b] != 32,
        bytes[b] != 9,
        bytes[b] != 10,
        bytes[b] != 13,
    ensures
        envelope::past_space(bytes, a) == b,
    decreases b - a,
{
    if a < b {
        assert(envelope::is_space(bytes[a]));
        lemma_gap(bytes, a + 1, b);
    }
}

/// Where reading goes on before the pair `k`.
pub open spec fn reached(open: int, pairs: Seq<Pair>, k: int) -> int {
    if k == 0 {
        open + 1
    } else {
        pairs[k - 1].end
    }
}

proof fn lemma_occurs(pairs: Seq<Pair>, k: int, key: Seq<char>)
    requires
        0 <= k < pairs.len(),
    ensures
        occurs(pairs, k + 1, key) <==> occurs(pairs, k, key) || pairs[k].key == key,
{
    if occurs(pairs, k + 1, key) {
        let j = choose|j: int| 0 <= j < k + 1 && (#[trigger] pairs[j]).key == key;
        if j < k {
            assert(occurs(pairs, k, key));
        }
    }
    if pairs[k].key == key {
        assert(occurs(pairs, k + 1, key));
    }
}

/// One pair is read, and reading goes on behind it.
proof fn lemma_pair(
    bytes: Seq<u8>,
    open: int,
    pairs: Seq<Pair>,
    close: int,
    k: int,
    id: bool,
    op: bool,
)
    requires
        is_object_of(bytes, open, pairs, close),
        0 <= k < pairs.len(),
    ensures
        ({
            let key = pairs[k].key;
            let reading = envelope::read_pairs(bytes, reached(open, pairs, k), k == 0, id, op);
            if key == "id"@ && id || key == "op"@ && op {
                reading is Wrong
            } else {
                reading == envelope::read_pairs(
                    bytes,
                    pairs[k].end,
                    false,
                    id || key == "id"@,
                    op || key == "op"@,
                )
            }
        }),
{
    let pair = pairs[k];
    let at = reached(open, pairs, k);
    reveal_strlit("id");
    reveal_strlit("op");
    assert("id"@[0] != "op"@[0]);
    if k == 0 {
        assert(is_pair(bytes, open + 1, pairs[k]));
        lemma_gap(bytes, at, pair.key_at);
    } else {
        let comma = choose|comma: int|
            is_gap(bytes, pairs[k - 1].end, comma) && #[trigger] is_at(bytes, comma, ',')
                && is_pair(bytes, comma + 1, pairs[k]);
        lemma_gap(bytes, at, comma);
        lemma_gap(bytes, comma + 1, pair.key_at);
    }
    let n = (json::leading_value(bytes.skip(pair.key_at))->0).1;
    lemma_gap(bytes, pair.key_at + n, pair.colon);
    assert(at < pair.end <= bytes.len());
    if pair.key == "op"@ {
        lemma_gap(bytes, pair.colon + 1, pair.value_at);
    } else {
        let value = bytes.subrange(pair.value_at, pair.end);
        assert(seq!['[' as u8] + value + seq![']' as u8] =~= envelope::in_brackets(value));
    }
}

proof fn lemma_rest(bytes: Seq<u8>, open: int, pairs: Seq<Pair>, close: int, k: int)
    requires
        is_object_of(bytes, open, pairs, close),
        0 <= k <= pairs.len(),
        is_single(pairs, "op"@),
        is_single(pairs, "id"@),
    ensures
        ({
            let reading = envelope::read_pairs(
                bytes,
                reached(open, pairs, k),
                k == 0,
                occurs(pairs, k, "id"@),
                occurs(pairs, k, "op"@),
            );
            if occurs(pairs, pairs.len() as int, "op"@) {
                reading is Sound
            } else {
                reading is Wrong
            }
        }),
    decreases pairs.len() - k,
{
    if k == pairs.len() {
        lemma_gap(bytes, reached(open, pairs, k), close);
    } else {
        lemma_pair(
            bytes,
            open,
            pairs,
            close,
            k,
            occurs(pairs, k, "id"@),
            occurs(pairs, k, "op"@),
        );
        lemma_occurs(pairs, k, "id"@);
        lemma_occurs(pairs, k, "op"@);
        lemma_rest(bytes, open, pairs, close, k + 1);
    }
}

/// An object in which `op` occurs once, as a text, and `id` at most once, is a request,
/// whatever other fields it has, in whatever order, and however they are spaced.
pub proof fn law_object_with_an_operation_is_a_request(
    line: Seq<char>,
    bytes: Seq<u8>,
    open: int,
    pairs: Seq<Pair>,
    close: int,
)
    requires
        bytes == vstd::utf8::encode_utf8(line),
        is_object_of(bytes, open, pairs, close),
        is_single(pairs, "op"@),
        is_single(pairs, "id"@),
        occurs(pairs, pairs.len() as int, "op"@),
    ensures
        envelope::request_on(line) == json::json_parsed(bytes),
{
    lemma_gap(bytes, 0, open);
    assert(!occurs(pairs, 0, "op"@) && !occurs(pairs, 0, "id"@));
    lemma_rest(bytes, open, pairs, close, 0);
}

/// An object without `op` is no request.
pub proof fn law_object_without_an_operation_is_no_request(
    line: Seq<char>,
    bytes: Seq<u8>,
    open: int,
    pairs: Seq<Pair>,
    close: int,
)
    requires
        bytes == vstd::utf8::encode_utf8(line),
        is_object_of(bytes, open, pairs, close),
        is_single(pairs, "id"@),
        !occurs(pairs, pairs.len() as int, "op"@),
    ensures
        envelope::request_on(line) is Err,
{
    lemma_gap(bytes, 0, open);
    assert(!occurs(pairs, 0, "op"@) && !occurs(pairs, 0, "id"@));
    assert(is_single(pairs, "op"@)) by {
        assert forall|i: int, j: int| 0 <= i < j < pairs.len() implies (#[trigger] pairs[i]).key
            != "op"@ || (#[trigger] pairs[j]).key != "op"@ by {
            assert(pairs[i].key != "op"@);
        }
    }
    lemma_rest(bytes, open, pairs, close, 0);
}

#[verifier::rlimit(30)]
proof fn lemma_doubled(
    bytes: Seq<u8>,
    open: int,
    pairs: Seq<Pair>,
    close: int,
    k: int,
    first: int,
    second: int,
)
    requires
        is_object_of(bytes, open, pairs, close),
        0 <= first < second < pairs.len(),
        0 <= k <= second,
        pairs[first].key == pairs[second].key,
        pairs[first].key == "op"@ || pairs[first].key == "id"@,
    ensures
        envelope::read_pairs(
            bytes,
            reached(open, pairs, k),
            k == 0,
            occurs(pairs, k, "id"@),
            occurs(pairs, k, "op"@),
        ) is Wrong,
    decreases second - k,
{
    let (id, op) = (occurs(pairs, k, "id"@), occurs(pairs, k, "op"@));
    let key = pairs[k].key;
    lemma_pair(bytes, open, pairs, close, k, id, op);
    if k == second {
        assert(occurs(pairs, k, pairs[first].key));
    } else if !(key == "id"@ && id || key == "op"@ && op) {
        lemma_doubled(bytes, open, pairs, close, k + 1, first, second);
        lemma_occurs(pairs, k, "id"@);
        lemma_occurs(pairs, k, "op"@);
        assert(reached(open, pairs, k + 1) == pairs[k].end);
    }
}

/// An object in which `op` or `id` occurs twice is no request.
pub proof fn law_object_with_a_doubled_field_is_no_request(
    line: Seq<char>,
    bytes: Seq<u8>,
    open: int,
    pairs: Seq<Pair>,
    close: int,
    first: int,
    second: int,
)
    requires
        bytes == vstd::utf8::encode_utf8(line),
        is_object_of(bytes, open, pairs, close),
        0 <= first < second < pairs.len(),
        pairs[first].key == pairs[second].key,
        pairs[first].key == "op"@ || pairs[first].key == "id"@,
    ensures
        envelope::request_on(line) is Err,
{
    lemma_gap(bytes, 0, open);
    assert(!occurs(pairs, 0, "op"@) && !occurs(pairs, 0, "id"@));
    lemma_doubled(bytes, open, pairs, close, 0, first, second);
}

// ---------------------------------------------------------------------------
// Where faults are
// ---------------------------------------------------------------------------

/// The place is told by the number of its line, from one on, and of the bytes before it on
/// that line, `start` being where the line starts.
pub proof fn law_place_of_a_fault_is_told(bytes: Seq<u8>, fault: envelope::Fault, start: int)
    requires
        0 <= start <= fault.at <= bytes.len(),
        start == 0 || bytes[start - 1] == 10,
        forall|i: int| start <= i < fault.at ==> #[trigger] bytes[i] != 10,
    ensures
        envelope::message(bytes, fault) == fault.text + " at line "@ + text::decimal(
            bytes.take(fault.at).filter(|b: u8| b == 10).len() + 1,
        ) + " column "@ + text::decimal((fault.at - start) as nat),
{
    lemma_lines_before(bytes, fault.at);
    lemma_column(bytes, start, fault.at);
}

proof fn lemma_lines_before(bytes: Seq<u8>, i: int)
    requires
        0 <= i <= bytes.len(),
    ensures
        envelope::lines_before(bytes, i) == bytes.take(i).filter(|b: u8| b == 10).len(),
    decreases i,
{
    reveal(Seq::filter);
    if i > 0 {
        lemma_lines_before(bytes, i - 1);
        assert(bytes.take(i).drop_last() =~= bytes.take(i - 1));
        assert(bytes.take(i).last() == bytes[i - 1]);
    }
}

proof fn lemma_column(bytes: Seq<u8>, start: int, i: int)
    requires
        0 <= start <= i <= bytes.len(),
        start == 0 || bytes[start - 1] == 10,
        forall|k: int| start <= k < i ==> #[trigger] bytes[k] != 10,
    ensures
        envelope::column(bytes, i) == i - start,
    decreases i,
{
    if i > start {
        assert(bytes[i - 1] != 10);
        lemma_column(bytes, start, i - 1);
    }
}

} // verus!
