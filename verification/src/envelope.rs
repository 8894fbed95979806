//! The frame of a request: an object with an `op`, which is a string, and possibly an
//! `id`, neither of them twice. What is wrong with a frame is told in the order in which
//! the line is read, together with the place.

use crate::json;
use crate::json::{Json, JsonView};
use crate::lists;
use crate::text;
use vstd::prelude::*;

verus! {

/// What a request is called where something else stands in its place.
pub const FRAME: &'static str = "struct Envelope";

// ---------------------------------------------------------------------------
// The bytes that frame values
// ---------------------------------------------------------------------------

pub const SPACE: u8 = 32;

pub const LINE_FEED: u8 = 10;

pub const TAB: u8 = 9;

pub const RETURN: u8 = 13;

pub const POINT: u8 = 46;

pub const PLUS: u8 = 43;

pub const MINUS: u8 = 45;

pub const LOWER_E: u8 = 101;

pub const UPPER_E: u8 = 69;

pub const LOWER_T: u8 = 116;

pub const LOWER_N: u8 = 110;

pub const LOWER_F: u8 = 102;

pub const BRACKET: u8 = 91;

pub const END_BRACKET: u8 = 93;

pub const BRACE: u8 = 123;

pub const END_BRACE: u8 = 125;

pub const QUOTE: u8 = 34;

pub const COMMA: u8 = 44;

pub const COLON: u8 = 58;

pub const ZERO: u8 = 48;

pub const NINE: u8 = 57;

// ---------------------------------------------------------------------------
// Places
// ---------------------------------------------------------------------------

/// The white space of JSON.
pub open spec fn is_space(b: u8) -> bool {
    b == SPACE || b == LINE_FEED || b == TAB || b == RETURN
}

/// The first place from `i` on without white space.
pub open spec fn past_space(line: Seq<u8>, i: int) -> int
    decreases line.len() - i,
{
    if 0 <= i < line.len() && is_space(line[i]) {
        past_space(line, i + 1)
    } else {
        i
    }
}

/// The byte `b` stands at the place `i`.
pub open spec fn stands_at(line: Seq<u8>, i: int, b: u8) -> bool {
    0 <= i < line.len() && line[i] == b
}

/// The first place from `i` on without a digit.
pub open spec fn past_digits(line: Seq<u8>, i: int) -> int
    decreases line.len() - i,
{
    if 0 <= i < line.len() && ZERO <= line[i] <= NINE {
        past_digits(line, i + 1)
    } else {
        i
    }
}

/// Where the fraction that may stand at the place `i` ends.
pub open spec fn past_fraction(line: Seq<u8>, i: int) -> int {
    if stands_at(line, i, POINT) {
        past_digits(line, i + 1)
    } else {
        i
    }
}

/// The place behind a sign that may stand at the place `i`.
pub open spec fn past_sign(line: Seq<u8>, i: int) -> int {
    if stands_at(line, i, PLUS) || stands_at(line, i, MINUS) {
        i + 1
    } else {
        i
    }
}

/// Where the exponent that may stand at the place `i` ends.
pub open spec fn past_exponent(line: Seq<u8>, i: int) -> int {
    if stands_at(line, i, LOWER_E) || stands_at(line, i, UPPER_E) {
        past_digits(line, past_sign(line, i + 1))
    } else {
        i
    }
}

/// Where the number at the place `i` ends.
pub open spec fn past_number(line: Seq<u8>, i: int) -> int {
    let digits = if stands_at(line, i, MINUS) {
        i + 1
    } else {
        i
    };
    past_exponent(line, past_fraction(line, past_digits(line, digits)))
}

/// Where the number, `true`, `false` or `null` at the place `i` ends, by its first byte.
pub open spec fn past_word(line: Seq<u8>, i: int) -> int {
    let end = if stands_at(line, i, LOWER_T) || stands_at(line, i, LOWER_N) {
        i + 4
    } else if stands_at(line, i, LOWER_F) {
        i + 5
    } else {
        past_number(line, i)
    };
    if end <= line.len() {
        end
    } else {
        line.len() as int
    }
}

/// How many lines end before the place `i`.
pub open spec fn lines_before(line: Seq<u8>, i: int) -> nat
    decreases i,
{
    if i <= 0 {
        0
    } else if stands_at(line, i - 1, LINE_FEED) {
        lines_before(line, i - 1) + 1
    } else {
        lines_before(line, i - 1)
    }
}

/// How many bytes stand before the place `i` on its line.
pub open spec fn column(line: Seq<u8>, i: int) -> nat
    decreases i,
{
    if i <= 0 || stands_at(line, i - 1, LINE_FEED) {
        0
    } else {
        column(line, i - 1) + 1
    }
}

// ---------------------------------------------------------------------------
// Faults
// ---------------------------------------------------------------------------

/// What is wrong with a frame, and where that shows.
pub struct Fault {
    pub text: Seq<char>,
    pub at: int,
}

/// What reading a frame comes to.
pub enum Reading {
    /// The frame is wrong.
    Wrong(Fault),
    /// The frame is sound up to its end.
    Sound,
    /// What stands there is no JSON.
    Broken,
}

/// A string `op`, with the place behind it, or what is wrong with it.
pub enum OpReading {
    Text(int),
    Wrong(Fault),
    Broken,
}

/// The text that tells of a fault and its place.
pub open spec fn message(line: Seq<u8>, fault: Fault) -> Seq<char> {
    fault.text + " at line "@ + text::decimal(lines_before(line, fault.at) + 1) + " column "@
        + text::decimal(column(line, fault.at))
}

/// The text that tells of a missing field.
pub open spec fn missing_field(name: Seq<char>) -> Seq<char> {
    "missing field `"@ + name + "`"@
}

/// The text that tells of a field that occurs twice.
pub open spec fn duplicate_field(name: Seq<char>) -> Seq<char> {
    "duplicate field `"@ + name + "`"@
}

/// A list of one value, as text: a value within something else is nested one level
/// deeper than a value alone.
pub open spec fn in_brackets(value: Seq<u8>) -> Seq<u8> {
    seq![BRACKET] + value + seq![END_BRACKET]
}

/// Where the value from the place `i` on ends.
pub open spec fn past_value(line: Seq<u8>, i: int) -> Option<int> {
    match json::leading_value(line.skip(i)) {
        Some((_, n)) => if json::json_parsed(in_brackets(line.subrange(i, i + n))) is Ok {
            Some(i + n)
        } else {
            None
        },
        None => None,
    }
}

/// The value at the place `i`, which is to be a string or an object, is something else:
/// what, and where that shows. Of a list no more than its start is read, nor of an object.
pub open spec fn other_value(line: Seq<u8>, i: int, expected: Seq<char>) -> Option<Fault> {
    if stands_at(line, i, BRACKET) {
        Some(Fault { text: json::wrong_type(JsonView::Array(Seq::empty()), expected), at: i })
    } else if stands_at(line, i, BRACE) {
        Some(Fault { text: json::wrong_type(JsonView::Object(Map::empty()), expected), at: i })
    } else if stands_at(line, i, QUOTE) {
        match json::leading_value(line.skip(i)) {
            Some((v, n)) => Some(Fault { text: json::wrong_type(v, expected), at: i + n }),
            None => None,
        }
    } else {
        match json::json_parsed(line.subrange(i, past_word(line, i))) {
            Ok(v) => Some(Fault { text: json::wrong_type(v, expected), at: past_word(line, i) }),
            Err(_) => None,
        }
    }
}

/// Reading the value of `op` at the place `i`.
pub open spec fn read_op(line: Seq<u8>, i: int) -> OpReading {
    if stands_at(line, i, QUOTE) {
        match json::leading_value(line.skip(i)) {
            Some((_, n)) => OpReading::Text(i + n),
            None => OpReading::Broken,
        }
    } else if i >= line.len() {
        OpReading::Broken
    } else {
        match other_value(line, i, "a string"@) {
            Some(fault) => OpReading::Wrong(fault),
            None => OpReading::Broken,
        }
    }
}

/// Where the key of the pair from the place `i` on starts. Pairs but the first follow a
/// comma.
pub open spec fn key_start(line: Seq<u8>, i: int, first: bool) -> Option<int> {
    let start = if first {
        i
    } else {
        past_space(line, i + 1)
    };
    if (first || stands_at(line, i, COMMA)) && stands_at(line, start, QUOTE) {
        Some(start)
    } else {
        None
    }
}

/// Reading the pairs of a frame from the place `at` on, behind its brace or behind a
/// pair; `id` and `op` tell which of the two there have been.
pub open spec fn read_pairs(line: Seq<u8>, at: int, first: bool, id: bool, op: bool) -> Reading
    decreases line.len() - at,
{
    let i = past_space(line, at);
    if i >= line.len() {
        Reading::Broken
    } else if line[i] == END_BRACE {
        if op {
            Reading::Sound
        } else {
            Reading::Wrong(Fault { text: missing_field("op"@), at: i + 1 })
        }
    } else {
        match key_start(line, i, first) {
            Some(start) => match json::leading_value(line.skip(start)) {
                Some((JsonView::Str(key), n)) => {
                    let colon = past_space(line, start + n);
                    if key == "id"@ && id || key == "op"@ && op {
                        Reading::Wrong(
                            Fault {
                                text: duplicate_field(key),
                                at: if stands_at(line, colon, END_BRACE) {
                                    colon + 1
                                } else {
                                    colon
                                },
                            },
                        )
                    } else if !stands_at(line, colon, COLON) {
                        Reading::Broken
                    } else if key == "op"@ {
                        match read_op(line, past_space(line, colon + 1)) {
                            OpReading::Text(end) => if at < end <= line.len() {
                                read_pairs(line, end, false, id, true)
                            } else {
                                Reading::Broken
                            },
                            OpReading::Wrong(fault) => Reading::Wrong(fault),
                            OpReading::Broken => Reading::Broken,
                        }
                    } else {
                        match past_value(line, colon + 1) {
                            Some(end) => if at < end <= line.len() {
                                read_pairs(line, end, false, id || key == "id"@, op)
                            } else {
                                Reading::Broken
                            },
                            None => Reading::Broken,
                        }
                    }
                },
                _ => Reading::Broken,
            },
            None => Reading::Broken,
        }
    }
}

/// What is wrong with the frame of a request line, as far as the line is JSON.
pub open spec fn fault_in(line: Seq<u8>) -> Option<Fault> {
    let start = past_space(line, 0);
    if start >= line.len() {
        None
    } else if line[start] == BRACE {
        match read_pairs(line, start + 1, true, false, false) {
            Reading::Wrong(fault) => Some(fault),
            _ => None,
        }
    } else {
        other_value(line, start, FRAME@)
    }
}

/// The document on a request line, or what is wrong with the line.
pub open spec fn request_on(line: Seq<char>) -> Result<JsonView, Seq<char>> {
    let bytes = vstd::utf8::encode_utf8(line);
    match fault_in(bytes) {
        Some(fault) => Err(message(bytes, fault)),
        None => json::json_parsed(bytes),
    }
}

// ---------------------------------------------------------------------------
// Reading
// ---------------------------------------------------------------------------

fn skip_space(line: &[u8], from: usize) -> (r: usize)
    requires
        from <= line@.len(),
    ensures
        r == past_space(line@, from as int),
        from <= r <= line@.len(),
        r < line@.len() ==> !is_space(line@[r as int]),
{
    let mut i: usize = from;
    while i < line.len() && (line[i] == SPACE || line[i] == LINE_FEED || line[i] == TAB || line[i] == RETURN)
        invariant
            from <= i <= line@.len(),
            past_space(line@, from as int) == past_space(line@, i as int),
        decreases line@.len() - i,
    {
        i = i + 1;
    }
    i
}

fn has_byte(line: &[u8], i: usize, b: u8) -> (yes: bool)
    ensures
        yes == stands_at(line@, i as int, b),
{
    i < line.len() && line[i] == b
}

fn skip_digits(line: &[u8], from: usize) -> (r: usize)
    requires
        from <= line@.len(),
    ensures
        r == past_digits(line@, from as int),
        from <= r <= line@.len(),
{
    let mut i: usize = from;
    while i < line.len() && ZERO <= line[i] && line[i] <= NINE
        invariant
            from <= i <= line@.len(),
            past_digits(line@, from as int) == past_digits(line@, i as int),
        decreases line@.len() - i,
    {
        i = i + 1;
    }
    i
}

fn skip_number(line: &[u8], from: usize) -> (r: usize)
    requires
        from <= line@.len(),
    ensures
        r == past_number(line@, from as int),
        from <= r <= line@.len(),
{
    assert(line.len() == line@.len());
    let start: usize = if has_byte(line, from, MINUS) {
        from + 1
    } else {
        from
    };
    let whole: usize = skip_digits(line, start);
    let fraction: usize = if has_byte(line, whole, POINT) {
        skip_digits(line, whole + 1)
    } else {
        whole
    };
    if has_byte(line, fraction, LOWER_E) || has_byte(line, fraction, UPPER_E) {
        let sign: usize = fraction + 1;
        if has_byte(line, sign, PLUS) || has_byte(line, sign, MINUS) {
            skip_digits(line, sign + 1)
        } else {
            skip_digits(line, sign)
        }
    } else {
        fraction
    }
}

fn skip_word(line: &[u8], from: usize) -> (r: usize)
    requires
        from <= line@.len(),
    ensures
        r == past_word(line@, from as int),
        from <= r <= line@.len(),
{
    let n: usize = line.len();
    if has_byte(line, from, LOWER_T) || has_byte(line, from, LOWER_N) {
        if n - from >= 4 {
            from + 4
        } else {
            n
        }
    } else if has_byte(line, from, LOWER_F) {
        if n - from >= 5 {
            from + 5
        } else {
            n
        }
    } else {
        skip_number(line, from)
    }
}

fn first_from(line: &[u8], from: usize) -> (r: Option<(Json, usize)>)
    requires
        from <= line@.len(),
    ensures
        match (json::leading_value(line@.skip(from as int)), r) {
            (Some((v, n)), Some((document, end))) => v == document@ && from + n == end && from < end
                <= line@.len(),
            (None, None) => true,
            _ => false,
        },
{
    let rest = vstd::slice::slice_subrange(line, from, line.len());
    assert(rest@ =~= line@.skip(from as int));
    match json::read_first(rest) {
        Some((document, n)) => Some((document, from + n)),
        None => None,
    }
}

fn skip_value(line: &[u8], from: usize) -> (r: Option<usize>)
    requires
        from <= line@.len(),
    ensures
        match (past_value(line@, from as int), r) {
            (Some(end), Some(found)) => end == found && from < found <= line@.len(),
            (None, None) => true,
            _ => false,
        },
{
    let end: usize = match first_from(line, from) {
        Some((_, end)) => end,
        None => {
            return None;
        },
    };
    let value = vstd::slice::slice_subrange(line, from, end);
    let mut list: Vec<u8> = Vec::new();
    list.push(BRACKET);
    lists::append_bytes(&mut list, value);
    list.push(END_BRACKET);
    assert(list@ =~= in_brackets(value@));
    match json::parse_bytes(list.as_slice()) {
        Ok(_) => Some(end),
        Err(_) => None,
    }
}

/// A fault, and where it shows.
struct Found {
    text: String,
    at: usize,
}

impl Found {
    spec fn view(&self) -> Fault {
        Fault { text: self.text@, at: self.at as int }
    }
}

/// What is found, if anything, as its content.
spec fn found_view(found: Option<Found>) -> Option<Fault> {
    match found {
        Some(found) => Some(found@),
        None => None,
    }
}

fn find_other_value(line: &[u8], i: usize, expected: &str) -> (r: Option<Found>)
    requires
        i < line@.len(),
    ensures
        found_view(r) == other_value(line@, i as int, expected@),
        r matches Some(found) ==> i <= found.at <= line@.len(),
{
    if line[i] == BRACKET {
        let list: Vec<Json> = Vec::new();
        assert(json::items_view(list@) =~= Seq::empty());
        Some(Found { text: Json::Array(list).unexpected(expected), at: i })
    } else if line[i] == BRACE {
        let fields: Vec<(String, Json)> = Vec::new();
        assert(json::fields_view(fields@) =~= Map::empty());
        Some(Found { text: Json::Object(fields).unexpected(expected), at: i })
    } else if line[i] == QUOTE {
        match first_from(line, i) {
            Some((document, end)) => Some(Found { text: document.unexpected(expected), at: end }),
            None => None,
        }
    } else {
        let end: usize = skip_word(line, i);
        match json::parse_bytes(vstd::slice::slice_subrange(line, i, end)) {
            Ok(document) => Some(Found { text: document.unexpected(expected), at: end }),
            Err(_) => None,
        }
    }
}

fn missing_op(at: usize) -> (found: Found)
    ensures
        found@ == (Fault { text: missing_field("op"@), at: at as int }),
{
    let text = "missing field `".to_owned().concat("op").concat("`");
    Found { text, at }
}

fn repeated(key: &str, at: usize) -> (found: Found)
    ensures
        found@ == (Fault { text: duplicate_field(key@), at: at as int }),
{
    let text = "duplicate field `".to_owned().concat(key).concat("`");
    Found { text, at }
}

/// What a step through the pairs of a frame comes to.
enum PairStep {
    /// A pair has been read: where it ends, and whether it was the `id` or the `op`.
    Next { end: usize, id: bool, op: bool },
    Wrong(Found),
    Sound,
    Broken,
}

/// Reads one pair of a frame, or its end.
fn read_pair(line: &[u8], at: usize, first: bool, id: bool, op: bool) -> (r: PairStep)
    requires
        at <= line@.len(),
    ensures
        match r {
            PairStep::Next { end, id: next_id, op: next_op } => at < end <= line@.len()
                && read_pairs(line@, at as int, first, id, op) == read_pairs(
                line@,
                end as int,
                false,
                next_id,
                next_op,
            ),
            PairStep::Wrong(found) => read_pairs(line@, at as int, first, id, op)
                == Reading::Wrong(found@) && at <= found.at <= line@.len(),
            PairStep::Sound => read_pairs(line@, at as int, first, id, op) == Reading::Sound,
            PairStep::Broken => read_pairs(line@, at as int, first, id, op) == Reading::Broken,
        },
{
    let i: usize = skip_space(line, at);
    if i >= line.len() {
        return PairStep::Broken;
    }
    if line[i] == END_BRACE {
        if op {
            return PairStep::Sound;
        }
        return PairStep::Wrong(missing_op(i + 1));
    }
    if !first && line[i] != COMMA {
        return PairStep::Broken;
    }
    let start: usize = if first {
        i
    } else {
        skip_space(line, i + 1)
    };
    if !has_byte(line, start, QUOTE) {
        return PairStep::Broken;
    }
    let (key, behind) = match first_from(line, start) {
        Some((Json::Str(key), behind)) => (key, behind),
        _ => {
            return PairStep::Broken;
        },
    };
    let colon: usize = skip_space(line, behind);
    let is_id = text::same(key.as_str(), "id");
    let is_op = text::same(key.as_str(), "op");
    if is_id && id || is_op && op {
        let shows: usize = if has_byte(line, colon, END_BRACE) {
            colon + 1
        } else {
            colon
        };
        return PairStep::Wrong(repeated(key.as_str(), shows));
    }
    if !has_byte(line, colon, COLON) {
        return PairStep::Broken;
    }
    if is_op {
        let value: usize = skip_space(line, colon + 1);
        if has_byte(line, value, QUOTE) {
            match first_from(line, value) {
                Some((_, end)) => PairStep::Next { end, id, op: true },
                None => PairStep::Broken,
            }
        } else if value >= line.len() {
            PairStep::Broken
        } else {
            match find_other_value(line, value, "a string") {
                Some(found) => PairStep::Wrong(found),
                None => PairStep::Broken,
            }
        }
    } else {
        match skip_value(line, colon + 1) {
            Some(end) => PairStep::Next { end, id: id || is_id, op },
            None => PairStep::Broken,
        }
    }
}

/// No more lines end before a place than there are bytes, and fewer where one of these
/// is no line feed.
proof fn lemma_lines_before(line: Seq<u8>, j: int, i: int)
    requires
        0 <= j < line.len(),
        line[j] != LINE_FEED,
        0 <= i <= line.len(),
    ensures
        lines_before(line, i) <= i,
        i > j ==> lines_before(line, i) < i,
        lines_before(line, i) < line.len(),
    decreases i,
{
    if i > 0 {
        lemma_lines_before(line, j, i - 1);
    }
}

fn find_fault(line: &[u8]) -> (r: Option<Found>)
    ensures
        found_view(r) == fault_in(line@),
        r matches Some(found) ==> found.at <= line@.len() && lines_before(line@, found.at as int)
            < line@.len(),
{
    let start: usize = skip_space(line, 0);
    if start >= line.len() {
        return None;
    }
    if line[start] != BRACE {
        let found = find_other_value(line, start, FRAME);
        proof {
            if found is Some {
                lemma_lines_before(line@, start as int, found->0.at as int);
            }
        }
        return found;
    }
    let ghost whole = read_pairs(line@, start + 1, true, false, false);
    let mut at: usize = start + 1;
    let mut first = true;
    let mut id = false;
    let mut op = false;
    loop
        invariant
            start < at <= line@.len(),
            start == past_space(line@, 0),
            start < line@.len(),
            line@[start as int] == BRACE,
            whole == read_pairs(line@, start + 1, true, false, false),
            whole == read_pairs(line@, at as int, first, id, op),
        decreases line@.len() - at,
    {
        match read_pair(line, at, first, id, op) {
            PairStep::Next { end, id: next_id, op: next_op } => {
                at = end;
                first = false;
                id = next_id;
                op = next_op;
            },
            PairStep::Wrong(found) => {
                proof {
                    lemma_lines_before(line@, start as int, found.at as int);
                }
                return Some(found);
            },
            _ => {
                return None;
            },
        }
    }
}

fn count_lines(line: &[u8], at: usize) -> (n: u64)
    requires
        at <= line@.len(),
    ensures
        n == lines_before(line@, at as int),
        n <= at,
{
    let mut n: u64 = 0;
    let mut i: usize = 0;
    while i < at
        invariant
            i <= at <= line@.len(),
            n == lines_before(line@, i as int),
            n <= i,
        decreases at - i,
    {
        if line[i] == LINE_FEED {
            n = n + 1;
        }
        i = i + 1;
    }
    n
}

fn find_column(line: &[u8], at: usize) -> (n: u64)
    requires
        at <= line@.len(),
    ensures
        n == column(line@, at as int),
        n <= at,
{
    let mut n: u64 = 0;
    let mut i: usize = 0;
    while i < at
        invariant
            i <= at <= line@.len(),
            n == column(line@, i as int),
            n <= i,
        decreases at - i,
    {
        if line[i] == LINE_FEED {
            n = 0;
        } else {
            n = n + 1;
        }
        i = i + 1;
    }
    n
}

fn tell(line: &[u8], found: Found) -> (r: String)
    requires
        found.at <= line@.len(),
        lines_before(line@, found.at as int) < line@.len(),
    ensures
        r@ == message(line@, found@),
{
    assert(line.len() == line@.len());
    let row: u64 = count_lines(line, found.at) + 1;
    let column: u64 = find_column(line, found.at);
    found.text.concat(" at line ").concat(text::number_text(row).as_str()).concat(
        " column ",
    ).concat(text::number_text(column).as_str())
}

/// Reads a request line.
pub fn read_request(line: &str) -> (r: Result<Json, String>)
    ensures
        match r {
            Ok(request) => request_on(line@) == Ok::<JsonView, Seq<char>>(request@),
            Err(text) => request_on(line@) == Err::<JsonView, Seq<char>>(text@),
        },
{
    let bytes = line.as_bytes();
    match find_fault(bytes) {
        Some(found) => Err(tell(bytes, found)),
        None => json::parse(line),
    }
}

} // verus!
