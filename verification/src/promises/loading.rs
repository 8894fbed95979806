//! What is loaded from a log.

use crate::api;
use crate::database;
use crate::database::{ScanView, Snapshot};
use crate::index;
use crate::index::EntryView;
use crate::json;
use crate::json::JsonView;
use crate::lists;
use crate::promises::documents;
use crate::promises::protocol;
use crate::promises::texts;
use vstd::prelude::*;

verus! {

/// The bytes from `a` up to `b` are a line of the log: one that ends in a line feed.
pub open spec fn is_line(log: Seq<u8>, a: int, b: int) -> bool {
    &&& 0 <= a <= b < log.len()
    &&& a > 0 ==> log[a - 1] == '\n' as u8
    &&& log[b] == '\n' as u8
    &&& forall|i: int| a <= i < b ==> #[trigger] log[i] != '\n' as u8
}

/// The line holds this document.
pub open spec fn is_document(log: Seq<u8>, a: int, b: int, doc: JsonView) -> bool {
    &&& is_line(log, a, b)
    &&& vstd::utf8::valid_utf8(log.subrange(a, b))
    &&& json::json_parsed(log.subrange(a, b)) == Ok::<JsonView, Seq<char>>(doc)
}

/// The document tells of the log itself. It does so only on the first line.
pub open spec fn tells_of_log(a: int, doc: JsonView) -> bool {
    a == 0 && documents::at(doc, "__apdb_meta__"@) == Some(JsonView::Bool(true))
}

/// The line is a record of this ticker.
pub open spec fn is_record(log: Seq<u8>, a: int, b: int, ticker: Seq<char>) -> bool {
    exists|doc: JsonView, given: Seq<char>|
        {
            &&& #[trigger] is_document(log, a, b, doc)
            &&& !tells_of_log(a, doc)
            &&& documents::at(doc, "ticker"@) == Some(JsonView::Str(given))
            &&& #[trigger] texts::is_core(ticker, given)
            &&& ticker.len() > 0
        }
}

/// The entry that a record gets.
pub open spec fn entry_at(a: int, b: int, ticker: Seq<char>) -> EntryView {
    EntryView { ticker, offset: a as u64, len: (b - a) as u32 }
}

proof fn lemma_end(log: Seq<u8>, a: int, b: int)
    requires
        is_line(log, a, b),
    ensures
        database::line_end(log, a) == b,
{
    database::lemma_line_end_is(log, a, b);
}

/// Records are read as such.
proof fn lemma_record(log: Seq<u8>, a: int, b: int, ticker: Seq<char>)
    requires
        is_line(log, a, b),
        log.len() <= u64::MAX,
    ensures
        is_record(log, a, b, ticker) <==> {
            &&& vstd::utf8::valid_utf8(log.subrange(a, b))
            &&& !database::is_meta(a as u64, log.subrange(a, b))
            &&& database::record_ticker(log.subrange(a, b)) == Some(ticker)
        },
{
    let line = log.subrange(a, b);
    if is_record(log, a, b, ticker) {
        let (doc, given) = choose|doc: JsonView, given: Seq<char>|
            {
                &&& #[trigger] is_document(log, a, b, doc)
                &&& !tells_of_log(a, doc)
                &&& documents::at(doc, "ticker"@) == Some(JsonView::Str(given))
                &&& #[trigger] texts::is_core(ticker, given)
                &&& ticker.len() > 0
            };
        texts::law_trimming_takes_off_white_space(given, ticker);
    }
    if vstd::utf8::valid_utf8(line) && !database::is_meta(a as u64, line)
        && database::record_ticker(line) == Some(ticker) {
        let doc = json::json_parsed(line)->Ok_0;
        let given = documents::at(doc, "ticker"@)->0->Str_0;
        texts::law_trimming_takes_off_white_space(given, ticker);
        assert(is_document(log, a, b, doc));
        assert(texts::is_core(ticker, given));
    }
}

/// A record stands on a line, and is a document.
proof fn lemma_document(log: Seq<u8>, a: int, b: int, ticker: Seq<char>) -> (doc: JsonView)
    requires
        is_record(log, a, b, ticker),
    ensures
        is_line(log, a, b),
        is_document(log, a, b, doc),
        ticker.len() > 0,
{
    let (doc, given) = choose|doc: JsonView, given: Seq<char>|
        {
            &&& #[trigger] is_document(log, a, b, doc)
            &&& !tells_of_log(a, doc)
            &&& documents::at(doc, "ticker"@) == Some(JsonView::Str(given))
            &&& #[trigger] texts::is_core(ticker, given)
            &&& ticker.len() > 0
        };
    doc
}

/// What reading from a line on adds: an entry for each record from there on, in their order,
/// and nothing else.
pub open spec fn adds_records(
    log: Seq<u8>,
    from: int,
    before: Seq<EntryView>,
    after: Seq<EntryView>,
) -> bool {
    let n = before.len();
    &&& n <= after.len()
    &&& after.take(n as int) == before
    &&& forall|k: int| n <= k < after.len() ==> is_entry_from(log, from, #[trigger] after[k])
    &&& forall|a: int, b: int, ticker: Seq<char>|
        from <= a && #[trigger] is_record(log, a, b, ticker) ==> exists|k: int|
            n <= k < after.len() && #[trigger] after[k] == entry_at(a, b, ticker)
    &&& forall|k: int, l: int|
        n <= k < l < after.len() ==> (#[trigger] after[k]).offset < (#[trigger] after[l]).offset
}

/// The entry is that of a record from this place on.
pub open spec fn is_entry_from(log: Seq<u8>, from: int, entry: EntryView) -> bool {
    exists|a: int, b: int|
        from <= a && #[trigger] is_record(log, a, b, entry.ticker) && entry == entry_at(
            a,
            b,
            entry.ticker,
        )
}

/// Different lines do not overlap.
proof fn lemma_lines_apart(log: Seq<u8>, a: int, b: int, c: int, d: int)
    requires
        is_line(log, a, b),
        is_line(log, c, d),
        a <= c,
    ensures
        a == c ==> b == d,
        a < c ==> b < c,
{
    if a == c {
        if b < d {
            assert(log[b] != '\n' as u8);
        }
        if d < b {
            assert(log[d] != '\n' as u8);
        }
    } else if c <= b {
        assert(log[c - 1] != '\n' as u8);
    }
}

proof fn lemma_scan(log: Seq<u8>, from: int, st: ScanView)
    requires
        0 <= from <= log.len() <= u64::MAX,
        from > 0 ==> log[from - 1] == '\n' as u8,
    ensures
        adds_records(log, from, st.entries, database::scan(log, from, st).entries),
    decreases log.len() - from,
{
    let all = database::scan(log, from, st).entries;
    let n = st.entries.len() as int;
    assert forall|a: int, b: int, ticker: Seq<char>| #[trigger]
        is_record(log, a, b, ticker) implies is_line(log, a, b) by {
        let doc = lemma_document(log, a, b, ticker);
    }
    database::lemma_line_end(log, from);
    let end = database::line_end(log, from);
    if from >= log.len() {
        assert(all.take(n) =~= st.entries);
    } else if end >= log.len() {
        assert(all == st.entries);
        assert(all.take(n) =~= st.entries);
        assert forall|a: int, b: int, ticker: Seq<char>|
            from <= a && #[trigger] is_record(log, a, b, ticker) implies exists|k: int|
            n <= k < all.len() && #[trigger] all[k] == entry_at(a, b, ticker) by {
            assert(is_line(log, a, b));
            assert(log[b] != '\n' as u8);
        }
    } else {
        let line = log.subrange(from, end);
        let next = database::read_line(st, from as u64, line);
        assert(is_line(log, from, end));
        lemma_scan(log, end + 1, next);
        assert(all == database::scan(log, end + 1, next).entries);
        let ticker = database::record_ticker(line)->0;
        assert forall|t: Seq<char>| #[trigger] is_record(log, from, end, t) implies t
            == ticker && next.entries == st.entries.push(entry_at(from, end, ticker)) by {
            lemma_record(log, from, end, t);
        }
        lemma_record(log, from, end, ticker);
        if !is_record(log, from, end, ticker) {
            assert(next.entries == st.entries);
        }
        lemma_joined(log, from, end, st.entries, next.entries, all);
    }
}

proof fn lemma_joined(
    log: Seq<u8>,
    from: int,
    end: int,
    before: Seq<EntryView>,
    next: Seq<EntryView>,
    all: Seq<EntryView>,
)
    requires
        is_line(log, from, end),
        log.len() <= u64::MAX,
        adds_records(log, end + 1, next, all),
        forall|a: int, b: int, ticker: Seq<char>| #[trigger]
            is_record(log, a, b, ticker) ==> is_line(log, a, b),
        if next.len() == before.len() {
            next == before && forall|ticker: Seq<char>| !#[trigger] is_record(
                log,
                from,
                end,
                ticker,
            )
        } else {
            exists|ticker: Seq<char>| #[trigger]
                is_record(log, from, end, ticker) && next == before.push(
                    entry_at(from, end, ticker),
                )
        },
        forall|s: Seq<char>, t: Seq<char>| #[trigger]
            is_record(log, from, end, s) && #[trigger] is_record(log, from, end, t) ==> s == t,
    ensures
        adds_records(log, from, before, all),
{
    let n = before.len() as int;
    let m = next.len() as int;
    assert(all.take(n) =~= before) by {
        assert(all.take(m) == next);
        assert forall|i: int| 0 <= i < n implies all.take(n)[i] == before[i] by {
            assert(all.take(m)[i] == next[i]);
        }
    }
    assert forall|k: int| n <= k < all.len() implies is_entry_from(
        log,
        from,
        #[trigger] all[k],
    ) by {
        if k < m {
            assert(all.take(m)[k] == next[k]);
            assert(is_record(log, from, end, all[k].ticker));
        } else {
            assert(is_entry_from(log, end + 1, all[k]));
            let (a, b) = choose|a: int, b: int|
                end + 1 <= a && #[trigger] is_record(log, a, b, all[k].ticker) && all[k]
                    == entry_at(a, b, all[k].ticker);
            assert(is_record(log, a, b, all[k].ticker));
        }
    }
    assert forall|a: int, b: int, ticker: Seq<char>|
        from <= a && #[trigger] is_record(log, a, b, ticker) implies exists|k: int|
        n <= k < all.len() && #[trigger] all[k] == entry_at(a, b, ticker) by {
        lemma_lines_apart(log, from, end, a, b);
        if a == from {
            assert(m == n + 1);
            assert(all.take(m)[n] == next[n]);
            assert(all[n] == entry_at(a, b, ticker));
        } else {
            let k = choose|k: int|
                m <= k < all.len() && #[trigger] all[k] == entry_at(a, b, ticker);
            assert(all[k] == entry_at(a, b, ticker));
        }
    }
    assert forall|k: int, l: int| n <= k < l < all.len() implies (#[trigger] all[k]).offset < (
    #[trigger] all[l]).offset by {
        if k < m {
            assert(all.take(m)[k] == next[k]);
            assert(is_entry_from(log, end + 1, all[l]));
            let (a, b) = choose|a: int, b: int|
                end + 1 <= a && #[trigger] is_record(log, a, b, all[l].ticker) && all[l]
                    == entry_at(a, b, all[l].ticker);
            assert(is_line(log, a, b));
        }
    }
}

/// The snapshot of a log is in order.
pub proof fn law_snapshot_is_in_order(log: Seq<u8>, modified_unix: u64, snapshot: Snapshot)
    requires
        snapshot.describes(database::scan_log(log, modified_unix)),
    ensures
        documents::in_order(snapshot.entries()),
{
    documents::lemma_in_order(snapshot.entries());
}

/// Every record is loaded: its ticker has an entry, whatever else stands in the log.
pub proof fn law_every_record_is_loaded(
    log: Seq<u8>,
    modified_unix: u64,
    snapshot: Snapshot,
    a: int,
    b: int,
    ticker: Seq<char>,
)
    requires
        log.len() <= u64::MAX,
        snapshot.describes(database::scan_log(log, modified_unix)),
        is_record(log, a, b, ticker),
    ensures
        exists|i: int|
            0 <= i < snapshot.entries().len() && #[trigger] snapshot.entries()[i].ticker == ticker,
{
    let st = database::scan_log(log, modified_unix);
    let doc = lemma_document(log, a, b, ticker);
    assert(0 <= a);
    lemma_scan(log, 0, database::unread(modified_unix));
    let k = choose|k: int|
        0 <= k < st.entries.len() && #[trigger] st.entries[k] == entry_at(a, b, ticker);
    assert(st.entries[k].ticker == ticker);
    database::law_snapshot_knows_every_ticker(snapshot, st, ticker);
    assert(index::has_ticker(snapshot.entries(), ticker));
}

/// Nothing else is loaded, and of several records of a ticker the last one counts: an entry
/// is that of a record of its ticker, and there is none of that ticker behind it.
pub proof fn law_entry_is_the_last_record(
    log: Seq<u8>,
    modified_unix: u64,
    snapshot: Snapshot,
    i: int,
)
    requires
        log.len() <= u64::MAX,
        snapshot.describes(database::scan_log(log, modified_unix)),
        0 <= i < snapshot.entries().len(),
    ensures
        exists|a: int, b: int|
            {
                &&& #[trigger] is_record(log, a, b, snapshot.entries()[i].ticker)
                &&& snapshot.entries()[i] == entry_at(a, b, snapshot.entries()[i].ticker)
                &&& forall|c: int, d: int| #[trigger]
                    is_record(log, c, d, snapshot.entries()[i].ticker) ==> c <= a
            },
{
    let st = database::scan_log(log, modified_unix);
    let entry = snapshot.entries()[i];
    lemma_scan(log, 0, database::unread(modified_unix));
    database::law_index_holds_last_records(snapshot, st, i);
    let k = choose|k: int|
        0 <= k < st.entries.len() && #[trigger] st.entries[k] == entry && forall|later: int|
            k < later < st.entries.len() ==> #[trigger] st.entries[later].ticker != entry.ticker;
    assert(is_entry_from(log, 0, st.entries[k]));
    let (a, b) = choose|a: int, b: int|
        0 <= a && #[trigger] is_record(log, a, b, entry.ticker) && entry == entry_at(
            a,
            b,
            entry.ticker,
        );
    assert forall|c: int, d: int| #[trigger] is_record(log, c, d, entry.ticker) implies c <= a by {
        let doc = lemma_document(log, c, d, entry.ticker);
        assert(is_line(log, c, d));
        let l = choose|l: int|
            0 <= l < st.entries.len() && #[trigger] st.entries[l] == entry_at(
                c,
                d,
                entry.ticker,
            );
        if c > a {
            let doc = lemma_document(log, a, b, entry.ticker);
            assert(is_line(log, a, b));
            assert(st.entries[k].offset < st.entries[l].offset);
            assert(l > k);
            assert(st.entries[l].ticker != entry.ticker);
        }
    }
}

/// What is said of a snapshot as a whole: how many tickers it has; and its age and the
/// version of its layout, which a first line that tells of the log states. Where the line
/// says nothing of its age, or is not there, the file does.
pub proof fn law_snapshot_is_described(log: Seq<u8>, modified_unix: u64, snapshot: Snapshot)
    requires
        log.len() <= u64::MAX,
        snapshot.describes(database::scan_log(log, modified_unix)),
    ensures
        snapshot.entries().len() <= u32::MAX ==> snapshot.lines == snapshot.entries().len(),
        forall|b: int, doc: JsonView| #[trigger]
            is_document(log, 0, b, doc) && tells_of_log(0, doc) ==> {
                &&& match documents::at(doc, "built_at_unix"@) {
                    Some(JsonView::Unsigned(at)) => snapshot.built_at_unix == at,
                    _ => snapshot.built_at_unix == modified_unix,
                }
                &&& match documents::at(doc, "format_version"@) {
                    Some(JsonView::Unsigned(n)) => n <= u32::MAX ==> snapshot.format_version == n,
                    _ => snapshot.format_version == 1,
                }
            },
        (forall|b: int, doc: JsonView| #[trigger]
            is_document(log, 0, b, doc) ==> !tells_of_log(0, doc)) ==> snapshot.built_at_unix
            == modified_unix && snapshot.format_version == 0,
{
    let st = database::unread(modified_unix);
    database::lemma_line_end(log, 0);
    let end = database::line_end(log, 0);
    reveal_with_fuel(database::scan, 2);
    if log.len() > 0 && end < log.len() {
        let line = log.subrange(0, end);
        assert(is_line(log, 0, end));
        lemma_later_lines(log, end + 1, database::read_line(st, 0, line));
        if database::is_meta(0, line) && vstd::utf8::valid_utf8(line) {
            assert(is_document(log, 0, end, json::json_parsed(line)->Ok_0));
        }
    }
    assert forall|b: int, doc: JsonView| #[trigger] is_document(log, 0, b, doc) implies b == end by {
        lemma_end(log, 0, b);
    }
}

proof fn lemma_later_lines(log: Seq<u8>, from: int, st: ScanView)
    requires
        0 < from <= log.len() <= u64::MAX,
    ensures
        database::scan(log, from, st).built_at_unix == st.built_at_unix,
        database::scan(log, from, st).format_version == st.format_version,
    decreases log.len() - from,
{
    if from < log.len() {
        database::lemma_line_end(log, from);
        let end = database::line_end(log, from);
        if end < log.len() {
            let next = database::read_line(st, from as u64, log.subrange(from, end));
            lemma_later_lines(log, end + 1, next);
        }
    }
}

/// From the log to the client: asking for a ticker gives the document on the last line of
/// the log that is a record of it.
pub proof fn law_last_record_is_served(
    log: Seq<u8>,
    modified_unix: u64,
    snapshot: Snapshot,
    line: Seq<char>,
    request: JsonView,
    given: Seq<char>,
    ticker: Seq<char>,
    a: int,
    b: int,
)
    requires
        log.len() <= u64::MAX,
        snapshot.describes(database::scan_log(log, modified_unix)),
        protocol::asks(line, request, "get_event"@),
        documents::at(request, "ticker"@) == Some(JsonView::Str(given)),
        texts::is_core(ticker, given),
        is_record(log, a, b, ticker),
        b - a <= u32::MAX,
        forall|c: int, d: int| #[trigger] is_record(log, c, d, ticker) ==> c <= a,
    ensures
        exists|result: JsonView, doc: JsonView|
            {
                &&& #[trigger] protocol::succeeds(
                    api::answer(snapshot, log, line),
                    request,
                    "get_event"@,
                    result,
                )
                &&& documents::at(result, "event"@) == Some(doc)
                &&& #[trigger] is_document(log, a, b, doc)
            },
{
    law_snapshot_is_in_order(log, modified_unix, snapshot);
    law_every_record_is_loaded(log, modified_unix, snapshot, a, b, ticker);
    let i = choose|i: int|
        0 <= i < snapshot.entries().len() && #[trigger] snapshot.entries()[i].ticker == ticker;
    law_entry_is_the_last_record(log, modified_unix, snapshot, i);
    let entry = snapshot.entries()[i];
    let (c, d) = choose|c: int, d: int|
        {
            &&& #[trigger] is_record(log, c, d, entry.ticker)
            &&& entry == entry_at(c, d, entry.ticker)
            &&& forall|e: int, f: int| #[trigger] is_record(log, e, f, entry.ticker) ==> e <= c
        };
    assert(c == a);
    let doc = lemma_document(log, a, b, ticker);
    let other = lemma_document(log, c, d, ticker);
    lemma_lines_apart(log, a, b, c, d);
    assert(documents::holds(log, entry, doc));
    protocol::law_get_event_hands_out_the_record(
        snapshot,
        log,
        line,
        request,
        given,
        ticker,
        i,
        doc,
    );
    let result = choose|result: JsonView| #[trigger]
        protocol::succeeds(api::answer(snapshot, log, line), request, "get_event"@, result)
            && documents::at(result, "event"@) == Some(doc);
    assert(protocol::succeeds(
        api::answer(snapshot, log, line),
        request,
        "get_event"@,
        result,
    ));
    assert(is_document(log, a, b, doc));
}

// ---------------------------------------------------------------------------
// Lines that are passed over
// ---------------------------------------------------------------------------

/// How many lines there are from a place on, a last one without a line feed included.
pub open spec fn lines_from(log: Seq<u8>, from: int) -> int {
    log.skip(from).filter(|b: u8| b == '\n' as u8).len() + if log.len() > from && log.last()
        != '\n' as u8 {
        1int
    } else {
        0int
    }
}

proof fn lemma_lines_from(log: Seq<u8>, from: int, end: int)
    requires
        0 <= from <= end < log.len(),
        log[end] == '\n' as u8,
        forall|i: int| from <= i < end ==> #[trigger] log[i] != '\n' as u8,
    ensures
        lines_from(log, from) == 1 + lines_from(log, end + 1),
{
    let keep = |b: u8| b == '\n' as u8;
    let front = log.subrange(from, end);
    let rest = log.skip(end + 1);
    assert(log.skip(from) =~= front + seq![log[end]] + rest);
    Seq::filter_distributes_over_add(front + seq![log[end]], rest, keep);
    Seq::filter_distributes_over_add(front, seq![log[end]], keep);
    assert forall|i: int| 0 <= i < front.len() implies !keep(#[trigger] front[i]) by {
        assert(front[i] == log[from + i]);
    }
    lists::lemma_filter_none(front, keep);
    reveal(Seq::filter);
    assert(seq![log[end]].drop_last() =~= Seq::empty());
    assert(seq![log[end]].filter(keep).len() == 1);
}

proof fn lemma_torn(log: Seq<u8>, from: int)
    requires
        0 <= from <= log.len(),
        forall|i: int| from <= i < log.len() ==> #[trigger] log[i] != '\n' as u8,
    ensures
        lines_from(log, from) == if from < log.len() {
            1int
        } else {
            0int
        },
{
    let keep = |b: u8| b == '\n' as u8;
    let rest = log.skip(from);
    assert forall|i: int| 0 <= i < rest.len() implies !keep(#[trigger] rest[i]) by {
        assert(rest[i] == log[from + i]);
    }
    lists::lemma_filter_none(rest, keep);
    if from < log.len() {
        assert(log[log.len() - 1] != '\n' as u8);
    }
}

proof fn lemma_counted(log: Seq<u8>, from: int, st: ScanView)
    requires
        0 < from <= log.len() <= u64::MAX,
        st.skipped + log.len() - from <= u64::MAX,
    ensures
        ({
            let all = database::scan(log, from, st);
            all.entries.len() + all.skipped == st.entries.len() + st.skipped + lines_from(
                log,
                from,
            )
        }),
    decreases log.len() - from,
{
    database::lemma_line_end(log, from);
    let end = database::line_end(log, from);
    if end >= log.len() {
        lemma_torn(log, from);
    } else {
        lemma_lines_from(log, from, end);
        let next = database::read_line(st, from as u64, log.subrange(from, end));
        assert(next.entries.len() + next.skipped == st.entries.len() + st.skipped + 1);
        lemma_counted(log, end + 1, next);
    }
}

/// Every line of a log tells of the log, is a record or is counted as passed over.
pub proof fn law_every_line_is_accounted_for(log: Seq<u8>, modified_unix: u64)
    requires
        log.len() <= u64::MAX,
    ensures
        ({
            let st = database::scan_log(log, modified_unix);
            let told = exists|b: int, doc: JsonView| #[trigger]
                is_document(log, 0, b, doc) && tells_of_log(0, doc);
            lines_from(log, 0) == st.entries.len() + st.skipped + if told {
                1int
            } else {
                0int
            }
        }),
{
    let st = database::unread(modified_unix);
    database::lemma_line_end(log, 0);
    let end = database::line_end(log, 0);
    assert forall|b: int, doc: JsonView| #[trigger] is_document(log, 0, b, doc) implies b == end
        && end < log.len() && json::json_parsed(log.subrange(0, end)) == Ok::<
        JsonView,
        Seq<char>,
    >(doc) by {
        lemma_end(log, 0, b);
    }
    reveal_with_fuel(database::scan, 2);
    if log.len() == 0 || end >= log.len() {
        lemma_torn(log, 0);
    } else {
        let line = log.subrange(0, end);
        assert(is_line(log, 0, end));
        lemma_lines_from(log, 0, end);
        let next = database::read_line(st, 0, line);
        lemma_counted(log, end + 1, next);
        if vstd::utf8::valid_utf8(line) && database::is_meta(0, line) {
            let doc = json::json_parsed(line)->Ok_0;
            assert(is_document(log, 0, end, doc));
        }
    }
}

} // verus!
