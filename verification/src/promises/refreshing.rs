//! What a refresh makes of a log.

use crate::compaction;
use crate::database;
use crate::dates;
use crate::index;
use crate::index::EntryView;
use crate::json;
use crate::json::JsonView;
use crate::poly_api;
use crate::poly_api::EventView;
use crate::promises::documents;
use crate::promises::texts;
use crate::records;
use crate::records::Record;
use crate::refresh;
use vstd::prelude::*;

verus! {

// ---------------------------------------------------------------------------
// Expiry
// ---------------------------------------------------------------------------

/// The record names an end date that is more than four hours past.
pub open spec fn has_ended(record: Seq<u8>, now_unix: u64) -> bool {
    exists|doc: JsonView, date: Seq<char>, end: int|
        {
            &&& json::json_parsed(record) == Ok::<JsonView, Seq<char>>(doc)
            &&& #[trigger] documents::at(doc, "endDate"@) == Some(JsonView::Str(date))
            &&& #[trigger] is_time(date, end)
            &&& now_unix - end > 4 * 3600
        }
}

/// The text is the date and time with this count of seconds.
pub open spec fn is_time(date: Seq<char>, end: int) -> bool {
    dates::date_of(date) matches Some(count) && count == end
}

proof fn lemma_expired(record: Seq<u8>, now_unix: u64)
    ensures
        refresh::expired(record, now_unix) <==> has_ended(record, now_unix),
{
    if refresh::expired(record, now_unix) {
        let doc = json::json_parsed(record)->Ok_0;
        let date = documents::at(doc, "endDate"@)->0->Str_0;
        let end = dates::date_of(date)->0 as int;
        assert(documents::at(doc, "endDate"@) == Some(JsonView::Str(date)));
        assert(is_time(date, end));
    }
}

// ---------------------------------------------------------------------------
// Crawled events
// ---------------------------------------------------------------------------

/// The event belongs to this ticker.
pub open spec fn belongs(event: EventView, ticker: Seq<char>) -> bool {
    ticker.len() > 0 && texts::is_core(ticker, event.ticker)
}

/// The `i`th event is the last one of this ticker.
pub open spec fn is_last_event(events: Seq<EventView>, i: int, ticker: Seq<char>) -> bool {
    &&& 0 <= i < events.len()
    &&& belongs(events[i], ticker)
    &&& forall|j: int| i < j < events.len() ==> !belongs(#[trigger] events[j], ticker)
}

/// One of the events belongs to this ticker.
pub open spec fn is_crawled(events: Seq<EventView>, ticker: Seq<char>) -> bool {
    exists|i: int| 0 <= i < events.len() && belongs(#[trigger] events[i], ticker)
}

/// Of a crawl each ticker has its last event, and nothing else is there.
proof fn lemma_crawl(events: Seq<EventView>, ticker: Seq<char>)
    ensures
        ({
            let crawl = records::by_ticker(refresh::crawled(events));
            &&& crawl.dom().contains(ticker) <==> is_crawled(events, ticker)
            &&& forall|i: int| #[trigger]
                is_last_event(events, i, ticker) ==> crawl[ticker] == vstd::utf8::encode_utf8(
                    poly_api::event_text(events[i]),
                )
        }),
    decreases events.len(),
{
    let records = refresh::crawled(events);
    let crawl = records::by_ticker(records);
    if events.len() > 0 {
        let rest = events.drop_last();
        let event = events.last();
        let n = events.len() - 1;
        lemma_crawl(rest, ticker);
        texts::law_trimming_takes_off_white_space(event.ticker, ticker);
        if belongs(event, ticker) {
            assert(belongs(events[n], ticker));
            assert(records =~= refresh::crawled(rest).push(refresh::record_of(event)));
            assert(records.drop_last() =~= refresh::crawled(rest));
            assert forall|i: int| #[trigger] is_last_event(events, i, ticker) implies i == n by {
                if i < n {
                    assert(!belongs(events[n], ticker));
                }
            }
        } else {
            if refresh::crawled(rest) != records {
                assert(records.drop_last() =~= refresh::crawled(rest));
            }
            if is_crawled(events, ticker) {
                let i = choose|i: int| 0 <= i < events.len() && belongs(#[trigger] events[i], ticker);
                assert(belongs(rest[i], ticker));
            }
            if is_crawled(rest, ticker) {
                let i = choose|i: int| 0 <= i < rest.len() && belongs(#[trigger] rest[i], ticker);
                assert(belongs(events[i], ticker));
            }
            assert forall|i: int| #[trigger]
                is_last_event(events, i, ticker) implies crawl[ticker] == vstd::utf8::encode_utf8(
                poly_api::event_text(events[i]),
            ) by {
                assert(rest[i] == events[i]);
                assert forall|j: int| i < j < rest.len() implies !belongs(
                    #[trigger] rest[j],
                    ticker,
                ) by {
                    assert(!belongs(events[j], ticker));
                }
                assert(is_last_event(rest, i, ticker));
                assert(is_crawled(rest, ticker));
            }
        }
    }
}

// ---------------------------------------------------------------------------
// Logs with their entries
// ---------------------------------------------------------------------------

/// The entries are in order, and the log is long enough for them.
pub open spec fn are_entries_of(entries: Seq<EntryView>, log: Seq<u8>) -> bool {
    &&& documents::in_order(entries)
    &&& forall|i: int|
        0 <= i < entries.len() ==> (#[trigger] entries[i]).offset + entries[i].len <= log.len()
}

/// One of the entries stands for these bytes of this ticker.
pub open spec fn keeps(
    entries: Seq<EntryView>,
    log: Seq<u8>,
    ticker: Seq<char>,
    bytes: Seq<u8>,
) -> bool {
    exists|k: int|
        0 <= k < entries.len() && (#[trigger] entries[k]).ticker == ticker && documents::bytes_of(
            log,
            entries[k],
        ) == bytes
}

/// One of the entries has this ticker.
pub open spec fn knows(entries: Seq<EntryView>, ticker: Seq<char>) -> bool {
    exists|k: int| 0 <= k < entries.len() && (#[trigger] entries[k]).ticker == ticker
}

proof fn lemma_contents(entries: Seq<EntryView>, log: Seq<u8>, ticker: Seq<char>)
    requires
        are_entries_of(entries, log),
    ensures
        records::contents(entries, log).dom().contains(ticker) <==> knows(entries, ticker),
        forall|bytes: Seq<u8>| #[trigger]
            keeps(entries, log, ticker, bytes) <==> knows(entries, ticker) && records::contents(
                entries,
                log,
            )[ticker] == bytes,
{
    documents::lemma_in_order(entries);
    index::lemma_absent_selects_nothing(entries, ticker);
    assert(knows(entries, ticker) <==> index::has_ticker(entries, ticker)) by {
        if knows(entries, ticker) {
            let k = choose|k: int|
                0 <= k < entries.len() && (#[trigger] entries[k]).ticker == ticker;
            assert(entries[k].ticker == ticker);
        }
        if index::has_ticker(entries, ticker) {
            let k = choose|k: int|
                0 <= k < entries.len() && #[trigger] entries[k].ticker == ticker;
            assert(entries[k].ticker == ticker);
        }
    }
    assert forall|k: int| 0 <= k < entries.len() && (#[trigger] entries[k]).ticker
        == ticker implies records::contents(entries, log)[ticker] == documents::bytes_of(
        log,
        entries[k],
    ) by {
        index::lemma_selection_of_index(entries, k);
        assert(seq![entries[k]].last() == entries[k]);
    }
}

/// What the log and the entries that a refresh makes have to do with those before it and
/// with the events that were gathered.
pub open spec fn is_refreshed(
    before: Seq<EntryView>,
    before_log: Seq<u8>,
    events: Seq<EventView>,
    now_unix: u64,
    entries: Seq<EntryView>,
    log: Seq<u8>,
) -> bool {
    &&& are_entries_of(before, before_log)
    &&& are_entries_of(entries, log)
    &&& records::contents(entries, log) == refresh::refreshed(
        records::contents(before, before_log),
        records::by_ticker(refresh::crawled(events)),
        now_unix,
    )
}

/// A ticker that was gathered has the text of its last event in the new log.
pub proof fn law_gathered_events_are_written(
    before: Seq<EntryView>,
    before_log: Seq<u8>,
    events: Seq<EventView>,
    now_unix: u64,
    entries: Seq<EntryView>,
    log: Seq<u8>,
    i: int,
    ticker: Seq<char>,
)
    requires
        is_refreshed(before, before_log, events, now_unix, entries, log),
        is_last_event(events, i, ticker),
    ensures
        keeps(
            entries,
            log,
            ticker,
            vstd::utf8::encode_utf8(poly_api::event_text(events[i])),
        ),
{
    assert(is_crawled(events, ticker)) by {
        assert(belongs(events[i], ticker));
    }
    lemma_crawl(events, ticker);
    lemma_contents(entries, log, ticker);
}

/// A ticker that was not gathered keeps its record byte for byte as long as the record's
/// end date is not more than four hours past, and for good where it names none; after that
/// the ticker is gone.
pub proof fn law_other_records_are_kept_until_ended(
    before: Seq<EntryView>,
    before_log: Seq<u8>,
    events: Seq<EventView>,
    now_unix: u64,
    entries: Seq<EntryView>,
    log: Seq<u8>,
    j: int,
)
    requires
        is_refreshed(before, before_log, events, now_unix, entries, log),
        0 <= j < before.len(),
        !is_crawled(events, before[j].ticker),
    ensures
        ({
            let record = documents::bytes_of(before_log, before[j]);
            if has_ended(record, now_unix) {
                !knows(entries, before[j].ticker)
            } else {
                keeps(entries, log, before[j].ticker, record)
            }
        }),
{
    let ticker = before[j].ticker;
    let record = documents::bytes_of(before_log, before[j]);
    lemma_crawl(events, ticker);
    lemma_contents(entries, log, ticker);
    lemma_contents(before, before_log, ticker);
    assert(keeps(before, before_log, ticker, record));
    lemma_expired(record, now_unix);
}

/// A refresh makes up no tickers.
pub proof fn law_nothing_else_is_written(
    before: Seq<EntryView>,
    before_log: Seq<u8>,
    events: Seq<EventView>,
    now_unix: u64,
    entries: Seq<EntryView>,
    log: Seq<u8>,
    k: int,
)
    requires
        is_refreshed(before, before_log, events, now_unix, entries, log),
        0 <= k < entries.len(),
    ensures
        knows(before, entries[k].ticker) || is_crawled(events, entries[k].ticker),
{
    let ticker = entries[k].ticker;
    lemma_crawl(events, ticker);
    lemma_contents(entries, log, ticker);
    lemma_contents(before, before_log, ticker);
    assert(knows(entries, ticker));
}

// ---------------------------------------------------------------------------
// The new log
// ---------------------------------------------------------------------------

/// The records, each on a line of its own.
pub open spec fn on_lines(records: Seq<Record>) -> Seq<u8> {
    records.map_values(|r: Record| r.bytes.push('\n' as u8)).flatten()
}

proof fn lemma_lines(records: Seq<Record>)
    ensures
        records::lines_of(records) == on_lines(records),
    decreases records.len(),
{
    let on_line = |r: Record| r.bytes.push('\n' as u8);
    if records.len() == 0 {
        assert(records.map_values(on_line) =~= Seq::empty());
        assert(on_lines(records) =~= Seq::empty());
    } else {
        lemma_lines(records.drop_last());
        let fewer = records.drop_last().map_values(on_line);
        assert(records.map_values(on_line) =~= fewer.push(on_line(records.last())));
        fewer.lemma_flatten_push(on_line(records.last()));
    }
}

/// A new log starts with a line that tells its age and the version of its layout, and has
/// one line for each record behind it.
pub proof fn law_new_log_is_a_meta_line_and_records(built_at_unix: u64, records: Seq<Record>)
    ensures
        exists|meta: JsonView|
            {
                &&& compaction::compacted(built_at_unix, records) == vstd::utf8::encode_utf8(
                    #[trigger] json::json_text(meta),
                ).push('\n' as u8) + on_lines(records)
                &&& documents::at(meta, "__apdb_meta__"@) == Some(JsonView::Bool(true))
                &&& documents::at(meta, "format_version"@) == Some(JsonView::Unsigned(1))
                &&& documents::at(meta, "built_at_unix"@) == Some(
                    JsonView::Unsigned(built_at_unix),
                )
            },
{
    lemma_lines(records);
    reveal_strlit("__apdb_meta__");
    reveal_strlit("format_version");
    reveal_strlit("built_at_unix");
    assert("__apdb_meta__"@[0] == '_');
    assert("format_version"@[0] == 'f');
    assert("built_at_unix"@[0] == 'b');
    let meta = compaction::meta_view(built_at_unix);
    assert(compaction::compacted(built_at_unix, records) == vstd::utf8::encode_utf8(
        json::json_text(meta),
    ).push('\n' as u8) + on_lines(records));
}

/// The entries that go with records say where each one stands, whatever is before and
/// behind them.
pub proof fn law_placed_records_are_found(
    before: Seq<u8>,
    records: Seq<Record>,
    after: Seq<u8>,
    i: int,
)
    requires
        before.len() + on_lines(records).len() <= u64::MAX,
        forall|k: int| 0 <= k < records.len() ==> (#[trigger] records[k]).bytes.len() <= u32::MAX,
        0 <= i < records.len(),
    ensures
        ({
            let entries = records::placed(records, before.len() as int);
            &&& entries.len() == records.len()
            &&& entries[i].ticker == records[i].ticker
            &&& documents::bytes_of(before + on_lines(records) + after, entries[i])
                == records[i].bytes
        }),
{
    lemma_lines(records);
    assert forall|k: int| 0 <= k < records.len() implies #[trigger] records[k].bytes.len()
        <= u32::MAX by {
        assert(records[k].bytes.len() <= u32::MAX);
    }
    records::lemma_placed(records, before.len() as int);
    records::lemma_placed_is_found(before, records, after, i);
}

} // verus!
