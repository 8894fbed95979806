//! What each request is answered with, whatever is on its line, in the log and in the
//! snapshot of the log.

use crate::api;
use crate::database;
use crate::database::Snapshot;
use crate::envelope;
use crate::index;
use crate::index::EntryView;
use crate::json;
use crate::json::JsonView;
use crate::promises::documents;
use crate::promises::texts;
use crate::text;
use crate::version;
use vstd::prelude::*;

verus! {

// ---------------------------------------------------------------------------
// Requests and responses
// ---------------------------------------------------------------------------

/// The line asks for this operation.
pub open spec fn asks(line: Seq<char>, request: JsonView, op: Seq<char>) -> bool {
    &&& envelope::request_on(line) == Ok::<JsonView, Seq<char>>(request)
    &&& documents::at(request, "op"@) == Some(JsonView::Str(op))
}

/// The identifier that goes back with the response.
pub open spec fn identifier(request: JsonView) -> JsonView {
    match documents::at(request, "id"@) {
        Some(id) => id,
        None => JsonView::Null,
    }
}

/// The response answers the request with this result.
pub open spec fn succeeds(
    response: JsonView,
    request: JsonView,
    op: Seq<char>,
    result: JsonView,
) -> bool {
    &&& documents::at(response, "ok"@) == Some(JsonView::Bool(true))
    &&& documents::at(response, "op"@) == Some(JsonView::Str(op))
    &&& documents::at(response, "id"@) == Some(identifier(request))
    &&& documents::at(response, "result"@) == Some(result)
    &&& documents::at(response, "error"@) is None
    &&& documents::at(response, "db_version"@) == Some(JsonView::Str(version::version_text()))
}

/// The response refuses the request, for this kind of reason.
pub open spec fn refuses(
    response: JsonView,
    request: JsonView,
    op: Seq<char>,
    code: Seq<char>,
) -> bool {
    &&& documents::at(response, "ok"@) == Some(JsonView::Bool(false))
    &&& documents::at(response, "op"@) == Some(JsonView::Str(op))
    &&& documents::at(response, "id"@) == Some(identifier(request))
    &&& documents::at(response, "result"@) is None
    &&& documents::at(response, "error"@) matches Some(detail) && documents::at(detail, "code"@)
        == Some(JsonView::Str(code))
    &&& documents::at(response, "db_version"@) == Some(JsonView::Str(version::version_text()))
}

/// The response states this reason.
pub open spec fn says_why(response: JsonView, message: Seq<char>) -> bool {
    documents::at(response, "error"@) matches Some(detail) && documents::at(detail, "message"@)
        == Some(JsonView::Str(message))
}

proof fn lemma_literals()
    ensures
        "ok"@ != "op"@,
        "ok"@ != "id"@,
        "ok"@ != "result"@,
        "ok"@ != "error"@,
        "ok"@ != "db_version"@,
        "op"@ != "id"@,
        "op"@ != "result"@,
        "op"@ != "error"@,
        "op"@ != "db_version"@,
        "id"@ != "result"@,
        "id"@ != "error"@,
        "id"@ != "db_version"@,
        "result"@ != "error"@,
        "result"@ != "db_version"@,
        "error"@ != "db_version"@,
        "code"@ != "message"@,
        "get_event"@ != "list_events"@,
        "get_event"@ != "list_tickers"@,
        "get_event"@ != "list_asset_ids"@,
        "get_event"@ != "prefix_search"@,
        "get_event"@ != "db_info"@,
        "list_events"@ != "list_tickers"@,
        "list_events"@ != "list_asset_ids"@,
        "list_events"@ != "prefix_search"@,
        "list_events"@ != "db_info"@,
        "list_tickers"@ != "list_asset_ids"@,
        "list_tickers"@ != "prefix_search"@,
        "list_tickers"@ != "db_info"@,
        "list_asset_ids"@ != "prefix_search"@,
        "list_asset_ids"@ != "db_info"@,
        "prefix_search"@ != "db_info"@,
{
    reveal_strlit("ok");
    reveal_strlit("op");
    reveal_strlit("id");
    reveal_strlit("result");
    reveal_strlit("error");
    reveal_strlit("db_version");
    reveal_strlit("code");
    reveal_strlit("message");
    reveal_strlit("get_event");
    reveal_strlit("list_events");
    reveal_strlit("list_tickers");
    reveal_strlit("list_asset_ids");
    reveal_strlit("prefix_search");
    reveal_strlit("db_info");
    assert("ok"@[0] == 'o' && "ok"@[1] == 'k');
    assert("op"@[0] == 'o' && "op"@[1] == 'p');
    assert("id"@[0] == 'i');
    assert("result"@.len() == 6 && "error"@.len() == 5 && "db_version"@.len() == 10);
    assert("code"@.len() == 4 && "message"@.len() == 7);
    assert("get_event"@.len() == 9 && "list_events"@.len() == 11 && "list_tickers"@.len() == 12);
    assert("list_asset_ids"@.len() == 14 && "prefix_search"@.len() == 13 && "db_info"@.len() == 7);
}

proof fn lemma_ok(request: JsonView, op: Seq<char>, result: JsonView)
    ensures
        succeeds(api::ok_view(identifier(request), op, result), request, op, result),
{
    lemma_literals();
}

proof fn lemma_refused(request: JsonView, op: Seq<char>, code: Seq<char>, message: Seq<char>)
    ensures
        refuses(
            api::err_view(identifier(request), Some(op), code, message),
            request,
            op,
            code,
        ),
{
    lemma_literals();
}

/// Requests are sent on by their operation.
proof fn lemma_dispatched(snapshot: Snapshot, line: Seq<char>, request: JsonView, op: Seq<char>)
    requires
        asks(line, request, op),
    ensures
        api::plan(snapshot, line) == api::dispatched(snapshot, identifier(request), op, request),
{
}

// ---------------------------------------------------------------------------
// get_event
// ---------------------------------------------------------------------------

/// `get_event` hands out the whole record of the ticker asked for, as it stands in the log.
pub proof fn law_get_event_hands_out_the_record(
    snapshot: Snapshot,
    log: Seq<u8>,
    line: Seq<char>,
    request: JsonView,
    given: Seq<char>,
    ticker: Seq<char>,
    i: int,
    doc: JsonView,
)
    requires
        documents::in_order(snapshot.entries()),
        asks(line, request, "get_event"@),
        documents::at(request, "ticker"@) == Some(JsonView::Str(given)),
        texts::is_core(ticker, given),
        ticker.len() > 0,
        0 <= i < snapshot.entries().len(),
        snapshot.entries()[i].ticker == ticker,
        documents::holds(log, snapshot.entries()[i], doc),
    ensures
        exists|result: JsonView| #[trigger]
            succeeds(api::answer(snapshot, log, line), request, "get_event"@, result)
                && documents::at(result, "event"@) == Some(doc),
{
    let entries = snapshot.entries();
    let entry = entries[i];
    texts::law_trimming_takes_off_white_space(given, ticker);
    lemma_dispatched(snapshot, line, request, "get_event"@);
    lemma_literals();
    documents::lemma_in_order(entries);
    index::lemma_selection_of_index(entries, i);
    documents::law_records_are_read_where_they_stand(log, entry, doc);
    let read = api::plan(snapshot, line)->Read_0;
    assert(read.entries =~= seq![entry]);
    let records = read.entries.map_values(|e: EntryView| database::record_value(log, e));
    assert(records.len() == 1 && records[0] == Ok::<JsonView, Seq<char>>(doc));
    reveal_with_fuel(api::failure_from, 2);
    let result = api::read_result(read, records);
    lemma_ok(request, "get_event"@, result);
    assert(succeeds(api::answer(snapshot, log, line), request, "get_event"@, result));
}

/// A ticker that the snapshot does not have is answered with `null`.
pub proof fn law_get_event_of_unknown_ticker_is_null(
    snapshot: Snapshot,
    log: Seq<u8>,
    line: Seq<char>,
    request: JsonView,
    given: Seq<char>,
    ticker: Seq<char>,
)
    requires
        asks(line, request, "get_event"@),
        documents::at(request, "ticker"@) == Some(JsonView::Str(given)),
        texts::is_core(ticker, given),
        ticker.len() > 0,
        forall|i: int|
            0 <= i < snapshot.entries().len() ==> #[trigger] snapshot.entries()[i].ticker != ticker,
    ensures
        exists|result: JsonView| #[trigger]
            succeeds(api::answer(snapshot, log, line), request, "get_event"@, result)
                && documents::at(result, "event"@) == Some(JsonView::Null),
{
    let entries = snapshot.entries();
    texts::law_trimming_takes_off_white_space(given, ticker);
    lemma_dispatched(snapshot, line, request, "get_event"@);
    lemma_literals();
    index::lemma_absent_selects_nothing(entries, ticker);
    let result = JsonView::Object(json::no_fields().insert("event"@, JsonView::Null));
    lemma_ok(request, "get_event"@, result);
    assert(succeeds(api::answer(snapshot, log, line), request, "get_event"@, result));
}

/// A record that cannot be read is an internal error, and no `null`.
pub proof fn law_get_event_tells_of_unreadable_records(
    snapshot: Snapshot,
    log: Seq<u8>,
    line: Seq<char>,
    request: JsonView,
    given: Seq<char>,
    ticker: Seq<char>,
    i: int,
)
    requires
        documents::in_order(snapshot.entries()),
        asks(line, request, "get_event"@),
        documents::at(request, "ticker"@) == Some(JsonView::Str(given)),
        texts::is_core(ticker, given),
        ticker.len() > 0,
        0 <= i < snapshot.entries().len(),
        snapshot.entries()[i].ticker == ticker,
        forall|doc: JsonView| !#[trigger] documents::holds(log, snapshot.entries()[i], doc),
    ensures
        refuses(api::answer(snapshot, log, line), request, "get_event"@, "internal"@),
        exists|reason: Seq<char>| #[trigger]
            says_why(
                api::answer(snapshot, log, line),
                "failed to read record '"@ + ticker + "': "@ + reason,
            ),
{
    let entries = snapshot.entries();
    let entry = entries[i];
    texts::law_trimming_takes_off_white_space(given, ticker);
    lemma_dispatched(snapshot, line, request, "get_event"@);
    lemma_literals();
    documents::lemma_in_order(entries);
    index::lemma_selection_of_index(entries, i);
    let value = database::record_value(log, entry);
    if let Ok(doc) = value {
        documents::law_records_are_read_where_they_stand(log, entry, doc);
        assert(documents::holds(log, entry, doc));
    }
    let read = api::plan(snapshot, line)->Read_0;
    assert(read.entries =~= seq![entry]);
    let records = read.entries.map_values(|e: EntryView| database::record_value(log, e));
    assert(records.len() == 1 && records[0] == value);
    reveal_with_fuel(api::failure_from, 2);
    lemma_refused(
        request,
        "get_event"@,
        "internal"@,
        api::read_failure(entry.ticker, value->Err_0),
    );
    assert(says_why(
        api::answer(snapshot, log, line),
        "failed to read record '"@ + ticker + "': "@ + value->Err_0,
    ));
}

/// `get_event` without a ticker, or with one that is no text or blank, is refused.
pub proof fn law_get_event_needs_a_ticker(
    snapshot: Snapshot,
    log: Seq<u8>,
    line: Seq<char>,
    request: JsonView,
)
    requires
        asks(line, request, "get_event"@),
        match documents::at(request, "ticker"@) {
            Some(JsonView::Str(given)) => texts::is_core(Seq::empty(), given),
            _ => true,
        },
    ensures
        refuses(api::answer(snapshot, log, line), request, "get_event"@, "bad_request"@),
{
    lemma_dispatched(snapshot, line, request, "get_event"@);
    lemma_literals();
    match documents::at(request, "ticker"@) {
        Some(JsonView::Str(given)) => {
            texts::law_trimming_takes_off_white_space(given, Seq::empty());
            lemma_refused(request, "get_event"@, "bad_request"@, "ticker must not be empty"@);
        },
        _ => {
            let message = api::required_text(request, "ticker"@)->Err_0;
            lemma_refused(request, "get_event"@, "bad_request"@, api::invalid_params(message));
        },
    }
}

// ---------------------------------------------------------------------------
// Pages
// ---------------------------------------------------------------------------

/// The cursor that a request names, if it names one.
pub open spec fn asks_after(request: JsonView, after: Option<Seq<char>>) -> bool {
    match documents::at(request, "after"@) {
        None => after is None,
        Some(JsonView::Null) => after is None,
        Some(JsonView::Str(cursor)) => after == Some(cursor),
        _ => false,
    }
}

/// The page size that a request gets: the usual one where it names none, and never more
/// than the largest.
pub open spec fn asks_for(
    request: JsonView,
    key: Seq<char>,
    usual: int,
    largest: int,
    limit: int,
) -> bool {
    match documents::at(request, key) {
        None => limit == usual,
        Some(JsonView::Null) => limit == usual,
        Some(JsonView::Unsigned(n)) => 0 < n <= 0xffff_ffff && limit == if n < largest {
            n as int
        } else {
            largest
        },
        _ => false,
    }
}

/// The ticker is behind the cursor.
pub open spec fn is_behind(ticker: Seq<char>, after: Option<Seq<char>>) -> bool {
    match after {
        Some(cursor) => texts::precedes(cursor, ticker),
        None => true,
    }
}

/// The entries from `from` up to `to` are the page behind a cursor: they start with the
/// first ticker that is strictly greater than the cursor, and there are `limit` of them,
/// or all that are left.
pub open spec fn is_page(
    entries: Seq<EntryView>,
    after: Option<Seq<char>>,
    limit: int,
    from: int,
    to: int,
) -> bool {
    &&& 0 <= from <= to <= entries.len()
    &&& forall|i: int|
        0 <= i < entries.len() ==> (from <= i <==> is_behind((#[trigger] entries[i]).ticker, after))
    &&& if from + limit < entries.len() {
        to == from + limit
    } else {
        to == entries.len()
    }
}

/// The cursor for what is behind a page; `null` where that is nothing.
pub open spec fn cursor_behind(entries: Seq<EntryView>, to: int) -> JsonView {
    if to < entries.len() {
        JsonView::Str(entries[to - 1].ticker)
    } else {
        JsonView::Null
    }
}

/// There is exactly one page behind a cursor.
pub proof fn law_every_cursor_has_a_page(
    entries: Seq<EntryView>,
    after: Option<Seq<char>>,
    limit: int,
)
    requires
        documents::in_order(entries),
        limit > 0,
    ensures
        exists|from: int, to: int| #[trigger] is_page(entries, after, limit, from, to),
{
    documents::lemma_in_order(entries);
    let from = index::lemma_first_beyond(entries, after, 0);
    let to = if from + limit < entries.len() {
        from + limit
    } else {
        entries.len() as int
    };
    assert forall|i: int| 0 <= i < entries.len() implies (from <= i <==> is_behind(
        (#[trigger] entries[i]).ticker,
        after,
    )) by {
        let ticker = entries[i].ticker;
        if let Some(cursor) = after {
            texts::law_order_is_by_bytes(cursor, ticker);
        }
        assert(index::beyond(after, ticker) <==> from <= i);
    }
    assert(is_page(entries, after, limit, from, to));
}

/// Pages join: the first page starts with the first entry, each page that hands out a
/// cursor is followed by the page behind that cursor without a gap and without anything
/// twice, and each brings something as long as there is something left. So following the
/// cursors until there is none visits every entry exactly once, in the order of the tickers.
pub proof fn law_pages_join(
    entries: Seq<EntryView>,
    after: Option<Seq<char>>,
    limit: int,
    from: int,
    to: int,
    next_from: int,
    next_to: int,
)
    requires
        documents::in_order(entries),
        limit > 0,
        is_page(entries, after, limit, from, to),
    ensures
        after is None ==> from == 0,
        from < entries.len() ==> from < to,
        to < entries.len() && is_page(
            entries,
            Some(entries[to - 1].ticker),
            limit,
            next_from,
            next_to,
        ) ==> next_from == to,
{
    if after is None && from > 0 {
        assert(is_behind(entries[0].ticker, after));
    }
    if to < entries.len() && is_page(
        entries,
        Some(entries[to - 1].ticker),
        limit,
        next_from,
        next_to,
    ) {
        let cursor = entries[to - 1].ticker;
        texts::law_order_is_total(cursor, cursor);
        assert(!(next_from <= to - 1)) by {
            let e = entries[to - 1];
            assert(e.ticker == cursor);
        }
        assert(next_from <= to) by {
            assert(texts::precedes(entries[to - 1].ticker, entries[to].ticker));
        }
    }
}

/// The page, in the terms of the index.
proof fn lemma_page(
    entries: Seq<EntryView>,
    after: Option<Seq<char>>,
    limit: int,
    from: int,
    to: int,
)
    requires
        documents::in_order(entries),
        limit > 0,
        is_page(entries, after, limit, from, to),
    ensures
        index::page(entries, after, limit as nat) == entries.subrange(from, to),
        json::optional_text(index::next_cursor(entries, after, limit as nat)) == cursor_behind(
            entries,
            to,
        ),
{
    let keep = |e: EntryView| index::beyond(after, e.ticker);
    assert forall|i: int| 0 <= i < entries.len() implies (from <= i <==> keep(
        #[trigger] entries[i],
    )) by {
        if let Some(cursor) = after {
            texts::law_order_is_by_bytes(cursor, entries[i].ticker);
        }
    }
    index::lemma_filter_stretch(entries, keep, from, entries.len() as int);
    let rest = entries.subrange(from, entries.len() as int);
    assert(index::entries_after(entries, after) == rest);
    if limit < rest.len() {
        assert(rest.take(limit) =~= entries.subrange(from, to));
        assert(entries.subrange(from, to).last() == entries[to - 1]);
    } else {
        assert(rest =~= entries.subrange(from, to));
    }
}

proof fn lemma_limit(
    request: JsonView,
    key: Seq<char>,
    usual: u32,
    largest: u32,
    after: Option<Seq<char>>,
    limit: int,
)
    requires
        asks_after(request, after),
        asks_for(request, key, usual as int, largest as int, limit),
        0 < usual,
        0 < largest,
    ensures
        limit > 0,
        api::cursor_params(request, key, usual, largest) == Ok::<
            (Option<Seq<char>>, u32),
            Seq<char>,
        >((after, limit as u32)),
{
}

/// `list_tickers` answers with the tickers of one page, in order, and with the cursor for
/// what is behind it.
pub proof fn law_list_tickers_is_a_page(
    snapshot: Snapshot,
    log: Seq<u8>,
    line: Seq<char>,
    request: JsonView,
    after: Option<Seq<char>>,
    limit: int,
    from: int,
    to: int,
)
    requires
        documents::in_order(snapshot.entries()),
        asks(line, request, "list_tickers"@),
        asks_after(request, after),
        asks_for(request, "limit"@, 5000, 20_000, limit),
        is_page(snapshot.entries(), after, limit, from, to),
    ensures
        exists|result: JsonView|
            {
                &&& #[trigger] succeeds(
                    api::answer(snapshot, log, line),
                    request,
                    "list_tickers"@,
                    result,
                )
                &&& documents::at(result, "tickers"@) == Some(
                    JsonView::Array(
                        Seq::new(
                            (to - from) as nat,
                            |i: int| JsonView::Str(snapshot.entries()[from + i].ticker),
                        ),
                    ),
                )
                &&& documents::at(result, "next_after"@) == Some(
                    cursor_behind(snapshot.entries(), to),
                )
            },
{
    let entries = snapshot.entries();
    lemma_dispatched(snapshot, line, request, "list_tickers"@);
    lemma_literals();
    lemma_limit(request, "limit"@, 5000, 20_000, after, limit);
    lemma_page(entries, after, limit, from, to);
    let result = JsonView::Object(
        json::no_fields().insert(
            "tickers"@,
            JsonView::Array(api::ticker_values(index::page(entries, after, limit as nat))),
        ).insert(
            "next_after"@,
            json::optional_text(index::next_cursor(entries, after, limit as nat)),
        ),
    );
    reveal_strlit("tickers");
    reveal_strlit("next_after");
    assert("tickers"@.len() != "next_after"@.len());
    assert(api::ticker_values(index::page(entries, after, limit as nat)) =~= Seq::new(
        (to - from) as nat,
        |i: int| JsonView::Str(entries[from + i].ticker),
    ));
    lemma_ok(request, "list_tickers"@, result);
    assert(succeeds(api::answer(snapshot, log, line), request, "list_tickers"@, result));
}

/// The log holds these documents for the entries from `from` on.
pub open spec fn hold(
    log: Seq<u8>,
    entries: Seq<EntryView>,
    from: int,
    docs: Seq<JsonView>,
) -> bool {
    forall|i: int|
        0 <= i < docs.len() ==> documents::holds(log, entries[from + i], #[trigger] docs[i])
}

/// Reading a stretch of the index gives the documents that the log holds for it.
proof fn lemma_all_read(
    log: Seq<u8>,
    entries: Seq<EntryView>,
    from: int,
    docs: Seq<JsonView>,
) -> (records: Seq<Result<JsonView, Seq<char>>>)
    requires
        0 <= from <= from + docs.len() <= entries.len(),
        hold(log, entries, from, docs),
    ensures
        records == entries.subrange(from, from + docs.len()).map_values(
            |e: EntryView| database::record_value(log, e),
        ),
        records.len() == docs.len(),
        forall|i: int|
            0 <= i < docs.len() ==> #[trigger] records[i] == Ok::<JsonView, Seq<char>>(docs[i]),
        api::failure_from(records, 0) is None,
{
    let stretch = entries.subrange(from, from + docs.len());
    let records = stretch.map_values(|e: EntryView| database::record_value(log, e));
    assert forall|i: int| 0 <= i < docs.len() implies #[trigger] records[i] == Ok::<
        JsonView,
        Seq<char>,
    >(docs[i]) by {
        assert(documents::holds(log, entries[from + i], docs[i]));
        documents::law_records_are_read_where_they_stand(log, entries[from + i], docs[i]);
        assert(stretch[i] == entries[from + i]);
    }
    api::lemma_no_failure(records, 0);
    records
}

/// `list_events` answers with the documents of one page, in the order of their tickers, and
/// with the cursor for what is behind it.
pub proof fn law_list_events_is_a_page(
    snapshot: Snapshot,
    log: Seq<u8>,
    line: Seq<char>,
    request: JsonView,
    after: Option<Seq<char>>,
    limit: int,
    from: int,
    to: int,
    docs: Seq<JsonView>,
)
    requires
        documents::in_order(snapshot.entries()),
        asks(line, request, "list_events"@),
        asks_after(request, after),
        asks_for(request, "limit"@, 100, 500, limit),
        is_page(snapshot.entries(), after, limit, from, to),
        docs.len() == to - from,
        hold(log, snapshot.entries(), from, docs),
    ensures
        exists|result: JsonView|
            {
                &&& #[trigger] succeeds(
                    api::answer(snapshot, log, line),
                    request,
                    "list_events"@,
                    result,
                )
                &&& documents::at(result, "events"@) == Some(JsonView::Array(docs))
                &&& documents::at(result, "next_after"@) == Some(
                    cursor_behind(snapshot.entries(), to),
                )
            },
{
    let entries = snapshot.entries();
    lemma_dispatched(snapshot, line, request, "list_events"@);
    lemma_literals();
    lemma_limit(request, "limit"@, 100, 500, after, limit);
    lemma_page(entries, after, limit, from, to);
    let records = lemma_all_read(log, entries, from, docs);
    let read = api::plan(snapshot, line)->Read_0;
    assert(records.map_values(|r: Result<JsonView, Seq<char>>| r->Ok_0) =~= docs);
    let result = api::read_result(read, records);
    reveal_strlit("events");
    reveal_strlit("next_after");
    assert("events"@.len() != "next_after"@.len());
    lemma_ok(request, "list_events"@, result);
    assert(succeeds(api::answer(snapshot, log, line), request, "list_events"@, result));
}

/// A record answered by `list_events` with a cursor belongs to a ticker that is strictly
/// greater than the cursor.
pub proof fn law_list_events_starts_behind_the_cursor(
    snapshot: Snapshot,
    log: Seq<u8>,
    line: Seq<char>,
    request: JsonView,
    cursor: Seq<char>,
    limit: int,
    events: Seq<JsonView>,
    result: JsonView,
    k: int,
)
    requires
        documents::in_order(snapshot.entries()),
        asks(line, request, "list_events"@),
        documents::at(request, "after"@) == Some(JsonView::Str(cursor)),
        asks_for(request, "limit"@, 100, 500, limit),
        succeeds(api::answer(snapshot, log, line), request, "list_events"@, result),
        documents::at(result, "events"@) == Some(JsonView::Array(events)),
        0 <= k < events.len(),
    ensures
        exists|i: int|
            0 <= i < snapshot.entries().len() && documents::holds(
                log,
                #[trigger] snapshot.entries()[i],
                events[k],
            ) && texts::precedes(cursor, snapshot.entries()[i].ticker),
{
    let entries = snapshot.entries();
    let after = Some(cursor);
    lemma_dispatched(snapshot, line, request, "list_events"@);
    lemma_literals();
    lemma_limit(request, "limit"@, 100, 500, after, limit);
    law_every_cursor_has_a_page(entries, after, limit);
    let (from, to) = choose|from: int, to: int| #[trigger]
        is_page(entries, after, limit, from, to);
    lemma_page(entries, after, limit, from, to);
    let read = api::plan(snapshot, line)->Read_0;
    let records = read.entries.map_values(|e: EntryView| database::record_value(log, e));
    let response = api::completed(read, records);
    if let Some(f) = api::failure_from(records, 0) {
        lemma_refused(
            request,
            "list_events"@,
            "internal"@,
            api::read_failure(read.entries[f].ticker, records[f]->Err_0),
        );
        assert(false);
    }
    lemma_ok(request, "list_events"@, api::read_result(read, records));
    reveal_strlit("events");
    reveal_strlit("next_after");
    assert("events"@.len() != "next_after"@.len());
    assert(events.len() == records.len() && events[k] == records[k]->Ok_0);
    api::lemma_all_ok(records, 0);
    assert(records[k] is Ok);
    let i = from + k;
    assert(read.entries[k] == entries[i]);
    documents::law_records_are_read_where_they_stand(log, entries[i], events[k]);
    assert(is_behind(entries[i].ticker, after));
}

/// Requests that follow the cursors: the first names none, and each other one names the
/// cursor that the answer before it handed out.
pub open spec fn is_walk(
    snapshot: Snapshot,
    log: Seq<u8>,
    lines: Seq<Seq<char>>,
    requests: Seq<JsonView>,
    limits: Seq<int>,
    results: Seq<JsonView>,
    pages: Seq<Seq<JsonView>>,
) -> bool {
    &&& lines.len() == requests.len() == limits.len() == results.len() == pages.len()
    &&& forall|k: int| #![trigger requests[k]]
        0 <= k < requests.len() ==> {
            &&& asks(lines[k], requests[k], "list_events"@)
            &&& asks_for(requests[k], "limit"@, 100, 500, limits[k])
            &&& documents::at(requests[k], "after"@) == if k == 0 {
                None
            } else {
                documents::at(results[k - 1], "next_after"@)
            }
            &&& succeeds(
                api::answer(snapshot, log, lines[k]),
                requests[k],
                "list_events"@,
                results[k],
            )
            &&& documents::at(results[k], "events"@) == Some(JsonView::Array(pages[k]))
        }
}

/// Where a walk is after some of its requests.
proof fn lemma_walk(
    snapshot: Snapshot,
    log: Seq<u8>,
    lines: Seq<Seq<char>>,
    requests: Seq<JsonView>,
    limits: Seq<int>,
    results: Seq<JsonView>,
    pages: Seq<Seq<JsonView>>,
    docs: Seq<JsonView>,
    n: int,
) -> (to: int)
    requires
        documents::in_order(snapshot.entries()),
        docs.len() == snapshot.entries().len(),
        hold(log, snapshot.entries(), 0, docs),
        is_walk(snapshot, log, lines, requests, limits, results, pages),
        1 <= n <= pages.len(),
        forall|k: int|
            0 <= k < pages.len() - 1 ==> documents::at(#[trigger] results[k], "next_after"@) != Some(
                JsonView::Null,
            ),
    ensures
        0 <= to <= docs.len(),
        pages.take(n).flatten() == docs.take(to),
        documents::at(results[n - 1], "next_after"@) == Some(
            cursor_behind(snapshot.entries(), to),
        ),
        to == docs.len() || to > 0,
    decreases n,
{
    let entries = snapshot.entries();
    let request = requests[n - 1];
    let limit = limits[n - 1];
    let earlier: int = if n == 1 {
        0
    } else {
        let earlier = lemma_walk(
            snapshot,
            log,
            lines,
            requests,
            limits,
            results,
            pages,
            docs,
            n - 1,
        );
        assert(documents::at(results[n - 2], "next_after"@) != Some(JsonView::Null));
        earlier
    };
    let after: Option<Seq<char>> = if n == 1 {
        None
    } else {
        Some(entries[earlier - 1].ticker)
    };
    assert(asks_after(request, after));
    lemma_limit(request, "limit"@, 100, 500, after, limit);
    law_every_cursor_has_a_page(entries, after, limit);
    let (from, to) = choose|from: int, to: int| #[trigger]
        is_page(entries, after, limit, from, to);
    law_pages_join(entries, after, limit, from, to, 0, 0);
    if n > 1 {
        assert(is_behind(entries[earlier].ticker, after));
        assert(from <= earlier);
        texts::law_order_is_total(entries[earlier - 1].ticker, entries[earlier - 1].ticker);
        assert(!is_behind(entries[earlier - 1].ticker, after));
        assert(from == earlier);
    }
    let page = docs.subrange(from, to);
    assert(hold(log, entries, from, page)) by {
        assert forall|i: int| 0 <= i < page.len() implies documents::holds(
            log,
            entries[from + i],
            #[trigger] page[i],
        ) by {
            assert(documents::holds(log, entries[0 + (from + i)], docs[from + i]));
        }
    }
    law_list_events_is_a_page(
        snapshot,
        log,
        lines[n - 1],
        request,
        after,
        limit,
        from,
        to,
        page,
    );
    assert(pages[n - 1] == page);
    assert(pages.take(n) =~= pages.take(n - 1).push(page));
    pages.take(n - 1).lemma_flatten_push(page);
    if n == 1 {
        assert(pages.take(0) =~= Seq::empty());
        assert(pages.take(0).flatten() =~= Seq::empty());
        assert(pages.take(1).flatten() =~= docs.take(to));
    } else {
        assert(docs.take(from) + page =~= docs.take(to));
    }
    to
}

/// Following the cursors of `list_events` from request to request until there is none hands
/// out the record of every ticker exactly once, in the order of the tickers, however large
/// the pages are.
pub proof fn law_walking_the_pages_lists_everything_once(
    snapshot: Snapshot,
    log: Seq<u8>,
    lines: Seq<Seq<char>>,
    requests: Seq<JsonView>,
    limits: Seq<int>,
    results: Seq<JsonView>,
    pages: Seq<Seq<JsonView>>,
    docs: Seq<JsonView>,
)
    requires
        documents::in_order(snapshot.entries()),
        docs.len() == snapshot.entries().len(),
        hold(log, snapshot.entries(), 0, docs),
        is_walk(snapshot, log, lines, requests, limits, results, pages),
        pages.len() > 0,
        forall|k: int|
            0 <= k < pages.len() ==> (documents::at(#[trigger] results[k], "next_after"@) == Some(
                JsonView::Null,
            ) <==> k == pages.len() - 1),
    ensures
        pages.flatten() == docs,
{
    let n = pages.len() as int;
    let to = lemma_walk(snapshot, log, lines, requests, limits, results, pages, docs, n);
    assert(documents::at(results[n - 1], "next_after"@) == Some(JsonView::Null));
    assert(pages.take(n) =~= pages);
    assert(docs.take(to) =~= docs);
}

// ---------------------------------------------------------------------------
// list_asset_ids
// ---------------------------------------------------------------------------

/// The market names this asset identifier: in a list, or in a text that is itself a list of
/// texts.
pub open spec fn names(market: JsonView, id: Seq<char>) -> bool {
    match documents::at(market, "clobTokenIds"@) {
        Some(JsonView::Array(items)) => items.contains(JsonView::Str(id)),
        Some(JsonView::Str(s)) => match json::json_parsed(vstd::utf8::encode_utf8(s)) {
            Ok(JsonView::Array(items)) => items.contains(JsonView::Str(id)) && (forall|i: int|
                0 <= i < items.len() ==> #[trigger] items[i] is Str),
            _ => false,
        },
        _ => false,
    }
}

/// The market at this place in the document names the asset identifier.
pub open spec fn names_at(doc: JsonView, m: int, id: Seq<char>) -> bool {
    match documents::at(doc, "markets"@) {
        Some(JsonView::Array(markets)) => 0 <= m < markets.len() && names(markets[m], id),
        _ => false,
    }
}

/// What is said of an asset identifier: the identifier, the ticker of its event and the
/// place of its market.
pub open spec fn says(item: JsonView, ticker: Seq<char>, m: int, id: Seq<char>) -> bool {
    &&& documents::at(item, "asset_id"@) == Some(JsonView::Str(id))
    &&& documents::at(item, "ticker"@) == Some(JsonView::Str(ticker))
    &&& documents::at(item, "market_index"@) == Some(JsonView::Unsigned(m as u64))
}

proof fn lemma_strings_among(items: Seq<JsonView>, id: Seq<char>)
    ensures
        json::strings_among(items).contains(id) <==> items.contains(JsonView::Str(id)),
    decreases items.len(),
{
    if items.len() > 0 {
        let rest = items.drop_last();
        lemma_strings_among(rest, id);
        assert(items =~= rest.push(items.last()));
        let before = json::strings_among(rest);
        let all = json::strings_among(items);
        if items.contains(JsonView::Str(id)) {
            let i = choose|i: int| 0 <= i < items.len() && items[i] == JsonView::Str(id);
            if i < rest.len() {
                assert(rest[i] == JsonView::Str(id));
                let j = choose|j: int| 0 <= j < before.len() && before[j] == id;
                assert(all[j] == id);
            } else {
                assert(all[all.len() - 1] == id);
            }
        }
        if all.contains(id) {
            let j = choose|j: int| 0 <= j < all.len() && all[j] == id;
            if j < before.len() {
                assert(before[j] == id);
                let i = choose|i: int| 0 <= i < rest.len() && rest[i] == JsonView::Str(id);
                assert(items[i] == JsonView::Str(id));
            } else {
                assert(items[items.len() - 1] == JsonView::Str(id));
            }
        }
    }
}

proof fn lemma_market(market: JsonView, id: Seq<char>)
    ensures
        api::market_asset_ids(market).contains(id) <==> names(market, id),
{
    match documents::at(market, "clobTokenIds"@) {
        Some(JsonView::Array(items)) => {
            lemma_strings_among(items, id);
        },
        Some(JsonView::Str(s)) => {
            if let Ok(JsonView::Array(items)) = json::json_parsed(vstd::utf8::encode_utf8(s)) {
                lemma_strings_among(items, id);
            }
        },
        _ => {},
    }
}

proof fn lemma_markets(markets: Seq<JsonView>, n: nat, m: nat, id: Seq<char>)
    requires
        n <= markets.len(),
    ensures
        api::asset_ids_of_first(markets, n).contains((m, id)) <==> m < n && names(
            markets[m as int],
            id,
        ),
    decreases n,
{
    if n > 0 {
        let last = (n - 1) as nat;
        lemma_markets(markets, last, m, id);
        lemma_market(markets[n - 1], id);
        let ids = api::market_asset_ids(markets[n - 1]);
        let added = ids.map_values(|id: Seq<char>| (last, id));
        let before = api::asset_ids_of_first(markets, last);
        let all = api::asset_ids_of_first(markets, n);
        assert(all == before + added);
        if all.contains((m, id)) {
            let j = choose|j: int| 0 <= j < all.len() && all[j] == (m, id);
            if j < before.len() {
                assert(before[j] == (m, id));
            } else {
                assert(added[j - before.len()] == (m, id));
                assert(ids[j - before.len()] == id);
            }
        }
        if m < last && names(markets[m as int], id) {
            let j = choose|j: int| 0 <= j < before.len() && before[j] == (m, id);
            assert(all[j] == (m, id));
        }
        if m == last && names(markets[m as int], id) {
            let j = choose|j: int| 0 <= j < ids.len() && ids[j] == id;
            assert(added[j] == (m, id));
            assert(all[before.len() + j] == (m, id));
        }
    }
}

proof fn lemma_entry(ticker: Seq<char>, m: nat, id: Seq<char>)
    ensures
        says(api::asset_entry(ticker, m, id), ticker, m as int, id),
{
    reveal_strlit("asset_id");
    reveal_strlit("ticker");
    reveal_strlit("market_index");
    assert("asset_id"@.len() == 8 && "ticker"@.len() == 6 && "market_index"@.len() == 12);
}

/// The item says something that this document names, under this ticker.
pub open spec fn is_said_of(item: JsonView, ticker: Seq<char>, doc: JsonView) -> bool {
    exists|m: int, id: Seq<char>| names_at(doc, m, id) && #[trigger] says(item, ticker, m, id)
}

/// One of the items says this.
pub open spec fn is_listed(items: Seq<JsonView>, ticker: Seq<char>, m: int, id: Seq<char>) -> bool {
    exists|k: int| 0 <= k < items.len() && says(#[trigger] items[k], ticker, m, id)
}

/// The items of one event say what its own document names, and all of it.
proof fn lemma_event(ticker: Seq<char>, doc: JsonView)
    ensures
        forall|k: int|
            0 <= k < api::event_assets(ticker, doc).len() ==> is_said_of(
                #[trigger] api::event_assets(ticker, doc)[k],
                ticker,
                doc,
            ),
        forall|m: int, id: Seq<char>| #[trigger]
            names_at(doc, m, id) ==> is_listed(api::event_assets(ticker, doc), ticker, m, id),
{
    let items = api::event_assets(ticker, doc);
    let pairs = api::asset_ids(api::markets_of(doc));
    assert forall|k: int| 0 <= k < items.len() implies is_said_of(
        #[trigger] items[k],
        ticker,
        doc,
    ) by {
        let (m, id) = pairs[k];
        assert(items[k] == api::asset_entry(ticker, m, id));
        lemma_entry(ticker, m, id);
        match documents::at(doc, "markets"@) {
            Some(JsonView::Array(markets)) => {
                assert(pairs.contains((m, id)));
                lemma_markets(markets, markets.len(), m, id);
                assert(names_at(doc, m as int, id));
                assert(says(items[k], ticker, m as int, id));
            },
            _ => {},
        }
    }
    assert forall|m: int, id: Seq<char>| #[trigger] names_at(doc, m, id) implies is_listed(
        items,
        ticker,
        m,
        id,
    ) by {
        if let Some(JsonView::Array(markets)) = documents::at(doc, "markets"@) {
            lemma_markets(markets, markets.len(), m as nat, id);
            let k = choose|k: int| 0 <= k < pairs.len() && pairs[k] == (m as nat, id);
            assert(items[k] == api::asset_entry(ticker, m as nat, id));
            lemma_entry(ticker, m as nat, id);
            assert(says(items[k], ticker, m, id));
        }
    }
}

/// Each item says something that the document of one of the entries names, under the ticker
/// of that entry.
pub open spec fn is_sound(
    items: Seq<JsonView>,
    entries: Seq<EntryView>,
    from: int,
    docs: Seq<JsonView>,
) -> bool {
    forall|k: int|
        0 <= k < items.len() ==> exists|r: int|
            0 <= r < docs.len() && is_said_of(
                #[trigger] items[k],
                entries[from + r].ticker,
                #[trigger] docs[r],
            )
}

/// Whatever the document of one of the entries names, an item says under the ticker of that
/// entry.
pub open spec fn is_complete(
    items: Seq<JsonView>,
    entries: Seq<EntryView>,
    from: int,
    docs: Seq<JsonView>,
) -> bool {
    forall|r: int, m: int, id: Seq<char>|
        0 <= r < docs.len() && #[trigger] names_at(docs[r], m, id) ==> is_listed(
            items,
            entries[from + r].ticker,
            m,
            id,
        )
}

proof fn lemma_assets(
    entries: Seq<EntryView>,
    from: int,
    docs: Seq<JsonView>,
    records: Seq<Result<JsonView, Seq<char>>>,
    n: nat,
)
    requires
        0 <= from <= from + docs.len() <= entries.len(),
        records.len() == docs.len(),
        forall|i: int|
            0 <= i < docs.len() ==> #[trigger] records[i] == Ok::<JsonView, Seq<char>>(docs[i]),
        n <= docs.len(),
    ensures
        ({
            let items = api::assets_of_first(
                entries.subrange(from, from + docs.len()),
                records,
                n,
            );
            &&& is_sound(items, entries, from, docs.take(n as int))
            &&& is_complete(items, entries, from, docs.take(n as int))
        }),
    decreases n,
{
    if n > 0 {
        let stretch = entries.subrange(from, from + docs.len());
        let last = (n - 1) as nat;
        lemma_assets(entries, from, docs, records, last);
        let before = api::assets_of_first(stretch, records, last);
        let all = api::assets_of_first(stretch, records, n);
        let ticker = entries[from + n - 1].ticker;
        let doc = docs[n - 1];
        assert(records[n - 1] == Ok::<JsonView, Seq<char>>(doc));
        let added = api::event_assets(ticker, doc);
        assert(stretch[n - 1] == entries[from + n - 1]);
        assert(all == before + added);
        lemma_event(ticker, doc);
        let few = docs.take(last as int);
        let more = docs.take(n as int);
        assert forall|k: int| 0 <= k < all.len() implies exists|r: int|
            0 <= r < more.len() && is_said_of(
                #[trigger] all[k],
                entries[from + r].ticker,
                #[trigger] more[r],
            ) by {
            if k < before.len() {
                assert(before[k] == all[k]);
                let r = choose|r: int|
                    0 <= r < few.len() && is_said_of(
                        before[k],
                        entries[from + r].ticker,
                        #[trigger] few[r],
                    );
                assert(more[r] == few[r]);
                assert(is_said_of(all[k], entries[from + r].ticker, more[r]));
            } else {
                assert(all[k] == added[k - before.len()]);
                assert(more[n - 1] == doc);
                assert(is_said_of(all[k], entries[from + (n - 1)].ticker, more[n - 1]));
            }
        }
        assert forall|r: int, m: int, id: Seq<char>|
            0 <= r < more.len() && #[trigger] names_at(more[r], m, id) implies is_listed(
            all,
            entries[from + r].ticker,
            m,
            id,
        ) by {
            if r < last {
                assert(more[r] == few[r]);
                assert(names_at(few[r], m, id));
                let k = choose|k: int|
                    0 <= k < before.len() && says(
                        #[trigger] before[k],
                        entries[from + r].ticker,
                        m,
                        id,
                    );
                assert(all[k] == before[k]);
            } else {
                assert(more[r] == doc);
                let k = choose|k: int|
                    0 <= k < added.len() && says(#[trigger] added[k], ticker, m, id);
                assert(all[before.len() + k] == added[k]);
            }
        }
    }
}

/// The asset identifiers that a market names, in its order.
pub open spec fn all_named(market: JsonView) -> Seq<JsonView> {
    match documents::at(market, "clobTokenIds"@) {
        Some(JsonView::Array(items)) => items.filter(|v: JsonView| v is Str),
        Some(JsonView::Str(s)) => match json::json_parsed(vstd::utf8::encode_utf8(s)) {
            Ok(JsonView::Array(items)) => if forall|i: int|
                0 <= i < items.len() ==> #[trigger] items[i] is Str {
                items
            } else {
                Seq::empty()
            },
            _ => Seq::empty(),
        },
        _ => Seq::empty(),
    }
}

/// What the markets of a document name under a ticker, in the order of the markets.
pub open spec fn named_in(ticker: Seq<char>, doc: JsonView) -> Seq<(Seq<char>, int, JsonView)> {
    match documents::at(doc, "markets"@) {
        Some(JsonView::Array(markets)) => Seq::new(
            markets.len(),
            |m: int| all_named(markets[m]).map_values(|id: JsonView| (ticker, m, id)),
        ).flatten(),
        _ => Seq::empty(),
    }
}

/// What the documents of entries name, in the order of the entries.
pub open spec fn named_by(
    entries: Seq<EntryView>,
    from: int,
    docs: Seq<JsonView>,
) -> Seq<(Seq<char>, int, JsonView)> {
    Seq::new(docs.len(), |r: int| named_in(entries[from + r].ticker, docs[r])).flatten()
}

/// The items say just this, one by one.
pub open spec fn say_all(
    items: Seq<JsonView>,
    named: Seq<(Seq<char>, int, JsonView)>,
) -> bool {
    &&& items.len() == named.len()
    &&& forall|k: int|
        0 <= k < items.len() ==> (#[trigger] named[k]).2 is Str && says(
            items[k],
            named[k].0,
            named[k].1,
            named[k].2->Str_0,
        )
}

proof fn lemma_all_named(items: Seq<JsonView>)
    ensures
        items.filter(|v: JsonView| v is Str) == json::strings_among(items).map_values(
            |s: Seq<char>| JsonView::Str(s),
        ),
        json::all_strings(items) ==> items.filter(|v: JsonView| v is Str) == items,
    decreases items.len(),
{
    reveal(Seq::filter);
    let keep = |v: JsonView| v is Str;
    let wrap = |s: Seq<char>| JsonView::Str(s);
    if items.len() > 0 {
        let rest = items.drop_last();
        lemma_all_named(rest);
        assert(items =~= rest.push(items.last()));
        if items.last() is Str {
            assert(json::strings_among(items).map_values(wrap) =~= json::strings_among(
                rest,
            ).map_values(wrap).push(items.last()));
        }
        if json::all_strings(items) {
            assert forall|i: int| 0 <= i < rest.len() implies #[trigger] rest[i] is Str by {
                assert(items[i] is Str);
            }
            assert(items[items.len() - 1] is Str);
        }
    } else {
        assert(json::strings_among(items).map_values(wrap) =~= Seq::empty());
        assert(items =~= Seq::empty());
    }
}

proof fn lemma_market_in_order(market: JsonView)
    ensures
        all_named(market) == api::market_asset_ids(market).map_values(
            |s: Seq<char>| JsonView::Str(s),
        ),
{
    let wrap = |s: Seq<char>| JsonView::Str(s);
    match documents::at(market, "clobTokenIds"@) {
        Some(JsonView::Array(items)) => {
            lemma_all_named(items);
        },
        Some(JsonView::Str(s)) => {
            match json::json_parsed(vstd::utf8::encode_utf8(s)) {
                Ok(JsonView::Array(items)) => {
                    lemma_all_named(items);
                    assert(Seq::<Seq<char>>::empty().map_values(wrap) =~= Seq::empty());
                },
                _ => {
                    assert(Seq::<Seq<char>>::empty().map_values(wrap) =~= Seq::empty());
                },
            }
        },
        _ => {
            assert(Seq::<Seq<char>>::empty().map_values(wrap) =~= Seq::empty());
        },
    }
}

proof fn lemma_markets_in_order(ticker: Seq<char>, markets: Seq<JsonView>, n: nat)
    requires
        n <= markets.len(),
    ensures
        api::asset_ids_of_first(markets, n).map_values(
            |p: (nat, Seq<char>)| (ticker, p.0 as int, JsonView::Str(p.1)),
        ) == Seq::new(
            n,
            |m: int| all_named(markets[m]).map_values(|id: JsonView| (ticker, m, id)),
        ).flatten(),
    decreases n,
{
    let of_market = |m: int| all_named(markets[m]).map_values(|id: JsonView| (ticker, m, id));
    let tell = |p: (nat, Seq<char>)| (ticker, p.0 as int, JsonView::Str(p.1));
    let groups = Seq::new(n, of_market);
    if n == 0 {
        assert(groups =~= Seq::empty());
        assert(groups.flatten() =~= Seq::empty());
        assert(api::asset_ids_of_first(markets, n).map_values(tell) =~= Seq::empty());
    } else {
        let last = (n - 1) as nat;
        lemma_markets_in_order(ticker, markets, last);
        lemma_market_in_order(markets[n - 1]);
        let fewer = Seq::new(last, of_market);
        assert(groups =~= fewer.push(of_market(n - 1)));
        fewer.lemma_flatten_push(of_market(n - 1));
        let ids = api::market_asset_ids(markets[n - 1]);
        let added = ids.map_values(|id: Seq<char>| (last, id));
        let before = api::asset_ids_of_first(markets, last);
        assert(api::asset_ids_of_first(markets, n) == before + added);
        assert(added.map_values(tell) =~= of_market(n - 1));
        assert((before + added).map_values(tell) =~= before.map_values(tell) + added.map_values(
            tell,
        ));
    }
}

proof fn lemma_event_in_order(ticker: Seq<char>, doc: JsonView)
    ensures
        say_all(api::event_assets(ticker, doc), named_in(ticker, doc)),
{
    let items = api::event_assets(ticker, doc);
    let named = named_in(ticker, doc);
    let pairs = api::asset_ids(api::markets_of(doc));
    if let Some(JsonView::Array(markets)) = documents::at(doc, "markets"@) {
        lemma_markets_in_order(ticker, markets, markets.len());
        assert forall|k: int| 0 <= k < items.len() implies (#[trigger] named[k]).2 is Str && says(
            items[k],
            named[k].0,
            named[k].1,
            named[k].2->Str_0,
        ) by {
            let (m, id) = pairs[k];
            assert(named[k] == (ticker, m as int, JsonView::Str(id)));
            lemma_entry(ticker, m, id);
        }
    }
}

proof fn lemma_assets_in_order(
    entries: Seq<EntryView>,
    from: int,
    docs: Seq<JsonView>,
    records: Seq<Result<JsonView, Seq<char>>>,
    n: nat,
)
    requires
        0 <= from <= from + docs.len() <= entries.len(),
        records.len() == docs.len(),
        forall|i: int|
            0 <= i < docs.len() ==> #[trigger] records[i] == Ok::<JsonView, Seq<char>>(docs[i]),
        n <= docs.len(),
    ensures
        say_all(
            api::assets_of_first(entries.subrange(from, from + docs.len()), records, n),
            named_by(entries, from, docs.take(n as int)),
        ),
    decreases n,
{
    let stretch = entries.subrange(from, from + docs.len());
    let few = docs.take(n as int);
    let groups = Seq::new(few.len(), |r: int| named_in(entries[from + r].ticker, few[r]));
    if n == 0 {
        assert(groups =~= Seq::empty());
        assert(groups.flatten() =~= Seq::empty());
    } else {
        let last = (n - 1) as nat;
        lemma_assets_in_order(entries, from, docs, records, last);
        let ticker = entries[from + n - 1].ticker;
        let doc = docs[n - 1];
        assert(records[n - 1] == Ok::<JsonView, Seq<char>>(doc));
        assert(stretch[n - 1] == entries[from + n - 1]);
        lemma_event_in_order(ticker, doc);
        let fewer = docs.take(last as int);
        let earlier = Seq::new(fewer.len(), |r: int| named_in(entries[from + r].ticker, fewer[r]));
        assert(groups =~= earlier.push(named_in(ticker, doc)));
        earlier.lemma_flatten_push(named_in(ticker, doc));
        let before = api::assets_of_first(stretch, records, last);
        let added = api::event_assets(ticker, doc);
        let (named_before, named_added) = (earlier.flatten(), named_in(ticker, doc));
        assert(api::assets_of_first(stretch, records, n) == before + added);
        assert(groups.flatten() == named_before + named_added);
        assert(say_all(before + added, named_before + named_added)) by {
            let (items, named) = (before + added, named_before + named_added);
            assert forall|k: int| 0 <= k < items.len() implies (#[trigger] named[k]).2 is Str
                && says(items[k], named[k].0, named[k].1, named[k].2->Str_0) by {
                if k < before.len() {
                    assert(named[k] == named_before[k]);
                } else {
                    assert(named[k] == named_added[k - before.len()]);
                }
            }
        }
    }
}

/// The items tell of all that the documents of the entries name, and of nothing else; as
/// often and in the order as it is named.
#[verifier::opaque]
pub open spec fn tell_of(
    items: Seq<JsonView>,
    entries: Seq<EntryView>,
    from: int,
    docs: Seq<JsonView>,
) -> bool {
    &&& is_sound(items, entries, from, docs)
    &&& is_complete(items, entries, from, docs)
    &&& say_all(items, named_by(entries, from, docs))
}

proof fn lemma_assets_tell(
    entries: Seq<EntryView>,
    from: int,
    docs: Seq<JsonView>,
    records: Seq<Result<JsonView, Seq<char>>>,
)
    requires
        0 <= from <= from + docs.len() <= entries.len(),
        records.len() == docs.len(),
        forall|i: int|
            0 <= i < docs.len() ==> #[trigger] records[i] == Ok::<JsonView, Seq<char>>(docs[i]),
    ensures
        tell_of(
            api::assets_of_first(
                entries.subrange(from, from + docs.len()),
                records,
                docs.len(),
            ),
            entries,
            from,
            docs,
        ),
{
    reveal(tell_of);
    lemma_assets(entries, from, docs, records, docs.len());
    lemma_assets_in_order(entries, from, docs, records, docs.len());
    assert(docs.take(docs.len() as int) =~= docs);
}

/// `list_asset_ids` answers for the records of one page: each item names a ticker of the
/// page, and an asset identifier that the record of that same ticker holds, with the place
/// of its market; whatever the records of the page hold is listed; and it is listed as often
/// and in the order as it is held, record by record and market by market.
pub proof fn law_list_asset_ids_is_a_page(
    snapshot: Snapshot,
    log: Seq<u8>,
    line: Seq<char>,
    request: JsonView,
    after: Option<Seq<char>>,
    limit: int,
    from: int,
    to: int,
    docs: Seq<JsonView>,
)
    requires
        documents::in_order(snapshot.entries()),
        asks(line, request, "list_asset_ids"@),
        asks_after(request, after),
        asks_for(request, "ticker_limit"@, 500, 2000, limit),
        is_page(snapshot.entries(), after, limit, from, to),
        docs.len() == to - from,
        hold(log, snapshot.entries(), from, docs),
    ensures
        exists|result: JsonView, items: Seq<JsonView>|
            {
                &&& #[trigger] succeeds(
                    api::answer(snapshot, log, line),
                    request,
                    "list_asset_ids"@,
                    result,
                )
                &&& documents::at(result, "entries"@) == Some(JsonView::Array(items))
                &&& #[trigger] tell_of(items, snapshot.entries(), from, docs)
                &&& documents::at(result, "next_after"@) == Some(
                    cursor_behind(snapshot.entries(), to),
                )
            },
{
    let entries = snapshot.entries();
    lemma_dispatched(snapshot, line, request, "list_asset_ids"@);
    lemma_literals();
    lemma_limit(request, "ticker_limit"@, 500, 2000, after, limit);
    lemma_page(entries, after, limit, from, to);
    let records = lemma_all_read(log, entries, from, docs);
    let read = api::plan(snapshot, line)->Read_0;
    lemma_assets_tell(entries, from, docs, records);
    let items = api::assets_of_first(read.entries, records, records.len());
    let result = api::read_result(read, records);
    reveal_strlit("entries");
    reveal_strlit("next_after");
    assert("entries"@.len() != "next_after"@.len());
    lemma_ok(request, "list_asset_ids"@, result);
    assert(succeeds(api::answer(snapshot, log, line), request, "list_asset_ids"@, result));
    assert(tell_of(items, entries, from, docs));
}

/// A page with a record that cannot be read is an internal error, and never a shorter page.
pub proof fn law_lists_tell_of_unreadable_records(
    snapshot: Snapshot,
    log: Seq<u8>,
    line: Seq<char>,
    request: JsonView,
    op: Seq<char>,
    after: Option<Seq<char>>,
    limit: int,
    from: int,
    to: int,
    i: int,
)
    requires
        documents::in_order(snapshot.entries()),
        asks(line, request, op),
        asks_after(request, after),
        (op == "list_events"@ && asks_for(request, "limit"@, 100, 500, limit)) || (op
            == "list_asset_ids"@ && asks_for(request, "ticker_limit"@, 500, 2000, limit)),
        is_page(snapshot.entries(), after, limit, from, to),
        from <= i < to,
        forall|doc: JsonView| !#[trigger] documents::holds(log, snapshot.entries()[i], doc),
    ensures
        refuses(api::answer(snapshot, log, line), request, op, "internal"@),
{
    let entries = snapshot.entries();
    lemma_dispatched(snapshot, line, request, op);
    lemma_literals();
    if op == "list_events"@ {
        lemma_limit(request, "limit"@, 100, 500, after, limit);
    } else {
        lemma_limit(request, "ticker_limit"@, 500, 2000, after, limit);
    }
    lemma_page(entries, after, limit, from, to);
    let read = api::plan(snapshot, line)->Read_0;
    let records = read.entries.map_values(|e: EntryView| database::record_value(log, e));
    assert(read.entries[i - from] == entries[i]);
    let value = database::record_value(log, entries[i]);
    if let Ok(doc) = value {
        documents::law_records_are_read_where_they_stand(log, entries[i], doc);
        assert(documents::holds(log, entries[i], doc));
    }
    assert(records[i - from] is Err);
    if api::failure_from(records, 0) is None {
        api::lemma_all_ok(records, 0);
    }
    let f = api::failure_from(records, 0)->0;
    lemma_refused(
        request,
        op,
        "internal"@,
        api::read_failure(read.entries[f].ticker, records[f]->Err_0),
    );
}

// ---------------------------------------------------------------------------
// prefix_search and db_info
// ---------------------------------------------------------------------------

/// `prefix_search` answers with the tickers that begin with the prefix, in order and up to
/// the limit, and says whether there are more.
pub proof fn law_prefix_search_finds_what_begins_so(
    snapshot: Snapshot,
    log: Seq<u8>,
    line: Seq<char>,
    request: JsonView,
    prefix: Seq<char>,
    limit: int,
    found: Seq<EntryView>,
)
    requires
        asks(line, request, "prefix_search"@),
        documents::at(request, "prefix"@) == Some(JsonView::Str(prefix)),
        prefix.len() > 0,
        asks_for(request, "limit"@, 50, 500, limit),
        found == snapshot.entries().filter(|e: EntryView| texts::begins_with(e.ticker, prefix)),
    ensures
        exists|result: JsonView|
            {
                &&& #[trigger] succeeds(
                    api::answer(snapshot, log, line),
                    request,
                    "prefix_search"@,
                    result,
                )
                &&& documents::at(result, "tickers"@) == Some(
                    JsonView::Array(
                        Seq::new(
                            if limit < found.len() {
                                limit as nat
                            } else {
                                found.len()
                            },
                            |i: int| JsonView::Str(found[i].ticker),
                        ),
                    ),
                )
                &&& documents::at(result, "truncated"@) == Some(
                    JsonView::Bool(found.len() > limit),
                )
            },
{
    let entries = snapshot.entries();
    lemma_dispatched(snapshot, line, request, "prefix_search"@);
    lemma_literals();
    let begins = |e: EntryView| texts::begins_with(e.ticker, prefix);
    let starts = |e: EntryView| text::starts_with(e.ticker, prefix);
    assert forall|e: EntryView| #[trigger] begins(e) == starts(e) by {
        texts::law_prefixes_are_beginnings(e.ticker, prefix);
    }
    assert(begins =~= starts);
    assert(found == index::with_prefix(entries, prefix));
    let tickers = api::ticker_values(api::at_most_first(found, limit as nat));
    assert(tickers =~= Seq::new(
        if limit < found.len() {
            limit as nat
        } else {
            found.len()
        },
        |i: int| JsonView::Str(found[i].ticker),
    ));
    let result = JsonView::Object(
        json::no_fields().insert("tickers"@, JsonView::Array(tickers)).insert(
            "truncated"@,
            JsonView::Bool(found.len() > limit as nat),
        ),
    );
    reveal_strlit("tickers");
    reveal_strlit("truncated");
    assert("tickers"@.len() != "truncated"@.len());
    lemma_ok(request, "prefix_search"@, result);
    assert(succeeds(api::answer(snapshot, log, line), request, "prefix_search"@, result));
}

/// `db_info` tells the build, how many records there are, when they were gathered and how
/// they are laid out.
pub proof fn law_db_info_describes_the_snapshot(
    snapshot: Snapshot,
    log: Seq<u8>,
    line: Seq<char>,
    request: JsonView,
)
    requires
        asks(line, request, "db_info"@),
    ensures
        exists|result: JsonView|
            {
                &&& #[trigger] succeeds(
                    api::answer(snapshot, log, line),
                    request,
                    "db_info"@,
                    result,
                )
                &&& documents::at(result, "major"@) == Some(JsonView::Unsigned(1))
                &&& documents::at(result, "minor"@) == Some(JsonView::Unsigned(5))
                &&& documents::at(result, "patch"@) == Some(JsonView::Unsigned(0))
                &&& documents::at(result, "version"@) == Some(JsonView::Str("1.5.0"@))
                &&& documents::at(result, "lines"@) == Some(
                    JsonView::Unsigned(snapshot.lines as u64),
                )
                &&& documents::at(result, "built_at_unix"@) == Some(
                    JsonView::Unsigned(snapshot.built_at_unix),
                )
                &&& documents::at(result, "db_format_version"@) == Some(
                    JsonView::Unsigned(snapshot.format_version as u64),
                )
            },
{
    lemma_dispatched(snapshot, line, request, "db_info"@);
    lemma_literals();
    let result = api::snapshot_info(snapshot);
    lemma_info_keys();
    lemma_version();
    lemma_ok(request, "db_info"@, result);
    assert(succeeds(api::answer(snapshot, log, line), request, "db_info"@, result));
}

proof fn lemma_info_keys()
    ensures
        "major"@ != "minor"@,
        "major"@ != "patch"@,
        "minor"@ != "patch"@,
        "lines"@ != "major"@,
        "lines"@ != "minor"@,
        "lines"@ != "patch"@,
        "version"@.len() == 7,
        "built_at_unix"@.len() == 13,
        "db_format_version"@.len() == 17,
        "major"@.len() == 5,
        "minor"@.len() == 5,
        "patch"@.len() == 5,
        "lines"@.len() == 5,
{
    reveal_strlit("major");
    reveal_strlit("minor");
    reveal_strlit("patch");
    reveal_strlit("lines");
    reveal_strlit("version");
    reveal_strlit("built_at_unix");
    reveal_strlit("db_format_version");
    assert("major"@[1] == 'a' && "minor"@[1] == 'i' && "patch"@[1] == 'a');
    assert("major"@[0] == 'm' && "patch"@[0] == 'p' && "lines"@[0] == 'l');
}

/// The version of this build, as every response carries it.
proof fn lemma_version()
    ensures
        version::version_text() == "1.5.0"@,
{
    reveal_strlit(".");
    reveal_strlit("1.5.0");
    reveal_with_fuel(text::decimal, 2);
    assert(text::decimal(1) =~= seq!['1']);
    assert(text::decimal(5) =~= seq!['5']);
    assert(text::decimal(0) =~= seq!['0']);
    assert(version::version_text() =~= "1.5.0"@);
}

// ---------------------------------------------------------------------------
// Refusals
// ---------------------------------------------------------------------------

/// A cursor that is neither missing nor a text.
pub open spec fn is_bad_cursor(request: JsonView) -> bool {
    match documents::at(request, "after"@) {
        None => false,
        Some(JsonView::Null) => false,
        Some(JsonView::Str(_)) => false,
        _ => true,
    }
}

/// A page size that is there, and is no number from 1 up to the largest of 32 bits.
pub open spec fn is_bad_size(request: JsonView, key: Seq<char>) -> bool {
    match documents::at(request, key) {
        None => false,
        Some(JsonView::Null) => false,
        Some(JsonView::Unsigned(n)) => n == 0 || n > 0xffff_ffff,
        _ => true,
    }
}

/// The operation takes a cursor, and a page size under this key.
pub open spec fn takes_cursor(op: Seq<char>, key: Seq<char>) -> bool {
    ||| op == "list_events"@ && key == "limit"@
    ||| op == "list_tickers"@ && key == "limit"@
    ||| op == "list_asset_ids"@ && key == "ticker_limit"@
}

/// Lists refuse a cursor that is no text and a page size that is no count.
pub proof fn law_lists_refuse_bad_parameters(
    snapshot: Snapshot,
    log: Seq<u8>,
    line: Seq<char>,
    request: JsonView,
    op: Seq<char>,
    key: Seq<char>,
)
    requires
        asks(line, request, op),
        takes_cursor(op, key),
        is_bad_cursor(request) || is_bad_size(request, key),
    ensures
        refuses(api::answer(snapshot, log, line), request, op, "bad_request"@),
{
    lemma_dispatched(snapshot, line, request, op);
    lemma_literals();
    let (usual, largest): (u32, u32) = if op == "list_events"@ {
        (100, 500)
    } else if op == "list_tickers"@ {
        (5000, 20_000)
    } else {
        (500, 2000)
    };
    let message = api::cursor_params(request, key, usual, largest)->Err_0;
    lemma_refused(request, op, "bad_request"@, message);
}

/// `prefix_search` refuses a prefix that is missing, no text or empty, and a limit that is
/// no count.
pub proof fn law_prefix_search_refuses_bad_parameters(
    snapshot: Snapshot,
    log: Seq<u8>,
    line: Seq<char>,
    request: JsonView,
)
    requires
        asks(line, request, "prefix_search"@),
        is_bad_size(request, "limit"@) || match documents::at(request, "prefix"@) {
            Some(JsonView::Str(prefix)) => prefix.len() == 0,
            _ => true,
        },
    ensures
        refuses(api::answer(snapshot, log, line), request, "prefix_search"@, "bad_request"@),
{
    lemma_dispatched(snapshot, line, request, "prefix_search"@);
    lemma_literals();
    let op = "prefix_search"@;
    match api::optional_count(request, "limit"@) {
        Err(message) => {
            lemma_refused(request, op, "bad_request"@, api::invalid_params(message));
        },
        Ok(requested) => {
            match api::required_text(request, "prefix"@) {
                Err(message) => {
                    lemma_refused(request, op, "bad_request"@, api::invalid_params(message));
                },
                Ok(prefix) => {
                    if prefix.len() == 0 {
                        lemma_refused(request, op, "bad_request"@, "prefix must not be empty"@);
                    } else {
                        let message = api::limit_for(requested, 50, 500)->Err_0;
                        lemma_refused(request, op, "bad_request"@, message);
                    }
                },
            }
        },
    }
}

/// A response that names no operation, since none was understood.
pub open spec fn is_not_understood(response: JsonView, id: JsonView) -> bool {
    &&& documents::at(response, "ok"@) == Some(JsonView::Bool(false))
    &&& documents::at(response, "op"@) == Some(JsonView::Null)
    &&& documents::at(response, "id"@) == Some(id)
    &&& documents::at(response, "result"@) is None
    &&& documents::at(response, "error"@) matches Some(detail) && documents::at(detail, "code"@)
        == Some(JsonView::Str("bad_request"@))
}

/// Only the six operations are known; a request for another one is not understood, and
/// still gets its identifier back.
pub proof fn law_other_operations_are_unknown(
    snapshot: Snapshot,
    log: Seq<u8>,
    line: Seq<char>,
    request: JsonView,
    op: Seq<char>,
)
    requires
        asks(line, request, op),
        op != "get_event"@,
        op != "list_events"@,
        op != "list_tickers"@,
        op != "list_asset_ids"@,
        op != "prefix_search"@,
        op != "db_info"@,
    ensures
        is_not_understood(api::answer(snapshot, log, line), identifier(request)),
        says_why(api::answer(snapshot, log, line), "unknown op '"@ + op + "'"@),
{
    lemma_dispatched(snapshot, line, request, op);
    lemma_literals();
}

/// A line without a request on it is not understood either.
pub proof fn law_other_lines_are_not_understood(snapshot: Snapshot, log: Seq<u8>, line: Seq<char>)
    requires
        forall|request: JsonView, op: Seq<char>| !#[trigger] asks(line, request, op),
    ensures
        is_not_understood(api::answer(snapshot, log, line), JsonView::Null),
{
    lemma_literals();
    match envelope::request_on(line) {
        Err(_) => {},
        Ok(request) => {
            if let Some(JsonView::Str(op)) = documents::at(request, "op"@) {
                assert(asks(line, request, op));
            }
        },
    }
}

} // verus!
