//! Refreshing the database: a crawl is written to a scratch log, what it did not bring
//! is carried forward from the old log, and the result is compacted into a new log.

use crate::api;
use crate::compaction;
use crate::compaction::CompactError;
use crate::database;
use crate::database::{Snapshot, DB_FORMAT_VERSION, LINE_FEED};
use crate::dates;
use crate::index;
use crate::index::{EntryView, IndexEntry};
use crate::json;
use crate::json::JsonView;
use crate::lists;
use crate::poly_api;
use crate::poly_api::{
    CrawlView, EventView, FetchEventsParams, OpenEventsIter, PolyMarketError, PolymarketEvent,
};
use crate::records;
use crate::records::{LogBuilder, Record, TooLong};
use crate::text;
use vstd::prelude::*;

verus! {

/// How long after its end date a ticker that is no longer listed is kept: four hours.
pub const END_DATE_GRACE_SECS: u64 = 14400;

/// Why a refresh did not come about.
#[derive(Debug, PartialEq, Eq)]
pub enum RefreshError {
    /// The crawl failed.
    Crawl(String),
    /// A first crawl brought nothing, and there is nothing to fall back on.
    NoEvents,
    /// A record or a log is longer than an index entry can say.
    TooLong,
    /// The log is shorter than its index says.
    ShortRead,
}

/// The message of an error.
pub open spec fn error_message(e: RefreshError) -> Seq<char> {
    match e {
        RefreshError::Crawl(message) => message@,
        RefreshError::NoEvents => {
            "initial crawl returned zero events; refusing to write an empty database"@
        },
        RefreshError::TooLong => "record too long"@,
        RefreshError::ShortRead => database::short_read(),
    }
}

impl RefreshError {
    pub fn message(&self) -> (r: &str)
        ensures
            r@ == error_message(*self),
    {
        match self {
            RefreshError::Crawl(message) => message.as_str(),
            RefreshError::NoEvents => {
                "initial crawl returned zero events; refusing to write an empty database"
            },
            RefreshError::TooLong => "record too long",
            RefreshError::ShortRead => "failed to fill whole buffer",
        }
    }
}

// ---------------------------------------------------------------------------
// The crawl
// ---------------------------------------------------------------------------

/// The record that an event is written as.
pub open spec fn record_of(event: EventView) -> Record {
    Record {
        ticker: text::trimmed(event.ticker),
        bytes: vstd::utf8::encode_utf8(poly_api::event_text(event)),
    }
}

/// The records that events are written as; an event without a ticker is left out.
pub open spec fn crawled(events: Seq<EventView>) -> Seq<Record>
    decreases events.len(),
{
    if events.len() == 0 {
        Seq::empty()
    } else if text::trimmed(events.last().ticker).len() == 0 {
        crawled(events.drop_last())
    } else {
        crawled(events.drop_last()).push(record_of(events.last()))
    }
}

/// Fewer events bring fewer records.
proof fn lemma_crawled_prefix(events: Seq<EventView>, n: int)
    requires
        0 <= n <= events.len(),
    ensures
        crawled(events.take(n)).len() <= crawled(events).len(),
        crawled(events.take(n)) == crawled(events).take(crawled(events.take(n)).len() as int),
    decreases events.len(),
{
    if n == events.len() {
        assert(events.take(n) =~= events);
        assert(crawled(events).take(crawled(events).len() as int) =~= crawled(events));
    } else {
        lemma_crawled_prefix(events.drop_last(), n);
        assert(events.drop_last().take(n) =~= events.take(n));
        let k = crawled(events.take(n)).len() as int;
        assert(crawled(events).take(k) =~= crawled(events.drop_last()).take(k));
    }
}

/// The record of this event can stand on a line, and reads back as the event, but for
/// numbers with a fraction.
pub open spec fn is_kept(event: EventView) -> bool {
    &&& database::fits_line(record_of(event).bytes)
    &&& poly_api::is_proper(event) ==> json::reads_back(
        poly_api::event_text(event),
        poly_api::event_json(event),
    )
}

/// All these events are kept by their records, but for those without a ticker, which
/// have none.
pub open spec fn all_kept(events: Seq<EventView>) -> bool {
    forall|i: int|
        0 <= i < events.len() && text::trimmed(events[i].ticker).len() > 0 ==> is_kept(
            #[trigger] events[i],
        )
}

/// All records can be read.
pub open spec fn all_parse(records: Seq<Record>) -> bool {
    forall|i: int|
        0 <= i < records.len() ==> json::json_parsed(#[trigger] records[i].bytes) is Ok
}

/// All events are as a listing gives them.
pub open spec fn all_proper(events: Seq<EventView>) -> bool {
    forall|i: int| 0 <= i < events.len() ==> poly_api::is_proper(#[trigger] events[i])
}

/// All events are within the reader's depth, and have no numbers but integers.
pub open spec fn all_plain(events: Seq<EventView>) -> bool {
    forall|i: int|
        0 <= i < events.len() ==> json::plain_within(
            poly_api::event_json(#[trigger] events[i]),
            json::max_depth(),
        )
}

/// A record that was written for an event, and can be read, names the event's ticker,
/// and holds the event, but for numbers with a fraction.
pub proof fn law_record_keeps_its_event(event: EventView)
    requires
        is_kept(event),
        poly_api::is_proper(event),
        text::trimmed(event.ticker).len() > 0,
    ensures
        json::json_parsed(record_of(event).bytes) matches Ok(w) ==> {
            &&& database::record_ticker(record_of(event).bytes) == Some(record_of(event).ticker)
            &&& json::alike(poly_api::event_json(event), w)
        },
        json::plain_within(poly_api::event_json(event), json::max_depth()) ==> json::json_parsed(
            record_of(event).bytes,
        ) == Ok::<JsonView, Seq<char>>(poly_api::event_json(event)),
{
    reveal_strlit("ticker");
    reveal_strlit("endDate");
    assert("ticker"@.len() != "endDate"@.len());
    let v = poly_api::event_json(event);
    assert(v->Object_0.dom().contains("ticker"@));
    assert(v->Object_0["ticker"@] == JsonView::Str(event.ticker));
    if let Ok(w) = json::json_parsed(record_of(event).bytes) {
        assert(json::alike(v, w));
        assert(w is Object);
        assert(json::alike(v->Object_0["ticker"@], w->Object_0["ticker"@]));
    }
}

/// The records of events that can be read again can stand on lines, and name their
/// tickers.
proof fn lemma_crawled_named(events: Seq<EventView>)
    requires
        all_kept(events),
        all_proper(events),
        all_parse(crawled(events)) || all_plain(events),
    ensures
        records::well_named(crawled(events)),
    decreases events.len(),
{
    if events.len() > 0 {
        let rest = events.drop_last();
        let event = events.last();
        let records = crawled(events);
        assert(events[events.len() - 1] == event);
        assert forall|i: int|
            0 <= i < rest.len() && text::trimmed(rest[i].ticker).len() > 0 implies is_kept(
            #[trigger] rest[i],
        ) by {
            assert(rest[i] == events[i]);
        }
        assert forall|i: int| 0 <= i < rest.len() implies poly_api::is_proper(
            #[trigger] rest[i],
        ) by {
            assert(rest[i] == events[i]);
        }
        if all_plain(events) {
            assert forall|i: int| 0 <= i < rest.len() implies json::plain_within(
                poly_api::event_json(#[trigger] rest[i]),
                json::max_depth(),
            ) by {
                assert(rest[i] == events[i]);
            }
        } else {
            assert forall|i: int| 0 <= i < crawled(rest).len() implies json::json_parsed(
                #[trigger] crawled(rest)[i].bytes,
            ) is Ok by {
                assert(records[i] == crawled(rest)[i]);
            }
        }
        lemma_crawled_named(rest);
        if text::trimmed(event.ticker).len() > 0 {
            law_record_keeps_its_event(event);
            assert(records[records.len() - 1] == record_of(event));
        }
        assert forall|i: int| 0 <= i < records.len() implies #[trigger] database::fits_line(
            records[i].bytes,
        ) && database::record_ticker(records[i].bytes) == Some(records[i].ticker) by {
            if i < crawled(rest).len() {
                assert(records[i] == crawled(rest)[i]);
                assert(database::fits_line(crawled(rest)[i].bytes));
            }
        }
    }
}

/// The records of two lists of events in a row.
proof fn lemma_crawled_concat(a: Seq<EventView>, b: Seq<EventView>)
    ensures
        crawled(a + b) == crawled(a) + crawled(b),
    decreases b.len(),
{
    if b.len() == 0 {
        assert(a + b =~= a);
        assert(crawled(a) + crawled(b) =~= crawled(a));
    } else {
        lemma_crawled_concat(a, b.drop_last());
        assert((a + b).drop_last() =~= a + b.drop_last());
        assert(crawled(a + b) =~= crawled(a) + crawled(b));
    }
}

/// Notes an event, and gives the text of its record, which is to be written next, with
/// a line feed behind it. An event without a ticker has none.
fn note_event(builder: &mut LogBuilder, event: PolymarketEvent) -> (r: Result<
    Option<String>,
    TooLong,
>)
    requires
        old(builder).wf(),
    ensures
        final(builder).wf(),
        final(builder).start() == old(builder).start(),
        ({
            let record = record_of(event@);
            let more = old(builder)@.push(record);
            match r {
                Ok(None) => {
                    &&& text::trimmed(event@.ticker).len() == 0
                    &&& final(builder)@ == old(builder)@
                },
                Ok(Some(line)) => {
                    &&& text::trimmed(event@.ticker).len() > 0
                    &&& vstd::utf8::encode_utf8(line@) == record.bytes
                    &&& is_kept(event@)
                    &&& records::placeable(more, old(builder).start())
                    &&& final(builder)@ == more
                },
                Err(_) => {
                    &&& text::trimmed(event@.ticker).len() > 0
                    &&& !records::placeable(more, old(builder).start())
                    &&& final(builder)@ == old(builder)@
                },
            }
        }),
{
    let ticker = text::trim(event.ticker.as_str()).to_owned();
    if ticker.as_str().is_empty() {
        return Ok(None);
    }
    let line = event.render();
    proof {
        text::lemma_one_line_bytes(line@);
        vstd::utf8::encode_utf8_valid_utf8(line@);
    }
    match builder.note(ticker.as_str(), line.as_str().as_bytes()) {
        Ok(_) => Ok(Some(line)),
        Err(e) => Err(e),
    }
}

/// Behind `before`, at the place `at`, there is room for the records of the events up to
/// the `k`th, and not for that of the `k`th.
pub open spec fn no_room_for(
    before: Seq<Record>,
    events: Seq<EventView>,
    k: int,
    at: int,
) -> bool {
    &&& 0 <= k < events.len()
    &&& text::trimmed(events[k].ticker).len() > 0
    &&& records::placeable(before + crawled(events.take(k)), at)
    &&& !records::placeable((before + crawled(events.take(k))).push(record_of(events[k])), at)
}

/// Notes the events of a page, and gives what is to be written next.
fn note_page(builder: &mut LogBuilder, events: Vec<PolymarketEvent>) -> (r: Result<
    Vec<u8>,
    TooLong,
>)
    requires
        old(builder).wf(),
    ensures
        final(builder).wf(),
        final(builder).start() == old(builder).start(),
        ({
            let page = crawled(poly_api::events_view(events@));
            match r {
                Ok(bytes) => {
                    &&& bytes@ == records::lines_of(page)
                    &&& final(builder)@ == old(builder)@ + page
                    &&& all_kept(poly_api::events_view(events@))
                },
                Err(_) => {
                    &&& !records::placeable(old(builder)@ + page, old(builder).start())
                    &&& exists|k: int| #[trigger]
                        no_room_for(
                            old(builder)@,
                            poly_api::events_view(events@),
                            k,
                            old(builder).start(),
                        ) && final(builder)@ == old(builder)@ + crawled(
                            poly_api::events_view(events@).take(k),
                        )
                },
            }
        }),
{
    let ghost all = poly_api::events_view(events@);
    let ghost list = events@;
    let ghost before = builder@;
    let ghost at = builder.start();
    let ghost mut taken: int = 0;
    let mut bytes: Vec<u8> = Vec::new();
    let mut rest = lists::reversed(events);
    assert(all.take(0) =~= Seq::empty());
    assert(before + Seq::<Record>::empty() =~= before);
    while rest.len() > 0
        invariant
            0 <= taken <= list.len(),
            list == events@,
            all == poly_api::events_view(list),
            rest@ == list.skip(taken).reverse(),
            before == old(builder)@,
            at == old(builder).start(),
            builder.wf(),
            builder.start() == at,
            builder@ == before + crawled(all.take(taken)),
            bytes@ == records::lines_of(crawled(all.take(taken))),
            all_kept(all.take(taken)),
        decreases rest@.len(),
    {
        let event = rest.pop().unwrap();
        assert(event == list[taken]);
        assert(rest@ =~= list.skip(taken + 1).reverse());
        assert(all.take(taken + 1).drop_last() =~= all.take(taken));
        assert(all.take(taken + 1).last() == event@);
        let ghost so_far = crawled(all.take(taken));
        let ghost record = record_of(event@);
        assert((before + so_far).push(record) =~= before + so_far.push(record));
        proof {
            records::lemma_place_push(so_far, record, at);
        }
        match note_event(builder, event) {
            Ok(Some(line)) => {
                let ghost written = bytes@;
                lists::append_bytes(&mut bytes, line.as_str().as_bytes());
                bytes.push(LINE_FEED);
                assert(bytes@ =~= written + record.bytes.push(LINE_FEED));
            },
            Ok(None) => {},
            Err(e) => {
                proof {
                    assert(crawled(all.take(taken + 1)) == so_far.push(record));
                    let whole = before + crawled(all);
                    if records::placeable(whole, at) {
                        lemma_crawled_prefix(all, taken + 1);
                        let n = before.len() + so_far.len() + 1;
                        records::lemma_placeable_prefix(whole, n as int, at);
                        assert(whole.take(n as int) =~= before + so_far.push(record));
                    }
                    builder.lemma_wf();
                    assert(no_room_for(before, all, taken, at));
                }
                return Err(e);
            },
        }
        assert(all_kept(all.take(taken + 1))) by {
            assert forall|i: int|
                0 <= i < taken + 1 && text::trimmed(all.take(taken + 1)[i].ticker).len()
                    > 0 implies is_kept(#[trigger] all.take(taken + 1)[i]) by {
                if i < taken {
                    assert(all.take(taken)[i] == all.take(taken + 1)[i]);
                }
            }
        }
        proof {
            taken = taken + 1;
        }
    }
    assert(all.take(taken) =~= all);
    Ok(bytes)
}

/// A crawl whose events are written to a scratch log, page by page.
pub struct Crawl {
    iter: OpenEventsIter,
    builder: LogBuilder,
}

impl Crawl {
    /// Where the crawl stands.
    pub closed spec fn view(&self) -> CrawlView {
        self.iter@
    }

    /// The records written so far.
    pub closed spec fn records(&self) -> Seq<Record> {
        self.builder@
    }

    pub closed spec fn wf(&self) -> bool {
        self.builder.wf() && self.builder.start() == 0
    }

    pub fn new() -> (r: Crawl)
        ensures
            r.wf(),
            r@ == poly_api::fresh_crawl(),
            r.records() == Seq::<Record>::empty(),
    {
        Crawl { iter: OpenEventsIter::default(), builder: LogBuilder::starting_at(0) }
    }

    /// Whether there is another page to ask for.
    pub fn wants_page(&mut self) -> (yes: bool)
        requires
            old(self).wf(),
        ensures
            final(self).wf(),
            final(self).records() == old(self).records(),
            yes == old(self)@.wants_page(),
            final(self)@ == if yes {
                old(self)@
            } else {
                old(self)@.ended()
            },
    {
        self.iter.wants_page()
    }

    /// The next page to ask for.
    pub fn params(&self) -> (r: FetchEventsParams<'_>)
        ensures
            r.offset == self@.offset,
            r.limit == self@.page_limit,
            r.order@ == "endDate"@,
            r.ascending,
            !r.closed,
            index::text_view(r.end_date_min) == self@.boundary,
    {
        self.iter.params()
    }

    /// Takes the answer to the request that `params` described, and gives what is to be
    /// written to the scratch log next.
    pub fn accept(&mut self, page: Result<Vec<PolymarketEvent>, PolyMarketError>) -> (r: Result<
        Vec<u8>,
        RefreshError,
    >)
        requires
            old(self).wf(),
            old(self)@.wants_page(),
        ensures
            final(self).wf(),
            final(self)@ == old(self)@.after(poly_api::page_view(page)),
            match (poly_api::page_view(page), r) {
                (Ok(events), Ok(bytes)) => {
                    &&& bytes@ == records::lines_of(crawled(events))
                    &&& final(self).records() == old(self).records() + crawled(events)
                    &&& all_kept(events)
                },
                (Ok(events), Err(e)) => {
                    &&& e == RefreshError::TooLong
                    &&& !records::placeable(old(self).records() + crawled(events), 0)
                    &&& exists|k: int| #[trigger]
                        no_room_for(old(self).records(), events, k, 0) && final(self).records()
                            == old(self).records() + crawled(events.take(k))
                },
                (Err(message), Err(RefreshError::Crawl(text))) => {
                    &&& text@ == message
                    &&& final(self).records() == old(self).records()
                },
                (Err(_), _) => false,
            },
    {
        let ghost before = self.builder@;
        match self.iter.accept(page) {
            Some(Ok(events)) => {
                let ghost all = poly_api::events_view(events@);
                match note_page(&mut self.builder, events) {
                    Ok(bytes) => Ok(bytes),
                    Err(_) => {
                        proof {
                            let k = choose|k: int| #[trigger]
                                no_room_for(before, all, k, 0) && self.builder@ == before
                                    + crawled(all.take(k));
                            assert(no_room_for(old(self).records(), all, k, 0));
                        }
                        Err(RefreshError::TooLong)
                    },
                }
            },
            Some(Err(e)) => Err(RefreshError::Crawl(e.message().to_owned())),
            None => {
                assert(before + crawled(Seq::empty()) =~= before);
                Ok(Vec::new())
            },
        }
    }

    /// How many records have been written.
    pub fn len(&self) -> (n: usize)
        requires
            self.wf(),
        ensures
            n == self.records().len(),
    {
        self.builder.len()
    }

    /// The index of the scratch log, and how long the log is. A first run must have
    /// brought something.
    pub fn finish(self, first_run: bool) -> (r: Result<(Vec<IndexEntry>, u64), RefreshError>)
        requires
            self.wf(),
        ensures
            match r {
                Ok((entries, length)) => {
                    &&& !(first_run && self.records().len() == 0)
                    &&& records::placeable(self.records(), 0)
                    &&& index::indexes(
                        index::views(entries@),
                        records::placed(self.records(), 0),
                    )
                    &&& length == records::lines_of(self.records()).len()
                },
                Err(e) => e == RefreshError::NoEvents && first_run && self.records().len() == 0,
            },
    {
        proof {
            self.builder.lemma_wf();
        }
        if first_run && self.builder.len() == 0 {
            return Err(RefreshError::NoEvents);
        }
        let length: u64 = self.builder.offset();
        Ok((index::build_index(self.builder.into_entries()), length))
    }
}

// ---------------------------------------------------------------------------
// Carrying forward
// ---------------------------------------------------------------------------

/// The record's end date has been past for more than the grace period. A record
/// without a readable end date does not expire.
pub open spec fn expired(record: Seq<u8>, now_unix: u64) -> bool {
    json::json_parsed(record) matches Ok(v) && (json::text_of(json::field(v, "endDate"@)) matches Some(
        end_date,
    ) && (dates::date_of(end_date) matches Some(end) && now_unix > end + END_DATE_GRACE_SECS))
}

/// Whether a record's end date has been past for more than the grace period.
pub fn is_expired(record: &[u8], now_unix: u64) -> (yes: bool)
    ensures
        yes == expired(record@, now_unix),
{
    match json::parse_bytes(record) {
        Ok(value) => match value.get_str("endDate") {
            Some(end_date) => match dates::parse_date(end_date) {
                Some(end) => now_unix as i128 > end as i128 + END_DATE_GRACE_SECS as i128,
                None => false,
            },
            None => false,
        },
        Err(_) => false,
    }
}

/// The entries whose ticker a crawl did not bring.
pub open spec fn missing(new: Seq<EntryView>, old: Seq<EntryView>) -> Seq<EntryView> {
    old.filter(|e: EntryView| !index::has_ticker(new, e.ticker))
}

/// The entries that a crawl did not bring, in order.
pub fn not_recrawled(new: &Vec<IndexEntry>, old_index: &Vec<IndexEntry>) -> (r: Vec<IndexEntry>)
    requires
        index::strictly_sorted(index::views(new@)),
        index::strictly_sorted(index::views(old_index@)),
    ensures
        index::views(r@) == missing(index::views(new@), index::views(old_index@)),
{
    let ghost n = index::views(new@);
    let ghost o = index::views(old_index@);
    let ghost keep = |e: EntryView| !index::has_ticker(n, e.ticker);
    let mut r: Vec<IndexEntry> = Vec::new();
    let mut i: usize = 0;
    let mut j: usize = 0;
    proof {
        reveal(Seq::filter);
        assert(o.take(0) =~= Seq::empty());
        assert(index::views(r@) =~= o.take(0).filter(keep));
    }
    while i < old_index.len()
        invariant
            i <= old_index@.len(),
            j <= new@.len(),
            n == index::views(new@),
            o == index::views(old_index@),
            keep == (|e: EntryView| !index::has_ticker(n, e.ticker)),
            index::strictly_sorted(n),
            index::strictly_sorted(o),
            forall|k: int|
                0 <= k < j && i < o.len() ==> text::before(
                    #[trigger] n[k].ticker,
                    o[i as int].ticker,
                ),
            index::views(r@) == o.take(i as int).filter(keep),
        decreases old_index@.len() - i,
    {
        let ghost e = o[i as int];
        assert(e == old_index@[i as int]@);
        while j < new.len() && is_before(new[j].ticker.as_str(), old_index[i].ticker.as_str())
            invariant
                i < old_index@.len(),
                j <= new@.len(),
                n == index::views(new@),
                o == index::views(old_index@),
                e == o[i as int],
                e == old_index@[i as int]@,
                forall|k: int|
                    0 <= k < j ==> text::before(#[trigger] n[k].ticker, e.ticker),
            ensures
                j <= new@.len(),
                forall|k: int|
                    0 <= k < j ==> text::before(#[trigger] n[k].ticker, e.ticker),
                j < new@.len() ==> !text::before(n[j as int].ticker, e.ticker),
            decreases new@.len() - j,
        {
            assert(n[j as int] == new@[j as int]@);
            j = j + 1;
        }
        let present = j < new.len() && text::same(
            new[j].ticker.as_str(),
            old_index[i].ticker.as_str(),
        );
        proof {
            if j < n.len() {
                assert(n[j as int] == new@[j as int]@);
            }
            lemma_merge_walk(n, e.ticker, j as int);
            assert(o.take(i + 1) =~= o.take(i as int).push(e));
            lists::lemma_filter_push(o.take(i as int), e, keep);
        }
        if !present {
            let ghost done = r@;
            r.push(old_index[i].clone());
            assert(index::views(r@) =~= index::views(done).push(e));
        }
        proof {
            if i + 1 < o.len() {
                assert(text::before(o[i as int].ticker, o[i + 1].ticker));
                assert forall|k: int| 0 <= k < j implies text::before(
                    #[trigger] n[k].ticker,
                    o[i + 1].ticker,
                ) by {
                    text::lemma_before_transitive(n[k].ticker, e.ticker, o[i + 1].ticker);
                }
            }
        }
        i = i + 1;
    }
    assert(o.take(i as int) =~= o);
    r
}

fn is_before(a: &str, b: &str) -> (yes: bool)
    ensures
        yes == text::before(a@, b@),
{
    proof {
        text::lemma_before_irreflexive(a@);
    }
    match text::compare(a, b) {
        text::Order::Less => true,
        text::Order::Equal => false,
        text::Order::Greater => {
            proof {
                text::lemma_before_asymmetric(b@, a@);
            }
            false
        },
    }
}

/// In a sorted list, a ticker can only stand where those before it end.
proof fn lemma_merge_walk(n: Seq<EntryView>, ticker: Seq<char>, j: int)
    requires
        index::strictly_sorted(n),
        0 <= j <= n.len(),
        forall|k: int| 0 <= k < j ==> text::before(#[trigger] n[k].ticker, ticker),
        j < n.len() ==> !text::before(n[j].ticker, ticker),
    ensures
        index::has_ticker(n, ticker) <==> j < n.len() && n[j].ticker == ticker,
{
    if index::has_ticker(n, ticker) {
        let k = choose|k: int| 0 <= k < n.len() && #[trigger] n[k].ticker == ticker;
        text::lemma_before_irreflexive(ticker);
        if k > j {
            assert(text::before(n[j].ticker, n[k].ticker));
        }
    }
}

/// The entries that are carried forward: what a crawl did not bring, unless expired.
pub open spec fn carried(
    new: Seq<EntryView>,
    previous: Seq<EntryView>,
    previous_log: Seq<u8>,
    now_unix: u64,
) -> Seq<EntryView> {
    missing(new, previous).filter(
        |e: EntryView| !expired(records::record_at(previous_log, e).bytes, now_unix),
    )
}

/// What is carried forward out of the first `i` records that a crawl did not bring.
pub open spec fn carried_before(
    new: Seq<EntryView>,
    previous: Seq<EntryView>,
    previous_log: Seq<u8>,
    now_unix: u64,
    i: int,
) -> Seq<EntryView> {
    missing(new, previous).take(i).filter(
        |e: EntryView| !expired(records::record_at(previous_log, e).bytes, now_unix),
    )
}

/// Carrying records forward to the place `at` fails on the `i`th record that a crawl did
/// not bring, and on none before it: it cannot be read, or there is no room for it.
pub open spec fn stops_at(
    new: Seq<EntryView>,
    previous: Seq<EntryView>,
    previous_log: Seq<u8>,
    now_unix: u64,
    at: int,
    i: int,
    error: RefreshError,
) -> bool {
    let all = missing(new, previous);
    let record = records::record_at(previous_log, all[i]);
    let noted = records::records_at(
        previous_log,
        carried_before(new, previous, previous_log, now_unix, i),
    );
    &&& 0 <= i < all.len()
    &&& records::readable(previous_log, all.take(i))
    &&& records::placeable(noted, at)
    &&& match error {
        RefreshError::ShortRead => database::raw_record(previous_log, all[i]) is None,
        RefreshError::TooLong => {
            &&& database::raw_record(previous_log, all[i]) is Some
            &&& !expired(record.bytes, now_unix)
            &&& !records::placeable(noted.push(record), at)
        },
        _ => false,
    }
}

/// The records that a crawl did not bring, on their way from the old log to the scratch
/// log.
pub struct CarryForward {
    plan: Vec<IndexEntry>,
    done: usize,
    builder: LogBuilder,
    now_unix: u64,
}

impl CarryForward {
    /// What is to be read from the old log.
    pub closed spec fn plan(&self) -> Seq<EntryView> {
        index::views(self.plan@)
    }

    /// How much of it has been read.
    pub closed spec fn done(&self) -> nat {
        self.done as nat
    }

    /// What has been carried forward.
    pub closed spec fn records(&self) -> Seq<Record> {
        self.builder@
    }

    /// How long the scratch log was before.
    pub closed spec fn start(&self) -> int {
        self.builder.start()
    }

    pub closed spec fn now(&self) -> u64 {
        self.now_unix
    }

    pub closed spec fn wf(&self) -> bool {
        self.builder.wf() && self.done <= self.plan@.len()
    }

    /// Starts behind the first `offset` bytes of the scratch log, which `new` indexes.
    pub fn new(
        new: &Vec<IndexEntry>,
        previous: &Snapshot,
        offset: u64,
        now_unix: u64,
    ) -> (r: CarryForward)
        requires
            index::strictly_sorted(index::views(new@)),
            index::strictly_sorted(previous.entries()),
        ensures
            r.wf(),
            r.plan() == missing(index::views(new@), previous.entries()),
            r.done() == 0,
            r.records() == Seq::<Record>::empty(),
            r.start() == offset,
            r.now() == now_unix,
    {
        CarryForward {
            plan: not_recrawled(new, &previous.index),
            done: 0,
            builder: LogBuilder::starting_at(offset),
            now_unix,
        }
    }

    /// The record to read next.
    pub fn next_entry(&self) -> (r: Option<&IndexEntry>)
        requires
            self.wf(),
        ensures
            match r {
                Some(entry) => self.done() < self.plan().len() && entry@
                    == self.plan()[self.done() as int],
                None => self.done() == self.plan().len(),
            },
    {
        if self.done < self.plan.len() {
            Some(&self.plan[self.done])
        } else {
            None
        }
    }

    /// Takes the record that `next_entry` asked for, and tells whether it is to be
    /// written to the scratch log, with a line feed behind it: unless it has expired.
    pub fn take(&mut self, raw: &[u8]) -> (r: Result<bool, RefreshError>)
        requires
            old(self).wf(),
            old(self).done() < old(self).plan().len(),
        ensures
            final(self).wf(),
            final(self).plan() == old(self).plan(),
            final(self).start() == old(self).start(),
            final(self).now() == old(self).now(),
            ({
                let more = old(self).records().push(
                    Record {
                        ticker: old(self).plan()[old(self).done() as int].ticker,
                        bytes: raw@,
                    },
                );
                match r {
                    Ok(write) => {
                        &&& write == !expired(raw@, old(self).now())
                        &&& write ==> records::placeable(more, old(self).start())
                        &&& final(self).done() == old(self).done() + 1
                        &&& final(self).records() == if write {
                            more
                        } else {
                            old(self).records()
                        }
                    },
                    Err(e) => {
                        &&& e == RefreshError::TooLong
                        &&& !expired(raw@, old(self).now())
                        &&& !records::placeable(more, old(self).start())
                        &&& final(self).done() == old(self).done()
                        &&& final(self).records() == old(self).records()
                    },
                }
            }),
    {
        assert(self.done < self.plan.len());
        let next: usize = self.done + 1;
        if is_expired(raw, self.now_unix) {
            self.done = next;
            return Ok(false);
        }
        match self.builder.note(self.plan[self.done].ticker.as_str(), raw) {
            Ok(_) => {
                self.done = next;
                Ok(true)
            },
            Err(_) => Err(RefreshError::TooLong),
        }
    }

    /// How many records have been carried forward.
    pub fn len(&self) -> (n: usize)
        requires
            self.wf(),
        ensures
            n == self.records().len(),
    {
        self.builder.len()
    }

    /// How long the scratch log is.
    pub fn offset(&self) -> (r: u64)
        requires
            self.wf(),
        ensures
            r == self.start() + records::lines_of(self.records()).len(),
    {
        self.builder.offset()
    }

    /// What has been carried forward can be placed.
    pub proof fn lemma_wf(&self)
        requires
            self.wf(),
        ensures
            records::placeable(self.records(), self.start()),
    {
        self.builder.lemma_wf();
    }

    /// The index of the scratch log, given that of what was there before.
    pub fn finish(self, new: Vec<IndexEntry>) -> (r: Vec<IndexEntry>)
        requires
            self.wf(),
        ensures
            index::indexes(
                index::views(r@),
                index::views(new@) + records::placed(self.records(), self.start()),
            ),
    {
        let mut whole = new;
        let mut rest = self.builder.into_entries();
        let ghost (first, second) = (whole@, rest@);
        whole.append(&mut rest);
        assert(index::views(whole@) =~= index::views(first) + index::views(second));
        index::build_index(whole)
    }
}

/// Copies to `writer` every record of the previous log whose ticker the crawl in
/// `entries` did not bring, and extends `entries` by it, so that a refresh loses
/// nothing that is still of use: only records whose end date has been past for more
/// than the grace period are left behind. `offset` is where in the new log the next
/// record goes, and moves on with each. Gives the number of records carried forward.
/// An error comes after the records before the one that caused it have been copied;
/// `entries` is then as it was.
pub fn merge_carry_forward(
    writer: &mut Vec<u8>,
    entries: &mut Vec<IndexEntry>,
    previous: &Snapshot,
    previous_log: &[u8],
    offset: &mut u64,
    now_unix: u64,
) -> (r: Result<usize, RefreshError>)
    requires
        index::strictly_sorted(index::views(old(entries)@)),
        index::strictly_sorted(previous.entries()),
    ensures
        ({
            let new = index::views(old(entries)@);
            let at = *old(offset) as int;
            let kept = carried(new, previous.entries(), previous_log@, now_unix);
            let noted = records::records_at(previous_log@, kept);
            match r {
                Ok(n) => {
                    &&& records::readable(previous_log@, missing(new, previous.entries()))
                    &&& n == kept.len()
                    &&& records::placeable(noted, at)
                    &&& final(writer)@ == old(writer)@ + records::lines_of(noted)
                    &&& *final(offset) == *old(offset) + records::lines_of(noted).len()
                    &&& index::indexes(
                        index::views(final(entries)@),
                        new + records::placed(noted, at),
                    )
                },
                Err(e) => {
                    &&& e == RefreshError::ShortRead && !records::readable(
                        previous_log@,
                        missing(new, previous.entries()),
                    ) || e == RefreshError::TooLong && !records::placeable(noted, at)
                    &&& exists|i: int|
                        {
                            let copied = records::lines_of(
                                records::records_at(
                                    previous_log@,
                                    carried_before(
                                        new,
                                        previous.entries(),
                                        previous_log@,
                                        now_unix,
                                        i,
                                    ),
                                ),
                            );
                            &&& #[trigger] stops_at(
                                new,
                                previous.entries(),
                                previous_log@,
                                now_unix,
                                at,
                                i,
                                e,
                            )
                            &&& final(writer)@ == old(writer)@ + copied
                            &&& *final(offset) == *old(offset) + copied.len()
                        }
                    &&& final(entries)@ == old(entries)@
                },
            }
        }),
{
    let ghost new = index::views(entries@);
    let ghost before = writer@;
    let ghost at = *offset as int;
    let ghost all = missing(new, previous.entries());
    let ghost keep = |e: EntryView| !expired(
        records::record_at(previous_log@, e).bytes,
        now_unix,
    );
    let ghost whole = records::records_at(previous_log@, all.filter(keep));
    let mut carry = CarryForward::new(entries, previous, *offset, now_unix);
    let ghost mut kept: Seq<EntryView> = Seq::empty();
    proof {
        reveal(Seq::filter);
        assert(all.take(0) =~= Seq::empty());
        assert(all.take(0).filter(keep) =~= kept);
        assert(records::records_at(previous_log@, kept) =~= Seq::empty());
        assert(before + records::lines_of(Seq::empty()) =~= before);
    }
    while carry.next_entry().is_some()
        invariant
            carry.wf(),
            carry.plan() == all,
            carry.done() <= all.len(),
            carry.start() == at,
            carry.now() == now_unix,
            new == index::views(old(entries)@),
            at == *old(offset),
            all == missing(new, previous.entries()),
            records::readable(previous_log@, all.take(carry.done() as int)),
            keep == (|e: EntryView|
                !expired(records::record_at(previous_log@, e).bytes, now_unix)),
            whole == records::records_at(previous_log@, all.filter(keep)),
            kept == all.take(carry.done() as int).filter(keep),
            carry.records() == records::records_at(previous_log@, kept),
            before == old(writer)@,
            writer@ == before + records::lines_of(carry.records()),
            entries@ == old(entries)@,
            *offset == at + records::lines_of(carry.records()).len(),
        ensures
            carry.done() == all.len(),
        decreases all.len() - carry.done(),
    {
        let ghost i = carry.done() as int;
        let ghost e = all[i];
        let ghost record = records::record_at(previous_log@, e);
        let ghost noted = carry.records();
        proof {
            carry.lemma_wf();
            assert(kept == carried_before(
                new,
                previous.entries(),
                previous_log@,
                now_unix,
                i,
            ));
        }
        let raw = match carry.next_entry() {
            Some(entry) => {
                match database::read_raw(previous_log, entry) {
                    Some(raw) => raw,
                    None => {
                        assert(stops_at(
                            new,
                            previous.entries(),
                            previous_log@,
                            now_unix,
                            at,
                            i,
                            RefreshError::ShortRead,
                        ));
                        return Err(RefreshError::ShortRead);
                    },
                }
            },
            None => {
                break ;
            },
        };
        assert(raw@ == record.bytes);
        proof {
            assert(all.take(i + 1) =~= all.take(i).push(e));
            lists::lemma_filter_push(all.take(i), e, keep);
            assert(records::records_at(previous_log@, kept.push(e)) =~= noted.push(record));
            records::lemma_place_push(noted, record, at);
        }
        match carry.take(raw) {
            Ok(write) => {
                if write {
                    let ghost written = writer@;
                    lists::append_bytes(writer, raw);
                    writer.push(LINE_FEED);
                    assert(writer@ =~= written + raw@.push(LINE_FEED));
                    assert(writer@ =~= before + records::lines_of(carry.records()));
                    *offset = carry.offset();
                    proof {
                        kept = kept.push(e);
                    }
                }
            },
            Err(error) => {
                proof {
                    if records::placeable(whole, at) {
                        lemma_filter_prefix(all, keep, i + 1);
                        let n = kept.len() + 1;
                        records::lemma_placeable_prefix(whole, n as int, at);
                        assert(whole.take(n as int) =~= noted.push(record));
                    }
                    assert(stops_at(
                        new,
                        previous.entries(),
                        previous_log@,
                        now_unix,
                        at,
                        i,
                        error,
                    ));
                }
                return Err(error);
            },
        }
    }
    assert(all.take(all.len() as int) =~= all);
    let n: usize = carry.len();
    proof {
        carry.lemma_wf();
    }
    let mut index: Vec<IndexEntry> = Vec::new();
    std::mem::swap(&mut index, entries);
    *entries = carry.finish(index);
    Ok(n)
}

/// A selection from the front of a list is the front of the selection.
proof fn lemma_filter_prefix(s: Seq<EntryView>, keep: spec_fn(EntryView) -> bool, n: int)
    requires
        0 <= n <= s.len(),
    ensures
        s.take(n).filter(keep).len() <= s.filter(keep).len(),
        s.take(n).filter(keep) == s.filter(keep).take(s.take(n).filter(keep).len() as int),
{
    let (a, b) = (s.take(n), s.skip(n));
    assert(a + b =~= s);
    Seq::filter_distributes_over_add(a, b, keep);
    assert(a.filter(keep) =~= (a.filter(keep) + b.filter(keep)).take(
        a.filter(keep).len() as int,
    ));
}

// ---------------------------------------------------------------------------
// The whole refresh
// ---------------------------------------------------------------------------

/// What is left of a log's contents when a refresh does not bring them again.
pub open spec fn retained(
    previous: Map<Seq<char>, Seq<u8>>,
    now_unix: u64,
) -> Map<Seq<char>, Seq<u8>> {
    Map::new(
        |t: Seq<char>| previous.dom().contains(t) && !expired(previous[t], now_unix),
        |t: Seq<char>| previous[t],
    )
}

proof fn lemma_filters_commute(
    s: Seq<EntryView>,
    f: spec_fn(EntryView) -> bool,
    g: spec_fn(EntryView) -> bool,
)
    ensures
        s.filter(f).filter(g) == s.filter(g).filter(f),
    decreases s.len(),
{
    reveal(Seq::filter);
    if s.len() > 0 {
        let rest = s.drop_last();
        let e = s.last();
        lemma_filters_commute(rest, f, g);
        assert(rest.push(e) =~= s);
        lists::lemma_filter_push(rest, e, f);
        lists::lemma_filter_push(rest, e, g);
        lists::lemma_filter_push(rest.filter(f), e, g);
        lists::lemma_filter_push(rest.filter(g), e, f);
    }
}

proof fn lemma_filter_one(e: EntryView, f: spec_fn(EntryView) -> bool)
    ensures
        seq![e].filter(f) == if f(e) {
            seq![e]
        } else {
            Seq::empty()
        },
{
    reveal(Seq::filter);
    lists::lemma_filter_push(Seq::empty(), e, f);
    assert(Seq::empty().push(e) =~= seq![e]);
    assert(Seq::<EntryView>::empty().filter(f) =~= Seq::empty());
}

/// Of a ticker of the previous log, the entry is carried forward or not.
proof fn lemma_carried_lookup(
    new: Seq<EntryView>,
    previous: Seq<EntryView>,
    previous_log: Seq<u8>,
    now_unix: u64,
    ticker: Seq<char>,
)
    requires
        index::strictly_sorted(previous),
    ensures
        index::lookup(carried(new, previous, previous_log, now_unix), ticker) == match index::lookup(
            previous,
            ticker,
        ) {
            Some(e) => if !index::has_ticker(new, ticker) && !expired(
                records::record_at(previous_log, e).bytes,
                now_unix,
            ) {
                Some(e)
            } else {
                None
            },
            None => None,
        },
{
    let of = |e: EntryView| e.ticker == ticker;
    let absent = |e: EntryView| !index::has_ticker(new, e.ticker);
    let fresh = |e: EntryView| !expired(records::record_at(previous_log, e).bytes, now_unix);
    lemma_filters_commute(previous.filter(absent), fresh, of);
    lemma_filters_commute(previous, absent, of);
    index::lemma_absent_selects_nothing(previous, ticker);
    if index::has_ticker(previous, ticker) {
        let i = choose|i: int| 0 <= i < previous.len() && #[trigger] previous[i].ticker == ticker;
        index::lemma_selection_of_index(previous, i);
        lemma_filter_one(previous[i], absent);
        lemma_filter_one(previous[i], fresh);
        reveal(Seq::filter);
        assert(Seq::<EntryView>::empty().filter(fresh) =~= Seq::empty());
        assert(index::lookup(previous, ticker) == Some(previous[i]));
    } else {
        reveal(Seq::filter);
        assert(previous.filter(of) =~= Seq::empty());
        assert(Seq::<EntryView>::empty().filter(absent) =~= Seq::empty());
        assert(Seq::<EntryView>::empty().filter(fresh) =~= Seq::empty());
    }
}

/// What has been crawled, and what has been carried forward, is what the scratch log
/// holds.
proof fn lemma_merged_contents(
    crawl: Seq<Record>,
    new: Seq<EntryView>,
    previous: Seq<EntryView>,
    previous_log: Seq<u8>,
    now_unix: u64,
    merged: Seq<EntryView>,
)
    requires
        records::placeable(crawl, 0),
        index::indexes(new, records::placed(crawl, 0)),
        index::strictly_sorted(previous),
        records::placeable(
            records::records_at(previous_log, carried(new, previous, previous_log, now_unix)),
            records::lines_of(crawl).len() as int,
        ),
        index::indexes(
            merged,
            new + records::placed(
                records::records_at(previous_log, carried(new, previous, previous_log, now_unix)),
                records::lines_of(crawl).len() as int,
            ),
        ),
    ensures
        records::contents(
            merged,
            records::lines_of(crawl) + records::lines_of(
                records::records_at(previous_log, carried(new, previous, previous_log, now_unix)),
            ),
        ) == retained(records::contents(previous, previous_log), now_unix).union_prefer_right(
            records::by_ticker(crawl),
        ),
{
    let kept = carried(new, previous, previous_log, now_unix);
    let records = records::records_at(previous_log, kept);
    let first = records::lines_of(crawl);
    let second = records::lines_of(records);
    let log = first + second;
    let at = first.len() as int;
    let later = records::placed(records, at);
    records::lemma_index_contents(merged, new + later, log);
    records::lemma_index_contents(new, records::placed(crawl, 0), log);
    records::lemma_contents_placed(Seq::empty(), crawl, second);
    assert(Seq::<u8>::empty() + first + second =~= log);
    records::lemma_contents_placed(first, records, Seq::empty());
    assert(first + second + Seq::<u8>::empty() =~= log);
    records::lemma_records_at(previous_log, kept);
    assert(records::contents(new, log) == records::by_ticker(crawl));
    assert(records::contents(later, log) == records::contents(kept, previous_log));
    let whole = retained(records::contents(previous, previous_log), now_unix).union_prefer_right(
        records::by_ticker(crawl),
    );
    assert forall|t: Seq<char>|
        records::contents(merged, log).dom().contains(t) == #[trigger] whole.dom().contains(t) && (
        whole.dom().contains(t) ==> records::contents(merged, log)[t] == whole[t]) by {
        records::lemma_lookup_concat(new, later, t);
        lemma_carried_lookup(new, previous, previous_log, now_unix, t);
        index::lemma_absent_selects_nothing(new, t);
        assert(records::contents(new, log).dom().contains(t) == records::by_ticker(crawl).dom().contains(t));
        assert(records::contents(later, log).dom().contains(t) == records::contents(
            kept,
            previous_log,
        ).dom().contains(t));
        assert(records::contents(later, log).dom().contains(t) ==> records::contents(later, log)[t] == records::contents(
            kept,
            previous_log,
        )[t]);
    }
    assert(records::contents(merged, log) =~= whole);
}

/// What the scratch log holds can be read.
proof fn lemma_scratch_readable(
    crawl: Seq<Record>,
    new: Seq<EntryView>,
    records: Seq<Record>,
    merged: Seq<EntryView>,
)
    requires
        records::placeable(crawl, 0),
        index::indexes(new, records::placed(crawl, 0)),
        records::placeable(records, records::lines_of(crawl).len() as int),
        index::indexes(merged, new + records::placed(records, records::lines_of(crawl).len() as int)),
    ensures
        records::readable(records::lines_of(crawl) + records::lines_of(records), merged),
{
    let log = records::lines_of(crawl) + records::lines_of(records);
    let later = records::placed(records, records::lines_of(crawl).len() as int);
    records::lemma_placed_readable(Seq::empty(), crawl, records::lines_of(records));
    assert(Seq::<u8>::empty() + records::lines_of(crawl) + records::lines_of(records) =~= log);
    records::lemma_placed_readable(records::lines_of(crawl), records, Seq::empty());
    assert(log + Seq::<u8>::empty() =~= log);
    records::lemma_index_readable(log, new, records::placed(crawl, 0));
    assert forall|i: int| 0 <= i < (new + later).len() implies database::raw_record(
        log,
        #[trigger] (new + later)[i],
    ) is Some by {
        if i < new.len() {
            assert(database::raw_record(log, new[i]) is Some);
        } else {
            assert(database::raw_record(log, later[i - new.len()]) is Some);
        }
    }
    records::lemma_index_readable(log, merged, new + later);
}

/// Records that count are named by those they came from.
proof fn lemma_merged_named(
    crawl: Seq<Record>,
    previous: Seq<EntryView>,
    previous_log: Seq<u8>,
    now_unix: u64,
    merged: Seq<EntryView>,
    log: Seq<u8>,
)
    requires
        index::strictly_sorted(merged),
        records::contents(merged, log) == retained(
            records::contents(previous, previous_log),
            now_unix,
        ).union_prefer_right(records::by_ticker(crawl)),
        records::well_named(crawl),
        forall|i: int|
            0 <= i < previous.len() ==> database::locates(previous_log, #[trigger] previous[i]),
    ensures
        records::well_named(records::records_at(log, merged)),
{
    let records = records::records_at(log, merged);
    assert forall|i: int| 0 <= i < records.len() implies #[trigger] database::fits_line(
        records[i].bytes,
    ) && database::record_ticker(records[i].bytes) == Some(records[i].ticker) by {
        let t = merged[i].ticker;
        index::lemma_selection_of_index(merged, i);
        assert(index::lookup(merged, t) == Some(merged[i]));
        assert(records::contents(merged, log).dom().contains(t));
        assert(records::contents(merged, log)[t] == records[i].bytes);
        if records::by_ticker(crawl).dom().contains(t) {
            records::lemma_by_ticker_from(crawl, t);
            let k = choose|k: int|
                0 <= k < crawl.len() && #[trigger] crawl[k].ticker == t && crawl[k].bytes
                    == records::by_ticker(crawl)[t];
            assert(database::fits_line(crawl[k].bytes));
        } else {
            assert(records::contents(previous, previous_log).dom().contains(t));
            let found = index::of_ticker(previous, t);
            assert(found.contains(found.last()));
            previous.lemma_filter_contains_rev(|e: EntryView| e.ticker == t, found.last());
            previous.lemma_filter_pred(|e: EntryView| e.ticker == t, found.len() - 1);
            let k = choose|k: int| 0 <= k < previous.len() && previous[k] == found.last();
            assert(database::locates(previous_log, previous[k]));
        }
    }
}

/// What a refresh makes of what was there before, and of what was crawled.
pub open spec fn refreshed(
    before: Map<Seq<char>, Seq<u8>>,
    crawl: Map<Seq<char>, Seq<u8>>,
    now_unix: u64,
) -> Map<Seq<char>, Seq<u8>> {
    retained(before, now_unix).union_prefer_right(crawl)
}

/// What was there before a refresh.
pub open spec fn contents_before(previous: Option<(&Snapshot, &[u8])>) -> Map<Seq<char>, Seq<u8>> {
    match previous {
        Some((snapshot, log)) => records::contents(snapshot.entries(), log@),
        None => Map::empty(),
    }
}

/// What was there before a refresh can all be read.
pub open spec fn sound_before(previous: Option<(&Snapshot, &[u8])>) -> bool {
    match previous {
        Some((snapshot, log)) => forall|i: int|
            0 <= i < snapshot.entries().len() ==> database::locates(
                log@,
                #[trigger] snapshot.entries()[i],
            ),
        None => true,
    }
}

proof fn lemma_missing_by_tickers(a: Seq<EntryView>, b: Seq<EntryView>, previous: Seq<EntryView>)
    requires
        index::indexes(a, b),
    ensures
        missing(a, previous) == missing(b, previous),
{
    let f = |e: EntryView| !index::has_ticker(a, e.ticker);
    let g = |e: EntryView| !index::has_ticker(b, e.ticker);
    assert forall|e: EntryView| #[trigger] f(e) == g(e) by {
        index::lemma_absent_selects_nothing(a, e.ticker);
        index::lemma_absent_selects_nothing(b, e.ticker);
        assert(index::of_ticker(a, e.ticker) == index::last_alone(
            index::of_ticker(b, e.ticker),
        ));
    }
    assert(f =~= g);
}

/// The records are those of `held`, one per ticker, sorted.
pub open spec fn lists_contents(listed: Seq<Record>, held: Map<Seq<char>, Seq<u8>>) -> bool {
    &&& records::by_ticker(listed) == held
    &&& forall|i: int, j: int|
        0 <= i < j < listed.len() ==> #[trigger] text::before(listed[i].ticker, listed[j].ticker)
}

/// The scratch log, or the new log, would be longer than an index entry can say.
pub open spec fn exceeds(
    previous: Option<(&Snapshot, &[u8])>,
    events: Seq<EventView>,
    now_unix: u64,
) -> bool {
    let crawl = crawled(events);
    ||| !records::placeable(crawl, 0)
    ||| previous matches Some((snapshot, log)) && !records::placeable(
        records::records_at(
            log@,
            carried(records::placed(crawl, 0), snapshot.entries(), log@, now_unix),
        ),
        records::lines_of(crawl).len() as int,
    )
    ||| exists|listed: Seq<Record>| #[trigger]
        lists_contents(
            listed,
            refreshed(contents_before(previous), records::by_ticker(crawl), now_unix),
        ) && !records::placeable(listed, compaction::meta_bytes(now_unix).len() as int + 1)
}

/// Writes a crawl to a scratch log, out of the answers it gets.
fn run_crawl(
    crawl: &mut Crawl,
    replies: Vec<Result<Vec<PolymarketEvent>, PolyMarketError>>,
) -> (r: Result<Vec<u8>, RefreshError>)
    requires
        old(crawl).wf(),
        old(crawl)@ == poly_api::fresh_crawl(),
        old(crawl).records().len() == 0,
    ensures
        final(crawl).wf(),
        ({
            let events = poly_api::gathered(
                poly_api::fresh_crawl(),
                poly_api::replies_view(replies@),
            );
            let error = poly_api::crawl_error(
                poly_api::fresh_crawl(),
                poly_api::replies_view(replies@),
            );
            match r {
                Ok(scratch) => {
                    &&& error is None
                    &&& scratch@ == records::lines_of(crawled(events))
                    &&& final(crawl).records() == crawled(events)
                    &&& all_kept(events)
                },
                Err(RefreshError::Crawl(message)) => error == Some(message@),
                Err(RefreshError::TooLong) => !records::placeable(crawled(events), 0),
                Err(_) => false,
            }
        }),
{
    let ghost list = replies@;
    let ghost all = poly_api::replies_view(list);
    let ghost fresh = poly_api::fresh_crawl();
    let ghost events = poly_api::gathered(fresh, all);
    let ghost error = poly_api::crawl_error(fresh, all);
    let ghost mut taken: int = 0;
    let ghost mut seen: Seq<EventView> = Seq::empty();
    let mut scratch: Vec<u8> = Vec::new();
    let mut rest = lists::reversed(replies);
    assert(all.skip(0) =~= all);
    assert(crawl.records() =~= crawled(seen));
    assert(seen + events =~= events);
    while rest.len() > 0 && crawl.wants_page()
        invariant
            0 <= taken <= list.len(),
            list == replies@,
            all == poly_api::replies_view(list),
            fresh == poly_api::fresh_crawl(),
            events == poly_api::gathered(fresh, all),
            error == poly_api::crawl_error(fresh, all),
            rest@ == list.skip(taken).reverse(),
            crawl.wf(),
            events == seen + poly_api::gathered(crawl@, all.skip(taken)),
            error == poly_api::crawl_error(crawl@, all.skip(taken)),
            crawl.records() == crawled(seen),
            scratch@ == records::lines_of(crawled(seen)),
            all_kept(seen),
        ensures
            crawl.wf(),
            events == seen,
            error is None,
            crawl.records() == crawled(seen),
            scratch@ == records::lines_of(crawled(seen)),
            all_kept(seen),
        decreases rest@.len(),
    {
        let ghost before = seen;
        let ghost stands = crawl@;
        let page = rest.pop().unwrap();
        assert(page == list[taken]);
        assert(all.skip(taken)[0] == poly_api::page_view(page));
        assert(rest@ =~= list.skip(taken + 1).reverse());
        assert(all.skip(taken).drop_first() =~= all.skip(taken + 1));
        match crawl.accept(page) {
            Ok(bytes) => {
                let ghost written = scratch@;
                lists::append_bytes(&mut scratch, bytes.as_slice());
                proof {
                    let more = poly_api::page_view(page)->Ok_0;
                    seen = before + more;
                    assert(events =~= seen + poly_api::gathered(crawl@, all.skip(taken + 1)));
                    lemma_crawled_concat(before, more);
                    records::lemma_lines_concat(crawled(before), crawled(more));
                    assert(all_kept(seen)) by {
                        assert forall|i: int|
                            0 <= i < seen.len() && text::trimmed(seen[i].ticker).len()
                                > 0 implies is_kept(#[trigger] seen[i]) by {
                            if i < before.len() {
                                assert(seen[i] == before[i]);
                            } else {
                                assert(seen[i] == more[i - before.len()]);
                            }
                        }
                    }
                }
            },
            Err(e) => {
                proof {
                    if poly_api::page_view(page) is Ok {
                        let more = poly_api::page_view(page)->Ok_0;
                        let later = poly_api::gathered(stands.after_page(more), all.skip(taken + 1));
                        lemma_crawled_concat(before, more);
                        assert(events =~= (before + more) + later);
                        lemma_crawled_concat(before + more, later);
                        let whole = crawled(events);
                        if records::placeable(whole, 0) {
                            let n = crawled(before + more).len() as int;
                            records::lemma_placeable_prefix(whole, n, 0);
                            assert(whole.take(n) =~= crawled(before + more));
                        }
                    }
                }
                return Err(e);
            },
        }
        proof {
            taken = taken + 1;
        }
    }
    Ok(scratch)
}

/// One refresh, given the answers that a crawl gets: the new log and its snapshot.
/// The new log holds what was crawled, and what was there before and was not crawled,
/// but for what has expired. It is compacted: one record per ticker, sorted, behind a
/// meta record with the time of the refresh. `previous` is missing on a first run.
pub fn full_crawl_and_compact(
    previous: Option<(&Snapshot, &[u8])>,
    replies: Vec<Result<Vec<PolymarketEvent>, PolyMarketError>>,
    now_unix: u64,
) -> (r: Result<(Vec<u8>, Snapshot), RefreshError>)
    requires
        previous matches Some((snapshot, _)) ==> index::strictly_sorted(snapshot.entries()),
    ensures
        ({
            let events = poly_api::gathered(
                poly_api::fresh_crawl(),
                poly_api::replies_view(replies@),
            );
            let error = poly_api::crawl_error(
                poly_api::fresh_crawl(),
                poly_api::replies_view(replies@),
            );
            let crawl = crawled(events);
            match r {
                Ok((file, snapshot)) => {
                    &&& error is None
                    &&& previous is Some || crawl.len() > 0
                    &&& !exceeds(previous, events, now_unix)
                    &&& previous matches Some((before, log)) ==> records::readable(
                        log@,
                        missing(records::placed(crawl, 0), before.entries()),
                    )
                    &&& records::contents(snapshot.entries(), file@) == refreshed(
                        contents_before(previous),
                        records::by_ticker(crawl),
                        now_unix,
                    )
                    &&& file@ == compaction::compacted(
                        now_unix,
                        records::records_at(file@, snapshot.entries()),
                    )
                    &&& records::readable(file@, snapshot.entries())
                    &&& snapshot.wf()
                    &&& snapshot.built_at_unix == now_unix
                    &&& snapshot.format_version == DB_FORMAT_VERSION
                    &&& all_kept(events)
                    &&& sound_before(previous) && all_proper(events) && (all_parse(crawl)
                        || all_plain(events)) ==> compaction::reloads(file@, snapshot)
                },
                Err(RefreshError::Crawl(message)) => error == Some(message@),
                Err(RefreshError::NoEvents) => error is None && previous is None && crawl.len()
                    == 0,
                Err(RefreshError::TooLong) => exceeds(previous, events, now_unix),
                Err(RefreshError::ShortRead) => error is None && (previous matches Some(
                    (before, log),
                ) && !records::readable(
                    log@,
                    missing(records::placed(crawl, 0), before.entries()),
                )),
            }
        }),
{
    let ghost events = poly_api::gathered(
        poly_api::fresh_crawl(),
        poly_api::replies_view(replies@),
    );
    let ghost noted = crawled(events);
    let mut crawl = Crawl::new();
    let mut scratch = match run_crawl(&mut crawl, replies) {
        Ok(scratch) => scratch,
        Err(e) => {
            return Err(e);
        },
    };
    let (mut entries, length) = match crawl.finish(previous.is_none()) {
        Ok(found) => found,
        Err(e) => {
            return Err(e);
        },
    };
    let ghost new = index::views(entries@);
    proof {
        records::lemma_placed(noted, 0);
        if all_proper(events) && (all_parse(noted) || all_plain(events)) {
            lemma_crawled_named(events);
        }
    }
    match previous {
        Some((snapshot, log)) => {
            let mut offset: u64 = length;
            proof {
                lemma_missing_by_tickers(new, records::placed(noted, 0), snapshot.entries());
            }
            match merge_carry_forward(
                &mut scratch,
                &mut entries,
                snapshot,
                log,
                &mut offset,
                now_unix,
            ) {
                Ok(_) => {
                    proof {
                        lemma_scratch_readable(
                            noted,
                            new,
                            records::records_at(
                                log@,
                                carried(new, snapshot.entries(), log@, now_unix),
                            ),
                            index::views(entries@),
                        );
                        lemma_merged_contents(
                            noted,
                            new,
                            snapshot.entries(),
                            log@,
                            now_unix,
                            index::views(entries@),
                        );
                        if sound_before(previous) && records::well_named(noted) {
                            lemma_merged_named(
                                noted,
                                snapshot.entries(),
                                log@,
                                now_unix,
                                index::views(entries@),
                                scratch@,
                            );
                        }
                    }
                },
                Err(e) => {
                    return Err(e);
                },
            }
        },
        None => {
            proof {
                let log = scratch@;
                records::lemma_index_contents(new, records::placed(noted, 0), log);
                records::lemma_contents_placed(Seq::empty(), noted, Seq::empty());
                records::lemma_placed_readable(Seq::empty(), noted, Seq::empty());
                assert(Seq::<u8>::empty() + records::lines_of(noted) + Seq::<u8>::empty() =~= log);
                records::lemma_index_readable(log, new, records::placed(noted, 0));
                let nothing = records::contents(Seq::empty(), Seq::empty());
                assert forall|t: Seq<char>| !(#[trigger] nothing.dom().contains(t)) by {
                    index::lemma_absent_selects_nothing(Seq::empty(), t);
                }
                assert(nothing =~= Map::empty());
                assert(retained(nothing, now_unix).union_prefer_right(records::by_ticker(noted))
                    =~= records::by_ticker(noted));
                if records::well_named(noted) {
                    lemma_merged_named(noted, Seq::empty(), Seq::empty(), now_unix, new, log);
                }
            }
        },
    }
    let ghost merged = index::views(entries@);
    let ghost held = refreshed(contents_before(previous), records::by_ticker(noted), now_unix);
    let ghost listed = records::records_at(scratch@, merged);
    proof {
        records::lemma_records_at(scratch@, merged);
        assert forall|i: int, j: int| 0 <= i < j < listed.len() implies #[trigger] text::before(
            listed[i].ticker,
            listed[j].ticker,
        ) by {
            assert(text::before(merged[i].ticker, merged[j].ticker));
        }
        assert(lists_contents(listed, held));
    }
    match compaction::compact(scratch.as_slice(), entries, now_unix) {
        Ok(done) => {
            proof {
                assert forall|other: Seq<Record>| #[trigger] lists_contents(
                    other,
                    held,
                ) implies other == listed by {
                    lemma_listing_is_unique(other, listed, held);
                }
            }
            Ok(done)
        },
        Err(CompactError::ShortRead) => Err(RefreshError::ShortRead),
        Err(CompactError::TooLong) => Err(RefreshError::TooLong),
    }
}

/// There is only one way to list contents.
proof fn lemma_listing_is_unique(
    a: Seq<Record>,
    b: Seq<Record>,
    held: Map<Seq<char>, Seq<u8>>,
)
    requires
        lists_contents(a, held),
        lists_contents(b, held),
    ensures
        a == b,
    decreases a.len(),
{
    if a.len() == 0 {
        if b.len() > 0 {
            assert(records::by_ticker(b).dom().contains(b.last().ticker));
        }
        assert(a =~= b);
    } else {
        assert(records::by_ticker(a).dom().contains(a.last().ticker));
        if b.len() == 0 {
            assert(false);
        }
        let (x, y) = (a.last(), b.last());
        assert(records::by_ticker(b).dom().contains(y.ticker));
        records::lemma_by_ticker_from(b, x.ticker);
        records::lemma_by_ticker_from(a, y.ticker);
        let i = choose|i: int|
            0 <= i < b.len() && #[trigger] b[i].ticker == x.ticker && b[i].bytes
                == records::by_ticker(b)[x.ticker];
        let j = choose|j: int|
            0 <= j < a.len() && #[trigger] a[j].ticker == y.ticker && a[j].bytes
                == records::by_ticker(a)[y.ticker];
        if i < b.len() - 1 {
            assert(text::before(b[i].ticker, b[b.len() - 1].ticker));
            if j < a.len() - 1 {
                assert(text::before(a[j].ticker, a[a.len() - 1].ticker));
                text::lemma_before_asymmetric(x.ticker, y.ticker);
            } else {
                text::lemma_before_irreflexive(x.ticker);
            }
        }
        assert(x == y);
        let fewer = held.remove(x.ticker);
        lemma_listing_without_last(a, held);
        lemma_listing_without_last(b, held);
        lemma_listing_is_unique(a.drop_last(), b.drop_last(), fewer);
        assert(a =~= a.drop_last().push(x));
        assert(b =~= b.drop_last().push(y));
    }
}

proof fn lemma_listing_without_last(a: Seq<Record>, held: Map<Seq<char>, Seq<u8>>)
    requires
        lists_contents(a, held),
        a.len() > 0,
    ensures
        lists_contents(a.drop_last(), held.remove(a.last().ticker)),
{
    let rest = a.drop_last();
    let t = a.last().ticker;
    assert forall|i: int, j: int| 0 <= i < j < rest.len() implies #[trigger] text::before(
        rest[i].ticker,
        rest[j].ticker,
    ) by {
        assert(text::before(a[i].ticker, a[j].ticker));
    }
    if records::by_ticker(rest).dom().contains(t) {
        records::lemma_by_ticker_from(rest, t);
        let k = choose|k: int|
            0 <= k < rest.len() && #[trigger] rest[k].ticker == t && rest[k].bytes
                == records::by_ticker(rest)[t];
        assert(text::before(a[k].ticker, a[a.len() - 1].ticker));
        text::lemma_before_irreflexive(t);
    }
    assert(records::by_ticker(rest) =~= held.remove(t));
}

/// What was crawled counts.
pub proof fn law_crawl_wins(
    before: Map<Seq<char>, Seq<u8>>,
    crawl: Map<Seq<char>, Seq<u8>>,
    now_unix: u64,
    ticker: Seq<char>,
)
    requires
        crawl.dom().contains(ticker),
    ensures
        refreshed(before, crawl, now_unix).dom().contains(ticker),
        refreshed(before, crawl, now_unix)[ticker] == crawl[ticker],
{
}

/// A ticker that was not crawled keeps its record, byte for byte, until it has expired;
/// then it is gone.
pub proof fn law_unlisted_ticker_is_kept_until_expired(
    before: Map<Seq<char>, Seq<u8>>,
    crawl: Map<Seq<char>, Seq<u8>>,
    now_unix: u64,
    ticker: Seq<char>,
)
    requires
        before.dom().contains(ticker),
        !crawl.dom().contains(ticker),
    ensures
        refreshed(before, crawl, now_unix).dom().contains(ticker) <==> !expired(
            before[ticker],
            now_unix,
        ),
        !expired(before[ticker], now_unix) ==> refreshed(before, crawl, now_unix)[ticker]
            == before[ticker],
{
}

/// A refresh makes up no tickers.
pub proof fn law_refresh_invents_nothing(
    before: Map<Seq<char>, Seq<u8>>,
    crawl: Map<Seq<char>, Seq<u8>>,
    now_unix: u64,
    ticker: Seq<char>,
)
    requires
        refreshed(before, crawl, now_unix).dom().contains(ticker),
    ensures
        before.dom().contains(ticker) || crawl.dom().contains(ticker),
{
}

/// A crawl that brings nothing costs nothing, as long as nothing has expired.
pub proof fn law_empty_crawl_is_harmless(before: Map<Seq<char>, Seq<u8>>, now_unix: u64)
    requires
        forall|t: Seq<char>|
            #![trigger before[t]]
            before.dom().contains(t) ==> !expired(before[t], now_unix),
    ensures
        refreshed(before, Map::empty(), now_unix) == before,
{
    assert(refreshed(before, Map::empty(), now_unix) =~= before);
}

/// What a log holds is what is served: `get_event` hands out the record that the
/// contents have under the ticker, and nothing for any other ticker.
pub proof fn law_contents_are_served(
    snapshot: Snapshot,
    log: Seq<u8>,
    id: JsonView,
    data: JsonView,
    given: Seq<char>,
)
    requires
        records::readable(log, snapshot.entries()),
        api::required_text(data, "ticker"@) == Ok::<Seq<char>, Seq<char>>(given),
        text::trimmed(given).len() > 0,
    ensures
        ({
            let ticker = text::trimmed(given);
            let held = records::contents(snapshot.entries(), log);
            match api::get_event_plan(snapshot.entries(), id, data) {
                api::PlanView::Answer(_) => !held.dom().contains(ticker),
                api::PlanView::Read(read) => {
                    &&& held.dom().contains(ticker)
                    &&& read.entries.len() == 1
                    &&& database::record_value(log, read.entries[0]) == json::json_parsed(
                        held[ticker],
                    )
                },
            }
        }),
{
    let entries = snapshot.entries();
    let ticker = text::trimmed(given);
    let found = index::of_ticker(entries, ticker);
    if found.len() > 0 {
        assert(found.contains(found.last()));
        entries.lemma_filter_contains_rev(|e: EntryView| e.ticker == ticker, found.last());
        let k = choose|k: int| 0 <= k < entries.len() && entries[k] == found.last();
        assert(database::raw_record(log, entries[k]) is Some);
    }
}

/// A record without a readable end date never expires.
pub proof fn law_undated_record_never_expires(record: Seq<u8>, now_unix: u64)
    requires
        json::json_parsed(record) matches Ok(v) ==> (json::text_of(
            json::field(v, "endDate"@),
        ) matches Some(end_date) ==> dates::date_of(end_date) is None),
    ensures
        !expired(record, now_unix),
{
}

/// What has expired stays expired.
pub proof fn law_expiry_is_final(record: Seq<u8>, now_unix: u64, later_unix: u64)
    requires
        expired(record, now_unix),
        now_unix <= later_unix,
    ensures
        expired(record, later_unix),
{
}

// ---------------------------------------------------------------------------
// Files
// ---------------------------------------------------------------------------

/// Where a new log is written before it takes the place of `path`.
pub fn tmp_path_for(path: &str) -> (r: String)
    ensures
        r@ == path@ + ".tmp"@,
{
    path.to_owned().concat(".tmp")
}

} // verus!
