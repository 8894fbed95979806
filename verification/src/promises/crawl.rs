//! The crawl of the listing: all that is listed is gathered, past the limit on offsets,
//! and nothing that is cut off passes for the end.

use crate::json;
use crate::json::JsonView;
use crate::poly_api;
use crate::poly_api::{CrawlView, EventView, FetchEventsParams};
use crate::promises::documents;
use crate::text;
use vstd::prelude::*;

verus! {

/// A crawl goes on until it is finished or has used up its passes, and no further.
pub proof fn law_crawl_goes_on(crawl: CrawlView)
    ensures
        crawl.wants_page() <==> !crawl.finished && crawl.pass_count < crawl.max_iterations,
{
}

/// The request that follows a page asks for what follows it: for the next offset, or,
/// where the pass has reached its limit, for the first events from the last end date on.
/// Only where that date does not move, the crawl stops.
pub proof fn law_next_request_follows(crawl: CrawlView, page: Seq<EventView>)
    requires
        !crawl.finished,
        page.len() > 0,
        crawl.pass_count < u32::MAX,
    ensures
        ({
            let next = crawl.after(Ok(page));
            let reached = crawl.offset + page.len();
            &&& next.page_limit == crawl.page_limit
            &&& next.cursor_cap == crawl.cursor_cap
            &&& next.max_iterations == crawl.max_iterations
            &&& if reached < crawl.cursor_cap {
                &&& !next.finished
                &&& next.offset == reached
                &&& next.boundary == crawl.boundary
                &&& next.pass_count == crawl.pass_count
            } else if page.last().end_date is Some && page.last().end_date != crawl.boundary {
                &&& !next.finished
                &&& next.offset == 0
                &&& next.boundary == page.last().end_date
                &&& next.pass_count == crawl.pass_count + 1
            } else {
                next.finished
            }
        }),
{
}

/// An empty page and an error end a crawl.
pub proof fn law_crawl_ends(crawl: CrawlView, message: Seq<char>)
    ensures
        crawl.after(Ok(Seq::empty())).finished,
        crawl.after(Err(message)).finished,
{
}

/// A crawl after these answers.
pub open spec fn reached(
    crawl: CrawlView,
    replies: Seq<Result<Seq<EventView>, Seq<char>>>,
) -> CrawlView
    decreases replies.len(),
{
    if replies.len() == 0 {
        crawl
    } else {
        reached(crawl, replies.drop_last()).after(replies.last())
    }
}

/// No page reaches beyond the offset that the listing stops at.
pub proof fn law_offsets_stay_within_the_limit(replies: Seq<Result<Seq<EventView>, Seq<char>>>)
    ensures
        ({
            let crawl = reached(poly_api::fresh_crawl(), replies);
            crawl.offset + crawl.page_limit <= 2100
        }),
{
    lemma_reached(replies);
}

proof fn lemma_reached(replies: Seq<Result<Seq<EventView>, Seq<char>>>)
    ensures
        ({
            let crawl = reached(poly_api::fresh_crawl(), replies);
            &&& crawl.page_limit == 100
            &&& crawl.cursor_cap == 2000
            &&& crawl.offset < 2000
        }),
    decreases replies.len(),
{
    if replies.len() > 0 {
        lemma_reached(replies.drop_last());
    }
}

// ---------------------------------------------------------------------------
// Gathering
// ---------------------------------------------------------------------------

/// The events of the pages, in a row.
pub open spec fn in_a_row(pages: Seq<Seq<EventView>>) -> Seq<EventView>
    decreases pages.len(),
{
    if pages.len() == 0 {
        Seq::empty()
    } else {
        pages[0] + in_a_row(pages.drop_first())
    }
}

/// How many events the first `n` pages hold.
pub open spec fn count(pages: Seq<Seq<EventView>>, n: int) -> int
    decreases n,
{
    if n <= 0 {
        0
    } else {
        count(pages, n - 1) + pages[n - 1].len()
    }
}

/// A listing that a crawl can get through: no page is empty, and the end dates move on.
/// Whatever page a pass may end with has an end date, and another one than the page that
/// the pass before it may have ended with, two thousand events earlier at least. There
/// are fewer events than fifty such passes hold.
pub open spec fn can_be_crawled(pages: Seq<Seq<EventView>>) -> bool {
    &&& forall|i: int| 0 <= i < pages.len() ==> (#[trigger] pages[i]).len() > 0
    &&& forall|i: int|
        0 <= i < pages.len() && count(pages, i + 1) >= 2000 ==> (
        #[trigger] pages[i]).last().end_date is Some
    &&& forall|i: int, j: int|
        0 <= i < j < pages.len() && count(pages, j + 1) - count(pages, i + 1) >= 2000 ==> (
        #[trigger] pages[i]).last().end_date != (#[trigger] pages[j]).last().end_date
    &&& count(pages, pages.len() as int) < 100_000
}

/// The answers that bring these pages.
pub open spec fn answers(pages: Seq<Seq<EventView>>) -> Seq<Result<Seq<EventView>, Seq<char>>> {
    pages.map_values(|page: Seq<EventView>| Ok::<Seq<EventView>, Seq<char>>(page))
}

proof fn lemma_count_grows(pages: Seq<Seq<EventView>>, a: int, b: int)
    requires
        0 <= a <= b,
    ensures
        0 <= count(pages, a) <= count(pages, b),
    decreases b,
{
    if a < b {
        lemma_count_grows(pages, a, b - 1);
    } else if b > 0 {
        lemma_count_grows(pages, a - 1, b - 1);
    }
}

/// What is gathered from the `k`th page on, where the pass started behind the first `b`
/// pages.
proof fn lemma_gathered(
    crawl: CrawlView,
    pages: Seq<Seq<EventView>>,
    k: int,
    b: int,
    rest: Seq<Result<Seq<EventView>, Seq<char>>>,
)
    requires
        can_be_crawled(pages),
        0 <= b <= k <= pages.len(),
        !crawl.finished,
        crawl.cursor_cap == 2000,
        crawl.max_iterations == 50,
        crawl.offset == count(pages, k) - count(pages, b),
        crawl.offset < 2000,
        crawl.pass_count * 2000 <= count(pages, b),
        crawl.boundary == if b == 0 {
            None
        } else {
            pages[b - 1].last().end_date
        },
        rest.len() > 0,
        rest[0] == Ok::<Seq<EventView>, Seq<char>>(Seq::empty()) || rest[0] is Err,
    ensures
        poly_api::gathered(crawl, answers(pages).skip(k) + rest) == in_a_row(pages.skip(k)),
        poly_api::crawl_error(crawl, answers(pages).skip(k) + rest) == match rest[0] {
            Ok(_) => None,
            Err(message) => Some(message),
        },
    decreases pages.len() - k,
{
    let replies = answers(pages).skip(k) + rest;
    lemma_count_grows(pages, b, pages.len() as int);
    if k == pages.len() {
        assert(replies =~= rest);
        assert(pages.skip(k) =~= Seq::empty());
        if rest[0] is Ok {
            let next = crawl.after_page(Seq::empty());
            assert(!next.wants_page());
            assert(poly_api::gathered(next, rest.drop_first()) =~= Seq::empty());
            assert(poly_api::crawl_error(next, rest.drop_first()) is None);
            assert(crawl.wants_page());
        }
        assert(poly_api::gathered(crawl, replies) =~= Seq::empty());
    } else {
        let page = pages[k];
        let next = crawl.after_page(page);
        assert(replies[0] == answers(pages)[k]);
        assert(replies.drop_first() =~= answers(pages).skip(k + 1) + rest);
        assert(pages.skip(k).drop_first() =~= pages.skip(k + 1));
        assert(count(pages, k + 1) == count(pages, k) + page.len());
        lemma_count_grows(pages, k + 1, pages.len() as int);
        assert(crawl.wants_page());
        if crawl.offset + page.len() < 2000 {
            lemma_gathered(next, pages, k + 1, b, rest);
        } else {
            lemma_count_grows(pages, 0, b);
            assert(count(pages, k + 1) >= 2000);
            assert(pages[k].last().end_date is Some);
            if b > 0 {
                assert(pages[b - 1].last().end_date != pages[k].last().end_date);
            }
            lemma_gathered(next, pages, k + 1, k + 1, rest);
        }
    }
}

/// All events of a listing are gathered, in order, however many passes it takes, up to the
/// empty page that ends the listing. What is answered after that does not count.
pub proof fn law_everything_listed_is_gathered(
    pages: Seq<Seq<EventView>>,
    later: Seq<Result<Seq<EventView>, Seq<char>>>,
)
    requires
        can_be_crawled(pages),
    ensures
        ({
            let end = seq![Ok::<Seq<EventView>, Seq<char>>(Seq::empty())];
            let replies = answers(pages) + end + later;
            &&& poly_api::gathered(poly_api::fresh_crawl(), replies) == in_a_row(pages)
            &&& poly_api::crawl_error(poly_api::fresh_crawl(), replies) is None
        }),
{
    let end = seq![Ok::<Seq<EventView>, Seq<char>>(Seq::empty())];
    lemma_gathered(poly_api::fresh_crawl(), pages, 0, 0, end + later);
    assert(answers(pages).skip(0) + (end + later) =~= answers(pages) + end + later);
    assert(pages.skip(0) =~= pages);
}

/// A crawl that is cut off by an error says so.
pub proof fn law_cut_off_crawl_is_an_error(
    pages: Seq<Seq<EventView>>,
    message: Seq<char>,
    later: Seq<Result<Seq<EventView>, Seq<char>>>,
)
    requires
        can_be_crawled(pages),
    ensures
        ({
            let end = seq![Err::<Seq<EventView>, Seq<char>>(message)];
            let replies = answers(pages) + end + later;
            &&& poly_api::gathered(poly_api::fresh_crawl(), replies) == in_a_row(pages)
            &&& poly_api::crawl_error(poly_api::fresh_crawl(), replies) == Some(message)
        }),
{
    let end = seq![Err::<Seq<EventView>, Seq<char>>(message)];
    lemma_gathered(poly_api::fresh_crawl(), pages, 0, 0, end + later);
    assert(answers(pages).skip(0) + (end + later) =~= answers(pages) + end + later);
    assert(pages.skip(0) =~= pages);
}

// ---------------------------------------------------------------------------
// Pages
// ---------------------------------------------------------------------------

/// The item is an event: an object with a ticker, and with a text as its end date if it has
/// one.
pub open spec fn is_event(item: JsonView) -> bool {
    &&& documents::at(item, "ticker"@) matches Some(ticker) && ticker is Str
    &&& documents::at(item, "endDate"@) matches Some(date) ==> date is Null || date is Str
}

/// The event is this item: its ticker and its end date by name, and all else as it was.
pub open spec fn is_item(event: EventView, item: JsonView) -> bool {
    &&& documents::at(item, "ticker"@) == Some(JsonView::Str(event.ticker))
    &&& match event.end_date {
        Some(date) => documents::at(item, "endDate"@) == Some(JsonView::Str(date)),
        None => documents::at(item, "endDate"@) is None || documents::at(item, "endDate"@) == Some(JsonView::Null),
    }
    &&& forall|key: Seq<char>|
        key != "ticker"@ && key != "endDate"@ ==> #[trigger] documents::at(
            JsonView::Object(event.extra),
            key,
        ) == documents::at(item, key)
    &&& !event.extra.dom().contains("ticker"@)
    &&& !event.extra.dom().contains("endDate"@)
}

/// Every event on a page is taken, in the order of the page, and nothing else is.
pub proof fn law_page_brings_its_events(items: Seq<JsonView>)
    ensures
        ({
            let events = poly_api::events_among(items);
            let listed = items.filter(|item: JsonView| is_event(item));
            &&& events.len() == listed.len()
            &&& forall|i: int| 0 <= i < events.len() ==> is_item(#[trigger] events[i], listed[i])
        }),
    decreases items.len(),
{
    let keep = |item: JsonView| is_event(item);
    reveal(Seq::filter);
    if items.len() > 0 {
        let rest = items.drop_last();
        law_page_brings_its_events(rest);
        let last = items.last();
        if let Some(event) = poly_api::event_of(last) {
            assert forall|key: Seq<char>| key != "ticker"@ && key != "endDate"@ implies #[trigger] documents::at(
                JsonView::Object(event.extra),
                key,
            ) == documents::at(last, key) by {}
            assert(is_item(event, last));
        }
    }
}

/// The body of an answer brings the events of its list. A body that is no list, or no
/// JSON, is an error, never an empty page.
pub proof fn law_body_is_a_page_or_an_error(offset: u32, limit: u32, body: Seq<u8>)
    ensures
        match json::json_parsed(body) {
            Ok(JsonView::Array(items)) => poly_api::page_in(offset, limit, body) == Ok::<
                Seq<EventView>,
                Seq<char>,
            >(poly_api::events_among(items)),
            _ => poly_api::page_in(offset, limit, body) is Err,
        },
{
}

/// A flag of a query.
pub open spec fn yes_or_no(flag: bool) -> Seq<char> {
    if flag {
        "true"@
    } else {
        "false"@
    }
}

/// A request asks for what its parameters say, and for a first end date only where they
/// name one.
pub proof fn law_query_asks_for_the_parameters(params: FetchEventsParams)
    ensures
        ({
            let query = poly_api::query_of(params);
            &&& query.contains(("order"@, params.order@))
            &&& query.contains(("ascending"@, yes_or_no(params.ascending)))
            &&& query.contains(("closed"@, yes_or_no(params.closed)))
            &&& query.contains(("limit"@, text::decimal(params.limit as nat)))
            &&& query.contains(("offset"@, text::decimal(params.offset as nat)))
            &&& match params.end_date_min {
                Some(date) => query.len() == 6 && query.contains(("end_date_min"@, date@)),
                None => query.len() == 5,
            }
        }),
{
    let query = poly_api::query_of(params);
    assert(query[0] == ("order"@, params.order@));
    assert(query[1] == ("ascending"@, yes_or_no(params.ascending)));
    assert(query[2] == ("closed"@, yes_or_no(params.closed)));
    assert(query[3] == ("limit"@, text::decimal(params.limit as nat)));
    assert(query[4] == ("offset"@, text::decimal(params.offset as nat)));
    if let Some(date) = params.end_date_min {
        assert(query[5] == ("end_date_min"@, date@));
    }
}

// ---------------------------------------------------------------------------
// Keeping events
// ---------------------------------------------------------------------------

/// The `i`th event is the last of its ticker.
pub open spec fn is_last_of_ticker(events: Seq<EventView>, i: int) -> bool {
    &&& 0 <= i < events.len()
    &&& forall|j: int| i < j < events.len() ==> #[trigger] events[j].ticker != events[i].ticker
}

/// The cache holds the last event of each ticker that was gathered, and nothing else.
pub proof fn law_cache_holds_the_last_events(events: Seq<EventView>, ticker: Seq<char>)
    ensures
        ({
            let cache = poly_api::cached(Map::empty(), events);
            &&& forall|i: int| #[trigger]
                is_last_of_ticker(events, i) && events[i].ticker == ticker
                    ==> cache.dom().contains(ticker) && cache[ticker] == events[i]
            &&& cache.dom().contains(ticker) ==> exists|i: int| #[trigger]
                is_last_of_ticker(events, i) && events[i].ticker == ticker
        }),
    decreases events.len(),
{
    let cache = poly_api::cached(Map::empty(), events);
    if events.len() > 0 {
        let rest = events.drop_last();
        let n = events.len() - 1;
        law_cache_holds_the_last_events(rest, ticker);
        let before = poly_api::cached(Map::empty(), rest);
        if events[n].ticker == ticker {
            assert(is_last_of_ticker(events, n));
            assert forall|i: int| #[trigger]
                is_last_of_ticker(events, i) && events[i].ticker == ticker implies i == n by {
                if i < n {
                    assert(events[n].ticker != events[i].ticker);
                }
            }
        } else {
            assert forall|i: int| #[trigger]
                is_last_of_ticker(events, i) && events[i].ticker
                    == ticker implies cache.dom().contains(ticker) && cache[ticker]
                == events[i] by {
                assert(rest[i] == events[i]);
                assert forall|j: int| i < j < rest.len() implies #[trigger] rest[j].ticker
                    != rest[i].ticker by {
                    assert(events[j].ticker != events[i].ticker);
                }
                assert(is_last_of_ticker(rest, i));
            }
            if cache.dom().contains(ticker) {
                let i = choose|i: int| #[trigger]
                    is_last_of_ticker(rest, i) && rest[i].ticker == ticker;
                assert forall|j: int| i < j < events.len() implies #[trigger] events[j].ticker
                    != events[i].ticker by {
                    if j < n {
                        assert(rest[j].ticker != rest[i].ticker);
                    }
                }
                assert(is_last_of_ticker(events, i));
            }
        }
    }
}

/// The text of a pair of an object.
pub open spec fn pair_text(key: Seq<char>, value: JsonView) -> Seq<char> {
    json::json_text(JsonView::Str(key)) + seq![':'] + json::json_text(value)
}

/// An event is written with its ticker first, then its end date, which is `null` where
/// there is none, and then everything else, each key once, in the order of the keys.
pub proof fn law_event_is_written_in_full(
    event: EventView,
    others: Seq<(Seq<char>, JsonView)>,
)
    requires
        forall|i: int, j: int|
            0 <= i < j < others.len() ==> #[trigger] text::before(others[i].0, others[j].0),
        forall|i: int|
            0 <= i < others.len() ==> documents::at(
                JsonView::Object(event.extra),
                (#[trigger] others[i]).0,
            ) == Some(others[i].1),
        forall|key: Seq<char>| #[trigger]
            event.extra.dom().contains(key) ==> exists|i: int|
                0 <= i < others.len() && #[trigger] others[i].0 == key,
    ensures
        ({
            let date = match event.end_date {
                Some(date) => JsonView::Str(date),
                None => JsonView::Null,
            };
            poly_api::event_text(event) == seq!['{'] + pair_text(
                "ticker"@,
                JsonView::Str(event.ticker),
            ) + seq![','] + pair_text("endDate"@, date) + others_text(others) + seq!['}']
        }),
{
    let date = match event.end_date {
        Some(date) => JsonView::Str(date),
        None => JsonView::Null,
    };
    json::lemma_key_ordered(others, event.extra);
    let named = poly_api::named_pairs(event);
    lemma_members(named, others);
    reveal_strlit("{");
    reveal_strlit("}");
    reveal_strlit(":");
    reveal_strlit(",");
    assert("{"@ =~= seq!['{']);
    assert("}"@ =~= seq!['}']);
    assert(":"@ =~= seq![':']);
    assert(","@ =~= seq![',']);
    reveal_with_fuel(json::members_text, 3);
    assert(named.drop_last() =~= seq![named[0]]);
    assert(json::members_text(named) == json::member_text(named[0]) + ","@ + json::member_text(
        named[1],
    ));
    assert(poly_api::event_text(event) =~= seq!['{'] + pair_text(
        "ticker"@,
        JsonView::Str(event.ticker),
    ) + seq![','] + pair_text("endDate"@, date) + others_text(others) + seq!['}']);
}

/// Pairs that follow others, each behind a comma.
pub open spec fn others_text(others: Seq<(Seq<char>, JsonView)>) -> Seq<char>
    decreases others.len(),
{
    if others.len() == 0 {
        Seq::empty()
    } else {
        others_text(others.drop_last()) + seq![','] + pair_text(others.last().0, others.last().1)
    }
}

proof fn lemma_members(named: Seq<(Seq<char>, JsonView)>, others: Seq<(Seq<char>, JsonView)>)
    requires
        named.len() == 2,
    ensures
        json::members_text(named + others) == json::members_text(named) + others_text(others),
    decreases others.len(),
{
    reveal_strlit(":");
    reveal_strlit(",");
    assert(":"@ =~= seq![':']);
    assert(","@ =~= seq![',']);
    if others.len() == 0 {
        assert(named + others =~= named);
        assert(json::members_text(named) + others_text(others) =~= json::members_text(named));
    } else {
        lemma_members(named, others.drop_last());
        let all = named + others;
        assert(all.drop_last() =~= named + others.drop_last());
        assert(all.last() == others.last());
        assert(json::members_text(all) =~= json::members_text(named) + others_text(others));
    }
}

// ---------------------------------------------------------------------------
// Messages
// ---------------------------------------------------------------------------

/// An answer that is no JSON is told with the reader's message, and one that is no list
/// with the page that was asked for and the answer itself.
pub proof fn law_bad_answers_are_told(offset: u32, limit: u32, body: Seq<u8>)
    ensures
        match json::json_parsed(body) {
            Err(message) => poly_api::page_in(offset, limit, body) == Err::<
                Seq<EventView>,
                Seq<char>,
            >("Gamma /events returned invalid JSON: "@ + ("json: "@ + message)),
            Ok(JsonView::Array(_)) => true,
            Ok(answer) => poly_api::page_in(offset, limit, body) == Err::<
                Seq<EventView>,
                Seq<char>,
            >(
                "Gamma /events returned a non-list response (offset="@ + text::decimal(
                    offset as nat,
                ) + ", limit="@ + text::decimal(limit as nat) + "): "@ + json::json_debug(answer),
            ),
        },
{
}

/// The document of an event holds what the listed item held, under the same keys; an end
/// date that the item does not name is there as `null`.
pub proof fn law_event_document_is_its_item(event: EventView, item: JsonView, key: Seq<char>)
    requires
        is_item(event, item),
    ensures
        ({
            let doc = poly_api::event_json(event);
            if key == "endDate"@ && documents::at(item, key) is None {
                documents::at(doc, key) == Some(JsonView::Null)
            } else {
                documents::at(doc, key) == documents::at(item, key)
            }
        }),
{
    reveal_strlit("ticker");
    reveal_strlit("endDate");
    assert("ticker"@.len() != "endDate"@.len());
    let others = documents::at(JsonView::Object(event.extra), key);
    if key != "ticker"@ && key != "endDate"@ {
        assert(others == documents::at(item, key));
    }
}

} // verus!
