//! The crawl of Gamma's event listing: what to ask for, what an answer holds, and when
//! the crawl is over.

use crate::index;
use crate::json;
use crate::json::{Json, JsonView};
use crate::lists;
use crate::text;
use vstd::hash_map::StringHashMap;
use vstd::prelude::*;

verus! {

/// Where the events are listed.
pub const EVENTS_ENDPOINT: &'static str = "https://gamma-api.polymarket.com/events";

/// Why a page of events could not be had.
#[derive(Debug)]
pub struct PolyMarketError(String);

impl PolyMarketError {
    pub closed spec fn view(&self) -> Seq<char> {
        self.0@
    }

    /// The message.
    pub fn message(&self) -> (r: &str)
        ensures
            r@ == self@,
    {
        self.0.as_str()
    }
}

// ---------------------------------------------------------------------------
// Events
// ---------------------------------------------------------------------------

/// An event. Only the fields that are read here are named; the others travel along in
/// `extra`.
#[derive(Debug)]
pub struct PolymarketEvent {
    pub ticker: String,
    pub end_date: Option<String>,
    pub extra: Vec<(String, Json)>,
}

/// The content of an event.
pub struct EventView {
    pub ticker: Seq<char>,
    pub end_date: Option<Seq<char>>,
    pub extra: Map<Seq<char>, JsonView>,
}

impl PolymarketEvent {
    pub open spec fn view(&self) -> EventView {
        EventView {
            ticker: self.ticker@,
            end_date: index::owned_view(self.end_date),
            extra: json::fields_view(self.extra@),
        }
    }
}

impl Clone for PolymarketEvent {
    fn clone(&self) -> (copy: PolymarketEvent)
        ensures
            copy@ == self@,
    {
        PolymarketEvent {
            ticker: self.ticker.clone(),
            end_date: match &self.end_date {
                Some(date) => Some(date.clone()),
                None => None,
            },
            extra: json::clone_fields(&self.extra),
        }
    }
}

/// The end date that an event states: a string, or none where it is missing or `null`.
pub open spec fn stated_end_date(item: JsonView) -> Option<Option<Seq<char>>> {
    match json::field(item, "endDate"@) {
        None => Some(None),
        Some(JsonView::Null) => Some(None),
        Some(JsonView::Str(s)) => Some(Some(s)),
        _ => None,
    }
}

/// The event that a list item describes: an object with a string `ticker`.
pub open spec fn event_of(item: JsonView) -> Option<EventView> {
    match (json::text_of(json::field(item, "ticker"@)), stated_end_date(item)) {
        (Some(ticker), Some(end_date)) => Some(
            EventView {
                ticker,
                end_date,
                extra: item->Object_0.remove("ticker"@).remove("endDate"@),
            },
        ),
        _ => None,
    }
}

/// The events among list items; what describes no event is left out.
pub open spec fn events_among(items: Seq<JsonView>) -> Seq<EventView>
    decreases items.len(),
{
    if items.len() == 0 {
        Seq::empty()
    } else {
        match event_of(items.last()) {
            Some(event) => events_among(items.drop_last()).push(event),
            None => events_among(items.drop_last()),
        }
    }
}

/// What travels along with an event names neither its ticker nor its end date again.
pub open spec fn is_proper(event: EventView) -> bool {
    !event.extra.dom().contains("ticker"@) && !event.extra.dom().contains("endDate"@)
}

/// The pairs of an event that are named.
pub open spec fn named_pairs(event: EventView) -> Seq<(Seq<char>, JsonView)> {
    seq![
        ("ticker"@, JsonView::Str(event.ticker)),
        ("endDate"@, json::optional_text(event.end_date)),
    ]
}

/// An event as compact JSON text: what is named comes first, and then what travels
/// along, by key.
pub open spec fn event_text(event: EventView) -> Seq<char> {
    json::object_text(named_pairs(event) + json::key_ordered(event.extra))
}

/// An event as a JSON object.
pub open spec fn event_json(event: EventView) -> JsonView {
    JsonView::Object(
        event.extra.insert("ticker"@, JsonView::Str(event.ticker)).insert(
            "endDate"@,
            json::optional_text(event.end_date),
        ),
    )
}

/// The contents of events.
pub open spec fn events_view(events: Seq<PolymarketEvent>) -> Seq<EventView> {
    events.map_values(|e: PolymarketEvent| e@)
}

/// The pairs of an object without those of two keys.
fn without(fields: Vec<(String, Json)>, first: &str, second: &str) -> (r: Vec<(String, Json)>)
    ensures
        json::fields_view(r@) == json::fields_view(fields@).remove(first@).remove(second@),
{
    let ghost all = fields@;
    let ghost mut taken: int = 0;
    let mut rest = lists::reversed(fields);
    let mut r: Vec<(String, Json)> = Vec::new();
    assert(all.take(0) =~= Seq::empty());
    assert(json::fields_view(r@) =~= json::fields_view(all.take(0)).remove(first@).remove(second@));
    while rest.len() > 0
        invariant
            0 <= taken <= all.len(),
            rest@ == all.skip(taken).reverse(),
            json::fields_view(r@) == json::fields_view(all.take(taken)).remove(first@).remove(
                second@,
            ),
        decreases rest@.len(),
    {
        let ghost done = r@;
        let (key, value) = rest.pop().unwrap();
        assert((key, value) == all[taken]);
        assert(rest@ =~= all.skip(taken + 1).reverse());
        assert(all.take(taken + 1).drop_last() =~= all.take(taken));
        assert(all.take(taken + 1).last() == all[taken]);
        if !text::same(key.as_str(), first) && !text::same(key.as_str(), second) {
            r.push((key, value));
            assert(r@.drop_last() =~= done);
        }
        assert(json::fields_view(r@) =~= json::fields_view(all.take(taken + 1)).remove(
            first@,
        ).remove(second@));
        proof {
            taken = taken + 1;
        }
    }
    assert(all.take(taken) =~= all);
    r
}

impl PolymarketEvent {
    /// Reads an event out of a list item.
    pub fn from_json(item: Json) -> (r: Option<PolymarketEvent>)
        ensures
            match r {
                Some(event) => event_of(item@) == Some(event@),
                None => event_of(item@) is None,
            },
    {
        let ticker = match item.get_str("ticker") {
            Some(s) => s.to_owned(),
            None => {
                return None;
            },
        };
        let end_date = match item.get("endDate") {
            None => None,
            Some(Json::Null) => None,
            Some(Json::Str(s)) => Some(s.clone()),
            Some(_) => {
                return None;
            },
        };
        match item {
            Json::Object(fields) => {
                let extra = without(fields, "ticker", "endDate");
                Some(PolymarketEvent { ticker, end_date, extra })
            },
            _ => None,
        }
    }

    /// The event as compact JSON text, on one line.
    pub fn render(self) -> (text: String)
        ensures
            text@ == event_text(self@),
            json::one_line(text@),
            is_proper(self@) ==> json::reads_back(text@, event_json(self@)),
    {
        let ghost event = self@;
        let extra = Json::Object(self.extra);
        let sorted = match extra.by_key() {
            Some(sorted) => sorted,
            None => Vec::new(),
        };
        let ghost order = json::pairs_view(sorted@);
        let mut pairs: Vec<(String, Json)> = Vec::new();
        pairs.push(("ticker".to_owned(), Json::Str(self.ticker)));
        pairs.push(("endDate".to_owned(), json::optional_text_value(self.end_date)));
        let mut i: usize = 0;
        assert(json::list_view(pairs@) =~= named_pairs(event) + order.take(0));
        while i < sorted.len()
            invariant
                i <= sorted@.len(),
                order == json::pairs_view(sorted@),
                json::list_view(pairs@) == named_pairs(event) + order.take(i as int),
            decreases sorted@.len() - i,
        {
            let ghost done = pairs@;
            assert(order[i as int] == (sorted@[i as int].0@, sorted@[i as int].1@));
            pairs.push((sorted[i].0.to_owned(), sorted[i].1.clone()));
            assert(json::list_view(pairs@) =~= json::list_view(done).push(order[i as int]));
            assert(named_pairs(event) + order.take(i + 1) =~= (named_pairs(event) + order.take(
                i as int,
            )).push(order[i as int]));
            i = i + 1;
        }
        proof {
            assert(order.take(i as int) =~= order);
            json::lemma_key_ordered(order, event.extra);
            if is_proper(event) {
                lemma_event_pairs(event, order);
            }
        }
        json::render_pairs(pairs)
    }
}

/// The pairs of an event that has no other `ticker` and `endDate` are those of its
/// object.
proof fn lemma_event_pairs(event: EventView, order: Seq<(Seq<char>, JsonView)>)
    requires
        is_proper(event),
        json::in_key_order(order, event.extra),
    ensures
        json::distinct_keys(named_pairs(event) + order),
        json::map_of(named_pairs(event) + order) == event_json(event)->Object_0,
{
    reveal_strlit("ticker");
    reveal_strlit("endDate");
    assert("ticker"@.len() != "endDate"@.len());
    let pairs = named_pairs(event) + order;
    let fields = event_json(event)->Object_0;
    assert forall|i: int, j: int| 0 <= i < j < pairs.len() implies pairs[i].0 != pairs[j].0 by {
        if i >= 2 {
            assert(text::before(order[i - 2].0, order[j - 2].0));
            text::lemma_before_irreflexive(order[i - 2].0);
        } else if j >= 2 {
            assert(event.extra.dom().contains(order[j - 2].0));
        }
    }
    json::lemma_map_of(pairs);
    assert forall|k: Seq<char>| #[trigger] json::map_of(pairs).dom().contains(k)
        <==> fields.dom().contains(k) by {
        if json::map_of(pairs).dom().contains(k) {
            let i = choose|i: int| 0 <= i < pairs.len() && #[trigger] pairs[i].0 == k;
            if i >= 2 {
                assert(event.extra.dom().contains(order[i - 2].0));
            }
        }
        if fields.dom().contains(k) {
            if k == "ticker"@ {
                assert(pairs[0].0 == k);
            } else if k == "endDate"@ {
                assert(pairs[1].0 == k);
            } else {
                assert(event.extra.dom().contains(k));
                let i = choose|i: int| 0 <= i < order.len() && #[trigger] order[i].0 == k;
                assert(pairs[i + 2].0 == k);
            }
        }
    }
    assert forall|k: Seq<char>| #[trigger] json::map_of(pairs).dom().contains(k) implies json::map_of(
        pairs,
    )[k] == fields[k] by {
        let i = choose|i: int| 0 <= i < pairs.len() && #[trigger] pairs[i].0 == k;
        assert(json::map_of(pairs)[pairs[i].0] == pairs[i].1);
        if i >= 2 {
            assert(event.extra.dom().contains(order[i - 2].0));
            assert(event.extra[order[i - 2].0] == order[i - 2].1);
        } else if i == 0 {
            assert(k == "ticker"@);
        } else {
            assert(k == "endDate"@);
        }
    }
    assert(json::map_of(pairs) =~= fields);
}

/// An event that was taken from a listing has no other `ticker` and `endDate`.
pub proof fn law_listed_events_are_proper(items: Seq<JsonView>, i: int)
    requires
        0 <= i < events_among(items).len(),
    ensures
        is_proper(events_among(items)[i]),
    decreases items.len(),
{
    let rest = items.drop_last();
    if i < events_among(rest).len() {
        law_listed_events_are_proper(rest, i);
    }
}

/// An event that has been written reads back as the same event.
pub proof fn law_event_survives_its_json(event: EventView)
    requires
        is_proper(event),
    ensures
        event_of(event_json(event)) == Some(event),
{
    reveal_strlit("ticker");
    reveal_strlit("endDate");
    assert("ticker"@.len() != "endDate"@.len());
    let fields = event_json(event)->Object_0;
    assert(fields.remove("ticker"@).remove("endDate"@) =~= event.extra);
}

/// Reading an event and writing it again changes nothing, but that an end date that
/// was not stated is written as `null`.
pub proof fn law_json_survives_its_event(item: JsonView)
    requires
        event_of(item) is Some,
    ensures
        event_json(event_of(item)->0) == JsonView::Object(
            item->Object_0.insert(
                "endDate"@,
                match json::field(item, "endDate"@) {
                    Some(stated) => stated,
                    None => JsonView::Null,
                },
            ),
        ),
{
    reveal_strlit("ticker");
    reveal_strlit("endDate");
    assert("ticker"@.len() != "endDate"@.len());
    let stated = match json::field(item, "endDate"@) {
        Some(stated) => stated,
        None => JsonView::Null,
    };
    assert(event_json(event_of(item)->0)->Object_0 =~= item->Object_0.insert("endDate"@, stated));
}

// ---------------------------------------------------------------------------
// Requests
// ---------------------------------------------------------------------------

/// Which events to ask for.
pub struct FetchEventsParams<'a> {
    pub offset: u32,
    pub limit: u32,
    pub order: &'a str,
    pub ascending: bool,
    pub closed: bool,
    pub end_date_min: Option<&'a str>,
}

impl<'a> Default for FetchEventsParams<'a> {
    fn default() -> (r: FetchEventsParams<'a>)
        ensures
            r.offset == 0,
            r.limit == 100,
            r.order@ == "id"@,
            !r.ascending,
            !r.closed,
            r.end_date_min is None,
    {
        FetchEventsParams {
            offset: 0,
            limit: 100,
            order: "id",
            ascending: false,
            closed: false,
            end_date_min: None,
        }
    }
}

pub open spec fn flag_text(flag: bool) -> Seq<char> {
    if flag {
        "true"@
    } else {
        "false"@
    }
}

/// The query of a request, in order.
pub open spec fn query_of(params: FetchEventsParams) -> Seq<(Seq<char>, Seq<char>)> {
    let always = seq![
        ("order"@, params.order@),
        ("ascending"@, flag_text(params.ascending)),
        ("closed"@, flag_text(params.closed)),
        ("limit"@, text::decimal(params.limit as nat)),
        ("offset"@, text::decimal(params.offset as nat)),
    ];
    match params.end_date_min {
        Some(end_date_min) => always.push(("end_date_min"@, end_date_min@)),
        None => always,
    }
}

/// The contents of a query.
pub open spec fn query_view(query: Seq<(&str, String)>) -> Seq<(Seq<char>, Seq<char>)> {
    query.map_values(|pair: (&str, String)| (pair.0@, pair.1@))
}

fn flag(value: bool) -> (r: String)
    ensures
        r@ == flag_text(value),
{
    if value {
        "true".to_owned()
    } else {
        "false".to_owned()
    }
}

impl<'a> FetchEventsParams<'a> {
    /// The query of the request, in order.
    pub fn query(&self) -> (r: Vec<(&'static str, String)>)
        ensures
            query_view(r@) == query_of(*self),
    {
        let mut r: Vec<(&'static str, String)> = Vec::new();
        r.push(("order", self.order.to_owned()));
        r.push(("ascending", flag(self.ascending)));
        r.push(("closed", flag(self.closed)));
        r.push(("limit", text::number_text(self.limit as u64)));
        r.push(("offset", text::number_text(self.offset as u64)));
        if let Some(end_date_min) = self.end_date_min {
            r.push(("end_date_min", end_date_min.to_owned()));
        }
        assert(query_view(r@) =~= query_of(*self));
        r
    }
}

// ---------------------------------------------------------------------------
// Answers
// ---------------------------------------------------------------------------

/// What a request that got no answer fails with.
pub open spec fn request_failed(message: Seq<char>) -> Seq<char> {
    "Gamma /events request failed: "@ + message
}

/// What an answer whose body is no JSON, or cannot be read, fails with.
pub open spec fn invalid_json(message: Seq<char>) -> Seq<char> {
    "Gamma /events returned invalid JSON: "@ + message
}

/// What an answer that is no list fails with. Beyond its offset limit Gamma answers
/// with an object, which must not pass for the end of the listing.
pub open spec fn non_list(offset: u32, limit: u32, payload: JsonView) -> Seq<char> {
    "Gamma /events returned a non-list response (offset="@ + text::decimal(offset as nat)
        + ", limit="@ + text::decimal(limit as nat) + "): "@ + json::json_debug(payload)
}

/// What a parsed answer holds.
pub open spec fn page_of(offset: u32, limit: u32, payload: JsonView) -> Result<
    Seq<EventView>,
    Seq<char>,
> {
    match payload {
        JsonView::Array(items) => Ok(events_among(items)),
        _ => Err(non_list(offset, limit, payload)),
    }
}

/// What the body of an answer holds.
pub open spec fn page_in(offset: u32, limit: u32, body: Seq<u8>) -> Result<
    Seq<EventView>,
    Seq<char>,
> {
    match json::json_parsed(body) {
        Err(message) => Err(invalid_json("json: "@ + message)),
        Ok(payload) => page_of(offset, limit, payload),
    }
}

/// The content of a page of events.
pub open spec fn page_view(page: Result<Vec<PolymarketEvent>, PolyMarketError>) -> Result<
    Seq<EventView>,
    Seq<char>,
> {
    match page {
        Ok(events) => Ok(events_view(events@)),
        Err(e) => Err(e@),
    }
}

/// Takes the events out of a parsed answer.
pub fn decode_page(params: &FetchEventsParams, payload: Json) -> (r: Result<
    Vec<PolymarketEvent>,
    PolyMarketError,
>)
    ensures
        page_view(r) == page_of(params.offset, params.limit, payload@),
{
    let items = match payload {
        Json::Array(items) => items,
        other => {
            let message = "Gamma /events returned a non-list response (offset=".to_owned().concat(
                text::number_text(params.offset as u64).as_str(),
            ).concat(", limit=").concat(text::number_text(params.limit as u64).as_str()).concat(
                "): ",
            ).concat(other.debug().as_str());
            return Err(PolyMarketError(message));
        },
    };
    let ghost all = items@;
    let ghost values = json::items_view(all);
    let ghost mut taken: int = 0;
    proof {
        json::lemma_items_view(all);
    }
    let mut rest = lists::reversed(items);
    let mut events: Vec<PolymarketEvent> = Vec::new();
    assert(values.take(0) =~= Seq::empty());
    assert(events_view(events@) =~= Seq::empty());
    while rest.len() > 0
        invariant
            0 <= taken <= all.len(),
            values.len() == all.len(),
            forall|k: int| 0 <= k < all.len() ==> #[trigger] values[k] == all[k]@,
            rest@ == all.skip(taken).reverse(),
            events_view(events@) == events_among(values.take(taken)),
        decreases rest@.len(),
    {
        let ghost done = events@;
        let item = rest.pop().unwrap();
        assert(item == all[taken]);
        assert(rest@ =~= all.skip(taken + 1).reverse());
        assert(values.take(taken + 1).drop_last() =~= values.take(taken));
        assert(values.take(taken + 1).last() == item@);
        if let Some(event) = PolymarketEvent::from_json(item) {
            events.push(event);
            assert(events_view(events@) =~= events_view(done).push(event@));
        }
        proof {
            taken = taken + 1;
        }
    }
    assert(values.take(taken) =~= values);
    Ok(events)
}

fn is_invalid_json(message: &str) -> (e: PolyMarketError)
    ensures
        e@ == invalid_json(message@),
{
    PolyMarketError("Gamma /events returned invalid JSON: ".to_owned().concat(message))
}

/// Why there is no body of an answer.
#[derive(Debug)]
pub enum RequestError {
    /// There is no answer.
    Failed(String),
    /// The body of the answer cannot be read.
    Unreadable(String),
}

/// Takes one page of events out of the reply to a request: the body of the answer, or
/// why there is none.
///
/// An answer that is no list is an error rather than an empty page, so that a listing
/// that was cut off is never taken for its end.
pub fn fetch_events(params: &FetchEventsParams, reply: Result<Vec<u8>, RequestError>) -> (r: Result<
    Vec<PolymarketEvent>,
    PolyMarketError,
>)
    ensures
        page_view(r) == match reply {
            Ok(body) => page_in(params.offset, params.limit, body@),
            Err(RequestError::Failed(message)) => Err(request_failed(message@)),
            Err(RequestError::Unreadable(message)) => Err(invalid_json(message@)),
        },
{
    match reply {
        Ok(body) => match json::parse_bytes(body.as_slice()) {
            Ok(payload) => decode_page(params, payload),
            Err(message) => Err(
                is_invalid_json("json: ".to_owned().concat(message.as_str()).as_str()),
            ),
        },
        Err(RequestError::Failed(message)) => Err(
            PolyMarketError(
                "Gamma /events request failed: ".to_owned().concat(message.as_str()),
            ),
        ),
        Err(RequestError::Unreadable(message)) => Err(is_invalid_json(message.as_str())),
    }
}

// ---------------------------------------------------------------------------
// The crawl
// ---------------------------------------------------------------------------

/// Pages through all open events, around Gamma's limit on offsets.
///
/// Events are listed by ascending end date. Within one pass the offset grows with each
/// page; once it reaches `cursor_cap`, a new pass starts at offset zero from the last
/// end date seen. An empty page ends the crawl. Events on the boundary come twice, and
/// are told apart by their ticker.
pub struct OpenEventsIter {
    page_limit: u32,
    cursor_cap: u32,
    max_iterations: u32,
    boundary: Option<String>,
    offset: u32,
    pass_count: u32,
    finished: bool,
}

/// Where a crawl stands.
pub struct CrawlView {
    pub page_limit: u32,
    pub cursor_cap: u32,
    pub max_iterations: u32,
    pub boundary: Option<Seq<char>>,
    pub offset: u32,
    pub pass_count: u32,
    pub finished: bool,
}

impl CrawlView {
    /// There is another page to ask for.
    pub open spec fn wants_page(self) -> bool {
        !self.finished && self.pass_count < self.max_iterations
    }

    pub open spec fn ended(self) -> CrawlView {
        CrawlView { finished: true, ..self }
    }

    /// The end date to start the next pass from, if the last event moves the boundary.
    pub open spec fn next_boundary(self, page: Seq<EventView>) -> Option<Seq<char>> {
        match page.last().end_date {
            Some(end_date) => if self.boundary != Some(end_date) {
                Some(end_date)
            } else {
                None
            },
            None => None,
        }
    }

    /// After a page. Where the pass is over and its last event cannot move the boundary,
    /// the crawl stops rather than spin.
    pub open spec fn after_page(self, page: Seq<EventView>) -> CrawlView {
        if page.len() == 0 {
            self.ended()
        } else if self.offset + page.len() < self.cursor_cap {
            CrawlView { offset: (self.offset + page.len()) as u32, ..self }
        } else {
            match self.next_boundary(page) {
                Some(end_date) => CrawlView {
                    boundary: Some(end_date),
                    offset: 0,
                    pass_count: (self.pass_count + 1) as u32,
                    ..self
                },
                None => self.ended(),
            }
        }
    }

    /// After an answer.
    pub open spec fn after(self, page: Result<Seq<EventView>, Seq<char>>) -> CrawlView {
        match page {
            Ok(events) => self.after_page(events),
            Err(_) => self.ended(),
        }
    }

    /// The offset stays below the cap, or at zero.
    pub open spec fn wf(self) -> bool {
        self.offset == 0 || self.offset < self.cursor_cap
    }
}

/// A crawl that has not begun.
pub open spec fn fresh_crawl() -> CrawlView {
    CrawlView {
        page_limit: 100,
        cursor_cap: 2000,
        max_iterations: 50,
        boundary: None,
        offset: 0,
        pass_count: 0,
        finished: false,
    }
}

impl OpenEventsIter {
    pub closed spec fn view(&self) -> CrawlView {
        CrawlView {
            page_limit: self.page_limit,
            cursor_cap: self.cursor_cap,
            max_iterations: self.max_iterations,
            boundary: index::owned_view(self.boundary),
            offset: self.offset,
            pass_count: self.pass_count,
            finished: self.finished,
        }
    }

    pub fn new(page_limit: u32, cursor_cap: u32, max_iterations: u32) -> (r: Self)
        ensures
            r@ == (CrawlView {
                page_limit,
                cursor_cap,
                max_iterations,
                boundary: None,
                offset: 0,
                pass_count: 0,
                finished: false,
            }),
            r@.wf(),
    {
        OpenEventsIter {
            page_limit,
            cursor_cap,
            max_iterations,
            boundary: None,
            offset: 0,
            pass_count: 0,
            finished: false,
        }
    }

    /// Whether there is another page to ask for. A crawl that has used up its passes is
    /// over.
    pub fn wants_page(&mut self) -> (yes: bool)
        ensures
            yes == old(self)@.wants_page(),
            final(self)@ == if yes {
                old(self)@
            } else {
                old(self)@.ended()
            },
    {
        if self.finished {
            return false;
        }
        if self.pass_count >= self.max_iterations {
            self.finished = true;
            return false;
        }
        true
    }

    /// The next page to ask for.
    pub fn params(&self) -> (r: FetchEventsParams<'_>)
        ensures
            r.offset == self@.offset,
            r.limit == self@.page_limit,
            r.order@ == "endDate"@,
            r.ascending,
            !r.closed,
            index::text_view(r.end_date_min) == self@.boundary,
    {
        FetchEventsParams {
            offset: self.offset,
            limit: self.page_limit,
            order: "endDate",
            ascending: true,
            closed: false,
            end_date_min: match &self.boundary {
                Some(end_date) => Some(end_date.as_str()),
                None => None,
            },
        }
    }

    fn take_page(&mut self, page: &Vec<PolymarketEvent>)
        requires
            page@.len() > 0,
            old(self)@.wants_page(),
        ensures
            final(self)@ == old(self)@.after_page(events_view(page@)),
    {
        let ghost before = self@;
        let ghost events = events_view(page@);
        let cap: u64 = self.cursor_cap as u64;
        let count: u64 = page.len() as u64;
        if count < cap && self.offset as u64 + count < cap {
            self.offset = (self.offset as u64 + count) as u32;
            return;
        }
        let last = &page[page.len() - 1];
        assert(events.last() == last@);
        match &last.end_date {
            Some(end_date) => {
                let moved = match &self.boundary {
                    Some(boundary) => !text::same(end_date.as_str(), boundary.as_str()),
                    None => true,
                };
                if moved {
                    self.boundary = Some(end_date.clone());
                    self.offset = 0;
                    self.pass_count = self.pass_count + 1;
                } else {
                    self.finished = true;
                }
            },
            None => {
                self.finished = true;
            },
        }
    }

    /// Takes the answer to the request that `params` described, and hands out the page,
    /// if there is one. An error is handed out too, and ends the crawl.
    pub fn accept(
        &mut self,
        page: Result<Vec<PolymarketEvent>, PolyMarketError>,
    ) -> (r: Option<Result<Vec<PolymarketEvent>, PolyMarketError>>)
        requires
            old(self)@.wants_page(),
        ensures
            final(self)@ == old(self)@.after(page_view(page)),
            match page_view(page) {
                Ok(events) if events.len() == 0 => r is None,
                _ => r == Some(page),
            },
    {
        match page {
            Ok(events) => {
                if events.len() == 0 {
                    self.finished = true;
                    None
                } else {
                    self.take_page(&events);
                    Some(Ok(events))
                }
            },
            Err(e) => {
                self.finished = true;
                Some(Err(e))
            },
        }
    }
}

impl Default for OpenEventsIter {
    fn default() -> (r: Self)
        ensures
            r@ == fresh_crawl(),
            r@.wf(),
    {
        Self::new(100, 2000, 50)
    }
}

/// The answers of a crawl.
pub open spec fn replies_view(
    replies: Seq<Result<Vec<PolymarketEvent>, PolyMarketError>>,
) -> Seq<Result<Seq<EventView>, Seq<char>>> {
    replies.map_values(
        |page: Result<Vec<PolymarketEvent>, PolyMarketError>| page_view(page),
    )
}

/// The events that a crawl takes from the answers it gets, up to its end or to the
/// first error.
pub open spec fn gathered(
    crawl: CrawlView,
    replies: Seq<Result<Seq<EventView>, Seq<char>>>,
) -> Seq<EventView>
    decreases replies.len(),
{
    if replies.len() == 0 || !crawl.wants_page() {
        Seq::empty()
    } else {
        match replies[0] {
            Ok(page) => page + gathered(crawl.after_page(page), replies.drop_first()),
            Err(_) => Seq::empty(),
        }
    }
}

/// The error that ends a crawl, if one does.
pub open spec fn crawl_error(
    crawl: CrawlView,
    replies: Seq<Result<Seq<EventView>, Seq<char>>>,
) -> Option<Seq<char>>
    decreases replies.len(),
{
    if replies.len() == 0 || !crawl.wants_page() {
        None
    } else {
        match replies[0] {
            Ok(page) => crawl_error(crawl.after_page(page), replies.drop_first()),
            Err(message) => Some(message),
        }
    }
}

/// No page is asked for at an offset at or beyond the cap.
pub proof fn law_offset_stays_below_cap(
    crawl: CrawlView,
    page: Result<Seq<EventView>, Seq<char>>,
)
    requires
        crawl.wf(),
    ensures
        crawl.after(page).wf(),
{
}

/// Each page brings the crawl closer to its end: it ends, or starts a new pass, of
/// which there are only so many, or gets further in its pass.
pub proof fn law_crawl_makes_progress(
    crawl: CrawlView,
    page: Result<Seq<EventView>, Seq<char>>,
)
    requires
        crawl.wf(),
        crawl.wants_page(),
    ensures
        ({
            let next = crawl.after(page);
            ||| next.finished
            ||| next.pass_count == crawl.pass_count + 1 && next.pass_count <= next.max_iterations
            ||| next.pass_count == crawl.pass_count && crawl.offset < next.offset < next.cursor_cap
        }),
{
}

/// A new pass starts where the one before it ended: at the end date of its last event.
pub proof fn law_passes_join(crawl: CrawlView, page: Seq<EventView>)
    requires
        crawl.wants_page(),
        crawl.after_page(page).pass_count != crawl.pass_count,
    ensures
        crawl.after_page(page).boundary == page.last().end_date,
        crawl.after_page(page).boundary != crawl.boundary,
        crawl.after_page(page).offset == 0,
{
}

// ---------------------------------------------------------------------------
// The market cache
// ---------------------------------------------------------------------------

/// All events by ticker.
pub struct MarketCache {
    events: StringHashMap<PolymarketEvent>,
}

/// A cache with the events of a page: of a repeated ticker the last event counts.
pub open spec fn cached(
    cache: Map<Seq<char>, EventView>,
    page: Seq<EventView>,
) -> Map<Seq<char>, EventView>
    decreases page.len(),
{
    if page.len() == 0 {
        cache
    } else {
        cached(cache, page.drop_last()).insert(page.last().ticker, page.last())
    }
}

/// A cache with one page and then another is one with both in a row.
proof fn lemma_cached_concat(
    cache: Map<Seq<char>, EventView>,
    a: Seq<EventView>,
    b: Seq<EventView>,
)
    ensures
        cached(cache, a + b) == cached(cached(cache, a), b),
    decreases b.len(),
{
    if b.len() == 0 {
        assert(a + b =~= a);
    } else {
        lemma_cached_concat(cache, a, b.drop_last());
        assert((a + b).drop_last() =~= a + b.drop_last());
    }
}

impl MarketCache {
    pub closed spec fn view(&self) -> Map<Seq<char>, EventView> {
        self.events@.map_values(|event: PolymarketEvent| event@)
    }

    pub fn new() -> (r: MarketCache)
        ensures
            r@ == Map::<Seq<char>, EventView>::empty(),
    {
        let cache = MarketCache { events: StringHashMap::new() };
        assert(cache@ =~= Map::empty());
        cache
    }

    /// Takes in a page of events.
    pub fn insert_page(&mut self, page: Vec<PolymarketEvent>)
        ensures
            final(self)@ == cached(old(self)@, events_view(page@)),
    {
        let ghost list = page@;
        let ghost all = events_view(list);
        let ghost before = self@;
        let ghost mut taken: int = 0;
        let mut rest = lists::reversed(page);
        assert(all.take(0) =~= Seq::empty());
        while rest.len() > 0
            invariant
                0 <= taken <= list.len(),
                all == events_view(list),
                rest@ == list.skip(taken).reverse(),
                self@ == cached(before, all.take(taken)),
            decreases rest@.len(),
        {
            let ghost held = self@;
            let event = rest.pop().unwrap();
            assert(event == list[taken]);
            assert(rest@ =~= list.skip(taken + 1).reverse());
            assert(all.take(taken + 1).drop_last() =~= all.take(taken));
            assert(all.take(taken + 1).last() == event@);
            let ticker = event.ticker.clone();
            self.events.insert(ticker, event);
            assert(self@ =~= held.insert(event@.ticker, event@));
            proof {
                taken = taken + 1;
            }
        }
        assert(all.take(taken) =~= all);
    }

    /// Takes in what a crawl handed out, and tells whether to go on: an error ends it,
    /// and keeps what there is.
    pub fn accept(&mut self, page: Result<Vec<PolymarketEvent>, PolyMarketError>) -> (more: bool)
        ensures
            match page {
                Ok(events) => more && final(self)@ == cached(old(self)@, events_view(events@)),
                Err(_) => !more && final(self)@ == old(self)@,
            },
    {
        match page {
            Ok(events) => {
                self.insert_page(events);
                true
            },
            Err(_) => false,
        }
    }

    /// The event of `ticker`.
    pub fn get(&self, ticker: &str) -> (r: Option<&PolymarketEvent>)
        ensures
            match r {
                Some(event) => self@.dom().contains(ticker@) && event@ == self@[ticker@],
                None => !self@.dom().contains(ticker@),
            },
    {
        self.events.get(ticker)
    }

    /// How many events there are.
    pub fn len(&self) -> (n: usize)
        ensures
            n == self@.len(),
    {
        assert(self@.dom() =~= self.events@.dom());
        self.events.len()
    }
}

/// All events that a crawl brings, by ticker, given the answers that it gets. The crawl
/// asks for pages up to its end; an error ends it too, and keeps what there is.
pub fn fetch_all_markets_cached(
    replies: Vec<Result<Vec<PolymarketEvent>, PolyMarketError>>,
) -> (cache: MarketCache)
    ensures
        cache@ == cached(Map::empty(), gathered(fresh_crawl(), replies_view(replies@))),
{
    let ghost list = replies@;
    let ghost all = replies_view(list);
    let ghost events = gathered(fresh_crawl(), all);
    let ghost mut taken: int = 0;
    let mut crawl = OpenEventsIter::default();
    let mut cache = MarketCache::new();
    let mut rest = lists::reversed(replies);
    assert(all.skip(0) =~= all);
    while rest.len() > 0 && crawl.wants_page()
        invariant
            0 <= taken <= list.len(),
            list == replies@,
            all == replies_view(list),
            events == gathered(fresh_crawl(), all),
            rest@ == list.skip(taken).reverse(),
            cached(Map::empty(), events) == cached(
                cache@,
                gathered(crawl@, all.skip(taken)),
            ),
        ensures
            cached(Map::empty(), events) == cache@,
        decreases rest@.len(),
    {
        let ghost (stands, held) = (crawl@, cache@);
        let reply = rest.pop().unwrap();
        proof {
            assert(reply == list[taken]);
            assert(all[taken] == page_view(reply));
            assert(all.skip(taken)[0] == all[taken]);
            assert(all.skip(taken).drop_first() =~= all.skip(taken + 1));
            assert(rest@ =~= list.skip(taken + 1).reverse());
            if let Ok(page) = all[taken] {
                lemma_cached_concat(
                    held,
                    page,
                    gathered(stands.after_page(page), all.skip(taken + 1)),
                );
            }
        }
        match crawl.accept(reply) {
            Some(page) => {
                if !cache.accept(page) {
                    return cache;
                }
            },
            None => {
                assert(gathered(crawl@, all.skip(taken + 1)) =~= Seq::empty());
                return cache;
            },
        }
        proof {
            taken = taken + 1;
        }
    }
    cache
}

/// Events that come twice are told apart by their ticker: taking in a page again
/// changes nothing.
pub proof fn law_repeated_page_is_harmless(
    cache: Map<Seq<char>, EventView>,
    page: Seq<EventView>,
)
    ensures
        cached(cached(cache, page), page) == cached(cache, page),
{
    let once = cached(cache, page);
    lemma_cached(cache, page);
    lemma_cached(once, page);
    assert forall|t: Seq<char>| once.dom().contains(t) implies cached(once, page)[t]
        == #[trigger] once[t] by {
        lemma_last_with(cache, once, page, t);
    }
    assert(cached(once, page) =~= once);
}

proof fn lemma_last_with(
    cache: Map<Seq<char>, EventView>,
    other: Map<Seq<char>, EventView>,
    page: Seq<EventView>,
    ticker: Seq<char>,
)
    ensures
        last_with(other, page, ticker) == last_with(cache, page, ticker) || last_with(
            other,
            page,
            ticker,
        ) == other[ticker],
    decreases page.len(),
{
    if page.len() > 0 {
        lemma_last_with(cache, other, page.drop_last(), ticker);
    }
}

proof fn lemma_cached(cache: Map<Seq<char>, EventView>, page: Seq<EventView>)
    ensures
        forall|t: Seq<char>| #[trigger]
            cached(cache, page).dom().contains(t) <==> cache.dom().contains(t) || exists|i: int|
                0 <= i < page.len() && #[trigger] page[i].ticker == t,
        forall|t: Seq<char>|
            cached(cache, page).dom().contains(t) ==> #[trigger] cached(cache, page)[t]
                == last_with(cache, page, t),
    decreases page.len(),
{
    if page.len() > 0 {
        let rest = page.drop_last();
        lemma_cached(cache, rest);
        assert forall|t: Seq<char>| #[trigger]
            cached(cache, page).dom().contains(t) <==> cache.dom().contains(t) || exists|i: int|
                0 <= i < page.len() && #[trigger] page[i].ticker == t by {
            if cached(cache, page).dom().contains(t) && !cache.dom().contains(t) {
                if t == page.last().ticker {
                    assert(page[page.len() - 1].ticker == t);
                } else {
                    assert(cached(cache, rest).dom().contains(t));
                    let i = choose|i: int| 0 <= i < rest.len() && #[trigger] rest[i].ticker == t;
                    assert(page[i].ticker == t);
                }
            }
            if exists|i: int| 0 <= i < page.len() && #[trigger] page[i].ticker == t {
                let i = choose|i: int| 0 <= i < page.len() && #[trigger] page[i].ticker == t;
                if i < page.len() - 1 {
                    assert(rest[i].ticker == t);
                    assert(cached(cache, rest).dom().contains(t));
                }
            }
            if cache.dom().contains(t) {
                assert(cached(cache, rest).dom().contains(t));
            }
        }
        assert forall|t: Seq<char>|
            cached(cache, page).dom().contains(t) implies #[trigger] cached(cache, page)[t]
            == last_with(cache, page, t) by {
            if t != page.last().ticker {
                assert(cached(cache, rest).dom().contains(t));
                assert(cached(cache, rest)[t] == last_with(cache, rest, t));
            }
        }
    }
}

/// The last event of a page with a ticker, or else what the cache had.
spec fn last_with(
    cache: Map<Seq<char>, EventView>,
    page: Seq<EventView>,
    ticker: Seq<char>,
) -> EventView
    decreases page.len(),
{
    if page.len() == 0 {
        cache[ticker]
    } else if page.last().ticker == ticker {
        page.last()
    } else {
        last_with(cache, page.drop_last(), ticker)
    }
}

} // verus!
