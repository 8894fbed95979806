//! The request protocol: one JSON object per line in, one per line out.
//!
//! A request is answered at once, or it names the records that the answer needs;
//! once those are read, the answer is completed. The shapes of all requests and
//! responses are decided here.

use crate::database;
use crate::database::Snapshot;
use crate::envelope;
use crate::index;
use crate::index::{EntryView, IndexEntry};
use crate::json;
use crate::json::{Json, JsonView};
use crate::lists;
use crate::text;
use crate::version;
use vstd::prelude::*;

verus! {

pub const DEFAULT_LIST_EVENTS_LIMIT: u32 = 100;

pub const MAX_LIST_EVENTS_LIMIT: u32 = 500;

pub const DEFAULT_LIST_TICKERS_LIMIT: u32 = 5000;

pub const MAX_LIST_TICKERS_LIMIT: u32 = 20_000;

pub const DEFAULT_LIST_ASSET_IDS_LIMIT: u32 = 500;

pub const MAX_LIST_ASSET_IDS_LIMIT: u32 = 2_000;

pub const DEFAULT_PREFIX_SEARCH_LIMIT: u32 = 50;

pub const MAX_PREFIX_SEARCH_LIMIT: u32 = 500;

// ---------------------------------------------------------------------------
// Responses
// ---------------------------------------------------------------------------

/// A success response.
pub open spec fn ok_view(id: JsonView, op: Seq<char>, result: JsonView) -> JsonView {
    JsonView::Object(
        json::no_fields().insert("id"@, id).insert("op"@, JsonView::Str(op)).insert(
            "ok"@,
            JsonView::Bool(true),
        ).insert("db_version"@, JsonView::Str(version::version_text())).insert("result"@, result),
    )
}

/// An error response. `op` is `null` where the operation is not known.
pub open spec fn err_view(
    id: JsonView,
    op: Option<Seq<char>>,
    code: Seq<char>,
    message: Seq<char>,
) -> JsonView {
    JsonView::Object(
        json::no_fields().insert("id"@, id).insert("op"@, json::optional_text(op)).insert(
            "ok"@,
            JsonView::Bool(false),
        ).insert("db_version"@, JsonView::Str(version::version_text())).insert(
            "error"@,
            JsonView::Object(
                json::no_fields().insert("code"@, JsonView::Str(code)).insert(
                    "message"@,
                    JsonView::Str(message),
                ),
            ),
        ),
    )
}

/// A request for a known operation that cannot be served as it stands.
pub open spec fn refusal(id: JsonView, op: Seq<char>, message: Seq<char>) -> JsonView {
    err_view(id, Some(op), "bad_request"@, message)
}

pub fn ok_response(id: Json, op: &str, result: Json) -> (r: Json)
    ensures
        r@ == ok_view(id@, op@, result@),
{
    let fields = json::with(json::fields(), "id", id);
    let fields = json::with(fields, "op", json::text_value(op));
    let fields = json::with(fields, "ok", Json::Bool(true));
    let fields = json::with(fields, "db_version", Json::Str(version::version_string()));
    Json::Object(json::with(fields, "result", result))
}

pub fn err_response(id: Json, op: Option<&str>, code: &str, message: String) -> (r: Json)
    ensures
        r@ == err_view(id@, index::text_view(op), code@, message@),
{
    let op_value = match op {
        Some(name) => json::text_value(name),
        None => Json::Null,
    };
    let detail = json::with(json::fields(), "code", json::text_value(code));
    let detail = json::with(detail, "message", Json::Str(message));
    let fields = json::with(json::fields(), "id", id);
    let fields = json::with(fields, "op", op_value);
    let fields = json::with(fields, "ok", Json::Bool(false));
    let fields = json::with(fields, "db_version", Json::Str(version::version_string()));
    Json::Object(json::with(fields, "error", Json::Object(detail)))
}

fn refuse(id: Json, op: &str, message: String) -> (r: Plan)
    ensures
        r.view() == PlanView::Answer(refusal(id@, op@, message@)),
{
    Plan::Answer(err_response(id, Some(op), "bad_request", message))
}

// ---------------------------------------------------------------------------
// Parameters
// ---------------------------------------------------------------------------

pub open spec fn missing_field(key: Seq<char>) -> Seq<char> {
    "missing field `"@ + key + "`"@
}

pub open spec fn invalid_params(message: Seq<char>) -> Seq<char> {
    "invalid params: "@ + message
}

/// A parameter that must be there and be a string.
pub open spec fn required_text(data: JsonView, key: Seq<char>) -> Result<Seq<char>, Seq<char>> {
    match json::field(data, key) {
        None => Err(missing_field(key)),
        Some(JsonView::Str(s)) => Ok(s),
        Some(other) => Err(json::not_a_string(other)),
    }
}

/// A parameter that may be missing or `null`, and is a string otherwise.
pub open spec fn optional_text(data: JsonView, key: Seq<char>) -> Result<
    Option<Seq<char>>,
    Seq<char>,
> {
    match json::field(data, key) {
        None => Ok(None),
        Some(JsonView::Null) => Ok(None),
        Some(JsonView::Str(s)) => Ok(Some(s)),
        Some(other) => Err(json::not_a_string(other)),
    }
}

/// A parameter that may be missing or `null`, and is a `u32` otherwise.
pub open spec fn optional_count(data: JsonView, key: Seq<char>) -> Result<
    Option<u32>,
    Seq<char>,
> {
    match json::field(data, key) {
        None => Ok(None),
        Some(JsonView::Null) => Ok(None),
        Some(JsonView::Unsigned(n)) => if n <= u32::MAX {
            Ok(Some(n as u32))
        } else {
            Err(json::not_a_u32(JsonView::Unsigned(n)))
        },
        Some(other) => Err(json::not_a_u32(other)),
    }
}

/// The page size for a requested one: the default where none is requested, at most
/// the maximum, and never zero.
pub open spec fn limit_for(requested: Option<u32>, default: u32, max: u32) -> Result<
    u32,
    Seq<char>,
> {
    match requested {
        None => Ok(default),
        Some(n) => if n == 0 {
            Err("limit must be greater than 0"@)
        } else if n > max {
            Ok(max)
        } else {
            Ok(n)
        },
    }
}

/// A cursor and a page size, or the message that refuses them.
pub open spec fn cursor_params(
    data: JsonView,
    limit_key: Seq<char>,
    default: u32,
    max: u32,
) -> Result<(Option<Seq<char>>, u32), Seq<char>> {
    match optional_text(data, "after"@) {
        Err(message) => Err(invalid_params(message)),
        Ok(after) => match optional_count(data, limit_key) {
            Err(message) => Err(invalid_params(message)),
            Ok(requested) => match limit_for(requested, default, max) {
                Err(message) => Err(message),
                Ok(limit) => Ok((after, limit)),
            },
        },
    }
}

/// `limit == 0` is refused rather than taken as "use the default": a caller that asks
/// for zero results has made a mistake, and a default would hide it.
pub fn resolve_limit(requested: Option<u32>, default: u32, max: u32) -> (r: Result<u32, String>)
    ensures
        match r {
            Ok(limit) => limit_for(requested, default, max) == Ok::<u32, Seq<char>>(limit),
            Err(message) => limit_for(requested, default, max) == Err::<u32, Seq<char>>(message@),
        },
{
    match requested {
        None => Ok(default),
        Some(n) => if n == 0 {
            Err("limit must be greater than 0".to_owned())
        } else if n > max {
            Ok(max)
        } else {
            Ok(n)
        },
    }
}

fn get_required_text(data: &Json, key: &str) -> (r: Result<String, String>)
    ensures
        match r {
            Ok(s) => required_text(data@, key@) == Ok::<Seq<char>, Seq<char>>(s@),
            Err(message) => required_text(data@, key@) == Err::<Seq<char>, Seq<char>>(message@),
        },
{
    match data.get(key) {
        None => Err("missing field `".to_owned().concat(key).concat("`")),
        Some(value) => value.clone().into_string(),
    }
}

fn get_optional_text(data: &Json, key: &str) -> (r: Result<Option<String>, String>)
    ensures
        match r {
            Ok(s) => optional_text(data@, key@) == Ok::<Option<Seq<char>>, Seq<char>>(
                index::owned_view(s),
            ),
            Err(message) => optional_text(data@, key@) == Err::<Option<Seq<char>>, Seq<char>>(
                message@,
            ),
        },
{
    match data.get(key) {
        None => Ok(None),
        Some(Json::Null) => Ok(None),
        Some(value) => match value.clone().into_string() {
            Ok(s) => Ok(Some(s)),
            Err(message) => Err(message),
        },
    }
}

fn get_optional_count(data: &Json, key: &str) -> (r: Result<Option<u32>, String>)
    ensures
        match r {
            Ok(n) => optional_count(data@, key@) == Ok::<Option<u32>, Seq<char>>(n),
            Err(message) => optional_count(data@, key@) == Err::<Option<u32>, Seq<char>>(message@),
        },
{
    match data.get(key) {
        None => Ok(None),
        Some(Json::Null) => Ok(None),
        Some(value) => match value.clone().into_u32() {
            Ok(n) => Ok(Some(n)),
            Err(message) => Err(message),
        },
    }
}

fn invalid(message: String) -> (r: String)
    ensures
        r@ == invalid_params(message@),
{
    "invalid params: ".to_owned().concat(message.as_str())
}

fn get_cursor_params(data: &Json, limit_key: &str, default: u32, max: u32) -> (r: Result<
    (Option<String>, u32),
    String,
>)
    ensures
        match r {
            Ok((after, limit)) => cursor_params(data@, limit_key@, default, max) == Ok::<
                (Option<Seq<char>>, u32),
                Seq<char>,
            >((index::owned_view(after), limit)),
            Err(message) => cursor_params(data@, limit_key@, default, max) == Err::<
                (Option<Seq<char>>, u32),
                Seq<char>,
            >(message@),
        },
{
    let after = match get_optional_text(data, "after") {
        Ok(after) => after,
        Err(message) => {
            return Err(invalid(message));
        },
    };
    let requested = match get_optional_count(data, limit_key) {
        Ok(requested) => requested,
        Err(message) => {
            return Err(invalid(message));
        },
    };
    match resolve_limit(requested, default, max) {
        Ok(limit) => Ok((after, limit)),
        Err(message) => Err(message),
    }
}

// ---------------------------------------------------------------------------
// Planning
// ---------------------------------------------------------------------------

/// The operations whose answer needs records of the log.
#[derive(Debug, Clone, Copy, PartialEq, Eq, Structural)]
pub enum ReadOp {
    GetEvent,
    ListEvents,
    ListAssetIds,
}

pub open spec fn op_name(op: ReadOp) -> Seq<char> {
    match op {
        ReadOp::GetEvent => "get_event"@,
        ReadOp::ListEvents => "list_events"@,
        ReadOp::ListAssetIds => "list_asset_ids"@,
    }
}

/// A request that waits for the records of `entries`.
pub struct ReadView {
    pub id: JsonView,
    pub op: ReadOp,
    pub entries: Seq<EntryView>,
    pub next_after: Option<Seq<char>>,
}

/// What becomes of a request.
pub enum PlanView {
    Answer(JsonView),
    Read(ReadView),
}

/// The tickers of entries, as JSON strings.
pub open spec fn ticker_values(entries: Seq<EntryView>) -> Seq<JsonView> {
    entries.map_values(|e: EntryView| JsonView::Str(e.ticker))
}

/// At most the first `n` items.
pub open spec fn at_most_first<T>(items: Seq<T>, n: nat) -> Seq<T> {
    if n < items.len() {
        items.take(n as int)
    } else {
        items
    }
}

pub open spec fn get_event_plan(
    entries: Seq<EntryView>,
    id: JsonView,
    data: JsonView,
) -> PlanView {
    match required_text(data, "ticker"@) {
        Err(message) => PlanView::Answer(refusal(id, "get_event"@, invalid_params(message))),
        Ok(ticker) => if text::trimmed(ticker).len() == 0 {
            PlanView::Answer(refusal(id, "get_event"@, "ticker must not be empty"@))
        } else {
            match index::lookup(entries, text::trimmed(ticker)) {
                None => PlanView::Answer(
                    ok_view(
                        id,
                        "get_event"@,
                        JsonView::Object(json::no_fields().insert("event"@, JsonView::Null)),
                    ),
                ),
                Some(entry) => PlanView::Read(
                    ReadView { id, op: ReadOp::GetEvent, entries: seq![entry], next_after: None },
                ),
            }
        },
    }
}

pub open spec fn list_events_plan(
    entries: Seq<EntryView>,
    id: JsonView,
    data: JsonView,
) -> PlanView {
    match cursor_params(data, "limit"@, DEFAULT_LIST_EVENTS_LIMIT, MAX_LIST_EVENTS_LIMIT) {
        Err(message) => PlanView::Answer(refusal(id, "list_events"@, message)),
        Ok((after, limit)) => PlanView::Read(
            ReadView {
                id,
                op: ReadOp::ListEvents,
                entries: index::page(entries, after, limit as nat),
                next_after: index::next_cursor(entries, after, limit as nat),
            },
        ),
    }
}

pub open spec fn list_asset_ids_plan(
    entries: Seq<EntryView>,
    id: JsonView,
    data: JsonView,
) -> PlanView {
    match cursor_params(
        data,
        "ticker_limit"@,
        DEFAULT_LIST_ASSET_IDS_LIMIT,
        MAX_LIST_ASSET_IDS_LIMIT,
    ) {
        Err(message) => PlanView::Answer(refusal(id, "list_asset_ids"@, message)),
        Ok((after, limit)) => PlanView::Read(
            ReadView {
                id,
                op: ReadOp::ListAssetIds,
                entries: index::page(entries, after, limit as nat),
                next_after: index::next_cursor(entries, after, limit as nat),
            },
        ),
    }
}

pub open spec fn list_tickers_answer(
    entries: Seq<EntryView>,
    id: JsonView,
    data: JsonView,
) -> JsonView {
    match cursor_params(data, "limit"@, DEFAULT_LIST_TICKERS_LIMIT, MAX_LIST_TICKERS_LIMIT) {
        Err(message) => refusal(id, "list_tickers"@, message),
        Ok((after, limit)) => ok_view(
            id,
            "list_tickers"@,
            JsonView::Object(
                json::no_fields().insert(
                    "tickers"@,
                    JsonView::Array(ticker_values(index::page(entries, after, limit as nat))),
                ).insert(
                    "next_after"@,
                    json::optional_text(index::next_cursor(entries, after, limit as nat)),
                ),
            ),
        ),
    }
}

pub open spec fn prefix_search_answer(
    entries: Seq<EntryView>,
    id: JsonView,
    data: JsonView,
) -> JsonView {
    match optional_count(data, "limit"@) {
        Err(message) => refusal(id, "prefix_search"@, invalid_params(message)),
        Ok(requested) => match required_text(data, "prefix"@) {
            Err(message) => refusal(id, "prefix_search"@, invalid_params(message)),
            Ok(prefix) => if prefix.len() == 0 {
                refusal(id, "prefix_search"@, "prefix must not be empty"@)
            } else {
                match limit_for(requested, DEFAULT_PREFIX_SEARCH_LIMIT, MAX_PREFIX_SEARCH_LIMIT) {
                    Err(message) => refusal(id, "prefix_search"@, message),
                    Ok(limit) => prefix_result(
                        id,
                        index::with_prefix(entries, prefix),
                        limit as nat,
                    ),
                }
            },
        },
    }
}

pub open spec fn prefix_result(
    id: JsonView,
    matching: Seq<EntryView>,
    limit: nat,
) -> JsonView {
    ok_view(
        id,
        "prefix_search"@,
        JsonView::Object(
            json::no_fields().insert(
                "tickers"@,
                JsonView::Array(ticker_values(at_most_first(matching, limit))),
            ).insert("truncated"@, JsonView::Bool(matching.len() > limit)),
        ),
    )
}

/// What is told about a snapshot, over the socket and to peers alike.
pub open spec fn db_info_view(
    lines: u32,
    built_at_unix: u64,
    format_version: u32,
) -> JsonView {
    JsonView::Object(
        json::no_fields().insert("major"@, JsonView::Unsigned(version::MAJOR_VERSION as u64)).insert(
            "minor"@,
            JsonView::Unsigned(version::MINOR_VERSION as u64),
        ).insert("patch"@, JsonView::Unsigned(version::PATCH_VERSION as u64)).insert(
            "version"@,
            JsonView::Str(version::version_text()),
        ).insert("lines"@, JsonView::Unsigned(lines as u64)).insert(
            "built_at_unix"@,
            JsonView::Unsigned(built_at_unix),
        ).insert("db_format_version"@, JsonView::Unsigned(format_version as u64)),
    )
}

/// What is told about `snapshot`.
pub open spec fn snapshot_info(snapshot: Snapshot) -> JsonView {
    db_info_view(snapshot.lines, snapshot.built_at_unix, snapshot.format_version)
}

/// The plan for a request whose envelope has been read.
pub open spec fn dispatched(
    snapshot: Snapshot,
    id: JsonView,
    op: Seq<char>,
    data: JsonView,
) -> PlanView {
    if op == "get_event"@ {
        get_event_plan(snapshot.entries(), id, data)
    } else if op == "list_events"@ {
        list_events_plan(snapshot.entries(), id, data)
    } else if op == "list_tickers"@ {
        PlanView::Answer(list_tickers_answer(snapshot.entries(), id, data))
    } else if op == "list_asset_ids"@ {
        list_asset_ids_plan(snapshot.entries(), id, data)
    } else if op == "prefix_search"@ {
        PlanView::Answer(prefix_search_answer(snapshot.entries(), id, data))
    } else if op == "db_info"@ {
        PlanView::Answer(ok_view(id, "db_info"@, snapshot_info(snapshot)))
    } else {
        PlanView::Answer(
            err_view(id, None, "bad_request"@, "unknown op '"@ + op + "'"@),
        )
    }
}

/// A line that is no request.
pub open spec fn unreadable(message: Seq<char>) -> JsonView {
    err_view(JsonView::Null, None, "bad_request"@, "invalid request: "@ + message)
}

/// The identifier that a request carries, `null` where it carries none.
pub open spec fn request_id(request: JsonView) -> JsonView {
    match json::field(request, "id"@) {
        Some(id) => id,
        None => JsonView::Null,
    }
}

/// The plan for a parsed request: an object with at least a string `op`. The frame of a
/// request on a line has been looked at before: see `envelope`.
pub open spec fn planned(snapshot: Snapshot, request: JsonView) -> PlanView {
    if !(request is Object) {
        PlanView::Answer(unreadable(json::wrong_type(request, envelope::FRAME@)))
    } else {
        match required_text(request, "op"@) {
            Err(message) => PlanView::Answer(unreadable(message)),
            Ok(op) => dispatched(snapshot, request_id(request), op, request),
        }
    }
}

/// The plan for a request line.
pub open spec fn plan(snapshot: Snapshot, line: Seq<char>) -> PlanView {
    match envelope::request_on(line) {
        Err(message) => PlanView::Answer(unreadable(message)),
        Ok(request) => planned(snapshot, request),
    }
}

/// A request that waits for records.
pub struct PendingRead {
    id: Json,
    op: ReadOp,
    entries: Vec<IndexEntry>,
    next_after: Option<String>,
}

impl PendingRead {
    pub closed spec fn view(&self) -> ReadView {
        ReadView {
            id: self.id@,
            op: self.op,
            entries: index::views(self.entries@),
            next_after: index::owned_view(self.next_after),
        }
    }

    /// The records to read, in this order.
    pub fn entries(&self) -> (r: &Vec<IndexEntry>)
        ensures
            index::views(r@) == self@.entries,
    {
        &self.entries
    }
}

/// What becomes of a request.
pub enum Plan {
    Answer(Json),
    Read(PendingRead),
}

impl Plan {
    pub open spec fn view(&self) -> PlanView {
        match self {
            Plan::Answer(response) => PlanView::Answer(response@),
            Plan::Read(pending) => PlanView::Read(pending@),
        }
    }
}

fn copied(entries: &[IndexEntry]) -> (r: Vec<IndexEntry>)
    ensures
        index::views(r@) == index::views(entries@),
{
    let mut r: Vec<IndexEntry> = Vec::new();
    let mut i: usize = 0;
    while i < entries.len()
        invariant
            i <= entries.len(),
            index::views(r@) == index::views(entries@).take(i as int),
        decreases entries.len() - i,
    {
        let ghost done = r@;
        r.push(entries[i].clone());
        assert(index::views(r@) =~= index::views(done).push(entries@[i as int]@));
        assert(index::views(entries@).take(i + 1) =~= index::views(entries@).take(i as int).push(
            entries@[i as int]@,
        ));
        i = i + 1;
    }
    assert(index::views(entries@).take(i as int) =~= index::views(entries@));
    r
}

fn tickers(entries: &[IndexEntry], n: usize) -> (r: Json)
    requires
        n <= entries@.len(),
    ensures
        r@ == JsonView::Array(ticker_values(index::views(entries@).take(n as int))),
{
    let mut items: Vec<Json> = Vec::new();
    let mut i: usize = 0;
    while i < n
        invariant
            i <= n <= entries@.len(),
            json::items_view(items@) == ticker_values(index::views(entries@).take(i as int)),
        decreases n - i,
    {
        json::push_item(&mut items, json::text_value(entries[i].ticker.as_str()));
        assert(ticker_values(index::views(entries@).take(i + 1)) =~= ticker_values(
            index::views(entries@).take(i as int),
        ).push(JsonView::Str(entries@[i as int].ticker@)));
        i = i + 1;
    }
    Json::Array(items)
}

pub fn handle_get_event(snapshot: &Snapshot, id: Json, data: &Json) -> (r: Plan)
    requires
        index::strictly_sorted(snapshot.entries()),
    ensures
        r@ == get_event_plan(snapshot.entries(), id@, data@),
{
    let given = match get_required_text(data, "ticker") {
        Ok(given) => given,
        Err(message) => {
            return refuse(id, "get_event", invalid(message));
        },
    };
    let ticker = text::trim(given.as_str());
    if ticker.is_empty() {
        return refuse(id, "get_event", "ticker must not be empty".to_owned());
    }
    proof {
        index::lemma_absent_selects_nothing(snapshot.entries(), ticker@);
    }
    match snapshot.find(ticker) {
        Some(entry) => {
            proof {
                let i = choose|i: int|
                    0 <= i < snapshot.entries().len() && snapshot.entries()[i] == entry@;
                index::lemma_selection_of_index(snapshot.entries(), i);
            }
            let mut entries: Vec<IndexEntry> = Vec::new();
            entries.push(entry.clone());
            assert(index::views(entries@) =~= seq![entry@]);
            Plan::Read(PendingRead { id, op: ReadOp::GetEvent, entries, next_after: None })
        },
        None => {
            let result = json::with(json::fields(), "event", Json::Null);
            Plan::Answer(ok_response(id, "get_event", Json::Object(result)))
        },
    }
}

fn read_page(
    snapshot: &Snapshot,
    id: Json,
    op: ReadOp,
    after: Option<String>,
    limit: u32,
) -> (r: Plan)
    requires
        index::strictly_sorted(snapshot.entries()),
    ensures
        r@ == PlanView::Read(
            (ReadView {
                id: id@,
                op,
                entries: index::page(snapshot.entries(), index::owned_view(after), limit as nat),
                next_after: index::next_cursor(
                    snapshot.entries(),
                    index::owned_view(after),
                    limit as nat,
                ),
            }),
        ),
{
    let (page, next_after) = snapshot.cursor_range(
        match &after {
            Some(cursor) => Some(cursor.as_str()),
            None => None,
        },
        limit as usize,
    );
    Plan::Read(PendingRead { id, op, entries: copied(page), next_after })
}

pub fn handle_list_events(snapshot: &Snapshot, id: Json, data: &Json) -> (r: Plan)
    requires
        index::strictly_sorted(snapshot.entries()),
    ensures
        r@ == list_events_plan(snapshot.entries(), id@, data@),
{
    match get_cursor_params(data, "limit", DEFAULT_LIST_EVENTS_LIMIT, MAX_LIST_EVENTS_LIMIT) {
        Ok((after, limit)) => read_page(snapshot, id, ReadOp::ListEvents, after, limit),
        Err(message) => refuse(id, "list_events", message),
    }
}

pub fn handle_list_asset_ids(snapshot: &Snapshot, id: Json, data: &Json) -> (r: Plan)
    requires
        index::strictly_sorted(snapshot.entries()),
    ensures
        r@ == list_asset_ids_plan(snapshot.entries(), id@, data@),
{
    match get_cursor_params(
        data,
        "ticker_limit",
        DEFAULT_LIST_ASSET_IDS_LIMIT,
        MAX_LIST_ASSET_IDS_LIMIT,
    ) {
        Ok((after, limit)) => read_page(snapshot, id, ReadOp::ListAssetIds, after, limit),
        Err(message) => refuse(id, "list_asset_ids", message),
    }
}

pub fn handle_list_tickers(snapshot: &Snapshot, id: Json, data: &Json) -> (r: Json)
    requires
        index::strictly_sorted(snapshot.entries()),
    ensures
        r@ == list_tickers_answer(snapshot.entries(), id@, data@),
{
    let (after, limit) = match get_cursor_params(
        data,
        "limit",
        DEFAULT_LIST_TICKERS_LIMIT,
        MAX_LIST_TICKERS_LIMIT,
    ) {
        Ok(params) => params,
        Err(message) => {
            return err_response(id, Some("list_tickers"), "bad_request", message);
        },
    };
    let (page, next_after) = snapshot.cursor_range(
        match &after {
            Some(cursor) => Some(cursor.as_str()),
            None => None,
        },
        limit as usize,
    );
    assert(index::views(page@).take(page@.len() as int) =~= index::views(page@));
    let result = json::with(json::fields(), "tickers", tickers(page, page.len()));
    let result = json::with(result, "next_after", json::optional_text_value(next_after));
    ok_response(id, "list_tickers", Json::Object(result))
}

pub fn handle_prefix_search(snapshot: &Snapshot, id: Json, data: &Json) -> (r: Json)
    requires
        index::strictly_sorted(snapshot.entries()),
    ensures
        r@ == prefix_search_answer(snapshot.entries(), id@, data@),
{
    let requested = match get_optional_count(data, "limit") {
        Ok(requested) => requested,
        Err(message) => {
            return err_response(id, Some("prefix_search"), "bad_request", invalid(message));
        },
    };
    let prefix = match get_required_text(data, "prefix") {
        Ok(prefix) => prefix,
        Err(message) => {
            return err_response(id, Some("prefix_search"), "bad_request", invalid(message));
        },
    };
    if prefix.as_str().is_empty() {
        return err_response(
            id,
            Some("prefix_search"),
            "bad_request",
            "prefix must not be empty".to_owned(),
        );
    }
    let limit = match resolve_limit(
        requested,
        DEFAULT_PREFIX_SEARCH_LIMIT,
        MAX_PREFIX_SEARCH_LIMIT,
    ) {
        Ok(limit) => limit as usize,
        Err(message) => {
            return err_response(id, Some("prefix_search"), "bad_request", message);
        },
    };
    let matching = snapshot.prefix_range(prefix.as_str());
    let truncated = matching.len() > limit;
    let n: usize = if truncated {
        limit
    } else {
        matching.len()
    };
    assert(index::views(matching@).take(matching@.len() as int) =~= index::views(matching@));
    let result = json::with(json::fields(), "tickers", tickers(matching, n));
    let result = json::with(result, "truncated", Json::Bool(truncated));
    ok_response(id, "prefix_search", Json::Object(result))
}

pub fn db_info_json(snapshot: &Snapshot) -> (r: Json)
    ensures
        r@ == snapshot_info(*snapshot),
{
    let (major, minor, patch) = version::version_tuple();
    let info = json::with(json::fields(), "major", Json::Unsigned(major as u64));
    let info = json::with(info, "minor", Json::Unsigned(minor as u64));
    let info = json::with(info, "patch", Json::Unsigned(patch as u64));
    let info = json::with(info, "version", Json::Str(version::version_string()));
    let info = json::with(info, "lines", Json::Unsigned(snapshot.lines as u64));
    let info = json::with(info, "built_at_unix", Json::Unsigned(snapshot.built_at_unix));
    Json::Object(
        json::with(info, "db_format_version", Json::Unsigned(snapshot.format_version as u64)),
    )
}

pub fn dispatch(snapshot: &Snapshot, id: Json, op: &str, data: &Json) -> (r: Plan)
    requires
        index::strictly_sorted(snapshot.entries()),
    ensures
        r@ == dispatched(*snapshot, id@, op@, data@),
{
    if text::same(op, "get_event") {
        handle_get_event(snapshot, id, data)
    } else if text::same(op, "list_events") {
        handle_list_events(snapshot, id, data)
    } else if text::same(op, "list_tickers") {
        Plan::Answer(handle_list_tickers(snapshot, id, data))
    } else if text::same(op, "list_asset_ids") {
        handle_list_asset_ids(snapshot, id, data)
    } else if text::same(op, "prefix_search") {
        Plan::Answer(handle_prefix_search(snapshot, id, data))
    } else if text::same(op, "db_info") {
        Plan::Answer(ok_response(id, "db_info", db_info_json(snapshot)))
    } else {
        Plan::Answer(
            err_response(
                id,
                None,
                "bad_request",
                "unknown op '".to_owned().concat(op).concat("'"),
            ),
        )
    }
}

fn answer_unreadable(message: &str) -> (r: Plan)
    ensures
        r@ == PlanView::Answer(unreadable(message@)),
{
    Plan::Answer(
        err_response(
            Json::Null,
            None,
            "bad_request",
            "invalid request: ".to_owned().concat(message),
        ),
    )
}

/// Plans a parsed request.
pub fn plan_request(snapshot: &Snapshot, request: &Json) -> (r: Plan)
    requires
        index::strictly_sorted(snapshot.entries()),
    ensures
        r@ == planned(*snapshot, request@),
{
    match request {
        Json::Object(_) => {},
        other => {
            return answer_unreadable(other.clone().unexpected(envelope::FRAME).as_str());
        },
    }
    let op = match get_required_text(request, "op") {
        Ok(op) => op,
        Err(message) => {
            return answer_unreadable(message.as_str());
        },
    };
    let id = match request.get("id") {
        Some(id) => id.clone(),
        None => Json::Null,
    };
    dispatch(snapshot, id, op.as_str(), request)
}

/// Plans a request line.
pub fn plan_line(snapshot: &Snapshot, line: &str) -> (r: Plan)
    requires
        index::strictly_sorted(snapshot.entries()),
    ensures
        r@ == plan(*snapshot, line@),
{
    match envelope::read_request(line) {
        Ok(request) => plan_request(snapshot, &request),
        Err(message) => answer_unreadable(message.as_str()),
    }
}

// ---------------------------------------------------------------------------
// Asset identifiers
// ---------------------------------------------------------------------------

/// The asset identifiers of a market: normally a string that holds a JSON array of
/// strings; of a native array, the strings in it. Anything else holds none.
pub open spec fn market_asset_ids(market: JsonView) -> Seq<Seq<char>> {
    match json::field(market, "clobTokenIds"@) {
        Some(JsonView::Str(s)) => match json::json_parsed(vstd::utf8::encode_utf8(s)) {
            Ok(JsonView::Array(items)) => if json::all_strings(items) {
                json::strings_among(items)
            } else {
                Seq::empty()
            },
            _ => Seq::empty(),
        },
        Some(JsonView::Array(items)) => json::strings_among(items),
        _ => Seq::empty(),
    }
}

/// The asset identifiers of the first `n` markets, each with its market's index.
pub open spec fn asset_ids_of_first(markets: Seq<JsonView>, n: nat) -> Seq<(nat, Seq<char>)>
    decreases n,
{
    if n == 0 {
        Seq::empty()
    } else {
        asset_ids_of_first(markets, (n - 1) as nat) + market_asset_ids(markets[n - 1]).map_values(
            |id: Seq<char>| ((n - 1) as nat, id),
        )
    }
}

/// The asset identifiers of an event's markets, each with its market's index.
pub open spec fn asset_ids(markets: JsonView) -> Seq<(nat, Seq<char>)> {
    match markets {
        JsonView::Array(items) => asset_ids_of_first(items, items.len()),
        _ => Seq::empty(),
    }
}

/// The contents of a list of market indices and identifiers.
pub open spec fn pairs_view(pairs: Seq<(usize, String)>) -> Seq<(nat, Seq<char>)> {
    pairs.map_values(|p: (usize, String)| (p.0 as nat, p.1@))
}

fn get_market_asset_ids(market: &Json) -> (r: Vec<String>)
    ensures
        text::texts(r@) == market_asset_ids(market@),
{
    match market.get("clobTokenIds") {
        Some(Json::Str(s)) => {
            if let Ok(Json::Array(items)) = json::parse(s.as_str()) {
                let (found, all) = json::collect_strings(&items);
                if all {
                    return found;
                }
            }
        },
        Some(Json::Array(items)) => {
            return json::collect_strings(items).0;
        },
        _ => {},
    }
    let none: Vec<String> = Vec::new();
    assert(text::texts(none@) =~= Seq::empty());
    none
}

/// Gamma's `markets[].clobTokenIds` arrives as a JSON string that holds a JSON array;
/// a native array is taken too.
pub fn extract_asset_ids(markets: &Json) -> (out: Vec<(usize, String)>)
    ensures
        pairs_view(out@) == asset_ids(markets@),
{
    let mut out: Vec<(usize, String)> = Vec::new();
    assert(pairs_view(out@) =~= Seq::empty());
    let items = match markets {
        Json::Array(items) => items,
        _ => {
            return out;
        },
    };
    let ghost views = json::items_view(items@);
    proof {
        json::lemma_items_view(items@);
    }
    let mut market_index: usize = 0;
    while market_index < items.len()
        invariant
            market_index <= items.len(),
            views.len() == items@.len(),
            forall|k: int| 0 <= k < items@.len() ==> #[trigger] views[k] == items@[k]@,
            pairs_view(out@) == asset_ids_of_first(views, market_index as nat),
        decreases items.len() - market_index,
    {
        let mut ids = lists::reversed(get_market_asset_ids(&items[market_index]));
        let ghost all = market_asset_ids(views[market_index as int]);
        let ghost mut taken: int = 0;
        let ghost before = pairs_view(out@);
        let ghost number = market_index as nat;
        let ghost tag = |id: Seq<char>| (number, id);
        assert(all.take(0).map_values(tag) =~= Seq::empty());
        assert(text::texts(ids@) =~= all.reverse());
        while ids.len() > 0
            invariant
                0 <= taken <= all.len(),
                number == market_index,
                tag == (|id: Seq<char>| (number, id)),
                text::texts(ids@) == all.skip(taken).reverse(),
                pairs_view(out@) == before + all.take(taken).map_values(tag),
            decreases ids@.len(),
        {
            let ghost done = out@;
            let ghost rest = ids@;
            let asset_id = ids.pop().unwrap();
            assert(text::texts(rest).last() == all[taken]);
            assert(text::texts(ids@) =~= text::texts(rest).drop_last());
            assert(text::texts(ids@) =~= all.skip(taken + 1).reverse());
            out.push((market_index, asset_id));
            assert(pairs_view(out@) =~= pairs_view(done).push((number, all[taken])));
            assert(all.take(taken + 1).map_values(tag) =~= all.take(taken).map_values(tag).push(
                (number, all[taken]),
            ));
            proof {
                taken = taken + 1;
            }
        }
        assert(text::texts(ids@).len() == all.skip(taken).len());
        assert(all.take(taken) =~= all);
        market_index = market_index + 1;
        assert(tag == (|id: Seq<char>| ((market_index - 1) as nat, id)));
    }
    out
}

// ---------------------------------------------------------------------------
// Completion
// ---------------------------------------------------------------------------

/// What came of reading one record.
pub open spec fn outcome(r: Result<Json, String>) -> Result<JsonView, Seq<char>> {
    match r {
        Ok(value) => Ok(value@),
        Err(message) => Err(message@),
    }
}

/// What came of reading records.
pub open spec fn outcomes(records: Seq<Result<Json, String>>) -> Seq<
    Result<JsonView, Seq<char>>,
> {
    records.map_values(|r: Result<Json, String>| outcome(r))
}

/// The first record from the `i`-th on that could not be read.
pub open spec fn failure_from(records: Seq<Result<JsonView, Seq<char>>>, i: int) -> Option<int>
    decreases records.len() - i,
{
    if i < 0 || i >= records.len() {
        None
    } else if records[i] is Err {
        Some(i)
    } else {
        failure_from(records, i + 1)
    }
}

pub open spec fn read_failure(ticker: Seq<char>, message: Seq<char>) -> Seq<char> {
    "failed to read record '"@ + ticker + "': "@ + message
}

/// One asset identifier of an event.
pub open spec fn asset_entry(ticker: Seq<char>, market_index: nat, asset_id: Seq<char>) -> JsonView {
    JsonView::Object(
        json::no_fields().insert("asset_id"@, JsonView::Str(asset_id)).insert(
            "ticker"@,
            JsonView::Str(ticker),
        ).insert("market_index"@, JsonView::Unsigned(market_index as u64)),
    )
}

/// The markets of an event.
pub open spec fn markets_of(event: JsonView) -> JsonView {
    match json::field(event, "markets"@) {
        Some(markets) => markets,
        None => JsonView::Null,
    }
}

/// The asset identifiers of one event.
pub open spec fn event_assets(ticker: Seq<char>, event: JsonView) -> Seq<JsonView> {
    asset_ids(markets_of(event)).map_values(
        |pair: (nat, Seq<char>)| asset_entry(ticker, pair.0, pair.1),
    )
}

/// The asset identifiers of the first `n` events.
pub open spec fn assets_of_first(
    entries: Seq<EntryView>,
    records: Seq<Result<JsonView, Seq<char>>>,
    n: nat,
) -> Seq<JsonView>
    decreases n,
{
    if n == 0 {
        Seq::empty()
    } else {
        assets_of_first(entries, records, (n - 1) as nat) + event_assets(
            entries[n - 1].ticker,
            records[n - 1]->Ok_0,
        )
    }
}

/// The result of a request once all its records are read.
pub open spec fn read_result(
    read: ReadView,
    records: Seq<Result<JsonView, Seq<char>>>,
) -> JsonView {
    match read.op {
        ReadOp::GetEvent => JsonView::Object(
            json::no_fields().insert(
                "event"@,
                if records.len() > 0 {
                    records[0]->Ok_0
                } else {
                    JsonView::Null
                },
            ),
        ),
        ReadOp::ListEvents => JsonView::Object(
            json::no_fields().insert(
                "events"@,
                JsonView::Array(
                    records.map_values(|r: Result<JsonView, Seq<char>>| r->Ok_0),
                ),
            ).insert("next_after"@, json::optional_text(read.next_after)),
        ),
        ReadOp::ListAssetIds => JsonView::Object(
            json::no_fields().insert(
                "entries"@,
                JsonView::Array(assets_of_first(read.entries, records, records.len())),
            ).insert("next_after"@, json::optional_text(read.next_after)),
        ),
    }
}

/// The answer to a request once its records have been read, or one of them could not
/// be.
pub open spec fn completed(
    read: ReadView,
    records: Seq<Result<JsonView, Seq<char>>>,
) -> JsonView {
    match failure_from(records, 0) {
        Some(k) => err_view(
            read.id,
            Some(op_name(read.op)),
            "internal"@,
            read_failure(read.entries[k].ticker, records[k]->Err_0),
        ),
        None => ok_view(read.id, op_name(read.op), read_result(read, records)),
    }
}

/// One outcome per entry; the reading may have stopped at a failure.
pub open spec fn accounts_for(
    records: Seq<Result<JsonView, Seq<char>>>,
    entries: Seq<EntryView>,
) -> bool {
    ||| records.len() == entries.len()
    ||| 0 < records.len() < entries.len() && records.last() is Err
}

/// The answer to a request line, given the log that the snapshot describes.
pub open spec fn answer(snapshot: Snapshot, log: Seq<u8>, line: Seq<char>) -> JsonView {
    match plan(snapshot, line) {
        PlanView::Answer(response) => response,
        PlanView::Read(read) => completed(
            read,
            read.entries.map_values(|e: EntryView| database::record_value(log, e)),
        ),
    }
}

fn name_of(op: ReadOp) -> (r: &'static str)
    ensures
        r@ == op_name(op),
{
    match op {
        ReadOp::GetEvent => "get_event",
        ReadOp::ListEvents => "list_events",
        ReadOp::ListAssetIds => "list_asset_ids",
    }
}

/// Adds the asset identifiers of one event.
fn push_event_assets(items: &mut Vec<Json>, ticker: &str, event: &Json)
    ensures
        json::items_view(final(items)@) == json::items_view(old(items)@) + event_assets(
            ticker@,
            event@,
        ),
{
    let null = Json::Null;
    let markets = match event.get("markets") {
        Some(markets) => markets,
        None => &null,
    };
    let pairs = extract_asset_ids(markets);
    let ghost all = asset_ids(markets_of(event@));
    let ghost make = |pair: (nat, Seq<char>)| asset_entry(ticker@, pair.0, pair.1);
    let ghost before = json::items_view(items@);
    assert(all.take(0).map_values(make) =~= Seq::empty());
    let mut i: usize = 0;
    while i < pairs.len()
        invariant
            i <= pairs.len(),
            pairs_view(pairs@) == all,
            make == (|pair: (nat, Seq<char>)| asset_entry(ticker@, pair.0, pair.1)),
            json::items_view(items@) == before + all.take(i as int).map_values(make),
        decreases pairs.len() - i,
    {
        let (market_index, asset_id) = &pairs[i];
        assert(pairs_view(pairs@)[i as int] == (*market_index as nat, asset_id@));
        let entry = json::with(json::fields(), "asset_id", json::text_value(asset_id.as_str()));
        let entry = json::with(entry, "ticker", json::text_value(ticker));
        let entry = json::with(entry, "market_index", Json::Unsigned(*market_index as u64));
        json::push_item(items, Json::Object(entry));
        assert(all.take(i + 1).map_values(make) =~= all.take(i as int).map_values(make).push(
            make(all[i as int]),
        ));
        i = i + 1;
    }
    assert(all.take(i as int) =~= all);
}

impl PendingRead {
    fn list_events_result(
        records: Vec<Result<Json, String>>,
        next_after: Option<String>,
    ) -> (r: Json)
        requires
            forall|k: int| 0 <= k < records@.len() ==> #[trigger] records@[k] is Ok,
        ensures
            r@ == JsonView::Object(
                json::no_fields().insert(
                    "events"@,
                    JsonView::Array(
                        outcomes(records@).map_values(|r: Result<JsonView, Seq<char>>| r->Ok_0),
                    ),
                ).insert("next_after"@, json::optional_text(index::owned_view(next_after))),
            ),
    {
        let ghost all = records@;
        let ghost values = outcomes(all).map_values(|r: Result<JsonView, Seq<char>>| r->Ok_0);
        let mut rest = lists::reversed(records);
        let mut items: Vec<Json> = Vec::new();
        assert(values.take(0) =~= Seq::empty());
        while rest.len() > 0
            invariant
                forall|k: int| 0 <= k < all.len() ==> #[trigger] all[k] is Ok,
                values == outcomes(all).map_values(|r: Result<JsonView, Seq<char>>| r->Ok_0),
                items@.len() <= all.len(),
                rest@ == all.skip(items@.len() as int).reverse(),
                json::items_view(items@) == values.take(items@.len() as int),
            decreases rest@.len(),
        {
            let ghost n = items@.len() as int;
            let record = rest.pop().unwrap();
            assert(record == all[n]);
            assert(values[n] == record->Ok_0@);
            assert(rest@ =~= all.skip(n + 1).reverse());
            if let Ok(value) = record {
                json::push_item(&mut items, value);
            }
            assert(values.take(n + 1) =~= values.take(n).push(values[n]));
        }
        assert(values.take(items@.len() as int) =~= values);
        let result = json::with(json::fields(), "events", Json::Array(items));
        Json::Object(json::with(result, "next_after", json::optional_text_value(next_after)))
    }

    fn list_asset_ids_result(
        entries: &Vec<IndexEntry>,
        records: &Vec<Result<Json, String>>,
        next_after: Option<String>,
    ) -> (r: Json)
        requires
            records@.len() == entries@.len(),
            forall|k: int| 0 <= k < records@.len() ==> #[trigger] records@[k] is Ok,
        ensures
            r@ == JsonView::Object(
                json::no_fields().insert(
                    "entries"@,
                    JsonView::Array(
                        assets_of_first(
                            index::views(entries@),
                            outcomes(records@),
                            records@.len(),
                        ),
                    ),
                ).insert("next_after"@, json::optional_text(index::owned_view(next_after))),
            ),
    {
        let mut items: Vec<Json> = Vec::new();
        let mut i: usize = 0;
        while i < records.len()
            invariant
                i <= records.len(),
                records@.len() == entries@.len(),
                forall|k: int| 0 <= k < records@.len() ==> #[trigger] records@[k] is Ok,
                json::items_view(items@) == assets_of_first(
                    index::views(entries@),
                    outcomes(records@),
                    i as nat,
                ),
            decreases records.len() - i,
        {
            assert(records@[i as int] is Ok);
            assert(outcomes(records@)[i as int] == outcome(records@[i as int]));
            assert(index::views(entries@)[i as int] == entries@[i as int]@);
            if let Ok(event) = &records[i] {
                push_event_assets(&mut items, entries[i].ticker.as_str(), event);
            }
            i = i + 1;
        }
        let result = json::with(json::fields(), "entries", Json::Array(items));
        Json::Object(json::with(result, "next_after", json::optional_text_value(next_after)))
    }

    /// Answers the request with the documents of its records. The list may stop at the
    /// first record that could not be read.
    pub fn complete(self, records: Vec<Result<Json, String>>) -> (r: Json)
        requires
            accounts_for(outcomes(records@), self@.entries),
        ensures
            r@ == completed(self@, outcomes(records@)),
    {
        let ghost all = outcomes(records@);
        let mut i: usize = 0;
        while i < records.len()
            invariant
                i <= records.len(),
                all == outcomes(records@),
                accounts_for(all, self@.entries),
                forall|k: int| 0 <= k < i ==> #[trigger] records@[k] is Ok,
                failure_from(all, 0) == failure_from(all, i as int),
            decreases records.len() - i,
        {
            assert(all[i as int] == outcome(records@[i as int]));
            if let Err(message) = &records[i] {
                assert(index::views(self.entries@)[i as int] == self.entries@[i as int]@);
                let detail = "failed to read record '".to_owned().concat(
                    self.entries[i].ticker.as_str(),
                ).concat("': ").concat(message.as_str());
                return err_response(self.id, Some(name_of(self.op)), "internal", detail);
            }
            i = i + 1;
        }
        assert(all.len() == self@.entries.len()) by {
            if 0 < all.len() < self@.entries.len() {
                assert(all.last() == outcome(records@[all.len() - 1]));
            }
        }
        let result = match self.op {
            ReadOp::GetEvent => {
                let mut rest = lists::reversed(records);
                let event = match rest.pop() {
                    Some(Ok(event)) => event,
                    _ => Json::Null,
                };
                Json::Object(json::with(json::fields(), "event", event))
            },
            ReadOp::ListEvents => Self::list_events_result(records, self.next_after),
            ReadOp::ListAssetIds => Self::list_asset_ids_result(
                &self.entries,
                &records,
                self.next_after,
            ),
        };
        ok_response(self.id, name_of(self.op), result)
    }
}

/// What comes of one record's bytes.
pub open spec fn raw_outcome(r: Result<Vec<u8>, String>) -> Result<JsonView, Seq<char>> {
    match r {
        Ok(bytes) => json::json_parsed(bytes@),
        Err(message) => Err(message@),
    }
}

/// What comes of the bytes of records.
pub open spec fn raw_outcomes(records: Seq<Result<Vec<u8>, String>>) -> Seq<
    Result<JsonView, Seq<char>>,
> {
    records.map_values(|r: Result<Vec<u8>, String>| raw_outcome(r))
}

/// A request in progress.
pub enum Step {
    /// The response line.
    Respond(String),
    /// Records to read first.
    Read(PendingRead),
}

/// Takes a request line as far as it goes without the log.
pub fn begin(snapshot: &Snapshot, line: &str) -> (r: Step)
    requires
        index::strictly_sorted(snapshot.entries()),
    ensures
        match (r, plan(*snapshot, line@)) {
            (Step::Respond(text), PlanView::Answer(response)) => json::is_line_of(text@, response),
            (Step::Read(pending), PlanView::Read(read)) => pending@ == read,
            _ => false,
        },
{
    match plan_line(snapshot, line) {
        Plan::Answer(response) => Step::Respond(response.render()),
        Plan::Read(pending) => Step::Read(pending),
    }
}

impl PendingRead {
    /// The response line, given the bytes of the records, or why one could not be
    /// read. The list may stop at the first failure.
    pub fn finish(self, records: Vec<Result<Vec<u8>, String>>) -> (r: String)
        requires
            accounts_for(raw_outcomes(records@), self@.entries),
        ensures
            json::is_line_of(r@, completed(self@, raw_outcomes(records@))),
    {
        let mut values: Vec<Result<Json, String>> = Vec::new();
        let mut i: usize = 0;
        let ghost all = raw_outcomes(records@);
        assert(outcomes(values@) =~= all.take(0));
        while i < records.len()
            invariant
                i <= records.len(),
                all == raw_outcomes(records@),
                outcomes(values@) == all.take(i as int),
            decreases records.len() - i,
        {
            let ghost done = values@;
            let value = match &records[i] {
                Ok(bytes) => json::parse_bytes(bytes.as_slice()),
                Err(message) => Err(message.clone()),
            };
            assert(all[i as int] == raw_outcome(records@[i as int]));
            values.push(value);
            assert(outcomes(values@) =~= outcomes(done).push(outcome(value)));
            assert(all.take(i + 1) =~= all.take(i as int).push(all[i as int]));
            i = i + 1;
        }
        assert(all.take(i as int) =~= all);
        self.complete(values).render()
    }
}

/// Reads one request line and returns one response line. A bad line is answered too,
/// with an error. `log` is the log that `snapshot` describes.
pub fn handle_line(snapshot: &Snapshot, log: &[u8], line: &str) -> (r: String)
    requires
        index::strictly_sorted(snapshot.entries()),
    ensures
        json::is_line_of(r@, answer(*snapshot, log@, line@)),
{
    match plan_line(snapshot, line) {
        Plan::Answer(response) => response.render(),
        Plan::Read(pending) => {
            let mut values: Vec<Result<Json, String>> = Vec::new();
            let ghost all = pending@.entries.map_values(
                |e: EntryView| database::record_value(log@, e),
            );
            let mut i: usize = 0;
            assert(outcomes(values@) =~= all.take(0));
            while i < pending.entries.len()
                invariant
                    i <= pending.entries@.len(),
                    all == index::views(pending.entries@).map_values(
                        |e: EntryView| database::record_value(log@, e),
                    ),
                    outcomes(values@) == all.take(i as int),
                decreases pending.entries@.len() - i,
            {
                let ghost done = values@;
                let value = database::read_value(log, &pending.entries[i]);
                assert(all[i as int] == database::record_value(
                    log@,
                    pending.entries@[i as int]@,
                ));
                values.push(value);
                assert(outcomes(values@) =~= outcomes(done).push(outcome(value)));
                assert(all.take(i + 1) =~= all.take(i as int).push(all[i as int]));
                i = i + 1;
            }
            assert(all.take(i as int) =~= all);
            pending.complete(values).render()
        },
    }
}

// ---------------------------------------------------------------------------
// Laws of the protocol
// ---------------------------------------------------------------------------

/// The error code of a response.
pub open spec fn error_code(response: JsonView) -> Option<Seq<char>> {
    match json::field(response, "error"@) {
        Some(detail) => json::text_of(json::field(detail, "code"@)),
        None => None,
    }
}

/// The shape of every response: the request's identifier and operation, the version,
/// and either a result or an error.
pub open spec fn is_response(v: JsonView) -> bool {
    &&& json::field(v, "id"@) is Some
    &&& json::field(v, "op"@) is Some
    &&& json::field(v, "db_version"@) == Some(JsonView::Str(version::version_text()))
    &&& match json::field(v, "ok"@) {
        Some(JsonView::Bool(true)) => json::field(v, "result"@) is Some && json::field(v, "error"@)
            is None,
        Some(JsonView::Bool(false)) => json::field(v, "result"@) is None && (error_code(v) == Some(
            "bad_request"@,
        ) || error_code(v) == Some("internal"@)),
        _ => false,
    }
}

proof fn lemma_keys_differ()
    ensures
        "id"@ != "op"@,
        "id"@ != "ok"@,
        "id"@ != "db_version"@,
        "id"@ != "result"@,
        "id"@ != "error"@,
        "op"@ != "ok"@,
        "op"@ != "db_version"@,
        "op"@ != "result"@,
        "op"@ != "error"@,
        "ok"@ != "db_version"@,
        "ok"@ != "result"@,
        "ok"@ != "error"@,
        "db_version"@ != "result"@,
        "db_version"@ != "error"@,
        "result"@ != "error"@,
        "code"@ != "message"@,
        "bad_request"@ != "internal"@,
{
    reveal_strlit("id");
    reveal_strlit("op");
    reveal_strlit("ok");
    reveal_strlit("db_version");
    reveal_strlit("result");
    reveal_strlit("error");
    reveal_strlit("code");
    reveal_strlit("message");
    reveal_strlit("bad_request");
    reveal_strlit("internal");
    assert("id"@[0] == 'i');
    assert("op"@[0] == 'o' && "op"@[1] == 'p');
    assert("ok"@[0] == 'o' && "ok"@[1] == 'k');
    assert("db_version"@.len() == 10);
    assert("result"@.len() == 6);
    assert("error"@.len() == 5);
    assert("code"@.len() == 4);
    assert("message"@.len() == 7);
    assert("bad_request"@.len() == 11);
    assert("internal"@.len() == 8);
}

proof fn lemma_ok_view(id: JsonView, op: Seq<char>, result: JsonView)
    ensures
        is_response(ok_view(id, op, result)),
        json::field(ok_view(id, op, result), "id"@) == Some(id),
        json::field(ok_view(id, op, result), "op"@) == Some(JsonView::Str(op)),
        json::field(ok_view(id, op, result), "ok"@) == Some(JsonView::Bool(true)),
        json::field(ok_view(id, op, result), "result"@) == Some(result),
        error_code(ok_view(id, op, result)) is None,
{
    lemma_keys_differ();
}

proof fn lemma_err_view(
    id: JsonView,
    op: Option<Seq<char>>,
    code: Seq<char>,
    message: Seq<char>,
)
    requires
        code == "bad_request"@ || code == "internal"@,
    ensures
        is_response(err_view(id, op, code, message)),
        json::field(err_view(id, op, code, message), "id"@) == Some(id),
        json::field(err_view(id, op, code, message), "op"@) == Some(json::optional_text(op)),
        json::field(err_view(id, op, code, message), "ok"@) == Some(JsonView::Bool(false)),
        error_code(err_view(id, op, code, message)) == Some(code),
{
    lemma_keys_differ();
}

/// What all answers to requests with identifier `id` have in common.
spec fn answers(id: JsonView, v: JsonView) -> bool {
    is_response(v) && json::field(v, "id"@) == Some(id)
}

proof fn lemma_refusal(id: JsonView, op: Seq<char>, message: Seq<char>)
    ensures
        answers(id, refusal(id, op, message)),
        error_code(refusal(id, op, message)) == Some("bad_request"@),
{
    lemma_err_view(id, Some(op), "bad_request"@, message);
}

proof fn lemma_dispatched(snapshot: Snapshot, id: JsonView, op: Seq<char>, data: JsonView)
    ensures
        match dispatched(snapshot, id, op, data) {
            PlanView::Answer(v) => answers(id, v) && error_code(v) != Some("internal"@),
            PlanView::Read(read) => read.id == id,
        },
{
    lemma_keys_differ();
    assert forall|name: Seq<char>, message: Seq<char>| answers(
        id,
        #[trigger] refusal(id, name, message),
    ) && error_code(refusal(id, name, message)) == Some("bad_request"@) by {
        lemma_refusal(id, name, message);
    }
    assert forall|name: Seq<char>, result: JsonView| answers(
        id,
        #[trigger] ok_view(id, name, result),
    ) && error_code(ok_view(id, name, result)) is None by {
        lemma_ok_view(id, name, result);
    }
    lemma_err_view(id, None, "bad_request"@, "unknown op '"@ + op + "'"@);
}

proof fn lemma_completed(read: ReadView, records: Seq<Result<JsonView, Seq<char>>>)
    ensures
        answers(read.id, completed(read, records)),
        failure_from(records, 0) is None ==> error_code(completed(read, records)) is None,
{
    match failure_from(records, 0) {
        Some(k) => {
            lemma_err_view(
                read.id,
                Some(op_name(read.op)),
                "internal"@,
                read_failure(read.entries[k].ticker, records[k]->Err_0),
            );
        },
        None => {
            lemma_ok_view(read.id, op_name(read.op), read_result(read, records));
        },
    }
}

proof fn lemma_unreadable(message: Seq<char>)
    ensures
        answers(JsonView::Null, unreadable(message)),
        json::field(unreadable(message), "op"@) == Some(JsonView::Null),
        json::field(unreadable(message), "ok"@) == Some(JsonView::Bool(false)),
        error_code(unreadable(message)) == Some("bad_request"@),
{
    lemma_err_view(JsonView::Null, None, "bad_request"@, "invalid request: "@ + message);
}

/// Every request line is answered with a response, whatever is on it, and every
/// response tells the version.
pub proof fn law_every_line_is_answered(snapshot: Snapshot, log: Seq<u8>, line: Seq<char>)
    ensures
        is_response(answer(snapshot, log, line)),
{
    match envelope::request_on(line) {
        Err(message) => {
            lemma_unreadable(message);
        },
        Ok(request) => {
            lemma_request(snapshot, log, line, request);
        },
    }
}

proof fn lemma_request(snapshot: Snapshot, log: Seq<u8>, line: Seq<char>, request: JsonView)
    requires
        envelope::request_on(line) == Ok::<JsonView, Seq<char>>(request),
    ensures
        is_response(answer(snapshot, log, line)),
        required_text(request, "op"@) is Ok ==> answers(
            request_id(request),
            answer(snapshot, log, line),
        ),
{
    if !(request is Object) {
        lemma_unreadable(json::wrong_type(request, envelope::FRAME@));
    } else {
        match required_text(request, "op"@) {
            Err(message) => {
                lemma_unreadable(message);
            },
            Ok(op) => {
                lemma_dispatched(snapshot, request_id(request), op, request);
                if let PlanView::Read(read) = plan(snapshot, line) {
                    lemma_completed(
                        read,
                        read.entries.map_values(|e: EntryView| database::record_value(log, e)),
                    );
                }
            },
        }
    }
}

/// The identifier of a request comes back in its response, `null` where there is none.
pub proof fn law_id_is_echoed(
    snapshot: Snapshot,
    log: Seq<u8>,
    line: Seq<char>,
    request: JsonView,
)
    requires
        envelope::request_on(line) == Ok::<JsonView, Seq<char>>(request),
        required_text(request, "op"@) is Ok,
    ensures
        json::field(answer(snapshot, log, line), "id"@) == Some(request_id(request)),
{
    lemma_request(snapshot, log, line, request);
}

/// A line that is no request is answered with an error that names neither an
/// identifier nor an operation.
pub proof fn law_malformed_line_is_refused(snapshot: Snapshot, log: Seq<u8>, line: Seq<char>)
    requires
        envelope::request_on(line) matches Ok(request) ==> required_text(
            request,
            "op"@,
        ) is Err,
    ensures
        ({
            let response = answer(snapshot, log, line);
            &&& json::field(response, "ok"@) == Some(JsonView::Bool(false))
            &&& json::field(response, "id"@) == Some(JsonView::Null)
            &&& json::field(response, "op"@) == Some(JsonView::Null)
            &&& error_code(response) == Some("bad_request"@)
        }),
{
    match envelope::request_on(line) {
        Err(message) => {
            lemma_unreadable(message);
        },
        Ok(request) => {
            lemma_unreadable(json::wrong_type(request, envelope::FRAME@));
            lemma_unreadable(required_text(request, "op"@)->Err_0);
        },
    }
}

/// An unknown operation is refused, and its name is not passed on as an operation.
pub proof fn law_unknown_op_is_refused(
    snapshot: Snapshot,
    id: JsonView,
    op: Seq<char>,
    data: JsonView,
)
    requires
        op != "get_event"@,
        op != "list_events"@,
        op != "list_tickers"@,
        op != "list_asset_ids"@,
        op != "prefix_search"@,
        op != "db_info"@,
    ensures
        dispatched(snapshot, id, op, data) matches PlanView::Answer(v) && json::field(v, "op"@)
            == Some(JsonView::Null) && error_code(v) == Some("bad_request"@),
{
    lemma_err_view(id, None, "bad_request"@, "unknown op '"@ + op + "'"@);
}

/// All entries of the snapshot stand for records of the log.
pub open spec fn paired(snapshot: Snapshot, log: Seq<u8>) -> bool {
    forall|i: int|
        0 <= i < snapshot.entries().len() ==> database::locates(
            log,
            #[trigger] snapshot.entries()[i],
        )
}

pub proof fn lemma_no_failure(records: Seq<Result<JsonView, Seq<char>>>, i: int)
    requires
        0 <= i <= records.len(),
        forall|k: int| 0 <= k < records.len() ==> #[trigger] records[k] is Ok,
    ensures
        failure_from(records, i) is None,
    decreases records.len() - i,
{
    if i < records.len() {
        assert(records[i] is Ok);
        lemma_no_failure(records, i + 1);
    }
}

/// Where no record failed, all were read.
pub proof fn lemma_all_ok(records: Seq<Result<JsonView, Seq<char>>>, i: int)
    requires
        0 <= i <= records.len(),
        failure_from(records, i) is None,
    ensures
        forall|k: int| i <= k < records.len() ==> #[trigger] records[k] is Ok,
    decreases records.len() - i,
{
    if i < records.len() {
        lemma_all_ok(records, i + 1);
    }
}

/// A page holds entries of the index.
proof fn lemma_page_of_index(
    entries: Seq<EntryView>,
    after: Option<Seq<char>>,
    limit: nat,
    k: int,
)
    requires
        0 <= k < index::page(entries, after, limit).len(),
    ensures
        entries.contains(index::page(entries, after, limit)[k]),
{
    let keep = |e: EntryView| index::beyond(after, e.ticker);
    let rest = index::entries_after(entries, after);
    assert(rest[k] == index::page(entries, after, limit)[k]);
    assert(rest.contains(rest[k]));
    entries.lemma_filter_contains_rev(keep, rest[k]);
}

/// The records that a request waits for are records of the index.
proof fn lemma_reads_index(snapshot: Snapshot, line: Seq<char>, k: int)
    requires
        plan(snapshot, line) matches PlanView::Read(read) && 0 <= k < read.entries.len(),
    ensures
        snapshot.entries().contains(plan(snapshot, line)->Read_0.entries[k]),
{
    let entries = snapshot.entries();
    let request = envelope::request_on(line)->Ok_0;
    let op = required_text(request, "op"@)->Ok_0;
    if op == "get_event"@ {
        let ticker = text::trimmed(required_text(request, "ticker"@)->Ok_0);
        let found = index::of_ticker(entries, ticker);
        assert(found.contains(found.last()));
        entries.lemma_filter_contains_rev(|e: EntryView| e.ticker == ticker, found.last());
    } else if op == "list_events"@ {
        let (after, limit) = cursor_params(
            request,
            "limit"@,
            DEFAULT_LIST_EVENTS_LIMIT,
            MAX_LIST_EVENTS_LIMIT,
        )->Ok_0;
        lemma_page_of_index(entries, after, limit as nat, k);
    } else {
        let (after, limit) = cursor_params(
            request,
            "ticker_limit"@,
            DEFAULT_LIST_ASSET_IDS_LIMIT,
            MAX_LIST_ASSET_IDS_LIMIT,
        )->Ok_0;
        lemma_page_of_index(entries, after, limit as nat, k);
    }
}

/// As long as a snapshot and its log belong together, no request fails on a record.
pub proof fn law_paired_log_never_fails(snapshot: Snapshot, log: Seq<u8>, line: Seq<char>)
    requires
        paired(snapshot, log),
    ensures
        error_code(answer(snapshot, log, line)) != Some("internal"@),
{
    lemma_keys_differ();
    match envelope::request_on(line) {
        Err(message) => {
            lemma_unreadable(message);
        },
        Ok(request) => {
            lemma_unreadable(json::wrong_type(request, envelope::FRAME@));
            match required_text(request, "op"@) {
                Err(message) => {
                    lemma_unreadable(message);
                },
                Ok(op) => {
                    lemma_dispatched(snapshot, request_id(request), op, request);
                },
            }
            if let PlanView::Read(read) = plan(snapshot, line) {
                let records = read.entries.map_values(
                    |e: EntryView| database::record_value(log, e),
                );
                assert forall|k: int| 0 <= k < records.len() implies #[trigger] records[k] is Ok by {
                    lemma_reads_index(snapshot, line, k);
                    let i = choose|i: int|
                        0 <= i < snapshot.entries().len() && snapshot.entries()[i]
                            == read.entries[k];
                    assert(database::locates(log, snapshot.entries()[i]));
                }
                lemma_no_failure(records, 0);
                lemma_completed(read, records);
            }
        },
    }
}

/// `get_event` finds exactly the tickers of the snapshot, and hands out a record that
/// names the ticker asked for; for any other ticker the event is `null`.
pub proof fn law_get_event_finds_its_record(
    snapshot: Snapshot,
    log: Seq<u8>,
    id: JsonView,
    data: JsonView,
    given: Seq<char>,
)
    requires
        index::strictly_sorted(snapshot.entries()),
        paired(snapshot, log),
        required_text(data, "ticker"@) == Ok::<Seq<char>, Seq<char>>(given),
        text::trimmed(given).len() > 0,
    ensures
        ({
            let ticker = text::trimmed(given);
            match get_event_plan(snapshot.entries(), id, data) {
                PlanView::Answer(response) => {
                    &&& !index::has_ticker(snapshot.entries(), ticker)
                    &&& response == ok_view(
                        id,
                        "get_event"@,
                        JsonView::Object(json::no_fields().insert("event"@, JsonView::Null)),
                    )
                },
                PlanView::Read(read) => {
                    &&& index::has_ticker(snapshot.entries(), ticker)
                    &&& read.entries.len() == 1
                    &&& read.entries[0].ticker == ticker
                    &&& database::record_value(log, read.entries[0]) matches Ok(event) && (
                    json::text_of(json::field(event, "ticker"@)) matches Some(name)
                        && text::trimmed(name) == ticker)
                },
            }
        }),
{
    let entries = snapshot.entries();
    let ticker = text::trimmed(given);
    index::lemma_absent_selects_nothing(entries, ticker);
    if index::has_ticker(entries, ticker) {
        let i = choose|i: int| 0 <= i < entries.len() && #[trigger] entries[i].ticker == ticker;
        index::lemma_selection_of_index(entries, i);
        assert(database::locates(log, entries[i]));
    }
}

} // verus!
