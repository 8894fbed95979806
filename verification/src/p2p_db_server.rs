//! The tailnet-facing side: peers ask what the database is like, and ask for it. The
//! surface is two operations wide.

use crate::api;
use crate::database::Snapshot;
use crate::json;
use crate::json::{Json, JsonView};
use crate::mesh_sync;
use crate::text;
use vstd::prelude::*;

verus! {

/// Carries the requests and their answers.
pub const CONTROL_PORT: u16 = 9563;

/// Carries compressed logs, one per connection, and nothing else.
pub const RAW_TRANSFER_PORT: u16 = 9564;

/// How much of a log is compressed at a time.
pub const TRANSFER_CHUNK_BYTES: usize = 262_144;

/// How long a requester may take to connect, and a transfer to stand still.
pub const PULL_TIMEOUT_SECS: u64 = 120;

/// How often to look for the requester's connection.
pub const ACCEPT_POLL_INTERVAL_MILLIS: u64 = 100;

pub const CONTROL_READ_TIMEOUT_SECS: u64 = 30;

pub const CONTROL_WRITE_TIMEOUT_SECS: u64 = 10;

/// The longest line that is read.
pub const MAX_CONTROL_LINE_BYTES: u64 = 65_536;

// ---------------------------------------------------------------------------
// Answers
// ---------------------------------------------------------------------------

/// The answer that all is well.
pub open spec fn ok_view() -> JsonView {
    JsonView::Object(json::no_fields().insert("ok"@, JsonView::Bool(true)))
}

/// The answer that something is wrong.
pub open spec fn error_view(error: Seq<char>) -> JsonView {
    JsonView::Object(
        json::no_fields().insert("ok"@, JsonView::Bool(false)).insert(
            "error"@,
            JsonView::Str(error),
        ),
    )
}

/// The answer that tells about a snapshot.
pub open spec fn info_view(snapshot: Snapshot) -> JsonView {
    JsonView::Object(
        json::no_fields().insert("ok"@, JsonView::Bool(true)).insert(
            "result"@,
            api::snapshot_info(snapshot),
        ),
    )
}

/// The line that says that all is well, or what is wrong.
pub fn response_line(error: Option<&str>) -> (line: String)
    ensures
        json::is_line_of(
            line@,
            match error {
                Some(error) => error_view(error@),
                None => ok_view(),
            },
        ),
{
    let answer = match error {
        Some(error) => json::with(
            json::with(json::fields(), "ok", Json::Bool(false)),
            "error",
            json::text_value(error),
        ),
        None => json::with(json::fields(), "ok", Json::Bool(true)),
    };
    Json::Object(answer).render()
}

fn error_line(kind: &str, detail: &str) -> (line: String)
    ensures
        json::is_line_of(line@, error_view(kind@ + detail@)),
{
    let error = kind.to_owned().concat(detail);
    response_line(Some(error.as_str()))
}

// ---------------------------------------------------------------------------
// Requests
// ---------------------------------------------------------------------------

/// What to do about a line of a peer's.
pub enum ControlStep {
    /// Nothing: the line is blank.
    Ignore,
    /// Answer, and go on.
    Reply(String),
    /// Answer, and close the connection.
    ReplyAndClose(String),
    /// Go about sending the database, and close the connection.
    Pull,
}

/// What to do about a line of a peer's, and what to answer.
pub enum ControlView {
    Ignore,
    Reply(JsonView),
    ReplyAndClose(JsonView),
    Pull,
}

/// The operation that a request names.
pub open spec fn op_of(request: JsonView) -> Seq<char> {
    match json::text_of(json::field(request, "op"@)) {
        Some(op) => op,
        None => ""@,
    }
}

/// What to do about a request.
pub open spec fn control_request(snapshot: Snapshot, request: JsonView) -> ControlView {
    let op = op_of(request);
    if op == "db_info"@ {
        ControlView::Reply(info_view(snapshot))
    } else if op == "request_pull"@ {
        ControlView::Pull
    } else {
        ControlView::Reply(error_view("unknown_op: "@ + op))
    }
}

/// What to do about a line. A line without a line feed is longer than is read.
pub open spec fn control(snapshot: Snapshot, line: Seq<char>) -> ControlView {
    let content = text::without_line_end(line);
    if !(line.len() > 0 && line.last() == '\n') {
        ControlView::ReplyAndClose(error_view("line_too_long"@))
    } else if content.len() == 0 {
        ControlView::Ignore
    } else {
        match json::json_parsed(vstd::utf8::encode_utf8(content)) {
            Err(message) => ControlView::Reply(error_view("bad_request: "@ + message)),
            Ok(request) => control_request(snapshot, request),
        }
    }
}

/// The step is what the view says, with its answer on a line.
pub open spec fn carries_out(step: ControlStep, view: ControlView) -> bool {
    match (step, view) {
        (ControlStep::Ignore, ControlView::Ignore) => true,
        (ControlStep::Reply(line), ControlView::Reply(answer)) => json::is_line_of(line@, answer),
        (ControlStep::ReplyAndClose(line), ControlView::ReplyAndClose(answer)) => json::is_line_of(
            line@,
            answer,
        ),
        (ControlStep::Pull, ControlView::Pull) => true,
        _ => false,
    }
}

/// Handles a parsed request.
pub fn handle_request(snapshot: &Snapshot, request: &Json) -> (r: ControlStep)
    ensures
        carries_out(r, control_request(*snapshot, request@)),
{
    let op = match request.get_str("op") {
        Some(op) => op,
        None => "",
    };
    if text::same(op, "db_info") {
        let answer = json::with(json::fields(), "ok", Json::Bool(true));
        let answer = json::with(answer, "result", api::db_info_json(snapshot));
        ControlStep::Reply(Json::Object(answer).render())
    } else if text::same(op, "request_pull") {
        ControlStep::Pull
    } else {
        ControlStep::Reply(error_line("unknown_op: ", op))
    }
}

/// Handles a line of a peer's.
pub fn handle_control_line(snapshot: &Snapshot, line: &str) -> (r: ControlStep)
    ensures
        carries_out(r, control(*snapshot, line@)),
{
    if !text::ends_line(line) {
        return ControlStep::ReplyAndClose(response_line(Some("line_too_long")));
    }
    let content = text::strip_line_end(line);
    if content.is_empty() {
        return ControlStep::Ignore;
    }
    match json::parse(content) {
        Ok(request) => handle_request(snapshot, &request),
        Err(message) => ControlStep::Reply(error_line("bad_request: ", message.as_str())),
    }
}

/// The line that one instance sends about its database tells another when the database
/// was built and in which format.
pub proof fn law_info_is_understood(line: Seq<char>, snapshot: Snapshot)
    requires
        json::is_line_of(line, info_view(snapshot)),
    ensures
        mesh_sync::info_in_line(line.push('\n')) == Some(
            (snapshot.built_at_unix, snapshot.format_version),
        ),
{
    reveal_strlit("ok");
    reveal_strlit("result");
    reveal_strlit("built_at_unix");
    reveal_strlit("db_format_version");
    assert("ok"@.len() != "result"@.len());
    assert("built_at_unix"@.len() != "db_format_version"@.len());
    reveal_with_fuel(json::plain_within, 3);
    assert(json::plain_within(info_view(snapshot), json::max_depth()));
    text::lemma_trimmed_line(line);
}

/// The line that invites a requester to connect is taken as that, and the line that
/// turns it away as that, with the reason it states.
pub proof fn law_pull_answer_is_understood(line: Seq<char>, refusal: Seq<char>, error: Seq<char>)
    requires
        json::is_line_of(line, ok_view()),
        json::is_line_of(refusal, error_view(error)),
    ensures
        mesh_sync::pull_outcome(line.push('\n')) == mesh_sync::PullOutcome::Invited,
        mesh_sync::pull_outcome(refusal.push('\n')) == mesh_sync::PullOutcome::Declined(error),
{
    reveal_strlit("ok");
    reveal_strlit("error");
    assert("ok"@.len() != "error"@.len());
    reveal_with_fuel(json::plain_within, 2);
    assert(json::plain_within(ok_view(), json::max_depth()));
    assert(json::plain_within(error_view(error), json::max_depth()));
    text::lemma_trimmed_line(line);
    text::lemma_trimmed_line(refusal);
}

// ---------------------------------------------------------------------------
// Sending the database
// ---------------------------------------------------------------------------

/// How far the sending of a database has come. Nobody else is served meanwhile, from
/// the lock on, until it is over.
#[derive(Debug, Clone, Copy, PartialEq, Eq, Structural)]
pub enum PullState {
    /// Nobody else may be being served.
    Locking,
    /// The port for the transfer is being opened.
    Binding,
    /// The requester has been told to connect.
    Accepting,
    /// The log is being sent.
    Sending,
    /// All is over: the port is closed and the lock is released.
    Finished,
}

/// What happens in the course of it.
pub enum PullEvent {
    /// The lock is held.
    Locked,
    /// Somebody else is being served.
    Busy,
    /// The port is open.
    Bound,
    /// The port cannot be opened.
    BindFailed(String),
    /// Somebody has connected, from this address.
    Connected(String),
    /// Nobody has connected yet.
    NobodyYet { past_deadline: bool },
    /// The port fails.
    AcceptFailed,
    /// The log has been sent, or could not be.
    Done,
}

/// What to do next.
pub enum PullAction {
    /// Open the port.
    Bind,
    /// Answer the requester, and stop.
    Decline(String),
    /// Tell the requester to connect, and wait for that.
    Invite(String),
    /// Turn the connection away, and go on waiting.
    Refuse,
    /// Wait a moment.
    Wait,
    /// Close the port, and send the log over the connection.
    Send,
    /// Close what is open, and stop.
    Stop,
}

/// What to do next, and what to answer.
pub enum PullActionView {
    Bind,
    Decline(JsonView),
    Invite(JsonView),
    Refuse,
    Wait,
    Send,
    Stop,
}

/// The course of sending a database to `requester`.
pub open spec fn pull_step(state: PullState, event: PullEvent, requester: Seq<char>) -> (
    PullState,
    PullActionView,
) {
    match (state, event) {
        (PullState::Locking, PullEvent::Locked) => (PullState::Binding, PullActionView::Bind),
        (PullState::Locking, PullEvent::Busy) => (
            PullState::Finished,
            PullActionView::Decline(error_view("busy"@)),
        ),
        (PullState::Binding, PullEvent::Bound) => (
            PullState::Accepting,
            PullActionView::Invite(ok_view()),
        ),
        (PullState::Binding, PullEvent::BindFailed(message)) => (
            PullState::Finished,
            PullActionView::Decline(error_view("bind_failed: "@ + message@)),
        ),
        (PullState::Accepting, PullEvent::Connected(address)) => if address@ == requester {
            (PullState::Sending, PullActionView::Send)
        } else {
            (PullState::Accepting, PullActionView::Refuse)
        },
        (PullState::Accepting, PullEvent::NobodyYet { past_deadline }) => if past_deadline {
            (PullState::Finished, PullActionView::Stop)
        } else {
            (PullState::Accepting, PullActionView::Wait)
        },
        _ => (PullState::Finished, PullActionView::Stop),
    }
}

/// The action is what the view says, with its answer on a line.
pub open spec fn performs(action: PullAction, view: PullActionView) -> bool {
    match (action, view) {
        (PullAction::Bind, PullActionView::Bind) => true,
        (PullAction::Decline(line), PullActionView::Decline(answer)) => json::is_line_of(line@, answer),
        (PullAction::Invite(line), PullActionView::Invite(answer)) => json::is_line_of(line@, answer),
        (PullAction::Refuse, PullActionView::Refuse) => true,
        (PullAction::Wait, PullActionView::Wait) => true,
        (PullAction::Send, PullActionView::Send) => true,
        (PullAction::Stop, PullActionView::Stop) => true,
        _ => false,
    }
}

/// Decides what to do next about a request for the database.
pub fn handle_request_pull(state: PullState, event: PullEvent, requester: &str) -> (r: (
    PullState,
    PullAction,
))
    ensures
        r.0 == pull_step(state, event, requester@).0,
        performs(r.1, pull_step(state, event, requester@).1),
{
    match (state, event) {
        (PullState::Locking, PullEvent::Locked) => (PullState::Binding, PullAction::Bind),
        (PullState::Locking, PullEvent::Busy) => (
            PullState::Finished,
            PullAction::Decline(response_line(Some("busy"))),
        ),
        (PullState::Binding, PullEvent::Bound) => (
            PullState::Accepting,
            PullAction::Invite(response_line(None)),
        ),
        (PullState::Binding, PullEvent::BindFailed(message)) => (
            PullState::Finished,
            PullAction::Decline(error_line("bind_failed: ", message.as_str())),
        ),
        (PullState::Accepting, PullEvent::Connected(address)) => {
            if text::same(address.as_str(), requester) {
                (PullState::Sending, PullAction::Send)
            } else {
                (PullState::Accepting, PullAction::Refuse)
            }
        },
        (PullState::Accepting, PullEvent::NobodyYet { past_deadline }) => {
            if past_deadline {
                (PullState::Finished, PullAction::Stop)
            } else {
                (PullState::Accepting, PullAction::Wait)
            }
        },
        _ => (PullState::Finished, PullAction::Stop),
    }
}

/// The log is sent to nobody but the requester.
pub proof fn law_only_the_requester_is_served(
    state: PullState,
    event: PullEvent,
    requester: Seq<char>,
)
    requires
        pull_step(state, event, requester).1 is Send,
    ensures
        state == PullState::Accepting,
        event matches PullEvent::Connected(address) && address@ == requester,
{
}

/// The requester is told to connect only once the lock is held and the port is open.
pub proof fn law_invitation_is_honest(state: PullState, event: PullEvent, requester: Seq<char>)
    requires
        pull_step(state, event, requester).1 is Invite,
    ensures
        state == PullState::Binding,
        event is Bound,
{
}

/// While somebody else is served, a request is declined and the port is not touched.
pub proof fn law_busy_is_declined(requester: Seq<char>)
    ensures
        pull_step(PullState::Locking, PullEvent::Busy, requester) == (
            PullState::Finished,
            PullActionView::Decline(error_view("busy"@)),
        ),
{
}

/// Where nothing more is done, all is over, and all is over where nothing more is done:
/// no way out leaves the lock behind.
pub proof fn law_every_end_releases(state: PullState, event: PullEvent, requester: Seq<char>)
    ensures
        ({
            let (next, action) = pull_step(state, event, requester);
            next == PullState::Finished <==> (action is Decline || action is Stop)
        }),
{
}

} // verus!
