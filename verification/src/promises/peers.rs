//! How peers are found, chosen, asked and answered.

use crate::database::Snapshot;
use crate::json;
use crate::json::JsonView;
use crate::mesh_sync;
use crate::mesh_sync::{CandidateView, PeerView, PullOutcome};
use crate::p2p_db_server;
use crate::p2p_db_server::{ControlView, PullActionView, PullEvent, PullState};
use crate::promises::documents;
use crate::promises::texts;
use crate::text;
use vstd::prelude::*;

verus! {

// ---------------------------------------------------------------------------
// What a peer says
// ---------------------------------------------------------------------------

/// The line came in whole and holds this answer, perhaps with white space around it.
pub open spec fn is_answer(line: Seq<char>, answer: JsonView) -> bool {
    &&& line.len() > 0
    &&& line.last() == '\n'
    &&& exists|core: Seq<char>| #[trigger]
        texts::is_core(core, line) && json::json_parsed(vstd::utf8::encode_utf8(core)) == Ok::<
            JsonView,
            Seq<char>,
        >(answer)
}

proof fn lemma_answer(line: Seq<char>, answer: JsonView)
    ensures
        is_answer(line, answer) <==> mesh_sync::is_whole_line(line) && json::json_parsed(
            vstd::utf8::encode_utf8(text::trimmed(line)),
        ) == Ok::<JsonView, Seq<char>>(answer),
{
    texts::law_trimming_takes_off_white_space(line, text::trimmed(line));
    if is_answer(line, answer) {
        let core = choose|core: Seq<char>| #[trigger]
            texts::is_core(core, line) && json::json_parsed(vstd::utf8::encode_utf8(core)) == Ok::<
                JsonView,
                Seq<char>,
            >(answer);
        texts::law_trimming_takes_off_white_space(line, core);
    }
}

/// The answer tells when the database was built, and in which layout.
pub open spec fn tells(answer: JsonView, built_at_unix: u64, version: u64) -> bool {
    &&& documents::at(answer, "ok"@) == Some(JsonView::Bool(true))
    &&& documents::at(answer, "result"@) matches Some(result) && documents::at(
        result,
        "built_at_unix"@,
    ) == Some(JsonView::Unsigned(built_at_unix)) && documents::at(result, "db_format_version"@)
        == Some(JsonView::Unsigned(version))
}

/// An answer that tells of a database is understood.
pub proof fn law_told_database_is_understood(
    line: Seq<char>,
    answer: JsonView,
    built_at_unix: u64,
    version: u64,
)
    requires
        is_answer(line, answer),
        tells(answer, built_at_unix, version),
    ensures
        version <= u32::MAX ==> mesh_sync::info_in_line(line) == Some(
            (built_at_unix, version as u32),
        ),
{
    lemma_answer(line, answer);
}

/// Any other line tells of none.
pub proof fn law_other_lines_tell_of_no_database(line: Seq<char>)
    requires
        forall|answer: JsonView, built_at_unix: u64, version: u64|
            !(#[trigger] is_answer(line, answer) && #[trigger] tells(
                answer,
                built_at_unix,
                version,
            )),
    ensures
        mesh_sync::info_in_line(line) is None,
{
    if mesh_sync::info_in_line(line) is Some {
        let answer = json::json_parsed(vstd::utf8::encode_utf8(text::trimmed(line)))->Ok_0;
        lemma_answer(line, answer);
        let result = documents::at(answer, "result"@)->0;
        let at = documents::at(result, "built_at_unix"@)->0->Unsigned_0;
        let version = documents::at(result, "db_format_version"@)->0->Unsigned_0;
        assert(tells(answer, at, version));
        assert(is_answer(line, answer));
    }
}

/// A peer that agrees to send its database is understood so, and one that does not is
/// understood to decline, with the reason that it states.
pub proof fn law_reply_to_a_request_is_understood(line: Seq<char>, answer: JsonView)
    requires
        is_answer(line, answer),
    ensures
        match mesh_sync::pull_outcome(line) {
            PullOutcome::Invited => documents::at(answer, "ok"@) == Some(JsonView::Bool(true)),
            PullOutcome::Declined(reason) => {
                &&& documents::at(answer, "ok"@) != Some(JsonView::Bool(true))
                &&& match documents::at(answer, "error"@) {
                    Some(JsonView::Str(stated)) => reason == stated,
                    _ => reason == "unknown"@,
                }
            },
            _ => false,
        },
{
    lemma_answer(line, answer);
}

/// A line that was cut off, or that holds no answer, is neither.
pub proof fn law_broken_reply_is_an_error(line: Seq<char>)
    requires
        forall|answer: JsonView| !#[trigger] is_answer(line, answer),
    ensures
        match mesh_sync::pull_outcome(line) {
            PullOutcome::Truncated => line.len() == 0 || line.last() != '\n',
            PullOutcome::Malformed(_) => line.len() > 0 && line.last() == '\n',
            _ => false,
        },
{
    if mesh_sync::is_whole_line(line) {
        let read = json::json_parsed(vstd::utf8::encode_utf8(text::trimmed(line)));
        if let Ok(answer) = read {
            lemma_answer(line, answer);
            assert(is_answer(line, answer));
        }
    }
}

// ---------------------------------------------------------------------------
// Which peers are asked
// ---------------------------------------------------------------------------

/// The database is laid out as this build lays them out, and was built less than one
/// interval ago, or in what is the future by this clock.
pub open spec fn is_worth_asking(peer: PeerView, now_unix: u64, interval: u64) -> bool {
    &&& peer.format_version == 1
    &&& interval > 0
    &&& now_unix < peer.built_at_unix + interval
}

/// The peer, as it is asked.
pub open spec fn asked(peer: PeerView) -> CandidateView {
    CandidateView { ip: peer.ip, built_at_unix: peer.built_at_unix }
}

/// Those with a database of one age, in order.
pub open spec fn of_age(list: Seq<CandidateView>, at: u64) -> Seq<CandidateView> {
    list.filter(|c: CandidateView| c.built_at_unix == at)
}

proof fn lemma_usable(peers: Seq<PeerView>, now_unix: u64, interval: u64)
    ensures
        mesh_sync::usable(peers, now_unix, interval) == peers.filter(
            |p: PeerView| is_worth_asking(p, now_unix, interval),
        ).map_values(|p: PeerView| asked(p)),
    decreases peers.len(),
{
    reveal(Seq::filter);
    let keep = |p: PeerView| is_worth_asking(p, now_unix, interval);
    let ask = |p: PeerView| asked(p);
    if peers.len() > 0 {
        let rest = peers.drop_last();
        lemma_usable(rest, now_unix, interval);
        let last = peers.last();
        if keep(last) {
            assert(rest.filter(keep).push(last).map_values(ask) =~= rest.filter(keep).map_values(
                ask,
            ).push(ask(last)));
        }
        assert(mesh_sync::is_usable(last, now_unix, interval) == keep(last));
    } else {
        assert(peers.filter(keep).map_values(ask) =~= Seq::empty());
    }
}

/// The peers that are asked are those that are worth it, every one of them and no other;
/// the freshest come first, and peers of one age come in the order in which they are listed.
pub proof fn law_peers_are_asked_freshest_first(
    r: Seq<CandidateView>,
    peers: Seq<PeerView>,
    now_unix: u64,
    interval: u64,
    worth: Seq<CandidateView>,
)
    requires
        mesh_sync::freshest_first(r, mesh_sync::usable(peers, now_unix, interval)),
        worth == peers.filter(|p: PeerView| is_worth_asking(p, now_unix, interval)).map_values(
            |p: PeerView| asked(p),
        ),
    ensures
        r.len() == worth.len(),
        forall|i: int, j: int|
            0 <= i < j < r.len() ==> (#[trigger] r[i]).built_at_unix >= (
            #[trigger] r[j]).built_at_unix,
        forall|c: CandidateView| #[trigger] r.contains(c) <==> worth.contains(c),
        forall|at: u64| #[trigger] of_age(r, at) == of_age(worth, at),
{
    lemma_usable(peers, now_unix, interval);
    assert forall|at: u64| #[trigger] of_age(r, at) == of_age(worth, at) by {
        assert(mesh_sync::built_at(r, at) == mesh_sync::built_at(worth, at));
    }
    assert forall|c: CandidateView| #[trigger] r.contains(c) <==> worth.contains(c) by {
        let at = c.built_at_unix;
        let keep = |x: CandidateView| x.built_at_unix == at;
        assert(mesh_sync::built_at(r, at) == mesh_sync::built_at(worth, at));
        if r.contains(c) {
            let i = choose|i: int| 0 <= i < r.len() && r[i] == c;
            r.lemma_filter_contains(keep, i);
            worth.lemma_filter_contains_rev(keep, c);
        }
        if worth.contains(c) {
            let i = choose|i: int| 0 <= i < worth.len() && worth[i] == c;
            worth.lemma_filter_contains(keep, i);
            r.lemma_filter_contains_rev(keep, c);
        }
    }
}

// ---------------------------------------------------------------------------
// How peers are answered
// ---------------------------------------------------------------------------

/// The line came in whole, and holds this request before its end.
pub open spec fn requests(line: Seq<char>, content: Seq<char>, request: JsonView) -> bool {
    &&& line.len() > 0
    &&& line.last() == '\n'
    &&& texts::is_content(content, line)
    &&& content.len() > 0
    &&& json::json_parsed(vstd::utf8::encode_utf8(content)) == Ok::<JsonView, Seq<char>>(request)
}

/// The answer says that something is wrong, and what.
pub open spec fn complains(answer: JsonView, error: Seq<char>) -> bool {
    &&& documents::at(answer, "ok"@) == Some(JsonView::Bool(false))
    &&& documents::at(answer, "error"@) == Some(JsonView::Str(error))
}

proof fn lemma_content(line: Seq<char>, content: Seq<char>)
    requires
        texts::is_content(content, line),
    ensures
        text::without_line_end(line) == content,
{
    texts::law_line_ends_are_taken_off(line);
    let found = text::without_line_end(line);
    if content.len() < found.len() {
        assert(found.last() == line[found.len() - 1]);
    }
    if found.len() < content.len() {
        assert(content.last() == line[content.len() - 1]);
    }
}

proof fn lemma_words()
    ensures
        "ok"@ != "error"@,
        "ok"@ != "result"@,
        "db_info"@ != "request_pull"@,
{
    reveal_strlit("ok");
    reveal_strlit("error");
    reveal_strlit("result");
    reveal_strlit("db_info");
    reveal_strlit("request_pull");
    assert("ok"@.len() == 2 && "error"@.len() == 5 && "result"@.len() == 6);
    assert("db_info"@.len() == 7 && "request_pull"@.len() == 12);
}

/// A peer that asks is told of the database that is being served.
pub proof fn law_peers_are_told_of_the_database(
    snapshot: Snapshot,
    line: Seq<char>,
    content: Seq<char>,
    request: JsonView,
)
    requires
        requests(line, content, request),
        documents::at(request, "op"@) == Some(JsonView::Str("db_info"@)),
    ensures
        p2p_db_server::control(snapshot, line) matches ControlView::Reply(answer) && tells(
            answer,
            snapshot.built_at_unix,
            snapshot.format_version as u64,
        ),
{
    lemma_content(line, content);
    lemma_words();
    reveal_strlit("built_at_unix");
    reveal_strlit("db_format_version");
    assert("built_at_unix"@.len() != "db_format_version"@.len());
}

/// A peer that asks for the database is sent it; any other operation is unknown, and said
/// to be so by its name.
pub proof fn law_peers_can_pull_and_nothing_else(
    snapshot: Snapshot,
    line: Seq<char>,
    content: Seq<char>,
    request: JsonView,
    op: Seq<char>,
)
    requires
        requests(line, content, request),
        op != "db_info"@,
        match documents::at(request, "op"@) {
            Some(JsonView::Str(named)) => op == named,
            _ => op.len() == 0,
        },
    ensures
        if op == "request_pull"@ {
            p2p_db_server::control(snapshot, line) is Pull
        } else {
            p2p_db_server::control(snapshot, line) matches ControlView::Reply(answer)
                && complains(answer, "unknown_op: "@ + op)
        },
{
    lemma_content(line, content);
    lemma_words();
    reveal_strlit("");
    if op.len() == 0 {
        assert(op =~= ""@);
    }
}

/// A line that is too long to have come in whole ends the connection, a blank one is passed
/// over, and one that is no JSON is complained of.
pub proof fn law_other_lines_of_peers(snapshot: Snapshot, line: Seq<char>, content: Seq<char>)
    requires
        texts::is_content(content, line),
    ensures
        line.len() == 0 || line.last() != '\n' ==> (p2p_db_server::control(
            snapshot,
            line,
        ) matches ControlView::ReplyAndClose(answer) && complains(answer, "line_too_long"@)),
        line.len() > 0 && line.last() == '\n' && content.len() == 0 ==> p2p_db_server::control(
            snapshot,
            line,
        ) is Ignore,
        line.len() > 0 && line.last() == '\n' && content.len() > 0 && json::json_parsed(
            vstd::utf8::encode_utf8(content),
        ) is Err ==> (p2p_db_server::control(snapshot, line) matches ControlView::Reply(answer)
            && complains(
            answer,
            "bad_request: "@ + json::json_parsed(vstd::utf8::encode_utf8(content))->Err_0,
        )),
{
    lemma_content(line, content);
    lemma_words();
}

/// Once it has been told to connect, a requester that does is sent the log. Anybody else is
/// turned away, and the requester is waited for until the deadline and not beyond it.
pub proof fn law_requester_is_waited_for_and_served(
    address: String,
    requester: Seq<char>,
    past_deadline: bool,
)
    ensures
        ({
            let (next, action) = p2p_db_server::pull_step(
                PullState::Accepting,
                PullEvent::Connected(address),
                requester,
            );
            if address@ == requester {
                next == PullState::Sending && action is Send
            } else {
                next == PullState::Accepting && action is Refuse
            }
        }),
        ({
            let (next, action) = p2p_db_server::pull_step(
                PullState::Accepting,
                PullEvent::NobodyYet { past_deadline },
                requester,
            );
            if past_deadline {
                next == PullState::Finished && action is Stop
            } else {
                next == PullState::Accepting && action is Wait
            }
        }),
{
}

/// With the lock the port is opened, and with the port the requester is told to connect. A
/// request that finds the lock taken, or the port not to be had, is declined.
pub proof fn law_request_is_taken_up_or_declined(message: String, requester: Seq<char>)
    ensures
        ({
            let (next, action) = p2p_db_server::pull_step(
                PullState::Locking,
                PullEvent::Locked,
                requester,
            );
            next == PullState::Binding && action is Bind
        }),
        ({
            let (next, action) = p2p_db_server::pull_step(
                PullState::Binding,
                PullEvent::Bound,
                requester,
            );
            next == PullState::Accepting && (action matches PullActionView::Invite(answer)
                && documents::at(answer, "ok"@) == Some(JsonView::Bool(true)))
        }),
        ({
            let (next, action) = p2p_db_server::pull_step(
                PullState::Locking,
                PullEvent::Busy,
                requester,
            );
            next == PullState::Finished && (action matches PullActionView::Decline(answer)
                && complains(answer, "busy"@))
        }),
        ({
            let (next, action) = p2p_db_server::pull_step(
                PullState::Binding,
                PullEvent::BindFailed(message),
                requester,
            );
            next == PullState::Finished && (action matches PullActionView::Decline(answer)
                && complains(answer, "bind_failed: "@ + message@))
        }),
{
    lemma_words();
}

} // verus!
