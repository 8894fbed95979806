//! Taking the database of a peer instead of crawling: which peers are worth asking, in
//! which order, and what their answers mean.

use crate::database::DB_FORMAT_VERSION;
use crate::json;
use crate::json::{Json, JsonView};
use crate::lists;
use crate::text;
use vstd::prelude::*;

verus! {

/// How long a peer may take to connect and to tell about its database.
pub const PEER_QUERY_TIMEOUT_SECS: u64 = 5;

/// How long a transfer may stand still.
pub const PULL_TIMEOUT_SECS: u64 = 120;

/// How much is unpacked at a time.
pub const PULL_PROGRESS_CHUNK_BYTES: usize = 262_144;

/// The line that asks a peer about its database.
pub const DB_INFO_REQUEST: &'static str = "{\"op\":\"db_info\"}";

/// The line that asks a peer for its database.
pub const PULL_REQUEST: &'static str = "{\"op\":\"request_pull\"}";

// ---------------------------------------------------------------------------
// Asking peers
// ---------------------------------------------------------------------------

/// A line of an answer, complete with its line feed.
pub open spec fn is_whole_line(line: Seq<char>) -> bool {
    line.len() > 0 && line.last() == '\n'
}

/// The answer says that all is well.
pub open spec fn says_ok(answer: JsonView) -> bool {
    json::field(answer, "ok"@) == Some(JsonView::Bool(true))
}

/// What a peer's answer says of its database: when it was built, and in which format.
pub open spec fn info_in(answer: JsonView) -> Option<(u64, u32)> {
    match (says_ok(answer), json::field(answer, "result"@)) {
        (true, Some(result)) => match (
            json::unsigned_of(json::field(result, "built_at_unix"@)),
            json::unsigned_of(json::field(result, "db_format_version"@)),
        ) {
            (Some(built_at_unix), Some(version)) => Some((built_at_unix, version as u32)),
            _ => None,
        },
        _ => None,
    }
}

/// What the line of a peer's answer says of its database; nothing where the line is
/// cut off or no such answer.
pub open spec fn info_in_line(line: Seq<char>) -> Option<(u64, u32)> {
    if !is_whole_line(line) {
        None
    } else {
        match json::json_parsed(vstd::utf8::encode_utf8(text::trimmed(line))) {
            Ok(answer) => info_in(answer),
            Err(_) => None,
        }
    }
}

fn get_info(answer: &Json) -> (r: Option<(u64, u32)>)
    ensures
        r == info_in(answer@),
{
    if !answer.is_true("ok") {
        return None;
    }
    let result = match answer.get("result") {
        Some(result) => result,
        None => {
            return None;
        },
    };
    match (result.get_u64("built_at_unix"), result.get_u64("db_format_version")) {
        (Some(built_at_unix), Some(version)) => {
            let version: u32 = #[verifier::truncate]
            (version as u32);
            Some((built_at_unix, version))
        },
        _ => None,
    }
}

/// Reads a peer's answer about its database.
pub fn peer_db_info(line: &str) -> (r: Option<(u64, u32)>)
    ensures
        r == info_in_line(line@),
{
    if !text::ends_line(line) {
        return None;
    }
    match json::parse(text::trim(line)) {
        Ok(answer) => get_info(&answer),
        Err(_) => None,
    }
}

// ---------------------------------------------------------------------------
// Choosing peers
// ---------------------------------------------------------------------------

/// What a peer said of its database.
#[derive(Debug)]
pub struct PeerInfo {
    pub ip: String,
    pub built_at_unix: u64,
    pub format_version: u32,
}

/// A peer that is worth asking, and when its database was built.
#[derive(Debug)]
pub struct Candidate {
    pub ip: String,
    pub built_at_unix: u64,
}

/// The content of what a peer said.
pub struct PeerView {
    pub ip: Seq<char>,
    pub built_at_unix: u64,
    pub format_version: u32,
}

/// The content of a candidate.
pub struct CandidateView {
    pub ip: Seq<char>,
    pub built_at_unix: u64,
}

impl PeerInfo {
    pub open spec fn view(&self) -> PeerView {
        PeerView {
            ip: self.ip@,
            built_at_unix: self.built_at_unix,
            format_version: self.format_version,
        }
    }
}

impl Candidate {
    pub open spec fn view(&self) -> CandidateView {
        CandidateView { ip: self.ip@, built_at_unix: self.built_at_unix }
    }
}

pub open spec fn peer_views(peers: Seq<PeerInfo>) -> Seq<PeerView> {
    peers.map_values(|p: PeerInfo| p@)
}

pub open spec fn candidate_views(candidates: Seq<Candidate>) -> Seq<CandidateView> {
    candidates.map_values(|c: Candidate| c@)
}

/// How old something is; nothing is younger than new.
pub open spec fn age(built_at_unix: u64, now_unix: u64) -> int {
    if now_unix >= built_at_unix {
        now_unix - built_at_unix
    } else {
        0
    }
}

/// The peer's database is in the format of this build, and young enough to be served.
pub open spec fn is_usable(peer: PeerView, now_unix: u64, refresh_interval_secs: u64) -> bool {
    peer.format_version == DB_FORMAT_VERSION && age(peer.built_at_unix, now_unix)
        < refresh_interval_secs
}

/// The peers worth asking, as they were listed.
pub open spec fn usable(
    peers: Seq<PeerView>,
    now_unix: u64,
    refresh_interval_secs: u64,
) -> Seq<CandidateView>
    decreases peers.len(),
{
    if peers.len() == 0 {
        Seq::empty()
    } else {
        let rest = usable(peers.drop_last(), now_unix, refresh_interval_secs);
        if is_usable(peers.last(), now_unix, refresh_interval_secs) {
            rest.push(
                CandidateView {
                    ip: peers.last().ip,
                    built_at_unix: peers.last().built_at_unix,
                },
            )
        } else {
            rest
        }
    }
}

/// The candidates built at one time.
pub open spec fn built_at(candidates: Seq<CandidateView>, at: u64) -> Seq<CandidateView> {
    candidates.filter(|c: CandidateView| c.built_at_unix == at)
}

/// `r` is the list with the freshest first; candidates of one age keep their order.
pub open spec fn freshest_first(r: Seq<CandidateView>, candidates: Seq<CandidateView>) -> bool {
    &&& r.len() == candidates.len()
    &&& forall|i: int, j: int|
        0 <= i < j < r.len() ==> (#[trigger] r[i]).built_at_unix >= (#[trigger] r[j]).built_at_unix
    &&& forall|at: u64| #[trigger] built_at(r, at) == built_at(candidates, at)
}

/// Where the next candidate belongs: behind all that are at least as fresh.
fn position_of(candidates: &Vec<Candidate>, built_at_unix: u64) -> (p: usize)
    requires
        forall|i: int, j: int|
            0 <= i < j < candidates@.len() ==> (#[trigger] candidate_views(
                candidates@,
            )[i]).built_at_unix >= (#[trigger] candidate_views(candidates@)[j]).built_at_unix,
    ensures
        p <= candidates@.len(),
        forall|i: int|
            0 <= i < p ==> (#[trigger] candidate_views(candidates@)[i]).built_at_unix
                >= built_at_unix,
        forall|i: int|
            p <= i < candidates@.len() ==> (#[trigger] candidate_views(
                candidates@,
            )[i]).built_at_unix < built_at_unix,
{
    let ghost views = candidate_views(candidates@);
    let mut p: usize = candidates.len();
    while p > 0 && candidates[p - 1].built_at_unix < built_at_unix
        invariant
            p <= candidates@.len(),
            views == candidate_views(candidates@),
            forall|i: int|
                p <= i < candidates@.len() ==> (#[trigger] views[i]).built_at_unix < built_at_unix,
        decreases p,
    {
        assert(views[p - 1].built_at_unix == candidates@[p - 1].built_at_unix);
        p = p - 1;
    }
    if p > 0 {
        assert(views[p - 1].built_at_unix == candidates@[p - 1].built_at_unix);
        assert forall|i: int| 0 <= i < p implies (#[trigger] views[i]).built_at_unix
            >= built_at_unix by {
            if i < p - 1 {
                assert(views[i].built_at_unix >= views[p - 1].built_at_unix);
            }
        }
    }
    p
}

/// Putting a candidate in its place keeps the list in order.
proof fn lemma_placed(r: Seq<CandidateView>, all: Seq<CandidateView>, p: int, c: CandidateView)
    requires
        freshest_first(r, all),
        0 <= p <= r.len(),
        forall|i: int| 0 <= i < p ==> (#[trigger] r[i]).built_at_unix >= c.built_at_unix,
        forall|i: int| p <= i < r.len() ==> (#[trigger] r[i]).built_at_unix < c.built_at_unix,
    ensures
        freshest_first(r.insert(p, c), all.push(c)),
{
    let more = r.insert(p, c);
    assert forall|i: int, j: int| 0 <= i < j < more.len() implies (
    #[trigger] more[i]).built_at_unix >= (#[trigger] more[j]).built_at_unix by {
        let a = if i < p {
            i
        } else {
            i - 1
        };
        let b = if j < p {
            j
        } else {
            j - 1
        };
        if i != p && j != p {
            assert(r[a].built_at_unix >= r[b].built_at_unix);
        } else if i == p {
            assert(r[b].built_at_unix < c.built_at_unix);
        } else {
            assert(r[a].built_at_unix >= c.built_at_unix);
        }
    }
    assert forall|at: u64| #[trigger] built_at(more, at) == built_at(all.push(c), at) by {
        let keep = |x: CandidateView| x.built_at_unix == at;
        let (front, back) = (r.take(p), r.skip(p));
        assert(front + back =~= r);
        assert(front + seq![c] + back =~= more);
        Seq::filter_distributes_over_add(front, back, keep);
        Seq::filter_distributes_over_add(front + seq![c], back, keep);
        Seq::filter_distributes_over_add(front, seq![c], keep);
        Seq::filter_distributes_over_add(all, seq![c], keep);
        assert(all + seq![c] =~= all.push(c));
        assert(built_at(r, at) == built_at(all, at));
        if c.built_at_unix == at {
            assert forall|i: int| 0 <= i < back.len() implies !keep(#[trigger] back[i]) by {
                assert(back[i] == r[p + i]);
            }
            lists::lemma_filter_none(back, keep);
            assert(front.filter(keep) + Seq::<CandidateView>::empty() =~= front.filter(keep));
            assert(front.filter(keep) + seq![c].filter(keep) + Seq::<CandidateView>::empty()
                =~= front.filter(keep) + seq![c].filter(keep));
        } else {
            assert forall|i: int| 0 <= i < seq![c].len() implies !keep(#[trigger] seq![c][i]) by {}
            lists::lemma_filter_none(seq![c], keep);
            assert(front.filter(keep) + Seq::<CandidateView>::empty() + back.filter(keep)
                =~= front.filter(keep) + back.filter(keep));
            assert(all.filter(keep) + Seq::<CandidateView>::empty() =~= all.filter(keep));
        }
    }
}

/// The peers worth asking, the freshest first. Each of them is to be asked in turn: one
/// that is busy must not mean a crawl while another could have helped.
pub fn candidates(peers: Vec<PeerInfo>, now_unix: u64, refresh_interval_secs: u64) -> (r: Vec<
    Candidate,
>)
    ensures
        freshest_first(
            candidate_views(r@),
            usable(peer_views(peers@), now_unix, refresh_interval_secs),
        ),
{
    let ghost list = peers@;
    let ghost all = peer_views(list);
    let ghost mut taken: int = 0;
    let mut rest = lists::reversed(peers);
    let mut r: Vec<Candidate> = Vec::new();
    assert(all.take(0) =~= Seq::empty());
    assert(candidate_views(r@) =~= Seq::empty());
    while rest.len() > 0
        invariant
            0 <= taken <= list.len(),
            all == peer_views(list),
            rest@ == list.skip(taken).reverse(),
            freshest_first(
                candidate_views(r@),
                usable(all.take(taken), now_unix, refresh_interval_secs),
            ),
        decreases rest@.len(),
    {
        let peer = rest.pop().unwrap();
        assert(peer == list[taken]);
        assert(rest@ =~= list.skip(taken + 1).reverse());
        assert(all.take(taken + 1).drop_last() =~= all.take(taken));
        assert(all.take(taken + 1).last() == peer@);
        if peer.format_version == DB_FORMAT_VERSION && now_unix.saturating_sub(peer.built_at_unix)
            < refresh_interval_secs {
            let ghost done = candidate_views(r@);
            let candidate = Candidate { ip: peer.ip, built_at_unix: peer.built_at_unix };
            let ghost c = candidate@;
            let p: usize = position_of(&r, candidate.built_at_unix);
            proof {
                lemma_placed(
                    done,
                    usable(all.take(taken), now_unix, refresh_interval_secs),
                    p as int,
                    c,
                );
            }
            r.insert(p, candidate);
            assert(candidate_views(r@) =~= done.insert(p as int, c));
        }
        proof {
            taken = taken + 1;
        }
    }
    assert(all.take(taken) =~= all);
    r
}

/// Only peers that said they have a usable database are asked for it.
pub proof fn law_only_usable_peers_are_asked(
    peers: Seq<PeerView>,
    now_unix: u64,
    refresh_interval_secs: u64,
    i: int,
)
    requires
        0 <= i < usable(peers, now_unix, refresh_interval_secs).len(),
    ensures
        exists|k: int|
            0 <= k < peers.len() && is_usable(#[trigger] peers[k], now_unix, refresh_interval_secs)
                && usable(peers, now_unix, refresh_interval_secs)[i] == (CandidateView {
                ip: peers[k].ip,
                built_at_unix: peers[k].built_at_unix,
            }),
    decreases peers.len(),
{
    let rest = peers.drop_last();
    if i < usable(rest, now_unix, refresh_interval_secs).len() {
        law_only_usable_peers_are_asked(rest, now_unix, refresh_interval_secs, i);
        let k = choose|k: int|
            0 <= k < rest.len() && is_usable(#[trigger] rest[k], now_unix, refresh_interval_secs)
                && usable(rest, now_unix, refresh_interval_secs)[i] == (CandidateView {
                ip: rest[k].ip,
                built_at_unix: rest[k].built_at_unix,
            });
        assert(peers[k] == rest[k]);
    } else {
        assert(is_usable(peers[peers.len() - 1], now_unix, refresh_interval_secs));
    }
}

/// Every peer with a usable database is asked.
pub proof fn law_every_usable_peer_is_asked(
    r: Seq<CandidateView>,
    peers: Seq<PeerView>,
    now_unix: u64,
    refresh_interval_secs: u64,
    k: int,
)
    requires
        freshest_first(r, usable(peers, now_unix, refresh_interval_secs)),
        0 <= k < peers.len(),
        is_usable(peers[k], now_unix, refresh_interval_secs),
    ensures
        r.contains(CandidateView { ip: peers[k].ip, built_at_unix: peers[k].built_at_unix }),
{
    let all = usable(peers, now_unix, refresh_interval_secs);
    let c = CandidateView { ip: peers[k].ip, built_at_unix: peers[k].built_at_unix };
    lemma_usable_contains(peers, now_unix, refresh_interval_secs, k);
    let at = c.built_at_unix;
    let keep = |x: CandidateView| x.built_at_unix == at;
    let i = choose|i: int| 0 <= i < all.len() && all[i] == c;
    all.lemma_filter_contains(keep, i);
    assert(built_at(r, at) == built_at(all, at));
    r.lemma_filter_contains_rev(keep, c);
}

proof fn lemma_usable_contains(
    peers: Seq<PeerView>,
    now_unix: u64,
    refresh_interval_secs: u64,
    k: int,
)
    requires
        0 <= k < peers.len(),
        is_usable(peers[k], now_unix, refresh_interval_secs),
    ensures
        usable(peers, now_unix, refresh_interval_secs).contains(
            CandidateView { ip: peers[k].ip, built_at_unix: peers[k].built_at_unix },
        ),
    decreases peers.len(),
{
    let all = usable(peers, now_unix, refresh_interval_secs);
    let c = CandidateView { ip: peers[k].ip, built_at_unix: peers[k].built_at_unix };
    if k == peers.len() - 1 {
        assert(all[all.len() - 1] == c);
    } else {
        let rest = peers.drop_last();
        lemma_usable_contains(rest, now_unix, refresh_interval_secs, k);
        let some = usable(rest, now_unix, refresh_interval_secs);
        let i = choose|i: int| 0 <= i < some.len() && some[i] == c;
        assert(all[i] == c);
    }
}

// ---------------------------------------------------------------------------
// Asking for a database
// ---------------------------------------------------------------------------

/// The candidates that have not been asked yet.
pub struct Attempts {
    rest: Vec<Candidate>,
}

impl Attempts {
    /// The candidates that have not been asked yet, in order.
    pub closed spec fn view(&self) -> Seq<CandidateView> {
        candidate_views(self.rest@.reverse())
    }

    pub fn new(candidates: Vec<Candidate>) -> (r: Attempts)
        ensures
            r@ == candidate_views(candidates@),
    {
        let r = Attempts { rest: lists::reversed(candidates) };
        assert(r.rest@.reverse() =~= candidates@);
        r
    }

    /// The next candidate to ask, after the one before it failed; when there is none
    /// left, the database has to be crawled.
    pub fn next_candidate(&mut self) -> (r: Option<Candidate>)
        ensures
            match r {
                Some(candidate) => {
                    &&& old(self)@.len() > 0
                    &&& candidate@ == old(self)@[0]
                    &&& final(self)@ == old(self)@.drop_first()
                },
                None => old(self)@.len() == 0 && final(self)@ == old(self)@,
            },
    {
        let ghost before = self.rest@;
        let r = self.rest.pop();
        proof {
            if before.len() > 0 {
                assert(before.reverse()[0] == before.last());
                assert(candidate_views(self.rest@.reverse()) =~= candidate_views(
                    before.reverse(),
                ).drop_first());
            }
        }
        r
    }
}

/// Why a peer did not send its database.
#[derive(Debug)]
pub enum PullError {
    /// The answer is cut off.
    Truncated,
    /// The answer is no JSON.
    Malformed(String),
    /// The peer declined.
    Declined(String),
}

/// The reason that a peer gives for declining.
pub open spec fn decline_reason(answer: JsonView) -> Seq<char> {
    match json::text_of(json::field(answer, "error"@)) {
        Some(reason) => reason,
        None => "unknown"@,
    }
}

/// What a line of a peer's says to a request for its database.
pub enum PullOutcome {
    Invited,
    Truncated,
    Malformed(Seq<char>),
    Declined(Seq<char>),
}

/// What the line of a peer's answer says to a request for its database.
pub open spec fn pull_outcome(line: Seq<char>) -> PullOutcome {
    if !is_whole_line(line) {
        PullOutcome::Truncated
    } else {
        match json::json_parsed(vstd::utf8::encode_utf8(text::trimmed(line))) {
            Err(message) => PullOutcome::Malformed(message),
            Ok(answer) => if says_ok(answer) {
                PullOutcome::Invited
            } else {
                PullOutcome::Declined(decline_reason(answer))
            },
        }
    }
}

/// The message of an error.
pub open spec fn pull_error_message(e: PullError) -> Seq<char> {
    match e {
        PullError::Truncated => "response line too long or truncated"@,
        PullError::Malformed(message) => "malformed response: "@ + message@,
        PullError::Declined(reason) => "peer declined pull: "@ + reason@,
    }
}

impl PullError {
    pub fn message(&self) -> (r: String)
        ensures
            r@ == pull_error_message(*self),
    {
        match self {
            PullError::Truncated => "response line too long or truncated".to_owned(),
            PullError::Malformed(message) => "malformed response: ".to_owned().concat(
                message.as_str(),
            ),
            PullError::Declined(reason) => "peer declined pull: ".to_owned().concat(
                reason.as_str(),
            ),
        }
    }
}

/// Reads a peer's answer to the request for its database: `Ok` where it is about to
/// send it.
pub fn pull_response(line: &str) -> (r: Result<(), PullError>)
    ensures
        match r {
            Ok(_) => pull_outcome(line@) == PullOutcome::Invited,
            Err(PullError::Truncated) => pull_outcome(line@) == PullOutcome::Truncated,
            Err(PullError::Malformed(message)) => pull_outcome(line@) == PullOutcome::Malformed(
                message@,
            ),
            Err(PullError::Declined(reason)) => pull_outcome(line@) == PullOutcome::Declined(
                reason@,
            ),
        },
{
    if !text::ends_line(line) {
        return Err(PullError::Truncated);
    }
    let answer = match json::parse(text::trim(line)) {
        Ok(answer) => answer,
        Err(message) => {
            return Err(PullError::Malformed(message));
        },
    };
    if answer.is_true("ok") {
        return Ok(());
    }
    let reason = match answer.get_str("error") {
        Some(reason) => reason.to_owned(),
        None => "unknown".to_owned(),
    };
    Err(PullError::Declined(reason))
}

} // verus!
