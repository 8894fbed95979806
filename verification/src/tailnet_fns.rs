//! Peers on the tailnet, out of what the `tailscale` command prints. Whatever the
//! command prints, the worst outcome is that there are no peers.

use crate::index;
use crate::json;
use crate::json::{Json, JsonView};
use crate::lists;
use crate::text;
use vstd::prelude::*;

verus! {

/// Host names that are no peers.
pub open spec fn is_skipped_host(name: Seq<char>) -> bool {
    name == "funnel-ingress-node"@ || name == "ip-172-31-20-232"@ || name == "localhost"@
}

/// The single-address ranges among some values.
pub open spec fn single_addresses(items: Seq<JsonView>) -> Seq<Seq<char>> {
    json::strings_among(items).filter(|s: Seq<char>| text::contains(s, "/32"@))
}

/// An address range without its suffix.
pub open spec fn bare_address(range: Seq<char>) -> Seq<char> {
    text::split_on(range, '/')[0]
}

/// The address of a peer, if it is one to talk to: it has exactly one single-address
/// range, and that is not this node's own address.
pub open spec fn peer_address(peer: JsonView, my_address: Option<Seq<char>>) -> Option<Seq<char>> {
    match (
        json::text_of(json::field(peer, "HostName"@)),
        json::array_of(json::field(peer, "AllowedIPs"@)),
    ) {
        (Some(name), Some(items)) => {
            let ranges = single_addresses(items);
            if is_skipped_host(name) || ranges.len() != 1 || my_address == Some(
                bare_address(ranges[0]),
            ) {
                None
            } else {
                Some(bare_address(ranges[0]))
            }
        },
        _ => None,
    }
}

/// The addresses of listed peers, in order.
pub open spec fn addresses(
    peers: Seq<(Seq<char>, JsonView)>,
    my_address: Option<Seq<char>>,
) -> Seq<Seq<char>>
    decreases peers.len(),
{
    if peers.len() == 0 {
        Seq::empty()
    } else {
        match peer_address(peers.last().1, my_address) {
            Some(address) => addresses(peers.drop_last(), my_address).push(address),
            None => addresses(peers.drop_last(), my_address),
        }
    }
}

/// `r` lists the addresses of the peers of a status, in the order of their keys.
pub open spec fn lists_peers(
    r: Seq<Seq<char>>,
    status: JsonView,
    my_address: Option<Seq<char>>,
) -> bool {
    match json::field(status, "Peer"@) {
        Some(JsonView::Object(peers)) => exists|order: Seq<(Seq<char>, JsonView)>| #[trigger]
            json::in_key_order(order, peers) && r == addresses(order, my_address),
        _ => r.len() == 0,
    }
}

fn skipped_host(name: &str) -> (yes: bool)
    ensures
        yes == is_skipped_host(name@),
{
    text::same(name, "funnel-ingress-node") || text::same(name, "ip-172-31-20-232") || text::same(
        name,
        "localhost",
    )
}

fn find_single_addresses(items: &Vec<Json>) -> (r: Vec<String>)
    ensures
        text::texts(r@) == single_addresses(json::items_view(items@)),
{
    let (all, _) = json::collect_strings(items);
    let ghost views = text::texts(all@);
    let ghost keep = |s: Seq<char>| text::contains(s, "/32"@);
    let mut r: Vec<String> = Vec::new();
    let mut i: usize = 0;
    proof {
        reveal(Seq::filter);
        assert(views.take(0) =~= Seq::empty());
        assert(text::texts(r@) =~= views.take(0).filter(keep));
    }
    while i < all.len()
        invariant
            i <= all@.len(),
            views == text::texts(all@),
            keep == (|s: Seq<char>| text::contains(s, "/32"@)),
            text::texts(r@) == views.take(i as int).filter(keep),
        decreases all@.len() - i,
    {
        let ghost done = r@;
        assert(views[i as int] == all@[i as int]@);
        proof {
            assert(views.take(i + 1) =~= views.take(i as int).push(views[i as int]));
            lists::lemma_filter_push(views.take(i as int), views[i as int], keep);
        }
        if text::has_part(all[i].as_str(), "/32") {
            r.push(all[i].clone());
            assert(text::texts(r@) =~= text::texts(done).push(views[i as int]));
        }
        i = i + 1;
    }
    assert(views.take(i as int) =~= views);
    r
}

fn get_peer_address(peer: &Json, my_address: Option<&str>) -> (r: Option<String>)
    ensures
        index::owned_view(r) == peer_address(peer@, index::text_view(my_address)),
{
    let name = match peer.get_str("HostName") {
        Some(name) => name,
        None => {
            return None;
        },
    };
    let items = match peer.get("AllowedIPs") {
        Some(Json::Array(items)) => items,
        _ => {
            return None;
        },
    };
    if skipped_host(name) {
        return None;
    }
    let ranges = find_single_addresses(items);
    if ranges.len() != 1 {
        return None;
    }
    assert(text::texts(ranges@)[0] == ranges@[0]@);
    let pieces = text::split(ranges[0].as_str(), '/');
    assert(text::texts(pieces@)[0] == pieces@[0]@);
    let bare = pieces[0].clone();
    if let Some(mine) = my_address {
        if text::same(mine, bare.as_str()) {
            return None;
        }
    }
    Some(bare)
}

/// The peers of a status.
pub fn peers_in_status(status: &Json, my_address: Option<&str>) -> (r: Vec<String>)
    ensures
        lists_peers(text::texts(r@), status@, index::text_view(my_address)),
{
    let mut r: Vec<String> = Vec::new();
    assert(text::texts(r@) =~= Seq::empty());
    let peers = match status.get("Peer") {
        Some(peers) => peers,
        None => {
            return r;
        },
    };
    let pairs = match peers.by_key() {
        Some(pairs) => pairs,
        None => {
            return r;
        },
    };
    let ghost order = json::pairs_view(pairs@);
    let ghost mine = index::text_view(my_address);
    let mut i: usize = 0;
    assert(order.take(0) =~= Seq::empty());
    while i < pairs.len()
        invariant
            i <= pairs@.len(),
            order == json::pairs_view(pairs@),
            mine == index::text_view(my_address),
            text::texts(r@) == addresses(order.take(i as int), mine),
        decreases pairs@.len() - i,
    {
        let ghost done = r@;
        assert(order[i as int].1 == pairs@[i as int].1@);
        assert(order.take(i + 1).drop_last() =~= order.take(i as int));
        if let Some(address) = get_peer_address(pairs[i].1, my_address) {
            r.push(address);
            assert(text::texts(r@) =~= text::texts(done).push(address@));
        }
        i = i + 1;
    }
    assert(order.take(i as int) =~= order);
    assert(json::in_key_order(order, peers@->Object_0));
    r
}

/// The peers, out of what `tailscale status --json` printed; `Err` where that is no
/// JSON.
pub fn get_peers(status_output: &str, my_address: Option<&str>) -> (r: Result<Vec<String>, ()>)
    ensures
        match (r, json::json_parsed(vstd::utf8::encode_utf8(status_output@))) {
            (Ok(peers), Ok(status)) => lists_peers(
                text::texts(peers@),
                status,
                index::text_view(my_address),
            ),
            (Err(_), Err(_)) => true,
            _ => false,
        },
{
    match json::parse(status_output) {
        Ok(status) => Ok(peers_in_status(&status, my_address)),
        Err(_) => Err(()),
    }
}

/// This node's address, out of what `tailscale ip -4` printed.
pub fn my_address_in(output: &str) -> (r: String)
    ensures
        r@ == text::trimmed(output@),
{
    text::trim(output).to_owned()
}

/// This node is never listed as a peer of its own, and no address keeps its suffix.
pub proof fn law_own_address_is_no_peer(
    r: Seq<Seq<char>>,
    status: JsonView,
    my_address: Seq<char>,
    i: int,
)
    requires
        lists_peers(r, status, Some(my_address)),
        0 <= i < r.len(),
    ensures
        r[i] != my_address,
        !text::contains(r[i], "/"@),
{
    let peers = json::field(status, "Peer"@)->0->Object_0;
    let order = choose|order: Seq<(Seq<char>, JsonView)>| #[trigger]
        json::in_key_order(order, peers) && r == addresses(order, Some(my_address));
    lemma_addresses(order, my_address, i);
}

proof fn lemma_addresses(peers: Seq<(Seq<char>, JsonView)>, my_address: Seq<char>, i: int)
    requires
        0 <= i < addresses(peers, Some(my_address)).len(),
    ensures
        addresses(peers, Some(my_address))[i] != my_address,
        !text::contains(addresses(peers, Some(my_address))[i], "/"@),
    decreases peers.len(),
{
    let rest = peers.drop_last();
    if i < addresses(rest, Some(my_address)).len() {
        lemma_addresses(rest, my_address, i);
    } else {
        let ranges = single_addresses(json::array_of(
            json::field(peers.last().1, "AllowedIPs"@),
        )->0);
        lemma_pieces(ranges[0], '/', 0);
        let bare = bare_address(ranges[0]);
        reveal_strlit("/");
        if text::contains(bare, "/"@) {
            let k = choose|k: int|
                0 <= k <= bare.len() - "/"@.len() && #[trigger] bare.subrange(k, k + "/"@.len())
                    == "/"@;
            assert(bare.subrange(k, k + 1)[0] == '/');
        }
    }
}

/// No piece holds the separator.
proof fn lemma_pieces(s: Seq<char>, separator: char, p: int)
    requires
        0 <= p < text::split_on(s, separator).len(),
    ensures
        forall|k: int|
            0 <= k < text::split_on(s, separator)[p].len() ==> #[trigger] text::split_on(
                s,
                separator,
            )[p][k] != separator,
        text::split_on(s, separator).len() > 0,
    decreases s.len(),
{
    if s.len() > 0 {
        let pieces = text::split_on(s.drop_last(), separator);
        if p < pieces.len() {
            lemma_pieces(s.drop_last(), separator, p);
        }
        lemma_some_piece(s.drop_last(), separator);
    }
}

proof fn lemma_some_piece(s: Seq<char>, separator: char)
    ensures
        text::split_on(s, separator).len() > 0,
    decreases s.len(),
{
    if s.len() > 0 {
        lemma_some_piece(s.drop_last(), separator);
    }
}

} // verus!
