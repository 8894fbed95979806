//! Starting up: what is done about the database on disk, how times are told, and which ways
//! out and which peers there are.

use crate::boot;
use crate::boot::BootPlan;
use crate::json;
use crate::json::JsonView;
use crate::lists;
use crate::promises::documents;
use crate::promises::texts;
use crate::proxy;
use crate::tailnet_fns;
use crate::text;
use vstd::prelude::*;

verus! {

// ---------------------------------------------------------------------------
// The database on disk
// ---------------------------------------------------------------------------

/// A database on disk is served until the interval since it was built is over. One that by
/// this clock was built in the future is served for a whole interval. An older one is
/// replaced, and so is one that is not there.
pub proof fn law_young_database_is_served(
    built_at_unix: u64,
    now_unix: u64,
    interval: u64,
)
    ensures
        boot::boot_plan(None, now_unix, interval) is Replace,
        now_unix >= built_at_unix + interval ==> boot::boot_plan(
            Some(built_at_unix),
            now_unix,
            interval,
        ) is Replace,
        built_at_unix <= now_unix < built_at_unix + interval ==> (boot::boot_plan(
            Some(built_at_unix),
            now_unix,
            interval,
        ) matches BootPlan::Serve { next_refresh_secs } && now_unix + next_refresh_secs
            == built_at_unix + interval),
        now_unix < built_at_unix && interval > 0 ==> (boot::boot_plan(
            Some(built_at_unix),
            now_unix,
            interval,
        ) matches BootPlan::Serve { next_refresh_secs } && next_refresh_secs == interval),
{
}

// ---------------------------------------------------------------------------
// Times
// ---------------------------------------------------------------------------

/// A number below a hundred, in two digits.
pub open spec fn in_two_digits(n: int) -> Seq<char> {
    seq![(48 + n / 10) as char, (48 + n % 10) as char]
}

proof fn lemma_two_digits(n: nat)
    requires
        n < 100,
    ensures
        text::two_digits(n) == in_two_digits(n as int),
{
    reveal_strlit("0");
    reveal_with_fuel(text::decimal, 3);
    assert(text::two_digits(n) =~= in_two_digits(n as int));
}

proof fn lemma_units(days: int, hours: int, minutes: int, seconds: int)
    requires
        0 <= days,
        0 <= hours < 24,
        0 <= minutes < 60,
        0 <= seconds < 60,
    ensures
        ({
            let n = days * 86400 + hours * 3600 + minutes * 60 + seconds;
            &&& n / 86400 == days
            &&& n % 86400 == hours * 3600 + minutes * 60 + seconds
            &&& n % 86400 / 3600 == hours
            &&& n % 86400 % 3600 / 60 == minutes
            &&& n % 86400 % 60 == seconds
        }),
{
}

/// A time is told by its hours, minutes and seconds of the day.
pub proof fn law_time_of_day_is_told(days: nat, hours: nat, minutes: nat, seconds: nat)
    requires
        hours < 24,
        minutes < 60,
        seconds < 60,
    ensures
        boot::hms((days * 86400 + hours * 3600 + minutes * 60 + seconds) as nat) == in_two_digits(
            hours as int,
        ) + seq![':'] + in_two_digits(minutes as int) + seq![':'] + in_two_digits(seconds as int),
{
    lemma_units(days as int, hours as int, minutes as int, seconds as int);
    lemma_two_digits(hours);
    lemma_two_digits(minutes);
    lemma_two_digits(seconds);
    reveal_strlit(":");
    assert(":"@ =~= seq![':']);
}

/// The unit behind its number.
pub open spec fn counted(n: nat, unit: char) -> Seq<char> {
    text::decimal(n).push(unit)
}

/// A span of time is told in its largest unit that is not zero and the one below it, and
/// below a minute in seconds alone. How the numbers are written, `texts` says.
pub proof fn law_span_is_told_in_two_units(days: nat, hours: nat, minutes: nat, seconds: nat)
    requires
        hours < 24,
        minutes < 60,
        seconds < 60,
    ensures
        boot::duration_text((days * 86400 + hours * 3600 + minutes * 60 + seconds) as nat) == if days
            > 0 {
            counted(days, 'd') + counted(hours, 'h')
        } else if hours > 0 {
            counted(hours, 'h') + counted(minutes, 'm')
        } else if minutes > 0 {
            counted(minutes, 'm') + counted(seconds, 's')
        } else {
            counted(seconds, 's')
        },
{
    lemma_units(days as int, hours as int, minutes as int, seconds as int);
    let n = (days * 86400 + hours * 3600 + minutes * 60 + seconds) as nat;
    reveal_strlit("d");
    reveal_strlit("h");
    reveal_strlit("m");
    reveal_strlit("s");
    if days > 0 {
        assert(boot::duration_text(n) =~= counted(days, 'd') + counted(hours, 'h'));
    } else if hours > 0 {
        assert(n / 3600 == hours && n % 3600 / 60 == minutes);
        assert(boot::duration_text(n) =~= counted(hours, 'h') + counted(minutes, 'm'));
    } else if minutes > 0 {
        assert(n / 60 == minutes && n % 60 == seconds);
        assert(boot::duration_text(n) =~= counted(minutes, 'm') + counted(seconds, 's'));
    } else {
        assert(boot::duration_text(n) =~= counted(seconds, 's'));
    }
}

// ---------------------------------------------------------------------------
// Ways out
// ---------------------------------------------------------------------------

/// These are the pieces of the text between the separators.
pub open spec fn are_pieces(pieces: Seq<Seq<char>>, s: Seq<char>, separator: char) -> bool {
    &&& pieces.len() > 0
    &&& texts::joined(pieces, separator) == s
    &&& forall|p: int, k: int|
        0 <= p < pieces.len() && 0 <= k < pieces[p].len() ==> #[trigger] pieces[p][k] != separator
}

/// There is only one way to take a text to pieces.
proof fn lemma_same_pieces(a: Seq<Seq<char>>, b: Seq<Seq<char>>, s: Seq<char>, separator: char)
    requires
        are_pieces(a, s, separator),
        are_pieces(b, s, separator),
    ensures
        a == b,
    decreases a.len(),
{
    let (x, y) = (a.last(), b.last());
    lemma_last_piece(a, s, separator);
    lemma_last_piece(b, s, separator);
    let (i, j) = (s.len() - x.len(), s.len() - y.len());
    if i < j {
        assert(s[j - 1] == separator);
        assert(x[j - 1 - i] == s[j - 1]);
        assert(a[a.len() - 1][j - 1 - i] != separator);
    }
    if j < i {
        assert(s[i - 1] == separator);
        assert(y[i - 1 - j] == s[i - 1]);
        assert(b[b.len() - 1][i - 1 - j] != separator);
    }
    assert(x =~= s.skip(i));
    assert(y =~= s.skip(j));
    if a.len() > 1 {
        let (rest, other) = (a.drop_last(), b.drop_last());
        let front = s.take(i - 1);
        assert(texts::joined(rest, separator) =~= front);
        assert(texts::joined(other, separator) =~= front);
        assert forall|p: int, k: int|
            0 <= p < rest.len() && 0 <= k < rest[p].len() implies #[trigger] rest[p][k]
            != separator by {
            assert(a[p][k] != separator);
        }
        assert forall|p: int, k: int|
            0 <= p < other.len() && 0 <= k < other[p].len() implies #[trigger] other[p][k]
            != separator by {
            assert(b[p][k] != separator);
        }
        lemma_same_pieces(rest, other, front, separator);
        assert(a =~= rest.push(x));
        assert(b =~= other.push(y));
    } else {
        assert(a =~= seq![x]);
        assert(b =~= seq![y]);
    }
}

/// The last piece ends the text, and a separator stands before it unless it is the only one.
proof fn lemma_last_piece(a: Seq<Seq<char>>, s: Seq<char>, separator: char)
    requires
        are_pieces(a, s, separator),
    ensures
        a.last().len() <= s.len(),
        s.skip(s.len() - a.last().len()) == a.last(),
        a.len() == 1 <==> a.last().len() == s.len(),
        a.len() > 1 ==> s[s.len() - a.last().len() - 1] == separator && texts::joined(
            a.drop_last(),
            separator,
        ) == s.take(s.len() - a.last().len() - 1),
{
    if a.len() == 1 {
        assert(s.skip(0) =~= s);
    } else {
        let front = texts::joined(a.drop_last(), separator);
        assert(s == front + seq![separator] + a.last());
        assert(s.skip(s.len() - a.last().len()) =~= a.last());
        assert(s.take(s.len() - a.last().len() - 1) =~= front);
    }
}

/// All the addresses that are listed between commas are tried, in order, and the direct
/// path before and after them. Where the direct path is switched off, exactly those are
/// tried that do not stand for it.
pub proof fn law_all_listed_ways_are_tried(addrs: Seq<char>, pieces: Seq<Seq<char>>)
    requires
        are_pieces(pieces, addrs, ','),
    ensures
        proxy::pool(addrs, false) == seq!["null"@] + pieces + seq!["null"@],
        proxy::pool(addrs, true) == pieces.filter(|addr: Seq<char>| addr != "null"@),
{
    texts::law_splitting_loses_nothing(addrs, ',');
    lemma_same_pieces(pieces, text::split_on(addrs, ','), addrs, ',');
}

/// The direct path is switched off by `true` alone; anything but `true`, `false` and
/// nothing is an error.
pub proof fn law_direct_path_is_switched_off_by_true(value: Seq<char>)
    ensures
        proxy::null_disabled(None) == Some(false),
        proxy::null_disabled(Some("true"@)) == Some(true),
        proxy::null_disabled(Some("false"@)) == Some(false),
        value != "true"@ && value != "false"@ ==> proxy::null_disabled(Some(value)) is None,
{
    reveal_strlit("true");
    reveal_strlit("false");
    assert("true"@.len() != "false"@.len());
}

// ---------------------------------------------------------------------------
// Peers
// ---------------------------------------------------------------------------

/// `/32` stands at this place of the text.
pub open spec fn ends_address_at(s: Seq<char>, k: int) -> bool {
    0 <= k <= s.len() - 3 && s[k] == '/' && s[k + 1] == '3' && s[k + 2] == '2'
}

/// The item is a range of a single address.
pub open spec fn is_single(item: JsonView) -> bool {
    match item {
        JsonView::Str(s) => exists|k: int| #[trigger] ends_address_at(s, k),
        _ => false,
    }
}

/// What stands before the first slash, or the whole text where there is none.
pub open spec fn is_before_slash(address: Seq<char>, range: Seq<char>) -> bool {
    &&& address.len() <= range.len()
    &&& address == range.take(address.len() as int)
    &&& !address.contains('/')
    &&& address.len() < range.len() ==> range[address.len() as int] == '/'
}

/// Of the items, only the `k`th is a range of a single address.
pub open spec fn is_only_single(items: Seq<JsonView>, k: int) -> bool {
    &&& 0 <= k < items.len()
    &&& forall|i: int| 0 <= i < items.len() ==> (is_single(#[trigger] items[i]) <==> i == k)
}

/// The peer is one to talk to, at this address: it has a name that is not passed over, and
/// of the ranges it may use exactly one is a single address.
pub open spec fn is_peer_at(peer: JsonView, address: Seq<char>) -> bool {
    &&& documents::at(peer, "HostName"@) matches Some(JsonView::Str(name)) && name
        != "funnel-ingress-node"@ && name != "ip-172-31-20-232"@ && name != "localhost"@
    &&& match documents::at(peer, "AllowedIPs"@) {
        Some(JsonView::Array(items)) => exists|k: int| #[trigger]
            is_only_single(items, k) && is_before_slash(address, items[k]->Str_0),
        _ => false,
    }
}

proof fn lemma_single(s: Seq<char>)
    ensures
        text::contains(s, "/32"@) <==> is_single(JsonView::Str(s)),
{
    reveal_strlit("/32");
    assert("/32"@.len() == 3);
    assert("/32"@[0] == '/' && "/32"@[1] == '3' && "/32"@[2] == '2');
    if text::contains(s, "/32"@) {
        let i = choose|i: int|
            0 <= i <= s.len() - "/32"@.len() && #[trigger] s.subrange(i, i + "/32"@.len())
                == "/32"@;
        let part = s.subrange(i, i + 3);
        assert(part[0] == s[i] && part[1] == s[i + 1] && part[2] == s[i + 2]);
        let item = JsonView::Str(s);
        assert(ends_address_at(item->Str_0, i));
        assert(is_single(item));
    }
    if is_single(JsonView::Str(s)) {
        let k = choose|k: int| #[trigger] ends_address_at(s, k);
        let part = "/32"@;
        assert(s.subrange(k, k + part.len()) =~= part);
        assert(text::contains(s, part));
    }
}

/// The single addresses among some values: none, the one, or more than one.
proof fn lemma_singles(items: Seq<JsonView>)
    ensures
        (forall|i: int| 0 <= i < items.len() ==> !is_single(#[trigger] items[i]))
            ==> tailnet_fns::single_addresses(items).len() == 0,
        tailnet_fns::single_addresses(items).len() == 0 ==> (forall|i: int|
            0 <= i < items.len() ==> !is_single(#[trigger] items[i])),
        tailnet_fns::single_addresses(items).len() == 1 ==> exists|k: int| #[trigger]
            is_only_single(items, k),
        forall|k: int| #[trigger]
            is_only_single(items, k) ==> tailnet_fns::single_addresses(items)
                == seq![items[k]->Str_0],
    decreases items.len(),
{
    let keep = |s: Seq<char>| text::contains(s, "/32"@);
    let all = tailnet_fns::single_addresses(items);
    reveal(Seq::filter);
    if items.len() == 0 {
        assert(all.len() == 0);
    } else {
        let rest = items.drop_last();
        let n = items.len() - 1;
        lemma_singles(rest);
        let few = tailnet_fns::single_addresses(rest);
        match items.last() {
            JsonView::Str(s) => {
                lemma_single(s);
                lists::lemma_filter_push(json::strings_among(rest), s, keep);
            },
            _ => {},
        }
        assert(forall|i: int| 0 <= i < n ==> rest[i] == #[trigger] items[i]);
        if is_single(items[n]) {
            assert(all == few.push(items[n]->Str_0));
            if few.len() == 0 {
                assert forall|i: int| 0 <= i < items.len() implies (is_single(
                    #[trigger] items[i],
                ) <==> i == n) by {
                    if i < n {
                        assert(!is_single(rest[i]));
                    }
                }
                assert(is_only_single(items, n));
            }
            assert forall|k: int| #[trigger] is_only_single(items, k) implies all
                == seq![items[k]->Str_0] by {
                assert(k == n);
                assert forall|i: int| 0 <= i < rest.len() implies !is_single(
                    #[trigger] rest[i],
                ) by {
                    assert(rest[i] == items[i]);
                }
                assert(all =~= seq![items[k]->Str_0]);
            }
        } else {
            assert(all == few);
            if few.len() == 1 {
                let k = choose|k: int| #[trigger] is_only_single(rest, k);
                assert forall|i: int| 0 <= i < items.len() implies (is_single(
                    #[trigger] items[i],
                ) <==> i == k) by {
                    if i < n {
                        assert(rest[i] == items[i]);
                    }
                }
                assert(is_only_single(items, k));
            }
            assert forall|k: int| #[trigger] is_only_single(items, k) implies all
                == seq![items[k]->Str_0] by {
                assert(is_single(items[k]));
                assert forall|i: int| 0 <= i < rest.len() implies (is_single(
                    #[trigger] rest[i],
                ) <==> i == k) by {
                    assert(rest[i] == items[i]);
                }
                assert(is_only_single(rest, k));
            }
            if few.len() == 0 {
                assert forall|i: int| 0 <= i < items.len() implies !is_single(
                    #[trigger] items[i],
                ) by {
                    if i < n {
                        assert(rest[i] == items[i]);
                    }
                }
            }
            if forall|i: int| 0 <= i < items.len() ==> !is_single(#[trigger] items[i]) {
                assert forall|i: int| 0 <= i < rest.len() implies !is_single(
                    #[trigger] rest[i],
                ) by {
                    assert(rest[i] == items[i]);
                }
            }
        }
    }
}

proof fn lemma_bare(range: Seq<char>, address: Seq<char>)
    ensures
        tailnet_fns::bare_address(range) == address <==> is_before_slash(address, range),
{
    texts::law_splitting_loses_nothing(range, '/');
    let pieces = text::split_on(range, '/');
    let bare = pieces[0];
    lemma_first_piece(pieces, '/');
    assert forall|k: int| 0 <= k < bare.len() implies bare[k] != '/' by {
        assert(pieces[0][k] != '/');
    }
    assert(is_before_slash(bare, range));
    if is_before_slash(address, range) {
        if address.len() < bare.len() {
            assert(bare[address.len() as int] == range[address.len() as int]);
        }
        if bare.len() < address.len() {
            assert(address[bare.len() as int] == range[bare.len() as int]);
            assert(address.contains('/'));
        }
        assert(address =~= bare);
    }
}

/// A text starts with its first piece, and a separator stands behind that unless it is the
/// only one.
proof fn lemma_first_piece(pieces: Seq<Seq<char>>, separator: char)
    requires
        pieces.len() > 0,
    ensures
        ({
            let s = texts::joined(pieces, separator);
            &&& pieces[0].len() <= s.len()
            &&& s.take(pieces[0].len() as int) == pieces[0]
            &&& pieces[0].len() < s.len() ==> pieces.len() > 1 && s[pieces[0].len() as int]
                == separator
        }),
    decreases pieces.len(),
{
    let s = texts::joined(pieces, separator);
    let first = pieces[0];
    if pieces.len() == 1 {
        assert(s.take(first.len() as int) =~= first);
    } else {
        let rest = pieces.drop_last();
        lemma_first_piece(rest, separator);
        let front = texts::joined(rest, separator);
        assert(rest[0] == first);
        assert(s == front + seq![separator] + pieces.last());
        assert(s.take(first.len() as int) =~= front.take(first.len() as int));
    }
}

proof fn lemma_peer(peer: JsonView, mine: Option<Seq<char>>, address: Seq<char>)
    ensures
        tailnet_fns::peer_address(peer, mine) == Some(address) <==> is_peer_at(peer, address)
            && mine != Some(address),
{
    if let Some(JsonView::Array(items)) = documents::at(peer, "AllowedIPs"@) {
        lemma_singles(items);
        let ranges = tailnet_fns::single_addresses(items);
        if ranges.len() == 1 {
            let k = choose|k: int| #[trigger] is_only_single(items, k);
            assert(ranges[0] == items[k]->Str_0);
            lemma_bare(ranges[0], address);
            lemma_bare(ranges[0], tailnet_fns::bare_address(ranges[0]));
            assert forall|l: int| #[trigger] is_only_single(items, l) implies l == k by {
                assert(is_single(items[l]));
            }
        }
    }
}

/// These are, in the order of their keys, the peers to talk to, with their addresses. The
/// own address is none of them.
pub open spec fn are_peers(
    keys: Seq<Seq<char>>,
    r: Seq<Seq<char>>,
    peers: Map<Seq<char>, JsonView>,
    mine: Option<Seq<char>>,
) -> bool {
    &&& keys.len() == r.len()
    &&& forall|i: int, j: int|
        0 <= i < j < keys.len() ==> texts::precedes(#[trigger] keys[i], #[trigger] keys[j])
    &&& forall|i: int|
        0 <= i < keys.len() ==> peers.dom().contains(#[trigger] keys[i]) && is_peer_at(
            peers[keys[i]],
            r[i],
        ) && mine != Some(r[i])
    &&& forall|key: Seq<char>, address: Seq<char>|
        peers.dom().contains(key) && #[trigger] is_peer_at(peers[key], address) && mine != Some(
            address,
        ) ==> keys.contains(key)
}

proof fn lemma_peers(
    order: Seq<(Seq<char>, JsonView)>,
    peers: Map<Seq<char>, JsonView>,
    mine: Option<Seq<char>>,
    n: int,
) -> (keys: Seq<Seq<char>>)
    requires
        json::in_key_order(order, peers),
        0 <= n <= order.len(),
    ensures
        ({
            let r = tailnet_fns::addresses(order.take(n), mine);
            &&& keys.len() == r.len()
            &&& forall|i: int, j: int|
                0 <= i < j < keys.len() ==> texts::precedes(
                    #[trigger] keys[i],
                    #[trigger] keys[j],
                )
            &&& forall|i: int|
                0 <= i < keys.len() ==> peers.dom().contains(#[trigger] keys[i]) && is_peer_at(
                    peers[keys[i]],
                    r[i],
                ) && mine != Some(r[i])
            &&& forall|i: int|
                0 <= i < keys.len() ==> exists|k: int|
                    0 <= k < n && (#[trigger] order[k]).0 == #[trigger] keys[i]
            &&& forall|k: int, address: Seq<char>|
                0 <= k < n && #[trigger] is_peer_at(order[k].1, address) && mine != Some(address)
                    ==> keys.contains(order[k].0)
        }),
    decreases n,
{
    if n == 0 {
        Seq::empty()
    } else {
        let before = lemma_peers(order, peers, mine, n - 1);
        let (key, peer) = order[n - 1];
        let few = order.take(n - 1);
        let more = order.take(n);
        assert(more.drop_last() =~= few);
        assert(more.last() == order[n - 1]);
        let r = tailnet_fns::addresses(more, mine);
        let found = tailnet_fns::peer_address(peer, mine);
        assert(peers.dom().contains(order[n - 1].0));
        match found {
            None => {
                assert forall|k: int, address: Seq<char>|
                    0 <= k < n && #[trigger] is_peer_at(order[k].1, address) && mine != Some(
                        address,
                    ) implies before.contains(order[k].0) by {
                    if k == n - 1 {
                        lemma_peer(peer, mine, address);
                    }
                }
                before
            },
            Some(found_at) => {
                lemma_peer(peer, mine, found_at);
                let keys = before.push(key);
                assert forall|i: int, j: int| 0 <= i < j < keys.len() implies texts::precedes(
                    #[trigger] keys[i],
                    #[trigger] keys[j],
                ) by {
                    if j == before.len() {
                        let k = choose|k: int|
                            0 <= k < n - 1 && (#[trigger] order[k]).0 == before[i];
                        assert(text::before(order[k].0, order[n - 1].0));
                        texts::law_order_is_by_bytes(order[k].0, order[n - 1].0);
                    } else {
                        assert(texts::precedes(before[i], before[j]));
                    }
                }
                assert forall|i: int| 0 <= i < keys.len() implies peers.dom().contains(
                    #[trigger] keys[i],
                ) && is_peer_at(peers[keys[i]], r[i]) && mine != Some(r[i]) by {
                    if i < before.len() {
                        assert(peers.dom().contains(before[i]));
                    }
                }
                assert forall|i: int| 0 <= i < keys.len() implies exists|k: int|
                    0 <= k < n && (#[trigger] order[k]).0 == #[trigger] keys[i] by {
                    if i < before.len() {
                        let k = choose|k: int|
                            0 <= k < n - 1 && (#[trigger] order[k]).0 == before[i];
                        assert(order[k].0 == keys[i]);
                    } else {
                        assert(order[n - 1].0 == keys[i]);
                    }
                }
                assert forall|k: int, address: Seq<char>|
                    0 <= k < n && #[trigger] is_peer_at(order[k].1, address) && mine != Some(
                        address,
                    ) implies keys.contains(order[k].0) by {
                    if k < n - 1 {
                        let i = choose|i: int|
                            0 <= i < before.len() && before[i] == order[k].0;
                        assert(keys[i] == order[k].0);
                    } else {
                        assert(keys[before.len() as int] == key);
                    }
                }
                keys
            },
        }
    }
}

/// The peers of a status are exactly those to talk to, each with its address, in the order
/// of their keys.
pub proof fn law_peers_of_a_status(
    r: Seq<Seq<char>>,
    status: JsonView,
    mine: Option<Seq<char>>,
)
    requires
        tailnet_fns::lists_peers(r, status, mine),
    ensures
        match documents::at(status, "Peer"@) {
            Some(JsonView::Object(peers)) => exists|keys: Seq<Seq<char>>| #[trigger]
                are_peers(keys, r, peers, mine),
            _ => r.len() == 0,
        },
{
    if let Some(JsonView::Object(peers)) = documents::at(status, "Peer"@) {
        let order = choose|order: Seq<(Seq<char>, JsonView)>| #[trigger]
            json::in_key_order(order, peers) && r == tailnet_fns::addresses(order, mine);
        let keys = lemma_peers(order, peers, mine, order.len() as int);
        assert(order.take(order.len() as int) =~= order);
        assert forall|key: Seq<char>, address: Seq<char>|
            peers.dom().contains(key) && #[trigger] is_peer_at(peers[key], address) && mine
                != Some(address) implies keys.contains(key) by {
            let k = choose|k: int| 0 <= k < order.len() && #[trigger] order[k].0 == key;
            assert(is_peer_at(order[k].1, address));
        }
        assert(are_peers(keys, r, peers, mine));
    }
}

} // verus!
