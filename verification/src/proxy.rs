//! The pool of proxies for outgoing requests. All of them, and the direct path, are
//! tried at once, and whichever answers first is used.

use crate::lists;
use crate::text;
use vstd::prelude::*;

verus! {

/// What the proxies are tried with.
pub const PROBE_ENDPOINT: &'static str = "https://polymarket.com/api/geoblock";

/// How long the first answer may take.
pub const RACE_TIMEOUT_SECS: u64 = 5;

/// What stands for the direct path.
pub const DIRECT: &'static str = "null";

/// Whether the direct path is switched off: `true` or `false`, and `false` where it is
/// not said.
pub open spec fn null_disabled(value: Option<Seq<char>>) -> Option<bool> {
    match value {
        None => Some(false),
        Some(s) => if s == "true"@ {
            Some(true)
        } else if s == "false"@ {
            Some(false)
        } else {
            None
        },
    }
}

/// The addresses to try: the pool, and the direct path. Where that is switched off, it
/// does not count either where the pool lists it.
pub open spec fn pool(socks5_addrs: Seq<char>, null_disabled: bool) -> Seq<Seq<char>> {
    let listed = text::split_on(socks5_addrs, ',');
    if null_disabled {
        listed.filter(|addr: Seq<char>| addr != DIRECT@)
    } else {
        seq![DIRECT@] + listed + seq![DIRECT@]
    }
}

pub fn is_null_disabled(value: Option<&str>) -> (r: Option<bool>)
    ensures
        r == null_disabled(match value {
            Some(s) => Some(s@),
            None => None,
        }),
{
    match value {
        None => Some(false),
        Some(s) => if text::same(s, "true") {
            Some(true)
        } else if text::same(s, "false") {
            Some(false)
        } else {
            None
        },
    }
}

pub fn proxy_addrs(socks5_addrs: &str, null_disabled: bool) -> (r: Vec<String>)
    ensures
        text::texts(r@) == pool(socks5_addrs@, null_disabled),
{
    let mut listed = text::split(socks5_addrs, ',');
    if null_disabled {
        return without_direct(listed);
    }
    let ghost split = listed@;
    let mut r: Vec<String> = Vec::new();
    r.push(DIRECT.to_owned());
    r.append(&mut listed);
    r.push(DIRECT.to_owned());
    assert(text::texts(r@) =~= seq![DIRECT@] + text::texts(split) + seq![DIRECT@]);
    r
}

fn without_direct(addrs: Vec<String>) -> (r: Vec<String>)
    ensures
        text::texts(r@) == text::texts(addrs@).filter(|addr: Seq<char>| addr != DIRECT@),
{
    let ghost all = text::texts(addrs@);
    let ghost keep = |addr: Seq<char>| addr != DIRECT@;
    let mut r: Vec<String> = Vec::new();
    let mut i: usize = 0;
    proof {
        reveal(Seq::filter);
        assert(all.take(0) =~= Seq::empty());
        assert(text::texts(r@) =~= all.take(0).filter(keep));
    }
    while i < addrs.len()
        invariant
            i <= addrs@.len(),
            all == text::texts(addrs@),
            keep == (|addr: Seq<char>| addr != DIRECT@),
            text::texts(r@) == all.take(i as int).filter(keep),
        decreases addrs@.len() - i,
    {
        let ghost done = r@;
        proof {
            assert(all[i as int] == addrs@[i as int]@);
            assert(all.take(i + 1) =~= all.take(i as int).push(all[i as int]));
            lists::lemma_filter_push(all.take(i as int), all[i as int], keep);
        }
        if !text::same(addrs[i].as_str(), DIRECT) {
            r.push(addrs[i].clone());
            assert(text::texts(r@) =~= text::texts(done).push(all[i as int]));
        }
        i = i + 1;
    }
    assert(all.take(i as int) =~= all);
    r
}

/// The address to use, given the first that answered. Where none did, that is the direct
/// path, or none at all where the direct path is switched off.
pub fn find_proxy_addr(first_answer: Option<String>, null_disabled: bool) -> (r: Option<String>)
    ensures
        match (first_answer, r) {
            (Some(answer), Some(addr)) => addr@ == answer@,
            (None, Some(addr)) => !null_disabled && addr@ == DIRECT@,
            (None, None) => null_disabled,
            (Some(_), None) => false,
        },
{
    match first_answer {
        Some(addr) => Some(addr),
        None => if null_disabled {
            None
        } else {
            Some(DIRECT.to_owned())
        },
    }
}

/// The proxy that an address names; the direct path names none.
pub fn proxy_of(addr: &str) -> (r: Option<&str>)
    ensures
        match r {
            Some(proxy) => addr@ != DIRECT@ && proxy@ == addr@,
            None => addr@ == DIRECT@,
        },
{
    if text::same(addr, DIRECT) {
        None
    } else {
        Some(addr)
    }
}

/// Where the direct path is switched off, it does not take part.
pub proof fn law_switched_off_direct_path_is_not_tried(socks5_addrs: Seq<char>, i: int)
    requires
        0 <= i < pool(socks5_addrs, true).len(),
    ensures
        pool(socks5_addrs, true)[i] != DIRECT@,
{
    let listed = text::split_on(socks5_addrs, ',');
    listed.lemma_filter_pred(|addr: Seq<char>| addr != DIRECT@, i);
}

/// The direct path takes part unless it is switched off.
pub proof fn law_direct_path_is_tried(socks5_addrs: Seq<char>)
    ensures
        pool(socks5_addrs, false).contains(DIRECT@),
{
    assert(pool(socks5_addrs, false)[0] == DIRECT@);
}

} // verus!
