//! The ticker index: entries that locate records in the log, sorted by ticker.

use crate::lists;
use crate::text;
use crate::text::Order;
use vstd::prelude::*;

verus! {

/// One ticker's location in the on-disk log: the byte offset of its JSON payload
/// and the payload's length, without the line feed that ends it.
#[derive(Debug)]
pub struct IndexEntry {
    pub ticker: String,
    pub offset: u64,
    pub len: u32,
}

/// The mathematical content of an index entry.
pub struct EntryView {
    pub ticker: Seq<char>,
    pub offset: u64,
    pub len: u32,
}

impl View for IndexEntry {
    type V = EntryView;

    open spec fn view(&self) -> EntryView {
        EntryView { ticker: self.ticker@, offset: self.offset, len: self.len }
    }
}

impl Clone for IndexEntry {
    fn clone(&self) -> (copy: IndexEntry)
        ensures
            copy@ == self@,
    {
        IndexEntry { ticker: self.ticker.clone(), offset: self.offset, len: self.len }
    }
}

/// The contents of a list of entries.
pub open spec fn views(entries: Seq<IndexEntry>) -> Seq<EntryView> {
    entries.map_values(|e: IndexEntry| e@)
}

/// `a` does not come after `b`.
pub open spec fn at_most(a: Seq<char>, b: Seq<char>) -> bool {
    !text::before(b, a)
}

/// Sorted by ticker; a ticker may occur more than once.
pub open spec fn sorted(entries: Seq<EntryView>) -> bool {
    forall|i: int, j: int|
        0 <= i < j < entries.len() ==> #[trigger] at_most(entries[i].ticker, entries[j].ticker)
}

/// Sorted by ticker, each ticker at most once.
pub open spec fn strictly_sorted(entries: Seq<EntryView>) -> bool {
    forall|i: int, j: int|
        0 <= i < j < entries.len() ==> #[trigger] text::before(
            entries[i].ticker,
            entries[j].ticker,
        )
}

/// The entries of one ticker, in order.
pub open spec fn of_ticker(entries: Seq<EntryView>, ticker: Seq<char>) -> Seq<EntryView> {
    entries.filter(|e: EntryView| e.ticker == ticker)
}

/// The last item alone, if there is one.
pub open spec fn last_alone(entries: Seq<EntryView>) -> Seq<EntryView> {
    if entries.len() == 0 {
        entries
    } else {
        seq![entries.last()]
    }
}

/// `index` is the index of the records in `entries`: sorted, one entry per ticker,
/// and that entry is the ticker's last record.
pub open spec fn indexes(index: Seq<EntryView>, entries: Seq<EntryView>) -> bool {
    &&& strictly_sorted(index)
    &&& forall|t: Seq<char>|
        #![trigger of_ticker(index, t)]
        of_ticker(index, t) == last_alone(of_ticker(entries, t))
}

/// Some entry has this ticker.
pub open spec fn has_ticker(entries: Seq<EntryView>, ticker: Seq<char>) -> bool {
    exists|i: int| 0 <= i < entries.len() && #[trigger] entries[i].ticker == ticker
}

/// The last entry of `ticker`.
pub open spec fn lookup(entries: Seq<EntryView>, ticker: Seq<char>) -> Option<EntryView> {
    let found = of_ticker(entries, ticker);
    if found.len() == 0 {
        None
    } else {
        Some(found.last())
    }
}

// ---------------------------------------------------------------------------
// Order
// ---------------------------------------------------------------------------

pub proof fn lemma_at_most_transitive(a: Seq<char>, b: Seq<char>, c: Seq<char>)
    requires
        at_most(a, b),
        at_most(b, c),
    ensures
        at_most(a, c),
{
    if text::before(c, a) {
        text::lemma_before_total(a, b);
        if text::before(a, b) {
            text::lemma_before_transitive(c, a, b);
        }
    }
}

/// What comes before `b` comes before everything that `b` does not come after.
pub proof fn lemma_before_at_most(a: Seq<char>, b: Seq<char>, c: Seq<char>)
    requires
        text::before(a, b),
        at_most(b, c),
    ensures
        text::before(a, c),
{
    text::lemma_before_total(b, c);
    if text::before(b, c) {
        text::lemma_before_transitive(a, b, c);
    }
}

proof fn lemma_strictly_sorted_is_sorted(entries: Seq<EntryView>)
    requires
        strictly_sorted(entries),
    ensures
        sorted(entries),
{
    assert forall|i: int, j: int| 0 <= i < j < entries.len() implies #[trigger] at_most(
        entries[i].ticker,
        entries[j].ticker,
    ) by {
        text::lemma_before_asymmetric(entries[i].ticker, entries[j].ticker);
    }
}

// ---------------------------------------------------------------------------
// Filtering
// ---------------------------------------------------------------------------

proof fn lemma_filter_all(s: Seq<EntryView>, keep: spec_fn(EntryView) -> bool)
    requires
        forall|i: int| 0 <= i < s.len() ==> keep(#[trigger] s[i]),
    ensures
        s.filter(keep) == s,
    decreases s.len(),
{
    reveal(Seq::filter);
    if s.len() > 0 {
        assert forall|i: int| 0 <= i < s.drop_last().len() implies keep(
            #[trigger] s.drop_last()[i],
        ) by {
            assert(s.drop_last()[i] == s[i]);
        }
        lemma_filter_all(s.drop_last(), keep);
        assert(s.drop_last().push(s.last()) =~= s);
    }
}

/// Where the kept items stand together, the selection is that stretch.
pub proof fn lemma_filter_stretch(
    s: Seq<EntryView>,
    keep: spec_fn(EntryView) -> bool,
    from: int,
    to: int,
)
    requires
        0 <= from <= to <= s.len(),
        forall|i: int| 0 <= i < from ==> !keep(#[trigger] s[i]),
        forall|i: int| from <= i < to ==> keep(#[trigger] s[i]),
        forall|i: int| to <= i < s.len() ==> !keep(#[trigger] s[i]),
    ensures
        s.filter(keep) == s.subrange(from, to),
{
    let (a, b, c) = (s.take(from), s.subrange(from, to), s.skip(to));
    assert(a + b + c =~= s);
    Seq::filter_distributes_over_add(a + b, c, keep);
    Seq::filter_distributes_over_add(a, b, keep);
    lists::lemma_filter_none(a, keep);
    lemma_filter_all(b, keep);
    lists::lemma_filter_none(c, keep);
    assert(a.filter(keep) + b + c.filter(keep) =~= b);
}

/// A ticker that no entry has selects nothing.
pub proof fn lemma_absent_selects_nothing(entries: Seq<EntryView>, ticker: Seq<char>)
    ensures
        of_ticker(entries, ticker).len() == 0 <==> !has_ticker(entries, ticker),
{
    let keep = |e: EntryView| e.ticker == ticker;
    if has_ticker(entries, ticker) {
        let i = choose|i: int| 0 <= i < entries.len() && #[trigger] entries[i].ticker == ticker;
        entries.lemma_filter_contains(keep, i);
    } else {
        lists::lemma_filter_none(entries, keep);
    }
}

/// The last entry selected for a ticker is its last entry in the list.
pub proof fn lemma_last_selected(entries: Seq<EntryView>, ticker: Seq<char>)
    requires
        of_ticker(entries, ticker).len() > 0,
    ensures
        exists|k: int|
            0 <= k < entries.len() && #[trigger] entries[k] == of_ticker(entries, ticker).last()
                && forall|later: int|
                k < later < entries.len() ==> #[trigger] entries[later].ticker != ticker,
    decreases entries.len(),
{
    reveal(Seq::filter);
    let shorter = entries.drop_last();
    let last = entries.len() - 1;
    if entries[last].ticker == ticker {
        assert(entries[last] == of_ticker(entries, ticker).last());
    } else {
        lemma_last_selected(shorter, ticker);
        let k = choose|k: int|
            0 <= k < shorter.len() && #[trigger] shorter[k] == of_ticker(shorter, ticker).last()
                && forall|later: int|
                k < later < shorter.len() ==> #[trigger] shorter[later].ticker != ticker;
        assert(entries[k] == shorter[k]);
        assert forall|later: int| k < later < entries.len() implies #[trigger] entries[later].ticker
            != ticker by {
            if later < last {
                assert(shorter[later].ticker != ticker);
            }
        }
    }
}

// ---------------------------------------------------------------------------
// Sorting
// ---------------------------------------------------------------------------

/// `r` is `entries` sorted by ticker, with the records of each ticker in the order
/// that they had.
pub open spec fn sorted_from(r: Seq<EntryView>, entries: Seq<EntryView>) -> bool {
    &&& sorted(r)
    &&& forall|t: Seq<char>|
        #![trigger of_ticker(r, t)]
        of_ticker(r, t) == of_ticker(entries, t)
}

spec fn below_heads(
    out: Seq<EntryView>,
    a: Seq<EntryView>,
    i: int,
    b: Seq<EntryView>,
    j: int,
) -> bool {
    &&& i < a.len() ==> forall|k: int|
        0 <= k < out.len() ==> #[trigger] at_most(out[k].ticker, a[i].ticker)
    &&& j < b.len() ==> forall|k: int|
        0 <= k < out.len() ==> #[trigger] at_most(out[k].ticker, b[j].ticker)
}

proof fn lemma_take_next(
    out: Seq<EntryView>,
    a: Seq<EntryView>,
    i: int,
    b: Seq<EntryView>,
    j: int,
)
    requires
        0 <= i < a.len(),
        0 <= j <= b.len(),
        sorted(a),
        sorted(b),
        sorted(out),
        below_heads(out, a, i, b, j),
        j < b.len() ==> at_most(a[i].ticker, b[j].ticker),
    ensures
        sorted(out.push(a[i])),
        below_heads(out.push(a[i]), a, i + 1, b, j),
        below_heads(out.push(a[i]), b, j, a, i + 1),
{
    let next = out.push(a[i]);
    assert forall|x: int, y: int| 0 <= x < y < next.len() implies #[trigger] at_most(
        next[x].ticker,
        next[y].ticker,
    ) by {
        if y == out.len() {
            assert(at_most(out[x].ticker, a[i].ticker));
        } else {
            assert(at_most(out[x].ticker, out[y].ticker));
        }
    }
    if i + 1 < a.len() {
        assert forall|k: int| 0 <= k < next.len() implies #[trigger] at_most(
            next[k].ticker,
            a[i + 1].ticker,
        ) by {
            assert(at_most(a[i].ticker, a[i + 1].ticker));
            if k < out.len() {
                assert(at_most(out[k].ticker, a[i].ticker));
                lemma_at_most_transitive(out[k].ticker, a[i].ticker, a[i + 1].ticker);
            }
        }
    }
    if j < b.len() {
        assert forall|k: int| 0 <= k < next.len() implies #[trigger] at_most(
            next[k].ticker,
            b[j].ticker,
        ) by {
            if k < out.len() {
                assert(at_most(out[k].ticker, b[j].ticker));
            }
        }
    }
}

proof fn lemma_views_push(entries: Seq<IndexEntry>, e: IndexEntry)
    ensures
        views(entries.push(e)) == views(entries).push(e@),
{
    assert(views(entries.push(e)) =~= views(entries).push(e@));
}

/// What has been merged is, ticker by ticker, what came from `a` and then what came
/// from `b`.
spec fn interleaves(
    out: Seq<EntryView>,
    a: Seq<EntryView>,
    i: int,
    b: Seq<EntryView>,
    j: int,
) -> bool {
    forall|t: Seq<char>|
        #![trigger of_ticker(out, t)]
        of_ticker(out, t) == of_ticker(a.take(i), t) + of_ticker(b.take(j), t)
}

proof fn lemma_interleave_first(
    out: Seq<EntryView>,
    a: Seq<EntryView>,
    i: int,
    b: Seq<EntryView>,
    j: int,
)
    requires
        0 <= i < a.len(),
        0 <= j <= b.len(),
        interleaves(out, a, i, b, j),
        forall|k: int| 0 <= k < j ==> #[trigger] text::before(b[k].ticker, a[i].ticker),
    ensures
        interleaves(out.push(a[i]), a, i + 1, b, j),
{
    assert(a.take(i + 1) =~= a.take(i).push(a[i]));
    assert forall|t: Seq<char>| #![trigger of_ticker(out.push(a[i]), t)] of_ticker(
        out.push(a[i]),
        t,
    ) == of_ticker(a.take(i + 1), t) + of_ticker(b.take(j), t) by {
        let keep = |e: EntryView| e.ticker == t;
        assert(of_ticker(out, t) == of_ticker(a.take(i), t) + of_ticker(b.take(j), t));
        lists::lemma_filter_push(out, a[i], keep);
        lists::lemma_filter_push(a.take(i), a[i], keep);
        if a[i].ticker == t {
            assert forall|k: int| 0 <= k < b.take(j).len() implies !keep(
                #[trigger] b.take(j)[k],
            ) by {
                assert(text::before(b[k].ticker, a[i].ticker));
                text::lemma_before_asymmetric(b[k].ticker, a[i].ticker);
            }
            lists::lemma_filter_none(b.take(j), keep);
            assert(of_ticker(out.push(a[i]), t) =~= of_ticker(a.take(i + 1), t) + of_ticker(
                b.take(j),
                t,
            ));
        }
    }
}

proof fn lemma_interleave_second(
    out: Seq<EntryView>,
    a: Seq<EntryView>,
    i: int,
    b: Seq<EntryView>,
    j: int,
)
    requires
        0 <= i <= a.len(),
        0 <= j < b.len(),
        interleaves(out, a, i, b, j),
    ensures
        interleaves(out.push(b[j]), a, i, b, j + 1),
{
    assert(b.take(j + 1) =~= b.take(j).push(b[j]));
    assert forall|t: Seq<char>| #![trigger of_ticker(out.push(b[j]), t)] of_ticker(
        out.push(b[j]),
        t,
    ) == of_ticker(a.take(i), t) + of_ticker(b.take(j + 1), t) by {
        let keep = |e: EntryView| e.ticker == t;
        assert(of_ticker(out, t) == of_ticker(a.take(i), t) + of_ticker(b.take(j), t));
        lists::lemma_filter_push(out, b[j], keep);
        lists::lemma_filter_push(b.take(j), b[j], keep);
        assert(of_ticker(out.push(b[j]), t) =~= of_ticker(a.take(i), t) + of_ticker(
            b.take(j + 1),
            t,
        ));
    }
}

/// Merges two sorted lists. Of equal tickers, those of `first` come first.
fn merge(first: Vec<IndexEntry>, second: Vec<IndexEntry>) -> (r: Vec<IndexEntry>)
    requires
        sorted(views(first@)),
        sorted(views(second@)),
    ensures
        sorted_from(views(r@), views(first@) + views(second@)),
{
    let ghost a = views(first@);
    let ghost b = views(second@);
    let ghost mut i: int = 0;
    let ghost mut j: int = 0;
    let mut left = lists::reversed(first);
    let mut right = lists::reversed(second);
    let mut out: Vec<IndexEntry> = Vec::new();
    proof {
        assert(views(out@) =~= Seq::empty());
        assert forall|t: Seq<char>| #![trigger of_ticker(views(out@), t)] of_ticker(
            views(out@),
            t,
        ) == of_ticker(a.take(0), t) + of_ticker(b.take(0), t) by {
            assert(a.take(0) =~= Seq::empty());
            assert(b.take(0) =~= Seq::empty());
            reveal(Seq::filter);
        }
    }
    while left.len() > 0 || right.len() > 0
        invariant
            0 <= i <= a.len(),
            0 <= j <= b.len(),
            sorted(a),
            sorted(b),
            views(left@) == a.skip(i).reverse(),
            views(right@) == b.skip(j).reverse(),
            sorted(views(out@)),
            below_heads(views(out@), a, i, b, j),
            interleaves(views(out@), a, i, b, j),
            i < a.len() ==> forall|k: int|
                0 <= k < j ==> #[trigger] text::before(b[k].ticker, a[i].ticker),
        decreases left.len() + right.len(),
    {
        assert(left.len() == views(left@).len());
        assert(right.len() == views(right@).len());
        let ghost done = out@;
        let mut from_left: bool = right.len() == 0;
        if left.len() > 0 && right.len() > 0 {
            assert(views(left@)[left.len() - 1] == a[i]);
            assert(views(right@)[right.len() - 1] == b[j]);
            from_left =
            match text::compare(
                right[right.len() - 1].ticker.as_str(),
                left[left.len() - 1].ticker.as_str(),
            ) {
                Order::Less => false,
                Order::Equal => true,
                Order::Greater => true,
            };
            proof {
                text::lemma_before_irreflexive(a[i].ticker);
                if from_left {
                    if text::before(a[i].ticker, b[j].ticker) {
                        text::lemma_before_asymmetric(a[i].ticker, b[j].ticker);
                    }
                } else {
                    text::lemma_before_asymmetric(b[j].ticker, a[i].ticker);
                }
            }
        }
        if from_left {
            let ghost waiting = left@;
            assert(views(left@)[left@.len() - 1] == a[i]);
            let entry = left.pop().unwrap();
            out.push(entry);
            proof {
                lemma_views_push(done, entry);
                lemma_take_next(views(done), a, i, b, j);
                lemma_interleave_first(views(done), a, i, b, j);
                if i + 1 < a.len() {
                    assert forall|k: int| 0 <= k < j implies #[trigger] text::before(
                        b[k].ticker,
                        a[i + 1].ticker,
                    ) by {
                        assert(at_most(a[i].ticker, a[i + 1].ticker));
                        lemma_before_at_most(b[k].ticker, a[i].ticker, a[i + 1].ticker);
                    }
                }
                i = i + 1;
                assert(views(left@) =~= views(waiting).drop_last());
                assert(views(left@) =~= a.skip(i).reverse());
            }
        } else {
            let ghost waiting = right@;
            assert(views(right@)[right@.len() - 1] == b[j]);
            let entry = right.pop().unwrap();
            out.push(entry);
            proof {
                lemma_views_push(done, entry);
                lemma_take_next(views(done), b, j, a, i);
                lemma_interleave_second(views(done), a, i, b, j);
                j = j + 1;
                assert(views(right@) =~= views(waiting).drop_last());
                assert(views(right@) =~= b.skip(j).reverse());
            }
        }
    }
    proof {
        assert(left@.len() == views(left@).len());
        assert(right@.len() == views(right@).len());
        assert(a.take(i) =~= a);
        assert(b.take(j) =~= b);
        assert forall|t: Seq<char>| #![trigger of_ticker(views(out@), t)] of_ticker(
            views(out@),
            t,
        ) == of_ticker(a + b, t) by {
            Seq::filter_distributes_over_add(a, b, |e: EntryView| e.ticker == t);
        }
    }
    out
}

/// Sorts the entries by ticker; records of one ticker keep their order.
pub fn sort_by_ticker(entries: Vec<IndexEntry>) -> (r: Vec<IndexEntry>)
    ensures
        sorted_from(views(r@), views(entries@)),
    decreases entries.len(),
{
    if entries.len() <= 1 {
        return entries;
    }
    let ghost all = entries@;
    let mut first = entries;
    let middle: usize = first.len() / 2;
    let second = first.split_off(middle);
    let ghost (x, y) = (views(first@), views(second@));
    assert(x + y =~= views(all));
    let first = sort_by_ticker(first);
    let second = sort_by_ticker(second);
    let r = merge(first, second);
    proof {
        let (p, q) = (views(first@), views(second@));
        assert forall|t: Seq<char>| #![trigger of_ticker(views(r@), t)] of_ticker(views(r@), t)
            == of_ticker(views(all), t) by {
            let keep = |e: EntryView| e.ticker == t;
            Seq::filter_distributes_over_add(x, y, keep);
            Seq::filter_distributes_over_add(p, q, keep);
            assert(of_ticker(p, t) == of_ticker(x, t));
            assert(of_ticker(q, t) == of_ticker(y, t));
        }
    }
    r
}

// ---------------------------------------------------------------------------
// Deduplication
// ---------------------------------------------------------------------------

/// Of each run of neighbours with the same ticker, the last.
pub open spec fn last_of_runs(entries: Seq<EntryView>) -> Seq<EntryView>
    decreases entries.len(),
{
    if entries.len() == 0 {
        entries
    } else if entries.len() > 1 && entries[0].ticker == entries[1].ticker {
        last_of_runs(entries.drop_first())
    } else {
        seq![entries[0]] + last_of_runs(entries.drop_first())
    }
}

/// Keeps the last entry of each run of equal tickers: in a sorted list, the most
/// recent record of each ticker.
pub fn dedupe_keep_last(entries: Vec<IndexEntry>) -> (r: Vec<IndexEntry>)
    ensures
        views(r@) == last_of_runs(views(entries@)),
        sorted(views(entries@)) ==> indexes(views(r@), views(entries@)),
{
    let ghost all = views(entries@);
    let ghost mut i: int = 0;
    let mut rest = lists::reversed(entries);
    let mut out: Vec<IndexEntry> = Vec::new();
    proof {
        assert(all.skip(0) =~= all);
        assert(views(out@) + last_of_runs(all) =~= last_of_runs(all));
    }
    while rest.len() > 0
        invariant
            0 <= i <= all.len(),
            views(rest@) == all.skip(i).reverse(),
            views(out@) + last_of_runs(all.skip(i)) == last_of_runs(all),
        decreases rest.len(),
    {
        let ghost waiting = rest@;
        let ghost done = out@;
        assert(waiting.len() == views(waiting).len());
        let current = rest.pop().unwrap();
        proof {
            assert(views(waiting)[waiting.len() - 1] == all[i]);
            assert(views(rest@) =~= views(waiting).drop_last());
            assert(views(rest@) =~= all.skip(i + 1).reverse());
            assert(all.skip(i).drop_first() =~= all.skip(i + 1));
            if rest@.len() > 0 {
                assert(views(rest@)[rest@.len() - 1] == all[i + 1]);
            }
        }
        let superseded: bool = rest.len() > 0 && text::same(
            rest[rest.len() - 1].ticker.as_str(),
            current.ticker.as_str(),
        );
        if !superseded {
            out.push(current);
            proof {
                lemma_views_push(done, current);
                assert(views(out@) + last_of_runs(all.skip(i + 1)) =~= views(done) + (
                seq![all[i]] + last_of_runs(all.skip(i + 1))));
            }
        }
        proof {
            i = i + 1;
        }
    }
    proof {
        assert(rest@.len() == views(rest@).len());
        assert(all.skip(i) =~= Seq::empty());
        assert(views(out@) =~= last_of_runs(all));
        if sorted(all) {
            lemma_last_of_runs_indexes(all);
        }
    }
    out
}

proof fn lemma_last_of_runs_tickers(entries: Seq<EntryView>)
    requires
        sorted(entries),
    ensures
        forall|i: int|
            0 <= i < last_of_runs(entries).len() ==> entries.len() > 0 && at_most(
                entries[0].ticker,
                #[trigger] last_of_runs(entries)[i].ticker,
            ),
    decreases entries.len(),
{
    if entries.len() > 0 {
        let rest = entries.drop_first();
        assert forall|i: int, j: int| 0 <= i < j < rest.len() implies #[trigger] at_most(
            rest[i].ticker,
            rest[j].ticker,
        ) by {
            assert(at_most(entries[i + 1].ticker, entries[j + 1].ticker));
        }
        lemma_last_of_runs_tickers(rest);
        assert forall|i: int| 0 <= i < last_of_runs(entries).len() implies at_most(
            entries[0].ticker,
            #[trigger] last_of_runs(entries)[i].ticker,
        ) by {
            text::lemma_before_irreflexive(entries[0].ticker);
            let r = last_of_runs(rest);
            if entries.len() > 1 {
                assert(at_most(entries[0].ticker, entries[1].ticker));
                if entries[0].ticker == entries[1].ticker {
                    assert(at_most(rest[0].ticker, r[i].ticker));
                } else if i > 0 {
                    assert(at_most(rest[0].ticker, r[i - 1].ticker));
                    lemma_at_most_transitive(
                        entries[0].ticker,
                        rest[0].ticker,
                        r[i - 1].ticker,
                    );
                }
            }
        }
    }
}

/// Collapsing the runs of a sorted list leaves one entry per ticker, its last.
pub proof fn lemma_last_of_runs_indexes(entries: Seq<EntryView>)
    requires
        sorted(entries),
    ensures
        indexes(last_of_runs(entries), entries),
    decreases entries.len(),
{
    let out = last_of_runs(entries);
    if entries.len() > 0 {
        let first = entries[0];
        let rest = entries.drop_first();
        let kept = last_of_runs(rest);
        assert forall|i: int, j: int| 0 <= i < j < rest.len() implies #[trigger] at_most(
            rest[i].ticker,
            rest[j].ticker,
        ) by {
            assert(at_most(entries[i + 1].ticker, entries[j + 1].ticker));
        }
        lemma_last_of_runs_indexes(rest);
        lemma_last_of_runs_tickers(rest);
        let repeated = entries.len() > 1 && entries[0].ticker == entries[1].ticker;
        assert(entries =~= seq![first] + rest);
        if !repeated {
            assert forall|i: int, j: int| 0 <= i < j < out.len() implies #[trigger] text::before(
                out[i].ticker,
                out[j].ticker,
            ) by {
                if i == 0 {
                    assert(out[j] == kept[j - 1]);
                    assert(at_most(rest[0].ticker, kept[j - 1].ticker));
                    assert(at_most(entries[0].ticker, entries[1].ticker));
                    text::lemma_before_total(entries[0].ticker, entries[1].ticker);
                    lemma_before_at_most(first.ticker, rest[0].ticker, kept[j - 1].ticker);
                } else {
                    assert(text::before(kept[i - 1].ticker, kept[j - 1].ticker));
                }
            }
        }
        assert forall|t: Seq<char>| #![trigger of_ticker(out, t)] of_ticker(out, t) == last_alone(
            of_ticker(entries, t),
        ) by {
            let keep = |e: EntryView| e.ticker == t;
            Seq::filter_distributes_over_add(seq![first], rest, keep);
            lists::lemma_filter_push(Seq::empty(), first, keep);
            lists::lemma_filter_none(Seq::empty(), keep);
            assert(seq![first] =~= Seq::empty().push(first));
            assert(of_ticker(kept, t) == last_alone(of_ticker(rest, t)));
            assert(seq![first].filter(keep) =~= if first.ticker == t {
                seq![first]
            } else {
                Seq::empty()
            });
            if repeated {
                if first.ticker == t {
                    rest.lemma_filter_contains(keep, 0);
                }
                assert(of_ticker(out, t) =~= last_alone(of_ticker(entries, t)));
            } else {
                Seq::filter_distributes_over_add(seq![first], kept, keep);
                if first.ticker == t {
                    assert forall|k: int| 0 <= k < rest.len() implies !keep(
                        #[trigger] rest[k],
                    ) by {
                        assert(at_most(entries[0].ticker, entries[1].ticker));
                        text::lemma_before_total(entries[0].ticker, entries[1].ticker);
                        if k > 0 {
                            assert(at_most(entries[1].ticker, entries[k + 1].ticker));
                            lemma_before_at_most(first.ticker, entries[1].ticker, rest[k].ticker);
                        }
                        text::lemma_before_asymmetric(first.ticker, rest[k].ticker);
                    }
                    lists::lemma_filter_none(rest, keep);
                }
                assert(of_ticker(out, t) =~= last_alone(of_ticker(entries, t)));
            }
        }
    }
}

/// Sorts the records by ticker and keeps the last of each.
pub fn build_index(entries: Vec<IndexEntry>) -> (r: Vec<IndexEntry>)
    ensures
        indexes(views(r@), views(entries@)),
{
    let ghost all = views(entries@);
    let ordered = sort_by_ticker(entries);
    let r = dedupe_keep_last(ordered);
    proof {
        assert forall|t: Seq<char>| #![trigger of_ticker(views(r@), t)] of_ticker(views(r@), t)
            == last_alone(of_ticker(all, t)) by {
            assert(of_ticker(views(ordered@), t) == of_ticker(all, t));
        }
    }
    r
}

// ---------------------------------------------------------------------------
// Lookup
// ---------------------------------------------------------------------------

/// `ticker` lies beyond the cursor; without a cursor, every ticker does.
pub open spec fn beyond(after: Option<Seq<char>>, ticker: Seq<char>) -> bool {
    match after {
        Some(cursor) => text::before(cursor, ticker),
        None => true,
    }
}

/// The entries beyond the cursor, in order.
pub open spec fn entries_after(
    index: Seq<EntryView>,
    after: Option<Seq<char>>,
) -> Seq<EntryView> {
    index.filter(|e: EntryView| beyond(after, e.ticker))
}

/// The first `limit` entries beyond the cursor.
pub open spec fn page(
    index: Seq<EntryView>,
    after: Option<Seq<char>>,
    limit: nat,
) -> Seq<EntryView> {
    let rest = entries_after(index, after);
    if limit < rest.len() {
        rest.take(limit as int)
    } else {
        rest
    }
}

/// The cursor for the page that follows: the last ticker of this page, if entries
/// remain behind it.
pub open spec fn next_cursor(
    index: Seq<EntryView>,
    after: Option<Seq<char>>,
    limit: nat,
) -> Option<Seq<char>> {
    if 0 < limit < entries_after(index, after).len() {
        Some(page(index, after, limit).last().ticker)
    } else {
        None
    }
}

/// The entries whose ticker starts with `prefix`, in order.
pub open spec fn with_prefix(index: Seq<EntryView>, prefix: Seq<char>) -> Seq<EntryView> {
    index.filter(|e: EntryView| text::starts_with(e.ticker, prefix))
}

/// How many entries have a ticker of at most `key`.
fn count_at_most(index: &Vec<IndexEntry>, key: &str) -> (n: usize)
    requires
        strictly_sorted(views(index@)),
    ensures
        n <= index.len(),
        forall|i: int| 0 <= i < n ==> at_most(#[trigger] views(index@)[i].ticker, key@),
        forall|i: int|
            n <= i < index.len() ==> text::before(key@, #[trigger] views(index@)[i].ticker),
{
    let ghost all = views(index@);
    let mut low: usize = 0;
    let mut high: usize = index.len();
    proof {
        lemma_strictly_sorted_is_sorted(all);
    }
    while low < high
        invariant
            all == views(index@),
            sorted(all),
            low <= high <= index.len(),
            forall|i: int| 0 <= i < low ==> at_most(#[trigger] all[i].ticker, key@),
            forall|i: int| high <= i < index.len() ==> text::before(key@, #[trigger] all[i].ticker),
        decreases high - low,
    {
        let middle: usize = low + (high - low) / 2;
        assert(all[middle as int] == index@[middle as int]@);
        match text::compare(key, index[middle].ticker.as_str()) {
            Order::Less => {
                proof {
                    assert forall|i: int| middle <= i < index.len() implies text::before(
                        key@,
                        #[trigger] all[i].ticker,
                    ) by {
                        if i > middle {
                            assert(at_most(all[middle as int].ticker, all[i].ticker));
                            lemma_before_at_most(key@, all[middle as int].ticker, all[i].ticker);
                        }
                    }
                }
                high = middle;
            },
            _ => {
                proof {
                    text::lemma_before_irreflexive(key@);
                    if text::before(all[middle as int].ticker, key@) {
                        text::lemma_before_asymmetric(all[middle as int].ticker, key@);
                    }
                    assert(at_most(all[middle as int].ticker, key@));
                    assert forall|i: int| 0 <= i <= middle implies at_most(
                        #[trigger] all[i].ticker,
                        key@,
                    ) by {
                        if i < middle {
                            assert(at_most(all[i].ticker, all[middle as int].ticker));
                            lemma_at_most_transitive(
                                all[i].ticker,
                                all[middle as int].ticker,
                                key@,
                            );
                        }
                    }
                }
                low = middle + 1;
            },
        }
    }
    low
}

/// How many entries have a ticker before `key`.
fn count_before(index: &Vec<IndexEntry>, key: &str) -> (n: usize)
    requires
        strictly_sorted(views(index@)),
    ensures
        n <= index.len(),
        forall|i: int| 0 <= i < n ==> text::before(#[trigger] views(index@)[i].ticker, key@),
        forall|i: int|
            n <= i < index.len() ==> at_most(key@, #[trigger] views(index@)[i].ticker),
{
    let n: usize = count_at_most(index, key);
    let ghost all = views(index@);
    if n > 0 {
        assert(all[n - 1] == index@[n - 1]@);
        if text::same(index[n - 1].ticker.as_str(), key) {
            proof {
                assert forall|i: int| n - 1 <= i < index.len() implies at_most(
                    key@,
                    #[trigger] all[i].ticker,
                ) by {
                    text::lemma_before_irreflexive(key@);
                    if i >= n {
                        text::lemma_before_asymmetric(key@, all[i].ticker);
                    }
                }
                assert forall|i: int| 0 <= i < n - 1 implies text::before(
                    #[trigger] all[i].ticker,
                    key@,
                ) by {
                    assert(text::before(all[i].ticker, all[n - 1].ticker));
                }
            }
            return n - 1;
        }
    }
    proof {
        assert forall|i: int| 0 <= i < n implies text::before(#[trigger] all[i].ticker, key@) by {
            text::lemma_before_total(all[n - 1].ticker, key@);
            if i < n - 1 {
                assert(text::before(all[i].ticker, all[n - 1].ticker));
                text::lemma_before_transitive(all[i].ticker, all[n - 1].ticker, key@);
            }
        }
        assert forall|i: int| n <= i < index.len() implies at_most(
            key@,
            #[trigger] all[i].ticker,
        ) by {
            text::lemma_before_asymmetric(key@, all[i].ticker);
        }
    }
    n
}

/// The entry of `ticker`, if the index has one.
pub fn find<'a>(index: &'a Vec<IndexEntry>, ticker: &str) -> (r: Option<&'a IndexEntry>)
    requires
        strictly_sorted(views(index@)),
    ensures
        match r {
            Some(entry) => views(index@).contains(entry@) && entry@.ticker == ticker@,
            None => !has_ticker(views(index@), ticker@),
        },
{
    let ghost all = views(index@);
    let n: usize = count_before(index, ticker);
    if n < index.len() {
        assert(all[n as int] == index@[n as int]@);
        if text::same(index[n].ticker.as_str(), ticker) {
            return Some(&index[n]);
        }
    }
    proof {
        if has_ticker(all, ticker@) {
            let i = choose|i: int| 0 <= i < all.len() && #[trigger] all[i].ticker == ticker@;
            text::lemma_before_irreflexive(ticker@);
            assert(n <= i);
            assert(n < i);
            assert(text::before(all[n as int].ticker, all[i].ticker));
            assert(at_most(ticker@, all[n as int].ticker));
        }
    }
    None
}

/// Keyset pagination: up to `limit` entries whose ticker is strictly greater than
/// `after`, and the cursor to pass for the page that follows.
pub fn cursor_range<'a>(
    index: &'a Vec<IndexEntry>,
    after: Option<&str>,
    limit: usize,
) -> (r: (&'a [IndexEntry], Option<String>))
    requires
        strictly_sorted(views(index@)),
    ensures
        views(r.0@) == page(views(index@), text_view(after), limit as nat),
        owned_view(r.1) == next_cursor(views(index@), text_view(after), limit as nat),
{
    let ghost all = views(index@);
    let start: usize = match after {
        Some(cursor) => count_at_most(index, cursor),
        None => 0,
    };
    proof {
        lemma_filter_stretch(
            all,
            |e: EntryView| beyond(text_view(after), e.ticker),
            start as int,
            all.len() as int,
        );
    }
    let end: usize = if limit < index.len() - start {
        start + limit
    } else {
        index.len()
    };
    let found = vstd::slice::slice_subrange(index.as_slice(), start, end);
    proof {
        assert(views(found@) =~= all.subrange(start as int, end as int));
        assert(views(found@) =~= page(all, text_view(after), limit as nat));
    }
    let next = if end < index.len() && end > start {
        assert(found@[found@.len() - 1]@ == views(found@).last());
        Some(found[found.len() - 1].ticker.clone())
    } else {
        None
    };
    (found, next)
}

/// The characters of an optional text.
pub open spec fn text_view(t: Option<&str>) -> Option<Seq<char>> {
    match t {
        Some(s) => Some(s@),
        None => None,
    }
}

/// The characters of an optional text.
pub open spec fn owned_view(t: Option<String>) -> Option<Seq<char>> {
    match t {
        Some(s) => Some(s@),
        None => None,
    }
}

/// Between a prefix and a string that starts with it lie only strings that do.
proof fn lemma_prefix_between(prefix: Seq<char>, a: Seq<char>, b: Seq<char>)
    requires
        at_most(prefix, a),
        at_most(a, b),
        text::starts_with(b, prefix),
    ensures
        text::starts_with(a, prefix),
{
    let p = vstd::utf8::encode_utf8(prefix);
    let x = vstd::utf8::encode_utf8(a);
    let y = vstd::utf8::encode_utf8(b);
    if !p.is_prefix_of(x) {
        lemma_prefix_break(p, x, y, 0);
    }
}

proof fn lemma_prefix_break(p: Seq<u8>, x: Seq<u8>, y: Seq<u8>, k: int)
    requires
        0 <= k <= p.len(),
        k <= x.len(),
        p.is_prefix_of(y),
        !p.is_prefix_of(x),
        forall|i: int| 0 <= i < k ==> p[i] == x[i],
    ensures
        text::bytes_before(x, p) || text::bytes_before(y, x),
    decreases p.len() - k,
{
    assert(forall|i: int| 0 <= i < p.len() ==> p[i] == y[i]) by {
        assert(p =~= y.subrange(0, p.len() as int));
    }
    if k == p.len() {
        assert(p =~= x.subrange(0, p.len() as int));
    } else if k == x.len() || x[k] < p[k] {
        assert(text::falls_below_at(x, p, k));
    } else if x[k] > p[k] {
        assert(text::falls_below_at(y, x, k));
    } else {
        lemma_prefix_break(p, x, y, k + 1);
    }
}

/// What starts with a prefix does not come before it.
proof fn lemma_prefix_at_most(prefix: Seq<char>, a: Seq<char>)
    requires
        text::starts_with(a, prefix),
    ensures
        at_most(prefix, a),
{
    let p = vstd::utf8::encode_utf8(prefix);
    let x = vstd::utf8::encode_utf8(a);
    assert(forall|i: int| 0 <= i < p.len() ==> p[i] == x[i]) by {
        assert(p =~= x.subrange(0, p.len() as int));
    }
}

/// The entries whose ticker starts with `prefix`.
pub fn prefix_range<'a>(index: &'a Vec<IndexEntry>, prefix: &str) -> (r: &'a [IndexEntry])
    requires
        strictly_sorted(views(index@)),
    ensures
        views(r@) == with_prefix(views(index@), prefix@),
{
    let ghost all = views(index@);
    let start: usize = count_before(index, prefix);
    let mut low: usize = start;
    let mut high: usize = index.len();
    proof {
        lemma_strictly_sorted_is_sorted(all);
    }
    while low < high
        invariant
            all == views(index@),
            sorted(all),
            start <= low <= high <= index.len(),
            forall|i: int| start <= i < index.len() ==> at_most(prefix@, #[trigger] all[i].ticker),
            forall|i: int|
                start <= i < low ==> text::starts_with(#[trigger] all[i].ticker, prefix@),
            forall|i: int|
                high <= i < index.len() ==> !text::starts_with(#[trigger] all[i].ticker, prefix@),
        decreases high - low,
    {
        let middle: usize = low + (high - low) / 2;
        assert(all[middle as int] == index@[middle as int]@);
        if text::has_prefix(index[middle].ticker.as_str(), prefix) {
            proof {
                assert forall|i: int| start <= i <= middle implies text::starts_with(
                    #[trigger] all[i].ticker,
                    prefix@,
                ) by {
                    if i < middle {
                        assert(at_most(all[i].ticker, all[middle as int].ticker));
                        lemma_prefix_between(prefix@, all[i].ticker, all[middle as int].ticker);
                    }
                }
            }
            low = middle + 1;
        } else {
            proof {
                assert forall|i: int| middle <= i < index.len() implies !text::starts_with(
                    #[trigger] all[i].ticker,
                    prefix@,
                ) by {
                    if i > middle && text::starts_with(all[i].ticker, prefix@) {
                        assert(at_most(all[middle as int].ticker, all[i].ticker));
                        assert(at_most(prefix@, all[middle as int].ticker));
                        lemma_prefix_between(prefix@, all[middle as int].ticker, all[i].ticker);
                    }
                }
            }
            high = middle;
        }
    }
    let found = vstd::slice::slice_subrange(index.as_slice(), start, low);
    proof {
        assert forall|i: int| 0 <= i < start implies !text::starts_with(
            #[trigger] all[i].ticker,
            prefix@,
        ) by {
            if text::starts_with(all[i].ticker, prefix@) {
                lemma_prefix_at_most(prefix@, all[i].ticker);
            }
        }
        lemma_filter_stretch(
            all,
            |e: EntryView| text::starts_with(e.ticker, prefix@),
            start as int,
            low as int,
        );
        assert(views(found@) =~= all.subrange(start as int, low as int));
    }
    found
}

// ---------------------------------------------------------------------------
// Pagination
// ---------------------------------------------------------------------------

/// In a sorted index, the entries beyond a cursor are the rest of the list.
proof fn lemma_after_is_rest(index: Seq<EntryView>, after: Option<Seq<char>>) -> (start: int)
    requires
        strictly_sorted(index),
    ensures
        0 <= start <= index.len(),
        entries_after(index, after) == index.skip(start),
        forall|i: int| start <= i < index.len() ==> beyond(after, #[trigger] index[i].ticker),
{
    let start = lemma_first_beyond(index, after, 0);
    lemma_filter_stretch(
        index,
        |e: EntryView| beyond(after, e.ticker),
        start,
        index.len() as int,
    );
    assert(index.subrange(start, index.len() as int) =~= index.skip(start));
    start
}

pub proof fn lemma_first_beyond(index: Seq<EntryView>, after: Option<Seq<char>>, from: int) -> (start:
    int)
    requires
        strictly_sorted(index),
        0 <= from <= index.len(),
        forall|i: int| 0 <= i < from ==> !beyond(after, #[trigger] index[i].ticker),
    ensures
        from <= start <= index.len(),
        forall|i: int| 0 <= i < start ==> !beyond(after, #[trigger] index[i].ticker),
        forall|i: int| start <= i < index.len() ==> beyond(after, #[trigger] index[i].ticker),
    decreases index.len() - from,
{
    if from == index.len() {
        from
    } else if !beyond(after, index[from].ticker) {
        lemma_first_beyond(index, after, from + 1)
    } else {
        assert forall|i: int| from <= i < index.len() implies beyond(
            after,
            #[trigger] index[i].ticker,
        ) by {
            if i > from && after is Some {
                assert(text::before(index[from].ticker, index[i].ticker));
                text::lemma_before_transitive(after->0, index[from].ticker, index[i].ticker);
            }
        }
        from
    }
}

/// A page and what lies beyond the cursor it hands out are together what lay beyond
/// the cursor before it; a page that hands out no cursor is the last.
pub proof fn law_page_then_rest(index: Seq<EntryView>, after: Option<Seq<char>>, limit: nat)
    requires
        strictly_sorted(index),
        limit > 0,
    ensures
        match next_cursor(index, after, limit) {
            Some(cursor) => page(index, after, limit).len() == limit && entries_after(index, after)
                == page(index, after, limit) + entries_after(index, Some(cursor)),
            None => entries_after(index, after) == page(index, after, limit),
        },
{
    let start = lemma_after_is_rest(index, after);
    let rest = index.skip(start);
    if limit < rest.len() {
        let cursor = rest[limit - 1].ticker;
        assert(page(index, after, limit).last() == rest[limit - 1]);
        assert(cursor == index[start + limit - 1].ticker);
        let keep = |e: EntryView| beyond(Some(cursor), e.ticker);
        assert forall|i: int| 0 <= i < start + limit implies !keep(#[trigger] index[i]) by {
            text::lemma_before_irreflexive(cursor);
            if i < start + limit - 1 {
                assert(text::before(index[i].ticker, cursor));
                text::lemma_before_asymmetric(index[i].ticker, cursor);
            }
        }
        assert forall|i: int| start + limit <= i < index.len() implies keep(
            #[trigger] index[i],
        ) by {
            assert(text::before(cursor, index[i].ticker));
        }
        lemma_filter_stretch(index, keep, start + limit, index.len() as int);
        assert(rest.take(limit as int) + index.subrange(start + limit, index.len() as int)
            =~= rest);
    }
}

/// All pages from a cursor on, one behind the other, each fetched with the cursor
/// that the page before it handed out.
pub open spec fn all_pages(index: Seq<EntryView>, after: Option<Seq<char>>, limit: nat) -> Seq<
    EntryView,
>
    decreases entries_after(index, after).len(),
    when strictly_sorted(index) && limit > 0
{
    match next_cursor(index, after, limit) {
        Some(cursor) => {
            proof {
                law_page_then_rest(index, after, limit);
            }
            page(index, after, limit) + all_pages(index, Some(cursor), limit)
        },
        None => page(index, after, limit),
    }
}

/// Following the cursors from the start visits every entry exactly once, in order.
pub proof fn law_pagination_covers_everything_once(index: Seq<EntryView>, limit: nat)
    requires
        strictly_sorted(index),
        limit > 0,
    ensures
        all_pages(index, None, limit) == index,
{
    lemma_all_pages(index, None, limit);
    lemma_filter_all(index, |e: EntryView| beyond(None, e.ticker));
}

proof fn lemma_all_pages(index: Seq<EntryView>, after: Option<Seq<char>>, limit: nat)
    requires
        strictly_sorted(index),
        limit > 0,
    ensures
        all_pages(index, after, limit) == entries_after(index, after),
    decreases entries_after(index, after).len(),
{
    law_page_then_rest(index, after, limit);
    match next_cursor(index, after, limit) {
        Some(cursor) => {
            lemma_all_pages(index, Some(cursor), limit);
        },
        None => {},
    }
}

/// What a cursor taken from one index finds in the next: of the tickers that the
/// new index has, exactly those beyond the cursor. None that was paged past comes
/// again, and none that is still there is skipped.
pub proof fn law_cursor_survives_refresh(new: Seq<EntryView>, cursor: Seq<char>, ticker: Seq<char>)
    ensures
        has_ticker(entries_after(new, Some(cursor)), ticker) <==> has_ticker(new, ticker)
            && text::before(cursor, ticker),
{
    let keep = |e: EntryView| beyond(Some(cursor), e.ticker);
    let found = entries_after(new, Some(cursor));
    if has_ticker(found, ticker) {
        let i = choose|i: int| 0 <= i < found.len() && #[trigger] found[i].ticker == ticker;
        new.lemma_filter_pred(keep, i);
        lemma_filter_from(new, keep, i);
    }
    if has_ticker(new, ticker) && text::before(cursor, ticker) {
        let i = choose|i: int| 0 <= i < new.len() && #[trigger] new[i].ticker == ticker;
        new.lemma_filter_contains(keep, i);
        let k = choose|k: int| 0 <= k < found.len() && found[k] == new[i];
        assert(found[k].ticker == ticker);
    }
}

/// What a selection holds comes from the list.
proof fn lemma_filter_from(s: Seq<EntryView>, keep: spec_fn(EntryView) -> bool, i: int)
    requires
        0 <= i < s.filter(keep).len(),
    ensures
        has_ticker(s, s.filter(keep)[i].ticker),
    decreases s.len(),
{
    reveal(Seq::filter);
    let shorter = s.drop_last();
    if i < shorter.filter(keep).len() {
        lemma_filter_from(shorter, keep, i);
        let t = shorter.filter(keep)[i].ticker;
        let k = choose|k: int| 0 <= k < shorter.len() && #[trigger] shorter[k].ticker == t;
        assert(s[k].ticker == t);
    } else {
        assert(s[s.len() - 1].ticker == s.filter(keep)[i].ticker);
    }
}

/// The index of a log is settled by the log: there is only one.
pub proof fn law_index_is_unique(a: Seq<EntryView>, b: Seq<EntryView>, entries: Seq<EntryView>)
    requires
        indexes(a, entries),
        indexes(b, entries),
    ensures
        a == b,
{
    lemma_same_selections(a, b);
}

pub proof fn lemma_selection_of_index(a: Seq<EntryView>, i: int)
    requires
        strictly_sorted(a),
        0 <= i < a.len(),
    ensures
        of_ticker(a, a[i].ticker) == seq![a[i]],
{
    let t = a[i].ticker;
    let keep = |e: EntryView| e.ticker == t;
    assert forall|k: int| 0 <= k < a.len() && k != i implies !keep(#[trigger] a[k]) by {
        if k < i {
            assert(text::before(a[k].ticker, a[i].ticker));
            text::lemma_before_asymmetric(a[k].ticker, a[i].ticker);
        } else {
            assert(text::before(a[i].ticker, a[k].ticker));
            text::lemma_before_asymmetric(a[i].ticker, a[k].ticker);
        }
    }
    lemma_filter_stretch(a, keep, i, i + 1);
    assert(a.subrange(i, i + 1) =~= seq![a[i]]);
}

/// Sorted lists that select the same entries for every ticker are the same.
proof fn lemma_same_selections(a: Seq<EntryView>, b: Seq<EntryView>)
    requires
        strictly_sorted(a),
        strictly_sorted(b),
        forall|t: Seq<char>|
            #![trigger of_ticker(a, t)]
            of_ticker(a, t) == of_ticker(b, t),
    ensures
        a == b,
    decreases a.len(),
{
    if a.len() == 0 {
        if b.len() > 0 {
            lemma_selection_of_index(b, 0);
            assert(of_ticker(a, b[0].ticker) == of_ticker(b, b[0].ticker));
            lemma_absent_selects_nothing(a, b[0].ticker);
        }
        assert(a =~= b);
    } else {
        lemma_selection_of_index(a, a.len() - 1);
        let last = a.last();
        assert(of_ticker(a, last.ticker) == of_ticker(b, last.ticker));
        lemma_absent_selects_nothing(b, last.ticker);
        let k = choose|k: int| 0 <= k < b.len() && #[trigger] b[k].ticker == last.ticker;
        lemma_selection_of_index(b, k);
        assert(seq![b[k]][0] == seq![last][0]);
        if k < b.len() - 1 {
            // The last entry of `b` comes after everything in `a`, yet `a` has it.
            let top = b.last();
            lemma_selection_of_index(b, b.len() - 1);
            assert(of_ticker(a, top.ticker) == of_ticker(b, top.ticker));
            lemma_absent_selects_nothing(a, top.ticker);
            let m = choose|m: int| 0 <= m < a.len() && #[trigger] a[m].ticker == top.ticker;
            assert(text::before(b[k].ticker, b[b.len() - 1].ticker));
            if m < a.len() - 1 {
                assert(text::before(a[m].ticker, a[a.len() - 1].ticker));
                text::lemma_before_asymmetric(a[m].ticker, last.ticker);
            } else {
                text::lemma_before_irreflexive(last.ticker);
            }
        }
        let (x, y) = (a.drop_last(), b.drop_last());
        assert forall|i: int, j: int| 0 <= i < j < x.len() implies #[trigger] text::before(
            x[i].ticker,
            x[j].ticker,
        ) by {
            assert(text::before(a[i].ticker, a[j].ticker));
        }
        assert forall|i: int, j: int| 0 <= i < j < y.len() implies #[trigger] text::before(
            y[i].ticker,
            y[j].ticker,
        ) by {
            assert(text::before(b[i].ticker, b[j].ticker));
        }
        assert forall|t: Seq<char>| #![trigger of_ticker(x, t)] of_ticker(x, t) == of_ticker(
            y,
            t,
        ) by {
            let keep = |e: EntryView| e.ticker == t;
            assert(of_ticker(a, t) == of_ticker(b, t));
            assert(x.push(last) =~= a);
            assert(y.push(last) =~= b);
            lists::lemma_filter_push(x, last, keep);
            lists::lemma_filter_push(y, last, keep);
            if keep(last) {
                assert(of_ticker(x, t) =~= of_ticker(a, t).drop_last());
                assert(of_ticker(y, t) =~= of_ticker(b, t).drop_last());
            }
        }
        lemma_same_selections(x, y);
        assert(a =~= x.push(last));
        assert(b =~= y.push(last));
    }
}

} // verus!
