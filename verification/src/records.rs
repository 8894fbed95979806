//! Logs as sequences of records: where each record stands, and what a log holds under
//! each ticker.

use crate::database;
use crate::database::LINE_FEED;
use crate::index;
use crate::index::{EntryView, IndexEntry};
use crate::lists;
use vstd::prelude::*;

verus! {

/// One record of a log.
pub struct Record {
    pub ticker: Seq<char>,
    pub bytes: Seq<u8>,
}

/// The records on lines of their own.
pub open spec fn lines_of(records: Seq<Record>) -> Seq<u8>
    decreases records.len(),
{
    if records.len() == 0 {
        Seq::empty()
    } else {
        lines_of(records.drop_last()) + records.last().bytes.push(LINE_FEED)
    }
}

/// Where the records stand in a log that holds them from byte `at` on.
pub open spec fn placed(records: Seq<Record>, at: int) -> Seq<EntryView>
    decreases records.len(),
{
    if records.len() == 0 {
        Seq::empty()
    } else {
        placed(records.drop_last(), at).push(
            EntryView {
                ticker: records.last().ticker,
                offset: (at + lines_of(records.drop_last()).len()) as u64,
                len: records.last().bytes.len() as u32,
            },
        )
    }
}

/// Entries can say where these records stand.
pub open spec fn placeable(records: Seq<Record>, at: int) -> bool {
    &&& at + lines_of(records).len() <= u64::MAX
    &&& forall|i: int| 0 <= i < records.len() ==> #[trigger] records[i].bytes.len() <= u32::MAX
}

/// What a log holds under each ticker: the bytes of its last record.
pub open spec fn contents(entries: Seq<EntryView>, log: Seq<u8>) -> Map<Seq<char>, Seq<u8>> {
    Map::new(
        |t: Seq<char>| index::lookup(entries, t) is Some,
        |t: Seq<char>| database::raw_record(log, index::lookup(entries, t)->0)->0,
    )
}

/// The records by ticker: of a repeated ticker, the last counts.
pub open spec fn by_ticker(records: Seq<Record>) -> Map<Seq<char>, Seq<u8>>
    decreases records.len(),
{
    if records.len() == 0 {
        Map::empty()
    } else {
        by_ticker(records.drop_last()).insert(records.last().ticker, records.last().bytes)
    }
}

/// The record that an entry stands for.
pub open spec fn record_at(log: Seq<u8>, entry: EntryView) -> Record {
    Record { ticker: entry.ticker, bytes: database::raw_record(log, entry)->0 }
}

/// The records that entries stand for.
pub open spec fn records_at(log: Seq<u8>, entries: Seq<EntryView>) -> Seq<Record> {
    entries.map_values(|e: EntryView| record_at(log, e))
}

/// All these entries can be read.
pub open spec fn readable(log: Seq<u8>, entries: Seq<EntryView>) -> bool {
    forall|i: int|
        0 <= i < entries.len() ==> database::raw_record(log, #[trigger] entries[i]) is Some
}

pub proof fn lemma_placed(records: Seq<Record>, at: int)
    ensures
        placed(records, at).len() == records.len(),
        forall|i: int|
            0 <= i < records.len() ==> (#[trigger] placed(records, at)[i]).ticker
                == records[i].ticker,
    decreases records.len(),
{
    if records.len() > 0 {
        lemma_placed(records.drop_last(), at);
    }
}

/// A placed record is found where it was placed, whatever follows it.
pub proof fn lemma_placed_is_found(
    before: Seq<u8>,
    records: Seq<Record>,
    after: Seq<u8>,
    i: int,
)
    requires
        placeable(records, before.len() as int),
        0 <= i < records.len(),
    ensures
        database::raw_record(
            before + lines_of(records) + after,
            placed(records, before.len() as int)[i],
        ) == Some(records[i].bytes),
    decreases records.len(),
{
    let rest = records.drop_last();
    let last = records.last();
    let at = before.len() as int;
    lemma_placed(rest, at);
    assert(records[records.len() - 1].bytes.len() <= u32::MAX);
    let whole = before + lines_of(records) + after;
    if i == records.len() - 1 {
        let start = at + lines_of(rest).len();
        assert(whole.subrange(start, start + last.bytes.len()) =~= last.bytes);
    } else {
        assert forall|k: int| 0 <= k < rest.len() implies #[trigger] rest[k].bytes.len()
            <= u32::MAX by {
            assert(records[k].bytes.len() <= u32::MAX);
        }
        let after_rest = last.bytes.push(LINE_FEED) + after;
        lemma_placed_is_found(before, rest, after_rest, i);
        assert(before + lines_of(rest) + after_rest =~= whole);
    }
}

/// Pushing an entry makes it the last of its ticker, and no other.
pub proof fn lemma_lookup_push(entries: Seq<EntryView>, e: EntryView, ticker: Seq<char>)
    ensures
        index::lookup(entries.push(e), ticker) == if e.ticker == ticker {
            Some(e)
        } else {
            index::lookup(entries, ticker)
        },
{
    lists::lemma_filter_push(entries, e, |x: EntryView| x.ticker == ticker);
}

/// A log holds the records that were placed in it.
pub proof fn lemma_contents_placed(before: Seq<u8>, records: Seq<Record>, after: Seq<u8>)
    requires
        placeable(records, before.len() as int),
    ensures
        contents(placed(records, before.len() as int), before + lines_of(records) + after)
            == by_ticker(records),
    decreases records.len(),
{
    let at = before.len() as int;
    let whole = before + lines_of(records) + after;
    if records.len() == 0 {
        assert forall|t: Seq<char>| index::lookup(placed(records, at), t) is None by {
            index::lemma_absent_selects_nothing(placed(records, at), t);
        }
        assert(contents(placed(records, at), whole) =~= by_ticker(records));
    } else {
        let rest = records.drop_last();
        let last = records.last();
        assert forall|k: int| 0 <= k < rest.len() implies #[trigger] rest[k].bytes.len()
            <= u32::MAX by {
            assert(records[k].bytes.len() <= u32::MAX);
        }
        let after_rest = last.bytes.push(LINE_FEED) + after;
        lemma_contents_placed(before, rest, after_rest);
        assert(before + lines_of(rest) + after_rest =~= whole);
        lemma_placed_is_found(before, records, after, records.len() - 1);
        let e = placed(records, at).last();
        assert(placed(records, at) =~= placed(rest, at).push(e));
        lemma_placed(rest, at);
        assert forall|t: Seq<char>| #[trigger]
            index::lookup(placed(records, at), t) == if e.ticker == t {
                Some(e)
            } else {
                index::lookup(placed(rest, at), t)
            } by {
            lemma_lookup_push(placed(rest, at), e, t);
        }
        assert(contents(placed(records, at), whole) =~= by_ticker(records));
    }
}

/// The records that entries stand for are what the log holds.
pub proof fn lemma_records_at(log: Seq<u8>, entries: Seq<EntryView>)
    ensures
        by_ticker(records_at(log, entries)) == contents(entries, log),
    decreases entries.len(),
{
    if entries.len() == 0 {
        assert forall|t: Seq<char>| index::lookup(entries, t) is None by {
            index::lemma_absent_selects_nothing(entries, t);
        }
        assert(contents(entries, log) =~= by_ticker(records_at(log, entries)));
    } else {
        let rest = entries.drop_last();
        let e = entries.last();
        lemma_records_at(log, rest);
        assert(records_at(log, entries).drop_last() =~= records_at(log, rest));
        assert(rest.push(e) =~= entries);
        assert forall|t: Seq<char>| #[trigger]
            index::lookup(entries, t) == if e.ticker == t {
                Some(e)
            } else {
                index::lookup(rest, t)
            } by {
            lemma_lookup_push(rest, e, t);
        }
        assert(by_ticker(records_at(log, entries)) =~= contents(entries, log));
    }
}

/// An index holds what the records that it indexes hold.
pub proof fn lemma_index_contents(index: Seq<EntryView>, entries: Seq<EntryView>, log: Seq<u8>)
    requires
        index::indexes(index, entries),
    ensures
        contents(index, log) == contents(entries, log),
        forall|t: Seq<char>| #[trigger] index::lookup(index, t) == index::lookup(entries, t),
{
    assert forall|t: Seq<char>| #[trigger] index::lookup(index, t) == index::lookup(entries, t) by {
        assert(index::of_ticker(index, t) == index::last_alone(index::of_ticker(entries, t)));
    }
    assert(contents(index, log) =~= contents(entries, log));
}

/// Each record can stand on a line, and names its ticker.
pub open spec fn well_named(records: Seq<Record>) -> bool {
    forall|i: int|
        0 <= i < records.len() ==> #[trigger] database::fits_line(records[i].bytes)
            && database::record_ticker(records[i].bytes) == Some(records[i].ticker)
}

/// Pushing a record places it behind the others.
pub proof fn lemma_place_push(records: Seq<Record>, r: Record, at: int)
    ensures
        lines_of(records.push(r)) == lines_of(records) + r.bytes.push(LINE_FEED),
        placed(records.push(r), at) == placed(records, at).push(
            EntryView {
                ticker: r.ticker,
                offset: (at + lines_of(records).len()) as u64,
                len: r.bytes.len() as u32,
            },
        ),
        at + lines_of(records).len() + r.bytes.len() + 1 <= u64::MAX && r.bytes.len() <= u32::MAX
            && placeable(records, at) ==> placeable(records.push(r), at),
        placeable(records.push(r), at) ==> placeable(records, at) && r.bytes.len() <= u32::MAX
            && at + lines_of(records).len() + r.bytes.len() + 1 <= u64::MAX,
{
    assert(records.push(r).drop_last() =~= records);
    let more = records.push(r);
    if placeable(records, at) && r.bytes.len() <= u32::MAX {
        assert forall|i: int| 0 <= i < more.len() implies #[trigger] more[i].bytes.len()
            <= u32::MAX by {
            if i < records.len() {
                assert(records[i].bytes.len() <= u32::MAX);
            }
        }
    }
    if placeable(more, at) {
        assert(more[records.len() as int].bytes.len() <= u32::MAX);
        assert forall|i: int| 0 <= i < records.len() implies #[trigger] records[i].bytes.len()
            <= u32::MAX by {
            assert(more[i].bytes.len() <= u32::MAX);
        }
    }
}

/// More records are no easier to place.
pub proof fn lemma_placeable_prefix(records: Seq<Record>, n: int, at: int)
    requires
        0 <= n <= records.len(),
        placeable(records, at),
    ensures
        placeable(records.take(n), at),
    decreases records.len(),
{
    if n == records.len() {
        assert(records.take(n) =~= records);
    } else {
        let rest = records.drop_last();
        lemma_place_push(rest, records.last(), at);
        assert(rest.push(records.last()) =~= records);
        lemma_placeable_prefix(rest, n, at);
        assert(rest.take(n) =~= records.take(n));
    }
}

/// The lines of two lists of records in a row.
pub proof fn lemma_lines_concat(a: Seq<Record>, b: Seq<Record>)
    ensures
        lines_of(a + b) == lines_of(a) + lines_of(b),
    decreases b.len(),
{
    if b.len() == 0 {
        assert(a + b =~= a);
        assert(lines_of(a) + lines_of(b) =~= lines_of(a));
    } else {
        lemma_lines_concat(a, b.drop_last());
        assert((a + b).drop_last() =~= a + b.drop_last());
        assert(lines_of(a + b) =~= lines_of(a) + lines_of(b));
    }
}

/// A sorted list of entries is its own index.
pub proof fn lemma_own_index(entries: Seq<EntryView>)
    requires
        index::strictly_sorted(entries),
    ensures
        index::indexes(entries, entries),
{
    assert forall|t: Seq<char>|
        #![trigger index::of_ticker(entries, t)]
        index::of_ticker(entries, t) == index::last_alone(index::of_ticker(entries, t)) by {
        index::lemma_absent_selects_nothing(entries, t);
        if index::has_ticker(entries, t) {
            let i = choose|i: int| 0 <= i < entries.len() && #[trigger] entries[i].ticker == t;
            index::lemma_selection_of_index(entries, i);
            assert(index::last_alone(seq![entries[i]]) =~= seq![entries[i]]);
        } else {
            assert(index::of_ticker(entries, t) =~= Seq::empty());
        }
    }
}

/// Two lists in a row are looked up from the back.
pub proof fn lemma_lookup_concat(a: Seq<EntryView>, b: Seq<EntryView>, ticker: Seq<char>)
    ensures
        index::lookup(a + b, ticker) == match index::lookup(b, ticker) {
            Some(e) => Some(e),
            None => index::lookup(a, ticker),
        },
{
    Seq::filter_distributes_over_add(a, b, |e: EntryView| e.ticker == ticker);
    let (x, y) = (index::of_ticker(a, ticker), index::of_ticker(b, ticker));
    if y.len() == 0 {
        assert(x + y =~= x);
    } else {
        assert((x + y).last() == y.last());
    }
}

/// An index can be read where the records that it indexes can.
pub proof fn lemma_index_readable(log: Seq<u8>, index: Seq<EntryView>, entries: Seq<EntryView>)
    requires
        index::indexes(index, entries),
        readable(log, entries),
    ensures
        readable(log, index),
{
    assert forall|i: int| 0 <= i < index.len() implies database::raw_record(
        log,
        #[trigger] index[i],
    ) is Some by {
        let t = index[i].ticker;
        index::lemma_selection_of_index(index, i);
        let found = index::of_ticker(entries, t);
        assert(index::of_ticker(index, t) == index::last_alone(found));
        assert(seq![index[i]].len() == 1);
        assert(seq![found.last()][0] == seq![index[i]][0]);
        assert(found.contains(found.last()));
        entries.lemma_filter_contains_rev(|e: EntryView| e.ticker == t, found.last());
        let k = choose|k: int| 0 <= k < entries.len() && entries[k] == found.last();
        assert(database::raw_record(log, entries[k]) is Some);
    }
}

/// Placed records can be read.
pub proof fn lemma_placed_readable(before: Seq<u8>, records: Seq<Record>, after: Seq<u8>)
    requires
        placeable(records, before.len() as int),
    ensures
        readable(before + lines_of(records) + after, placed(records, before.len() as int)),
{
    let at = before.len() as int;
    lemma_placed(records, at);
    assert forall|i: int| 0 <= i < placed(records, at).len() implies database::raw_record(
        before + lines_of(records) + after,
        #[trigger] placed(records, at)[i],
    ) is Some by {
        lemma_placed_is_found(before, records, after, i);
    }
}

/// A record that counts is one of the records.
pub proof fn lemma_by_ticker_from(records: Seq<Record>, ticker: Seq<char>)
    requires
        by_ticker(records).dom().contains(ticker),
    ensures
        exists|k: int|
            0 <= k < records.len() && #[trigger] records[k].ticker == ticker && records[k].bytes
                == by_ticker(records)[ticker],
    decreases records.len(),
{
    let rest = records.drop_last();
    if records.len() > 0 {
        if records.last().ticker == ticker {
            assert(records[records.len() - 1].ticker == ticker);
        } else {
            lemma_by_ticker_from(rest, ticker);
            let k = choose|k: int|
                0 <= k < rest.len() && #[trigger] rest[k].ticker == ticker && rest[k].bytes
                    == by_ticker(rest)[ticker];
            assert(records[k].ticker == ticker);
        }
    }
}

/// Whether all these entries can be read.
pub fn all_readable(log: &[u8], entries: &Vec<IndexEntry>) -> (yes: bool)
    ensures
        yes == readable(log@, index::views(entries@)),
{
    let mut i: usize = 0;
    while i < entries.len()
        invariant
            i <= entries@.len(),
            forall|k: int|
                0 <= k < i ==> database::raw_record(
                    log@,
                    #[trigger] index::views(entries@)[k],
                ) is Some,
        decreases entries@.len() - i,
    {
        assert(index::views(entries@)[i as int] == entries@[i as int]@);
        if database::read_raw(log, &entries[i]).is_none() {
            return false;
        }
        i = i + 1;
    }
    true
}

// ---------------------------------------------------------------------------
// Building a log
// ---------------------------------------------------------------------------

/// A record or a log is longer than an index entry can say.
#[derive(Debug, Clone, Copy, PartialEq, Eq, Structural)]
pub struct TooLong;

/// Keeps track of the records that are written to a log, and of where they stand.
pub struct LogBuilder {
    entries: Vec<IndexEntry>,
    offset: u64,
    start: Ghost<int>,
    records: Ghost<Seq<Record>>,
}

impl LogBuilder {
    /// The records noted so far.
    pub closed spec fn view(&self) -> Seq<Record> {
        self.records@
    }

    /// Where the first record stands.
    pub closed spec fn start(&self) -> int {
        self.start@
    }

    /// How long the log is, once the records are written.
    pub open spec fn position(&self) -> int {
        self.start() + lines_of(self@).len()
    }

    /// The entries say where the records stand.
    pub closed spec fn wf(&self) -> bool {
        &&& placeable(self.records@, self.start@)
        &&& index::views(self.entries@) == placed(self.records@, self.start@)
        &&& self.offset == self.start@ + lines_of(self.records@).len()
    }

    /// Starts behind the first `offset` bytes of a log.
    pub fn starting_at(offset: u64) -> (r: LogBuilder)
        ensures
            r.wf(),
            r@ == Seq::<Record>::empty(),
            r.start() == offset,
    {
        let r = LogBuilder {
            entries: Vec::new(),
            offset,
            start: Ghost(offset as int),
            records: Ghost(Seq::empty()),
        };
        assert(index::views(r.entries@) =~= placed(r.records@, r.start@));
        r
    }

    /// How long the log is, once the records are written.
    pub fn offset(&self) -> (r: u64)
        requires
            self.wf(),
        ensures
            r == self.position(),
    {
        self.offset
    }

    /// How many records have been noted.
    pub fn len(&self) -> (n: usize)
        requires
            self.wf(),
        ensures
            n == self@.len(),
    {
        proof {
            lemma_placed(self.records@, self.start@);
            assert(index::views(self.entries@).len() == self.entries@.len());
        }
        self.entries.len()
    }

    /// Notes a record that is written next, with a line feed behind it.
    pub fn note(&mut self, ticker: &str, raw: &[u8]) -> (r: Result<(), TooLong>)
        requires
            old(self).wf(),
        ensures
            final(self).wf(),
            final(self).start() == old(self).start(),
            ({
                let more = old(self)@.push(Record { ticker: ticker@, bytes: raw@ });
                match r {
                    Ok(_) => placeable(more, old(self).start()) && final(self)@ == more,
                    Err(_) => !placeable(more, old(self).start()) && final(self)@ == old(self)@,
                }
            }),
    {
        let size: u64 = raw.len() as u64;
        let ghost record = Record { ticker: ticker@, bytes: raw@ };
        proof {
            lemma_place_push(self.records@, record, self.start@);
        }
        if size > u32::MAX as u64 || self.offset > u64::MAX - size - 1 {
            return Err(TooLong);
        }
        let ghost before = index::views(self.entries@);
        let entry = IndexEntry {
            ticker: ticker.to_owned(),
            offset: self.offset,
            len: size as u32,
        };
        let ghost added = entry@;
        self.entries.push(entry);
        self.offset = self.offset + size + 1;
        proof {
            assert(index::views(self.entries@) =~= before.push(added));
            self.records@ = self.records@.push(record);
        }
        Ok(())
    }

    /// What has been noted can be placed.
    pub proof fn lemma_wf(&self)
        requires
            self.wf(),
        ensures
            placeable(self@, self.start()),
    {
    }

    /// Where the records stand.
    pub fn into_entries(self) -> (r: Vec<IndexEntry>)
        requires
            self.wf(),
        ensures
            index::views(r@) == placed(self@, self.start()),
    {
        self.entries
    }
}

} // verus!
