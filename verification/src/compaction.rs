//! The compacted log: a meta record, and one record per ticker.

use crate::database;
use crate::database::{Snapshot, DB_FORMAT_VERSION, LINE_FEED};
use crate::index;
use crate::index::{EntryView, IndexEntry};
use crate::json;
use crate::json::{Json, JsonView};
use crate::lists;
use crate::records;
use crate::records::{LogBuilder, Record, TooLong};
use crate::text;
use vstd::prelude::*;

verus! {

/// The meta record.
pub open spec fn meta_view(built_at_unix: u64) -> JsonView {
    JsonView::Object(
        json::no_fields().insert("__apdb_meta__"@, JsonView::Bool(true)).insert(
            "format_version"@,
            JsonView::Unsigned(DB_FORMAT_VERSION as u64),
        ).insert("built_at_unix"@, JsonView::Unsigned(built_at_unix)),
    )
}

/// The bytes of the meta record.
pub open spec fn meta_bytes(built_at_unix: u64) -> Seq<u8> {
    vstd::utf8::encode_utf8(json::json_text(meta_view(built_at_unix)))
}

/// The meta record can be read.
pub open spec fn meta_reads(built_at_unix: u64) -> bool {
    &&& database::fits_line(meta_bytes(built_at_unix))
    &&& json::json_parsed(meta_bytes(built_at_unix)) == Ok::<JsonView, Seq<char>>(
        meta_view(built_at_unix),
    )
}

/// The text of the meta record.
pub fn meta_line(built_at_unix: u64) -> (r: String)
    ensures
        vstd::utf8::encode_utf8(r@) == meta_bytes(built_at_unix),
        meta_reads(built_at_unix),
{
    let fields = json::with(json::fields(), "__apdb_meta__", Json::Bool(true));
    let fields = json::with(fields, "format_version", Json::Unsigned(DB_FORMAT_VERSION as u64));
    let fields = json::with(fields, "built_at_unix", Json::Unsigned(built_at_unix));
    let r = Json::Object(fields).render();
    proof {
        assert(json::plain_within(meta_view(built_at_unix), json::max_depth())) by {
            reveal_with_fuel(json::plain_within, 2);
        }
        text::lemma_one_line_bytes(r@);
        vstd::utf8::encode_utf8_valid_utf8(r@);
    }
    r
}

/// A compacted log: the meta record, and one record per ticker.
pub open spec fn compacted(built_at_unix: u64, records: Seq<Record>) -> Seq<u8> {
    meta_bytes(built_at_unix).push(LINE_FEED) + records::lines_of(records)
}

/// Where the records of a compacted log stand.
pub open spec fn compacted_entries(built_at_unix: u64, records: Seq<Record>) -> Seq<EntryView> {
    records::placed(records, meta_bytes(built_at_unix).len() as int + 1)
}

/// What reading a compacted log gives.
pub open spec fn compacted_scan(
    built_at_unix: u64,
    records: Seq<Record>,
) -> database::ScanView {
    database::ScanView {
        built_at_unix,
        format_version: DB_FORMAT_VERSION,
        entries: compacted_entries(built_at_unix, records),
        skipped: 0,
    }
}

/// Reading a compacted log gives its age, its version and exactly its records.
pub proof fn law_compacted_log_reads_back(
    built_at_unix: u64,
    records: Seq<Record>,
    modified_unix: u64,
)
    requires
        meta_reads(built_at_unix),
        records::well_named(records),
        compacted(built_at_unix, records).len() <= u64::MAX,
    ensures
        database::scan_log(compacted(built_at_unix, records), modified_unix) == compacted_scan(
            built_at_unix,
            records,
        ),
        database::ends_cleanly(compacted(built_at_unix, records)),
    decreases records.len(),
{
    let meta = meta_bytes(built_at_unix);
    let log = compacted(built_at_unix, records);
    if records.len() == 0 {
        assert(log =~= Seq::<u8>::empty() + meta.push(LINE_FEED));
        database::law_append_one_record(Seq::empty(), meta, modified_unix);
        reveal_strlit("__apdb_meta__");
        reveal_strlit("format_version");
        reveal_strlit("built_at_unix");
        assert("__apdb_meta__"@[0] == '_');
        assert("format_version"@[0] == 'f');
        assert("built_at_unix"@[0] == 'b');
        let v = meta_view(built_at_unix);
        assert(json::field(v, "__apdb_meta__"@) == Some(JsonView::Bool(true)));
        assert(json::field(v, "format_version"@) == Some(
            JsonView::Unsigned(DB_FORMAT_VERSION as u64),
        ));
        assert(json::field(v, "built_at_unix"@) == Some(JsonView::Unsigned(built_at_unix)));
        assert(database::is_meta(0, meta));
    } else {
        let rest = records.drop_last();
        let last = records.last();
        let before = compacted(built_at_unix, rest);
        assert forall|i: int| 0 <= i < rest.len() implies #[trigger] database::fits_line(
            rest[i].bytes,
        ) && database::record_ticker(rest[i].bytes) == Some(rest[i].ticker) by {
            assert(database::fits_line(records[i].bytes));
        }
        assert(log =~= before + last.bytes.push(LINE_FEED));
        law_compacted_log_reads_back(built_at_unix, rest, modified_unix);
        assert(database::fits_line(records[records.len() - 1].bytes));
        database::law_append_one_record(before, last.bytes, modified_unix);
    }
}

/// Reading this log gives this snapshot, with nothing left over.
pub open spec fn reloads(log: Seq<u8>, snapshot: Snapshot) -> bool {
    forall|modified_unix: u64|
        {
            let st = #[trigger] database::scan_log(log, modified_unix);
            snapshot.describes(st) && st.skipped == 0
        }
}

// ---------------------------------------------------------------------------
// Compacting
// ---------------------------------------------------------------------------

/// A compaction in progress: the records of `entries` are read from one log, in order,
/// and written to a new one, behind the meta record.
pub struct Compaction {
    entries: Vec<IndexEntry>,
    done: usize,
    builder: LogBuilder,
    built_at_unix: u64,
}

impl Compaction {
    /// What is to be read.
    pub closed spec fn entries(&self) -> Seq<EntryView> {
        index::views(self.entries@)
    }

    /// The records read so far.
    pub closed spec fn records(&self) -> Seq<Record> {
        self.builder@
    }

    pub closed spec fn built_at(&self) -> u64 {
        self.built_at_unix
    }

    /// One record per entry, so far.
    pub closed spec fn wf(&self) -> bool {
        &&& self.builder.wf()
        &&& self.builder.start() == meta_bytes(self.built_at_unix).len() + 1
        &&& self.builder@.len() == self.done
        &&& self.done <= self.entries@.len()
        &&& forall|i: int|
            0 <= i < self.done ==> (#[trigger] self.builder@[i]).ticker == self.entries@[i].ticker@
    }

    /// Starts, and gives the meta record, which is to be written first, with a line feed
    /// behind it.
    pub fn start(entries: Vec<IndexEntry>, built_at_unix: u64) -> (r: Result<
        (Compaction, String),
        TooLong,
    >)
        ensures
            match r {
                Ok((compaction, meta)) => {
                    &&& compaction.wf()
                    &&& compaction.entries() == index::views(entries@)
                    &&& compaction.records().len() == 0
                    &&& compaction.built_at() == built_at_unix
                    &&& vstd::utf8::encode_utf8(meta@) == meta_bytes(built_at_unix)
                    &&& meta_reads(built_at_unix)
                },
                Err(_) => meta_bytes(built_at_unix).len() + 1 > u64::MAX,
            },
    {
        let meta = meta_line(built_at_unix);
        let size: u64 = meta.as_str().as_bytes().len() as u64;
        if size == u64::MAX {
            return Err(TooLong);
        }
        let builder = LogBuilder::starting_at(size + 1);
        Ok((Compaction { entries, done: 0, builder, built_at_unix }, meta))
    }

    /// The record to read next.
    pub fn next_entry(&self) -> (r: Option<&IndexEntry>)
        requires
            self.wf(),
        ensures
            match r {
                Some(entry) => {
                    &&& self.records().len() < self.entries().len()
                    &&& entry@ == self.entries()[self.records().len() as int]
                },
                None => self.records().len() == self.entries().len(),
            },
    {
        if self.done < self.entries.len() {
            Some(&self.entries[self.done])
        } else {
            None
        }
    }

    /// Takes the record that `next_entry` asked for, which is to be written next, with a
    /// line feed behind it.
    pub fn take(&mut self, raw: &[u8]) -> (r: Result<(), TooLong>)
        requires
            old(self).wf(),
            old(self).records().len() < old(self).entries().len(),
        ensures
            final(self).wf(),
            final(self).entries() == old(self).entries(),
            final(self).built_at() == old(self).built_at(),
            ({
                let more = old(self).records().push(
                    Record {
                        ticker: old(self).entries()[old(self).records().len() as int].ticker,
                        bytes: raw@,
                    },
                );
                let at = meta_bytes(old(self).built_at()).len() as int + 1;
                match r {
                    Ok(_) => records::placeable(more, at) && final(self).records() == more,
                    Err(_) => {
                        &&& !records::placeable(more, at)
                        &&& final(self).records() == old(self).records()
                    },
                }
            }),
    {
        let ghost before = self.builder@;
        assert(self.done < self.entries.len());
        let next: usize = self.done + 1;
        match self.builder.note(self.entries[self.done].ticker.as_str(), raw) {
            Ok(_) => {
                self.done = next;
                assert forall|i: int| 0 <= i < self.done implies (
                #[trigger] self.builder@[i]).ticker == self.entries@[i].ticker@ by {
                    if i < before.len() {
                        assert(self.builder@[i] == before[i]);
                    }
                }
                Ok(())
            },
            Err(e) => Err(e),
        }
    }

    /// The snapshot of the new log, once all records are written.
    pub fn finish(self) -> (snapshot: Snapshot)
        requires
            self.wf(),
            self.records().len() == self.entries().len(),
            index::strictly_sorted(self.entries()),
        ensures
            snapshot.entries() == compacted_entries(self.built_at(), self.records()),
            snapshot.built_at_unix == self.built_at(),
            snapshot.format_version == DB_FORMAT_VERSION,
            snapshot.wf(),
    {
        let ghost all = self.entries();
        let ghost noted = self.builder@;
        let ghost tickers = self.entries@;
        let ghost at = self.builder.start();
        let snapshot = Snapshot::new(
            self.builder.into_entries(),
            self.built_at_unix,
            DB_FORMAT_VERSION,
        );
        proof {
            records::lemma_placed(noted, at);
            let found = snapshot.entries();
            assert forall|a: int, b: int| 0 <= a < b < found.len() implies #[trigger] text::before(
                found[a].ticker,
                found[b].ticker,
            ) by {
                assert(text::before(all[a].ticker, all[b].ticker));
                assert(found[a].ticker == noted[a].ticker);
                assert(found[b].ticker == noted[b].ticker);
            }
        }
        snapshot
    }
}

/// Why a log could not be compacted.
#[derive(Debug, Clone, Copy, PartialEq, Eq, Structural)]
pub enum CompactError {
    /// The new log is longer than an index entry can say.
    TooLong,
    /// The log is shorter than its index says.
    ShortRead,
}

/// A compacted log can be read as what it was compacted from.
proof fn lemma_compacted(
    log: Seq<u8>,
    entries: Seq<EntryView>,
    built_at_unix: u64,
    snapshot: Snapshot,
)
    requires
        meta_reads(built_at_unix),
        records::placeable(
            records::records_at(log, entries),
            meta_bytes(built_at_unix).len() as int + 1,
        ),
        snapshot.entries() == compacted_entries(
            built_at_unix,
            records::records_at(log, entries),
        ),
        snapshot.built_at_unix == built_at_unix,
        snapshot.format_version == DB_FORMAT_VERSION,
        snapshot.wf(),
    ensures
        ({
            let noted = records::records_at(log, entries);
            let file = compacted(built_at_unix, noted);
            &&& records::contents(snapshot.entries(), file) == records::contents(entries, log)
            &&& records::records_at(file, snapshot.entries()) == noted
            &&& records::readable(file, snapshot.entries())
            &&& records::well_named(noted) ==> reloads(file, snapshot)
        }),
{
    let noted = records::records_at(log, entries);
    let head = meta_bytes(built_at_unix).push(LINE_FEED);
    let at = head.len() as int;
    let file = compacted(built_at_unix, noted);
    assert(head + records::lines_of(noted) + Seq::<u8>::empty() =~= file);
    records::lemma_contents_placed(head, noted, Seq::empty());
    records::lemma_records_at(log, entries);
    records::lemma_placed(noted, at);
    records::lemma_placed_readable(head, noted, Seq::empty());
    let found = snapshot.entries();
    assert forall|k: int| 0 <= k < noted.len() implies #[trigger] records::records_at(
        file,
        found,
    )[k] == noted[k] by {
        records::lemma_placed_is_found(head, noted, Seq::empty(), k);
    }
    assert(records::records_at(file, found) =~= noted);
    if records::well_named(noted) {
        records::lemma_own_index(found);
        assert forall|modified_unix: u64|
            {
                let st = #[trigger] database::scan_log(file, modified_unix);
                snapshot.describes(st) && st.skipped == 0
            } by {
            law_compacted_log_reads_back(built_at_unix, noted, modified_unix);
        }
    }
}

/// Compacts the records of `entries`, out of `log`, into a new log with a meta record,
/// in the order of the entries, and gives the new log with its snapshot.
pub fn compact(log: &[u8], entries: Vec<IndexEntry>, built_at_unix: u64) -> (r: Result<
    (Vec<u8>, Snapshot),
    CompactError,
>)
    requires
        index::strictly_sorted(index::views(entries@)),
    ensures
        ({
            let noted = records::records_at(log@, index::views(entries@));
            let at = meta_bytes(built_at_unix).len() as int + 1;
            match r {
                Ok((file, snapshot)) => {
                    &&& records::readable(log@, index::views(entries@))
                    &&& records::placeable(noted, at)
                    &&& file@ == compacted(built_at_unix, noted)
                    &&& snapshot.entries() == compacted_entries(built_at_unix, noted)
                    &&& snapshot.built_at_unix == built_at_unix
                    &&& snapshot.format_version == DB_FORMAT_VERSION
                    &&& snapshot.wf()
                    &&& records::contents(snapshot.entries(), file@) == records::contents(
                        index::views(entries@),
                        log@,
                    )
                    &&& records::records_at(file@, snapshot.entries()) == noted
                    &&& records::readable(file@, snapshot.entries())
                    &&& records::well_named(noted) ==> reloads(file@, snapshot)
                },
                Err(CompactError::ShortRead) => !records::readable(
                    log@,
                    index::views(entries@),
                ),
                Err(CompactError::TooLong) => !records::placeable(noted, at),
            }
        }),
{
    if !records::all_readable(log, &entries) {
        return Err(CompactError::ShortRead);
    }
    let ghost all = index::views(entries@);
    let ghost noted = records::records_at(log@, all);
    let ghost head = meta_bytes(built_at_unix).push(LINE_FEED);
    let (mut compaction, meta) = match Compaction::start(entries, built_at_unix) {
        Ok(started) => started,
        Err(_) => {
            return Err(CompactError::TooLong);
        },
    };
    let mut file: Vec<u8> = Vec::new();
    lists::append_bytes(&mut file, meta.as_str().as_bytes());
    file.push(LINE_FEED);
    assert(file@ =~= head);
    assert(file.len() == head.len());
    assert(noted.take(0) =~= Seq::empty());
    assert(compaction.records() =~= Seq::empty());
    assert(head + Seq::<u8>::empty() =~= head);
    while compaction.next_entry().is_some()
        invariant
            compaction.wf(),
            all == index::views(entries@),
            compaction.entries() == all,
            compaction.built_at() == built_at_unix,
            compaction.records().len() <= all.len(),
            noted == records::records_at(log@, all),
            records::readable(log@, all),
            head.len() == meta_bytes(built_at_unix).len() + 1,
            compaction.records() == noted.take(compaction.records().len() as int),
            records::placeable(compaction.records(), head.len() as int),
            file@ == head + records::lines_of(compaction.records()),
        ensures
            compaction.records().len() == all.len(),
        decreases all.len() - compaction.records().len(),
    {
        let ghost i = compaction.records().len() as int;
        let raw = match compaction.next_entry() {
            Some(entry) => {
                assert(database::raw_record(log@, all[i]) is Some);
                match database::read_raw(log, entry) {
                    Some(raw) => raw,
                    None => {
                        return Err(CompactError::ShortRead);
                    },
                }
            },
            None => {
                return Err(CompactError::ShortRead);
            },
        };
        assert(noted[i] == (Record { ticker: all[i].ticker, bytes: raw@ }));
        assert(noted.take(i + 1) =~= noted.take(i).push(noted[i]));
        if compaction.take(raw).is_err() {
            proof {
                if records::placeable(noted, head.len() as int) {
                    records::lemma_placeable_prefix(noted, i + 1, head.len() as int);
                }
            }
            return Err(CompactError::TooLong);
        }
        let ghost written = file@;
        lists::append_bytes(&mut file, raw);
        file.push(LINE_FEED);
        proof {
            records::lemma_place_push(noted.take(i), noted[i], head.len() as int);
            assert(file@ =~= written + raw@.push(LINE_FEED));
            assert(file@ =~= head + records::lines_of(noted.take(i + 1)));
        }
    }
    assert(noted.take(all.len() as int) =~= noted);
    let snapshot = compaction.finish();
    proof {
        lemma_compacted(log@, all, built_at_unix, snapshot);
    }
    Ok((file, snapshot))
}

} // verus!
