//! The on-disk log and its point-in-time snapshots.
//!
//! The log is a sequence of lines, one JSON record each. The first line may be a
//! meta record; every other record belongs to the ticker it names. A snapshot is
//! the sorted index of a log.

use crate::index;
use crate::index::{EntryView, IndexEntry};
use crate::json;
use crate::json::{Json, JsonView};
use crate::text;
use vstd::prelude::*;

verus! {

/// The format version that `meta_line` writes. `0` denotes a log without a meta
/// record.
pub const DB_FORMAT_VERSION: u32 = 1;

/// The byte that ends a line of the log.
pub const LINE_FEED: u8 = 10;

/// What has been read from a log so far.
pub struct ScanView {
    pub built_at_unix: u64,
    pub format_version: u32,
    pub entries: Seq<EntryView>,
    pub skipped: u64,
}

/// Before anything is read: an age from outside the log, and the version of a log
/// without a meta record.
pub open spec fn unread(modified_unix: u64) -> ScanView {
    ScanView {
        built_at_unix: modified_unix,
        format_version: 0,
        entries: Seq::empty(),
        skipped: 0,
    }
}

/// One more record could not be used.
pub open spec fn skipping(st: ScanView) -> ScanView {
    ScanView {
        skipped: if st.skipped < u64::MAX {
            (st.skipped + 1) as u64
        } else {
            st.skipped
        },
        ..st
    }
}

/// The line is a meta record. Only the first line of a log can be one.
pub open spec fn is_meta(offset: u64, line: Seq<u8>) -> bool {
    offset == 0 && (json::json_parsed(line) matches Ok(v) && json::field(v, "__apdb_meta__"@)
        == Some(JsonView::Bool(true)))
}

/// The ticker that a record names, without white space around it.
pub open spec fn record_ticker(line: Seq<u8>) -> Option<Seq<char>> {
    match json::json_parsed(line) {
        Ok(v) => match json::text_of(json::field(v, "ticker"@)) {
            Some(s) => if text::trimmed(s).len() > 0 {
                Some(text::trimmed(s))
            } else {
                None
            },
            None => None,
        },
        Err(_) => None,
    }
}

/// Reading one line, which starts at byte `offset`: a meta record sets the age and
/// the version, a record with a ticker becomes an entry, anything else is skipped,
/// bytes that are no UTF-8 among it.
pub open spec fn read_line(st: ScanView, offset: u64, line: Seq<u8>) -> ScanView {
    if !vstd::utf8::valid_utf8(line) {
        skipping(st)
    } else if is_meta(offset, line) {
        let meta = json::json_parsed(line)->Ok_0;
        ScanView {
            built_at_unix: match json::unsigned_of(json::field(meta, "built_at_unix"@)) {
                Some(at) => at,
                None => st.built_at_unix,
            },
            format_version: match json::unsigned_of(json::field(meta, "format_version"@)) {
                Some(version) => version as u32,
                None => 1,
            },
            ..st
        }
    } else {
        match record_ticker(line) {
            Some(ticker) => ScanView {
                entries: st.entries.push(
                    EntryView { ticker, offset, len: line.len() as u32 },
                ),
                ..st
            },
            None => skipping(st),
        }
    }
}

/// Where the line that starts at `from` ends: at its line feed, or at the end of
/// the log.
pub open spec fn line_end(log: Seq<u8>, from: int) -> int
    decreases log.len() - from,
{
    if from < 0 || from >= log.len() {
        log.len() as int
    } else if log[from] == LINE_FEED {
        from
    } else {
        line_end(log, from + 1)
    }
}

/// Reading the log from the line that starts at `from`. A last line without a line
/// feed is torn and skipped, whatever it holds.
pub open spec fn scan(log: Seq<u8>, from: int, st: ScanView) -> ScanView
    decreases log.len() - from,
{
    if from < 0 || from >= log.len() {
        st
    } else {
        let end = line_end(log, from);
        if end >= log.len() {
            skipping(st)
        } else if end < from {
            st
        } else {
            scan(log, end + 1, read_line(st, from as u64, log.subrange(from, end)))
        }
    }
}

/// Reading a whole log.
pub open spec fn scan_log(log: Seq<u8>, modified_unix: u64) -> ScanView {
    scan(log, 0, unread(modified_unix))
}

pub proof fn lemma_line_end(log: Seq<u8>, from: int)
    requires
        0 <= from <= log.len(),
    ensures
        from <= line_end(log, from) <= log.len(),
        forall|i: int| from <= i < line_end(log, from) ==> log[i] != LINE_FEED,
        line_end(log, from) < log.len() ==> log[line_end(log, from)] == LINE_FEED,
    decreases log.len() - from,
{
    if from < log.len() && log[from] != LINE_FEED {
        lemma_line_end(log, from + 1);
    }
}

/// The line end is where the first line feed stands.
pub proof fn lemma_line_end_is(log: Seq<u8>, from: int, end: int)
    requires
        0 <= from <= end <= log.len(),
        forall|i: int| from <= i < end ==> log[i] != LINE_FEED,
        end < log.len() ==> log[end] == LINE_FEED,
    ensures
        line_end(log, from) == end,
    decreases end - from,
{
    if from < end {
        lemma_line_end_is(log, from + 1, end);
    }
}

// ---------------------------------------------------------------------------
// Scanning
// ---------------------------------------------------------------------------

/// Reads a log line by line.
pub struct LogScanner {
    entries: Vec<IndexEntry>,
    offset: u64,
    built_at_unix: u64,
    format_version: u32,
    skipped: u64,
}

impl LogScanner {
    /// What has been read so far.
    pub closed spec fn view(&self) -> ScanView {
        ScanView {
            built_at_unix: self.built_at_unix,
            format_version: self.format_version,
            entries: index::views(self.entries@),
            skipped: self.skipped,
        }
    }

    /// How many bytes of the log have been read, up to the last line feed.
    pub closed spec fn position(&self) -> u64 {
        self.offset
    }

    /// Starts at the front of a log whose file was last modified at `modified_unix`.
    pub fn new(modified_unix: u64) -> (scanner: LogScanner)
        ensures
            scanner@ == unread(modified_unix),
            scanner.position() == 0,
    {
        let scanner = LogScanner {
            entries: Vec::new(),
            offset: 0,
            built_at_unix: modified_unix,
            format_version: 0,
            skipped: 0,
        };
        assert(index::views(scanner.entries@) =~= Seq::empty());
        scanner
    }

    fn skip(&mut self)
        ensures
            final(self)@ == skipping(old(self)@),
            final(self).position() == old(self).position(),
    {
        self.skipped = self.skipped.saturating_add(1);
    }

    fn read_content(&mut self, line: &[u8])
        ensures
            final(self)@ == read_line(old(self)@, old(self).position(), line@),
            final(self).position() == old(self).position(),
    {
        match text::utf8_text(line) {
            Some(s) => {
                proof {
                    vstd::utf8::encode_utf8_valid_utf8(s@);
                }
            },
            None => {
                self.skip();
                return ;
            },
        }
        match json::parse_bytes(line) {
            Ok(record) => {
                if self.offset == 0 && record.is_true("__apdb_meta__") {
                    if let Some(at) = record.get_u64("built_at_unix") {
                        self.built_at_unix = at;
                    }
                    self.format_version =
                    match record.get_u64("format_version") {
                        Some(version) => #[verifier::truncate]
                        (version as u32),
                        None => 1,
                    };
                } else {
                    let ticker = match record.get_str("ticker") {
                        Some(s) => text::trim(s),
                        None => "",
                    };
                    proof {
                        reveal_strlit("");
                    }
                    if ticker.is_empty() {
                        self.skip();
                    } else {
                        let entry = IndexEntry {
                            ticker: ticker.to_owned(),
                            offset: self.offset,
                            len: #[verifier::truncate]
                            (line.len() as u32),
                        };
                        let ghost done = self.entries@;
                        self.entries.push(entry);
                        assert(index::views(self.entries@) =~= index::views(done).push(entry@));
                    }
                }
            },
            Err(_) => {
                self.skip();
            },
        }
    }

    fn take_line(&mut self, line: &[u8])
        requires
            old(self).position() + line@.len() + 1 <= u64::MAX,
        ensures
            final(self)@ == read_line(old(self)@, old(self).position(), line@),
            final(self).position() == old(self).position() + line@.len() + 1,
    {
        self.read_content(line);
        self.offset = self.offset + line.len() as u64 + 1;
    }

    /// Takes the next line of the log, with its line feed. A line without one is the
    /// torn end of the log and is skipped.
    pub fn feed(&mut self, line: &[u8])
        requires
            old(self).position() + line@.len() <= u64::MAX,
        ensures
            if line@.len() > 0 && line@.last() == LINE_FEED {
                &&& final(self)@ == read_line(
                    old(self)@,
                    old(self).position(),
                    line@.drop_last(),
                )
                &&& final(self).position() == old(self).position() + line@.len()
            } else {
                &&& final(self)@ == skipping(old(self)@)
                &&& final(self).position() == old(self).position()
            },
    {
        let n: usize = line.len();
        if n > 0 && line[n - 1] == LINE_FEED {
            let content = vstd::slice::slice_subrange(line, 0, n - 1);
            assert(content@ =~= line@.drop_last());
            self.take_line(content);
        } else {
            self.skip();
        }
    }

    /// Sorts what has been read into an index.
    pub fn finish(self) -> (snapshot: Snapshot)
        ensures
            snapshot.describes(self@),
            snapshot.wf(),
    {
        Snapshot::new(
            index::build_index(self.entries),
            self.built_at_unix,
            self.format_version,
        )
    }

    /// How many lines could not be used.
    pub fn skipped(&self) -> (n: u64)
        ensures
            n == self@.skipped,
    {
        self.skipped
    }
}

// ---------------------------------------------------------------------------
// Snapshots
// ---------------------------------------------------------------------------

/// An immutable, point-in-time view of the database: the ticker-sorted index of one
/// log. Its offsets mean something only together with that log.
#[derive(Debug)]
pub struct Snapshot {
    pub index: Vec<IndexEntry>,
    pub lines: u32,
    pub built_at_unix: u64,
    pub format_version: u32,
}

/// What a positioned read of one record gives; `None` where the log is too short.
pub open spec fn raw_record(log: Seq<u8>, entry: EntryView) -> Option<Seq<u8>> {
    if entry.offset + entry.len <= log.len() {
        Some(log.subrange(entry.offset as int, entry.offset + entry.len))
    } else {
        None
    }
}

/// The message of a read that the log is too short for.
pub open spec fn short_read() -> Seq<char> {
    "failed to fill whole buffer"@
}

/// What reading one record gives: the document, or why it could not be read.
pub open spec fn record_value(log: Seq<u8>, entry: EntryView) -> Result<JsonView, Seq<char>> {
    match raw_record(log, entry) {
        Some(bytes) => json::json_parsed(bytes),
        None => Err(short_read()),
    }
}

impl Snapshot {
    /// The index is sorted, with one entry per ticker, and counted.
    pub open spec fn wf(&self) -> bool {
        &&& index::strictly_sorted(self.entries())
        &&& self.lines == self.index@.len() as u32
    }

    /// The contents of the index.
    pub open spec fn entries(&self) -> Seq<EntryView> {
        index::views(self.index@)
    }

    /// This is the snapshot of what was read: one entry per ticker, its last record.
    pub open spec fn describes(&self, st: ScanView) -> bool {
        &&& index::indexes(self.entries(), st.entries)
        &&& self.built_at_unix == st.built_at_unix
        &&& self.format_version == st.format_version
        &&& self.lines == self.index@.len() as u32
    }

    /// The snapshot with this index.
    pub fn new(index: Vec<IndexEntry>, built_at_unix: u64, format_version: u32) -> (r: Snapshot)
        ensures
            r.index == index,
            r.lines == index@.len() as u32,
            r.built_at_unix == built_at_unix,
            r.format_version == format_version,
    {
        let lines: u32 = #[verifier::truncate]
        (index.len() as u32);
        Snapshot { index, lines, built_at_unix, format_version }
    }

    /// Loads the snapshot of a log. Torn, unreadable and ticker-less records are left
    /// out, so that no bad line keeps the others from being loaded; of a repeated ticker
    /// the last record counts. `modified_unix` stands in for the age of a log that does
    /// not state its own.
    pub fn from_file(log: &[u8], modified_unix: u64) -> (snapshot: Snapshot)
        ensures
            snapshot.describes(scan_log(log@, modified_unix)),
            snapshot.wf(),
    {
        let mut scanner = LogScanner::new(modified_unix);
        let mut from: usize = 0;
        while from < log.len()
            invariant
                from <= log.len(),
                scanner.position() == from,
                scan_log(log@, modified_unix) == scan(log@, from as int, scanner@),
            decreases log.len() - from,
        {
            let mut end: usize = from;
            while end < log.len() && log[end] != LINE_FEED
                invariant
                    from <= end <= log.len(),
                    forall|i: int| from <= i < end ==> log@[i] != LINE_FEED,
                decreases log.len() - end,
            {
                end = end + 1;
            }
            proof {
                lemma_line_end_is(log@, from as int, end as int);
            }
            if end == log.len() {
                scanner.skip();
                return scanner.finish();
            }
            scanner.take_line(vstd::slice::slice_subrange(log, from, end));
            from = end + 1;
        }
        scanner.finish()
    }

    /// The entry of `ticker`, if there is one.
    pub fn find(&self, ticker: &str) -> (r: Option<&IndexEntry>)
        requires
            index::strictly_sorted(self.entries()),
        ensures
            match r {
                Some(entry) => self.entries().contains(entry@) && entry@.ticker == ticker@,
                None => !index::has_ticker(self.entries(), ticker@),
            },
    {
        index::find(&self.index, ticker)
    }

    /// Keyset pagination: up to `limit` entries whose ticker is strictly greater than
    /// `after`, and the cursor to pass for the page that follows.
    pub fn cursor_range(&self, after: Option<&str>, limit: usize) -> (r: (
        &[IndexEntry],
        Option<String>,
    ))
        requires
            index::strictly_sorted(self.entries()),
        ensures
            index::views(r.0@) == index::page(
                self.entries(),
                index::text_view(after),
                limit as nat,
            ),
            index::owned_view(r.1) == index::next_cursor(
                self.entries(),
                index::text_view(after),
                limit as nat,
            ),
    {
        index::cursor_range(&self.index, after, limit)
    }

    /// The entries whose ticker starts with `prefix`.
    pub fn prefix_range(&self, prefix: &str) -> (r: &[IndexEntry])
        requires
            index::strictly_sorted(self.entries()),
        ensures
            index::views(r@) == index::with_prefix(self.entries(), prefix@),
    {
        index::prefix_range(&self.index, prefix)
    }
}

/// The bytes of one record in its log.
pub fn read_raw<'a>(log: &'a [u8], entry: &IndexEntry) -> (r: Option<&'a [u8]>)
    ensures
        match r {
            Some(bytes) => raw_record(log@, entry@) == Some(bytes@),
            None => raw_record(log@, entry@) is None,
        },
{
    let n: u64 = log.len() as u64;
    if entry.offset <= n && entry.len as u64 <= n - entry.offset {
        let start: usize = entry.offset as usize;
        Some(vstd::slice::slice_subrange(log, start, start + entry.len as usize))
    } else {
        None
    }
}

/// The document of one record in its log.
pub fn read_value(log: &[u8], entry: &IndexEntry) -> (r: Result<Json, String>)
    ensures
        match r {
            Ok(value) => record_value(log@, entry@) == Ok::<JsonView, Seq<char>>(value@),
            Err(message) => record_value(log@, entry@) == Err::<JsonView, Seq<char>>(message@),
        },
{
    match read_raw(log, entry) {
        Some(bytes) => json::parse_bytes(bytes),
        None => Err("failed to fill whole buffer".to_owned()),
    }
}

// ---------------------------------------------------------------------------
// Laws of the log
// ---------------------------------------------------------------------------

/// No line ends within the bytes.
pub open spec fn on_one_line(bytes: Seq<u8>) -> bool {
    forall|i: int| 0 <= i < bytes.len() ==> #[trigger] bytes[i] != LINE_FEED
}

/// The bytes are text that can stand on a line of the log.
pub open spec fn fits_line(bytes: Seq<u8>) -> bool {
    &&& vstd::utf8::valid_utf8(bytes)
    &&& on_one_line(bytes)
}

/// The log ends where a line ends.
pub open spec fn ends_cleanly(log: Seq<u8>) -> bool {
    log.len() == 0 || log.last() == LINE_FEED
}

/// No line of the log is longer than an index entry can say.
pub open spec fn lines_fit(log: Seq<u8>) -> bool {
    forall|from: int|
        0 <= from <= log.len() ==> #[trigger] line_end(log, from) - from <= u32::MAX
}

/// Reading a log that goes on behind `a` first reads `a`, and then goes on.
proof fn lemma_scan_prefix(a: Seq<u8>, b: Seq<u8>, from: int, st: ScanView)
    requires
        ends_cleanly(a),
        0 <= from <= a.len(),
    ensures
        scan(a + b, from, st) == scan(a + b, a.len() as int, scan(a, from, st)),
    decreases a.len() - from,
{
    if from < a.len() {
        lemma_line_end(a, from);
        let end = line_end(a, from);
        if end == a.len() {
            assert(a[a.len() - 1] == LINE_FEED);
        }
        lemma_line_end_is(a + b, from, end);
        assert((a + b).subrange(from, end) =~= a.subrange(from, end));
        lemma_scan_prefix(a, b, end + 1, read_line(st, from as u64, a.subrange(from, end)));
    }
}

/// Appending one record to a log reads as the log and then that record.
pub proof fn law_append_one_record(log: Seq<u8>, line: Seq<u8>, modified_unix: u64)
    requires
        ends_cleanly(log),
        on_one_line(line),
    ensures
        scan_log(log + line.push(LINE_FEED), modified_unix) == read_line(
            scan_log(log, modified_unix),
            log.len() as u64,
            line,
        ),
        ends_cleanly(log + line.push(LINE_FEED)),
{
    let whole = log + line.push(LINE_FEED);
    lemma_scan_prefix(log, line.push(LINE_FEED), 0, unread(modified_unix));
    let end = log.len() + line.len();
    lemma_line_end_is(whole, log.len() as int, end as int);
    assert(whole.subrange(log.len() as int, end as int) =~= line);
    reveal_with_fuel(scan, 2);
}

/// A log of these lines.
pub open spec fn joined(lines: Seq<Seq<u8>>) -> Seq<u8>
    decreases lines.len(),
{
    if lines.len() == 0 {
        Seq::empty()
    } else {
        joined(lines.drop_last()) + lines.last().push(LINE_FEED)
    }
}

/// Reading these lines one after the other, as `LogScanner::feed` does.
pub open spec fn read_lines(lines: Seq<Seq<u8>>, modified_unix: u64) -> ScanView
    decreases lines.len(),
{
    if lines.len() == 0 {
        unread(modified_unix)
    } else {
        read_line(
            read_lines(lines.drop_last(), modified_unix),
            joined(lines.drop_last()).len() as u64,
            lines.last(),
        )
    }
}

/// A log is read line by line: what loading it whole gives is what feeding its lines to
/// a scanner gives.
pub proof fn law_log_is_read_line_by_line(lines: Seq<Seq<u8>>, modified_unix: u64)
    requires
        forall|i: int| 0 <= i < lines.len() ==> on_one_line(#[trigger] lines[i]),
    ensures
        scan_log(joined(lines), modified_unix) == read_lines(lines, modified_unix),
        ends_cleanly(joined(lines)),
    decreases lines.len(),
{
    if lines.len() > 0 {
        let rest = lines.drop_last();
        assert forall|i: int| 0 <= i < rest.len() implies on_one_line(#[trigger] rest[i]) by {
            assert(on_one_line(lines[i]));
        }
        law_log_is_read_line_by_line(rest, modified_unix);
        assert(on_one_line(lines[lines.len() - 1]));
        law_append_one_record(joined(rest), lines.last(), modified_unix);
    }
}

/// A crash in the middle of an append costs the torn record and nothing else, wherever
/// the record broke off, within a character too.
pub proof fn law_torn_record_is_dropped(log: Seq<u8>, torn: Seq<u8>, modified_unix: u64)
    requires
        ends_cleanly(log),
        torn.len() > 0,
        on_one_line(torn),
    ensures
        scan_log(log + torn, modified_unix) == skipping(scan_log(log, modified_unix)),
{
    lemma_scan_prefix(log, torn, 0, unread(modified_unix));
    let whole = log + torn;
    lemma_line_end_is(whole, log.len() as int, whole.len() as int);
}

/// A line that is no UTF-8 costs that line and nothing else: what follows it is read as
/// it would be after any other line.
pub proof fn law_line_without_text_is_dropped(
    log: Seq<u8>,
    line: Seq<u8>,
    rest: Seq<u8>,
    modified_unix: u64,
)
    requires
        ends_cleanly(log),
        on_one_line(line),
        !vstd::utf8::valid_utf8(line),
    ensures
        scan_log(log + line.push(LINE_FEED) + rest, modified_unix) == scan(
            log + line.push(LINE_FEED) + rest,
            (log.len() + line.len() + 1) as int,
            skipping(scan_log(log, modified_unix)),
        ),
{
    law_append_one_record(log, line, modified_unix);
    lemma_scan_prefix(log + line.push(LINE_FEED), rest, 0, unread(modified_unix));
}

/// The entry stands for a record of the log that names its ticker.
pub open spec fn locates(log: Seq<u8>, entry: EntryView) -> bool {
    raw_record(log, entry) matches Some(bytes) && fits_line(bytes) && record_ticker(bytes) == Some(
        entry.ticker,
    )
}

proof fn lemma_scan_locates(log: Seq<u8>, from: int, st: ScanView)
    requires
        0 <= from <= log.len() <= u64::MAX,
        lines_fit(log),
        forall|i: int| 0 <= i < st.entries.len() ==> locates(log, #[trigger] st.entries[i]),
    ensures
        forall|i: int|
            0 <= i < scan(log, from, st).entries.len() ==> locates(
                log,
                #[trigger] scan(log, from, st).entries[i],
            ),
    decreases log.len() - from,
{
    if from < log.len() {
        lemma_line_end(log, from);
        let end = line_end(log, from);
        if end < log.len() {
            let line = log.subrange(from, end);
            assert(line_end(log, from) - from <= u32::MAX);
            if vstd::utf8::valid_utf8(line) && record_ticker(line) is Some {
                let e = EntryView {
                    ticker: record_ticker(line)->0,
                    offset: from as u64,
                    len: line.len() as u32,
                };
                assert(raw_record(log, e) == Some(line));
                assert(locates(log, e));
            }
            let next = read_line(st, from as u64, line);
            lemma_scan_locates(log, end + 1, next);
            assert(scan(log, from, st) == scan(log, end + 1, next));
        } else {
            assert(scan(log, from, st).entries == st.entries);
        }
    }
}

/// A snapshot and its log belong together: the record that an entry locates is there,
/// it can be read, and it names the entry's ticker.
pub proof fn law_snapshot_locates_its_records(log: Seq<u8>, modified_unix: u64, snapshot: Snapshot)
    requires
        log.len() <= u64::MAX,
        lines_fit(log),
        snapshot.describes(scan_log(log, modified_unix)),
    ensures
        forall|i: int|
            0 <= i < snapshot.entries().len() ==> locates(log, #[trigger] snapshot.entries()[i]),
{
    let st = scan_log(log, modified_unix);
    lemma_scan_locates(log, 0, unread(modified_unix));
    assert forall|i: int| 0 <= i < snapshot.entries().len() implies locates(
        log,
        #[trigger] snapshot.entries()[i],
    ) by {
        law_index_holds_last_records(snapshot, st, i);
    }
}

/// Each entry of a snapshot is the last record of its ticker that was read.
pub proof fn law_index_holds_last_records(snapshot: Snapshot, st: ScanView, i: int)
    requires
        snapshot.describes(st),
        0 <= i < snapshot.entries().len(),
    ensures
        exists|k: int|
            0 <= k < st.entries.len() && #[trigger] st.entries[k] == snapshot.entries()[i] && forall|
                later: int,
            |
                k < later < st.entries.len() ==> #[trigger] st.entries[later].ticker
                    != snapshot.entries()[i].ticker,
{
    let e = snapshot.entries()[i];
    index::lemma_selection_of_index(snapshot.entries(), i);
    let found = index::of_ticker(st.entries, e.ticker);
    assert(index::of_ticker(snapshot.entries(), e.ticker) == index::last_alone(found));
    assert(seq![e].len() == 1);
    assert(found.len() > 0);
    assert(seq![found.last()][0] == seq![e][0]);
    index::lemma_last_selected(st.entries, e.ticker);
}

/// A snapshot knows exactly the tickers of the records that were read.
pub proof fn law_snapshot_knows_every_ticker(snapshot: Snapshot, st: ScanView, ticker: Seq<char>)
    requires
        snapshot.describes(st),
    ensures
        index::has_ticker(snapshot.entries(), ticker) <==> index::has_ticker(st.entries, ticker),
{
    index::lemma_absent_selects_nothing(snapshot.entries(), ticker);
    index::lemma_absent_selects_nothing(st.entries, ticker);
    assert(index::of_ticker(snapshot.entries(), ticker) == index::last_alone(
        index::of_ticker(st.entries, ticker),
    ));
}

/// The log starts with a meta record that says when it was built.
pub open spec fn states_age(log: Seq<u8>) -> bool {
    let first = log.subrange(0, line_end(log, 0));
    &&& line_end(log, 0) < log.len()
    &&& vstd::utf8::valid_utf8(first)
    &&& is_meta(0, first)
    &&& json::unsigned_of(json::field(json::json_parsed(first)->Ok_0, "built_at_unix"@)) is Some
}

/// The age of a log that states it does not depend on its file: copying or touching the
/// file makes the log no younger.
pub proof fn law_age_comes_from_the_log(log: Seq<u8>, modified_unix: u64, touched_unix: u64)
    requires
        states_age(log),
    ensures
        scan_log(log, touched_unix) == scan_log(log, modified_unix),
{
    lemma_line_end(log, 0);
    reveal_with_fuel(scan, 2);
}

} // verus!
