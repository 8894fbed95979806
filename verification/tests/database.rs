use argus_polymarket_db::database::{self, LogScanner, Snapshot, DB_FORMAT_VERSION};
use argus_polymarket_db::index::{self, IndexEntry};

fn log_of(records: &[String]) -> Vec<u8> {
    let mut log = Vec::new();
    for record in records {
        log.extend_from_slice(record.as_bytes());
        log.push(b'\n');
    }
    log
}

fn event(ticker: &str) -> String {
    format!("{{\"ticker\":\"{ticker}\",\"endDate\":null}}")
}

fn load(log: &[u8]) -> Snapshot {
    Snapshot::from_file(log, 1_700_000_000)
}

fn tickers(entries: &[IndexEntry]) -> Vec<&str> {
    entries.iter().map(|e| e.ticker.as_str()).collect()
}

#[test]
fn legacy_file_without_meta_line_has_format_version_zero() {
    let log = log_of(&[event("only")]);
    let snap = load(&log);
    assert_eq!(snap.format_version, 0);
    assert_eq!(snap.lines, 1);
    assert!(snap.find("only").is_some());
    assert_eq!(snap.built_at_unix, 1_700_000_000);
}

#[test]
fn meta_line_supplies_built_at_and_format_version_and_is_not_indexed() {
    let meta = format!(
        "{{\"__apdb_meta__\":true,\"format_version\":{},\"built_at_unix\":{}}}",
        DB_FORMAT_VERSION, 12345u64
    );
    let log = log_of(&[meta, event("only")]);
    let snap = load(&log);
    assert_eq!(snap.built_at_unix, 12345);
    assert_eq!(snap.format_version, DB_FORMAT_VERSION);
    assert_eq!(snap.lines, 1, "meta line must not be counted as a ticker record");
    assert!(snap.find("only").is_some());
    assert!(snap.find("__apdb_meta__").is_none());
}

#[test]
fn sorted_and_binary_searchable() {
    let log = log_of(&[event("zeta"), event("alpha"), event("mid")]);
    let snap = load(&log);
    assert_eq!(snap.lines, 3);
    assert_eq!(tickers(&snap.index), vec!["alpha", "mid", "zeta"]);

    let entry = snap.find("mid").expect("mid should be found");
    let value = database::read_value(&log, entry).unwrap();
    assert_eq!(value.get_str("ticker"), Some("mid"));

    assert!(snap.find("missing").is_none());
}

#[test]
fn duplicate_ticker_keeps_last() {
    let log = log_of(&[
        "{\"ticker\":\"dup\",\"version\":1}".to_string(),
        "{\"ticker\":\"dup\",\"version\":2}".to_string(),
    ]);
    let snap = load(&log);
    assert_eq!(snap.lines, 1);
    let entry = snap.find("dup").unwrap();
    let value = database::read_value(&log, entry).unwrap();
    assert_eq!(value.get_u64("version"), Some(2));
}

#[test]
fn empty_ticker_is_skipped() {
    let log = log_of(&["{\"ticker\":\"\",\"x\":1}".to_string(), event("real")]);
    let snap = load(&log);
    assert_eq!(snap.lines, 1);
    assert!(snap.find("real").is_some());
}

#[test]
fn cursor_pagination_covers_everything_once() {
    let records: Vec<String> = ["a", "b", "c", "d", "e"].iter().map(|t| event(t)).collect();
    let log = log_of(&records);
    let snap = load(&log);

    let mut seen = Vec::new();
    let mut after: Option<String> = None;
    loop {
        let (page, next_after) = snap.cursor_range(after.as_deref(), 2);
        if page.is_empty() {
            break;
        }
        seen.extend(page.iter().map(|e| e.ticker.clone()));
        match next_after {
            Some(next) => after = Some(next),
            None => break,
        }
    }
    assert_eq!(seen, vec!["a", "b", "c", "d", "e"]);
}

#[test]
fn prefix_range_matches_only_prefix() {
    let records: Vec<String> = ["btc-updown-1", "btc-updown-2", "eth-updown-1"]
        .iter()
        .map(|t| event(t))
        .collect();
    let log = log_of(&records);
    let snap = load(&log);
    assert_eq!(tickers(snap.prefix_range("btc-")), vec!["btc-updown-1", "btc-updown-2"]);
}

#[test]
fn prefixes_at_the_edges() {
    let records: Vec<String> = ["a", "ab", "abc", "b", "é", "éa", "z"].iter().map(|t| event(t)).collect();
    let log = log_of(&records);
    let snap = load(&log);
    assert_eq!(tickers(snap.prefix_range("ab")), vec!["ab", "abc"]);
    assert_eq!(tickers(snap.prefix_range("é")), vec!["é", "éa"]);
    assert_eq!(snap.prefix_range("").len(), 7);
    assert!(snap.prefix_range("abcd").is_empty());
    assert!(snap.prefix_range("zz").is_empty());
}

#[test]
fn cursors_at_the_edges() {
    let records: Vec<String> = ["b", "d", "f"].iter().map(|t| event(t)).collect();
    let log = log_of(&records);
    let snap = load(&log);
    let (page, next) = snap.cursor_range(Some("c"), 1);
    assert_eq!(tickers(page), vec!["d"]);
    assert_eq!(next.as_deref(), Some("d"));
    let (page, next) = snap.cursor_range(Some("d"), 1);
    assert_eq!(tickers(page), vec!["f"]);
    assert_eq!(next, None);
    let (page, next) = snap.cursor_range(Some("f"), 10);
    assert!(page.is_empty());
    assert_eq!(next, None);
    let (page, next) = snap.cursor_range(None, 3);
    assert_eq!(page.len(), 3);
    assert_eq!(next, None);
}

#[test]
fn a_cursor_outlives_the_ticker_it_names() {
    let before = log_of(&[event("a"), event("c"), event("e")]);
    let after = log_of(&[event("a"), event("b"), event("d"), event("e")]);
    let (_, next) = load(&before).cursor_range(None, 2);
    assert_eq!(next.as_deref(), Some("c"));
    let snap = load(&after);
    let (page, _) = snap.cursor_range(next.as_deref(), 10);
    assert_eq!(tickers(page), vec!["d", "e"]);
}

#[test]
fn torn_last_line_is_dropped() {
    let mut log = log_of(&[event("whole")]);
    log.extend_from_slice(b"{\"ticker\":\"torn\"}");
    let snap = load(&log);
    assert_eq!(tickers(&snap.index), vec!["whole"]);
}

#[test]
fn appended_record_is_found_behind_the_others() {
    let mut log = log_of(&[event("a"), event("b")]);
    let end = log.len() as u64;
    log.extend_from_slice(b"{\"ticker\":\"a\",\"n\":2}\n");
    let snap = load(&log);
    let entry = snap.find("a").unwrap();
    assert_eq!(entry.offset, end);
    assert_eq!(entry.len, 20);
    assert_eq!(database::read_raw(&log, entry), Some(&b"{\"ticker\":\"a\",\"n\":2}"[..]));
}

#[test]
fn unusable_lines_are_skipped() {
    let log = log_of(&[
        "not json".to_string(),
        "".to_string(),
        "[1,2]".to_string(),
        "{\"ticker\":5}".to_string(),
        "{\"ticker\":\" \\t \"}".to_string(),
        "{\"ticker\":\" kept \"}".to_string(),
    ]);
    let snap = load(&log);
    assert_eq!(tickers(&snap.index), vec!["kept"]);
    let mut scanner = LogScanner::new(7);
    for line in log.split_inclusive(|b| *b == b'\n') {
        scanner.feed(line);
    }
    assert_eq!(scanner.skipped(), 5);
    let streamed = scanner.finish();
    assert_eq!(tickers(&streamed.index), vec!["kept"]);
    assert_eq!(streamed.index[0].offset, snap.index[0].offset);
    assert_eq!(streamed.built_at_unix, 7);
}

#[test]
fn meta_record_counts_only_on_the_first_line() {
    let meta = "{\"__apdb_meta__\":true,\"built_at_unix\":5,\"format_version\":3}".to_string();
    let snap = load(&log_of(&[event("a"), meta.clone()]));
    assert_eq!(snap.format_version, 0);
    assert_eq!(snap.built_at_unix, 1_700_000_000);
    let snap = load(&log_of(&[meta, event("a")]));
    assert_eq!(snap.format_version, 3);
    assert_eq!(snap.built_at_unix, 5);
    let bare = "{\"__apdb_meta__\":true}".to_string();
    let snap = load(&log_of(&[bare]));
    assert_eq!(snap.format_version, 1);
    assert_eq!(snap.built_at_unix, 1_700_000_000);
    assert_eq!(snap.lines, 0);
}

#[test]
fn age_does_not_depend_on_the_file() {
    let log = log_of(&[
        "{\"__apdb_meta__\":true,\"built_at_unix\":5,\"format_version\":1}".to_string(),
        event("a"),
    ]);
    let one = Snapshot::from_file(&log, 1);
    let two = Snapshot::from_file(&log, 2);
    assert_eq!(one.built_at_unix, 5);
    assert_eq!(two.built_at_unix, 5);
}

#[test]
fn a_line_torn_within_a_character_is_dropped() {
    let mut log = b"{\"ticker\":\"a\"}\n{\"ticker\":\"".to_vec();
    log.push(0xc3);
    let snap = load(&log);
    assert_eq!(snap.lines, 1);
    assert!(snap.find("a").is_some());
    let mut scanner = LogScanner::new(0);
    for line in log.split_inclusive(|b| *b == b'\n') {
        scanner.feed(line);
    }
    assert_eq!(scanner.skipped(), 1);
    assert_eq!(tickers(&scanner.finish().index), vec!["a"]);
}

#[test]
fn a_line_that_is_no_text_is_skipped() {
    let mut log = log_of(&[event("a")]);
    log.extend_from_slice(b"{\"ticker\":\"\xff\"}\n");
    let end = log.len() as u64;
    log.extend_from_slice(&log_of(&[event("b")]));
    let snap = load(&log);
    assert_eq!(tickers(&snap.index), vec!["a", "b"]);
    assert_eq!(snap.find("b").unwrap().offset, end);
    let value = database::read_value(&log, snap.find("b").unwrap()).unwrap();
    assert_eq!(value.get_str("ticker"), Some("b"));

    // A first line that is no text is no meta record either.
    let mut log = b"{\"__apdb_meta__\":true,\"built_at_unix\":5,\"x\":\"\xff\"}\n".to_vec();
    log.extend_from_slice(&log_of(&[event("b")]));
    let snap = load(&log);
    assert_eq!(snap.format_version, 0);
    assert_eq!(snap.built_at_unix, 1_700_000_000);
    assert_eq!(tickers(&snap.index), vec!["b"]);
}

#[test]
fn an_index_is_searched_whatever_the_count_says() {
    let mut snap = load(&log_of(&[event("a"), event("ab"), event("b")]));
    snap.lines = 0;
    assert!(snap.find("ab").is_some());
    assert_eq!(tickers(snap.prefix_range("a")), vec!["a", "ab"]);
    assert_eq!(tickers(snap.cursor_range(Some("a"), 5).0), vec!["ab", "b"]);
}

#[test]
fn an_empty_log_is_an_empty_snapshot() {
    let snap = load(b"");
    assert_eq!(snap.lines, 0);
    assert!(snap.find("a").is_none());
    assert!(snap.cursor_range(None, 5).0.is_empty());
}

#[test]
fn tickers_sort_by_their_bytes() {
    let records: Vec<String> = ["é", "z", "Z", "a-1", "a1", "aa", "a"].iter().map(|t| event(t)).collect();
    let snap = load(&log_of(&records));
    assert_eq!(tickers(&snap.index), vec!["Z", "a", "a-1", "a1", "aa", "z", "é"]);
}

#[test]
fn sorting_keeps_the_order_of_equal_tickers() {
    let entry = |ticker: &str, offset: u64| IndexEntry { ticker: ticker.to_string(), offset, len: 1 };
    let entries = vec![entry("b", 0), entry("a", 1), entry("b", 2), entry("a", 3), entry("c", 4)];
    let sorted = index::sort_by_ticker(entries);
    let got: Vec<(&str, u64)> = sorted.iter().map(|e| (e.ticker.as_str(), e.offset)).collect();
    assert_eq!(got, vec![("a", 1), ("a", 3), ("b", 0), ("b", 2), ("c", 4)]);
    let kept = index::dedupe_keep_last(sorted);
    let got: Vec<(&str, u64)> = kept.iter().map(|e| (e.ticker.as_str(), e.offset)).collect();
    assert_eq!(got, vec![("a", 3), ("b", 2), ("c", 4)]);
}

#[test]
fn a_record_beyond_the_log_cannot_be_read() {
    let log = log_of(&[event("a")]);
    let entry = IndexEntry { ticker: "a".to_string(), offset: 5, len: 1000 };
    assert!(database::read_raw(&log, &entry).is_none());
    assert_eq!(
        database::read_value(&log, &entry).err().as_deref(),
        Some("failed to fill whole buffer")
    );
}
