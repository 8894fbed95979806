use argus_polymarket_db::compaction::{self, CompactError, Compaction};
use argus_polymarket_db::database::{self, Snapshot};
use argus_polymarket_db::dates;
use argus_polymarket_db::index::IndexEntry;
use argus_polymarket_db::json;
use argus_polymarket_db::poly_api::{self, FetchEventsParams, PolyMarketError, PolymarketEvent};
use argus_polymarket_db::records::{LogBuilder, TooLong};
use argus_polymarket_db::refresh::{self, CarryForward, Crawl, RefreshError};

const NOW: u64 = 1_766_000_000;

fn log_of(records: &[&str]) -> Vec<u8> {
    let mut log = Vec::new();
    for record in records {
        log.extend_from_slice(record.as_bytes());
        log.push(b'\n');
    }
    log
}

fn load(log: &[u8]) -> Snapshot {
    Snapshot::from_file(log, 1_700_000_000)
}

fn tickers(snapshot: &Snapshot) -> Vec<&str> {
    snapshot.index.iter().map(|e| e.ticker.as_str()).collect()
}

fn field(snapshot: &Snapshot, log: &[u8], ticker: &str, key: &str) -> Option<u64> {
    database::read_value(log, snapshot.find(ticker).unwrap()).unwrap().get_u64(key)
}

type Page = Result<Vec<PolymarketEvent>, PolyMarketError>;

fn page(records: &[&str]) -> Vec<PolymarketEvent> {
    records
        .iter()
        .map(|r| PolymarketEvent::from_json(json::parse(r).unwrap()).unwrap())
        .collect()
}

fn crawl(records: &[&str]) -> Vec<Page> {
    vec![Ok(page(records)), Ok(Vec::new())]
}

fn refused() -> PolyMarketError {
    poly_api::fetch_events(&FetchEventsParams::default(), Err(poly_api::RequestError::Failed("no route".to_string())))
        .err()
        .unwrap()
}

/// The crawl re-crawled b (with new content) and found d, but did not see a or c.
/// After merging, a and c survive with their old content, b carries its new content,
/// and d is there. The produced log is loaded anew, so that a wrong offset shows up as
/// a read failure or as wrong content.
#[test]
fn merge_carry_forward_preserves_old_tickers_not_recrawled() {
    let old_log = log_of(&[
        r#"{"ticker":"a","v":1}"#,
        r#"{"ticker":"b","v":1}"#,
        r#"{"ticker":"c","v":1}"#,
    ]);
    let old_snapshot = load(&old_log);

    let mut writer: Vec<u8> = Vec::new();
    let mut entries = Vec::new();
    let mut offset: u64 = 0;
    for (ticker, json) in [("b", r#"{"ticker":"b","v":2}"#), ("d", r#"{"ticker":"d","v":1}"#)] {
        writer.extend_from_slice(json.as_bytes());
        writer.push(b'\n');
        entries.push(IndexEntry { ticker: ticker.to_string(), offset, len: json.len() as u32 });
        offset += json.len() as u64 + 1;
    }

    let carried =
        refresh::merge_carry_forward(&mut writer, &mut entries, &old_snapshot, &old_log, &mut offset, NOW);
    assert_eq!(carried, Ok(2));
    assert_eq!(offset, writer.len() as u64);

    let reloaded = load(&writer);
    assert_eq!(tickers(&reloaded), vec!["a", "b", "c", "d"]);
    assert_eq!(field(&reloaded, &writer, "a", "v"), Some(1));
    assert_eq!(field(&reloaded, &writer, "b", "v"), Some(2));
    assert_eq!(field(&reloaded, &writer, "c", "v"), Some(1));
    assert_eq!(field(&reloaded, &writer, "d", "v"), Some(1));
}

#[test]
fn merge_carry_forward_is_noop_when_everything_was_recrawled() {
    let old_log = log_of(&[r#"{"ticker":"a","v":1}"#]);
    let old_snapshot = load(&old_log);

    let json = r#"{"ticker":"a","v":2}"#;
    let mut writer = log_of(&[json]);
    let mut entries = vec![IndexEntry { ticker: "a".to_string(), offset: 0, len: json.len() as u32 }];
    let mut offset = json.len() as u64 + 1;

    refresh::merge_carry_forward(&mut writer, &mut entries, &old_snapshot, &old_log, &mut offset, NOW).unwrap();
    assert_eq!(entries.len(), 1, "must not duplicate a ticker that was already re-crawled");

    let reloaded = load(&writer);
    assert_eq!(reloaded.lines, 1);
    assert_eq!(field(&reloaded, &writer, "a", "v"), Some(2));
}

#[test]
fn merge_carry_forward_fails_where_the_log_is_too_short() {
    let old_log = log_of(&[r#"{"ticker":"a","v":1}"#, r#"{"ticker":"b","v":1}"#]);
    let old_snapshot = load(&old_log);
    for (held, copied) in [(5, ""), (25, "{\"ticker\":\"a\",\"v\":1}\n")] {
        let mut writer = log_of(&["x"]);
        let mut entries = Vec::new();
        let mut offset = 2;
        let r = refresh::merge_carry_forward(
            &mut writer,
            &mut entries,
            &old_snapshot,
            &old_log[..held],
            &mut offset,
            NOW,
        );
        assert_eq!(r, Err(RefreshError::ShortRead));
        assert_eq!(writer, format!("x\n{copied}").as_bytes());
        assert!(entries.is_empty());
        assert_eq!(offset, 2 + copied.len() as u64);
    }
}

#[test]
fn merge_carry_forward_starts_at_any_offset() {
    let old_log = log_of(&[r#"{"ticker":"a","v":1}"#]);
    let old_snapshot = load(&old_log);
    let mut writer = Vec::new();
    let mut entries = Vec::new();
    let mut offset = 100;
    let r = refresh::merge_carry_forward(&mut writer, &mut entries, &old_snapshot, &old_log, &mut offset, NOW);
    assert_eq!(r, Ok(1));
    assert_eq!(writer, old_log);
    assert_eq!(entries[0].offset, 100);
    assert_eq!(offset, 121);
}

#[test]
fn expired_tickers_are_left_behind() {
    // 2025-12-17T19:33:20Z is NOW.
    let cases = [
        (r#"{"ticker":"a","endDate":"2025-12-17T15:33:19Z"}"#, true),
        (r#"{"ticker":"a","endDate":"2025-12-17T15:33:20Z"}"#, false),
        (r#"{"ticker":"a","endDate":"2025-12-17T15:33:19.250Z"}"#, true),
        (r#"{"ticker":"a","endDate":"2026-01-01T00:00:00Z"}"#, false),
        (r#"{"ticker":"a","endDate":null}"#, false),
        (r#"{"ticker":"a"}"#, false),
        (r#"{"ticker":"a","endDate":"soon"}"#, false),
        (r#"{"ticker":"a","endDate":20200101}"#, false),
        ("garbage", false),
    ];
    for (record, expired) in cases {
        assert_eq!(refresh::is_expired(record.as_bytes(), NOW), expired, "{record}");
    }
    let ended = br#"{"ticker":"a","endDate":"2025-12-17T15:33:19Z"}"#;
    assert!(!refresh::is_expired(ended, NOW - 1));
    assert!(refresh::is_expired(ended, NOW + 1));
    assert!(refresh::is_expired(ended, u64::MAX));
    let old_log = log_of(&[
        r#"{"endDate":"2025-12-17T15:33:19Z","ticker":"gone"}"#,
        r#"{"endDate":"2025-12-17T15:33:20Z","ticker":"kept"}"#,
        r#"{"endDate":"2020-01-01T00:00:00Z","ticker":"listed","v":1}"#,
    ]);
    let old_snapshot = load(&old_log);
    let events = crawl(&[r#"{"endDate":"2020-01-01T00:00:00Z","ticker":"listed","v":2}"#]);
    let (file, snapshot) =
        refresh::full_crawl_and_compact(Some((&old_snapshot, &old_log)), events, NOW).unwrap();
    assert_eq!(tickers(&snapshot), vec!["kept", "listed"]);
    assert_eq!(field(&snapshot, &file, "listed", "v"), Some(2));
}

#[test]
fn a_refresh_writes_a_sorted_log_with_a_meta_record() {
    let events = crawl(&[
        r#"{"ticker":" b ","endDate":"2026-01-01T00:00:00Z","n":1}"#,
        r#"{"ticker":"a","n":2}"#,
        r#"{"ticker":"  ","n":3}"#,
        r#"{"ticker":"a","n":4}"#,
    ]);
    let (file, snapshot) = refresh::full_crawl_and_compact(None, events, NOW).unwrap();
    let expected = concat_lines(&[
        "{\"__apdb_meta__\":true,\"built_at_unix\":1766000000,\"format_version\":1}",
        "{\"ticker\":\"a\",\"endDate\":null,\"n\":4}",
        "{\"ticker\":\" b \",\"endDate\":\"2026-01-01T00:00:00Z\",\"n\":1}",
    ]);
    assert_eq!(std::str::from_utf8(&file).unwrap(), expected);
    assert_eq!(snapshot.lines, 2);
    assert_eq!(snapshot.built_at_unix, NOW);
    assert_eq!(snapshot.format_version, 1);

    let reloaded = load(&file);
    assert_eq!(reloaded.built_at_unix, NOW);
    assert_eq!(reloaded.format_version, 1);
    assert_eq!(tickers(&reloaded), tickers(&snapshot));
    for (x, y) in reloaded.index.iter().zip(snapshot.index.iter()) {
        assert_eq!((x.offset, x.len), (y.offset, y.len));
    }
}

fn concat_lines(lines: &[&str]) -> String {
    let mut s = String::new();
    for line in lines {
        s.push_str(line);
        s.push('\n');
    }
    s
}

#[test]
fn a_refresh_keeps_what_the_crawl_did_not_bring() {
    let (first_log, first) =
        refresh::full_crawl_and_compact(None, crawl(&[r#"{"ticker":"a","n":1}"#, r#"{"ticker":"b","n":1}"#]), NOW)
            .unwrap();
    let (second_log, second) = refresh::full_crawl_and_compact(
        Some((&first, &first_log)),
        crawl(&[r#"{"ticker":"b","n":2}"#, r#"{"ticker":"c","n":2}"#]),
        NOW + 300,
    )
    .unwrap();
    assert_eq!(tickers(&second), vec!["a", "b", "c"]);
    assert_eq!(field(&second, &second_log, "a", "n"), Some(1));
    assert_eq!(field(&second, &second_log, "b", "n"), Some(2));
    assert_eq!(field(&second, &second_log, "c", "n"), Some(2));
    assert_eq!(second.built_at_unix, NOW + 300);

    let (third_log, third) =
        refresh::full_crawl_and_compact(Some((&second, &second_log)), Vec::new(), NOW + 600).unwrap();
    assert_eq!(tickers(&third), tickers(&second));
    for ticker in ["a", "b", "c"] {
        assert_eq!(
            database::read_raw(&third_log, third.find(ticker).unwrap()),
            database::read_raw(&second_log, second.find(ticker).unwrap())
        );
    }
}

#[test]
fn a_first_crawl_without_events_is_refused() {
    let r = refresh::full_crawl_and_compact(None, Vec::new(), NOW);
    assert!(matches!(r, Err(RefreshError::NoEvents)));
    let r = refresh::full_crawl_and_compact(None, crawl(&[r#"{"ticker":""}"#]), NOW);
    assert!(matches!(r, Err(RefreshError::NoEvents)));
    assert_eq!(
        RefreshError::NoEvents.message(),
        "initial crawl returned zero events; refusing to write an empty database"
    );
    assert_eq!(RefreshError::ShortRead.message(), "failed to fill whole buffer");
    assert_eq!(RefreshError::TooLong.message(), "record too long");
}

#[test]
fn a_refresh_fails_on_an_old_log_that_is_too_short() {
    let old_log = log_of(&[r#"{"ticker":"a"}"#]);
    let old_snapshot = load(&old_log);
    let r = refresh::full_crawl_and_compact(Some((&old_snapshot, &old_log[..3])), Vec::new(), NOW);
    assert!(matches!(r, Err(RefreshError::ShortRead)));
}

#[test]
fn compaction_of_a_log_that_is_too_short_fails() {
    let log = log_of(&[r#"{"ticker":"a"}"#]);
    let snapshot = load(&log);
    assert!(matches!(
        compaction::compact(&log[..3], snapshot.index, NOW),
        Err(CompactError::ShortRead)
    ));
}

#[test]
fn compaction_drops_what_no_longer_counts() {
    let log = log_of(&[
        r#"{"ticker":"b","n":1}"#,
        "garbage",
        r#"{"ticker":"a","n":1}"#,
        r#"{"ticker":"b","n":2}"#,
    ]);
    let (file, snapshot) = compaction::compact(&log, load(&log).index, 5).unwrap();
    let expected = concat_lines(&[
        "{\"__apdb_meta__\":true,\"built_at_unix\":5,\"format_version\":1}",
        "{\"ticker\":\"a\",\"n\":1}",
        "{\"ticker\":\"b\",\"n\":2}",
    ]);
    assert_eq!(std::str::from_utf8(&file).unwrap(), expected);
    assert_eq!(tickers(&snapshot), vec!["a", "b"]);
}

#[test]
fn a_failed_crawl_fails_the_refresh() {
    let r = refresh::full_crawl_and_compact(
        None,
        vec![Ok(page(&[r#"{"ticker":"a"}"#])), Err(refused()), Ok(page(&[r#"{"ticker":"b"}"#]))],
        NOW,
    );
    match r {
        Err(e) => {
            assert_eq!(e, RefreshError::Crawl("Gamma /events request failed: no route".to_string()));
            assert_eq!(e.message(), "Gamma /events request failed: no route");
        }
        Ok(_) => panic!("the crawl failed"),
    }
}

#[test]
fn a_refresh_takes_no_page_after_the_last() {
    let replies = vec![
        Ok(page(&[r#"{"ticker":"a"}"#])),
        Ok(page(&[r#"{"ticker":"b"}"#])),
        Ok(Vec::new()),
        Ok(page(&[r#"{"ticker":"c"}"#])),
        Err(refused()),
    ];
    let (_, snapshot) = refresh::full_crawl_and_compact(None, replies, NOW).unwrap();
    assert_eq!(tickers(&snapshot), vec!["a", "b"]);
}

#[test]
fn a_refresh_step_by_step_gives_the_same_log() {
    let old_log = log_of(&[
        r#"{"endDate":"2020-01-01T00:00:00Z","ticker":"gone"}"#,
        r#"{"ticker":"kept","n":1}"#,
        r#"{"ticker":"listed","n":1}"#,
    ]);
    let old_snapshot = load(&old_log);
    let replies = || crawl(&[r#"{"ticker":"listed","n":2}"#, r#"{"ticker":""}"#, r#"{"ticker":"new","n":2}"#]);
    let (file, snapshot) =
        refresh::full_crawl_and_compact(Some((&old_snapshot, &old_log)), replies(), NOW).unwrap();

    let mut scratch: Vec<u8> = Vec::new();
    let mut crawl = Crawl::new();
    let mut pages = replies().into_iter();
    while crawl.wants_page() {
        assert_eq!(crawl.params().order, "endDate");
        let bytes = crawl.accept(pages.next().unwrap()).unwrap();
        scratch.extend_from_slice(&bytes);
    }
    assert_eq!(crawl.len(), 2);
    let (entries, length) = crawl.finish(false).unwrap();
    assert_eq!(length, scratch.len() as u64);

    let mut carry = CarryForward::new(&entries, &old_snapshot, length, NOW);
    while let Some(entry) = carry.next_entry() {
        let raw = database::read_raw(&old_log, entry).unwrap();
        if carry.take(raw).unwrap() {
            scratch.extend_from_slice(raw);
            scratch.push(b'\n');
        }
    }
    assert_eq!(carry.len(), 1);
    assert_eq!(carry.offset(), scratch.len() as u64);
    let entries = carry.finish(entries);

    let (mut compaction, meta) = Compaction::start(entries, NOW).unwrap();
    let mut stepwise = meta.into_bytes();
    stepwise.push(b'\n');
    while let Some(entry) = compaction.next_entry() {
        let raw = database::read_raw(&scratch, entry).unwrap();
        compaction.take(raw).unwrap();
        stepwise.extend_from_slice(raw);
        stepwise.push(b'\n');
    }
    let finished = compaction.finish();
    assert_eq!(stepwise, file);
    assert_eq!(tickers(&finished), vec!["kept", "listed", "new"]);
    assert_eq!(tickers(&finished), tickers(&snapshot));
    for (x, y) in finished.index.iter().zip(snapshot.index.iter()) {
        assert_eq!((x.offset, x.len), (y.offset, y.len));
    }
}

#[test]
fn a_builder_notes_where_records_stand() {
    let mut builder = LogBuilder::starting_at(10);
    builder.note("x", b"12345").unwrap();
    builder.note("y", b"1234567").unwrap();
    assert_eq!(builder.offset(), 10 + 6 + 8);
    assert_eq!(builder.len(), 2);
    let entries = builder.into_entries();
    assert_eq!((entries[0].ticker.as_str(), entries[0].offset, entries[0].len), ("x", 10, 5));
    assert_eq!((entries[1].ticker.as_str(), entries[1].offset, entries[1].len), ("y", 16, 7));
    let mut full = LogBuilder::starting_at(u64::MAX - 3);
    assert_eq!(full.note("z", b"123"), Err(TooLong));
    assert_eq!(full.note("z", b"12"), Ok(()));
    assert_eq!(full.offset(), u64::MAX);
}

#[test]
fn temporary_path_is_beside_the_log() {
    assert_eq!(refresh::tmp_path_for("/data/events.db"), "/data/events.db.tmp");
}

#[test]
fn dates_are_read_exactly() {
    let good = [
        ("1970-01-01T00:00:00Z", 0),
        ("1970-01-02T03:04:05Z", 97_445),
        ("2000-02-29T12:00:00Z", 951_825_600),
        ("2025-12-17T19:33:20Z", 1_766_000_000),
        ("2025-12-17T19:33:20.5Z", 1_766_000_000),
        ("2100-03-01T00:00:00Z", 4_107_542_400),
        ("1969-12-31T23:59:59Z", -1),
        ("0001-01-01T00:00:00Z", -62_135_596_800),
        ("9999-12-31T23:59:59Z", 253_402_300_799),
    ];
    for (text, at) in good {
        assert_eq!(dates::parse_date(text), Some(at), "{text}");
    }
    let bad = [
        "",
        "2025-12-17",
        "2025-12-17T19:33:20",
        "2025-12-17 19:33:20Z",
        "2025-12-17T19:33:20.Z",
        "2025-12-17T19:33:20.5",
        "2025-12-17T19:33:20z",
        "2025-13-17T19:33:20Z",
        "2025-00-17T19:33:20Z",
        "2025-02-29T19:33:20Z",
        "1900-02-29T00:00:00Z",
        "2025-04-31T00:00:00Z",
        "2025-12-00T19:33:20Z",
        "2025-12-17T24:00:00Z",
        "2025-12-17T19:60:20Z",
        "2025-12-17T19:33:60Z",
        "0000-01-01T00:00:00Z",
        "20a5-12-17T19:33:20Z",
        "+025-12-17T19:33:20Z",
        "2025-12-17T19:33:20.5xZ",
    ];
    for text in bad {
        assert_eq!(dates::parse_date(text), None, "{text}");
    }
}
