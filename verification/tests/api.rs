use argus_polymarket_db::api::{self, Step};
use argus_polymarket_db::database::Snapshot;
use argus_polymarket_db::json;
use argus_polymarket_db::version;
use serde_json::Value;

fn log_of(records: &[&str]) -> Vec<u8> {
    let mut log = Vec::new();
    for record in records {
        log.extend_from_slice(record.as_bytes());
        log.push(b'\n');
    }
    log
}

fn load(log: &[u8]) -> Snapshot {
    Snapshot::from_file(log, 1_700_000_000)
}

fn test_log() -> Vec<u8> {
    log_of(&[
        r#"{"markets":[{"clobTokenIds":"[\"111\",\"222\"]","slug":"m1"}],"ticker":"btc-updown-1"}"#,
        r#"{"markets":[],"ticker":"eth-updown-1"}"#,
    ])
}

fn ask(log: &[u8], line: &str) -> Value {
    let snapshot = load(log);
    let response = api::handle_line(&snapshot, log, line);
    assert!(!response.contains('\n'));
    serde_json::from_str(&response).unwrap()
}

#[test]
fn get_event_hit_and_miss() {
    let log = test_log();
    let v = ask(&log, r#"{"op":"get_event","ticker":"btc-updown-1"}"#);
    assert_eq!(v["ok"], true);
    assert_eq!(v["result"]["event"]["ticker"], "btc-updown-1");

    let v = ask(&log, r#"{"op":"get_event","ticker":"nope"}"#);
    assert_eq!(v["ok"], true);
    assert_eq!(v["result"]["event"], Value::Null);
}

#[test]
fn unknown_op_and_bad_json_are_errors_not_crashes() {
    let log = test_log();
    let v = ask(&log, r#"{"op":"nonsense"}"#);
    assert_eq!(v["ok"], false);
    assert_eq!(v["error"]["code"], "bad_request");

    let v = ask(&log, "not json");
    assert_eq!(v["ok"], false);
}

#[test]
fn list_tickers_pagination() {
    let log = test_log();
    let v = ask(&log, r#"{"op":"list_tickers","limit":1}"#);
    assert_eq!(v["result"]["tickers"].as_array().unwrap().len(), 1);
    assert!(v["result"]["next_after"].is_string());
}

#[test]
fn list_asset_ids_extracts_stringified_clob_ids() {
    let log = test_log();
    let v = ask(&log, r#"{"op":"list_asset_ids"}"#);
    let entries = v["result"]["entries"].as_array().unwrap();
    assert_eq!(entries.len(), 2);
    assert_eq!(entries[0]["ticker"], "btc-updown-1");
    assert_eq!(entries[0]["market_index"], 0);
}

#[test]
fn list_asset_ids_ticker_limit_bounds_tickers_scanned_not_entries_returned() {
    let log = test_log();
    // btc-updown-1 alone contributes 2 entries; ticker_limit=1 scans only that
    // one ticker, and does not stop at 1 entry.
    let v = ask(&log, r#"{"op":"list_asset_ids","ticker_limit":1}"#);
    let entries = v["result"]["entries"].as_array().unwrap();
    assert_eq!(entries.len(), 2);
    assert!(v["result"]["next_after"].is_string());
}

#[test]
fn limit_zero_is_bad_request() {
    let log = test_log();
    let v = ask(&log, r#"{"op":"list_tickers","limit":0}"#);
    assert_eq!(v["ok"], false);
    assert_eq!(v["error"]["code"], "bad_request");
}

#[test]
fn db_info_reports_version_and_line_count() {
    let log = test_log();
    let v = ask(&log, r#"{"op":"db_info"}"#);
    assert_eq!(v["result"]["lines"], 2);
    assert!(v["result"]["version"].as_str().unwrap().split('.').count() == 3);
}

#[test]
fn db_info_has_all_its_fields() {
    let log = log_of(&[
        r#"{"__apdb_meta__":true,"built_at_unix":1755000000,"format_version":1}"#,
        r#"{"ticker":"a"}"#,
    ]);
    let v = ask(&log, r#"{"op":"db_info","id":"x"}"#);
    assert_eq!(
        v.to_string(),
        concat_info("x", 1, 1_755_000_000, 1)
    );
}

fn concat_info(id: &str, lines: u32, built_at: u64, format: u32) -> String {
    format!(
        "{{\"db_version\":\"1.5.0\",\"id\":\"{id}\",\"ok\":true,\"op\":\"db_info\",\"result\":{{\"built_at_unix\":{built_at},\"db_format_version\":{format},\"lines\":{lines},\"major\":1,\"minor\":5,\"patch\":0,\"version\":\"1.5.0\"}}}}"
    )
}

#[test]
fn id_is_echoed_whatever_it_is() {
    let log = test_log();
    for id in ["null", "7", "\"abc\"", "[1,{\"a\":-2.5}]", "{\"k\":[true,false]}", "-3", "1.5"] {
        let v = ask(&log, &format!("{{\"id\":{id},\"op\":\"db_info\"}}"));
        assert_eq!(v["id"], serde_json::from_str::<Value>(id).unwrap());
        let v = ask(&log, &format!("{{\"id\":{id},\"op\":\"nonsense\"}}"));
        assert_eq!(v["id"], serde_json::from_str::<Value>(id).unwrap());
    }
    assert_eq!(ask(&log, r#"{"op":"db_info"}"#)["id"], Value::Null);
}

#[test]
fn every_response_tells_the_version() {
    let log = test_log();
    for line in ["", "not json", "[]", "{}", "{\"op\":1}", "{\"op\":\"x\"}", "{\"op\":\"db_info\"}"] {
        let v = ask(&log, line);
        assert_eq!(v["db_version"], version::version_string().as_str());
        assert!(v.get("id").is_some() && v.get("op").is_some());
        assert_eq!(v["ok"] == true, v.get("result").is_some());
        assert_eq!(v["ok"] == false, v.get("error").is_some());
    }
}

#[test]
fn unreadable_requests_are_refused_with_a_reason() {
    let log = test_log();
    let v = ask(&log, "[1]");
    assert_eq!(v["error"]["message"], "invalid request: invalid type: sequence, expected struct Envelope at line 1 column 0");
    assert_eq!(v["op"], Value::Null);
    let v = ask(&log, "{\"id\":5}");
    assert_eq!(v["error"]["message"], "invalid request: missing field `op` at line 1 column 8");
    assert_eq!(v["id"], Value::Null);
    let v = ask(&log, "{\"op\":5}");
    assert_eq!(
        v["error"]["message"],
        "invalid request: invalid type: integer `5`, expected a string at line 1 column 7"
    );
    let v = ask(&log, "{\"id\":1,\"op\":\"db_info\",\"op\":\"db_info\"}");
    assert_eq!(
        v["error"]["message"],
        "invalid request: duplicate field `op` at line 1 column 27"
    );
    assert_eq!(v["error"]["code"], "bad_request");
    assert_eq!(v["id"], Value::Null);
    let v = ask(&log, "not json");
    assert_eq!(
        v["error"]["message"],
        "invalid request: expected ident at line 1 column 2"
    );
}

#[test]
fn unknown_op_is_not_named_as_an_operation() {
    let log = test_log();
    let v = ask(&log, r#"{"op":"nonsense","id":1}"#);
    assert_eq!(v["op"], Value::Null);
    assert_eq!(v["error"]["message"], "unknown op 'nonsense'");
    assert_eq!(v["id"], 1);
}

#[test]
fn bad_params_are_refused_with_a_reason() {
    let log = test_log();
    let cases = [
        (r#"{"op":"get_event"}"#, "invalid params: missing field `ticker`"),
        (
            r#"{"op":"get_event","ticker":null}"#,
            "invalid params: invalid type: null, expected a string",
        ),
        (r#"{"op":"get_event","ticker":"  "}"#, "ticker must not be empty"),
        (r#"{"op":"prefix_search"}"#, "invalid params: missing field `prefix`"),
        (r#"{"op":"prefix_search","prefix":""}"#, "prefix must not be empty"),
        (r#"{"op":"prefix_search","prefix":"b","limit":0}"#, "limit must be greater than 0"),
        (
            r#"{"op":"list_events","limit":-1}"#,
            "invalid params: invalid value: integer `-1`, expected u32",
        ),
        (
            r#"{"op":"list_events","limit":4294967296}"#,
            "invalid params: invalid value: integer `4294967296`, expected u32",
        ),
        (
            r#"{"op":"list_tickers","after":3}"#,
            "invalid params: invalid type: integer `3`, expected a string",
        ),
        (r#"{"op":"list_asset_ids","ticker_limit":0}"#, "limit must be greater than 0"),
    ];
    for (line, message) in cases {
        let v = ask(&log, line);
        assert_eq!(v["ok"], false);
        assert_eq!(v["error"]["code"], "bad_request");
        assert_eq!(v["error"]["message"], message, "{line}");
        assert!(v["op"].is_string());
    }
}

#[test]
fn null_params_count_as_missing() {
    let log = test_log();
    let v = ask(&log, r#"{"op":"list_tickers","after":null,"limit":null}"#);
    assert_eq!(v["result"]["tickers"].as_array().unwrap().len(), 2);
    assert_eq!(v["result"]["next_after"], Value::Null);
}

#[test]
fn limits_default_and_clamp() {
    assert_eq!(api::resolve_limit(None, 50, 500), Ok(50));
    assert_eq!(api::resolve_limit(Some(7), 50, 500), Ok(7));
    assert_eq!(api::resolve_limit(Some(501), 50, 500), Ok(500));
    assert_eq!(
        api::resolve_limit(Some(0), 50, 500),
        Err("limit must be greater than 0".to_string())
    );
    let records: Vec<String> = (0..600).map(|i| format!("{{\"ticker\":\"t{i:04}\"}}")).collect();
    let refs: Vec<&str> = records.iter().map(|r| r.as_str()).collect();
    let log = log_of(&refs);
    let v = ask(&log, r#"{"op":"list_events"}"#);
    assert_eq!(v["result"]["events"].as_array().unwrap().len(), 100);
    assert_eq!(v["result"]["next_after"], "t0099");
    let v = ask(&log, r#"{"op":"list_events","limit":100000}"#);
    assert_eq!(v["result"]["events"].as_array().unwrap().len(), 500);
    let v = ask(&log, r#"{"op":"prefix_search","prefix":"t"}"#);
    assert_eq!(v["result"]["tickers"].as_array().unwrap().len(), 50);
    assert_eq!(v["result"]["truncated"], true);
    let v = ask(&log, r#"{"op":"prefix_search","prefix":"t000"}"#);
    assert_eq!(v["result"]["tickers"].as_array().unwrap().len(), 10);
    assert_eq!(v["result"]["truncated"], false);
}

#[test]
fn paging_through_list_tickers_lists_everything_once() {
    let log = log_of(&[
        r#"{"ticker":"e"}"#,
        r#"{"ticker":"a"}"#,
        r#"{"ticker":"d"}"#,
        r#"{"ticker":"b"}"#,
        r#"{"ticker":"c"}"#,
    ]);
    let mut seen: Vec<String> = Vec::new();
    let mut line = r#"{"op":"list_tickers","limit":2}"#.to_string();
    loop {
        let v = ask(&log, &line);
        for t in v["result"]["tickers"].as_array().unwrap() {
            seen.push(t.as_str().unwrap().to_string());
        }
        match v["result"]["next_after"].as_str() {
            Some(next) => {
                line = format!("{{\"op\":\"list_tickers\",\"limit\":2,\"after\":\"{next}\"}}");
            }
            None => break,
        }
    }
    assert_eq!(seen, vec!["a", "b", "c", "d", "e"]);
}

#[test]
fn asset_ids_of_odd_markets() {
    let markets = r#"[
        {"clobTokenIds":"[\"1\",\"2\"]"},
        {"clobTokenIds":["3",4,"5"]},
        {"clobTokenIds":"[\"6\",7]"},
        {"clobTokenIds":"garbage"},
        {"clobTokenIds":9},
        {},
        "text",
        {"clobTokenIds":"[]"},
        {"clobTokenIds":"[\"8\"]"}
    ]"#;
    let parsed = json::parse(markets).unwrap();
    let ids = api::extract_asset_ids(&parsed);
    let expected: Vec<(usize, String)> = [(0, "1"), (0, "2"), (1, "3"), (1, "5"), (8, "8")]
        .iter()
        .map(|(i, s)| (*i, s.to_string()))
        .collect();
    assert_eq!(ids, expected);
    assert!(api::extract_asset_ids(&json::parse("{}").unwrap()).is_empty());
    assert!(api::extract_asset_ids(&json::parse("null").unwrap()).is_empty());
}

#[test]
fn list_asset_ids_entries_are_complete() {
    let log = test_log();
    let v = ask(&log, r#"{"op":"list_asset_ids"}"#);
    assert_eq!(
        v["result"].to_string(),
        "{\"entries\":[{\"asset_id\":\"111\",\"market_index\":0,\"ticker\":\"btc-updown-1\"},{\"asset_id\":\"222\",\"market_index\":0,\"ticker\":\"btc-updown-1\"}],\"next_after\":null}"
    );
}

#[test]
fn a_log_that_does_not_belong_to_the_snapshot_is_an_internal_error() {
    let log = test_log();
    let snapshot = load(&log);
    let response = api::handle_line(&snapshot, &log[..10], r#"{"op":"get_event","ticker":"eth-updown-1"}"#);
    let v: Value = serde_json::from_str(&response).unwrap();
    assert_eq!(v["ok"], false);
    assert_eq!(v["op"], "get_event");
    assert_eq!(v["error"]["code"], "internal");
    assert_eq!(
        v["error"]["message"],
        "failed to read record 'eth-updown-1': failed to fill whole buffer"
    );
}

#[test]
fn a_damaged_record_is_an_internal_error() {
    let log = test_log();
    let snapshot = load(&log);
    let mut damaged = log.clone();
    damaged[0] = b'!';
    let response = api::handle_line(&snapshot, &damaged, r#"{"op":"list_events"}"#);
    let v: Value = serde_json::from_str(&response).unwrap();
    assert_eq!(v["error"]["code"], "internal");
    assert_eq!(
        v["error"]["message"],
        "failed to read record 'btc-updown-1': expected value at line 1 column 1"
    );
}

#[test]
fn a_request_in_two_steps_gives_the_same_answer() {
    let log = test_log();
    let snapshot = load(&log);
    for line in [
        r#"{"op":"get_event","ticker":" btc-updown-1 "}"#,
        r#"{"op":"list_events","limit":1,"id":2}"#,
        r#"{"op":"list_asset_ids"}"#,
        r#"{"op":"get_event","ticker":"nope"}"#,
        r#"{"op":"list_tickers"}"#,
    ] {
        let whole = api::handle_line(&snapshot, &log, line);
        let stepwise = match api::begin(&snapshot, line) {
            Step::Respond(text) => text,
            Step::Read(pending) => {
                let records = pending
                    .entries()
                    .iter()
                    .map(|e| Ok(log[e.offset as usize..e.offset as usize + e.len as usize].to_vec()))
                    .collect();
                pending.finish(records)
            }
        };
        assert_eq!(whole, stepwise);
    }
}

#[test]
fn a_request_stops_at_the_first_record_that_cannot_be_read() {
    let log = test_log();
    let snapshot = load(&log);
    match api::begin(&snapshot, r#"{"op":"list_events","id":9}"#) {
        Step::Respond(_) => panic!("list_events needs records"),
        Step::Read(pending) => {
            assert_eq!(pending.entries().len(), 2);
            let response = pending.finish(vec![Err("disk on fire".to_string())]);
            let v: Value = serde_json::from_str(&response).unwrap();
            assert_eq!(v["id"], 9);
            assert_eq!(
                v["error"]["message"],
                "failed to read record 'btc-updown-1': disk on fire"
            );
        }
    }
}

#[test]
fn get_event_trims_the_ticker() {
    let log = log_of(&[r#"{"ticker":"  padded "}"#]);
    let v = ask(&log, "{\"op\":\"get_event\",\"ticker\":\"\\u2003padded\\t\"}");
    assert_eq!(v["result"]["event"]["ticker"], "  padded ");
}
