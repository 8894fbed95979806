use argus_polymarket_db::json;
use argus_polymarket_db::poly_api::{
    self, FetchEventsParams, MarketCache, OpenEventsIter, PolyMarketError, PolymarketEvent, RequestError,
};

fn event(ticker: &str, end_date: Option<&str>) -> PolymarketEvent {
    PolymarketEvent {
        ticker: ticker.to_string(),
        end_date: end_date.map(|s| s.to_string()),
        extra: Vec::new(),
    }
}

fn page(n: usize, end_date: Option<&str>) -> Vec<PolymarketEvent> {
    (0..n).map(|i| event(&format!("t{i}"), end_date)).collect()
}

fn refused() -> PolyMarketError {
    poly_api::fetch_events(&FetchEventsParams::default(), Err(RequestError::Failed("no route".to_string())))
        .err()
        .unwrap()
}

#[test]
fn open_events_iter_test() {
    let mut iter = OpenEventsIter::default();
    let mut count = 0;
    while iter.wants_page() {
        assert_eq!(iter.params().offset, count * 100);
        let Some(page) = iter.accept(Ok(page(100, Some("2026-01-01T00:00:00Z")))) else {
            break;
        };
        count += 1;
        // do not print the page, just count it
        assert!(page.is_ok());
        println!("Total pages: {}", count);
        if count > 5 {
            break;
        }
    }
    assert_eq!(count, 6);
}

#[test]
fn a_copy_of_an_event_is_the_event() {
    let text = r#"{"a":[1,-2.5,{"b":null}],"endDate":"2026","ticker":"t"}"#;
    let items = format!("[{text}]").into_bytes();
    let events = poly_api::fetch_events(&FetchEventsParams::default(), Ok(items)).unwrap();
    let copy = events[0].clone();
    assert_eq!(copy.ticker, "t");
    assert_eq!(copy.end_date.as_deref(), Some("2026"));
    assert_eq!(copy.render(), r#"{"ticker":"t","endDate":"2026","a":[1,-2.5,{"b":null}]}"#);
}

#[test]
fn requests_walk_by_end_date() {
    let iter = OpenEventsIter::new(7, 20, 3);
    let params = iter.params();
    let query: Vec<(&str, String)> = params.query();
    let got: Vec<(&str, &str)> = query.iter().map(|(k, v)| (*k, v.as_str())).collect();
    assert_eq!(
        got,
        vec![
            ("order", "endDate"),
            ("ascending", "true"),
            ("closed", "false"),
            ("limit", "7"),
            ("offset", "0"),
        ]
    );
    let params = FetchEventsParams { end_date_min: Some("2026"), ..FetchEventsParams::default() };
    let query = params.query();
    let got: Vec<(&str, &str)> = query.iter().map(|(k, v)| (*k, v.as_str())).collect();
    assert_eq!(
        got,
        vec![
            ("order", "id"),
            ("ascending", "false"),
            ("closed", "false"),
            ("limit", "100"),
            ("offset", "0"),
            ("end_date_min", "2026"),
        ]
    );
}

#[test]
fn a_pass_ends_at_the_cap_and_the_next_starts_at_the_last_end_date() {
    let mut iter = OpenEventsIter::new(10, 20, 5);
    assert!(iter.wants_page());
    assert!(iter.accept(Ok(page(10, Some("d1")))).is_some());
    assert_eq!(iter.params().offset, 10);
    assert_eq!(iter.params().end_date_min, None);
    assert!(iter.accept(Ok(page(10, Some("d2")))).is_some());
    assert_eq!(iter.params().offset, 0);
    assert_eq!(iter.params().end_date_min, Some("d2"));
    assert!(iter.wants_page());
}

#[test]
fn a_crawl_that_cannot_get_past_a_date_stops() {
    let mut iter = OpenEventsIter::new(10, 10, 5);
    assert!(iter.accept(Ok(page(10, Some("d")))).is_some());
    assert!(iter.wants_page());
    assert!(iter.accept(Ok(page(10, Some("d")))).is_some());
    assert!(!iter.wants_page());

    let mut iter = OpenEventsIter::new(10, 10, 5);
    assert!(iter.accept(Ok(page(10, None))).is_some());
    assert!(!iter.wants_page());
}

#[test]
fn a_crawl_uses_up_its_passes() {
    let mut iter = OpenEventsIter::new(10, 10, 2);
    assert!(iter.accept(Ok(page(10, Some("d1")))).is_some());
    assert!(iter.wants_page());
    assert!(iter.accept(Ok(page(10, Some("d2")))).is_some());
    assert!(!iter.wants_page());
    assert!(!OpenEventsIter::new(10, 10, 0).wants_page());
}

#[test]
fn an_empty_page_ends_a_crawl() {
    let mut iter = OpenEventsIter::default();
    assert!(iter.accept(Ok(Vec::new())).is_none());
    assert!(!iter.wants_page());
}

#[test]
fn an_error_is_handed_out_and_ends_a_crawl() {
    let mut iter = OpenEventsIter::default();
    match iter.accept(Err(refused())) {
        Some(Err(e)) => assert_eq!(e.message(), "Gamma /events request failed: no route"),
        _ => panic!("the error is lost"),
    }
    assert!(!iter.wants_page());
}

#[test]
fn a_page_is_read_out_of_its_body() {
    let params = FetchEventsParams::default();
    let body = br#"[
        {"ticker":"a","endDate":"2026-01-01T00:00:00Z","id":"1"},
        {"ticker":"b","endDate":null},
        {"ticker":"c"},
        {"endDate":"2026-01-01T00:00:00Z"},
        {"ticker":7},
        {"ticker":"d","endDate":7},
        "text"
    ]"#;
    let events = poly_api::fetch_events(&params, Ok(body.to_vec())).unwrap();
    let got: Vec<(&str, Option<&str>)> =
        events.iter().map(|e| (e.ticker.as_str(), e.end_date.as_deref())).collect();
    assert_eq!(got, vec![("a", Some("2026-01-01T00:00:00Z")), ("b", None), ("c", None)]);
    assert_eq!(events[0].extra.len(), 1);
    assert_eq!(events[0].extra[0].0, "id");
}

#[test]
fn an_answer_that_is_no_list_is_an_error() {
    let params = FetchEventsParams { offset: 2100, ..FetchEventsParams::default() };
    let body = br#"{"type":"validation error","error":"offset too large"}"#;
    let e = poly_api::fetch_events(&params, Ok(body.to_vec())).err().unwrap();
    assert_eq!(
        e.message(),
        "Gamma /events returned a non-list response (offset=2100, limit=100): Object {\"error\": String(\"offset too large\"), \"type\": String(\"validation error\")}"
    );
    let e = poly_api::fetch_events(&params, Ok(b"<html>".to_vec())).err().unwrap();
    assert_eq!(
        e.message(),
        "Gamma /events returned invalid JSON: json: expected value at line 1 column 1"
    );
}

#[test]
fn an_event_survives_its_json() {
    let text = r#"{"endDate":"2026-01-01T00:00:00Z","markets":[{"p":0.5,"q":-1}],"ticker":"a","volume":12.25}"#;
    let listed = PolymarketEvent::from_json(json::parse(text).unwrap()).unwrap();
    assert_eq!(
        listed.render(),
        r#"{"ticker":"a","endDate":"2026-01-01T00:00:00Z","markets":[{"p":0.5,"q":-1}],"volume":12.25}"#
    );
    let bare = PolymarketEvent::from_json(json::parse("{\"ticker\":\"a\"}").unwrap()).unwrap();
    assert_eq!(bare.render(), "{\"ticker\":\"a\",\"endDate\":null}");
    let mut made = event("a", None);
    made.extra = json::with(json::with(json::fields(), "z", json::Json::Signed(-3)), "b", json::Json::Signed(3));
    assert_eq!(made.render(), "{\"ticker\":\"a\",\"endDate\":null,\"b\":3,\"z\":-3}");
}

#[test]
fn the_cache_keeps_the_last_event_of_a_ticker() {
    let mut cache = MarketCache::new();
    assert!(cache.accept(Ok(vec![event("a", Some("1")), event("b", None), event("a", Some("2"))])));
    assert_eq!(cache.len(), 2);
    assert_eq!(cache.get("a").unwrap().end_date.as_deref(), Some("2"));
    assert!(cache.accept(Ok(vec![event("a", Some("3"))])));
    assert_eq!(cache.get("a").unwrap().end_date.as_deref(), Some("3"));
    assert!(!cache.accept(Err(refused())));
    assert_eq!(cache.len(), 2);
    assert!(cache.get("c").is_none());
}

#[test]
fn a_body_that_cannot_be_read_is_no_json() {
    let reply = Err(RequestError::Unreadable("io: timeout".to_string()));
    let e = poly_api::fetch_events(&FetchEventsParams::default(), reply).err().unwrap();
    assert_eq!(e.message(), "Gamma /events returned invalid JSON: io: timeout");
}

#[test]
fn the_cache_takes_pages_up_to_the_end_of_the_crawl() {
    let pages = vec![Ok(vec![event("a", Some("1"))]), Ok(Vec::new()), Ok(vec![event("b", None)])];
    let cache = poly_api::fetch_all_markets_cached(pages);
    assert_eq!(cache.len(), 1);
    // The pass is over after 2000 events, and the last of them names no end date.
    let pages = vec![Ok(page(2000, None)), Ok(vec![event("b", None)])];
    let cache = poly_api::fetch_all_markets_cached(pages);
    assert_eq!(cache.len(), 2000);
    assert!(cache.get("b").is_none());
}

#[test]
fn the_cache_takes_pages_up_to_the_first_error() {
    let pages = vec![
        Ok(vec![event("a", Some("1"))]),
        Ok(vec![event("a", Some("1")), event("b", None)]),
        Err(refused()),
        Ok(vec![event("c", None)]),
    ];
    let cache = poly_api::fetch_all_markets_cached(pages);
    assert_eq!(cache.len(), 2);
    assert!(cache.get("a").is_some());
    assert!(cache.get("b").is_some());
    assert!(cache.get("c").is_none());
}
