use argus_polymarket_db::json::{self, Json};
use argus_polymarket_db::text::{self, Order};

#[test]
fn documents_come_back_as_they_were() {
    for text in [
        "null",
        "true",
        "18446744073709551615",
        "-5",
        "1.5",
        "\"a\\n\\u0001é\"",
        "[1,[2,[]],{}]",
        "{\"a\":{\"b\":[null]},\"c\":\"d\"}",
    ] {
        let document = json::parse(text).unwrap();
        assert_eq!(document.clone().render(), text);
        assert_eq!(document.render(), text);
    }
}

#[test]
fn the_last_of_repeated_keys_counts() {
    let document = json::parse("{\"a\":1,\"b\":2,\"a\":3}").unwrap();
    assert_eq!(document.get_u64("a"), Some(3));
    assert_eq!(document.render(), "{\"a\":3,\"b\":2}");
    let built = json::with(json::with(json::fields(), "a", Json::Null), "a", Json::Bool(true));
    let built = Json::Object(built);
    assert!(built.is_true("a"));
    assert_eq!(built.by_key().unwrap().len(), 1);
    assert_eq!(built.render(), "{\"a\":true}");
}

#[test]
fn values_are_told_apart() {
    let document = json::parse("{\"s\":\"x\",\"u\":7,\"n\":-7,\"f\":7.0,\"t\":true,\"z\":null}").unwrap();
    assert_eq!(document.get_str("s"), Some("x"));
    assert_eq!(document.get_str("u"), None);
    assert_eq!(document.get_u64("u"), Some(7));
    assert_eq!(document.get_u64("n"), None);
    assert_eq!(document.get_u64("f"), None);
    assert!(document.is_true("t"));
    assert!(!document.is_true("s"));
    assert!(document.get("z").is_some());
    assert!(document.get("y").is_none());
    assert!(json::parse("[]").unwrap().get("y").is_none());
    assert_eq!(
        json::parse("true").unwrap().into_string().err().as_deref(),
        Some("invalid type: boolean `true`, expected a string")
    );
    assert_eq!(json::parse("9").unwrap().into_u32(), Ok(9));
    assert_eq!(
        json::parse("\"9\"").unwrap().into_u32().err().as_deref(),
        Some("invalid type: string \"9\", expected u32")
    );
    assert_eq!(json::parse("[1,\"a\"]").unwrap().debug(), "Array [Number(1), String(\"a\")]");
}

#[test]
fn bad_texts_are_refused() {
    assert_eq!(
        json::parse("{\"a\":}").err().as_deref(),
        Some("expected value at line 1 column 6")
    );
    assert!(json::parse_bytes(&[b'"', 0xff, b'"']).is_err());
    let deep = "[".repeat(127) + &"]".repeat(127);
    assert_eq!(json::parse(&deep).unwrap().render(), deep);
    let deeper = "[".repeat(128) + &"]".repeat(128);
    assert!(json::parse(&deeper).is_err());
}

#[test]
fn pairs_come_in_key_order() {
    let fields = json::with(json::with(json::fields(), "b", Json::Unsigned(2)), "a", Json::Unsigned(1));
    let document = Json::Object(fields);
    let keys: Vec<&str> = document.by_key().unwrap().iter().map(|p| p.0).collect();
    assert_eq!(keys, vec!["a", "b"]);
    assert!(Json::Null.by_key().is_none());
}

#[test]
fn texts_compare_by_their_bytes() {
    assert_eq!(text::compare("a", "b"), Order::Less);
    assert_eq!(text::compare("b", "a"), Order::Greater);
    assert_eq!(text::compare("ab", "ab"), Order::Equal);
    assert_eq!(text::compare("ab", "abc"), Order::Less);
    assert_eq!(text::compare("z", "é"), Order::Less);
    assert_eq!(text::compare("\u{ffff}", "\u{10000}"), Order::Less);
    assert!(text::same("é", "é"));
    assert!(!text::same("é", "e"));
    assert!(text::has_prefix("éa", "é"));
    assert!(!text::has_prefix("a", "ab"));
}

#[test]
fn white_space_is_trimmed() {
    for s in [
        "",
        " ",
        " a ",
        "\t\n\u{b}\u{c}\r a b \u{85}\u{a0}",
        "\u{1680}\u{2000}x\u{200a}\u{2028}\u{2029}\u{202f}\u{205f}\u{3000}",
        "\u{200b}x\u{feff}",
        "\u{180e}x",
    ] {
        assert_eq!(text::trim(s), s.trim());
    }
    for code in 0..0x3100u32 {
        if let Some(c) = char::from_u32(code) {
            let s = format!("{c}x{c}");
            assert_eq!(text::trim(&s), s.trim(), "{code:x}");
        }
    }
}

#[test]
fn line_ends_are_stripped() {
    for s in ["", "a", "a\n", "a\r\n", "a\n\r\n", "\r\na", "\n", " \n"] {
        assert_eq!(text::strip_line_end(s), s.trim_end_matches(['\r', '\n']));
        assert_eq!(text::ends_line(s), s.ends_with('\n'));
    }
}

#[test]
fn texts_are_split_and_searched() {
    for s in ["", ",", "a", "a,b", ",a,,b,", "é,ü"] {
        let expected: Vec<String> = s.split(',').map(|p| p.to_string()).collect();
        assert_eq!(text::split(s, ','), expected);
    }
    for (s, part) in [("", ""), ("", "a"), ("ab", ""), ("abc", "bc"), ("abc", "ac"), ("10.0.0.1/32", "/32"), ("a/3", "/32")] {
        assert_eq!(text::has_part(s, part), s.contains(part));
    }
}

#[test]
fn numbers_are_written_and_read() {
    for n in [0, 7, 10, 99, 100, 12345, u64::MAX] {
        assert_eq!(text::number_text(n), n.to_string());
        assert_eq!(text::parse_u64(&n.to_string()), Some(n));
    }
    assert_eq!(text::two_digit_text(0), "00");
    assert_eq!(text::two_digit_text(9), "09");
    assert_eq!(text::two_digit_text(10), "10");
    for s in ["", "+", "-0", "1 ", "0x1", "٣"] {
        assert_eq!(text::parse_u64(s), s.parse::<u64>().ok());
    }
}

#[test]
fn negative_integers_are_kept() {
    let text = format!("{{\"a\":[-1,{{\"b\":{},\"c\":-2.5}}]}}", i64::MIN);
    let document = json::parse(&text).unwrap();
    assert_eq!(document.clone().render(), text);
    match document.get("a") {
        Some(Json::Array(items)) => {
            assert!(matches!(items[0], Json::Signed(-1)));
            assert!(matches!(items[1].get("b"), Some(Json::Signed(i64::MIN))));
            assert!(matches!(items[1].get("c"), Some(Json::Other(_))));
        }
        _ => panic!("a list"),
    }
    // A signed integer that is not negative is the same as the unsigned one.
    assert_eq!(Json::Signed(7).as_u64(), Some(7));
    assert_eq!(Json::Signed(-7).as_u64(), None);
    assert!(matches!(json::parse(&Json::Signed(7).render()), Ok(Json::Unsigned(7))));
}

#[test]
fn pairs_are_written_in_the_order_given() {
    let pairs = json::with(json::with(json::fields(), "z", Json::Null), "a\n", json::text_value("\"é"));
    let text = json::render_pairs(pairs);
    assert_eq!(text, "{\"z\":null,\"a\\n\":\"\\\"é\"}");
    let read = json::parse(&text).unwrap();
    assert_eq!(read.get_str("a\n"), Some("\"é"));
    assert_eq!(json::render_pairs(json::fields()), "{}");
}

#[test]
fn the_first_value_ends_where_the_next_begins() {
    let (value, end) = json::read_first(b" [1] , 2").unwrap();
    assert_eq!(value.render(), "[1]");
    assert_eq!(end, 4);
    let (value, end) = json::read_first(b"12,").unwrap();
    assert_eq!(value.as_u64(), Some(12));
    assert_eq!(end, 2);
    assert!(json::read_first(b" ").is_none());
    assert!(json::read_first(b"[1").is_none());
}
