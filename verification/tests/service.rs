use argus_polymarket_db::boot::{self, BootPlan};
use argus_polymarket_db::database::Snapshot;
use argus_polymarket_db::proxy;
use argus_polymarket_db::server::{self, BindPlan};
use argus_polymarket_db::version;
use serde_json::Value;

#[test]
fn parses_embedded_versionx_json() {
    let (major, _minor, _patch) = version::version_tuple();
    assert!(major >= 1);
    assert!(version::version_string().split('.').count() == 3);
}

#[test]
fn the_version_is_the_same_everywhere() {
    assert_eq!(version::version_tuple(), (1, 5, 0));
    assert_eq!(version::version_string(), "1.5.0");
    assert_eq!(boot::version_line(), "Argus Polymarket Database v1.5.0");
}

#[test]
fn end_to_end_request_response() {
    let log = b"{\"ticker\":\"hello-world\"}\n".to_vec();
    let snap = Snapshot::from_file(&log, 0);
    let response = server::respond(&snap, &log, "{\"op\":\"get_event\",\"ticker\":\"hello-world\"}\n").unwrap();
    assert!(response.ends_with('\n'));
    let v: Value = serde_json::from_str(response.trim_end()).unwrap();
    assert_eq!(v["result"]["event"]["ticker"], "hello-world");
}

#[test]
fn blank_lines_are_ignored_and_bad_ones_answered() {
    let snap = Snapshot::from_file(b"", 0);
    assert!(server::respond(&snap, b"", "\n").is_none());
    assert!(server::respond(&snap, b"", "\r\n").is_none());
    assert!(server::respond(&snap, b"", "").is_none());
    let response = server::respond(&snap, b"", "nonsense\r\n").unwrap();
    let v: Value = serde_json::from_str(&response).unwrap();
    assert_eq!(v["ok"], false);
    assert_eq!(server::request_in("{}\r\n"), Some("{}"));
    assert_eq!(server::request_in("{}"), Some("{}"));
    assert_eq!(server::request_in(" \n"), Some(" "));
}

#[test]
fn bind_refuses_to_steal_a_live_socket() {
    assert_eq!(server::bind(true, true), BindPlan::InUse);
    assert_eq!(server::bind(true, false), BindPlan::InUse);
    assert_eq!(
        server::in_use_message("/tmp/a.sock"),
        "another APDB instance is already listening on /tmp/a.sock"
    );
}

#[test]
fn bind_cleans_up_a_stale_socket_file() {
    assert_eq!(server::bind(false, true), BindPlan::ReplaceStale);
    assert_eq!(server::bind(false, false), BindPlan::Bind);
}

#[test]
fn proxy_addrs_test() {
    let addrs = proxy::proxy_addrs("", false);
    for addr in &addrs {
        println!("{}", addr);
    }
    assert_eq!(addrs, vec!["null", "", "null"]);
}

#[test]
fn find_proxy_addr_test() {
    let proxy_addrs = proxy::proxy_addrs("socks5://a:1,socks5://b:2", false);
    assert_eq!(proxy_addrs, vec!["null", "socks5://a:1", "socks5://b:2", "null"]);
    let found = proxy::find_proxy_addr(proxy_addrs.into_iter().nth(1), false).unwrap();
    assert_eq!(found, "socks5://a:1");
    assert_eq!(proxy::proxy_of(&found), Some("socks5://a:1"));
}

#[test]
fn find_proxy_addr_no_null() {
    let disabled = proxy::is_null_disabled(Some("true")).unwrap();
    let addrs = proxy::proxy_addrs("socks5://a:1,socks5://b:2", disabled);
    assert_eq!(addrs, vec!["socks5://a:1", "socks5://b:2"]);
    for first_answer in addrs.into_iter().map(Some).chain([None]) {
        let Some(found) = proxy::find_proxy_addr(first_answer, disabled) else {
            continue;
        };
        if proxy::proxy_of(&found).is_none() {
            // this is an error
            assert!(false);
        }
    }
}

#[test]
fn a_listed_direct_path_is_switched_off_too() {
    assert_eq!(proxy::proxy_addrs("null,socks5://a:1,null", true), vec!["socks5://a:1"]);
    assert!(proxy::proxy_addrs("null", true).is_empty());
    assert_eq!(proxy::proxy_addrs("a,null", false), vec!["null", "a", "null", "null"]);
}

#[test]
fn no_answer_means_the_direct_path() {
    assert_eq!(proxy::find_proxy_addr(None, false).as_deref(), Some("null"));
    assert_eq!(proxy::find_proxy_addr(None, true), None);
    assert_eq!(proxy::proxy_of("null"), None);
}

#[test]
fn the_direct_path_is_switched_by_true_and_false_only() {
    assert_eq!(proxy::is_null_disabled(None), Some(false));
    assert_eq!(proxy::is_null_disabled(Some("false")), Some(false));
    assert_eq!(proxy::is_null_disabled(Some("true")), Some(true));
    assert_eq!(proxy::is_null_disabled(Some("1")), None);
    assert_eq!(proxy::is_null_disabled(Some("True")), None);
    assert_eq!(proxy::is_null_disabled(Some("")), None);
}

#[test]
fn durations_show_their_two_largest_units() {
    let cases = [
        (0, "0s"),
        (59, "59s"),
        (60, "1m0s"),
        (3599, "59m59s"),
        (3600, "1h0m"),
        (86399, "23h59m"),
        (86400, "1d0h"),
        (1_000_000, "11d13h"),
        (u64::MAX, "213503982334601d7h"),
    ];
    for (secs, text) in cases {
        assert_eq!(boot::format_duration(secs), text);
    }
}

#[test]
fn times_of_day() {
    assert_eq!(boot::now_hms_utc(0), "00:00:00");
    assert_eq!(boot::now_hms_utc(86399), "23:59:59");
    assert_eq!(boot::now_hms_utc(1_766_000_000), "19:33:20");
}

#[test]
fn settings_have_defaults() {
    assert_eq!(boot::refresh_interval_secs(None), 300);
    assert_eq!(boot::refresh_interval_secs(Some("6000")), 6000);
    assert_eq!(boot::refresh_interval_secs(Some("+7")), 7);
    assert_eq!(boot::refresh_interval_secs(Some("")), 300);
    assert_eq!(boot::refresh_interval_secs(Some("+")), 300);
    assert_eq!(boot::refresh_interval_secs(Some("-1")), 300);
    assert_eq!(boot::refresh_interval_secs(Some(" 5")), 300);
    assert_eq!(boot::refresh_interval_secs(Some("18446744073709551615")), u64::MAX);
    assert_eq!(boot::refresh_interval_secs(Some("18446744073709551616")), 300);
    assert_eq!(boot::env_or(None, "d"), "d");
    assert_eq!(boot::env_or(Some("v".to_string()), "d"), "v");
}

#[test]
fn the_version_flag_may_stand_anywhere() {
    let args = |list: &[&str]| -> Vec<String> { list.iter().map(|s| s.to_string()).collect() };
    assert!(boot::wants_version(&args(&["apdb", "--version"])));
    assert!(boot::wants_version(&args(&["apdb", "x", "--version", "y"])));
    assert!(!boot::wants_version(&args(&["apdb", "-v", "--versions"])));
    assert!(!boot::wants_version(&args(&[])));
}

#[test]
fn a_database_is_served_while_it_is_young() {
    assert_eq!(boot::plan_boot(Some(1000), 1299, 300), BootPlan::Serve { next_refresh_secs: 1 });
    assert_eq!(boot::plan_boot(Some(1000), 1300, 300), BootPlan::Replace);
    assert_eq!(boot::plan_boot(Some(2000), 1000, 300), BootPlan::Serve { next_refresh_secs: 300 });
    assert_eq!(boot::plan_boot(None, 1000, 300), BootPlan::Replace);
    assert_eq!(boot::plan_boot(Some(1000), 1000, 0), BootPlan::Replace);
    assert_eq!(boot::age_secs(1000, 1250), 250);
    assert_eq!(boot::delay_after_pull(1000, 1250, 300), 50);
    assert_eq!(boot::delay_after_pull(1000, 1500, 300), 0);
}
