use argus_polymarket_db::database::{Snapshot, DB_FORMAT_VERSION};
use argus_polymarket_db::mesh_sync::{self, Attempts, PeerInfo, PullError};
use argus_polymarket_db::p2p_db_server::{self, ControlStep, PullAction, PullEvent, PullState};
use argus_polymarket_db::tailnet_fns;
use argus_polymarket_db::transfer::{self, ReceiveError};

fn snapshot_and_log() -> (Snapshot, Vec<u8>) {
    let log = b"{\"__apdb_meta__\":true,\"built_at_unix\":1755000000,\"format_version\":1}\n{\"ticker\":\"mesh-sync-smoke-test\"}\n{\"ticker\":\"b\"}\n".to_vec();
    (Snapshot::from_file(&log, 1), log)
}

fn reply(step: ControlStep) -> String {
    match step {
        ControlStep::Reply(line) => line,
        _ => panic!("no reply"),
    }
}

#[test]
fn a_database_travels_between_instances() {
    let (snapshot, log) = snapshot_and_log();
    let answer = reply(p2p_db_server::handle_control_line(
        &snapshot,
        &format!("{}\n", mesh_sync::DB_INFO_REQUEST),
    ));
    assert_eq!(
        mesh_sync::peer_db_info(&format!("{answer}\n")),
        Some((1_755_000_000, DB_FORMAT_VERSION))
    );
    assert!(matches!(
        p2p_db_server::handle_control_line(&snapshot, &format!("{}\n", mesh_sync::PULL_REQUEST)),
        ControlStep::Pull
    ));

    let (state, action) = p2p_db_server::handle_request_pull(PullState::Locking, PullEvent::Locked, "100.64.1.2");
    assert!(matches!(action, PullAction::Bind));
    let (state, action) = p2p_db_server::handle_request_pull(state, PullEvent::Bound, "100.64.1.2");
    match action {
        PullAction::Invite(line) => {
            assert_eq!(line, "{\"ok\":true}");
            assert!(mesh_sync::pull_response(&format!("{line}\n")).is_ok());
        }
        _ => panic!("no invitation"),
    }
    let (state, action) = p2p_db_server::handle_request_pull(
        state,
        PullEvent::Connected("100.64.1.2".to_string()),
        "100.64.1.2",
    );
    assert!(matches!(action, PullAction::Send));

    let stream = transfer::send_log(&log);
    assert!(stream != log);
    let (received, loaded) = transfer::receive_log(&stream, 99).unwrap();
    assert_eq!(received, log);
    assert_eq!(loaded.lines, snapshot.lines);
    assert_eq!(loaded.built_at_unix, 1_755_000_000);
    assert!(loaded.find("mesh-sync-smoke-test").is_some());

    let (state, action) = p2p_db_server::handle_request_pull(state, PullEvent::Done, "100.64.1.2");
    assert_eq!(state, PullState::Finished);
    assert!(matches!(action, PullAction::Stop));
}

#[test]
fn a_second_requester_is_told_that_the_first_is_served() {
    let (state, action) = p2p_db_server::handle_request_pull(PullState::Locking, PullEvent::Busy, "x");
    assert_eq!(state, PullState::Finished);
    match action {
        PullAction::Decline(line) => {
            assert_eq!(line, "{\"error\":\"busy\",\"ok\":false}");
            match mesh_sync::pull_response(&format!("{line}\n")) {
                Err(e) => assert_eq!(e.message(), "peer declined pull: busy"),
                Ok(_) => panic!("not declined"),
            }
        }
        _ => panic!("not declined"),
    }
}

#[test]
fn a_port_that_cannot_be_opened_is_reported() {
    let event = PullEvent::BindFailed("Address already in use".to_string());
    let (state, action) = p2p_db_server::handle_request_pull(PullState::Binding, event, "x");
    assert_eq!(state, PullState::Finished);
    match action {
        PullAction::Decline(line) => {
            assert_eq!(line, "{\"error\":\"bind_failed: Address already in use\",\"ok\":false}");
        }
        _ => panic!("not declined"),
    }
}

#[test]
fn only_the_requester_is_served() {
    let event = PullEvent::Connected("100.64.9.9".to_string());
    let (state, action) = p2p_db_server::handle_request_pull(PullState::Accepting, event, "100.64.1.2");
    assert_eq!(state, PullState::Accepting);
    assert!(matches!(action, PullAction::Refuse));
    let event = PullEvent::NobodyYet { past_deadline: false };
    let (state, action) = p2p_db_server::handle_request_pull(state, event, "100.64.1.2");
    assert_eq!(state, PullState::Accepting);
    assert!(matches!(action, PullAction::Wait));
    let event = PullEvent::NobodyYet { past_deadline: true };
    let (end, action) = p2p_db_server::handle_request_pull(state, event, "100.64.1.2");
    assert_eq!(end, PullState::Finished);
    assert!(matches!(action, PullAction::Stop));
    let (end, action) = p2p_db_server::handle_request_pull(state, PullEvent::AcceptFailed, "100.64.1.2");
    assert_eq!(end, PullState::Finished);
    assert!(matches!(action, PullAction::Stop));
}

#[test]
fn control_lines_are_answered() {
    let (snapshot, _) = snapshot_and_log();
    let handle = |line: &str| p2p_db_server::handle_control_line(&snapshot, line);
    assert!(matches!(handle("\n"), ControlStep::Ignore));
    assert!(matches!(handle("\r\n"), ControlStep::Ignore));
    match handle("{\"op\":\"db_info\"}") {
        ControlStep::ReplyAndClose(line) => {
            assert_eq!(line, "{\"error\":\"line_too_long\",\"ok\":false}");
        }
        _ => panic!("the line is too long"),
    }
    assert_eq!(reply(handle("{\"op\":\"x\"}\n")), "{\"error\":\"unknown_op: x\",\"ok\":false}");
    assert_eq!(reply(handle("[]\n")), "{\"error\":\"unknown_op: \",\"ok\":false}");
    assert_eq!(
        reply(handle("{\n")),
        "{\"error\":\"bad_request: EOF while parsing an object at line 1 column 1\",\"ok\":false}"
    );
    assert_eq!(
        reply(handle("{\"op\":\"db_info\"}\r\n")),
        "{\"ok\":true,\"result\":{\"built_at_unix\":1755000000,\"db_format_version\":1,\"lines\":2,\"major\":1,\"minor\":5,\"patch\":0,\"version\":\"1.5.0\"}}"
    );
    assert_eq!(p2p_db_server::response_line(None), "{\"ok\":true}");
}

#[test]
fn odd_answers_about_a_database_are_no_answers() {
    let good = "{\"ok\":true,\"result\":{\"built_at_unix\":5,\"db_format_version\":4294967297}}\n";
    assert_eq!(mesh_sync::peer_db_info(good), Some((5, 1)));
    for line in [
        "",
        "{\"ok\":true,\"result\":{\"built_at_unix\":5,\"db_format_version\":1}}",
        "nonsense\n",
        "{\"ok\":false,\"result\":{\"built_at_unix\":5,\"db_format_version\":1}}\n",
        "{\"ok\":true}\n",
        "{\"ok\":true,\"result\":{\"built_at_unix\":5}}\n",
        "{\"ok\":true,\"result\":{\"built_at_unix\":-5,\"db_format_version\":1}}\n",
        "{\"ok\":true,\"result\":{\"built_at_unix\":\"5\",\"db_format_version\":1}}\n",
    ] {
        assert_eq!(mesh_sync::peer_db_info(line), None, "{line}");
    }
}

#[test]
fn answers_to_a_pull() {
    assert!(matches!(mesh_sync::pull_response("{\"ok\":true}"), Err(PullError::Truncated)));
    assert_eq!(
        PullError::Truncated.message(),
        "response line too long or truncated"
    );
    match mesh_sync::pull_response("?\n") {
        Err(e) => assert_eq!(e.message(), "malformed response: expected value at line 1 column 1"),
        Ok(_) => panic!("malformed"),
    }
    match mesh_sync::pull_response("{\"ok\":1}\n") {
        Err(e) => assert_eq!(e.message(), "peer declined pull: unknown"),
        Ok(_) => panic!("declined"),
    }
    assert!(mesh_sync::pull_response("  {\"ok\":true} \r\n").is_ok());
}

fn peer(ip: &str, built_at_unix: u64, format_version: u32) -> PeerInfo {
    PeerInfo { ip: ip.to_string(), built_at_unix, format_version }
}

#[test]
fn the_freshest_usable_peer_comes_first() {
    let peers = vec![
        peer("a", 900, 1),
        peer("b", 990, 0),
        peer("c", 950, 1),
        peer("d", 700, 1),
        peer("e", 950, 1),
        peer("f", 2000, 1),
        peer("g", 701, 1),
    ];
    let mut attempts = Attempts::new(mesh_sync::candidates(peers, 1000, 300));
    let mut order = Vec::new();
    while let Some(candidate) = attempts.next_candidate() {
        order.push((candidate.ip, candidate.built_at_unix));
    }
    let expected: Vec<(String, u64)> = [("f", 2000), ("c", 950), ("e", 950), ("a", 900), ("g", 701)]
        .iter()
        .map(|(ip, at)| (ip.to_string(), *at))
        .collect();
    assert_eq!(order, expected);
    assert!(attempts.next_candidate().is_none());
}

#[test]
fn a_damaged_stream_is_refused() {
    let (_, log) = snapshot_and_log();
    let stream = transfer::send_log(&log);
    assert!(matches!(
        transfer::receive_log(&stream[..stream.len() - 1], 0),
        Err(ReceiveError::Damaged(_))
    ));
    let mut flipped = stream.clone();
    let last = flipped.len() - 5;
    flipped[last] ^= 1;
    assert!(matches!(transfer::receive_log(&flipped, 0), Err(ReceiveError::Damaged(_))));
    assert!(matches!(transfer::receive_log(b"plain text", 0), Err(ReceiveError::Damaged(_))));
    match transfer::receive_log(b"", 0) {
        Err(ReceiveError::Damaged(_)) => {}
        _ => panic!("an empty stream holds no log"),
    }
}

#[test]
fn a_bad_line_does_not_spoil_a_transfer() {
    let log = b"\xff\xfe\n{\"ticker\":\"a\"}\n{\"ticker\":\"\xc3";
    let (received, snapshot) = transfer::receive_log(&transfer::send_log(log), 3).unwrap();
    assert_eq!(received, log);
    assert_eq!(snapshot.lines, 1);
    assert!(snapshot.find("a").is_some());
    let stream = transfer::send_log(b"");
    let (log, snapshot) = transfer::receive_log(&stream, 3).unwrap();
    assert!(log.is_empty());
    assert_eq!(snapshot.built_at_unix, 3);
}

#[test]
fn what_one_instance_answers_another_understands() {
    let (snapshot, _) = snapshot_and_log();
    let line = reply(p2p_db_server::handle_control_line(&snapshot, "{\"op\":\"db_info\"}\n"));
    assert_eq!(mesh_sync::peer_db_info(&format!("{line}\n")), Some((1_755_000_000, 1)));
    let invitation = p2p_db_server::response_line(None);
    assert!(mesh_sync::pull_response(&format!("{invitation}\n")).is_ok());
    let refusal = p2p_db_server::response_line(Some("a \"b\"\nc"));
    match mesh_sync::pull_response(&format!("{refusal}\n")) {
        Err(PullError::Declined(reason)) => assert_eq!(reason, "a \"b\"\nc"),
        _ => panic!("declined"),
    }
}

#[test]
fn test_get_my_address() {
    assert_eq!(tailnet_fns::my_address_in("100.64.1.2\n"), "100.64.1.2");
    assert_eq!(tailnet_fns::my_address_in(" \n"), "");
}

#[test]
fn test_tailscale_status() {
    assert!(tailnet_fns::get_peers("", None).is_err());
    assert!(tailnet_fns::get_peers("not logged in", None).is_err());
    assert_eq!(tailnet_fns::get_peers("{}", None), Ok(vec![]));
    assert_eq!(tailnet_fns::get_peers("{\"Peer\":null}", None), Ok(vec![]));
    assert_eq!(tailnet_fns::get_peers("{\"Peer\":[]}", None), Ok(vec![]));
}

#[test]
fn test_get_peers() {
    let status = r#"{"Self":{},"Peer":{
        "k2":{"HostName":"two","AllowedIPs":["100.64.0.2/32","fd7a::2/128"]},
        "k1":{"HostName":"one","AllowedIPs":["100.64.0.1/32"]},
        "k3":{"HostName":"funnel-ingress-node","AllowedIPs":["100.64.0.3/32"]},
        "k4":{"HostName":"localhost","AllowedIPs":["100.64.0.4/32"]},
        "k5":{"HostName":"ip-172-31-20-232","AllowedIPs":["100.64.0.5/32"]},
        "k6":{"HostName":"me","AllowedIPs":["100.64.0.6/32"]},
        "k7":{"HostName":"many","AllowedIPs":["100.64.0.7/32","100.64.0.8/32"]},
        "k8":{"HostName":"none","AllowedIPs":["10.0.0.0/8"]},
        "k9":{"AllowedIPs":["100.64.0.9/32"]},
        "l1":{"HostName":"no-ips"},
        "l2":{"HostName":"odd","AllowedIPs":[5,"100.64.0.12/32"]},
        "l3":"text"
    }}"#;
    let peers = tailnet_fns::get_peers(status, Some("100.64.0.6"));
    match peers {
        Ok(peers_vec) => {
            if peers_vec.len() == 0 {
                panic!("No peers found");
            }
            assert_eq!(peers_vec, vec!["100.64.0.1", "100.64.0.2", "100.64.0.12"]);
        }
        Err(_) => {
            panic!("Failed to get peers");
        }
    }
    let peers = tailnet_fns::get_peers(status, None).unwrap();
    assert!(peers.contains(&"100.64.0.6".to_string()));
}
