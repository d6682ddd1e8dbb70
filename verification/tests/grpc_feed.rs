use hl_md_latency_bench::content::{parse_bbo_content, same_content};
use hl_md_latency_bench::feed::{extract_time_ms, Event};
use hl_md_latency_bench::grpc_feed::{
    bbo_update_json, format_error_chain, run_grpc_feed, Action, BboBookUpdate, GrpcFeedConfig,
    GrpcRead, GrpcRun, GrpcSession, L2Level,
};
use hl_md_latency_bench::session::SessionEnd;

#[test]
fn grpc_update_json_matches_ws_content_key() {
    let update = BboBookUpdate {
        coin: "ETH".to_string(),
        time: 1783602275832,
        block_number: 42,
        bid: Some(L2Level {
            px: "1745.8".to_string(),
            sz: "128.6371".to_string(),
            n: 18,
        }),
        ask: Some(L2Level {
            px: "1745.9".to_string(),
            sz: "64.2003".to_string(),
            n: 24,
        }),
    };
    let json = bbo_update_json(&update);
    assert_eq!(extract_time_ms(&json), Some(1783602275832));

    let ws_msg = r#"{"channel":"bbo","data":{"coin":"ETH","time":1783602275832,"bid":{"px":"1745.8","sz":"128.6371","n":18},"ask":{"px":"1745.9","sz":"64.2003","n":24}}}"#;
    assert_eq!(parse_bbo_content(&json), parse_bbo_content(ws_msg));
    assert!(parse_bbo_content(&json).is_some());
}

#[test]
fn one_sided_update_renders_without_missing_side() {
    let update = BboBookUpdate {
        coin: "X".to_string(),
        time: 5,
        block_number: 1,
        bid: None,
        ask: Some(L2Level {
            px: "2".to_string(),
            sz: "3".to_string(),
            n: 1,
        }),
    };
    let key = parse_bbo_content(&bbo_update_json(&update)).unwrap();
    assert!(key.0.is_none());
    assert!(key.1.is_some());
}

#[test]
fn an_update_in_full() {
    let update = BboBookUpdate {
        coin: "BTC".to_string(),
        time: 12,
        block_number: 7,
        bid: Some(L2Level {
            px: "1".to_string(),
            sz: "2".to_string(),
            n: 30,
        }),
        ask: None,
    };
    assert_eq!(
        bbo_update_json(&update),
        r#"{"channel":"bbo","data":{"coin":"BTC","time":12,"bid":{"px":"1","sz":"2","n":30}}}"#
    );
}

#[test]
fn the_official_format_says_the_same() {
    let official = r#"{"channel":"bbo","data":{"coin":"HYPE","time":1,"bbo":[{"px":"41.485","sz":"70.0","n":1},{"px":"41.487","sz":"25.25","n":1}]}}"#;
    let node = r#"{"channel":"bbo","data":{"coin":"HYPE","time":1,"bid":{"px":"41.485","sz":"70","n":1},"ask":{"px":"41.4870","sz":"25.25","n":1}}}"#;
    let other = r#"{"channel":"bbo","data":{"coin":"HYPE","time":1,"bid":{"px":"41.485","sz":"70","n":2},"ask":{"px":"41.487","sz":"25.25","n":1}}}"#;
    let a = parse_bbo_content(official).unwrap();
    let b = parse_bbo_content(node).unwrap();
    let c = parse_bbo_content(other).unwrap();
    assert!(same_content(&a, &b));
    assert_eq!(a, b);
    assert!(!same_content(&a, &c));
    assert!(parse_bbo_content(r#"{"channel":"pong"}"#).is_none());
}

#[test]
fn causes_are_told_once() {
    let causes = vec![
        "".to_string(),
        "tcp connect error".to_string(),
        "transport error".to_string(),
        "connection refused".to_string(),
    ];
    assert_eq!(
        format_error_chain("transport error", &causes),
        "transport error: tcp connect error: connection refused"
    );
    assert_eq!(format_error_chain("alone", &vec![]), "alone");
    assert_eq!(
        format_error_chain("", &vec!["cause".to_string()]),
        ": cause"
    );
}

fn update(time: u64) -> BboBookUpdate {
    BboBookUpdate {
        coin: "ETH".to_string(),
        time,
        block_number: 0,
        bid: None,
        ask: None,
    }
}

#[test]
fn the_first_update_subscribes() {
    let mut session = GrpcSession::new();
    let turn = session.on_read(1, 50, GrpcRead::Update(update(9)));
    assert!(matches!(turn.notice, Some(Event::Subscribed { feed: 1 })));
    match turn.sample {
        Some(Event::Sample {
            feed,
            time_ms,
            local_ns,
            text,
        }) => {
            assert_eq!((feed, time_ms, local_ns), (1, 9, 50));
            assert_eq!(text, bbo_update_json(&update(9)));
        }
        other => panic!("unexpected {other:?}"),
    }
    assert!(turn.end.is_none());
    let turn = session.on_read(1, 51, GrpcRead::Update(update(10)));
    assert!(turn.notice.is_none());
    assert!(turn.sample.is_some());
}

#[test]
fn a_stream_without_data_fails() {
    let sec: u128 = 1_000_000_000;
    let mut session = GrpcSession::new();
    let turn = session.on_read(0, 1, GrpcRead::Timeout { waited_ns: 15 * sec });
    assert!(turn.end.is_none());
    let turn = session.on_read(
        0,
        1,
        GrpcRead::Timeout {
            waited_ns: 15 * sec + 1,
        },
    );
    assert!(matches!(turn.end, Some(Err(reason)) if reason == "no bbo data within 15s"));
    let turn = session.on_read(0, 1, GrpcRead::End);
    assert!(matches!(turn.end, Some(Err(reason)) if reason == "stream ended before any data"));
    let turn = session.on_read(
        0,
        1,
        GrpcRead::Failed {
            first: "status: Unauthenticated".to_string(),
            causes: vec!["bad token".to_string()],
        },
    );
    assert!(
        matches!(turn.end, Some(Err(reason)) if reason == "stream error: status: Unauthenticated: bad token")
    );
}

#[test]
fn a_stream_with_data_is_lost() {
    let mut session = GrpcSession { subscribed: true };
    let turn = session.on_read(
        0,
        1,
        GrpcRead::Timeout {
            waited_ns: u128::MAX,
        },
    );
    assert!(turn.end.is_none());
    let turn = session.on_read(0, 1, GrpcRead::End);
    assert!(
        matches!(turn.end, Some(Ok(SessionEnd::Lost(reason))) if reason == "stream ended by server")
    );
    let turn = session.on_read(
        0,
        1,
        GrpcRead::Failed {
            first: "reset".to_string(),
            causes: vec![],
        },
    );
    assert!(
        matches!(turn.end, Some(Ok(SessionEnd::Lost(reason))) if reason == "stream error: reset")
    );
}

fn config(endpoints: &[&str], tokens: &[&str]) -> GrpcFeedConfig {
    GrpcFeedConfig {
        name: "quicknode",
        endpoints: endpoints.iter().map(|s| s.to_string()).collect(),
        tokens: tokens.iter().map(|s| s.to_string()).collect(),
    }
}

fn tried(action: &Action) -> (usize, usize) {
    match action {
        Action::Try { endpoint, token } => (*endpoint, *token),
        other => panic!("unexpected {other:?}"),
    }
}

#[test]
fn every_pair_is_tried_in_each_of_three_rounds() {
    let cfg = config(&["https://a", "https://b"], &["x", "y", "z"]);
    let mut run = GrpcRun::new();
    for round in 1..=3 {
        let mut action = run.begin(4, &cfg);
        for k in 0..6 {
            assert_eq!(tried(&action), (k / 3, k % 3));
            action = run_grpc_feed(4, &cfg, &mut run, Err(format!("r{round}k{k}")));
        }
        match action {
            Action::Rest(step) if round < 3 => {
                assert!(step.event.is_none());
                assert_eq!(step.sleep_secs, Some(2));
            }
            Action::Rest(step) => {
                assert_eq!(step.sleep_secs, None);
                match step.event {
                    Some(Event::Unavailable { feed, reason }) => {
                        assert_eq!(feed, 4);
                        assert_eq!(reason, "https://b: r3k5");
                    }
                    other => panic!("unexpected {other:?}"),
                }
            }
            other => panic!("unexpected {other:?}"),
        }
    }
}

#[test]
fn the_first_pair_that_streams_is_kept() {
    let cfg = config(&["https://a", "https://b"], &["x", "y"]);
    let mut run = GrpcRun::new();
    assert_eq!(tried(&run.begin(0, &cfg)), (0, 0));
    let action = run_grpc_feed(0, &cfg, &mut run, Err("no".to_string()));
    assert_eq!(tried(&action), (0, 1));
    let action = run_grpc_feed(0, &cfg, &mut run, Ok(SessionEnd::Lost("gone".to_string())));
    match action {
        Action::Rest(step) => {
            assert!(matches!(step.event, Some(Event::Disconnect { feed: 0 })));
            assert_eq!(step.sleep_secs, Some(1));
        }
        other => panic!("unexpected {other:?}"),
    }
    assert_eq!(run.working, Some((0, 1)));
    for expected in [2, 4, 8, 16, 30, 30] {
        assert_eq!(tried(&run.begin(0, &cfg)), (0, 1));
        match run_grpc_feed(0, &cfg, &mut run, Err("down".to_string())) {
            Action::Rest(step) => {
                assert!(step.event.is_none());
                assert_eq!(step.sleep_secs, Some(expected));
            }
            other => panic!("unexpected {other:?}"),
        }
    }
}

#[test]
fn a_stopped_session_ends_the_grpc_feed() {
    let cfg = config(&["https://a"], &["x"]);
    let mut run = GrpcRun::new();
    run.begin(0, &cfg);
    match run_grpc_feed(0, &cfg, &mut run, Ok(SessionEnd::Stopped)) {
        Action::Rest(step) => {
            assert!(step.event.is_none());
            assert_eq!(step.sleep_secs, None);
        }
        other => panic!("unexpected {other:?}"),
    }
}

#[test]
fn without_candidates_every_round_fails() {
    let cfg = config(&[], &["x"]);
    let mut run = GrpcRun::new();
    for round in 1..=3 {
        match run.begin(1, &cfg) {
            Action::Rest(step) if round < 3 => assert_eq!(step.sleep_secs, Some(2)),
            Action::Rest(step) => match step.event {
                Some(Event::Unavailable { feed, reason }) => {
                    assert_eq!(feed, 1);
                    assert_eq!(reason, "no endpoint/token candidates");
                }
                other => panic!("unexpected {other:?}"),
            },
            other => panic!("unexpected {other:?}"),
        }
    }
}
