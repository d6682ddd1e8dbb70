use hl_md_latency_bench::feed::{
    extract_time_ms, run_feed, subscribe_message, Event, Read, Session, Tick, PING_MSG,
};
use hl_md_latency_bench::retry::Retry;
use hl_md_latency_bench::session::SessionEnd;

#[test]
fn extracts_time_from_official_format() {
    let msg = r#"{"channel":"bbo","data":{"coin":"HYPE","time":1763470097148,"bbo":[{"px":"41.485","sz":"70.0","n":1},{"px":"41.487","sz":"25.25","n":1}]}}"#;
    assert_eq!(extract_time_ms(msg), Some(1763470097148));
}

#[test]
fn extracts_time_from_node_format() {
    let msg = r#"{"channel":"bbo","data":{"coin":"ETH","time":1783602275832,"bid":{"px":"1745.8","sz":"128.6371","n":18},"ask":{"px":"1745.9","sz":"64.2003","n":24}}}"#;
    assert_eq!(extract_time_ms(msg), Some(1783602275832));
}

#[test]
fn missing_time_returns_none() {
    assert_eq!(extract_time_ms(r#"{"channel":"pong"}"#), None);
    assert_eq!(extract_time_ms(r#"{"data":{"time":}}"#), None);
}

#[test]
fn time_may_stand_behind_blanks() {
    assert_eq!(extract_time_ms(r#"{"time":   42,"time":7}"#), Some(42));
    assert_eq!(extract_time_ms(r#"{"time":42"#), Some(42));
}

#[test]
fn time_must_fit() {
    assert_eq!(
        extract_time_ms(r#"{"time":18446744073709551615}"#),
        Some(u64::MAX)
    );
    assert_eq!(extract_time_ms(r#"{"time":18446744073709551616}"#), None);
    assert_eq!(extract_time_ms(r#"{"time":"5"}"#), None);
    assert_eq!(extract_time_ms(r#"{"time":-5}"#), None);
    assert_eq!(extract_time_ms(""), None);
}

#[test]
fn only_the_first_time_counts() {
    assert_eq!(extract_time_ms(r#"{"time":x,"time":7}"#), None);
}

#[test]
fn messages_to_the_server() {
    assert_eq!(
        subscribe_message("ETH"),
        r#"{"method":"subscribe","subscription":{"type":"bbo","coin":"ETH"}}"#
    );
    assert_eq!(PING_MSG, r#"{"method":"ping"}"#);
}

#[test]
fn gives_up_after_three_initial_failures() {
    let mut run = Retry::new();
    let step = run_feed(2, &mut run, Err("one".to_string()));
    assert!(step.event.is_none());
    assert_eq!(step.sleep_secs, Some(2));
    let step = run_feed(2, &mut run, Err("two".to_string()));
    assert!(step.event.is_none());
    assert_eq!(step.sleep_secs, Some(2));
    let step = run_feed(2, &mut run, Err("three".to_string()));
    assert_eq!(step.sleep_secs, None);
    match step.event {
        Some(Event::Unavailable { feed, reason }) => {
            assert_eq!(feed, 2);
            assert_eq!(reason, "three");
        }
        other => panic!("unexpected {other:?}"),
    }
}

#[test]
fn pauses_double_after_a_lost_connection() {
    let mut run = Retry::new();
    let step = run_feed(0, &mut run, Ok(SessionEnd::Lost("gone".to_string())));
    assert!(matches!(step.event, Some(Event::Disconnect { feed: 0 })));
    assert_eq!(step.sleep_secs, Some(1));
    for expected in [2, 4, 8, 16, 30, 30, 30] {
        let step = run_feed(0, &mut run, Err("down".to_string()));
        assert!(step.event.is_none());
        assert_eq!(step.sleep_secs, Some(expected));
    }
    let step = run_feed(0, &mut run, Ok(SessionEnd::Lost("gone".to_string())));
    assert_eq!(step.sleep_secs, Some(1));
    let step = run_feed(0, &mut run, Err("down".to_string()));
    assert_eq!(step.sleep_secs, Some(2));
}

#[test]
fn a_stopped_session_ends_the_feed() {
    let mut run = Retry::new();
    let step = run_feed(0, &mut run, Ok(SessionEnd::Stopped));
    assert!(step.event.is_none());
    assert_eq!(step.sleep_secs, None);
}

fn bbo(time: u64) -> String {
    format!(r#"{{"channel":"bbo","data":{{"coin":"ETH","time":{time},"bbo":[null,null]}}}}"#)
}

#[test]
fn the_first_message_subscribes_and_gives_a_sample() {
    let mut session = Session::new();
    let turn = session.on_read(3, 99, Read::Text(bbo(7)));
    assert!(matches!(turn.notice, Some(Event::Subscribed { feed: 3 })));
    match turn.sample {
        Some(Event::Sample {
            feed,
            time_ms,
            local_ns,
            text,
        }) => {
            assert_eq!((feed, time_ms, local_ns), (3, 7, 99));
            assert_eq!(text, bbo(7));
        }
        other => panic!("unexpected {other:?}"),
    }
    assert!(turn.end.is_none());
    let turn = session.on_read(3, 100, Read::Text(bbo(8)));
    assert!(turn.notice.is_none());
    assert!(turn.sample.is_some());
}

#[test]
fn a_message_without_time_gives_no_sample() {
    let mut session = Session::new();
    let turn = session.on_read(0, 1, Read::Text(r#"{"channel":"bbo","data":{}}"#.to_string()));
    assert!(turn.notice.is_some());
    assert!(turn.sample.is_none());
    assert!(turn.end.is_none());
    assert!(session.subscribed);
}

#[test]
fn a_confirmation_subscribes_once() {
    let confirmation = r#"{"channel":"subscriptionResponse","data":{}}"#;
    let mut session = Session::new();
    let turn = session.on_read(1, 1, Read::Text(confirmation.to_string()));
    assert!(matches!(turn.notice, Some(Event::Subscribed { feed: 1 })));
    assert!(turn.sample.is_none());
    let turn = session.on_read(1, 2, Read::Text(confirmation.to_string()));
    assert!(turn.notice.is_none());
    let turn = session.on_read(1, 3, Read::Text(bbo(1)));
    assert!(turn.notice.is_none());
    assert!(turn.sample.is_some());
}

#[test]
fn an_error_message_rejects_only_before_the_subscription() {
    let error = r#"{"channel":"error","data":"no such coin"}"#;
    let mut session = Session::new();
    let turn = session.on_read(0, 1, Read::Text(error.to_string()));
    match turn.end {
        Some(Err(reason)) => assert_eq!(reason, format!("subscription rejected: {error}")),
        other => panic!("unexpected {other:?}"),
    }
    let mut session = Session { subscribed: true };
    let turn = session.on_read(0, 1, Read::Text(error.to_string()));
    assert!(turn.end.is_none());
    assert!(turn.notice.is_none());
    assert!(turn.sample.is_none());
}

#[test]
fn other_messages_are_ignored() {
    let mut session = Session::new();
    for read in [
        Read::Text(r#"{"channel":"pong"}"#.to_string()),
        Read::Other,
        Read::Timeout,
    ] {
        let turn = session.on_read(0, 1, read);
        assert!(turn.notice.is_none() && turn.sample.is_none() && turn.end.is_none());
        assert!(!session.subscribed);
    }
}

#[test]
fn a_fault_fails_or_loses_the_session() {
    let mut session = Session::new();
    let turn = session.on_read(0, 1, Read::Failed("reset".to_string()));
    assert!(matches!(turn.end, Some(Err(reason)) if reason == "reset"));
    let mut session = Session { subscribed: true };
    let turn = session.on_read(0, 1, Read::Failed("reset".to_string()));
    assert!(matches!(turn.end, Some(Ok(SessionEnd::Lost(reason))) if reason == "reset"));
}

#[test]
fn deadlines_of_a_session() {
    let sec: u128 = 1_000_000_000;
    let waiting = Session { subscribed: false };
    assert!(matches!(waiting.on_clock(15 * sec, 0), Tick::Wait));
    match waiting.on_clock(15 * sec + 1, 40 * sec) {
        Tick::Fail(reason) => {
            assert_eq!(reason, "no subscription confirmation or bbo data within 15s")
        }
        other => panic!("unexpected {other:?}"),
    }
    let running = Session { subscribed: true };
    assert!(matches!(running.on_clock(100 * sec, 30 * sec - 1), Tick::Wait));
    assert!(matches!(running.on_clock(100 * sec, 30 * sec), Tick::Ping));
}

#[test]
fn a_failed_ping_fails_or_loses_the_session() {
    let waiting = Session { subscribed: false };
    assert!(
        matches!(waiting.on_ping_failed("broken pipe"), Err(reason) if reason == "ping send failed: broken pipe")
    );
    let running = Session { subscribed: true };
    assert!(
        matches!(running.on_ping_failed("broken pipe"), Ok(SessionEnd::Lost(reason)) if reason == "ping send failed: broken pipe")
    );
}

#[test]
fn only_the_number_behind_the_key_is_read() {
    for (pre, post) in [("", ""), ("{\"x\":1,", ",\"time\":9}"), ("é", " 5"), ("time", "x")] {
        assert_eq!(
            extract_time_ms(&format!("{pre}\"time\":120{post}")),
            Some(120)
        );
    }
}
