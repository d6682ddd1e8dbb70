use hl_md_latency_bench::aggregator::{fresh_stats, heartbeat, run_aggregator};
use hl_md_latency_bench::clock::{
    difference_ns, latency_ns, measure_start_ns, measured_ns, realtime_ns,
};
use hl_md_latency_bench::compare::{compare, percentile_ns, sorted_numbers};
use hl_md_latency_bench::feed::Event;
use hl_md_latency_bench::ranking::{earliest, order_by_wins, rank};
use hl_md_latency_bench::stats::{apply_event, FeedStats};

#[test]
fn percentile_edges() {
    let sorted: Vec<i64> = (1..=100).collect();
    assert_eq!(percentile_ns(&sorted, 0), 1);
    assert_eq!(percentile_ns(&sorted, 50), 51); // round(0.5*99)=50 -> value 51
    assert_eq!(percentile_ns(&sorted, 100), 100);
    assert_eq!(percentile_ns(&[42], 99), 42);
}

#[test]
fn percentiles_as_floats_round_them() {
    let short_of_halves = [29u64, 35, 41, 47, 57, 58, 69, 70, 82, 94];
    for len in 1..400usize {
        let sorted: Vec<i64> = (0..len as i64).collect();
        for p in (0u64..=110).filter(|p| !short_of_halves.contains(p)) {
            let idx = ((p as f64 / 100.0) * (len - 1) as f64).round() as usize;
            assert_eq!(percentile_ns(&sorted, p), idx.min(len - 1) as i64);
        }
    }
    assert_eq!(percentile_ns(&[1, 2, 3], 1000), 3);
    assert_eq!((0.29f64 * 50.0).round(), 14.0);
}

#[test]
fn clocks() {
    assert_eq!(realtime_ns(1783602275, 832_000_001), 1783602275832000001);
    assert_eq!(measure_start_ns(7, 5), 5_000_000_007);
    assert_eq!(measured_ns(12, 10), 2);
    assert_eq!(measured_ns(12, 12), 0);
    assert_eq!(latency_ns(1783602275840000000, 1783602275832), 8_000_000);
    assert_eq!(latency_ns(1_000_000, 3), -2_000_000);
    assert_eq!(difference_ns(5, 9), -4);
    assert_eq!(difference_ns(u64::MAX, 0), -1);
}

#[test]
fn numbers_are_sorted() {
    assert_eq!(sorted_numbers(&vec![3, -1, 2, -1]), vec![-1, -1, 2, 3]);
    assert_eq!(sorted_numbers(&vec![]), Vec::<i64>::new());
}

fn message(time: u64, px: &str) -> String {
    format!(
        r#"{{"channel":"bbo","data":{{"coin":"ETH","time":{time},"bid":{{"px":"{px}","sz":"1","n":1}}}}}}"#
    )
}

fn sample(feed: usize, time_ms: u64, local_ns: u64, px: &str) -> Event {
    Event::Sample {
        feed,
        time_ms,
        local_ns,
        text: message(time_ms, px),
    }
}

#[test]
fn samples_are_counted_and_kept() {
    let mut stats = fresh_stats(&vec!["a", "b"]);
    assert!(!stats[0].available());
    apply_event(&mut stats, sample(0, 1, 99, "1"), 100);
    assert_eq!(stats[0].raw_msgs, 1);
    assert_eq!(stats[0].warmup_dropped, 1);
    assert!(!stats[0].available());
    apply_event(&mut stats, sample(0, 1, 100, "1"), 100);
    apply_event(&mut stats, sample(0, 1, 110, "1.0"), 100);
    apply_event(&mut stats, sample(0, 1, 120, "2"), 100);
    apply_event(&mut stats, sample(0, 2, 130, "2"), 100);
    let s = &stats[0];
    assert!(s.available());
    assert_eq!(s.raw_msgs, 5);
    assert_eq!(s.warmup_dropped, 1);
    assert_eq!(s.dup_msgs, 2);
    assert_eq!(s.latencies_ns, vec![100 - 1_000_000, 130 - 2_000_000]);
    assert_eq!(s.first_arrival.get(&1), Some(&100));
    assert_eq!(s.first_arrival.get(&2), Some(&130));
    assert_eq!(s.updates.len(), 3);
    assert_eq!(s.updates[1].local_ns, 120);
    assert_eq!(stats[1].raw_msgs, 0);
}

#[test]
fn arrivals_are_found_by_time_and_content() {
    let mut stats = fresh_stats(&vec!["a"]);
    apply_event(&mut stats, sample(0, 1, 100, "1.50"), 0);
    apply_event(&mut stats, sample(0, 1, 120, "2"), 0);
    let key = hl_md_latency_bench::content::parse_bbo_content(&message(9, "1.5")).unwrap();
    assert_eq!(stats[0].arrival_of(1, &key), Some(100));
    assert_eq!(stats[0].arrival_of(2, &key), None);
    let key = hl_md_latency_bench::content::parse_bbo_content(&message(9, "3")).unwrap();
    assert_eq!(stats[0].arrival_of(1, &key), None);
}

#[test]
fn other_events() {
    let mut stats = fresh_stats(&vec!["a", "b"]);
    apply_event(&mut stats, Event::Subscribed { feed: 1 }, 0);
    apply_event(&mut stats, Event::Disconnect { feed: 1 }, 0);
    apply_event(&mut stats, Event::Disconnect { feed: 1 }, 0);
    apply_event(&mut stats, sample(1, 1, 1, "1"), 0);
    assert!(stats[1].subscribed && !stats[0].subscribed);
    assert_eq!(stats[1].disconnects, 2);
    assert!(stats[1].available());
    apply_event(
        &mut stats,
        Event::Unavailable {
            feed: 1,
            reason: "down".to_string(),
        },
        0,
    );
    assert!(!stats[1].available());
    assert_eq!(stats[1].unavailable.as_deref(), Some("down"));
}

#[test]
fn the_aggregator_prints() {
    let mut stats = fresh_stats(&vec!["a", "b"]);
    let lines = run_aggregator(&mut stats, Some(sample(0, 1, 1, "1")), 0, 29_999_999_999, 30);
    assert!(lines.notice.is_none() && lines.heartbeat.is_none());
    let event = Event::Unavailable {
        feed: 1,
        reason: "down".to_string(),
    };
    let lines = run_aggregator(&mut stats, Some(event), 0, 30_000_000_000, 31);
    assert_eq!(
        lines.notice.as_deref(),
        Some("[bench] feed b unavailable: down")
    );
    assert_eq!(
        lines.heartbeat.as_deref(),
        Some("[bench] t+31s samples: a=1 b=unavailable")
    );
    let lines = run_aggregator(&mut stats, None, 0, 40_000_000_000, 71);
    assert!(lines.notice.is_none());
    assert_eq!(
        lines.heartbeat.as_deref(),
        Some("[bench] t+71s samples: a=1 b=unavailable")
    );
    assert_eq!(heartbeat(0, &vec![]), "[bench] t+0s samples: ");
}

fn feed(name: &'static str, arrivals: &[(u64, &str, u64)]) -> FeedStats {
    let mut stats = fresh_stats(&vec![name]);
    for (time_ms, px, local_ns) in arrivals {
        apply_event(&mut stats, sample(0, *time_ms, *local_ns, px), 0);
    }
    stats.pop().unwrap()
}

#[test]
fn two_feeds_compared() {
    let a = feed("a", &[(1, "1", 100), (2, "1", 200), (3, "1", 300), (4, "1", 400)]);
    let b = feed("b", &[(1, "1.0", 110), (2, "1", 150), (3, "1", 300), (5, "1", 9)]);
    let c = compare(&a, &b);
    assert_eq!(c.delays, vec![-50, 0, 10]);
    assert_eq!((c.a_wins, c.b_wins, c.ties), (1, 1, 1));
    let c = compare(&b, &a);
    assert_eq!(c.delays, vec![-10, 0, 50]);
    assert_eq!((c.a_wins, c.b_wins, c.ties), (1, 1, 1));
}

#[test]
fn an_update_counts_only_with_its_content() {
    // the second feed has an intermediate state first, which the first never shows
    let a = feed("a", &[(1, "2", 100)]);
    let b = feed("b", &[(1, "1", 50), (1, "2", 120)]);
    let c = compare(&a, &b);
    assert_eq!(c.delays, vec![20]);
    assert_eq!((c.a_wins, c.b_wins, c.ties), (1, 0, 0));
}

#[test]
fn a_shift_of_the_clock_changes_nothing() {
    let shift = 1_000_000_007;
    let a = feed("a", &[(1, "1", 100), (2, "1", 200)]);
    let b = feed("b", &[(1, "1", 90), (2, "1", 260)]);
    let a2 = feed("a", &[(1, "1", 100 + shift), (2, "1", 200 + shift)]);
    let b2 = feed("b", &[(1, "1", 90 + shift), (2, "1", 260 + shift)]);
    assert_eq!(compare(&a, &b).delays, compare(&a2, &b2).delays);
    assert_eq!(rank(&vec![&a, &b]).wins, rank(&vec![&a2, &b2]).wins);
}

#[test]
fn feeds_are_ranked() {
    let a = feed("a", &[(1, "1", 100), (2, "1", 200), (3, "1", 300), (4, "1", 1)]);
    let b = feed("b", &[(1, "1", 90), (2, "1", 200), (3, "1", 400)]);
    let c = feed("c", &[(3, "1", 299), (2, "1", 200), (1, "1", 91)]);
    let r = rank(&vec![&a, &b, &c]);
    assert_eq!(r.total, 3);
    assert_eq!(r.wins, vec![1, 1, 1]);
    assert_eq!(r.wins.iter().sum::<u64>(), r.total);
    let r = rank(&vec![&c, &b, &a]);
    assert_eq!(r.total, 3);
    assert_eq!(r.wins, vec![2, 1, 0]);
}

#[test]
fn the_first_of_the_smallest_is_the_earliest() {
    assert_eq!(earliest(&vec![3, 1, 2, 1]), 1);
    assert_eq!(earliest(&vec![3]), 0);
}

#[test]
fn more_wins_go_first() {
    assert_eq!(
        order_by_wins(&vec![1, 5, 1, 7]),
        vec![(3, 7), (1, 5), (0, 1), (2, 1)]
    );
    assert_eq!(order_by_wins(&vec![]), vec![]);
}

#[test]
fn other_feeds_leave_a_feed_alone() {
    let mut one = fresh_stats(&vec!["a", "b"]);
    let mut two = fresh_stats(&vec!["a", "b"]);
    for k in 1..10u64 {
        run_aggregator(&mut one, Some(sample(0, k / 2, 100 * k, "1")), 300, 0, 0);
        run_aggregator(&mut one, Some(sample(1, k, 7 * k, "2")), 300, 0, 0);
        run_aggregator(&mut one, None, 300, 0, 0);
    }
    run_aggregator(&mut two, Some(Event::Disconnect { feed: 1 }), 300, 0, 0);
    for k in 1..10u64 {
        run_aggregator(&mut two, Some(sample(0, k / 2, 100 * k, "1")), 300, 0, 0);
    }
    let (a, b) = (&one[0], &two[0]);
    assert_eq!(
        (a.raw_msgs, a.dup_msgs, a.warmup_dropped, a.disconnects),
        (b.raw_msgs, b.dup_msgs, b.warmup_dropped, b.disconnects)
    );
    assert_eq!(a.latencies_ns, b.latencies_ns);
    assert_eq!(a.first_arrival, b.first_arrival);
    assert_eq!(a.updates.len(), b.updates.len());
    assert_eq!((a.raw_msgs, a.warmup_dropped, a.dup_msgs), (9, 2, 3));
}
