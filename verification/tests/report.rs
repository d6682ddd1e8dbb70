use hl_md_latency_bench::aggregator::fresh_stats;
use hl_md_latency_bench::doc::{Doc, Piece};
use hl_md_latency_bench::feed::Event;
use hl_md_latency_bench::report::{dist_row, render_report};
use hl_md_latency_bench::stats::{apply_event, FeedStats};

fn print(doc: &Doc) -> String {
    let mut out = String::new();
    for piece in &doc.pieces {
        match piece {
            Piece::Text(s) => out.push_str(s),
            Piece::Seconds(ns) => out.push_str(&format!("{:.0}", *ns as f64 / 1e9)),
            Piece::Millis(ns) => out.push_str(&format!("{:.3}", *ns as f64 / 1_000_000.0)),
            Piece::Percent { part, whole } => out.push_str(&format!(
                "{:.1}",
                *part as f64 / *whole as f64 * 100.0
            )),
        }
    }
    out
}

fn sample(feed: usize, time_ms: u64, local_ns: u64) -> Event {
    Event::Sample {
        feed,
        time_ms,
        local_ns,
        text: format!(
            r#"{{"channel":"bbo","data":{{"coin":"ETH","time":{time_ms},"bid":{{"px":"1","sz":"1","n":1}}}}}}"#
        ),
    }
}

fn report(stats: &[FeedStats]) -> String {
    print(&render_report(
        stats,
        "ETH",
        "2026-07-09 21:04:35 +0800",
        594_600_000_000,
        5,
    ))
}

const HEADER: &str = "# HyperLiquid bbo 行情延迟对比报告

- 生成时间: 2026-07-09 21:04:35 +0800
- 币种: ETH
- 有效测量时长: 595s(预热丢弃前 5s)
- 时钟: CLOCK_REALTIME;单链路绝对延迟含本机 NTP 偏差,链路间对比不受影响
- 样本按 (coin, time) 去重,同一 time 只取首达消息

";

const TABLE: &str = "
## 报告 1:单链路延迟(local_time − msg.time,单位 ms)

| 链路 | 样本(去重) | 原始消息 | 重复 | 断线 | min | p25 | p50 | p75 | p99 | max |
|---|---|---|---|---|---|---|---|---|---|---|
";

const SECOND: &str = "
## 报告 2:跨链路同一更新谁先到(pairwise,不受时钟偏差影响)

";

#[test]
fn a_row_of_a_distribution() {
    let mut doc = Doc::new();
    dist_row(&mut doc, &vec![-1_500_000, 0, 1_000, 2_000_000, 10_000_000]);
    assert_eq!(
        print(&doc),
        "-1.500 | 0.000 | 0.001 | 2.000 | 10.000 | 10.000"
    );
}

#[test]
fn a_report_without_data() {
    let mut stats = fresh_stats(&vec!["official", "ob"]);
    apply_event(
        &mut stats,
        Event::Unavailable {
            feed: 1,
            reason: "env OB_WSS_URL not set".to_string(),
        },
        0,
    );
    let expected = format!(
        "{HEADER}> ⚠️ 链路 `ob` 不可用,已跳过: env OB_WSS_URL not set\n{TABLE}\
         | official | no data | 0 | 0 | 0 | - | - | - | - | - | - |\n\
         | ob | unavailable | 0 | 0 | 0 | - | - | - | - | - | - |\n\
         {SECOND}可用链路不足 2 条,无法做 pairwise 对比。\n"
    );
    assert_eq!(report(&stats), expected);
}

#[test]
fn a_report_on_two_feeds() {
    let mut stats = fresh_stats(&vec!["official", "quicknode", "ob"]);
    apply_event(
        &mut stats,
        Event::Unavailable {
            feed: 1,
            reason: "no token".to_string(),
        },
        0,
    );
    apply_event(&mut stats, sample(0, 1, 4_000_000), 0);
    apply_event(&mut stats, sample(2, 1, 3_000_000), 0);
    apply_event(&mut stats, sample(0, 2, 5_000_000), 0);
    apply_event(&mut stats, sample(2, 2, 6_500_000), 0);
    apply_event(&mut stats, sample(0, 3, 9_000_000), 0);
    apply_event(&mut stats, sample(2, 3, 8_000_000), 0);
    apply_event(&mut stats, sample(2, 3, 8_500_000), 0);
    apply_event(&mut stats, Event::Disconnect { feed: 2 }, 0);
    let expected = format!(
        "{HEADER}> ⚠️ 链路 `quicknode` 不可用,已跳过: no token\n{TABLE}\
         | official | 3 | 3 | 0 | 0 | 3.000 | 3.000 | 3.000 | 6.000 | 6.000 | 6.000 |\n\
         | quicknode | unavailable | 0 | 0 | 0 | - | - | - | - | - | - |\n\
         | ob | 3 | 4 | 1 | 1 | 2.000 | 4.500 | 4.500 | 5.000 | 5.000 | 5.000 |\n\
         {SECOND}### official vs ob\n\n\
         - 匹配样本: 3\n\
         - official 先到: 1 (33.3%),ob 先到: 2 (66.7%),同时: 0\n\
         - 到达时差 (ob − official,ms,正数 = official 更快):\n\n\
         | min | p25 | p50 | p75 | p99 | max |\n|---|---|---|---|---|---|\n\
         | -1.000 | -1.000 | -1.000 | 1.500 | 1.500 | 1.500 |\n\n\
         ### 全交集首达排名(仅统计所有可用链路都收到的 time)\n\n\
         全交集样本: 3\n\n\
         | 链路 | 首达次数 | 首达率 |\n|---|---|---|\n\
         | ob | 2 | 66.7% |\n| official | 1 | 33.3% |\n"
    );
    assert_eq!(report(&stats), expected);
}

#[test]
fn a_report_without_common_updates() {
    let mut stats = fresh_stats(&vec!["a", "b"]);
    apply_event(&mut stats, sample(0, 1, 2_000_000), 0);
    apply_event(&mut stats, sample(1, 2, 3_000_000), 0);
    let expected = format!(
        "{HEADER}{TABLE}\
         | a | 1 | 1 | 0 | 0 | 1.000 | 1.000 | 1.000 | 1.000 | 1.000 | 1.000 |\n\
         | b | 1 | 1 | 0 | 0 | 1.000 | 1.000 | 1.000 | 1.000 | 1.000 | 1.000 |\n\
         {SECOND}### a vs b\n\n无共同 time 样本。\n\n\
         ### 全交集首达排名(仅统计所有可用链路都收到的 time)\n\n无全交集样本。\n"
    );
    assert_eq!(report(&stats), expected);
}

#[test]
fn an_unavailable_feed_does_not_change_the_comparison() {
    let mut stats = fresh_stats(&vec!["a", "b"]);
    let mut more = fresh_stats(&vec!["a", "x", "b"]);
    for k in 1..20u64 {
        apply_event(&mut stats, sample(0, k, 100 * k), 0);
        apply_event(&mut stats, sample(1, k, 90 * k + 500), 0);
        apply_event(&mut more, sample(0, k, 100 * k), 0);
        apply_event(&mut more, sample(2, k, 90 * k + 500), 0);
    }
    let second = |stats: &[FeedStats]| {
        let text = report(stats);
        let at = text.find("## 报告 2").unwrap();
        text[at..].to_string()
    };
    assert_eq!(second(&stats), second(&more));
}

#[test]
fn counters_are_printed_as_they_are() {
    let mut stats = fresh_stats(&vec!["a"]);
    apply_event(&mut stats, sample(0, 1, 2_000_000), 0);
    stats[0].raw_msgs = 70;
    stats[0].dup_msgs = 80;
    stats[0].disconnects = 90;
    stats[0].latencies_ns.push(3_000_000);
    let expected = format!(
        "{HEADER}{TABLE}\
         | a | 2 | 70 | 80 | 90 | 1.000 | 1.000 | 3.000 | 3.000 | 3.000 | 3.000 |\n\
         {SECOND}可用链路不足 2 条,无法做 pairwise 对比。\n"
    );
    assert_eq!(report(&stats), expected);
}
