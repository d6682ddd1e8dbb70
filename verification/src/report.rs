//! The report: how late each feed is, and which feed has an update first.

use vstd::prelude::*;

use crate::compare::{
    ascending, compare, delays, negative, percentile_index, percentile_ns, positive,
    sorted_numbers, zero, Comparison,
};
use crate::doc::{millis, percent, seconds, text, Doc, Glyph};
use crate::ranking::{feed_views, order_by_wins, rank, ranked, shared, wins_of};
use crate::stats::{all_reportable, is_available, views, FeedStats, StatsView};
use crate::text::decimal;

verus! {

/// Minimum, percentiles and maximum of sorted numbers.
pub open spec fn dist_row_text(sorted: Seq<i64>) -> Seq<Glyph> {
    let n = sorted.len();
    millis(sorted[0]) + text(" | "@) + millis(sorted[percentile_index(n, 25)]) + text(" | "@)
        + millis(sorted[percentile_index(n, 50)]) + text(" | "@) + millis(
        sorted[percentile_index(n, 75)],
    ) + text(" | "@) + millis(sorted[percentile_index(n, 99)]) + text(" | "@) + millis(
        sorted[n - 1],
    )
}

/// Appends minimum, percentiles and maximum of sorted numbers.
#[verifier::rlimit(40)]
pub fn dist_row(out: &mut Doc, sorted: &Vec<i64>)
    requires
        sorted@.len() > 0,
    ensures
        final(out)@ == old(out)@ + dist_row_text(sorted@),
{
    let s = sorted.as_slice();
    out.push_millis(sorted[0]);
    out.push_text(" | ");
    out.push_millis(percentile_ns(s, 25));
    out.push_text(" | ");
    out.push_millis(percentile_ns(s, 50));
    out.push_text(" | ");
    out.push_millis(percentile_ns(s, 75));
    out.push_text(" | ");
    out.push_millis(percentile_ns(s, 99));
    out.push_text(" | ");
    out.push_millis(sorted[sorted.len() - 1]);
    assert(out@ =~= old(out)@ + dist_row_text(sorted@));
}

/// What stands above the tables.
pub open spec fn header_text(
    generated_at: Seq<char>,
    coin: Seq<char>,
    measured_ns: u64,
    warmup_secs: nat,
) -> Seq<Glyph> {
    text("# HyperLiquid bbo 行情延迟对比报告\n\n- 生成时间: "@) + text(generated_at) + text("\n- 币种: "@)
        + text(coin) + text("\n- 有效测量时长: "@) + seconds(measured_ns) + text("s(预热丢弃前 "@) + text(
        decimal(warmup_secs),
    ) + text("s)\n- 时钟: CLOCK_REALTIME;单链路绝对延迟含本机 NTP 偏差,链路间对比不受影响\n"@) + text(
        "- 样本按 (coin, time) 去重,同一 time 只取首达消息\n\n"@,
    )
}

#[verifier::rlimit(40)]
fn push_header(out: &mut Doc, generated_at: &str, coin: &str, measured_ns: u64, warmup_secs: u64)
    ensures
        final(out)@ == old(out)@ + header_text(
            generated_at@,
            coin@,
            measured_ns,
            warmup_secs as nat,
        ),
{
    out.push_text("# HyperLiquid bbo 行情延迟对比报告\n\n- 生成时间: ");
    out.push_text(generated_at);
    out.push_text("\n- 币种: ");
    out.push_text(coin);
    out.push_text("\n- 有效测量时长: ");
    out.push_seconds(measured_ns);
    out.push_text("s(预热丢弃前 ");
    out.push_number(warmup_secs);
    out.push_text("s)\n- 时钟: CLOCK_REALTIME;单链路绝对延迟含本机 NTP 偏差,链路间对比不受影响\n");
    out.push_text("- 样本按 (coin, time) 去重,同一 time 只取首达消息\n\n");
    assert(out@ =~= old(out)@ + header_text(generated_at@, coin@, measured_ns, warmup_secs as nat));
}

/// A note for each feed that could not be reached.
pub open spec fn skipped_text(stats: Seq<StatsView>) -> Seq<Glyph>
    decreases stats.len(),
{
    if stats.len() == 0 {
        Seq::empty()
    } else {
        let s = stats.last();
        skipped_text(stats.drop_last()) + match s.unavailable {
            Some(reason) => text("> ⚠️ 链路 `"@) + text(s.name) + text("` 不可用,已跳过: "@) + text(
                reason,
            ) + text("\n"@),
            None => Seq::empty(),
        }
    }
}

#[verifier::rlimit(40)]
fn push_skipped(out: &mut Doc, stats: &[FeedStats])
    ensures
        final(out)@ == old(out)@ + skipped_text(views(stats@)),
{
    let ghost v = views(stats@);
    let ghost start = out@;
    let mut i: usize = 0;
    assert(v.take(0) =~= Seq::empty());
    assert(start =~= start + skipped_text(v.take(0)));
    while i < stats.len()
        invariant
            v == views(stats@),
            i <= stats@.len(),
            out@ == start + skipped_text(v.take(i as int)),
        decreases stats@.len() - i,
    {
        let s = &stats[i];
        let ghost before = out@;
        assert(v.take(i + 1).drop_last() =~= v.take(i as int));
        assert(v.take(i + 1).last() == s@);
        if let Some(reason) = &s.unavailable {
            out.push_text("> ⚠️ 链路 `");
            out.push_text(s.name);
            out.push_text("` 不可用,已跳过: ");
            out.push_text(reason.as_str());
            out.push_text("\n");
        }
        assert(out@ =~= start + skipped_text(v.take(i + 1)));
        i += 1;
    }
    assert(v.take(v.len() as int) =~= v);
}

/// The counters of a feed, in cells of a table.
pub open spec fn counters_text(s: StatsView) -> Seq<Glyph> {
    text(" | "@) + text(decimal(s.raw_msgs)) + text(" | "@) + text(decimal(s.dup_msgs)) + text(
        " | "@,
    ) + text(decimal(s.disconnects))
}

fn push_counters(out: &mut Doc, s: &FeedStats)
    ensures
        final(out)@ == old(out)@ + counters_text(s@),
{
    out.push_text(" | ");
    out.push_number(s.raw_msgs);
    out.push_text(" | ");
    out.push_number(s.dup_msgs);
    out.push_text(" | ");
    out.push_number(s.disconnects as u64);
    assert(out@ =~= old(out)@ + counters_text(s@));
}

/// The line of a feed in the table of latencies.
pub open spec fn latency_line(s: StatsView) -> Seq<Glyph> {
    if is_available(s) {
        text("| "@) + text(s.name) + text(" | "@) + text(decimal(s.latencies_ns.len()))
            + counters_text(s) + text(" | "@) + dist_row_text(ascending(s.latencies_ns)) + text(
            " |\n"@,
        )
    } else {
        text("| "@) + text(s.name) + text(" | "@) + text(
            if s.unavailable is Some {
                "unavailable"@
            } else {
                "no data"@
            },
        ) + counters_text(s) + text(" | - | - | - | - | - | - |\n"@)
    }
}

#[verifier::rlimit(40)]
fn push_latency_line(out: &mut Doc, s: &FeedStats)
    requires
        s.reportable(),
    ensures
        final(out)@ == old(out)@ + latency_line(s@),
{
    out.push_text("| ");
    out.push_text(s.name);
    out.push_text(" | ");
    if s.available() {
        let sorted = sorted_numbers(&s.latencies_ns);
        out.push_number(sorted.len() as u64);
        push_counters(out, s);
        out.push_text(" | ");
        dist_row(out, &sorted);
        out.push_text(" |\n");
    } else {
        if s.unavailable.is_some() {
            out.push_text("unavailable");
        } else {
            out.push_text("no data");
        }
        push_counters(out, s);
        out.push_text(" | - | - | - | - | - | - |\n");
    }
    assert(out@ =~= old(out)@ + latency_line(s@));
}

/// The lines of the table of latencies.
pub open spec fn latency_lines(stats: Seq<StatsView>) -> Seq<Glyph>
    decreases stats.len(),
{
    if stats.len() == 0 {
        Seq::empty()
    } else {
        latency_lines(stats.drop_last()) + latency_line(stats.last())
    }
}

/// The table of latencies.
pub open spec fn latency_text(stats: Seq<StatsView>) -> Seq<Glyph> {
    text("\n## 报告 1:单链路延迟(local_time − msg.time,单位 ms)\n\n"@) + text(
        "| 链路 | 样本(去重) | 原始消息 | 重复 | 断线 | min | p25 | p50 | p75 | p99 | max |\n"@,
    ) + text("|---|---|---|---|---|---|---|---|---|---|---|\n"@) + latency_lines(stats)
}

#[verifier::rlimit(40)]
fn push_latencies(out: &mut Doc, stats: &[FeedStats])
    requires
        all_reportable(stats@),
    ensures
        final(out)@ == old(out)@ + latency_text(views(stats@)),
{
    out.push_text("\n## 报告 1:单链路延迟(local_time − msg.time,单位 ms)\n\n");
    out.push_text("| 链路 | 样本(去重) | 原始消息 | 重复 | 断线 | min | p25 | p50 | p75 | p99 | max |\n");
    out.push_text("|---|---|---|---|---|---|---|---|---|---|---|\n");
    let ghost v = views(stats@);
    let ghost start = out@;
    let mut i: usize = 0;
    assert(v.take(0) =~= Seq::empty());
    assert(start =~= start + latency_lines(v.take(0)));
    while i < stats.len()
        invariant
            v == views(stats@),
            all_reportable(stats@),
            i <= stats@.len(),
            out@ == start + latency_lines(v.take(i as int)),
        decreases stats@.len() - i,
    {
        assert(v.take(i + 1).drop_last() =~= v.take(i as int));
        assert(v.take(i + 1).last() == stats@[i as int]@);
        push_latency_line(out, &stats[i]);
        assert(out@ =~= start + latency_lines(v.take(i + 1)));
        i += 1;
    }
    assert(v.take(v.len() as int) =~= v);
    assert(out@ =~= old(out)@ + latency_text(views(stats@)));
}

/// How often a feed was first, and in how many percent of the updates.
pub open spec fn led_text(name: Seq<char>, wins: nat, n: u64) -> Seq<Glyph> {
    text(name) + text(" 先到: "@) + text(decimal(wins)) + text(" ("@) + percent(wins as u64, n)
}

fn push_led(out: &mut Doc, name: &str, wins: u64, n: u64)
    ensures
        final(out)@ == old(out)@ + led_text(name@, wins as nat, n),
{
    out.push_text(name);
    out.push_text(" 先到: ");
    out.push_number(wins);
    out.push_text(" (");
    out.push_percent(wins, n);
    assert(out@ =~= old(out)@ + led_text(name@, wins as nat, n));
}

/// How often each of two feeds was first.
pub open spec fn outcome_text(a: Seq<char>, b: Seq<char>, d: Seq<i64>) -> Seq<Glyph> {
    let n = d.len() as u64;
    text("- 匹配样本: "@) + text(decimal(d.len())) + text("\n- "@) + led_text(a, positive(d), n) + text(
        "%),"@,
    ) + led_text(b, negative(d), n) + text("%),同时: "@) + text(decimal(zero(d)))
}

#[verifier::rlimit(40)]
fn push_outcome(out: &mut Doc, a: &str, b: &str, c: &Comparison, Ghost(d): Ghost<Seq<i64>>)
    requires
        c.delays@.len() == d.len(),
        c.a_wins == positive(d),
        c.b_wins == negative(d),
        c.ties == zero(d),
        d.len() <= u64::MAX,
    ensures
        final(out)@ == old(out)@ + outcome_text(a@, b@, d),
{
    let n: u64 = c.delays.len() as u64;
    out.push_text("- 匹配样本: ");
    out.push_number(n);
    out.push_text("\n- ");
    push_led(out, a, c.a_wins, n);
    out.push_text("%),");
    push_led(out, b, c.b_wins, n);
    out.push_text("%),同时: ");
    out.push_number(c.ties);
    assert(out@ =~= old(out)@ + outcome_text(a@, b@, d));
}

/// By how much one feed was ahead of the other.
pub open spec fn lead_text(a: Seq<char>, b: Seq<char>, sorted: Seq<i64>) -> Seq<Glyph> {
    text("\n- 到达时差 ("@) + text(b) + text(" − "@) + text(a) + text(",ms,正数 = "@) + text(a) + text(
        " 更快):\n"@,
    ) + text("\n| min | p25 | p50 | p75 | p99 | max |\n|---|---|---|---|---|---|\n| "@)
        + dist_row_text(sorted) + text(" |\n\n"@)
}

#[verifier::rlimit(40)]
fn push_lead(out: &mut Doc, a: &str, b: &str, sorted: &Vec<i64>)
    requires
        sorted@.len() > 0,
    ensures
        final(out)@ == old(out)@ + lead_text(a@, b@, sorted@),
{
    out.push_text("\n- 到达时差 (");
    out.push_text(b);
    out.push_text(" − ");
    out.push_text(a);
    out.push_text(",ms,正数 = ");
    out.push_text(a);
    out.push_text(" 更快):\n");
    out.push_text("\n| min | p25 | p50 | p75 | p99 | max |\n|---|---|---|---|---|---|\n| ");
    dist_row(out, sorted);
    out.push_text(" |\n\n");
    assert(out@ =~= old(out)@ + lead_text(a@, b@, sorted@));
}

/// The comparison of two feeds.
pub open spec fn pair_text(a: StatsView, b: StatsView) -> Seq<Glyph> {
    let d = delays(a.updates, b.updates);
    text("### "@) + text(a.name) + text(" vs "@) + text(b.name) + text("\n\n"@) + if d.len() == 0 {
        text("无共同 time 样本。\n\n"@)
    } else {
        outcome_text(a.name, b.name, d) + lead_text(a.name, b.name, ascending(d))
    }
}

#[verifier::rlimit(40)]
fn push_pair(out: &mut Doc, a: &FeedStats, b: &FeedStats)
    requires
        b.searchable(),
    ensures
        final(out)@ == old(out)@ + pair_text(a@, b@),
{
    let c = compare(a, b);
    out.push_text("### ");
    out.push_text(a.name);
    out.push_text(" vs ");
    out.push_text(b.name);
    out.push_text("\n\n");
    if c.delays.len() == 0 {
        out.push_text("无共同 time 样本。\n\n");
    } else {
        push_outcome(out, a.name, b.name, &c, Ghost(delays(a@.updates, b@.updates)));
        push_lead(out, a.name, b.name, &c.delays);
    }
    assert(out@ =~= old(out)@ + pair_text(a@, b@));
}

/// The comparisons of feed `i` with the feeds behind it up to `j`.
pub open spec fn pairs_of(feeds: Seq<StatsView>, i: int, j: int) -> Seq<Glyph>
    decreases j - i,
{
    if j <= i + 1 {
        Seq::empty()
    } else {
        pairs_of(feeds, i, j - 1) + pair_text(feeds[i], feeds[j - 1])
    }
}

/// The comparisons of the first `i` feeds, each with all feeds behind it.
pub open spec fn pairs_text(feeds: Seq<StatsView>, i: int) -> Seq<Glyph>
    decreases i,
{
    if i <= 0 {
        Seq::empty()
    } else {
        pairs_text(feeds, i - 1) + pairs_of(feeds, i - 1, feeds.len() as int)
    }
}

#[verifier::rlimit(40)]
fn push_pairs(out: &mut Doc, feeds: &Vec<&FeedStats>)
    requires
        forall|k: int| 0 <= k < feeds@.len() ==> (#[trigger] feeds@[k]).searchable(),
    ensures
        final(out)@ == old(out)@ + pairs_text(feed_views(feeds@), feeds@.len() as int),
{
    let ghost v = feed_views(feeds@);
    let ghost start = out@;
    let mut i: usize = 0;
    assert(start =~= start + pairs_text(v, 0));
    while i < feeds.len()
        invariant
            v == feed_views(feeds@),
            forall|k: int| 0 <= k < feeds@.len() ==> (#[trigger] feeds@[k]).searchable(),
            i <= feeds@.len(),
            out@ == start + pairs_text(v, i as int),
        decreases feeds@.len() - i,
    {
        let ghost row = out@;
        let mut j: usize = i + 1;
        assert(row =~= row + pairs_of(v, i as int, j as int));
        while j < feeds.len()
            invariant
                v == feed_views(feeds@),
                forall|k: int| 0 <= k < feeds@.len() ==> (#[trigger] feeds@[k]).searchable(),
                i < j <= feeds@.len(),
                out@ == row + pairs_of(v, i as int, j as int),
            decreases feeds@.len() - j,
        {
            assert(v[i as int] == feeds@[i as int]@ && v[j as int] == feeds@[j as int]@);
            push_pair(out, feeds[i], feeds[j]);
            assert(out@ =~= row + pairs_of(v, i as int, j + 1));
            j += 1;
        }
        assert(out@ =~= start + pairs_text(v, i + 1));
        i += 1;
    }
}

/// How often each feed was first, over the updates that all of them have.
pub open spec fn all_wins(feeds: Seq<StatsView>) -> Seq<u64> {
    Seq::new(feeds.len(), |k: int| wins_of(feeds, feeds[0].updates, k) as u64)
}

/// The lines of the ranking.
pub open spec fn rank_lines(
    feeds: Seq<StatsView>,
    order: Seq<(usize, u64)>,
    total: nat,
) -> Seq<Glyph>
    decreases order.len(),
{
    if order.len() == 0 {
        Seq::empty()
    } else {
        let (k, w) = order.last();
        rank_lines(feeds, order.drop_last(), total) + text("| "@) + text(feeds[k as int].name)
            + text(" | "@) + text(decimal(w as nat)) + text(" | "@) + percent(w, total as u64)
            + text("% |\n"@)
    }
}

/// The ranking of all feeds.
pub open spec fn ranking_text(feeds: Seq<StatsView>) -> Seq<Glyph> {
    let total = shared(feeds, feeds[0].updates);
    text("### 全交集首达排名(仅统计所有可用链路都收到的 time)\n\n"@) + if total == 0 {
        text("无全交集样本。\n"@)
    } else {
        text("全交集样本: "@) + text(decimal(total)) + text(
            "\n\n| 链路 | 首达次数 | 首达率 |\n|---|---|---|\n"@,
        ) + rank_lines(feeds, ranked(all_wins(feeds)), total)
    }
}

#[verifier::rlimit(40)]
fn push_ranking(out: &mut Doc, feeds: &Vec<&FeedStats>)
    requires
        feeds@.len() > 0,
        forall|k: int| 0 <= k < feeds@.len() ==> (#[trigger] feeds@[k]).searchable(),
    ensures
        final(out)@ == old(out)@ + ranking_text(feed_views(feeds@)),
{
    let ghost v = feed_views(feeds@);
    let r = rank(feeds);
    assert(r.wins@ =~= all_wins(v)) by {
        assert forall|k: int| 0 <= k < feeds@.len() implies r.wins@[k] == #[trigger] all_wins(
            v,
        )[k] by {
            assert(r.wins@[k] == wins_of(v, feeds@[0]@.updates, k));
        }
    }
    out.push_text("### 全交集首达排名(仅统计所有可用链路都收到的 time)\n\n");
    if r.total == 0 {
        out.push_text("无全交集样本。\n");
    } else {
        out.push_text("全交集样本: ");
        out.push_number(r.total);
        out.push_text("\n\n| 链路 | 首达次数 | 首达率 |\n|---|---|---|\n");
        let order = order_by_wins(&r.wins);
        let ghost start = out@;
        let mut i: usize = 0;
        assert(order@.take(0) =~= Seq::empty());
        assert(start =~= start + rank_lines(v, order@.take(0), r.total as nat));
        while i < order.len()
            invariant
                v == feed_views(feeds@),
                i <= order@.len(),
                forall|k: int| 0 <= k < order@.len() ==> (#[trigger] order@[k]).0 < feeds@.len(),
                out@ == start + rank_lines(v, order@.take(i as int), r.total as nat),
            decreases order@.len() - i,
        {
            assert(order@.take(i + 1).drop_last() =~= order@.take(i as int));
            let k: usize = order[i].0;
            let w: u64 = order[i].1;
            assert(order@[i as int].0 < feeds@.len());
            assert(v[k as int] == feeds@[k as int]@);
            out.push_text("| ");
            out.push_text(feeds[k].name);
            out.push_text(" | ");
            out.push_number(w);
            out.push_text(" | ");
            out.push_percent(w, r.total);
            out.push_text("% |\n");
            assert(out@ =~= start + rank_lines(v, order@.take(i + 1), r.total as nat));
            i += 1;
        }
        assert(order@.take(order@.len() as int) =~= order@);
    }
    assert(out@ =~= old(out)@ + ranking_text(v));
}

/// The feeds that have been reached and have delivered something.
pub open spec fn available_feeds(stats: Seq<StatsView>) -> Seq<StatsView> {
    stats.filter(|s: StatsView| is_available(s))
}

/// Who had an update first.
pub open spec fn first_text(stats: Seq<StatsView>) -> Seq<Glyph> {
    let feeds = available_feeds(stats);
    text("\n## 报告 2:跨链路同一更新谁先到(pairwise,不受时钟偏差影响)\n\n"@) + if feeds.len() < 2 {
        text("可用链路不足 2 条,无法做 pairwise 对比。\n"@)
    } else {
        pairs_text(feeds, feeds.len() as int) + ranking_text(feeds)
    }
}

#[verifier::rlimit(40)]
fn find_available<'a>(stats: &'a [FeedStats]) -> (feeds: Vec<&'a FeedStats>)
    requires
        all_reportable(stats@),
    ensures
        feed_views(feeds@) == available_feeds(views(stats@)),
        forall|k: int| 0 <= k < feeds@.len() ==> (#[trigger] feeds@[k]).searchable(),
{
    let ghost v = views(stats@);
    let mut feeds: Vec<&'a FeedStats> = Vec::new();
    let mut i: usize = 0;
    proof {
        reveal(Seq::filter);
        assert(v.take(0) =~= Seq::empty());
        assert(feed_views(feeds@) =~= available_feeds(v.take(0)));
    }
    while i < stats.len()
        invariant
            v == views(stats@),
            all_reportable(stats@),
            i <= stats@.len(),
            feed_views(feeds@) == available_feeds(v.take(i as int)),
            forall|k: int| 0 <= k < feeds@.len() ==> (#[trigger] feeds@[k]).searchable(),
        decreases stats@.len() - i,
    {
        let s = &stats[i];
        let ghost before = feeds@;
        assert(v.take(i + 1).drop_last() =~= v.take(i as int));
        assert(v.take(i + 1).last() == s@);
        if s.available() {
            feeds.push(s);
            assert(feed_views(feeds@) =~= feed_views(before).push(s@));
        }
        proof {
            reveal(Seq::filter);
        }
        i += 1;
    }
    assert(v.take(v.len() as int) =~= v);
    feeds
}

/// The whole report.
pub open spec fn report_text(
    stats: Seq<StatsView>,
    coin: Seq<char>,
    generated_at: Seq<char>,
    measured_ns: u64,
    warmup_secs: nat,
) -> Seq<Glyph> {
    header_text(generated_at, coin, measured_ns, warmup_secs) + skipped_text(stats) + latency_text(
        stats,
    ) + first_text(stats)
}

/// Writes the report. `generated_at` is the time of day, as it is to be printed, and
/// `measured_ns` the length of the measurement.
#[verifier::rlimit(40)]
pub fn render_report(
    stats: &[FeedStats],
    coin: &str,
    generated_at: &str,
    measured_ns: u64,
    warmup_secs: u64,
) -> (out: Doc)
    requires
        all_reportable(stats@),
    ensures
        out@ == report_text(
            views(stats@),
            coin@,
            generated_at@,
            measured_ns,
            warmup_secs as nat,
        ),
{
    let mut out = Doc::new();
    push_header(&mut out, generated_at, coin, measured_ns, warmup_secs);
    push_skipped(&mut out, stats);
    push_latencies(&mut out, stats);
    let ghost before = out@;
    out.push_text("\n## 报告 2:跨链路同一更新谁先到(pairwise,不受时钟偏差影响)\n\n");
    let feeds = find_available(stats);
    if feeds.len() < 2 {
        out.push_text("可用链路不足 2 条,无法做 pairwise 对比。\n");
    } else {
        push_pairs(&mut out, &feeds);
        push_ranking(&mut out, &feeds);
    }
    assert(out@ =~= before + first_text(views(stats@)));
    assert(out@ =~= report_text(views(stats@), coin@, generated_at@, measured_ns, warmup_secs as nat));
    out
}

/// Feeds that could not be reached or have delivered nothing are left out of the
/// comparison, which is the one of the other feeds alone.
pub proof fn unavailable_feeds_are_skipped(stats: Seq<StatsView>)
    ensures
        first_text(stats) == first_text(available_feeds(stats)),
{
    lemma_available_twice(stats);
}

proof fn lemma_available_twice(stats: Seq<StatsView>)
    ensures
        available_feeds(available_feeds(stats)) == available_feeds(stats),
    decreases stats.len(),
{
    reveal(Seq::filter);
    if stats.len() > 0 {
        let p = available_feeds(stats.drop_last());
        lemma_available_twice(stats.drop_last());
        assert(p.push(stats.last()).drop_last() =~= p);
    }
}

} // verus!
