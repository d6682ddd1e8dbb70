//! What a reader finds in the report: every number in its column, every feed in its line,
//! every pair of feeds in its section.

use vstd::prelude::*;

use crate::compare::{
    a_percentile_is_the_nearest_position, ascending, delays, lemma_ascending_sorted, negative,
    percentile_index, positive, the_earlier_feed_is_first, zero,
};
use crate::doc::{millis, percent, text, Glyph};
use crate::ranking::{
    a_feed_wins_what_it_had_first, every_feed_is_ranked_once, first_places, ranked, seen_by_all,
    shared, shared_places, winner, wins_of,
};
use crate::report::{
    all_wins, available_feeds, counters_text, dist_row_text, first_text, latency_line,
    latency_lines, latency_text, lead_text, led_text, outcome_text, pair_text, pairs_of,
    pairs_text, rank_lines, ranking_text, report_text, skipped_text,
};
use crate::stats::{distinct, is_available, StatsView, UpdateView};
use crate::text::{decimal, lemma_decimal};

verus! {

/// A line of a table up to the bar behind its last cell.
pub open spec fn cells(parts: Seq<Seq<Glyph>>) -> Seq<Glyph>
    decreases parts.len(),
{
    if parts.len() == 0 {
        text("|"@)
    } else {
        cells(parts.drop_last()) + text(" "@) + parts.last() + text(" |"@)
    }
}

/// A line of a table.
pub open spec fn row(parts: Seq<Seq<Glyph>>) -> Seq<Glyph> {
    cells(parts) + text("\n"@)
}

proof fn lemma_bars()
    ensures
        text(" | "@) == text(" |"@) + text(" "@),
        text("| "@) == text("|"@) + text(" "@),
        text(" |\n"@) == text(" |"@) + text("\n"@),
{
    reveal_strlit(" | ");
    reveal_strlit(" |");
    reveal_strlit(" ");
    reveal_strlit("| ");
    reveal_strlit("|");
    reveal_strlit(" |\n");
    reveal_strlit("\n");
    assert(text(" | "@) =~= text(" |"@) + text(" "@));
    assert(text("| "@) =~= text("|"@) + text(" "@));
    assert(text(" |\n"@) =~= text(" |"@) + text("\n"@));
}

proof fn lemma_assoc(a: Seq<Glyph>, b: Seq<Glyph>, c: Seq<Glyph>)
    ensures
        a + (b + c) == a + b + c,
{
    assert(a + (b + c) =~= a + b + c);
}

/// A line that is begun.
proof fn lemma_begin()
    ensures
        text("| "@) == cells(Seq::empty()) + text(" "@),
{
    lemma_bars();
}

/// One more cell of a line.
proof fn lemma_next(parts: Seq<Seq<Glyph>>, c: Seq<Glyph>)
    ensures
        cells(parts) + text(" "@) + c + text(" | "@) == cells(parts.push(c)) + text(" "@),
{
    lemma_bars();
    assert(parts.push(c).drop_last() =~= parts);
    lemma_assoc(cells(parts) + text(" "@) + c, text(" |"@), text(" "@));
}

/// The last cell of a line.
proof fn lemma_end(parts: Seq<Seq<Glyph>>, c: Seq<Glyph>)
    ensures
        cells(parts) + text(" "@) + c + text(" |\n"@) == row(parts.push(c)),
{
    lemma_bars();
    assert(parts.push(c).drop_last() =~= parts);
    lemma_assoc(cells(parts) + text(" "@) + c, text(" |"@), text("\n"@));
}

/// The headings of a distribution.
pub open spec fn headings() -> Seq<Seq<char>> {
    seq!["min"@, "p25"@, "p50"@, "p75"@, "p99"@, "max"@]
}

/// Among `n` numbers, `i` is the position nearest to the point that is `p` percent of the
/// way from the first to the last.
pub open spec fn is_nearest(i: int, p: int, n: int) -> bool {
    0 <= i < n && -50 < 100 * i - p * (n - 1) <= 50
}

/// The columns of a distribution: the first has the smallest of the sorted numbers, the
/// last the largest, and the column with the heading `p` and a number has the one that is
/// so many percent of the way.
pub open spec fn are_columns(at: Seq<int>, n: int) -> bool {
    &&& at.len() == headings().len()
    &&& forall|c: int|
        0 <= c < at.len() ==> 0 <= #[trigger] at[c] < n && (headings()[c] == "min"@ ==> at[c] == 0)
            && (headings()[c] == "max"@ ==> at[c] == n - 1)
    &&& forall|c: int, p: nat|
        0 <= c < at.len() && #[trigger] headings()[c] == "p"@ + #[trigger] decimal(p)
            ==> is_nearest(at[c], p as int, n)
}

/// The numbers at these positions, as cells.
pub open spec fn columns(sorted: Seq<i64>, at: Seq<int>) -> Seq<Seq<Glyph>> {
    Seq::new(at.len(), |c: int| millis(sorted[at[c]]))
}

proof fn lemma_headings(p: nat)
    ensures
        "p25"@ == "p"@ + decimal(25),
        "p50"@ == "p"@ + decimal(50),
        "p75"@ == "p"@ + decimal(75),
        "p99"@ == "p"@ + decimal(99),
        "p"@ + decimal(p) == "p25"@ ==> p == 25,
        "p"@ + decimal(p) == "p50"@ ==> p == 50,
        "p"@ + decimal(p) == "p75"@ ==> p == 75,
        "p"@ + decimal(p) == "p99"@ ==> p == 99,
        "p"@ + decimal(p) != "min"@,
        "p"@ + decimal(p) != "max"@,
        "min"@ != "max"@,
        "p25"@ != "min"@ && "p25"@ != "max"@,
        "p50"@ != "min"@ && "p50"@ != "max"@,
        "p75"@ != "min"@ && "p75"@ != "max"@,
        "p99"@ != "min"@ && "p99"@ != "max"@,
{
    reveal_strlit("p");
    reveal_strlit("p25");
    reveal_strlit("p50");
    reveal_strlit("p75");
    reveal_strlit("p99");
    reveal_strlit("min");
    reveal_strlit("max");
    reveal_with_fuel(decimal, 3);
    assert("p25"@ =~= "p"@ + decimal(25));
    assert("p50"@ =~= "p"@ + decimal(50));
    assert("p75"@ =~= "p"@ + decimal(75));
    assert("p99"@ =~= "p"@ + decimal(99));
    let t = "p"@ + decimal(p);
    assert(t[0] == 'p');
    assert("min"@[0] == 'm' && "max"@[0] == 'm');
    assert("min"@[1] == 'i' && "max"@[1] == 'a');
    lemma_same_decimal(p, 25);
    lemma_same_decimal(p, 50);
    lemma_same_decimal(p, 75);
    lemma_same_decimal(p, 99);
}

proof fn lemma_same_decimal(p: nat, q: nat)
    ensures
        "p"@ + decimal(p) == "p"@ + decimal(q) ==> p == q,
{
    if "p"@ + decimal(p) == "p"@ + decimal(q) {
        let n = "p"@.len() as int;
        assert(("p"@ + decimal(p)).skip(n) =~= decimal(p));
        assert(("p"@ + decimal(q)).skip(n) =~= decimal(q));
        lemma_decimal(p);
        lemma_decimal(q);
    }
}

spec fn positions(n: int) -> Seq<int> {
    seq![
        0,
        percentile_index(n as nat, 25),
        percentile_index(n as nat, 50),
        percentile_index(n as nat, 75),
        percentile_index(n as nat, 99),
        n - 1,
    ]
}

proof fn lemma_positions(n: int)
    requires
        n > 0,
    ensures
        are_columns(positions(n), n),
{
    let at = positions(n);
    a_percentile_is_the_nearest_position(n as nat, 25);
    a_percentile_is_the_nearest_position(n as nat, 50);
    a_percentile_is_the_nearest_position(n as nat, 75);
    a_percentile_is_the_nearest_position(n as nat, 99);
    lemma_headings(0);
    assert forall|c: int| 0 <= c < at.len() implies 0 <= #[trigger] at[c] < n && (headings()[c]
        == "min"@ ==> at[c] == 0) && (headings()[c] == "max"@ ==> at[c] == n - 1) by {
        assert(c == 0 || c == 1 || c == 2 || c == 3 || c == 4 || c == 5);
    }
    assert forall|c: int, p: nat|
        0 <= c < at.len() && #[trigger] headings()[c] == "p"@ + #[trigger] decimal(
            p,
        ) implies is_nearest(at[c], p as int, n) by {
        lemma_headings(p);
        assert(c == 0 || c == 1 || c == 2 || c == 3 || c == 4 || c == 5);
    }
}

/// The cells of a distribution, behind those of a line that is begun.
#[verifier::rlimit(40)]
proof fn lemma_dist(parts: Seq<Seq<Glyph>>, sorted: Seq<i64>)
    requires
        sorted.len() > 0,
    ensures
        cells(parts) + text(" "@) + dist_row_text(sorted) + text(" |\n"@) == row(
            parts + columns(sorted, positions(sorted.len() as int)),
        ),
{
    let n = sorted.len();
    let b = text(" | "@);
    let m0 = millis(sorted[0]);
    let m1 = millis(sorted[percentile_index(n, 25)]);
    let m2 = millis(sorted[percentile_index(n, 50)]);
    let m3 = millis(sorted[percentile_index(n, 75)]);
    let m4 = millis(sorted[percentile_index(n, 99)]);
    let m5 = millis(sorted[n - 1]);
    let x = cells(parts) + text(" "@);
    lemma_assoc(x, m0 + b + m1 + b + m2 + b + m3 + b + m4 + b, m5);
    lemma_assoc(x, m0 + b + m1 + b + m2 + b + m3 + b + m4, b);
    lemma_assoc(x, m0 + b + m1 + b + m2 + b + m3 + b, m4);
    lemma_assoc(x, m0 + b + m1 + b + m2 + b + m3, b);
    lemma_assoc(x, m0 + b + m1 + b + m2 + b, m3);
    lemma_assoc(x, m0 + b + m1 + b + m2, b);
    lemma_assoc(x, m0 + b + m1 + b, m2);
    lemma_assoc(x, m0 + b + m1, b);
    lemma_assoc(x, m0 + b, m1);
    lemma_assoc(x, m0, b);
    let p1 = parts.push(m0);
    let p2 = p1.push(m1);
    let p3 = p2.push(m2);
    let p4 = p3.push(m3);
    let p5 = p4.push(m4);
    lemma_next(parts, m0);
    lemma_next(p1, m1);
    lemma_next(p2, m2);
    lemma_next(p3, m3);
    lemma_next(p4, m4);
    lemma_end(p5, m5);
    assert(p5.push(m5) =~= parts + columns(sorted, positions(n as int)));
}

/// In a line of a distribution each number stands under its heading: the smallest under
/// `min`, the largest under `max`, and under `p` and a number the one that is so many
/// percent of the way through the sorted numbers.
pub proof fn a_number_stands_under_its_heading(sorted: Seq<i64>) -> (at: Seq<int>)
    requires
        sorted.len() > 0,
    ensures
        are_columns(at, sorted.len() as int),
        text("| "@) + dist_row_text(sorted) + text(" |\n"@) == row(columns(sorted, at)),
        text("| min | p25 | p50 | p75 | p99 | max |\n"@) == row(
            Seq::new(headings().len(), |c: int| text(headings()[c])),
        ),
{
    lemma_positions(sorted.len() as int);
    lemma_begin();
    lemma_dist(Seq::empty(), sorted);
    let at = positions(sorted.len() as int);
    assert(Seq::<Seq<Glyph>>::empty() + columns(sorted, at) =~= columns(sorted, at));
    lemma_heading_line();
    at
}

#[verifier::rlimit(40)]
proof fn lemma_heading_line()
    ensures
        text("| min | p25 | p50 | p75 | p99 | max |\n"@) == row(
            Seq::new(headings().len(), |c: int| text(headings()[c])),
        ),
{
    let b = text(" | "@);
    let m0 = text("min"@);
    let m1 = text("p25"@);
    let m2 = text("p50"@);
    let m3 = text("p75"@);
    let m4 = text("p99"@);
    let m5 = text("max"@);
    let e = Seq::<Seq<Glyph>>::empty();
    assert(text("| min | p25 | p50 | p75 | p99 | max |\n"@) =~= text("| "@) + m0 + b + m1 + b + m2
        + b + m3 + b + m4 + b + m5 + text(" |\n"@)) by {
        reveal_strlit("| min | p25 | p50 | p75 | p99 | max |\n");
        reveal_strlit("| ");
        reveal_strlit(" | ");
        reveal_strlit(" |\n");
        reveal_strlit("min");
        reveal_strlit("p25");
        reveal_strlit("p50");
        reveal_strlit("p75");
        reveal_strlit("p99");
        reveal_strlit("max");
    }
    lemma_begin();
    lemma_next(e, m0);
    lemma_next(e.push(m0), m1);
    lemma_next(e.push(m0).push(m1), m2);
    lemma_next(e.push(m0).push(m1).push(m2), m3);
    lemma_next(e.push(m0).push(m1).push(m2).push(m3), m4);
    lemma_end(e.push(m0).push(m1).push(m2).push(m3).push(m4), m5);
    assert(e.push(m0).push(m1).push(m2).push(m3).push(m4).push(m5) =~= Seq::new(
        headings().len(),
        |c: int| text(headings()[c]),
    ));
}

/// The cells of the counters, behind a cell that is begun.
proof fn lemma_counters(parts: Seq<Seq<Glyph>>, c: Seq<Glyph>, s: StatsView)
    ensures
        cells(parts) + text(" "@) + c + counters_text(s) == cells(
            parts.push(c).push(text(decimal(s.raw_msgs))).push(text(decimal(s.dup_msgs))),
        ) + text(" "@) + text(decimal(s.disconnects)),
{
    let b = text(" | "@);
    let r = text(decimal(s.raw_msgs));
    let d = text(decimal(s.dup_msgs));
    let k = text(decimal(s.disconnects));
    let x = cells(parts) + text(" "@) + c;
    lemma_assoc(x, b + r + b + d + b, k);
    lemma_assoc(x, b + r + b + d, b);
    lemma_assoc(x, b + r + b, d);
    lemma_assoc(x, b + r, b);
    lemma_assoc(x, b, r);
    lemma_next(parts, c);
    lemma_next(parts.push(c), r);
    lemma_next(parts.push(c).push(r), d);
}

/// The line of a feed has its name, the number of its latencies, its messages, its
/// repetitions and its lost connections, and then the distribution of its latencies, each
/// number under its heading.
#[verifier::rlimit(40)]
pub proof fn the_line_of_a_feed(s: StatsView) -> (at: Seq<int>)
    requires
        is_available(s),
        s.latencies_ns.len() > 0,
    ensures
        are_columns(at, s.latencies_ns.len() as int),
        latency_line(s) == row(
            seq![
                text(s.name),
                text(decimal(s.latencies_ns.len())),
                text(decimal(s.raw_msgs)),
                text(decimal(s.dup_msgs)),
                text(decimal(s.disconnects)),
            ] + columns(ascending(s.latencies_ns), at),
        ),
{
    let sorted = ascending(s.latencies_ns);
    lemma_ascending_sorted(s.latencies_ns);
    let n = text(s.name);
    let c = text(decimal(s.latencies_ns.len()));
    let r = text(decimal(s.raw_msgs));
    let d = text(decimal(s.dup_msgs));
    let k = text(decimal(s.disconnects));
    let e = Seq::<Seq<Glyph>>::empty();
    let b = text(" | "@);
    lemma_begin();
    lemma_next(e, n);
    lemma_counters(e.push(n), c, s);
    let p = e.push(n).push(c).push(r).push(d);
    lemma_next(p, k);
    let q = p.push(k);
    lemma_dist(q, sorted);
    lemma_positions(sorted.len() as int);
    assert(q =~= seq![n, c, r, d, k]);
    positions(sorted.len() as int)
}

/// The line of a feed that takes no part says whether it is unavailable or has no data,
/// with its counters and without numbers.
#[verifier::rlimit(40)]
pub proof fn the_line_of_a_feed_without_data(s: StatsView)
    requires
        !is_available(s),
    ensures
        ({
            let none = text("-"@);
            latency_line(s) == row(
                seq![
                    text(s.name),
                    text(
                        match s.unavailable {
                            Some(_) => "unavailable"@,
                            None => "no data"@,
                        },
                    ),
                    text(decimal(s.raw_msgs)),
                    text(decimal(s.dup_msgs)),
                    text(decimal(s.disconnects)),
                    none,
                    none,
                    none,
                    none,
                    none,
                    none,
                ],
            )
        }),
{
    let none = text("-"@);
    let n = text(s.name);
    let c = text(
        if s.unavailable is Some {
            "unavailable"@
        } else {
            "no data"@
        },
    );
    let r = text(decimal(s.raw_msgs));
    let d = text(decimal(s.dup_msgs));
    let k = text(decimal(s.disconnects));
    let e = Seq::<Seq<Glyph>>::empty();
    let b = text(" | "@);
    let z = text(" |\n"@);
    lemma_begin();
    lemma_next(e, n);
    lemma_counters(e.push(n), c, s);
    let p = e.push(n).push(c).push(r).push(d);
    let x = cells(p) + text(" "@) + k;
    let dashes = b + none + b + none + b + none + b + none + b + none + b + none + z;
    assert(text(" | - | - | - | - | - | - |\n"@) =~= dashes) by {
        reveal_strlit(" | - | - | - | - | - | - |\n");
        reveal_strlit(" | ");
        reveal_strlit("-");
        reveal_strlit(" |\n");
    }
    lemma_dashes(x, b, none, z);
    lemma_next(p, k);
    let q = p.push(k);
    lemma_next(q, none);
    lemma_next(q.push(none), none);
    lemma_next(q.push(none).push(none), none);
    lemma_next(q.push(none).push(none).push(none), none);
    lemma_next(q.push(none).push(none).push(none).push(none), none);
    lemma_end(q.push(none).push(none).push(none).push(none).push(none), none);
    assert(q.push(none).push(none).push(none).push(none).push(none).push(none) =~= seq![
        n,
        c,
        r,
        d,
        k,
        none,
        none,
        none,
        none,
        none,
        none,
    ]);
}

proof fn lemma_dashes(x: Seq<Glyph>, b: Seq<Glyph>, o: Seq<Glyph>, z: Seq<Glyph>)
    ensures
        x + (b + o + b + o + b + o + b + o + b + o + b + o + z) == x + b + o + b + o + b + o + b
            + o + b + o + b + o + z,
{
    lemma_assoc(x, b + o + b + o + b + o + b + o + b + o + b + o, z);
    lemma_assoc(x, b + o + b + o + b + o + b + o + b + o + b, o);
    lemma_assoc(x, b + o + b + o + b + o + b + o + b + o, b);
    lemma_assoc(x, b + o + b + o + b + o + b + o + b, o);
    lemma_assoc(x, b + o + b + o + b + o + b + o, b);
    lemma_assoc(x, b + o + b + o + b + o + b, o);
    lemma_assoc(x, b + o + b + o + b + o, b);
    lemma_assoc(x, b + o + b + o + b, o);
    lemma_assoc(x, b + o + b + o, b);
    lemma_assoc(x, b + o + b, o);
    lemma_assoc(x, b + o, b);
    lemma_assoc(x, b, o);
}

/// Texts one behind the other.
pub open spec fn joined(parts: Seq<Seq<Glyph>>) -> Seq<Glyph>
    decreases parts.len(),
{
    if parts.len() == 0 {
        Seq::empty()
    } else {
        joined(parts.drop_last()) + parts.last()
    }
}

proof fn lemma_joined_push(parts: Seq<Seq<Glyph>>, part: Seq<Glyph>)
    ensures
        joined(parts.push(part)) == joined(parts) + part,
{
    assert(parts.push(part).drop_last() =~= parts);
}

/// The table of latencies has a line for each feed, in order, under its headings.
pub proof fn every_feed_has_its_line(stats: Seq<StatsView>)
    ensures
        latency_text(stats) == text(
            "\n## 报告 1:单链路延迟(local_time − msg.time,单位 ms)\n\n"@,
        ) + text(
            "| 链路 | 样本(去重) | 原始消息 | 重复 | 断线 | min | p25 | p50 | p75 | p99 | max |\n"@,
        ) + text("|---|---|---|---|---|---|---|---|---|---|---|\n"@) + joined(
            Seq::new(stats.len(), |i: int| latency_line(stats[i])),
        ),
{
    lemma_lines(stats);
}

proof fn lemma_lines(stats: Seq<StatsView>)
    ensures
        latency_lines(stats) == joined(Seq::new(stats.len(), |i: int| latency_line(stats[i]))),
    decreases stats.len(),
{
    if stats.len() > 0 {
        let p = stats.drop_last();
        lemma_lines(p);
        assert(Seq::new(stats.len(), |i: int| latency_line(stats[i])).drop_last() =~= Seq::new(
            p.len(),
            |i: int| latency_line(p[i]),
        ));
    }
}

/// The report names the time at which it was made, the coin, how long was measured and how
/// long the warm-up was; each feed that could not be reached is noted with its reason; the
/// latencies follow, and then who was first.
#[verifier::rlimit(40)]
pub proof fn the_report_has_all_its_parts(
    stats: Seq<StatsView>,
    coin: Seq<char>,
    generated_at: Seq<char>,
    measured_ns: u64,
    warmup_secs: nat,
)
    ensures
        report_text(stats, coin, generated_at, measured_ns, warmup_secs) == joined(
            seq![
                text("# HyperLiquid bbo 行情延迟对比报告\n\n- 生成时间: "@),
                text(generated_at),
                text("\n- 币种: "@),
                text(coin),
                text("\n- 有效测量时长: "@),
                seq![Glyph::Seconds(measured_ns)],
                text("s(预热丢弃前 "@),
                text(decimal(warmup_secs)),
                text(
                    "s)\n- 时钟: CLOCK_REALTIME;单链路绝对延迟含本机 NTP 偏差,链路间对比不受影响\n"@,
                ),
                text("- 样本按 (coin, time) 去重,同一 time 只取首达消息\n\n"@),
            ],
        ) + joined(Seq::new(stats.len(), |i: int| note(stats[i]))) + latency_text(stats)
            + first_text(stats),
{
    let p0 = text("# HyperLiquid bbo 行情延迟对比报告\n\n- 生成时间: "@);
    let p1 = text(generated_at);
    let p2 = text("\n- 币种: "@);
    let p3 = text(coin);
    let p4 = text("\n- 有效测量时长: "@);
    let p5 = seq![Glyph::Seconds(measured_ns)];
    let p6 = text("s(预热丢弃前 "@);
    let p7 = text(decimal(warmup_secs));
    let p8 = text("s)\n- 时钟: CLOCK_REALTIME;单链路绝对延迟含本机 NTP 偏差,链路间对比不受影响\n"@);
    let p9 = text("- 样本按 (coin, time) 去重,同一 time 只取首达消息\n\n"@);
    let e = Seq::<Seq<Glyph>>::empty();
    lemma_joined_push(e, p0);
    assert(joined(e) + p0 =~= p0);
    let q1 = e.push(p0).push(p1);
    lemma_joined_push(e.push(p0), p1);
    lemma_joined_push(q1, p2);
    let q2 = q1.push(p2);
    lemma_joined_push(q2, p3);
    let q3 = q2.push(p3);
    lemma_joined_push(q3, p4);
    let q4 = q3.push(p4);
    lemma_joined_push(q4, p5);
    let q5 = q4.push(p5);
    lemma_joined_push(q5, p6);
    let q6 = q5.push(p6);
    lemma_joined_push(q6, p7);
    let q7 = q6.push(p7);
    lemma_joined_push(q7, p8);
    let q8 = q7.push(p8);
    lemma_joined_push(q8, p9);
    assert(q8.push(p9) =~= seq![p0, p1, p2, p3, p4, p5, p6, p7, p8, p9]);
    lemma_notes(stats);
}

/// What is noted of a feed above the tables.
pub open spec fn note(s: StatsView) -> Seq<Glyph> {
    match s.unavailable {
        Some(reason) => text("> ⚠️ 链路 `"@) + text(s.name) + text("` 不可用,已跳过: "@) + text(reason)
            + text("\n"@),
        None => Seq::empty(),
    }
}

proof fn lemma_notes(stats: Seq<StatsView>)
    ensures
        skipped_text(stats) == joined(Seq::new(stats.len(), |i: int| note(stats[i]))),
    decreases stats.len(),
{
    if stats.len() > 0 {
        let p = stats.drop_last();
        lemma_notes(p);
        assert(Seq::new(stats.len(), |i: int| note(stats[i])).drop_last() =~= Seq::new(
            p.len(),
            |i: int| note(p[i]),
        ));
    }
}

/// The section of two feeds names both, says how many updates both have, how often each of
/// them was first and how often both came at once, and gives the distribution of the
/// differences, each number under its heading.
pub proof fn the_section_of_two_feeds(a: StatsView, b: StatsView) -> (at: Seq<int>)
    requires
        delays(a.updates, b.updates).len() > 0,
    ensures
        are_columns(at, delays(a.updates, b.updates).len() as int),
        ({
            let d = delays(a.updates, b.updates);
            let n = d.len();
            let later = Set::new(|k: int| 0 <= k < d.len() && d[k] > 0).len();
            let earlier = Set::new(|k: int| 0 <= k < d.len() && d[k] < 0).len();
            let at_once = Set::new(|k: int| 0 <= k < d.len() && d[k] == 0).len();
            pair_text(a, b) == joined(
                seq![
                    text("### "@) + text(a.name) + text(" vs "@) + text(b.name) + text("\n\n"@),
                    text("- 匹配样本: "@) + text(decimal(n)) + text("\n- "@),
                    text(a.name) + text(" 先到: "@) + text(decimal(later)) + text(" ("@) + seq![
                        Glyph::Percent(later as u64, n as u64),
                    ] + text("%),"@),
                    text(b.name) + text(" 先到: "@) + text(decimal(earlier)) + text(" ("@) + seq![
                        Glyph::Percent(earlier as u64, n as u64),
                    ] + text("%),同时: "@),
                    text(decimal(at_once)) + text("\n- 到达时差 ("@) + text(b.name) + text(" − "@)
                        + text(a.name) + text(",ms,正数 = "@) + text(a.name) + text(" 更快):\n"@),
                    text("\n"@),
                    text("| min | p25 | p50 | p75 | p99 | max |\n"@),
                    text("|---|---|---|---|---|---|\n"@),
                    row(columns(ascending(d), at)),
                    text("\n"@),
                ],
            )
        }),
{
    let d = delays(a.updates, b.updates);
    the_earlier_feed_is_first(d);
    lemma_ascending_sorted(d);
    lemma_section(a.name, b.name, d);
    lemma_positions(d.len() as int);
    let at = positions(d.len() as int);
    at
}

spec fn section(a: Seq<char>, b: Seq<char>, d: Seq<i64>) -> Seq<Seq<Glyph>> {
    let n = d.len();
    seq![
        text("### "@) + text(a) + text(" vs "@) + text(b) + text("\n\n"@),
        text("- 匹配样本: "@) + text(decimal(n)) + text("\n- "@),
        text(a) + text(" 先到: "@) + text(decimal(positive(d))) + text(" ("@) + seq![
            Glyph::Percent(positive(d) as u64, n as u64),
        ] + text("%),"@),
        text(b) + text(" 先到: "@) + text(decimal(negative(d))) + text(" ("@) + seq![
            Glyph::Percent(negative(d) as u64, n as u64),
        ] + text("%),同时: "@),
        text(decimal(zero(d))) + text("\n- 到达时差 ("@) + text(b) + text(" − "@) + text(a) + text(
            ",ms,正数 = "@,
        ) + text(a) + text(" 更快):\n"@),
        text("\n"@),
        text("| min | p25 | p50 | p75 | p99 | max |\n"@),
        text("|---|---|---|---|---|---|\n"@),
        row(columns(ascending(d), positions(d.len() as int))),
        text("\n"@),
    ]
}

#[verifier::rlimit(40)]
proof fn lemma_section(a: Seq<char>, b: Seq<char>, d: Seq<i64>)
    requires
        d.len() > 0,
    ensures
        text("### "@) + text(a) + text(" vs "@) + text(b) + text("\n\n"@) + (outcome_text(a, b, d)
            + lead_text(a, b, ascending(d))) == joined(section(a, b, d)),
{
    let s = section(a, b, d);
    lemma_ascending_sorted(d);
    let h = s[0];
    let sorted = ascending(d);
    let line = text("| "@) + dist_row_text(sorted) + text(" |\n"@);
    lemma_begin();
    lemma_dist(Seq::empty(), sorted);
    let at = positions(d.len() as int);
    assert(Seq::<Seq<Glyph>>::empty() + columns(sorted, at) =~= columns(sorted, at));
    assert(line == s[8]);
    let o = text("\n- 到达时差 ("@) + text(b) + text(" − "@) + text(a) + text(",ms,正数 = "@) + text(a)
        + text(" 更快):\n"@);
    lemma_outcome(a, b, d);
    lemma_lead(a, b, sorted);
    let z = text(decimal(zero(d)));
    let tail = o + s[5] + s[6] + s[7] + line + s[9];
    let e = Seq::<Seq<Glyph>>::empty();
    assert(s[4] == z + text("\n- 到达时差 ("@) + text(b) + text(" − "@) + text(a) + text(
        ",ms,正数 = "@,
    ) + text(a) + text(" 更快):\n"@));
    assert(z + o =~= s[4]);
    assert(h + ((s[1] + s[2] + s[3] + z) + tail) =~= h + s[1] + s[2] + s[3] + (z + o) + s[5] + s[6]
        + s[7] + line + s[9]) by {
        lemma_regroup(h, s[1], s[2], s[3], z, o, s[5], s[6], s[7], line, s[9]);
    }
    let q1 = e.push(s[0]);
    let q2 = q1.push(s[1]);
    let q3 = q2.push(s[2]);
    let q4 = q3.push(s[3]);
    let q5 = q4.push(s[4]);
    let q6 = q5.push(s[5]);
    let q7 = q6.push(s[6]);
    let q8 = q7.push(s[7]);
    let q9 = q8.push(s[8]);
    lemma_joined_push(e, s[0]);
    assert(joined(e) + s[0] =~= s[0]);
    lemma_joined_push(q1, s[1]);
    lemma_joined_push(q2, s[2]);
    lemma_joined_push(q3, s[3]);
    lemma_joined_push(q4, s[4]);
    lemma_joined_push(q5, s[5]);
    lemma_joined_push(q6, s[6]);
    lemma_joined_push(q7, s[7]);
    lemma_joined_push(q8, s[8]);
    lemma_joined_push(q9, s[9]);
    assert(q9.push(s[9]) =~= s);
}

proof fn lemma_regroup(
    h: Seq<Glyph>,
    s1: Seq<Glyph>,
    s2: Seq<Glyph>,
    s3: Seq<Glyph>,
    z: Seq<Glyph>,
    o: Seq<Glyph>,
    s5: Seq<Glyph>,
    s6: Seq<Glyph>,
    s7: Seq<Glyph>,
    l: Seq<Glyph>,
    s9: Seq<Glyph>,
)
    ensures
        h + ((s1 + s2 + s3 + z) + (o + s5 + s6 + s7 + l + s9)) == h + s1 + s2 + s3 + (z + o) + s5
            + s6 + s7 + l + s9,
{
    let x = s1 + s2 + s3 + z;
    lemma_assoc(x, o + s5 + s6 + s7 + l, s9);
    lemma_assoc(x, o + s5 + s6 + s7, l);
    lemma_assoc(x, o + s5 + s6, s7);
    lemma_assoc(x, o + s5, s6);
    lemma_assoc(x, o, s5);
    lemma_assoc(s1 + s2 + s3, z, o);
    let y = s1 + s2 + s3 + (z + o);
    lemma_assoc(h, y + s5 + s6 + s7 + l, s9);
    lemma_assoc(h, y + s5 + s6 + s7, l);
    lemma_assoc(h, y + s5 + s6, s7);
    lemma_assoc(h, y + s5, s6);
    lemma_assoc(h, y, s5);
    lemma_assoc(h, s1 + s2 + s3, z + o);
    lemma_assoc(h, s1 + s2, s3);
    lemma_assoc(h, s1, s2);
}

proof fn lemma_outcome(a: Seq<char>, b: Seq<char>, d: Seq<i64>)
    ensures
        outcome_text(a, b, d) == section(a, b, d)[1] + section(a, b, d)[2] + section(a, b, d)[3]
            + text(decimal(zero(d))),
{
    let s = section(a, b, d);
    let n = d.len() as u64;
    let x = led_text(a, positive(d), n);
    let y = led_text(b, negative(d), n);
    assert(s[2] == x + text("%),"@));
    assert(s[3] == y + text("%),同时: "@));
    lemma_assoc(s[1], x, text("%),"@));
    lemma_assoc(s[1] + s[2], y, text("%),同时: "@));
}

#[verifier::rlimit(40)]
proof fn lemma_lead(a: Seq<char>, b: Seq<char>, sorted: Seq<i64>)
    ensures
        ({
            let o = text("\n- 到达时差 ("@) + text(b) + text(" − "@) + text(a) + text(
                ",ms,正数 = "@,
            ) + text(a) + text(" 更快):\n"@);
            lead_text(a, b, sorted) == o + text("\n"@) + text(
                "| min | p25 | p50 | p75 | p99 | max |\n"@,
            ) + text("|---|---|---|---|---|---|\n"@) + (text("| "@) + dist_row_text(sorted) + text(
                " |\n"@,
            )) + text("\n"@)
        }),
{
    let o = text("\n- 到达时差 ("@) + text(b) + text(" − "@) + text(a) + text(",ms,正数 = "@) + text(a)
        + text(" 更快):\n"@);
    let n = text("\n"@);
    let t = text("| min | p25 | p50 | p75 | p99 | max |\n"@);
    let u = text("|---|---|---|---|---|---|\n"@);
    let v = text("| "@);
    let w = text(" |\n"@);
    let m = dist_row_text(sorted);
    assert(text("\n| min | p25 | p50 | p75 | p99 | max |\n|---|---|---|---|---|---|\n| "@) =~= n + t
        + u + v) by {
        reveal_strlit("\n| min | p25 | p50 | p75 | p99 | max |\n|---|---|---|---|---|---|\n| ");
        reveal_strlit("\n");
        reveal_strlit("| min | p25 | p50 | p75 | p99 | max |\n");
        reveal_strlit("|---|---|---|---|---|---|\n");
        reveal_strlit("| ");
    }
    assert(text(" |\n\n"@) =~= w + n) by {
        reveal_strlit(" |\n\n");
        reveal_strlit(" |\n");
        reveal_strlit("\n");
    }
    lemma_assoc(o, n + t + u, v);
    lemma_assoc(o, n + t, u);
    lemma_assoc(o, n, t);
    lemma_assoc(o + n + t + u, v, m);
    lemma_assoc(o + n + t + u, v + m, w);
    lemma_assoc(o + n + t + u + v + m, w, n);
}

/// Two feeds without a common update have a section that says so.
pub proof fn the_section_without_common_updates(a: StatsView, b: StatsView)
    requires
        delays(a.updates, b.updates).len() == 0,
    ensures
        pair_text(a, b) == text("### "@) + text(a.name) + text(" vs "@) + text(b.name) + text(
            "\n\n"@,
        ) + text("无共同 time 样本。\n\n"@),
{
}

/// The headings of the table of latencies.
#[verifier::rlimit(40)]
pub proof fn the_headings_of_the_latencies()
    ensures
        text(
            "| 链路 | 样本(去重) | 原始消息 | 重复 | 断线 | min | p25 | p50 | p75 | p99 | max |\n"@,
        ) == row(
            seq![text("链路"@), text("样本(去重)"@), text("原始消息"@), text("重复"@), text("断线"@)]
                + Seq::new(headings().len(), |c: int| text(headings()[c])),
        ),
{
    let b = text(" | "@);
    let n0 = text("链路"@);
    let n1 = text("样本(去重)"@);
    let n2 = text("原始消息"@);
    let n3 = text("重复"@);
    let n4 = text("断线"@);
    let m0 = text("min"@);
    let m1 = text("p25"@);
    let m2 = text("p50"@);
    let m3 = text("p75"@);
    let m4 = text("p99"@);
    let m5 = text("max"@);
    let e = Seq::<Seq<Glyph>>::empty();
    assert(text(
        "| 链路 | 样本(去重) | 原始消息 | 重复 | 断线 | min | p25 | p50 | p75 | p99 | max |\n"@,
    ) =~= text("| "@) + n0 + b + n1 + b + n2 + b + n3 + b + n4 + b + m0 + b + m1 + b + m2 + b + m3
        + b + m4 + b + m5 + text(" |\n"@)) by {
        reveal_strlit(
            "| 链路 | 样本(去重) | 原始消息 | 重复 | 断线 | min | p25 | p50 | p75 | p99 | max |\n",
        );
        reveal_strlit("| ");
        reveal_strlit(" | ");
        reveal_strlit(" |\n");
        reveal_strlit("链路");
        reveal_strlit("样本(去重)");
        reveal_strlit("原始消息");
        reveal_strlit("重复");
        reveal_strlit("断线");
        reveal_strlit("min");
        reveal_strlit("p25");
        reveal_strlit("p50");
        reveal_strlit("p75");
        reveal_strlit("p99");
        reveal_strlit("max");
    }
    let p0 = e.push(n0);
    let p1 = p0.push(n1);
    let p2 = p1.push(n2);
    let p3 = p2.push(n3);
    let p4 = p3.push(n4);
    let p5 = p4.push(m0);
    let p6 = p5.push(m1);
    let p7 = p6.push(m2);
    let p8 = p7.push(m3);
    let p9 = p8.push(m4);
    lemma_begin();
    lemma_next(e, n0);
    lemma_next(p0, n1);
    lemma_next(p1, n2);
    lemma_next(p2, n3);
    lemma_next(p3, n4);
    lemma_next(p4, m0);
    lemma_next(p5, m1);
    lemma_next(p6, m2);
    lemma_next(p7, m3);
    lemma_next(p8, m4);
    lemma_end(p9, m5);
    assert(p9.push(m5) =~= seq![n0, n1, n2, n3, n4] + Seq::new(
        headings().len(),
        |c: int| text(headings()[c]),
    ));
}

proof fn lemma_joined_concat(a: Seq<Seq<Glyph>>, b: Seq<Seq<Glyph>>)
    ensures
        joined(a + b) == joined(a) + joined(b),
    decreases b.len(),
{
    if b.len() == 0 {
        assert(a + b =~= a);
        assert(joined(a) + joined(b) =~= joined(a));
    } else {
        lemma_joined_concat(a, b.drop_last());
        assert((a + b).drop_last() =~= a + b.drop_last());
        lemma_assoc(joined(a), joined(b.drop_last()), b.last());
    }
}

/// The sections of some pairs of feeds.
pub open spec fn sections(feeds: Seq<StatsView>, pairs: Seq<(int, int)>) -> Seq<Seq<Glyph>> {
    Seq::new(pairs.len(), |k: int| pair_text(feeds[pairs[k].0], feeds[pairs[k].1]))
}

/// One pair stands before another: the first feed decides, and then the second.
pub open spec fn before(x: (int, int), y: (int, int)) -> bool {
    x.0 < y.0 || (x.0 == y.0 && x.1 < y.1)
}

/// These are all pairs of `n` feeds, each once and in order, the feed that is listed first
/// in front.
pub open spec fn are_all_pairs(pairs: Seq<(int, int)>, n: int) -> bool {
    &&& forall|k: int|
        0 <= k < pairs.len() ==> 0 <= (#[trigger] pairs[k]).0 && pairs[k].0 < pairs[k].1
            && pairs[k].1 < n
    &&& forall|k: int, l: int|
        0 <= k < l < pairs.len() ==> before(#[trigger] pairs[k], #[trigger] pairs[l])
    &&& forall|i: int, j: int| 0 <= i < j < n ==> #[trigger] pairs.contains((i, j))
}

spec fn pairs_with(i: int, j: int) -> Seq<(int, int)> {
    Seq::new(
        if j > i + 1 {
            (j - i - 1) as nat
        } else {
            0
        },
        |k: int| (i, i + 1 + k),
    )
}

#[verifier::rlimit(40)]
proof fn lemma_pairs_with(feeds: Seq<StatsView>, i: int, j: int)
    ensures
        pairs_of(feeds, i, j) == joined(sections(feeds, pairs_with(i, j))),
    decreases j - i,
{
    let s = sections(feeds, pairs_with(i, j));
    if j > i + 1 {
        lemma_pairs_with(feeds, i, j - 1);
        assert(s.drop_last() =~= sections(feeds, pairs_with(i, j - 1)));
    } else {
        assert(s =~= Seq::empty());
    }
}

spec fn pairs_up_to(i: int, n: int) -> Seq<(int, int)>
    decreases i,
{
    if i <= 0 {
        Seq::empty()
    } else {
        pairs_up_to(i - 1, n) + pairs_with(i - 1, n)
    }
}

proof fn lemma_pairs_text(feeds: Seq<StatsView>, i: int)
    requires
        0 <= i <= feeds.len(),
    ensures
        pairs_text(feeds, i) == joined(sections(feeds, pairs_up_to(i, feeds.len() as int))),
    decreases i,
{
    let n = feeds.len() as int;
    if i > 0 {
        let p = pairs_up_to(i - 1, n);
        let q = pairs_with(i - 1, n);
        lemma_pairs_text(feeds, i - 1);
        lemma_pairs_with(feeds, i - 1, n);
        assert(sections(feeds, p + q) =~= sections(feeds, p) + sections(feeds, q));
        lemma_joined_concat(sections(feeds, p), sections(feeds, q));
    } else {
        assert(sections(feeds, pairs_up_to(i, n)) =~= Seq::empty());
    }
}

proof fn lemma_pairs_in_range(i: int, n: int)
    requires
        0 <= i <= n,
    ensures
        forall|k: int|
            0 <= k < pairs_up_to(i, n).len() ==> 0 <= (#[trigger] pairs_up_to(i, n)[k]).0
                && pairs_up_to(i, n)[k].0 < i && pairs_up_to(i, n)[k].0 < pairs_up_to(i, n)[k].1
                && pairs_up_to(i, n)[k].1 < n,
    decreases i,
{
    if i > 0 {
        let p = pairs_up_to(i - 1, n);
        let q = pairs_with(i - 1, n);
        lemma_pairs_in_range(i - 1, n);
        assert forall|k: int| 0 <= k < (p + q).len() implies 0 <= (#[trigger] (p + q)[k]).0 && (p
            + q)[k].0 < i && (p + q)[k].0 < (p + q)[k].1 && (p + q)[k].1 < n by {
            if k < p.len() {
                assert((p + q)[k] == p[k]);
            } else {
                assert((p + q)[k] == q[k - p.len()]);
            }
        }
    }
}

proof fn lemma_pairs_in_order(i: int, n: int)
    requires
        0 <= i <= n,
    ensures
        forall|k: int, l: int|
            0 <= k < l < pairs_up_to(i, n).len() ==> before(
                #[trigger] pairs_up_to(i, n)[k],
                #[trigger] pairs_up_to(i, n)[l],
            ),
    decreases i,
{
    if i > 0 {
        let p = pairs_up_to(i - 1, n);
        let q = pairs_with(i - 1, n);
        lemma_pairs_in_order(i - 1, n);
        lemma_pairs_in_range(i - 1, n);
        assert forall|k: int, l: int| 0 <= k < l < (p + q).len() implies before(
            #[trigger] (p + q)[k],
            #[trigger] (p + q)[l],
        ) by {
            if l < p.len() {
                assert((p + q)[k] == p[k] && (p + q)[l] == p[l]);
            } else {
                assert((p + q)[l] == q[l - p.len()]);
                if k < p.len() {
                    assert((p + q)[k] == p[k]);
                } else {
                    assert((p + q)[k] == q[k - p.len()]);
                }
            }
        }
    }
}

proof fn lemma_pair_is_there(i: int, n: int, a: int, b: int)
    requires
        0 <= a < i <= n,
        a < b < n,
    ensures
        pairs_up_to(i, n).contains((a, b)),
    decreases i,
{
    let p = pairs_up_to(i - 1, n);
    let q = pairs_with(i - 1, n);
    if a < i - 1 {
        lemma_pair_is_there(i - 1, n, a, b);
        let k = choose|k: int| 0 <= k < p.len() && p[k] == (a, b);
        assert((p + q)[k] == (a, b));
    } else {
        assert(q[b - i] == (a, b));
        assert((p + q)[p.len() + b - i] == (a, b));
    }
}

/// Every pair of feeds has its section, once, in the order of the feeds.
pub proof fn every_pair_has_its_section(feeds: Seq<StatsView>) -> (pairs: Seq<(int, int)>)
    ensures
        are_all_pairs(pairs, feeds.len() as int),
        pairs_text(feeds, feeds.len() as int) == joined(sections(feeds, pairs)),
{
    let n = feeds.len() as int;
    lemma_pairs_text(feeds, n);
    lemma_pairs_in_range(n, n);
    lemma_pairs_in_order(n, n);
    assert forall|i: int, j: int| 0 <= i < j < n implies #[trigger] pairs_up_to(n, n).contains(
        (i, j),
    ) by {
        lemma_pair_is_there(n, n, i, j);
    }
    pairs_up_to(n, n)
}

/// The line of a feed in the ranking: its name, with how many updates it was first, and in
/// how many percent of all.
pub open spec fn rank_line(name: Seq<char>, wins: nat, total: nat) -> Seq<Glyph> {
    text("| "@) + text(name) + text(" | "@) + text(decimal(wins)) + text(" | "@) + seq![
        Glyph::Percent(wins as u64, total as u64),
    ] + text("% |\n"@)
}

/// The order of the ranking lists every feed once: more wins first, and of feeds with as
/// many wins the one that is listed first.
pub open spec fn is_ranking(order: Seq<int>, wins: spec_fn(int) -> nat, n: int) -> bool {
    &&& order.len() == n
    &&& forall|i: int| 0 <= i < order.len() ==> 0 <= #[trigger] order[i] < n
    &&& forall|i: int, j: int|
        0 <= i < j < order.len() ==> wins(#[trigger] order[i]) > wins(#[trigger] order[j]) || (wins(
            order[i],
        ) == wins(order[j]) && order[i] < order[j])
}

/// With how many of the updates of the first feed feed `k` was first.
pub open spec fn won(feeds: Seq<StatsView>) -> spec_fn(int) -> nat {
    |k: int| first_places(feeds, feeds[0].updates, k).len()
}

/// The ranking says how many updates all feeds have, and has one line for each feed, with
/// the name of that feed and the number of updates with which it was first.
#[verifier::rlimit(40)]
pub proof fn every_feed_is_ranked_under_its_name(feeds: Seq<StatsView>) -> (order: Seq<int>)
    requires
        0 < feeds.len() <= usize::MAX,
        feeds[0].updates.len() <= u64::MAX,
        forall|f: int| 0 <= f < feeds.len() ==> distinct((#[trigger] feeds[f]).updates),
    ensures
        is_ranking(order, won(feeds), feeds.len() as int),
        ({
            let total = shared_places(feeds, feeds[0].updates).len();
            ranking_text(feeds) == text(
                "### 全交集首达排名(仅统计所有可用链路都收到的 time)\n\n"@,
            ) + if total == 0 {
                text("无全交集样本。\n"@)
            } else {
                text("全交集样本: "@) + text(decimal(total)) + text(
                    "\n\n| 链路 | 首达次数 | 首达率 |\n|---|---|---|\n"@,
                ) + joined(
                    Seq::new(
                        order.len(),
                        |i: int| rank_line(feeds[order[i]].name, won(feeds)(order[i]), total),
                    ),
                )
            }
        }),
{
    let wins = all_wins(feeds);
    let r = ranked(wins);
    let total = shared(feeds, feeds[0].updates);
    every_feed_is_ranked_once(wins);
    a_feed_wins_what_it_had_first(feeds, feeds[0].updates, 0);
    let order = Seq::new(r.len(), |i: int| r[i].0 as int);
    assert forall|k: int| 0 <= k < feeds.len() implies #[trigger] wins[k] == won(feeds)(k) by {
        a_feed_wins_what_it_had_first(feeds, feeds[0].updates, k);
        feeds[0].updates.lemma_filter_len(
            |u: UpdateView|
                seen_by_all(feeds, u) && winner(feeds, u) == k,
        );
        assert(wins_of(feeds, feeds[0].updates, k) <= feeds[0].updates.len());
    }
    assert forall|i: int| 0 <= i < r.len() implies (#[trigger] r[i]).1 == won(feeds)(
        r[i].0 as int,
    ) by {
        assert(wins[r[i].0 as int] == won(feeds)(r[i].0 as int));
    }
    assert forall|i: int, j: int| 0 <= i < j < order.len() implies won(feeds)(#[trigger] order[i])
        > won(feeds)(#[trigger] order[j]) || (won(feeds)(order[i]) == won(feeds)(order[j])
        && order[i] < order[j]) by {
        assert(r[i].1 == won(feeds)(order[i]));
        assert(r[j].1 == won(feeds)(order[j]));
    }
    lemma_rank_lines(feeds, r, total);
    assert(Seq::new(
        r.len(),
        |i: int| rank_line(feeds[r[i].0 as int].name, r[i].1 as nat, total),
    ) =~= Seq::new(
        order.len(),
        |i: int| rank_line(feeds[order[i]].name, won(feeds)(order[i]), total),
    ));
    order
}

proof fn lemma_rank_lines(feeds: Seq<StatsView>, order: Seq<(usize, u64)>, total: nat)
    ensures
        rank_lines(feeds, order, total) == joined(
            Seq::new(
                order.len(),
                |i: int| rank_line(feeds[order[i].0 as int].name, order[i].1 as nat, total),
            ),
        ),
    decreases order.len(),
{
    let all = Seq::new(
        order.len(),
        |i: int| rank_line(feeds[order[i].0 as int].name, order[i].1 as nat, total),
    );
    if order.len() > 0 {
        let p = order.drop_last();
        lemma_rank_lines(feeds, p, total);
        assert(all.drop_last() =~= Seq::new(
            p.len(),
            |i: int| rank_line(feeds[p[i].0 as int].name, p[i].1 as nat, total),
        ));
        let (k, w) = order.last();
        let x = rank_lines(feeds, p, total);
        let a = text("| "@);
        let b = text(feeds[k as int].name);
        let c = text(" | "@);
        let d = text(decimal(w as nat));
        let f = percent(w, total as u64);
        let g = text("% |\n"@);
        lemma_assoc(x, a + b + c + d + c + f, g);
        lemma_assoc(x, a + b + c + d + c, f);
        lemma_assoc(x, a + b + c + d, c);
        lemma_assoc(x, a + b + c, d);
        lemma_assoc(x, a + b, c);
        lemma_assoc(x, a, b);
        assert(all.last() == a + b + c + d + c + f + g);
    }
}

/// The feeds that take part are those that were reached and heard, in their order.
pub proof fn the_feeds_that_take_part(stats: Seq<StatsView>, s: StatsView)
    ensures
        available_feeds(Seq::empty()) == Seq::<StatsView>::empty(),
        s.unavailable is None && s.first_arrival.dom() != Set::<u64>::empty() ==> available_feeds(
            stats.push(s),
        ) == available_feeds(stats).push(s),
        s.unavailable is Some || s.first_arrival.dom() == Set::<u64>::empty() ==> available_feeds(
            stats.push(s),
        ) == available_feeds(stats),
{
    reveal(Seq::filter);
    assert(stats.push(s).drop_last() =~= stats);
    if s.first_arrival.dom() == Set::<u64>::empty() {
        assert(s.first_arrival =~= Map::empty());
    }
}

/// With two feeds or more that take part, the second part of the report has the section of
/// each pair of them and then the ranking of all of them; with fewer it says so.
pub proof fn the_second_part_compares_all_feeds(stats: Seq<StatsView>) -> (pairs: Seq<(int, int)>)
    ensures
        ({
            let feeds = available_feeds(stats);
            let title = text("\n## 报告 2:跨链路同一更新谁先到(pairwise,不受时钟偏差影响)\n\n"@);
            &&& are_all_pairs(pairs, feeds.len() as int)
            &&& feeds.len() < 2 ==> first_text(stats) == title + text(
                "可用链路不足 2 条,无法做 pairwise 对比。\n"@,
            )
            &&& feeds.len() >= 2 ==> first_text(stats) == title + joined(sections(feeds, pairs))
                + ranking_text(feeds)
        }),
{
    let feeds = available_feeds(stats);
    let title = text("\n## 报告 2:跨链路同一更新谁先到(pairwise,不受时钟偏差影响)\n\n"@);
    let pairs = every_pair_has_its_section(feeds);
    lemma_assoc(title, joined(sections(feeds, pairs)), ranking_text(feeds));
    pairs
}

} // verus!
