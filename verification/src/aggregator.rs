//! The aggregator, which takes in what the feeds report.

use vstd::prelude::*;

use crate::feed::Event;
use crate::stats::{
    all_reportable, all_wf, apply_event, can_count, fresh, kept_statistics_can_be_reported, views,
    with_event_of, FeedStats, StatsView,
};
use crate::text::{decimal, push_decimal, string_view};

verus! {

/// How long the aggregator waits between two lines about the samples so far.
pub const HEARTBEAT_INTERVAL_NS: u128 = 30_000_000_000;

/// The statistics of some feeds of which nothing has been heard.
pub fn fresh_stats(names: &Vec<&'static str>) -> (stats: Vec<FeedStats>)
    ensures
        all_wf(stats@),
        all_reportable(stats@),
        views(stats@) == names@.map_values(|name: &str| fresh(name@)),
{
    let mut stats: Vec<FeedStats> = Vec::new();
    let mut i: usize = 0;
    while i < names.len()
        invariant
            i == stats@.len() <= names@.len(),
            all_wf(stats@),
            forall|k: int| 0 <= k < i ==> (#[trigger] stats@[k])@ == fresh(names@[k]@),
        decreases names@.len() - i,
    {
        stats.push(FeedStats::new(names[i]));
        i += 1;
    }
    assert(views(stats@) =~= names@.map_values(|name: &str| fresh(name@)));
    proof {
        kept_statistics_can_be_reported(stats@);
    }
    stats
}

/// How many samples a feed has, or that it is unavailable.
pub open spec fn count_text(s: StatsView) -> Seq<char> {
    s.name + "="@ + if s.unavailable is Some {
        "unavailable"@
    } else {
        decimal(s.latencies_ns.len())
    }
}

/// How many samples each feed has.
pub open spec fn counts_text(stats: Seq<StatsView>) -> Seq<char>
    decreases stats.len(),
{
    if stats.len() == 0 {
        Seq::empty()
    } else if stats.len() == 1 {
        count_text(stats[0])
    } else {
        counts_text(stats.drop_last()) + " "@ + count_text(stats.last())
    }
}

/// The line about the samples so far.
pub open spec fn heartbeat_text(running_secs: nat, stats: Seq<StatsView>) -> Seq<char> {
    "[bench] t+"@ + decimal(running_secs) + "s samples: "@ + counts_text(stats)
}

fn push_count(out: &mut String, s: &FeedStats)
    ensures
        final(out)@ == old(out)@ + count_text(s@),
{
    out.append(s.name);
    out.append("=");
    if s.unavailable.is_some() {
        out.append("unavailable");
    } else {
        push_decimal(out, s.latencies_ns.len() as u64);
    }
    assert(out@ =~= old(out)@ + count_text(s@));
}

/// The line about the samples so far.
pub fn heartbeat(running_secs: u64, stats: &Vec<FeedStats>) -> (line: String)
    ensures
        line@ == heartbeat_text(running_secs as nat, views(stats@)),
{
    let ghost v = views(stats@);
    let mut line = String::from_str("[bench] t+");
    push_decimal(&mut line, running_secs);
    line.append("s samples: ");
    let ghost start = line@;
    let mut i: usize = 0;
    assert(v.take(0) =~= Seq::empty());
    assert(start =~= start + counts_text(v.take(0)));
    while i < stats.len()
        invariant
            v == views(stats@),
            i <= stats@.len(),
            line@ == start + counts_text(v.take(i as int)),
        decreases stats@.len() - i,
    {
        assert(v.take(i + 1).drop_last() =~= v.take(i as int));
        assert(v.take(i + 1).last() == stats@[i as int]@);
        if i > 0 {
            line.append(" ");
        }
        push_count(&mut line, &stats[i]);
        assert(line@ =~= start + counts_text(v.take(i + 1)));
        i += 1;
    }
    assert(v.take(v.len() as int) =~= v);
    line
}

/// What the aggregator prints.
#[derive(Debug)]
pub struct Lines {
    /// about a feed that is unavailable
    pub notice: Option<String>,
    /// about the samples so far
    pub heartbeat: Option<String>,
}

/// The statistics after a turn.
pub open spec fn after_turn(
    stats: Seq<StatsView>,
    event: Option<Event>,
    measure_start_ns: u64,
) -> Seq<StatsView> {
    match event {
        Some(e) => with_event_of(stats, e, measure_start_ns),
        None => stats,
    }
}

/// What is printed about an event.
pub open spec fn notice_text(stats: Seq<StatsView>, event: Option<Event>) -> Option<Seq<char>> {
    match event {
        Some(Event::Unavailable { feed, reason }) => Some(
            "[bench] feed "@ + stats[feed as int].name + " unavailable: "@ + reason@,
        ),
        _ => None,
    }
}

/// One turn of the aggregator: takes in the event that came, if one did, and says what
/// is printed. `quiet_ns` is the time since the last line about the samples and
/// `running_secs` the time since the start.
pub fn run_aggregator(
    stats: &mut Vec<FeedStats>,
    event: Option<Event>,
    measure_start_ns: u64,
    quiet_ns: u128,
    running_secs: u64,
) -> (lines: Lines)
    requires
        all_wf(old(stats)@),
        event matches Some(e) ==> e.of_feed() < old(stats)@.len() && can_count(
            old(stats)@[e.of_feed() as int],
            e,
        ),
    ensures
        all_wf(final(stats)@),
        all_reportable(final(stats)@),
        views(final(stats)@) == after_turn(views(old(stats)@), event, measure_start_ns),
        string_view(lines.notice) == notice_text(views(old(stats)@), event),
        string_view(lines.heartbeat) == if quiet_ns >= HEARTBEAT_INTERVAL_NS {
            Some(heartbeat_text(running_secs as nat, views(final(stats)@)))
        } else {
            None
        },
{
    proof {
        kept_statistics_can_be_reported(stats@);
    }
    let mut notice: Option<String> = None;
    if let Some(e) = event {
        if let Event::Unavailable { feed, reason } = &e {
            let mut line = String::from_str("[bench] feed ");
            line.append(stats[*feed].name);
            line.append(" unavailable: ");
            line.append(reason.as_str());
            notice = Some(line);
        }
        apply_event(stats, e, measure_start_ns);
    }
    let heartbeat = if quiet_ns >= HEARTBEAT_INTERVAL_NS {
        Some(heartbeat(running_secs, stats))
    } else {
        None
    };
    Lines { notice, heartbeat }
}

/// The line about the samples has an entry for each feed, in order and with a blank between
/// two of them: its name, and how many samples it has or that it is unavailable.
pub proof fn every_feed_is_in_the_heartbeat(
    running_secs: nat,
    stats: Seq<StatsView>,
    s: StatsView,
)
    ensures
        heartbeat_text(running_secs, Seq::empty()) == "[bench] t+"@ + decimal(running_secs)
            + "s samples: "@,
        ({
            let entry = s.name + "="@ + match s.unavailable {
                Some(_) => "unavailable"@,
                None => decimal(s.latencies_ns.len()),
            };
            heartbeat_text(running_secs, stats.push(s)) == heartbeat_text(running_secs, stats) + (
            if stats.len() == 0 {
                entry
            } else {
                " "@ + entry
            })
        }),
{
    assert(stats.push(s).drop_last() =~= stats);
    let h = "[bench] t+"@ + decimal(running_secs) + "s samples: "@;
    assert(h + counts_text(Seq::empty()) =~= h);
    assert(heartbeat_text(running_secs, Seq::empty()) =~= h);
    if stats.len() > 0 {
        assert(h + (counts_text(stats) + " "@ + count_text(s)) =~= h + counts_text(stats) + (" "@
            + count_text(s)));
    } else {
        assert(stats =~= Seq::empty());
    }
}

/// Only a feed that becomes unavailable is printed, with its name and its reason.
pub proof fn only_an_unavailable_feed_is_printed(
    stats: Seq<StatsView>,
    event: Option<Event>,
    feed: usize,
    reason: String,
)
    ensures
        notice_text(stats, Some(Event::Unavailable { feed, reason })) == Some(
            "[bench] feed "@ + stats[feed as int].name + " unavailable: "@ + reason@,
        ),
        !(event matches Some(Event::Unavailable { .. })) ==> notice_text(stats, event) is None,
{
}

/// A turn changes the feed that reports and no other.
pub proof fn a_turn_changes_one_feed(
    stats: Seq<StatsView>,
    event: Event,
    measure_start_ns: u64,
    other: int,
)
    requires
        event.of_feed() < stats.len(),
        0 <= other < stats.len(),
    ensures
        after_turn(stats, Some(event), measure_start_ns).len() == stats.len(),
        other != event.of_feed() ==> after_turn(stats, Some(event), measure_start_ns)[other]
            == stats[other],
        after_turn(stats, None, measure_start_ns) == stats,
{
}

} // verus!
