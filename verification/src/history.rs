//! What the statistics of the feeds say about the events that led to them.

use vstd::prelude::*;
use vstd::utf8::*;

use crate::aggregator::after_turn;
use crate::clock::wrapped;
use crate::content::{content, ContentView};
use crate::feed::Event;
use crate::stats::{
    arrival, consistent, fresh, is_available, lemma_stays_consistent, with_event, StatsView,
};

verus! {

/// All feeds after these events, as the aggregator takes them in, one in each turn.
pub open spec fn aggregated(
    stats: Seq<StatsView>,
    events: Seq<Event>,
    measure_start_ns: u64,
) -> Seq<StatsView>
    decreases events.len(),
{
    if events.len() == 0 {
        stats
    } else {
        let before = aggregated(stats, events.drop_last(), measure_start_ns);
        after_turn(before, Some(events.last()), measure_start_ns)
    }
}

/// One feed after those of the events that are its own.
pub open spec fn after_events(
    s: StatsView,
    feed: usize,
    events: Seq<Event>,
    measure_start_ns: u64,
) -> StatsView
    decreases events.len(),
{
    if events.len() == 0 {
        s
    } else {
        let before = after_events(s, feed, events.drop_last(), measure_start_ns);
        if events.last().of_feed() == feed {
            with_event(before, events.last(), measure_start_ns)
        } else {
            before
        }
    }
}

/// The feeds do not influence each other: what is kept of one feed is what its own
/// events alone lead to.
pub proof fn feeds_are_independent(
    stats: Seq<StatsView>,
    events: Seq<Event>,
    measure_start_ns: u64,
    feed: usize,
)
    requires
        feed < stats.len(),
        forall|i: int| 0 <= i < events.len() ==> (#[trigger] events[i]).of_feed() < stats.len(),
    ensures
        aggregated(stats, events, measure_start_ns).len() == stats.len(),
        aggregated(stats, events, measure_start_ns)[feed as int] == after_events(
            stats[feed as int],
            feed,
            events,
            measure_start_ns,
        ),
    decreases events.len(),
{
    if events.len() > 0 {
        let p = events.drop_last();
        assert forall|i: int| 0 <= i < p.len() implies (#[trigger] p[i]).of_feed()
            < stats.len() by {
            assert(events[i].of_feed() < stats.len());
        }
        assert(events[events.len() - 1].of_feed() < stats.len());
        feeds_are_independent(stats, p, measure_start_ns, feed);
    }
}

/// An event of the feed.
pub open spec fn is_own(e: Event, feed: usize) -> bool {
    e.of_feed() == feed
}

/// A turn of the aggregator with one more event leads on from what the events before it
/// have led to, and a turn without an event changes nothing.
pub proof fn a_turn_takes_in_one_event(
    stats: Seq<StatsView>,
    events: Seq<Event>,
    event: Event,
    measure_start_ns: u64,
)
    ensures
        aggregated(stats, events.push(event), measure_start_ns) == after_turn(
            aggregated(stats, events, measure_start_ns),
            Some(event),
            measure_start_ns,
        ),
        after_turn(stats, None, measure_start_ns) == stats,
{
    assert(events.push(event).drop_last() =~= events);
}

proof fn lemma_own_events(s: StatsView, feed: usize, events: Seq<Event>, measure_start_ns: u64)
    ensures
        after_events(s, feed, events, measure_start_ns) == after_events(
            s,
            feed,
            events.filter(|e: Event| is_own(e, feed)),
            measure_start_ns,
        ),
    decreases events.len(),
{
    reveal(Seq::filter);
    if events.len() > 0 {
        let own = events.drop_last().filter(|e: Event| is_own(e, feed));
        lemma_own_events(s, feed, events.drop_last(), measure_start_ns);
        assert(own.push(events.last()).drop_last() =~= own);
    }
}

/// Two runs of the aggregator in which a feed reports the same events, in the same order,
/// keep the same of that feed, whatever the other feeds report and whenever they do.
pub proof fn other_feeds_do_not_matter(
    stats: Seq<StatsView>,
    one: Seq<Event>,
    two: Seq<Event>,
    measure_start_ns: u64,
    feed: usize,
)
    requires
        feed < stats.len(),
        forall|i: int| 0 <= i < one.len() ==> (#[trigger] one[i]).of_feed() < stats.len(),
        forall|i: int| 0 <= i < two.len() ==> (#[trigger] two[i]).of_feed() < stats.len(),
        one.filter(|e: Event| is_own(e, feed)) == two.filter(|e: Event| is_own(e, feed)),
    ensures
        aggregated(stats, one, measure_start_ns)[feed as int] == aggregated(
            stats,
            two,
            measure_start_ns,
        )[feed as int],
{
    feeds_are_independent(stats, one, measure_start_ns, feed);
    feeds_are_independent(stats, two, measure_start_ns, feed);
    lemma_own_events(stats[feed as int], feed, one, measure_start_ns);
    lemma_own_events(stats[feed as int], feed, two, measure_start_ns);
}

/// A message of the feed.
pub open spec fn is_message(e: Event, feed: usize) -> bool {
    e is Sample && e.of_feed() == feed
}

/// A message of the feed that arrived before the measurement.
pub open spec fn is_early(e: Event, feed: usize, measure_start_ns: u64) -> bool {
    is_message(e, feed) && e->local_ns < measure_start_ns
}

/// A message of the feed with this exchange time that arrived in the measurement.
pub open spec fn is_measured(e: Event, feed: usize, measure_start_ns: u64, time_ms: u64) -> bool {
    is_message(e, feed) && e->local_ns >= measure_start_ns && e->time_ms == time_ms
}

/// Such a message that says `c`.
pub open spec fn is_measured_content(
    e: Event,
    feed: usize,
    measure_start_ns: u64,
    time_ms: u64,
    c: ContentView,
) -> bool {
    is_measured(e, feed, measure_start_ns, time_ms) && content(encode_utf8(e->text@)) == Some(c)
}

/// A lost connection of the feed.
pub open spec fn is_disconnect(e: Event, feed: usize) -> bool {
    e is Disconnect && e.of_feed() == feed
}

/// A feed stays consistent through any events: every message was dropped in the
/// warm-up, was a repetition or gave a latency, no update is kept twice, and every lost
/// connection is counted.
pub proof fn every_message_is_accounted_for(
    name: Seq<char>,
    feed: usize,
    events: Seq<Event>,
    measure_start_ns: u64,
)
    ensures
        ({
            let s = after_events(fresh(name), feed, events, measure_start_ns);
            &&& consistent(s)
            &&& s.raw_msgs == events.filter(|e: Event| is_message(e, feed)).len()
            &&& s.warmup_dropped == events.filter(
                |e: Event| is_early(e, feed, measure_start_ns),
            ).len()
            &&& s.disconnects == events.filter(|e: Event| is_disconnect(e, feed)).len()
        }),
    decreases events.len(),
{
    reveal(Seq::filter);
    if events.len() > 0 {
        let p = events.drop_last();
        every_message_is_accounted_for(name, feed, p, measure_start_ns);
        let before = after_events(fresh(name), feed, p, measure_start_ns);
        lemma_stays_consistent(before, events.last(), measure_start_ns);
    }
}

/// What arrives in the warm-up is counted and leaves no other trace: first arrivals,
/// latencies and updates are those of the other events alone.
pub proof fn the_warm_up_leaves_no_trace(
    name: Seq<char>,
    feed: usize,
    events: Seq<Event>,
    measure_start_ns: u64,
)
    ensures
        ({
            let later = events.filter(|e: Event| !is_early(e, feed, measure_start_ns));
            let s = after_events(fresh(name), feed, events, measure_start_ns);
            let t = after_events(fresh(name), feed, later, measure_start_ns);
            &&& s.first_arrival == t.first_arrival
            &&& s.latencies_ns == t.latencies_ns
            &&& s.updates == t.updates
            &&& s.dup_msgs == t.dup_msgs
            &&& t.warmup_dropped == 0
        }),
    decreases events.len(),
{
    reveal(Seq::filter);
    if events.len() > 0 {
        let p = events.drop_last();
        the_warm_up_leaves_no_trace(name, feed, p, measure_start_ns);
        let later = p.filter(|e: Event| !is_early(e, feed, measure_start_ns));
        assert(later.push(events.last()).drop_last() =~= later);
    }
}

/// The first arrival of an exchange time is that of the first message with this time
/// that arrived in the measurement; there is none without such a message. Later
/// messages do not change it.
pub proof fn first_arrival_is_the_first(
    name: Seq<char>,
    feed: usize,
    events: Seq<Event>,
    measure_start_ns: u64,
    time_ms: u64,
)
    ensures
        ({
            let s = after_events(fresh(name), feed, events, measure_start_ns);
            &&& s.first_arrival.contains_key(time_ms) <==> exists|i: int|
                0 <= i < events.len() && is_measured(
                    #[trigger] events[i],
                    feed,
                    measure_start_ns,
                    time_ms,
                )
            &&& forall|i: int|
                0 <= i < events.len() && is_measured(
                    #[trigger] events[i],
                    feed,
                    measure_start_ns,
                    time_ms,
                ) && (forall|j: int|
                    0 <= j < i ==> !is_measured(
                        #[trigger] events[j],
                        feed,
                        measure_start_ns,
                        time_ms,
                    )) ==> s.first_arrival[time_ms] == events[i]->local_ns
        }),
    decreases events.len(),
{
    if events.len() > 0 {
        let p = events.drop_last();
        let n = events.len() - 1;
        first_arrival_is_the_first(name, feed, p, measure_start_ns, time_ms);
        let before = after_events(fresh(name), feed, p, measure_start_ns);
        let s = after_events(fresh(name), feed, events, measure_start_ns);
        assert(forall|i: int| 0 <= i < n ==> #[trigger] p[i] == events[i]);
        if before.first_arrival.contains_key(time_ms) {
            let k = choose|k: int|
                0 <= k < p.len() && is_measured(#[trigger] p[k], feed, measure_start_ns, time_ms);
            assert(is_measured(events[k], feed, measure_start_ns, time_ms));
            assert(s.first_arrival.contains_key(time_ms));
            assert(s.first_arrival[time_ms] == before.first_arrival[time_ms]);
            assert forall|i: int|
                0 <= i < events.len() && is_measured(
                    #[trigger] events[i],
                    feed,
                    measure_start_ns,
                    time_ms,
                ) && (forall|j: int|
                    0 <= j < i ==> !is_measured(
                        #[trigger] events[j],
                        feed,
                        measure_start_ns,
                        time_ms,
                    )) implies s.first_arrival[time_ms] == events[i]->local_ns by {
                if i == n {
                    assert(!is_measured(events[k], feed, measure_start_ns, time_ms));
                } else {
                    assert(p[i] == events[i]);
                    assert forall|j: int| 0 <= j < i implies !is_measured(
                        #[trigger] p[j],
                        feed,
                        measure_start_ns,
                        time_ms,
                    ) by {
                        assert(p[j] == events[j]);
                    }
                }
            }
        } else {
            assert forall|i: int| 0 <= i < n implies !is_measured(
                #[trigger] events[i],
                feed,
                measure_start_ns,
                time_ms,
            ) by {
                assert(p[i] == events[i]);
            }
            if is_measured(events.last(), feed, measure_start_ns, time_ms) {
                assert(is_measured(events[n], feed, measure_start_ns, time_ms));
            }
        }
    }
}

/// The latencies of the first messages of each exchange time that arrived in the
/// measurement, in the order in which they arrived.
pub open spec fn first_latencies(
    events: Seq<Event>,
    feed: usize,
    measure_start_ns: u64,
) -> Seq<i64>
    decreases events.len(),
{
    if events.len() == 0 {
        Seq::empty()
    } else {
        let before = events.drop_last();
        let e = events.last();
        let known = first_latencies(before, feed, measure_start_ns);
        if is_measured(e, feed, measure_start_ns, e->time_ms) && !(exists|i: int|
            0 <= i < before.len() && is_measured(
                #[trigger] before[i],
                feed,
                measure_start_ns,
                e->time_ms,
            )) {
            known.push(wrapped(e->local_ns - e->time_ms * 1_000_000))
        } else {
            known
        }
    }
}

/// The latencies of a feed are those of the first messages of each exchange time that
/// arrived in the measurement, in the order in which they arrived.
pub proof fn latencies_are_those_of_first_messages(
    name: Seq<char>,
    feed: usize,
    events: Seq<Event>,
    measure_start_ns: u64,
)
    ensures
        after_events(fresh(name), feed, events, measure_start_ns).latencies_ns == first_latencies(
            events,
            feed,
            measure_start_ns,
        ),
    decreases events.len(),
{
    if events.len() > 0 {
        let before = events.drop_last();
        latencies_are_those_of_first_messages(name, feed, before, measure_start_ns);
        if is_message(events.last(), feed) {
            first_arrival_is_the_first(
                name,
                feed,
                before,
                measure_start_ns,
                events.last()->time_ms,
            );
        }
    }
}

/// An update is kept with the arrival of the first message with its exchange time and
/// content that arrived in the measurement; there is none without such a message.
pub proof fn update_arrival_is_the_first(
    name: Seq<char>,
    feed: usize,
    events: Seq<Event>,
    measure_start_ns: u64,
    time_ms: u64,
    c: ContentView,
)
    ensures
        ({
            let s = after_events(fresh(name), feed, events, measure_start_ns);
            &&& arrival(s.updates, time_ms, c) is Some <==> exists|i: int|
                0 <= i < events.len() && is_measured_content(
                    #[trigger] events[i],
                    feed,
                    measure_start_ns,
                    time_ms,
                    c,
                )
            &&& forall|i: int|
                0 <= i < events.len() && is_measured_content(
                    #[trigger] events[i],
                    feed,
                    measure_start_ns,
                    time_ms,
                    c,
                ) && (forall|j: int|
                    0 <= j < i ==> !is_measured_content(
                        #[trigger] events[j],
                        feed,
                        measure_start_ns,
                        time_ms,
                        c,
                    )) ==> arrival(s.updates, time_ms, c) == Some(events[i]->local_ns)
        }),
    decreases events.len(),
{
    if events.len() > 0 {
        let p = events.drop_last();
        let n = events.len() - 1;
        update_arrival_is_the_first(name, feed, p, measure_start_ns, time_ms, c);
        let before = after_events(fresh(name), feed, p, measure_start_ns);
        let s = after_events(fresh(name), feed, events, measure_start_ns);
        assert(forall|i: int| 0 <= i < n ==> #[trigger] p[i] == events[i]);
        lemma_one_more_update(before, events.last(), feed, measure_start_ns, time_ms, c);
        if arrival(before.updates, time_ms, c) is Some {
            let k = choose|k: int|
                0 <= k < p.len() && is_measured_content(
                    #[trigger] p[k],
                    feed,
                    measure_start_ns,
                    time_ms,
                    c,
                );
            assert(is_measured_content(events[k], feed, measure_start_ns, time_ms, c));
            assert forall|i: int|
                0 <= i < events.len() && is_measured_content(
                    #[trigger] events[i],
                    feed,
                    measure_start_ns,
                    time_ms,
                    c,
                ) && (forall|j: int|
                    0 <= j < i ==> !is_measured_content(
                        #[trigger] events[j],
                        feed,
                        measure_start_ns,
                        time_ms,
                        c,
                    )) implies arrival(s.updates, time_ms, c) == Some(events[i]->local_ns) by {
                if i == n {
                    assert(!is_measured_content(events[k], feed, measure_start_ns, time_ms, c));
                } else {
                    assert(p[i] == events[i]);
                    assert forall|j: int| 0 <= j < i implies !is_measured_content(
                        #[trigger] p[j],
                        feed,
                        measure_start_ns,
                        time_ms,
                        c,
                    ) by {
                        assert(p[j] == events[j]);
                    }
                }
            }
        } else {
            assert forall|i: int| 0 <= i < n implies !is_measured_content(
                #[trigger] events[i],
                feed,
                measure_start_ns,
                time_ms,
                c,
            ) by {
                assert(p[i] == events[i]);
            }
            if is_measured_content(events.last(), feed, measure_start_ns, time_ms, c) {
                assert(is_measured_content(events[n], feed, measure_start_ns, time_ms, c));
            }
        }
    }
}

/// What one more event does to the arrival of an update.
proof fn lemma_one_more_update(
    before: StatsView,
    e: Event,
    feed: usize,
    measure_start_ns: u64,
    time_ms: u64,
    c: ContentView,
)
    ensures
        ({
            let after = if e.of_feed() == feed {
                with_event(before, e, measure_start_ns)
            } else {
                before
            };
            arrival(after.updates, time_ms, c) == if arrival(before.updates, time_ms, c) is None
                && is_measured_content(e, feed, measure_start_ns, time_ms, c) {
                Some(e->local_ns)
            } else {
                arrival(before.updates, time_ms, c)
            }
        }),
{
    if e.of_feed() == feed {
        let after = with_event(before, e, measure_start_ns);
        if after.updates.len() > before.updates.len() {
            assert(after.updates.drop_last() =~= before.updates);
        }
    }
}

/// A feed keeps its name, and it is subscribed once it has reported so.
pub proof fn a_feed_is_subscribed_once_it_says_so(
    name: Seq<char>,
    feed: usize,
    events: Seq<Event>,
    measure_start_ns: u64,
)
    ensures
        after_events(fresh(name), feed, events, measure_start_ns).name == name,
        after_events(fresh(name), feed, events, measure_start_ns).subscribed <==> exists|i: int|
            0 <= i < events.len() && is_subscription(#[trigger] events[i], feed),
    decreases events.len(),
{
    if events.len() > 0 {
        let p = events.drop_last();
        let n = events.len() - 1;
        a_feed_is_subscribed_once_it_says_so(name, feed, p, measure_start_ns);
        assert(forall|i: int| 0 <= i < n ==> #[trigger] p[i] == events[i]);
        if exists|i: int| 0 <= i < p.len() && is_subscription(#[trigger] p[i], feed) {
            let i = choose|i: int| 0 <= i < p.len() && is_subscription(#[trigger] p[i], feed);
            assert(is_subscription(events[i], feed));
        } else {
            assert forall|i: int| 0 <= i < n implies !is_subscription(#[trigger] events[i], feed) by {
                assert(!is_subscription(p[i], feed));
            }
        }
        assert(is_subscription(events.last(), feed) == is_subscription(events[n], feed));
    }
}

/// A feed is unavailable once it has reported so.
pub proof fn a_feed_is_unavailable_once_it_says_so(
    name: Seq<char>,
    feed: usize,
    events: Seq<Event>,
    measure_start_ns: u64,
)
    ensures
        after_events(fresh(name), feed, events, measure_start_ns).unavailable is Some
            <==> exists|i: int| 0 <= i < events.len() && gives_up(#[trigger] events[i], feed),
    decreases events.len(),
{
    if events.len() > 0 {
        let p = events.drop_last();
        let n = events.len() - 1;
        a_feed_is_unavailable_once_it_says_so(name, feed, p, measure_start_ns);
        assert(forall|i: int| 0 <= i < n ==> #[trigger] p[i] == events[i]);
        if exists|i: int| 0 <= i < p.len() && gives_up(#[trigger] p[i], feed) {
            let i = choose|i: int| 0 <= i < p.len() && gives_up(#[trigger] p[i], feed);
            assert(gives_up(events[i], feed));
        } else {
            assert forall|i: int| 0 <= i < n implies !gives_up(#[trigger] events[i], feed) by {
                assert(!gives_up(p[i], feed));
            }
        }
        assert(gives_up(events.last(), feed) == gives_up(events[n], feed));
    }
}

/// The reason for which a feed is unavailable is the one that it gave last: none of the
/// events that follow it changes it.
pub proof fn the_last_reason_counts(
    name: Seq<char>,
    feed: usize,
    events: Seq<Event>,
    reason: String,
    rest: Seq<Event>,
    measure_start_ns: u64,
)
    requires
        forall|i: int| 0 <= i < rest.len() ==> !gives_up(#[trigger] rest[i], feed),
    ensures
        after_events(
            fresh(name),
            feed,
            events.push(Event::Unavailable { feed, reason }) + rest,
            measure_start_ns,
        ).unavailable == Some(reason@),
    decreases rest.len(),
{
    let given = events.push(Event::Unavailable { feed, reason });
    if rest.len() == 0 {
        assert(given + rest =~= given);
        assert(given.drop_last() =~= events);
    } else {
        let p = rest.drop_last();
        assert((given + rest).drop_last() =~= given + p);
        assert((given + rest).last() == rest.last());
        assert(!gives_up(rest[rest.len() - 1], feed));
        assert forall|i: int| 0 <= i < p.len() implies !gives_up(#[trigger] p[i], feed) by {
            assert(!gives_up(rest[i], feed));
        }
        the_last_reason_counts(name, feed, events, reason, p, measure_start_ns);
    }
}

/// A feed takes part in the comparison if it never was unavailable and a message of it
/// arrived in the measurement.
pub proof fn a_feed_takes_part_if_it_was_heard(
    name: Seq<char>,
    feed: usize,
    events: Seq<Event>,
    measure_start_ns: u64,
)
    ensures
        is_available(after_events(fresh(name), feed, events, measure_start_ns)) <==> (forall|i: int|
            0 <= i < events.len() ==> !gives_up(#[trigger] events[i], feed)) && (exists|i: int|
            0 <= i < events.len() && is_message(#[trigger] events[i], feed) && events[i]->local_ns
                >= measure_start_ns),
{
    a_feed_is_unavailable_once_it_says_so(name, feed, events, measure_start_ns);
    lemma_heard(name, feed, events, measure_start_ns);
}

/// The feed reports that it is subscribed.
pub open spec fn is_subscription(e: Event, feed: usize) -> bool {
    e is Subscribed && e.of_feed() == feed
}

/// The feed reports that it is unavailable.
pub open spec fn gives_up(e: Event, feed: usize) -> bool {
    e is Unavailable && e.of_feed() == feed
}

proof fn lemma_heard(name: Seq<char>, feed: usize, events: Seq<Event>, measure_start_ns: u64)
    ensures
        !after_events(fresh(name), feed, events, measure_start_ns).first_arrival.is_empty() <==> (
        exists|i: int|
            0 <= i < events.len() && is_message(#[trigger] events[i], feed) && events[i]->local_ns
                >= measure_start_ns),
{
    let m = after_events(fresh(name), feed, events, measure_start_ns).first_arrival;
    if !m.is_empty() {
        let t = choose|t: u64| m.contains_key(t);
        assert(m.contains_key(t)) by {
            if forall|t: u64| !m.contains_key(t) {
                assert(m =~= Map::empty());
            }
        }
        first_arrival_is_the_first(name, feed, events, measure_start_ns, t);
        let i = choose|i: int|
            0 <= i < events.len() && is_measured(#[trigger] events[i], feed, measure_start_ns, t);
        assert(is_message(events[i], feed));
    }
    if exists|i: int|
        0 <= i < events.len() && is_message(#[trigger] events[i], feed) && events[i]->local_ns
            >= measure_start_ns {
        let i = choose|i: int|
            0 <= i < events.len() && is_message(#[trigger] events[i], feed) && events[i]->local_ns
                >= measure_start_ns;
        let t = events[i]->time_ms;
        assert(is_measured(events[i], feed, measure_start_ns, t));
        first_arrival_is_the_first(name, feed, events, measure_start_ns, t);
        assert(m.contains_key(t));
    }
}

} // verus!
