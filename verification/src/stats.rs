//! What is counted and kept of the messages of each feed.

use std::collections::HashMap;
use vstd::prelude::*;
use vstd::utf8::*;

use crate::clock::{latency_ns, wrapped};
use crate::content::{content, key_view, parse_bbo_content, same_content, BboKey, ContentView};
use crate::feed::Event;
use crate::text::string_view;

verus! {

/// The first arrival of one content at one exchange time.
pub struct Update {
    pub time_ms: u64,
    pub key: BboKey,
    pub local_ns: u64,
}

/// The first arrival of one content at one exchange time, by what it says.
pub struct UpdateView {
    pub time_ms: u64,
    pub content: ContentView,
    pub local_ns: u64,
}

impl View for Update {
    type V = UpdateView;

    open spec fn view(&self) -> UpdateView {
        UpdateView { time_ms: self.time_ms, content: key_view(self.key), local_ns: self.local_ns }
    }
}

/// What is kept of one feed.
pub struct FeedStats {
    pub name: &'static str,
    pub subscribed: bool,
    pub unavailable: Option<String>,
    pub raw_msgs: u64,
    pub dup_msgs: u64,
    pub warmup_dropped: u64,
    pub disconnects: u32,
    /// latency (local receive − exchange time), ns, one entry per unique `time_ms`
    pub latencies_ns: Vec<i64>,
    /// time_ms → first-arrival local timestamp (ns)
    pub first_arrival: HashMap<u64, u64>,
    /// the first arrivals of each content at each `time_ms`, in the order of arrival
    pub updates: Vec<Update>,
    /// time_ms → where its entries stand in `updates`
    pub updates_at: HashMap<u64, Vec<usize>>,
}

/// What is kept of one feed, as mathematical values.
#[verifier::ext_equal]
pub struct StatsView {
    pub name: Seq<char>,
    pub subscribed: bool,
    pub unavailable: Option<Seq<char>>,
    pub raw_msgs: nat,
    pub dup_msgs: nat,
    pub warmup_dropped: nat,
    pub disconnects: nat,
    pub latencies_ns: Seq<i64>,
    pub first_arrival: Map<u64, u64>,
    pub updates: Seq<UpdateView>,
}

/// A list of updates, by what they say.
pub open spec fn updates_view(updates: Seq<Update>) -> Seq<UpdateView> {
    updates.map_values(|u: Update| u@)
}

impl View for FeedStats {
    type V = StatsView;

    open spec fn view(&self) -> StatsView {
        StatsView {
            name: self.name@,
            subscribed: self.subscribed,
            unavailable: string_view(self.unavailable),
            raw_msgs: self.raw_msgs as nat,
            dup_msgs: self.dup_msgs as nat,
            warmup_dropped: self.warmup_dropped as nat,
            disconnects: self.disconnects as nat,
            latencies_ns: self.latencies_ns@,
            first_arrival: self.first_arrival@,
            updates: updates_view(self.updates@),
        }
    }
}

/// `u` is the update of this time and this content.
pub open spec fn is_update(u: UpdateView, time_ms: u64, c: ContentView) -> bool {
    u.time_ms == time_ms && u.content == c
}

/// When the update of this time and this content arrived first, if it did.
pub open spec fn arrival(updates: Seq<UpdateView>, time_ms: u64, c: ContentView) -> Option<u64>
    decreases updates.len(),
{
    if updates.len() == 0 {
        None
    } else if is_update(updates.last(), time_ms, c) {
        Some(updates.last().local_ns)
    } else {
        arrival(updates.drop_last(), time_ms, c)
    }
}

/// No two entries have the same time and the same content.
pub open spec fn distinct(updates: Seq<UpdateView>) -> bool {
    forall|i: int, j: int|
        0 <= i < j < updates.len() ==> !is_update(
            #[trigger] updates[j],
            (#[trigger] updates[i]).time_ms,
            updates[i].content,
        )
}

/// A feed of which nothing has been heard.
pub open spec fn fresh(name: Seq<char>) -> StatsView {
    StatsView {
        name,
        subscribed: false,
        unavailable: None,
        raw_msgs: 0,
        dup_msgs: 0,
        warmup_dropped: 0,
        disconnects: 0,
        latencies_ns: Seq::empty(),
        first_arrival: Map::empty(),
        updates: Seq::empty(),
    }
}

/// The updates after a message with this time and content: a new pair of both is
/// added with its arrival, a known one changes nothing.
pub open spec fn with_update(
    updates: Seq<UpdateView>,
    time_ms: u64,
    c: Option<ContentView>,
    local_ns: u64,
) -> Seq<UpdateView> {
    match c {
        Some(c) => if arrival(updates, time_ms, c) is None {
            updates.push(UpdateView { time_ms, content: c, local_ns })
        } else {
            updates
        },
        None => updates,
    }
}

/// A feed after one more message. One that arrives before the measurement starts is
/// only counted. Of the others the first with each exchange time gives a latency and
/// the first with each exchange time and content gives an update.
pub open spec fn with_sample(
    s: StatsView,
    time_ms: u64,
    local_ns: u64,
    text: Seq<char>,
    measure_start_ns: u64,
) -> StatsView {
    if local_ns < measure_start_ns {
        StatsView {
            raw_msgs: s.raw_msgs + 1,
            warmup_dropped: s.warmup_dropped + 1,
            ..s
        }
    } else {
        let updates = with_update(s.updates, time_ms, content(encode_utf8(text)), local_ns);
        if s.first_arrival.contains_key(time_ms) {
            StatsView { raw_msgs: s.raw_msgs + 1, dup_msgs: s.dup_msgs + 1, updates, ..s }
        } else {
            StatsView {
                raw_msgs: s.raw_msgs + 1,
                first_arrival: s.first_arrival.insert(time_ms, local_ns),
                latencies_ns: s.latencies_ns.push(wrapped(local_ns - time_ms * 1_000_000)),
                updates,
                ..s
            }
        }
    }
}

/// A feed after one of its events.
pub open spec fn with_event(s: StatsView, event: Event, measure_start_ns: u64) -> StatsView {
    match event {
        Event::Sample { feed, time_ms, local_ns, text } => with_sample(
            s,
            time_ms,
            local_ns,
            text@,
            measure_start_ns,
        ),
        Event::Subscribed { feed } => StatsView { subscribed: true, ..s },
        Event::Disconnect { feed } => StatsView { disconnects: s.disconnects + 1, ..s },
        Event::Unavailable { feed, reason } => StatsView { unavailable: Some(reason@), ..s },
    }
}

/// The feed has been reached and has delivered something.
pub open spec fn is_available(s: StatsView) -> bool {
    s.unavailable is None && !s.first_arrival.is_empty()
}

/// Every message was dropped in the warm-up, was a repetition or gave a latency; each
/// exchange time gave one latency; no update is kept twice.
pub open spec fn consistent(s: StatsView) -> bool {
    &&& s.raw_msgs == s.warmup_dropped + s.dup_msgs + s.latencies_ns.len()
    &&& s.first_arrival.dom().finite()
    &&& s.first_arrival.len() == s.latencies_ns.len()
    &&& distinct(s.updates)
}

/// `at` lists the entries of `updates` by their time.
pub open spec fn indexes(at: Map<u64, Vec<usize>>, updates: Seq<UpdateView>) -> bool {
    &&& forall|t: u64, k: int|
        at.contains_key(t) && 0 <= k < at[t]@.len() ==> (#[trigger] at[t]@[k]) < updates.len()
            && updates[at[t]@[k] as int].time_ms == t
    &&& forall|i: int|
        0 <= i < updates.len() ==> at.contains_key(#[trigger] updates[i].time_ms)
            && at[updates[i].time_ms]@.contains(i as usize)
}

/// The entry of this time and content is the one that counts.
pub proof fn lemma_arrival_at(updates: Seq<UpdateView>, i: int, time_ms: u64, c: ContentView)
    requires
        distinct(updates),
        0 <= i < updates.len(),
        is_update(updates[i], time_ms, c),
    ensures
        arrival(updates, time_ms, c) == Some(updates[i].local_ns),
    decreases updates.len(),
{
    if i < updates.len() - 1 {
        assert(!is_update(updates.last(), updates[i].time_ms, updates[i].content));
        assert(updates.drop_last()[i] == updates[i]);
        lemma_distinct_prefix(updates);
        lemma_arrival_at(updates.drop_last(), i, time_ms, c);
    }
}

/// Without the last entry the others are still distinct.
pub proof fn lemma_distinct_prefix(updates: Seq<UpdateView>)
    requires
        distinct(updates),
        updates.len() > 0,
    ensures
        distinct(updates.drop_last()),
{
    let p = updates.drop_last();
    assert forall|i: int, j: int| 0 <= i < j < p.len() implies !is_update(
        #[trigger] p[j],
        (#[trigger] p[i]).time_ms,
        p[i].content,
    ) by {
        assert(p[i] == updates[i] && p[j] == updates[j]);
    }
}

/// Without such an entry there is no arrival.
pub proof fn lemma_no_arrival(updates: Seq<UpdateView>, time_ms: u64, c: ContentView)
    ensures
        (arrival(updates, time_ms, c) is None) == (forall|i: int|
            0 <= i < updates.len() ==> !is_update(#[trigger] updates[i], time_ms, c)),
    decreases updates.len(),
{
    if updates.len() > 0 {
        let p = updates.drop_last();
        lemma_no_arrival(p, time_ms, c);
        if is_update(updates.last(), time_ms, c) {
            assert(is_update(updates[updates.len() - 1], time_ms, c));
        } else {
            assert forall|i: int| 0 <= i < updates.len() && (forall|k: int|
                0 <= k < p.len() ==> !is_update(#[trigger] p[k], time_ms, c)) implies !is_update(
                #[trigger] updates[i],
                time_ms,
                c,
            ) by {
                if i < p.len() {
                    assert(p[i] == updates[i]);
                }
            }
            assert(forall|k: int| 0 <= k < p.len() ==> #[trigger] p[k] == updates[k]);
        }
    }
}

/// A feed stays consistent.
pub proof fn lemma_stays_consistent(s: StatsView, event: Event, measure_start_ns: u64)
    requires
        consistent(s),
    ensures
        consistent(with_event(s, event, measure_start_ns)),
{
    if let Event::Sample { feed, time_ms, local_ns, text } = event {
        let c = content(encode_utf8(text@));
        let after = with_update(s.updates, time_ms, c, local_ns);
        if let Some(c) = c {
            lemma_no_arrival(s.updates, time_ms, c);
            if arrival(s.updates, time_ms, c) is None {
                assert forall|i: int, j: int| 0 <= i < j < after.len() implies !is_update(
                    #[trigger] after[j],
                    (#[trigger] after[i]).time_ms,
                    after[i].content,
                ) by {
                    assert(after[i] == s.updates[i]);
                    if j < s.updates.len() {
                        assert(after[j] == s.updates[j]);
                    } else {
                        assert(!is_update(s.updates[i], time_ms, c));
                    }
                }
            }
        }
    }
}

impl FeedStats {
    /// Every update is kept once and can be found by its time.
    pub open spec fn searchable(&self) -> bool {
        &&& distinct(self@.updates)
        &&& indexes(self.updates_at@, self@.updates)
    }

    /// The feed can be reported: a feed that takes part in the comparison has a latency,
    /// and its updates can be found.
    pub open spec fn reportable(&self) -> bool {
        is_available(self@) ==> self.latencies_ns@.len() > 0 && self.searchable()
    }

    /// What always holds of the statistics that the aggregator keeps of a feed.
    pub open spec fn wf(&self) -> bool {
        &&& consistent(self@)
        &&& indexes(self.updates_at@, self@.updates)
    }

    /// The statistics of a feed of which nothing has been heard.
    pub fn new(name: &'static str) -> (s: Self)
        ensures
            s.wf(),
            s@ == fresh(name@),
    {
        let s = FeedStats {
            name,
            subscribed: false,
            unavailable: None,
            raw_msgs: 0,
            dup_msgs: 0,
            warmup_dropped: 0,
            disconnects: 0,
            latencies_ns: Vec::new(),
            first_arrival: HashMap::new(),
            updates: Vec::new(),
            updates_at: HashMap::new(),
        };
        assert(s@.updates =~= Seq::empty());
        s
    }

    /// Whether the feed has been reached and has delivered something.
    pub fn available(&self) -> (yes: bool)
        ensures
            yes == is_available(self@),
    {
        self.unavailable.is_none() && !self.first_arrival.is_empty()
    }

    /// When the update of this time and this content arrived first, if it did.
    pub fn arrival_of(&self, time_ms: u64, key: &BboKey) -> (local_ns: Option<u64>)
        requires
            self.searchable(),
        ensures
            local_ns == arrival(self@.updates, time_ms, key_view(*key)),
    {
        let ghost updates = self@.updates;
        let ghost c = key_view(*key);
        proof {
            lemma_no_arrival(updates, time_ms, c);
        }
        match self.updates_at.get(&time_ms) {
            None => {
                assert forall|i: int| 0 <= i < updates.len() implies !is_update(
                    #[trigger] updates[i],
                    time_ms,
                    c,
                ) by {
                    assert(self.updates_at@.contains_key(updates[i].time_ms));
                }
                None
            },
            Some(at) => {
                let mut k: usize = 0;
                while k < at.len()
                    invariant
                        k <= at@.len(),
                        self.searchable(),
                        updates == self@.updates,
                        c == key_view(*key),
                        self.updates_at@.contains_key(time_ms),
                        self.updates_at@[time_ms] == *at,
                        forall|j: int|
                            0 <= j < k ==> !is_update(
                                updates[#[trigger] at@[j] as int],
                                time_ms,
                                c,
                            ),
                    decreases at@.len() - k,
                {
                    let i: usize = at[k];
                    assert(self.updates_at@[time_ms]@[k as int] < updates.len());
                    let u = &self.updates[i];
                    assert(updates[i as int] == u@);
                    if same_content(&u.key, key) {
                        proof {
                            lemma_arrival_at(updates, i as int, time_ms, c);
                        }
                        return Some(u.local_ns);
                    }
                    k += 1;
                }
                assert forall|i: int| 0 <= i < updates.len() implies !is_update(
                    #[trigger] updates[i],
                    time_ms,
                    c,
                ) by {
                    assert(updates.len() == self.updates.len());
                    if updates[i].time_ms == time_ms {
                        assert(at@.contains(i as usize));
                        let j = choose|j: int| 0 <= j < at@.len() && at@[j] == i as usize;
                        assert(!is_update(updates[at@[j] as int], time_ms, c));
                    }
                }
                None
            },
        }
    }

    /// Keeps the first arrival of a content.
    fn record_update(&mut self, time_ms: u64, key: BboKey, local_ns: u64)
        requires
            old(self).wf(),
        ensures
            final(self).wf(),
            final(self)@ == (StatsView {
                updates: with_update(
                    old(self)@.updates,
                    time_ms,
                    Some(key_view(key)),
                    local_ns,
                ),
                ..old(self)@
            }),
    {
        if self.arrival_of(time_ms, &key).is_some() {
            return;
        }
        let ghost before = self@.updates;
        let ghost at_before = self.updates_at@;
        let ghost view_before = self@;
        let ghost c = key_view(key);
        let mut at = match self.updates_at.remove(&time_ms) {
            Some(at) => at,
            None => Vec::new(),
        };
        let ghost list = at@;
        let i: usize = self.updates.len();
        at.push(i);
        self.updates_at.insert(time_ms, at);
        self.updates.push(Update { time_ms, key, local_ns });
        proof {
            let after = self@.updates;
            let u = UpdateView { time_ms, content: c, local_ns };
            assert(after =~= before.push(u));
            let m = self.updates_at@;
            assert(m[time_ms]@ == list.push(i));
            assert forall|t: u64, k: int| m.contains_key(t) && 0 <= k < m[t]@.len() implies (
            #[trigger] m[t]@[k]) < after.len() && after[m[t]@[k] as int].time_ms == t by {
                if t == time_ms {
                    if k < list.len() {
                        assert(at_before.contains_key(t));
                        assert(list == at_before[t]@);
                        assert(at_before[t]@[k] < before.len());
                    }
                } else {
                    assert(at_before.contains_key(t) && at_before[t] == m[t]);
                    assert(at_before[t]@[k] < before.len());
                }
            }
            assert forall|j: int| 0 <= j < after.len() implies m.contains_key(
                #[trigger] after[j].time_ms,
            ) && m[after[j].time_ms]@.contains(j as usize) by {
                let t = after[j].time_ms;
                if j < before.len() {
                    assert(after[j] == before[j]);
                    assert(at_before.contains_key(before[j].time_ms));
                    assert(at_before[t]@.contains(j as usize));
                    let k = choose|k: int| 0 <= k < at_before[t]@.len() && at_before[t]@[k] == j as usize;
                    if t == time_ms {
                        assert(list == at_before[t]@);
                        assert(m[t]@[k] == j as usize);
                    } else {
                        assert(m[t] == at_before[t]);
                    }
                } else {
                    assert(m[t]@[list.len() as int] == i);
                }
            }
            lemma_no_arrival(before, time_ms, c);
            assert forall|a: int, b: int| 0 <= a < b < after.len() implies !is_update(
                #[trigger] after[b],
                (#[trigger] after[a]).time_ms,
                after[a].content,
            ) by {
                assert(after[a] == before[a]);
                if b < before.len() {
                    assert(after[b] == before[b]);
                } else {
                    assert(!is_update(before[a], time_ms, c));
                }
            }
        }
    }

    /// Counts a message and keeps what is new about it. Samples that arrive before
    /// `measure_start_ns` (warm-up) are counted but not kept.
    pub fn record_sample(
        &mut self,
        time_ms: u64,
        local_ns: u64,
        text: &str,
        measure_start_ns: u64,
    )
        requires
            old(self).wf(),
            old(self).raw_msgs < u64::MAX,
        ensures
            final(self).wf(),
            final(self)@ == with_sample(old(self)@, time_ms, local_ns, text@, measure_start_ns),
    {
        self.raw_msgs = self.raw_msgs + 1;
        if local_ns < measure_start_ns {
            self.warmup_dropped = self.warmup_dropped + 1;
            return;
        }
        if self.first_arrival.contains_key(&time_ms) {
            self.dup_msgs = self.dup_msgs + 1;
        } else {
            self.first_arrival.insert(time_ms, local_ns);
            self.latencies_ns.push(latency_ns(local_ns, time_ms));
        }
        if let Some(key) = parse_bbo_content(text) {
            self.record_update(time_ms, key, local_ns);
        }
    }
}

/// What is kept of each feed.
pub open spec fn views(stats: Seq<FeedStats>) -> Seq<StatsView> {
    stats.map_values(|s: FeedStats| s@)
}

/// All statistics are in order.
pub open spec fn all_wf(stats: Seq<FeedStats>) -> bool {
    forall|i: int| 0 <= i < stats.len() ==> (#[trigger] stats[i]).wf()
}

/// All feeds can be reported.
pub open spec fn all_reportable(stats: Seq<FeedStats>) -> bool {
    forall|i: int| 0 <= i < stats.len() ==> (#[trigger] stats[i]).reportable()
}

/// What the aggregator keeps can always be reported.
pub proof fn kept_statistics_can_be_reported(stats: Seq<FeedStats>)
    requires
        all_wf(stats),
    ensures
        all_reportable(stats),
{
    assert forall|i: int| 0 <= i < stats.len() implies (#[trigger] stats[i]).reportable() by {
        let s = stats[i];
        assert(s.wf());
        if s.latencies_ns@.len() == 0 {
            assert(s@.first_arrival.dom() =~= Set::empty());
            assert(s@.first_arrival =~= Map::empty());
        }
    }
}

/// The counters of the feed can count the event.
pub open spec fn can_count(s: FeedStats, event: Event) -> bool {
    &&& event is Sample ==> s.raw_msgs < u64::MAX
    &&& event is Disconnect ==> s.disconnects < u32::MAX
}

/// All feeds after one event: that of the feed that reports it and no other changes.
pub open spec fn with_event_of(
    stats: Seq<StatsView>,
    event: Event,
    measure_start_ns: u64,
) -> Seq<StatsView> {
    let feed = event.of_feed() as int;
    stats.update(feed, with_event(stats[feed], event, measure_start_ns))
}

/// Takes in one event: it changes the statistics of the feed that reports it and no
/// others.
pub fn apply_event(stats: &mut Vec<FeedStats>, event: Event, measure_start_ns: u64)
    requires
        all_wf(old(stats)@),
        event.of_feed() < old(stats)@.len(),
        can_count(old(stats)@[event.of_feed() as int], event),
    ensures
        all_wf(final(stats)@),
        all_reportable(final(stats)@),
        views(final(stats)@) == with_event_of(views(old(stats)@), event, measure_start_ns),
{
    match event {
        Event::Sample { feed, time_ms, local_ns, text } => {
            stats[feed].record_sample(time_ms, local_ns, text.as_str(), measure_start_ns);
        },
        Event::Subscribed { feed } => {
            stats[feed].subscribed = true;
        },
        Event::Disconnect { feed } => {
            stats[feed].disconnects = stats[feed].disconnects + 1;
        },
        Event::Unavailable { feed, reason } => {
            stats[feed].unavailable = Some(reason);
        },
    }
    assert(views(stats@) =~= with_event_of(views(old(stats)@), event, measure_start_ns));
    proof {
        kept_statistics_can_be_reported(stats@);
    }
}

/// The statistics show all that is counted and kept.
pub proof fn statistics_show_what_they_hold(s: FeedStats, stats: Seq<FeedStats>, i: int, u: Update)
    requires
        0 <= i < stats.len(),
    ensures
        s@.name == s.name@,
        s@.subscribed == s.subscribed,
        s@.unavailable is Some <==> s.unavailable is Some,
        s.unavailable matches Some(reason) ==> s@.unavailable == Some(reason@),
        s@.raw_msgs == s.raw_msgs,
        s@.dup_msgs == s.dup_msgs,
        s@.warmup_dropped == s.warmup_dropped,
        s@.disconnects == s.disconnects,
        s@.latencies_ns == s.latencies_ns@,
        s@.first_arrival == s.first_arrival@,
        s@.updates.len() == s.updates@.len(),
        forall|k: int| 0 <= k < s.updates@.len() ==> #[trigger] s@.updates[k] == s.updates@[k]@,
        u@.time_ms == u.time_ms,
        u@.local_ns == u.local_ns,
        u@.content == key_view(u.key),
        views(stats).len() == stats.len(),
        views(stats)[i] == stats[i]@,
{
}

} // verus!
