//! Which of all feeds had an update first, over the updates that all of them have.

use vstd::prelude::*;
use vstd::relations::{sorted_by, total_ordering};

use crate::compare::{lemma_arrival_entry, of_one_update};
use crate::content::ContentView;
use crate::stats::{
    arrival, distinct, is_update, lemma_arrival_at, lemma_distinct_prefix, lemma_no_arrival,
    FeedStats, StatsView, UpdateView,
};

verus! {

/// What is kept of each of some feeds.
pub open spec fn feed_views(feeds: Seq<&FeedStats>) -> Seq<StatsView> {
    feeds.map_values(|s: &FeedStats| s@)
}

/// Every feed has the update.
pub open spec fn seen_by_all(feeds: Seq<StatsView>, u: UpdateView) -> bool {
    forall|k: int|
        0 <= k < feeds.len() ==> arrival((#[trigger] feeds[k]).updates, u.time_ms, u.content)
            is Some
}

/// When the update came to each of the feeds.
pub open spec fn arrivals(feeds: Seq<StatsView>, u: UpdateView) -> Seq<u64> {
    Seq::new(feeds.len(), |k: int| arrival(feeds[k].updates, u.time_ms, u.content).unwrap())
}

/// `k` is the place of the smallest stamp, the first one where several are equal.
pub open spec fn is_earliest(stamps: Seq<u64>, k: int) -> bool {
    &&& 0 <= k < stamps.len()
    &&& forall|j: int| 0 <= j < stamps.len() ==> stamps[k] <= #[trigger] stamps[j]
    &&& forall|j: int| 0 <= j < k ==> stamps[k] < #[trigger] stamps[j]
}

/// The feed to which the update came first.
pub open spec fn winner(feeds: Seq<StatsView>, u: UpdateView) -> int {
    choose|k: int| is_earliest(arrivals(feeds, u), k)
}

/// How many of the updates all feeds have.
pub open spec fn shared(feeds: Seq<StatsView>, updates: Seq<UpdateView>) -> nat {
    updates.filter(|u: UpdateView| seen_by_all(feeds, u)).len()
}

/// How many of the updates that all feeds have came to feed `k` first.
pub open spec fn wins_of(feeds: Seq<StatsView>, updates: Seq<UpdateView>, k: int) -> nat {
    updates.filter(|u: UpdateView| seen_by_all(feeds, u) && winner(feeds, u) == k).len()
}

/// The place of the smallest stamp, the first one where several are equal.
pub fn earliest(stamps: &Vec<u64>) -> (k: usize)
    requires
        stamps@.len() > 0,
    ensures
        is_earliest(stamps@, k as int),
        forall|j: int| is_earliest(stamps@, j) ==> j == k,
{
    let mut k: usize = 0;
    let mut i: usize = 1;
    while i < stamps.len()
        invariant
            k < i <= stamps@.len(),
            forall|j: int| 0 <= j < i ==> stamps@[k as int] <= #[trigger] stamps@[j],
            forall|j: int| 0 <= j < k ==> stamps@[k as int] < #[trigger] stamps@[j],
        decreases stamps@.len() - i,
    {
        if stamps[i] < stamps[k] {
            k = i;
        }
        i += 1;
    }
    assert forall|j: int| is_earliest(stamps@, j) implies j == k by {
        if j < k {
            assert(stamps@[k as int] < stamps@[j]);
        } else if k < j {
            assert(stamps@[j] < stamps@[k as int]);
        }
    }
    k
}

/// When the update `u` of one feed came to each of the feeds, if it came to all.
fn arrivals_of(feeds: &Vec<&FeedStats>, of: &FeedStats, i: usize) -> (stamps: Option<Vec<u64>>)
    requires
        forall|k: int| 0 <= k < feeds@.len() ==> (#[trigger] feeds@[k]).searchable(),
        i < of.updates@.len(),
    ensures
        match stamps {
            Some(v) => seen_by_all(feed_views(feeds@), of@.updates[i as int]) && v@ == arrivals(
                feed_views(feeds@),
                of@.updates[i as int],
            ),
            None => !seen_by_all(feed_views(feeds@), of@.updates[i as int]),
        },
{
    let u = &of.updates[i];
    let ghost w = of@.updates[i as int];
    let ghost fv = feed_views(feeds@);
    assert(w == u@);
    let mut v: Vec<u64> = Vec::new();
    let mut k: usize = 0;
    while k < feeds.len()
        invariant
            k <= feeds@.len(),
            fv == feed_views(feeds@),
            w == u@,
            i < of.updates@.len(),
            w == of@.updates[i as int],
            v@.len() == k,
            forall|j: int| 0 <= j < feeds@.len() ==> (#[trigger] feeds@[j]).searchable(),
            forall|j: int|
                0 <= j < k ==> arrival((#[trigger] fv[j]).updates, w.time_ms, w.content) == Some(
                    v@[j],
                ),
        decreases feeds@.len() - k,
    {
        assert(fv[k as int] == feeds@[k as int]@);
        match feeds[k].arrival_of(u.time_ms, &u.key) {
            Some(ns) => v.push(ns),
            None => {
                return None;
            },
        }
        k += 1;
    }
    assert(v@ =~= arrivals(fv, w));
    Some(v)
}

/// Who was first, over the updates that all feeds have.
pub struct Ranking {
    /// how many updates all feeds have
    pub total: u64,
    /// how many of them came to each feed first
    pub wins: Vec<u64>,
}

/// Counts for each feed how many of the updates that all feeds have came to it first.
/// Where an update came to several at once, the first in the list has it.
pub fn rank(feeds: &Vec<&FeedStats>) -> (r: Ranking)
    requires
        feeds@.len() > 0,
        forall|k: int| 0 <= k < feeds@.len() ==> (#[trigger] feeds@[k]).searchable(),
    ensures
        r.total == shared(feed_views(feeds@), feeds@[0]@.updates),
        r.wins@.len() == feeds@.len(),
        forall|k: int|
            0 <= k < feeds@.len() ==> #[trigger] r.wins@[k] == wins_of(
                feed_views(feeds@),
                feeds@[0]@.updates,
                k,
            ),
{
    let base = feeds[0];
    let ghost fv = feed_views(feeds@);
    let ghost us = base@.updates;
    let mut wins: Vec<u64> = Vec::new();
    let mut total: u64 = 0;
    let n: usize = feeds.len();
    while wins.len() < n
        invariant
            wins@.len() <= n,
            forall|k: int| 0 <= k < wins@.len() ==> #[trigger] wins@[k] == 0,
        decreases n - wins@.len(),
    {
        wins.push(0);
    }
    proof {
        assert(us.take(0) =~= Seq::empty());
        reveal(Seq::filter);
        assert forall|k: int| 0 <= k < n implies #[trigger] wins@[k] == wins_of(fv, us.take(0), k) by {
        }
    }
    let mut i: usize = 0;
    while i < base.updates.len()
        invariant
            n == feeds@.len() > 0,
            fv == feed_views(feeds@),
            us == base@.updates,
            i <= base.updates@.len() == us.len(),
            forall|k: int| 0 <= k < feeds@.len() ==> (#[trigger] feeds@[k]).searchable(),
            total == shared(fv, us.take(i as int)),
            total <= i,
            wins@.len() == n,
            forall|k: int|
                0 <= k < n ==> #[trigger] wins@[k] == wins_of(fv, us.take(i as int), k),
            forall|k: int| 0 <= k < n ==> #[trigger] wins@[k] <= i,
        decreases base.updates@.len() - i,
    {
        let ghost p = us.take(i as int);
        let ghost q = us.take(i + 1);
        let ghost before = wins@;
        proof {
            assert(q.drop_last() =~= p);
            assert(q.last() == us[i as int]);
            assert(base.updates@.len() == base.updates.len());
        }
        match arrivals_of(feeds, base, i) {
            None => {
                proof {
                    reveal(Seq::filter);
                    assert forall|k: int| 0 <= k < n implies #[trigger] wins@[k] == wins_of(
                        fv,
                        q,
                        k,
                    ) by {
                        assert(before[k] == wins_of(fv, p, k));
                    }
                }
            },
            Some(stamps) => {
                total = total + 1;
                let k = earliest(&stamps);
                assert(winner(fv, us[i as int]) == k);
                let w: u64 = wins[k];
                wins.set(k, w + 1);
                proof {
                    reveal(Seq::filter);
                    assert forall|j: int| 0 <= j < n implies #[trigger] wins@[j] == wins_of(
                        fv,
                        q,
                        j,
                    ) by {
                        assert(before[j] == wins_of(fv, p, j));
                    }
                }
            },
        }
        i += 1;
    }
    assert(us.take(us.len() as int) =~= us);
    Ranking { total, wins }
}

/// The sum of some numbers.
pub open spec fn sum(s: Seq<nat>) -> nat
    decreases s.len(),
{
    if s.len() == 0 {
        0
    } else {
        sum(s.drop_last()) + s.last()
    }
}

proof fn lemma_sum_one_more(s: Seq<nat>, t: Seq<nat>, k: int)
    requires
        0 <= k < s.len() == t.len(),
        t[k] == s[k] + 1,
        forall|j: int| 0 <= j < s.len() && j != k ==> t[j] == s[j],
    ensures
        sum(t) == sum(s) + 1,
    decreases s.len(),
{
    if k == s.len() - 1 {
        assert(s.drop_last() =~= t.drop_last());
    } else {
        lemma_sum_one_more(s.drop_last(), t.drop_last(), k);
    }
}

proof fn lemma_sum_zero(s: Seq<nat>)
    requires
        forall|j: int| 0 <= j < s.len() ==> s[j] == 0,
    ensures
        sum(s) == 0,
    decreases s.len(),
{
    if s.len() > 0 {
        lemma_sum_zero(s.drop_last());
    }
}

/// Some feed has the smallest stamp.
pub proof fn lemma_someone_is_first(stamps: Seq<u64>) -> (k: int)
    requires
        stamps.len() > 0,
    ensures
        is_earliest(stamps, k),
    decreases stamps.len(),
{
    if stamps.len() == 1 {
        0
    } else {
        let p = stamps.drop_last();
        let k = lemma_someone_is_first(p);
        assert(forall|j: int| 0 <= j < p.len() ==> #[trigger] p[j] == stamps[j]);
        if stamps.last() < stamps[k] {
            assert forall|j: int| 0 <= j < stamps.len() - 1 implies stamps.last()
                < #[trigger] stamps[j] by {
                assert(p[k] <= p[j]);
            }
            stamps.len() - 1
        } else {
            assert forall|j: int| 0 <= j < stamps.len() implies stamps[k]
                <= #[trigger] stamps[j] by {
                if j < p.len() {
                    assert(p[k] <= p[j]);
                }
            }
            assert forall|j: int| 0 <= j < k implies stamps[k] < #[trigger] stamps[j] by {
                assert(p[k] < p[j]);
            }
            k
        }
    }
}

/// Every update that all feeds have came first to exactly one of them: the wins of
/// all feeds add up to the number of such updates.
pub proof fn wins_add_up(feeds: Seq<StatsView>, updates: Seq<UpdateView>)
    requires
        feeds.len() > 0,
    ensures
        sum(Seq::new(feeds.len(), |k: int| wins_of(feeds, updates, k))) == shared(feeds, updates),
    decreases updates.len(),
{
    reveal(Seq::filter);
    let t = Seq::new(feeds.len(), |k: int| wins_of(feeds, updates, k));
    if updates.len() == 0 {
        lemma_sum_zero(t);
    } else {
        let p = updates.drop_last();
        let u = updates.last();
        let s = Seq::new(feeds.len(), |k: int| wins_of(feeds, p, k));
        wins_add_up(feeds, p);
        if seen_by_all(feeds, u) {
            let first = lemma_someone_is_first(arrivals(feeds, u));
            let k = winner(feeds, u);
            assert(is_earliest(arrivals(feeds, u), k));
            lemma_sum_one_more(s, t, k);
        } else {
            assert(s =~= t);
        }
    }
}

/// Exchange time and content, which tell an update from others.
pub open spec fn identity(u: UpdateView) -> (u64, ContentView) {
    (u.time_ms, u.content)
}

/// What is counted for an update depends only on its time and its content, and only
/// updates that all feeds have are counted.
spec fn counts_shared(feeds: Seq<StatsView>, p: spec_fn(UpdateView) -> bool) -> bool {
    &&& forall|u: UpdateView, v: UpdateView| #[trigger]
        identity(u) == #[trigger] identity(v) ==> p(u) == p(v)
    &&& forall|u: UpdateView| #[trigger] p(u) ==> seen_by_all(feeds, u)
}

/// The identities of the updates that are counted.
spec fn identities(updates: Seq<UpdateView>, p: spec_fn(UpdateView) -> bool) -> Seq<
    (u64, ContentView),
> {
    updates.filter(p).map_values(|u: UpdateView| identity(u))
}

proof fn lemma_identities(updates: Seq<UpdateView>, p: spec_fn(UpdateView) -> bool)
    requires
        distinct(updates),
    ensures
        identities(updates, p).no_duplicates(),
        forall|id: (u64, ContentView)| #[trigger]
            identities(updates, p).contains(id) <==> exists|i: int|
                0 <= i < updates.len() && p(updates[i]) && #[trigger] identity(updates[i]) == id,
    decreases updates.len(),
{
    reveal(Seq::filter);
    let s = identities(updates, p);
    if updates.len() > 0 {
        let q = updates.drop_last();
        let u = updates.last();
        let t = identities(q, p);
        lemma_distinct_prefix(updates);
        lemma_identities(q, p);
        assert(forall|i: int| 0 <= i < q.len() ==> #[trigger] q[i] == updates[i]);
        assert(!t.contains(identity(u))) by {
            if t.contains(identity(u)) {
                let i = choose|i: int|
                    0 <= i < q.len() && p(q[i]) && #[trigger] identity(q[i]) == identity(u);
                assert(!is_update(
                    updates[updates.len() - 1],
                    updates[i].time_ms,
                    updates[i].content,
                ));
            }
        }
        if p(u) {
            assert(s =~= t.push(identity(u)));
        } else {
            assert(s =~= t);
        }
        assert forall|id: (u64, ContentView)| #[trigger] s.contains(id) <==> exists|i: int|
            0 <= i < updates.len() && p(updates[i]) && #[trigger] identity(updates[i]) == id by {
            if s.contains(id) {
                if t.contains(id) {
                    let i = choose|i: int|
                        0 <= i < q.len() && p(q[i]) && #[trigger] identity(q[i]) == id;
                    assert(identity(updates[i]) == id);
                } else {
                    assert(identity(updates[updates.len() - 1]) == id);
                }
            }
            if exists|i: int|
                0 <= i < updates.len() && p(updates[i]) && #[trigger] identity(updates[i]) == id {
                let i = choose|i: int|
                    0 <= i < updates.len() && p(updates[i]) && #[trigger] identity(updates[i])
                        == id;
                if i < q.len() {
                    assert(identity(q[i]) == id);
                    assert(t.contains(id));
                    let k = choose|k: int| 0 <= k < t.len() && t[k] == id;
                    assert(s[k] == id);
                } else {
                    assert(s[t.len() as int] == id);
                }
            }
        }
    }
}

proof fn lemma_same_count(
    feeds: Seq<StatsView>,
    i: int,
    j: int,
    p: spec_fn(UpdateView) -> bool,
)
    requires
        forall|k: int| 0 <= k < feeds.len() ==> distinct((#[trigger] feeds[k]).updates),
        0 <= i < feeds.len(),
        0 <= j < feeds.len(),
        counts_shared(feeds, p),
    ensures
        feeds[i].updates.filter(p).len() == feeds[j].updates.filter(p).len(),
{
    let s = identities(feeds[i].updates, p);
    let t = identities(feeds[j].updates, p);
    lemma_identities(feeds[i].updates, p);
    lemma_identities(feeds[j].updates, p);
    assert forall|id: (u64, ContentView)| s.contains(id) <==> t.contains(id) by {
        if s.contains(id) {
            lemma_counted_in_other(feeds, i, j, p, id);
        }
        if t.contains(id) {
            lemma_counted_in_other(feeds, j, i, p, id);
        }
    }
    assert(s.to_set() =~= t.to_set());
    s.unique_seq_to_set();
    t.unique_seq_to_set();
}

proof fn lemma_counted_in_other(
    feeds: Seq<StatsView>,
    i: int,
    j: int,
    p: spec_fn(UpdateView) -> bool,
    id: (u64, ContentView),
)
    requires
        forall|k: int| 0 <= k < feeds.len() ==> distinct((#[trigger] feeds[k]).updates),
        0 <= i < feeds.len(),
        0 <= j < feeds.len(),
        counts_shared(feeds, p),
        identities(feeds[i].updates, p).contains(id),
    ensures
        identities(feeds[j].updates, p).contains(id),
{
    lemma_identities(feeds[i].updates, p);
    lemma_identities(feeds[j].updates, p);
    let a = feeds[i].updates;
    let b = feeds[j].updates;
    let k = choose|k: int| 0 <= k < a.len() && p(a[k]) && #[trigger] identity(a[k]) == id;
    assert(seen_by_all(feeds, a[k]));
    assert(arrival(feeds[j].updates, a[k].time_ms, a[k].content) is Some);
    lemma_no_arrival(b, a[k].time_ms, a[k].content);
    let m = choose|m: int|
        0 <= m < b.len() && is_update(#[trigger] b[m], a[k].time_ms, a[k].content);
    assert(identity(b[m]) == identity(a[k]));
    assert(p(b[m]));
}

/// It does not matter from which of the feeds the shared updates are taken: there are
/// as many of them, and as many came to each feed first.
pub proof fn ranking_does_not_depend_on_the_base(
    feeds: Seq<StatsView>,
    i: int,
    j: int,
    k: int,
)
    requires
        forall|f: int| 0 <= f < feeds.len() ==> distinct((#[trigger] feeds[f]).updates),
        0 <= i < feeds.len(),
        0 <= j < feeds.len(),
    ensures
        shared(feeds, feeds[i].updates) == shared(feeds, feeds[j].updates),
        wins_of(feeds, feeds[i].updates, k) == wins_of(feeds, feeds[j].updates, k),
{
    let p = |u: UpdateView| seen_by_all(feeds, u);
    let q = |u: UpdateView| seen_by_all(feeds, u) && winner(feeds, u) == k;
    assert forall|u: UpdateView, v: UpdateView| #[trigger]
        identity(u) == #[trigger] identity(v) implies seen_by_all(feeds, u) == seen_by_all(
        feeds,
        v,
    ) && winner(feeds, u) == winner(feeds, v) by {
        assert(arrivals(feeds, u) =~= arrivals(feeds, v));
    }
    assert(counts_shared(feeds, p));
    assert(counts_shared(feeds, q));
    lemma_same_count(feeds, i, j, p);
    lemma_same_count(feeds, i, j, q);
}

/// More wins first, and of feeds with as many wins the one that is listed first.
pub open spec fn by_wins() -> spec_fn((usize, u64), (usize, u64)) -> bool {
    |x: (usize, u64), y: (usize, u64)| x.1 > y.1 || (x.1 == y.1 && x.0 <= y.0)
}

/// The feeds by their places, each with its wins.
pub open spec fn numbered(wins: Seq<u64>) -> Seq<(usize, u64)> {
    Seq::new(wins.len(), |k: int| (k as usize, wins[k]))
}

/// The feeds by their places, each with its wins, in the order of the ranking.
pub open spec fn ranked(wins: Seq<u64>) -> Seq<(usize, u64)> {
    numbered(wins).sort_by(by_wins())
}

/// Puts the feeds in the order of the ranking.
pub fn order_by_wins(wins: &Vec<u64>) -> (out: Vec<(usize, u64)>)
    ensures
        out@ == ranked(wins@),
        out@.len() == wins@.len(),
        forall|i: int| 0 <= i < out@.len() ==> (#[trigger] out@[i]).0 < wins@.len(),
{
    broadcast use vstd::seq_lib::group_to_multiset_ensures;

    let ghost all = numbered(wins@);
    let mut out: Vec<(usize, u64)> = Vec::new();
    let mut i: usize = 0;
    assert(all.take(0) =~= Seq::empty());
    assert(out@ =~= all.take(0));
    while i < wins.len()
        invariant
            i <= wins@.len(),
            all == numbered(wins@),
            out@.len() == i,
            out@.to_multiset() == all.take(i as int).to_multiset(),
            forall|j: int| 0 <= j < i ==> (#[trigger] out@[j]).0 < i,
            sorted_by(out@, by_wins()),
        decreases wins@.len() - i,
    {
        let w: u64 = wins[i];
        let mut p: usize = 0;
        while p < out.len() && out[p].1 >= w
            invariant
                p <= out@.len(),
                forall|j: int| 0 <= j < p ==> (#[trigger] out@[j]).1 >= w,
            decreases out@.len() - p,
        {
            p += 1;
        }
        let ghost before = out@;
        out.insert(p, (i, w));
        proof {
            let x = (i, w);
            assert(all.take(i + 1) =~= all.take(i as int).push(x));
            assert(out@ == before.insert(p as int, x));
            vstd::seq_lib::to_multiset_insert(before, p as int, x);
            vstd::seq_lib::to_multiset_build(all.take(i as int), x);
            assert forall|a: int, b: int| 0 <= a < b < out@.len() implies #[trigger] by_wins()(
                out@[a],
                out@[b],
            ) by {
                if b < p {
                    assert(by_wins()(before[a], before[b]));
                } else if b == p {
                    assert(before[a].1 >= w);
                    assert(before[a].0 < i);
                } else if a == p {
                    assert(before[p as int].1 < w);
                    if p < b - 1 {
                        assert(by_wins()(before[p as int], before[b - 1]));
                    }
                } else if a < p {
                    assert(by_wins()(before[a], before[b - 1]));
                } else {
                    assert(by_wins()(before[a - 1], before[b - 1]));
                }
            }
            assert forall|j: int| 0 <= j < i + 1 implies (#[trigger] out@[j]).0 < i + 1 by {
                if j < p {
                    assert(out@[j] == before[j]);
                } else if j > p {
                    assert(out@[j] == before[j - 1]);
                }
            }
        }
        i += 1;
    }
    proof {
        assert(all.take(all.len() as int) =~= all);
        assert(total_ordering(by_wins()));
        all.lemma_sort_by_ensures(by_wins());
        vstd::seq_lib::lemma_sorted_unique(out@, ranked(wins@), by_wins());
    }
    out
}

/// The feed has the update, stamped with `ns`.
pub open spec fn has_at(feed: StatsView, u: UpdateView, ns: u64) -> bool {
    exists|j: int|
        0 <= j < feed.updates.len() && of_one_update(#[trigger] feed.updates[j], u)
            && feed.updates[j].local_ns == ns
}

/// The feed has the update.
pub open spec fn has(feed: StatsView, u: UpdateView) -> bool {
    exists|ns: u64| has_at(feed, u, ns)
}

/// Every feed has the update.
pub open spec fn all_have(feeds: Seq<StatsView>, u: UpdateView) -> bool {
    forall|f: int| 0 <= f < feeds.len() ==> has(#[trigger] feeds[f], u)
}

/// Every feed has the update, and no other feed had it before feed `k`, nor one that is
/// listed before it at the same time.
pub open spec fn is_first_with(feeds: Seq<StatsView>, u: UpdateView, k: int) -> bool {
    &&& 0 <= k < feeds.len()
    &&& all_have(feeds, u)
    &&& forall|f: int, x: u64, y: u64|
        0 <= f < feeds.len() && #[trigger] has_at(feeds[k], u, x) && #[trigger] has_at(
            feeds[f],
            u,
            y,
        ) ==> x <= y && (f < k ==> x < y)
}

/// The places of the updates that all feeds have.
pub open spec fn shared_places(feeds: Seq<StatsView>, updates: Seq<UpdateView>) -> Set<int> {
    Set::new(|i: int| 0 <= i < updates.len() && all_have(feeds, updates[i]))
}

/// The places of the updates with which feed `k` was first.
pub open spec fn first_places(feeds: Seq<StatsView>, updates: Seq<UpdateView>, k: int) -> Set<int> {
    Set::new(|i: int| 0 <= i < updates.len() && is_first_with(feeds, updates[i], k))
}

proof fn lemma_has_at(feed: StatsView, u: UpdateView)
    requires
        distinct(feed.updates),
    ensures
        forall|ns: u64| #[trigger]
            has_at(feed, u, ns) <==> arrival(feed.updates, u.time_ms, u.content) == Some(ns),
{
    assert forall|ns: u64| #[trigger] has_at(feed, u, ns) <==> arrival(
        feed.updates,
        u.time_ms,
        u.content,
    ) == Some(ns) by {
        if has_at(feed, u, ns) {
            let j = choose|j: int|
                0 <= j < feed.updates.len() && of_one_update(#[trigger] feed.updates[j], u)
                    && feed.updates[j].local_ns == ns;
            lemma_arrival_at(feed.updates, j, u.time_ms, u.content);
        }
        if arrival(feed.updates, u.time_ms, u.content) == Some(ns) {
            let j = lemma_arrival_entry(feed.updates, u.time_ms, u.content);
            assert(of_one_update(feed.updates[j], u));
        }
    }
}

proof fn lemma_first_with(feeds: Seq<StatsView>, u: UpdateView, k: int)
    requires
        forall|f: int| 0 <= f < feeds.len() ==> distinct((#[trigger] feeds[f]).updates),
        feeds.len() > 0,
    ensures
        seen_by_all(feeds, u) == all_have(feeds, u),
        (seen_by_all(feeds, u) && winner(feeds, u) == k) == is_first_with(feeds, u, k),
{
    assert forall|f: int| 0 <= f < feeds.len() implies has(#[trigger] feeds[f], u) == (arrival(
        feeds[f].updates,
        u.time_ms,
        u.content,
    ) is Some) by {
        lemma_has_at(feeds[f], u);
        if let Some(ns) = arrival(feeds[f].updates, u.time_ms, u.content) {
            assert(has_at(feeds[f], u, ns));
        }
    }
    if all_have(feeds, u) {
        assert forall|f: int| 0 <= f < feeds.len() implies arrival(
            (#[trigger] feeds[f]).updates,
            u.time_ms,
            u.content,
        ) is Some by {
            assert(has(feeds[f], u));
        }
        assert(seen_by_all(feeds, u));
    }
    if seen_by_all(feeds, u) {
        assert forall|f: int| 0 <= f < feeds.len() implies has(#[trigger] feeds[f], u) by {
            assert(arrival(feeds[f].updates, u.time_ms, u.content) is Some);
        }
        assert(all_have(feeds, u));
        let a = arrivals(feeds, u);
        let first = lemma_someone_is_first(a);
        let w = winner(feeds, u);
        assert(is_earliest(a, w));
        assert forall|f: int| 0 <= f < feeds.len() implies has_at(
            #[trigger] feeds[f],
            u,
            a[f],
        ) && forall|y: u64| #[trigger] has_at(feeds[f], u, y) ==> y == a[f] by {
            lemma_has_at(feeds[f], u);
            assert(arrival(feeds[f].updates, u.time_ms, u.content) is Some);
        }
        if w == k {
            assert forall|f: int, x: u64, y: u64|
                0 <= f < feeds.len() && #[trigger] has_at(feeds[k], u, x) && #[trigger] has_at(
                    feeds[f],
                    u,
                    y,
                ) implies x <= y && (f < k ==> x < y) by {
                assert(has_at(feeds[k], u, a[k]) && has_at(feeds[f], u, a[f]));
                assert(a[k] <= a[f]);
            }
        }
        if is_first_with(feeds, u, k) {
            assert(has_at(feeds[k], u, a[k]));
            assert(has_at(feeds[w], u, a[w]));
            assert(a[w] <= a[k]);
            if w < k {
                assert(a[k] < a[w]);
            } else if k < w {
                assert(a[w] < a[k]);
            }
        }
    }
}

/// How many updates of a list are of some kind.
proof fn lemma_count(updates: Seq<UpdateView>, p: spec_fn(UpdateView) -> bool)
    ensures
        Set::new(|i: int| 0 <= i < updates.len() && p(updates[i])).finite(),
        Set::new(|i: int| 0 <= i < updates.len() && p(updates[i])).len() == updates.filter(p).len(),
    decreases updates.len(),
{
    reveal(Seq::filter);
    let s = Set::new(|i: int| 0 <= i < updates.len() && p(updates[i]));
    if updates.len() == 0 {
        assert(s =~= Set::empty());
    } else {
        let q = updates.drop_last();
        let n = updates.len() - 1;
        let t = Set::new(|i: int| 0 <= i < q.len() && p(q[i]));
        lemma_count(q, p);
        assert(!t.contains(n));
        if p(updates.last()) {
            assert(s =~= t.insert(n));
        } else {
            assert(s =~= t);
        }
    }
}

/// The updates of the ranking are those that all feeds have, and a feed wins those that no
/// other had before it.
pub proof fn a_feed_wins_what_it_had_first(
    feeds: Seq<StatsView>,
    updates: Seq<UpdateView>,
    k: int,
)
    requires
        feeds.len() > 0,
        forall|f: int| 0 <= f < feeds.len() ==> distinct((#[trigger] feeds[f]).updates),
    ensures
        shared(feeds, updates) == shared_places(feeds, updates).len(),
        wins_of(feeds, updates, k) == first_places(feeds, updates, k).len(),
{
    let p = |u: UpdateView| seen_by_all(feeds, u);
    let q = |u: UpdateView| seen_by_all(feeds, u) && winner(feeds, u) == k;
    lemma_count(updates, p);
    lemma_count(updates, q);
    assert(Set::new(|i: int| 0 <= i < updates.len() && p(updates[i])) =~= shared_places(
        feeds,
        updates,
    )) by {
        assert forall|i: int| 0 <= i < updates.len() implies #[trigger] p(updates[i]) == all_have(
            feeds,
            updates[i],
        ) by {
            lemma_first_with(feeds, updates[i], k);
        }
    }
    assert(Set::new(|i: int| 0 <= i < updates.len() && q(updates[i])) =~= first_places(
        feeds,
        updates,
        k,
    )) by {
        assert forall|i: int| 0 <= i < updates.len() implies #[trigger] q(updates[i])
            == is_first_with(feeds, updates[i], k) by {
            lemma_first_with(feeds, updates[i], k);
        }
    }
}

/// The ranking lists every feed once, with its own wins: more wins go first, and of feeds
/// with as many wins the one that is listed first.
pub proof fn every_feed_is_ranked_once(wins: Seq<u64>)
    requires
        wins.len() <= usize::MAX,
    ensures
        ranked(wins).len() == wins.len(),
        forall|i: int|
            0 <= i < wins.len() ==> (#[trigger] ranked(wins)[i]).0 < wins.len()
                && ranked(wins)[i].1 == wins[ranked(wins)[i].0 as int],
        forall|i: int, j: int|
            0 <= i < j < wins.len() ==> {
                let x = #[trigger] ranked(wins)[i];
                let y = #[trigger] ranked(wins)[j];
                x.1 > y.1 || (x.1 == y.1 && x.0 < y.0)
            },
{
    broadcast use vstd::seq_lib::group_to_multiset_ensures;

    let all = numbered(wins);
    let r = ranked(wins);
    assert(total_ordering(by_wins()));
    all.lemma_sort_by_ensures(by_wins());
    assert(r.len() == all.len()) by {
        all.to_multiset_ensures();
        r.to_multiset_ensures();
    }
    assert forall|i: int| 0 <= i < wins.len() implies (#[trigger] r[i]).0 < wins.len() && r[i].1
        == wins[r[i].0 as int] by {
        assert(r.contains(r[i]));
        assert(r.to_multiset().count(r[i]) > 0);
        assert(all.to_multiset().count(r[i]) > 0);
        assert(all.contains(r[i]));
    }
    assert(all.no_duplicates());
    all.lemma_multiset_has_no_duplicates();
    assert(r.no_duplicates()) by {
        assert forall|x: (usize, u64)| r.to_multiset().contains(x) implies r.to_multiset().count(x)
            == 1 by {
            assert(all.to_multiset().contains(x));
        }
        r.lemma_multiset_has_no_duplicates_conv();
    }
    assert forall|i: int, j: int| 0 <= i < j < wins.len() implies ({
        let x = #[trigger] r[i];
        let y = #[trigger] r[j];
        x.1 > y.1 || (x.1 == y.1 && x.0 < y.0)
    }) by {
        assert(by_wins()(r[i], r[j]));
        assert(r[i] != r[j]);
    }
}

/// The feeds of a ranking are shown one by one.
pub proof fn feeds_are_shown_one_by_one(feeds: Seq<&FeedStats>, i: int)
    requires
        0 <= i < feeds.len(),
    ensures
        feed_views(feeds).len() == feeds.len(),
        feed_views(feeds)[i] == feeds[i]@,
{
}

} // verus!
