//! Who had an update first does not depend on how the clock is set.

use vstd::prelude::*;

use crate::compare::{
    comparison_ignores_the_clock, fits_other_clock, lemma_arrival_on_other_clock, on_other_clock,
};
use crate::ranking::{
    arrivals, by_wins, is_earliest, lemma_someone_is_first, numbered, ranked, seen_by_all, shared,
    winner, wins_of,
};
use crate::report::{
    all_wins, available_feeds, first_text, pairs_of, pairs_text, rank_lines, ranking_text,
};
use crate::stats::{arrival, is_available, StatsView, UpdateView};

verus! {

/// The same feed, its updates stamped by a clock that is ahead by `k`.
pub open spec fn on_clock(s: StatsView, t: StatsView, k: int) -> bool {
    &&& t.name == s.name
    &&& is_available(t) == is_available(s)
    &&& t.updates == on_other_clock(s.updates, k)
    &&& fits_other_clock(s.updates, k)
}

/// The same feeds, all stamped by a clock that is ahead by `k`.
pub open spec fn all_on_clock(s: Seq<StatsView>, t: Seq<StatsView>, k: int) -> bool {
    &&& s.len() == t.len()
    &&& forall|i: int| 0 <= i < s.len() ==> on_clock(#[trigger] s[i], #[trigger] t[i], k)
}

proof fn lemma_available(s: Seq<StatsView>, t: Seq<StatsView>, k: int)
    requires
        all_on_clock(s, t, k),
    ensures
        all_on_clock(available_feeds(s), available_feeds(t), k),
    decreases s.len(),
{
    reveal(Seq::filter);
    if s.len() > 0 {
        let p = s.drop_last();
        let q = t.drop_last();
        assert(all_on_clock(p, q, k)) by {
            assert forall|i: int| 0 <= i < p.len() implies on_clock(
                #[trigger] p[i],
                #[trigger] q[i],
                k,
            ) by {
                assert(on_clock(s[i], t[i], k));
            }
        }
        lemma_available(p, q, k);
        assert(on_clock(s[s.len() - 1], t[t.len() - 1], k));
    }
}

proof fn lemma_pairs_of(s: Seq<StatsView>, t: Seq<StatsView>, k: int, i: int, j: int)
    requires
        all_on_clock(s, t, k),
        0 <= i < s.len(),
        j <= s.len(),
    ensures
        pairs_of(s, i, j) == pairs_of(t, i, j),
    decreases j - i,
{
    if j > i + 1 {
        lemma_pairs_of(s, t, k, i, j - 1);
        assert(on_clock(s[i], t[i], k));
        assert(on_clock(s[j - 1], t[j - 1], k));
        comparison_ignores_the_clock(s[i].updates, s[j - 1].updates, k);
    }
}

proof fn lemma_pairs(s: Seq<StatsView>, t: Seq<StatsView>, k: int, i: int)
    requires
        all_on_clock(s, t, k),
        i <= s.len(),
    ensures
        pairs_text(s, i) == pairs_text(t, i),
    decreases i,
{
    if i > 0 {
        lemma_pairs(s, t, k, i - 1);
        lemma_pairs_of(s, t, k, i - 1, s.len() as int);
    }
}

/// An update as the other clock stamps it is seen by the same feeds, and it comes to the
/// same feed first.
proof fn lemma_one_update(
    s: Seq<StatsView>,
    t: Seq<StatsView>,
    k: int,
    u: UpdateView,
    v: UpdateView,
)
    requires
        all_on_clock(s, t, k),
        s.len() > 0,
        v.time_ms == u.time_ms,
        v.content == u.content,
    ensures
        seen_by_all(s, u) == seen_by_all(t, v),
        seen_by_all(s, u) ==> winner(s, u) == winner(t, v),
{
    assert forall|i: int| 0 <= i < s.len() implies on_clock(#[trigger] s[i], t[i], k) by {
    }
    assert forall|i: int| 0 <= i < s.len() implies match arrival(
        (#[trigger] s[i]).updates,
        u.time_ms,
        u.content,
    ) {
        Some(ns) => 0 <= ns + k <= u64::MAX && arrival(
            t[i].updates,
            u.time_ms,
            u.content,
        ) == Some((ns + k) as u64),
        None => arrival(t[i].updates, u.time_ms, u.content) is None,
    } by {
        assert(on_clock(s[i], t[i], k));
        lemma_arrival_on_other_clock(s[i].updates, k, u.time_ms, u.content);
    }
    assert(seen_by_all(s, u) ==> seen_by_all(t, v)) by {
        if seen_by_all(s, u) {
            assert forall|i: int| 0 <= i < t.len() implies arrival(
                (#[trigger] t[i]).updates,
                v.time_ms,
                v.content,
            ) is Some by {
                assert(arrival(s[i].updates, u.time_ms, u.content) is Some);
            }
        }
    }
    assert(seen_by_all(t, v) ==> seen_by_all(s, u)) by {
        if seen_by_all(t, v) {
            assert forall|i: int| 0 <= i < s.len() implies arrival(
                (#[trigger] s[i]).updates,
                u.time_ms,
                u.content,
            ) is Some by {
                assert(arrival(t[i].updates, v.time_ms, v.content) is Some);
            }
        }
    }
    if seen_by_all(s, u) {
        let a = arrivals(s, u);
        let b = arrivals(t, v);
        assert forall|i: int| 0 <= i < a.len() implies #[trigger] b[i] == a[i] + k by {
            assert(arrival(s[i].updates, u.time_ms, u.content) is Some);
        }
        let first = lemma_someone_is_first(a);
        let w = winner(s, u);
        assert(is_earliest(a, w));
        assert(is_earliest(b, w)) by {
            assert forall|j: int| 0 <= j < b.len() implies b[w] <= #[trigger] b[j] by {
                assert(a[w] <= a[j]);
            }
            assert forall|j: int| 0 <= j < w implies b[w] < #[trigger] b[j] by {
                assert(a[w] < a[j]);
            }
        }
        let x = winner(t, v);
        assert(is_earliest(b, x));
        if x < w {
            assert(b[w] < b[x]);
        } else if w < x {
            assert(b[x] < b[w]);
        }
    }
}

proof fn lemma_counts(
    s: Seq<StatsView>,
    t: Seq<StatsView>,
    k: int,
    updates: Seq<UpdateView>,
    f: int,
)
    requires
        all_on_clock(s, t, k),
        s.len() > 0,
        fits_other_clock(updates, k),
    ensures
        shared(s, updates) == shared(t, on_other_clock(updates, k)),
        wins_of(s, updates, f) == wins_of(t, on_other_clock(updates, k), f),
    decreases updates.len(),
{
    reveal(Seq::filter);
    if updates.len() > 0 {
        let p = updates.drop_last();
        let moved = on_other_clock(updates, k);
        assert(moved.drop_last() =~= on_other_clock(p, k));
        assert(fits_other_clock(p, k)) by {
            assert forall|i: int| 0 <= i < p.len() implies 0 <= (#[trigger] p[i]).local_ns + k
                <= u64::MAX by {
                assert(0 <= updates[i].local_ns + k <= u64::MAX);
            }
        }
        lemma_counts(s, t, k, p, f);
        lemma_one_update(s, t, k, updates.last(), moved.last());
    }
}

proof fn lemma_ranked_in_range(wins: Seq<u64>)
    requires
        wins.len() <= usize::MAX,
    ensures
        forall|i: int| 0 <= i < ranked(wins).len() ==> (#[trigger] ranked(wins)[i]).0 < wins.len(),
{
    broadcast use vstd::seq_lib::group_to_multiset_ensures;

    let all = numbered(wins);
    assert(vstd::relations::total_ordering(by_wins()));
    all.lemma_sort_by_ensures(by_wins());
    assert forall|i: int| 0 <= i < ranked(wins).len() implies (#[trigger] ranked(wins)[i]).0
        < wins.len() by {
        let x = ranked(wins)[i];
        assert(ranked(wins).contains(x));
        assert(ranked(wins).to_multiset().count(x) > 0);
        assert(all.to_multiset().count(x) > 0);
        assert(all.contains(x));
    }
}

proof fn lemma_rank_lines(
    s: Seq<StatsView>,
    t: Seq<StatsView>,
    k: int,
    order: Seq<(usize, u64)>,
    total: nat,
)
    requires
        all_on_clock(s, t, k),
        forall|i: int| 0 <= i < order.len() ==> (#[trigger] order[i]).0 < s.len(),
    ensures
        rank_lines(s, order, total) == rank_lines(t, order, total),
    decreases order.len(),
{
    if order.len() > 0 {
        let p = order.drop_last();
        assert forall|i: int| 0 <= i < p.len() implies (#[trigger] p[i]).0 < s.len() by {
            assert(order[i].0 < s.len());
        }
        lemma_rank_lines(s, t, k, p, total);
        let f = order[order.len() - 1].0 as int;
        assert(on_clock(s[f], t[f], k));
    }
}

/// The second part of the report, who had an update first, is the same whatever the
/// setting of the clock that stamps all arrivals.
pub proof fn who_was_first_ignores_the_clock(s: Seq<StatsView>, t: Seq<StatsView>, k: int)
    requires
        all_on_clock(s, t, k),
        s.len() <= usize::MAX,
    ensures
        first_text(t) == first_text(s),
{
    let a = available_feeds(s);
    let b = available_feeds(t);
    lemma_available(s, t, k);
    s.lemma_filter_len(|x: StatsView| is_available(x));
    if a.len() >= 2 {
        lemma_pairs(a, b, k, a.len() as int);
        assert(on_clock(a[0], b[0], k));
        assert(all_wins(a) =~= all_wins(b)) by {
            assert forall|f: int| 0 <= f < a.len() implies all_wins(a)[f] == all_wins(b)[f] by {
                lemma_counts(a, b, k, a[0].updates, f);
            }
        }
        lemma_counts(a, b, k, a[0].updates, 0);
        lemma_ranked_in_range(all_wins(a));
        let total = shared(a, a[0].updates);
        lemma_rank_lines(a, b, k, ranked(all_wins(a)), total);
        assert(ranking_text(a) == ranking_text(b));
    }
}

} // verus!
