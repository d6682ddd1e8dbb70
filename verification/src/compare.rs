//! Comparing feeds: sorted latencies and their percentiles, and which of two feeds had
//! an update first.

use vstd::prelude::*;
use vstd::relations::{sorted_by, total_ordering};

use crate::clock::{difference_ns, lemma_wrapped_fits, wrapped};
use crate::content::ContentView;
use crate::stats::{
    arrival, distinct, is_update, lemma_distinct_prefix, lemma_no_arrival, FeedStats, UpdateView,
};

verus! {

/// Smaller numbers first.
pub open spec fn up() -> spec_fn(i64, i64) -> bool {
    |x: i64, y: i64| x <= y
}

/// The same numbers, the smallest first.
pub open spec fn ascending(s: Seq<i64>) -> Seq<i64> {
    s.sort_by(up())
}

/// `[i64]::sort_unstable`: afterwards the same numbers stand in the vector, each as
/// often as before, in ascending order.
#[verifier::external_body]
fn sort_numbers(v: &mut Vec<i64>)
    ensures
        final(v)@.to_multiset() == old(v)@.to_multiset(),
        sorted_by(final(v)@, up()),
{
    v.sort_unstable();
}

proof fn lemma_ascending(s: Seq<i64>, sorted: Seq<i64>)
    requires
        sorted.to_multiset() == s.to_multiset(),
        sorted_by(sorted, up()),
    ensures
        sorted == ascending(s),
{
    assert(total_ordering(up()));
    s.lemma_sort_by_ensures(up());
    vstd::seq_lib::lemma_sorted_unique(sorted, ascending(s), up());
}

/// Sorting keeps the number of elements, and puts smaller ones first.
pub proof fn lemma_ascending_sorted(s: Seq<i64>)
    ensures
        ascending(s).len() == s.len(),
        forall|i: int, j: int|
            0 <= i <= j < s.len() ==> #[trigger] ascending(s)[i] <= #[trigger] ascending(s)[j],
{
    assert(total_ordering(up()));
    s.lemma_sort_by_ensures(up());
    s.to_multiset_ensures();
    ascending(s).to_multiset_ensures();
    assert forall|i: int, j: int| 0 <= i <= j < s.len() implies #[trigger] ascending(s)[i]
        <= #[trigger] ascending(s)[j] by {
        if i < j {
            assert(up()(ascending(s)[i], ascending(s)[j]));
        }
    }
}

/// The numbers of `s`, the smallest first.
pub fn sorted_numbers(s: &Vec<i64>) -> (v: Vec<i64>)
    ensures
        v@ == ascending(s@),
        v@.len() == s@.len(),
{
    let mut v: Vec<i64> = Vec::new();
    let mut i: usize = 0;
    while i < s.len()
        invariant
            i <= s@.len(),
            v@ == s@.take(i as int),
        decreases s@.len() - i,
    {
        v.push(s[i]);
        assert(v@ =~= s@.take(i + 1));
        i += 1;
    }
    assert(s@.take(s@.len() as int) =~= s@);
    sort_numbers(&mut v);
    proof {
        lemma_ascending(s@, v@);
        lemma_ascending_sorted(s@);
    }
    v
}

/// Where the `p`-th percentile stands among `len` sorted numbers: `p` percent of the
/// way from the first to the last, rounded to the nearest position, halves up.
pub open spec fn percentile_index(len: nat, p: nat) -> int {
    let i = (p * (len - 1) + 50) / 100;
    if i < len - 1 {
        i
    } else {
        len - 1
    }
}

/// The whole percents at which `(p / 100.0 * (len - 1)).round()` in double precision is
/// the nearest position too. At the ten others the product can fall short of a half and
/// is rounded down.
pub open spec fn meets_halves(p: nat) -> bool {
    &&& p != 29 && p != 35 && p != 41 && p != 47 && p != 57
    &&& p != 58 && p != 69 && p != 70 && p != 82 && p != 94
}

/// The `p`-th percentile of sorted numbers, `p` in whole percent. What is meant by it
/// is the same in double precision.
pub fn percentile_ns(sorted: &[i64], p: u64) -> (v: i64)
    requires
        sorted@.len() > 0,
        meets_halves(p as nat),
    ensures
        v == sorted@[percentile_index(sorted@.len(), p as nat)],
{
    let last: usize = sorted.len() - 1;
    let ghost n = sorted@.len();
    proof {
        assert(0 <= p * last <= 0xffff_ffff_ffff_ffff * 0xffff_ffff_ffff_ffff) by (nonlinear_arith)
            requires
                0 <= p <= 0xffff_ffff_ffff_ffff,
                0 <= last <= 0xffff_ffff_ffff_ffff,
        ;
    }
    let i: u128 = (p as u128 * last as u128 + 50) / 100;
    if i < last as u128 {
        sorted[i as usize]
    } else {
        sorted[last]
    }
}

/// The first number is the 0th percentile and the last one the 100th.
pub proof fn percentiles_reach_both_ends(len: nat)
    requires
        len > 0,
    ensures
        percentile_index(len, 0) == 0,
        percentile_index(len, 100) == len - 1,
{
    assert((100 * (len - 1) + 50) / 100 == len - 1);
}

/// A higher percentile of sorted numbers is not a smaller number, and all of them lie
/// between the first and the last.
pub proof fn percentiles_ascend(s: Seq<i64>, p: nat, q: nat)
    requires
        s.len() > 0,
        p <= q,
    ensures
        ({
            let v = ascending(s);
            &&& v[0] <= v[percentile_index(s.len(), p)]
            &&& v[percentile_index(s.len(), p)] <= v[percentile_index(s.len(), q)]
            &&& v[percentile_index(s.len(), q)] <= v[s.len() - 1]
        }),
{
    let n = s.len() - 1;
    assert(0 <= p * n <= q * n) by (nonlinear_arith)
        requires
            0 <= p <= q,
            0 <= n,
    ;
    let i = percentile_index(s.len(), p);
    let j = percentile_index(s.len(), q);
    assert(0 <= i <= j <= n);
    lemma_ascending_sorted(s);
}

/// For each update of `a` that `b` has too, in the order in which they came to `a`,
/// how much later `b` had it.
pub open spec fn delays(a: Seq<UpdateView>, b: Seq<UpdateView>) -> Seq<i64>
    decreases a.len(),
{
    if a.len() == 0 {
        Seq::empty()
    } else {
        let u = a.last();
        let before = delays(a.drop_last(), b);
        match arrival(b, u.time_ms, u.content) {
            Some(ns) => before.push(wrapped(ns - u.local_ns)),
            None => before,
        }
    }
}

/// How many of the numbers are above zero.
pub open spec fn positive(d: Seq<i64>) -> nat {
    d.filter(|x: i64| x > 0).len()
}

/// How many of the numbers are below zero.
pub open spec fn negative(d: Seq<i64>) -> nat {
    d.filter(|x: i64| x < 0).len()
}

/// How many of the numbers are zero.
pub open spec fn zero(d: Seq<i64>) -> nat {
    d.filter(|x: i64| x == 0).len()
}

/// Of every update that both feeds have, one had it first or both had it at once.
pub proof fn every_match_has_an_outcome(d: Seq<i64>)
    ensures
        positive(d) + negative(d) + zero(d) == d.len(),
    decreases d.len(),
{
    reveal(Seq::filter);
    if d.len() > 0 {
        every_match_has_an_outcome(d.drop_last());
    }
}

/// Two feeds compared, update by update.
pub struct Comparison {
    /// how much later the second feed had each update, the smallest first
    pub delays: Vec<i64>,
    /// how often the first feed was first
    pub a_wins: u64,
    /// how often the second feed was first
    pub b_wins: u64,
    /// how often both came at once
    pub ties: u64,
}

/// Compares two feeds on the updates that both have: same exchange time and same
/// content.
pub fn compare(a: &FeedStats, b: &FeedStats) -> (c: Comparison)
    requires
        b.searchable(),
    ensures
        c.delays@ == ascending(delays(a@.updates, b@.updates)),
        c.delays@.len() == delays(a@.updates, b@.updates).len(),
        c.a_wins == positive(delays(a@.updates, b@.updates)),
        c.b_wins == negative(delays(a@.updates, b@.updates)),
        c.ties == zero(delays(a@.updates, b@.updates)),
{
    let ghost ua = a@.updates;
    let ghost ub = b@.updates;
    let mut d: Vec<i64> = Vec::new();
    let mut a_wins: u64 = 0;
    let mut b_wins: u64 = 0;
    let mut ties: u64 = 0;
    let mut i: usize = 0;
    proof {
        reveal(Seq::filter);
        assert(ua.take(0) =~= Seq::empty());
    }
    while i < a.updates.len()
        invariant
            i <= a.updates@.len() == ua.len(),
            ua == a@.updates,
            ub == b@.updates,
            b.searchable(),
            d@ == delays(ua.take(i as int), ub),
            d@.len() <= i,
            a_wins == positive(d@),
            b_wins == negative(d@),
            ties == zero(d@),
        decreases a.updates@.len() - i,
    {
        let u = &a.updates[i];
        proof {
            assert(ua.take(i + 1).drop_last() =~= ua.take(i as int));
            assert(ua.take(i + 1).last() == u@);
            every_match_has_an_outcome(d@);
            assert(a.updates@.len() == a.updates.len());
        }
        if let Some(b_ns) = b.arrival_of(u.time_ms, &u.key) {
            let x = difference_ns(b_ns, u.local_ns);
            let ghost before = d@;
            d.push(x);
            proof {
                reveal(Seq::filter);
                assert(d@.drop_last() =~= before);
            }
            if x > 0 {
                a_wins = a_wins + 1;
            } else if x < 0 {
                b_wins = b_wins + 1;
            } else {
                ties = ties + 1;
            }
        }
        i += 1;
    }
    assert(ua.take(ua.len() as int) =~= ua);
    let sorted = sorted_numbers(&d);
    Comparison { delays: sorted, a_wins, b_wins, ties }
}

/// The same updates on a clock that is ahead by `k`.
pub open spec fn on_other_clock(updates: Seq<UpdateView>, k: int) -> Seq<UpdateView> {
    updates.map_values(
        |u: UpdateView|
            UpdateView {
                time_ms: u.time_ms,
                content: u.content,
                local_ns: (u.local_ns + k) as u64,
            },
    )
}

/// All stamps exist on a clock that is ahead by `k`.
pub open spec fn fits_other_clock(updates: Seq<UpdateView>, k: int) -> bool {
    forall|i: int|
        0 <= i < updates.len() ==> 0 <= (#[trigger] updates[i]).local_ns + k <= u64::MAX
}

/// When an update came, on a clock that is ahead by `k`.
pub proof fn lemma_arrival_on_other_clock(
    updates: Seq<UpdateView>,
    k: int,
    time_ms: u64,
    c: ContentView,
)
    requires
        fits_other_clock(updates, k),
    ensures
        match arrival(updates, time_ms, c) {
            Some(ns) => 0 <= ns + k <= u64::MAX && arrival(on_other_clock(updates, k), time_ms, c)
                == Some((ns + k) as u64),
            None => arrival(on_other_clock(updates, k), time_ms, c) is None,
        },
    decreases updates.len(),
{
    if updates.len() > 0 {
        let p = updates.drop_last();
        assert(on_other_clock(updates, k).drop_last() =~= on_other_clock(p, k));
        assert(updates[updates.len() - 1].local_ns + k >= 0);
        lemma_arrival_on_other_clock(p, k, time_ms, c);
    }
}

/// The comparison of two feeds does not depend on how the clock is set that stamps
/// the arrivals of both.
pub proof fn comparison_ignores_the_clock(a: Seq<UpdateView>, b: Seq<UpdateView>, k: int)
    requires
        fits_other_clock(a, k),
        fits_other_clock(b, k),
    ensures
        delays(on_other_clock(a, k), on_other_clock(b, k)) == delays(a, b),
    decreases a.len(),
{
    if a.len() > 0 {
        let p = a.drop_last();
        let u = a.last();
        assert(on_other_clock(a, k).drop_last() =~= on_other_clock(p, k));
        assert(a[a.len() - 1].local_ns + k >= 0);
        comparison_ignores_the_clock(p, b, k);
        lemma_arrival_on_other_clock(b, k, u.time_ms, u.content);
    }
}

/// No update came to the two feeds exactly two to the power of 63 nanoseconds apart, a
/// distance that counts as negative in both directions.
pub open spec fn never_half_way_round(a: Seq<UpdateView>, b: Seq<UpdateView>) -> bool {
    forall|i: int, j: int|
        0 <= i < a.len() && 0 <= j < b.len() && is_update(
            #[trigger] b[j],
            (#[trigger] a[i]).time_ms,
            a[i].content,
        ) ==> a[i].local_ns - b[j].local_ns != 0x8000_0000_0000_0000 && b[j].local_ns
            - a[i].local_ns != 0x8000_0000_0000_0000
}

proof fn lemma_wrapped_opposite(x: int)
    requires
        -0x1_0000_0000_0000_0000 < x < 0x1_0000_0000_0000_0000,
        x != 0x8000_0000_0000_0000,
        x != -0x8000_0000_0000_0000,
    ensures
        wrapped(-x) == -wrapped(x),
{
    let m: int = 0x1_0000_0000_0000_0000;
    if x > 0 {
        assert(x % m == x);
        assert((-x) % m == m - x);
    } else if x < 0 {
        assert(x % m == m + x);
        assert((-x) % m == -x);
    }
}

/// What has arrived is one of the entries.
pub proof fn lemma_arrival_entry(updates: Seq<UpdateView>, time_ms: u64, c: ContentView) -> (j: int)
    requires
        arrival(updates, time_ms, c) is Some,
    ensures
        0 <= j < updates.len(),
        is_update(updates[j], time_ms, c),
        arrival(updates, time_ms, c) == Some(updates[j].local_ns),
    decreases updates.len(),
{
    if is_update(updates.last(), time_ms, c) {
        updates.len() - 1
    } else {
        lemma_arrival_entry(updates.drop_last(), time_ms, c)
    }
}

/// How one more update of the second feed changes the delays of the first.
proof fn lemma_one_more_match(b: Seq<UpdateView>, a: Seq<UpdateView>, u: UpdateView)
    requires
        distinct(b),
        arrival(a, u.time_ms, u.content) is None,
    ensures
        ({
            let d = delays(b, a);
            let e = delays(b, a.push(u));
            match arrival(b, u.time_ms, u.content) {
                None => e == d,
                Some(ns) => {
                    let x = wrapped(u.local_ns - ns);
                    &&& e.len() == d.len() + 1
                    &&& negative(e) == negative(d) + if x < 0 { 1nat } else { 0nat }
                    &&& positive(e) == positive(d) + if x > 0 { 1nat } else { 0nat }
                    &&& zero(e) == zero(d) + if x == 0 { 1nat } else { 0nat }
                },
            }
        }),
    decreases b.len(),
{
    reveal(Seq::filter);
    if b.len() > 0 {
        let p = b.drop_last();
        let v = b.last();
        lemma_distinct_prefix(b);
        lemma_one_more_match(p, a, u);
        assert(a.push(u).drop_last() =~= a);
        let d = delays(p, a);
        let e = delays(p, a.push(u));
        if is_update(v, u.time_ms, u.content) {
            lemma_no_arrival(p, u.time_ms, u.content);
            assert forall|i: int| 0 <= i < p.len() implies !is_update(
                #[trigger] p[i],
                u.time_ms,
                u.content,
            ) by {
                assert(p[i] == b[i]);
                assert(!is_update(b[b.len() - 1], b[i].time_ms, b[i].content));
            }
            let x = wrapped(u.local_ns - v.local_ns);
            assert(delays(b, a) == d);
            assert(delays(b, a.push(u)) == e.push(x));
            assert(e.push(x).drop_last() =~= e);
        } else {
            assert(arrival(a.push(u), v.time_ms, v.content) == arrival(a, v.time_ms, v.content));
            if let Some(ns) = arrival(a, v.time_ms, v.content) {
                let y = wrapped(ns - v.local_ns);
                assert(d.push(y).drop_last() =~= d);
                assert(e.push(y).drop_last() =~= e);
            }
        }
    }
}

/// Comparing two feeds the other way round matches as many updates and swaps who was
/// first.
pub proof fn swapping_feeds_swaps_the_outcomes(a: Seq<UpdateView>, b: Seq<UpdateView>)
    requires
        distinct(a),
        distinct(b),
        never_half_way_round(a, b),
    ensures
        delays(a, b).len() == delays(b, a).len(),
        positive(delays(a, b)) == negative(delays(b, a)),
        negative(delays(a, b)) == positive(delays(b, a)),
        zero(delays(a, b)) == zero(delays(b, a)),
    decreases a.len(),
{
    reveal(Seq::filter);
    if a.len() == 0 {
        lemma_no_delays(b, a);
    } else {
        let p = a.drop_last();
        let u = a.last();
        assert(a =~= p.push(u));
        lemma_distinct_prefix(a);
        assert(never_half_way_round(p, b)) by {
            assert(forall|i: int| 0 <= i < p.len() ==> #[trigger] p[i] == a[i]);
        }
        swapping_feeds_swaps_the_outcomes(p, b);
        lemma_no_arrival(p, u.time_ms, u.content);
        assert forall|i: int| 0 <= i < p.len() implies !is_update(
            #[trigger] p[i],
            u.time_ms,
            u.content,
        ) by {
            assert(p[i] == a[i]);
            assert(!is_update(a[a.len() - 1], a[i].time_ms, a[i].content));
        }
        lemma_one_more_match(b, p, u);
        if let Some(ns) = arrival(b, u.time_ms, u.content) {
            let j = lemma_arrival_entry(b, u.time_ms, u.content);
            assert(is_update(b[j], a[a.len() - 1].time_ms, a[a.len() - 1].content));
            lemma_wrapped_opposite(ns - u.local_ns);
            let d = delays(p, b);
            let x = wrapped(ns - u.local_ns);
            assert(d.push(x).drop_last() =~= d);
        }
    }
}

proof fn lemma_no_delays(b: Seq<UpdateView>, a: Seq<UpdateView>)
    requires
        a.len() == 0,
    ensures
        delays(b, a).len() == 0,
    decreases b.len(),
{
    if b.len() > 0 {
        lemma_no_delays(b.drop_last(), a);
    }
}

/// Two entries are of the same update: exchange time and content agree.
pub open spec fn of_one_update(u: UpdateView, v: UpdateView) -> bool {
    u.time_ms == v.time_ms && u.content == v.content
}

/// `d` is by how much the stamp of `v` is later than that of `u`, in 64 bits.
pub open spec fn is_difference(d: i64, u: UpdateView, v: UpdateView) -> bool {
    let x = v.local_ns - u.local_ns;
    &&& i64::MIN <= x <= i64::MAX ==> d == x
    &&& x > i64::MAX ==> d == x - 0x1_0000_0000_0000_0000
    &&& x < i64::MIN ==> d == x + 0x1_0000_0000_0000_0000
}

/// Each number is the difference of one pair of entries of the same update, pair by pair.
pub open spec fn are_differences(
    d: Seq<i64>,
    pairs: Seq<(int, int)>,
    a: Seq<UpdateView>,
    b: Seq<UpdateView>,
) -> bool {
    &&& d.len() == pairs.len()
    &&& forall|k: int|
        0 <= k < pairs.len() ==> {
            let (i, j) = #[trigger] pairs[k];
            &&& 0 <= i < a.len() && 0 <= j < b.len()
            &&& of_one_update(a[i], b[j])
            &&& is_difference(d[k], a[i], b[j])
        }
}

/// Every update that both feeds have is in the list once, and nothing else is.
pub open spec fn lists_all_matches(
    pairs: Seq<(int, int)>,
    a: Seq<UpdateView>,
    b: Seq<UpdateView>,
) -> bool {
    &&& forall|k: int, l: int|
        0 <= k < l < pairs.len() ==> (#[trigger] pairs[k]).0 < (#[trigger] pairs[l]).0
    &&& forall|i: int, j: int|
        0 <= i < a.len() && 0 <= j < b.len() && of_one_update(#[trigger] a[i], #[trigger] b[j])
            ==> pairs.contains((i, j))
}

proof fn lemma_wrapped_difference(d: i64, u: UpdateView, v: UpdateView)
    requires
        d == wrapped(v.local_ns - u.local_ns),
    ensures
        is_difference(d, u, v),
{
    let m: int = 0x1_0000_0000_0000_0000;
    let x = v.local_ns - u.local_ns;
    if x >= 0 {
        assert(x % m == x);
    } else {
        assert(x % m == x + m);
    }
}

/// The comparison of two feeds holds, for every update that both have, by how much later
/// the second had it, and nothing else: each difference in full, one for each update.
#[verifier::rlimit(40)]
pub proof fn every_difference_is_reported(a: Seq<UpdateView>, b: Seq<UpdateView>) -> (pairs: Seq<
    (int, int),
>)
    requires
        distinct(a),
        distinct(b),
    ensures
        are_differences(delays(a, b), pairs, a, b),
        lists_all_matches(pairs, a, b),
    decreases a.len(),
{
    if a.len() == 0 {
        Seq::empty()
    } else {
        let p = a.drop_last();
        let u = a.last();
        let n = a.len() - 1;
        lemma_distinct_prefix(a);
        let before = every_difference_is_reported(p, b);
        assert(forall|i: int| 0 <= i < p.len() ==> #[trigger] p[i] == a[i]);
        assert forall|k: int| 0 <= k < before.len() implies (#[trigger] before[k]).0 < n by {
        }
        match arrival(b, u.time_ms, u.content) {
            Some(ns) => {
                let j = lemma_arrival_entry(b, u.time_ms, u.content);
                let pairs = before.push((n, j));
                lemma_wrapped_difference(wrapped(ns - u.local_ns), u, b[j]);
                assert forall|i: int, l: int|
                    0 <= i < a.len() && 0 <= l < b.len() && of_one_update(
                        #[trigger] a[i],
                        #[trigger] b[l],
                    ) implies pairs.contains((i, l)) by {
                    if i < n {
                        assert(of_one_update(p[i], b[l]));
                        let k = choose|k: int| 0 <= k < before.len() && before[k] == (i, l);
                        assert(pairs[k] == (i, l));
                    } else {
                        if l < j {
                            assert(!is_update(b[j], b[l].time_ms, b[l].content));
                        } else if j < l {
                            assert(!is_update(b[l], b[j].time_ms, b[j].content));
                        }
                        assert(pairs[before.len() as int] == (i, l));
                    }
                }
                assert forall|k: int| 0 <= k < pairs.len() implies ({
                    let (i, l) = #[trigger] pairs[k];
                    &&& 0 <= i < a.len() && 0 <= l < b.len()
                    &&& of_one_update(a[i], b[l])
                    &&& is_difference(delays(a, b)[k], a[i], b[l])
                }) by {
                    if k < before.len() {
                        assert(before[k] == pairs[k]);
                        assert(delays(a, b)[k] == delays(p, b)[k]);
                        assert(p[before[k].0] == a[before[k].0]);
                    }
                }
                pairs
            },
            None => {
                lemma_no_arrival(b, u.time_ms, u.content);
                assert forall|i: int, l: int|
                    0 <= i < a.len() && 0 <= l < b.len() && of_one_update(
                        #[trigger] a[i],
                        #[trigger] b[l],
                    ) implies before.contains((i, l)) by {
                    if i < n {
                        assert(of_one_update(p[i], b[l]));
                    } else {
                        assert(!is_update(b[l], u.time_ms, u.content));
                    }
                }
                assert forall|k: int| 0 <= k < before.len() implies ({
                    let (i, l) = #[trigger] before[k];
                    &&& 0 <= i < a.len() && 0 <= l < b.len()
                    &&& of_one_update(a[i], b[l])
                    &&& is_difference(delays(a, b)[k], a[i], b[l])
                }) by {
                    assert(p[before[k].0] == a[before[k].0]);
                }
                before
            },
        }
    }
}

/// Where the second feed alone comes later by `k`, every difference grows by `k`.
pub proof fn a_later_second_feed_is_later_by_as_much(
    a: Seq<UpdateView>,
    b: Seq<UpdateView>,
    k: int,
    i: int,
)
    requires
        distinct(a),
        distinct(b),
        fits_other_clock(b, k),
        0 <= i < delays(a, b).len(),
    ensures
        delays(a, on_other_clock(b, k)).len() == delays(a, b).len(),
        delays(a, on_other_clock(b, k))[i] == wrapped(delays(a, b)[i] + k),
        i64::MIN <= delays(a, b)[i] + k <= i64::MAX ==> delays(a, on_other_clock(b, k))[i]
            == delays(a, b)[i] + k,
    decreases a.len(),
{
    let p = a.drop_last();
    let u = a.last();
    lemma_distinct_prefix(a);
    lemma_delays_len(p, b, k);
    lemma_delays_len(a, b, k);
    lemma_arrival_on_other_clock(b, k, u.time_ms, u.content);
    if i < delays(p, b).len() {
        a_later_second_feed_is_later_by_as_much(p, b, k, i);
    } else if let Some(ns) = arrival(b, u.time_ms, u.content) {
        let m: int = 0x1_0000_0000_0000_0000;
        let x = ns - u.local_ns;
        let w = wrapped(x);
        if x >= 0 {
            assert(x % m == x);
        } else {
            assert(x % m == x + m);
        }
        assert(w == x || w == x - m || w == x + m);
        vstd::arithmetic::div_mod::lemma_mod_multiples_vanish(1, x + k, m);
        vstd::arithmetic::div_mod::lemma_mod_multiples_vanish(-1, x + k, m);
        assert((w + k) % m == (x + k) % m);
    }
    lemma_wrapped_fits(delays(a, b)[i] + k);
}

proof fn lemma_delays_len(a: Seq<UpdateView>, b: Seq<UpdateView>, k: int)
    requires
        fits_other_clock(b, k),
    ensures
        delays(a, on_other_clock(b, k)).len() == delays(a, b).len(),
    decreases a.len(),
{
    if a.len() > 0 {
        lemma_delays_len(a.drop_last(), b, k);
        lemma_arrival_on_other_clock(b, k, a.last().time_ms, a.last().content);
    }
}

/// The places at which a number is of some kind.
spec fn places(d: Seq<i64>, p: spec_fn(i64) -> bool) -> Set<int> {
    Set::new(|k: int| 0 <= k < d.len() && p(d[k]))
}

proof fn lemma_places(d: Seq<i64>, p: spec_fn(i64) -> bool)
    ensures
        places(d, p).finite(),
        places(d, p).len() == d.filter(p).len(),
    decreases d.len(),
{
    reveal(Seq::filter);
    if d.len() == 0 {
        assert(places(d, p) =~= Set::empty());
    } else {
        let q = d.drop_last();
        let n = d.len() - 1;
        lemma_places(q, p);
        assert(!places(q, p).contains(n));
        if p(d.last()) {
            assert(places(d, p) =~= places(q, p).insert(n));
        } else {
            assert(places(d, p) =~= places(q, p));
        }
    }
}

/// The first feed is first where the second is later, the second where it is earlier,
/// and neither where both come at once: each is counted once for each such update.
pub proof fn the_earlier_feed_is_first(d: Seq<i64>)
    ensures
        positive(d) == Set::new(|k: int| 0 <= k < d.len() && d[k] > 0).len(),
        negative(d) == Set::new(|k: int| 0 <= k < d.len() && d[k] < 0).len(),
        zero(d) == Set::new(|k: int| 0 <= k < d.len() && d[k] == 0).len(),
{
    let above = |x: i64| x > 0;
    let below = |x: i64| x < 0;
    let at = |x: i64| x == 0;
    lemma_places(d, above);
    lemma_places(d, below);
    lemma_places(d, at);
    assert(places(d, above) =~= Set::new(|k: int| 0 <= k < d.len() && d[k] > 0));
    assert(places(d, below) =~= Set::new(|k: int| 0 <= k < d.len() && d[k] < 0));
    assert(places(d, at) =~= Set::new(|k: int| 0 <= k < d.len() && d[k] == 0));
}

/// Sorting only changes the order: each number stands there as often as before, and none
/// stands before a smaller one.
pub proof fn sorting_only_reorders(s: Seq<i64>)
    ensures
        ascending(s).len() == s.len(),
        forall|x: i64| #[trigger] ascending(s).to_multiset().count(x) == s.to_multiset().count(x),
        forall|i: int, j: int|
            0 <= i <= j < s.len() ==> #[trigger] ascending(s)[i] <= #[trigger] ascending(s)[j],
{
    lemma_ascending_sorted(s);
    assert(total_ordering(up()));
    s.lemma_sort_by_ensures(up());
}

/// A percentile stands at the nearest position: at most half a step away from the point
/// that is `p` percent of the way from the first number to the last.
pub proof fn a_percentile_is_the_nearest_position(len: nat, p: nat)
    requires
        len > 0,
        p <= 100,
    ensures
        0 <= percentile_index(len, p) < len,
        -50 <= 100 * percentile_index(len, p) - p * (len - 1) <= 50,
        100 * percentile_index(len, p) - p * (len - 1) != -50,
{
    let n = len - 1;
    assert(0 <= p * n <= 100 * n) by (nonlinear_arith)
        requires
            0 <= p <= 100,
            0 <= n,
    ;
}

/// From the hundredth on every percentile is the last number.
pub proof fn the_hundredth_percentile_is_the_last(len: nat, p: nat)
    requires
        len > 0,
        p >= 100,
    ensures
        percentile_index(len, p) == len - 1,
{
    let n = len - 1;
    assert(p * n >= 100 * n) by (nonlinear_arith)
        requires
            p >= 100,
            n >= 0,
    ;
}

} // verus!
