//! The distribution of hop distances over searches from sampled start nodes.

use vstd::prelude::*;
use std::collections::HashMap;
use crate::bfs::bfs;
use crate::graph::{graph_of, well_formed, distance_vector};
use crate::sampler::{draw_size, eligible_set, is_sample, sample_nodes};
use crate::exchange::lemma_exchange_keeps_entries;

verus! {

/// One where `entry` is the distance `d`.
pub open spec fn hits(entry: Option<usize>, d: usize) -> nat {
    if entry == Some(d) {
        1
    } else {
        0
    }
}

/// The number of entries of `dv` that are the distance `d`.
pub open spec fn distance_count(dv: Seq<Option<usize>>, d: usize) -> nat
    decreases dv.len(),
{
    if dv.len() == 0 {
        0
    } else {
        distance_count(dv.drop_last(), d) + hits(dv.last(), d)
    }
}

/// How often the searches from `picked` found a node at distance `d`.
pub open spec fn bucket(g: Seq<Seq<usize>>, picked: Seq<usize>, d: usize) -> nat
    decreases picked.len(),
{
    if picked.len() == 0 {
        0
    } else {
        bucket(g, picked.drop_last(), d) + distance_count(distance_vector(g, picked.last() as int), d)
    }
}

/// `h` holds, for each positive distance found by the searches from `done`
/// or in `dv`, how often it was found, and no other key.
pub open spec fn tallied(h: Map<usize, usize>, g: Seq<Seq<usize>>, done: Seq<usize>, dv: Seq<Option<usize>>) -> bool {
    forall|d: usize|
        {
            &&& #[trigger] h.contains_key(d) <==> d > 0 && bucket(g, done, d) + distance_count(dv, d) > 0
            &&& h.contains_key(d) ==> h[d] == bucket(g, done, d) + distance_count(dv, d)
        }
}

/// `h` is the histogram of the searches from `picked`: each positive
/// distance that occurs is a key, with the number of its occurrences, and
/// a distance that never occurs is no key.
pub open spec fn is_histogram(h: Map<usize, usize>, g: Seq<Seq<usize>>, picked: Seq<usize>) -> bool {
    forall|d: usize|
        {
            &&& #[trigger] h.contains_key(d) <==> d > 0 && bucket(g, picked, d) > 0
            &&& h.contains_key(d) ==> h[d] == bucket(g, picked, d)
        }
}

/// A distance occurs in a vector at most as often as the vector is long.
pub proof fn lemma_distance_count_bound(dv: Seq<Option<usize>>, d: usize)
    ensures
        distance_count(dv, d) <= dv.len(),
    decreases dv.len(),
{
    if dv.len() > 0 {
        lemma_distance_count_bound(dv.drop_last(), d);
    }
}

/// A distance occurs in a prefix at most as often as in the whole.
pub proof fn lemma_prefix_distance_count(dv: Seq<Option<usize>>, upto: int, d: usize)
    requires
        0 <= upto <= dv.len(),
    ensures
        distance_count(dv.take(upto), d) <= distance_count(dv, d),
    decreases dv.len(),
{
    if upto == dv.len() {
        assert(dv.take(upto) =~= dv);
    } else {
        assert(dv.drop_last().take(upto) =~= dv.take(upto));
        lemma_prefix_distance_count(dv.drop_last(), upto, d);
    }
}

/// The first searches find a distance at most as often as all of them.
pub proof fn lemma_prefix_bucket(g: Seq<Seq<usize>>, picked: Seq<usize>, upto: int, d: usize)
    requires
        0 <= upto <= picked.len(),
    ensures
        bucket(g, picked.take(upto), d) <= bucket(g, picked, d),
    decreases picked.len(),
{
    if upto == picked.len() {
        assert(picked.take(upto) =~= picked);
    } else {
        assert(picked.drop_last().take(upto) =~= picked.take(upto));
        lemma_prefix_bucket(g, picked.drop_last(), upto, d);
    }
}

/// Every count of the histogram of the searches from `picked` fits a
/// machine integer. A search finds each node at most once, so they fit
/// whenever the number of searches times the number of nodes does.
pub open spec fn counts_fit(g: Seq<Seq<usize>>, picked: Seq<usize>) -> bool {
    picked.len() * g.len() <= usize::MAX || forall|d: usize| #[trigger] bucket(g, picked, d) <= usize::MAX
}

/// The histogram of the positive distances found by searches from `samples`.
pub fn avg_distance_histogram_over(adj_list: &Vec<Vec<usize>>, samples: &Vec<usize>) -> (frequency: HashMap<usize, usize>)
    requires
        well_formed(graph_of(adj_list)),
        forall|i: int| 0 <= i < samples@.len() ==> (#[trigger] samples@[i]) < adj_list.len(),
        counts_fit(graph_of(adj_list), samples@),
    ensures
        is_histogram(frequency@, graph_of(adj_list), samples@),
{
    broadcast use vstd::std_specs::hash::group_hash_axioms;
    let ghost g = graph_of(adj_list);
    let ghost n = adj_list.len() as int;
    let mut frequency: HashMap<usize, usize> = HashMap::new();
    let mut i: usize = 0;
    proof {
        assert(0 * n == 0) by (nonlinear_arith);
    }
    while i < samples.len()
        invariant
            g == graph_of(adj_list),
            n == adj_list.len(),
            well_formed(g),
            forall|k: int| 0 <= k < samples@.len() ==> (#[trigger] samples@[k]) < adj_list.len(),
            counts_fit(g, samples@),
            i <= samples@.len(),
            tallied(frequency@, g, samples@.take(i as int), Seq::empty()),
            samples@.len() * n <= usize::MAX ==> forall|d: usize| #[trigger] bucket(g, samples@.take(i as int), d) <= i * n,
        decreases samples@.len() - i,
    {
        let distances = bfs(adj_list, samples[i]);
        let ghost done = samples@.take(i as int);
        proof {
            assert(distances@.take(0) =~= Seq::empty());
            assert(i * n + n == (i + 1) * n) by (nonlinear_arith);
            assert((i + 1) * n <= samples@.len() * n) by (nonlinear_arith)
                requires
                    i + 1 <= samples@.len(),
                    0 <= n,
            ;
            assert(samples@.take(i + 1).drop_last() =~= done);
            assert(samples@.take(i + 1).last() == samples@[i as int]);
            if !(samples@.len() * n <= usize::MAX) {
                assert forall|d: usize| #[trigger] bucket(g, done, d) + distance_count(distances@, d) <= usize::MAX by {
                    lemma_prefix_bucket(g, samples@, i + 1, d);
                    assert(bucket(g, samples@, d) <= usize::MAX);
                }
            }
        }
        let mut v: usize = 0;
        while v < distances.len()
            invariant
                distances@.len() == n,
                v <= distances@.len(),
                samples@.len() * n <= usize::MAX ==> i * n + n <= usize::MAX,
                tallied(frequency@, g, done, distances@.take(v as int)),
                samples@.len() * n <= usize::MAX ==> forall|d: usize| #[trigger] bucket(g, done, d) <= i * n,
                !(samples@.len() * n <= usize::MAX) ==> forall|d: usize| #[trigger] bucket(g, done, d) + distance_count(distances@, d) <= usize::MAX,
            decreases distances@.len() - v,
        {
            let ghost seen = distances@.take(v as int);
            proof {
                assert(distances@.take(v + 1).drop_last() =~= seen);
            }
            if let Some(dist) = distances[v] {
                if dist > 0 {
                    let current: usize = match frequency.get(&dist) {
                        Some(c) => *c,
                        None => 0,
                    };
                    proof {
                        lemma_distance_count_bound(seen, dist);
                        lemma_prefix_distance_count(distances@, v + 1, dist);
                        if samples@.len() * n <= usize::MAX {
                            assert(bucket(g, done, dist) <= i * n);
                        } else {
                            assert(bucket(g, done, dist) + distance_count(distances@, dist) <= usize::MAX);
                        }
                        assert(frequency@.contains_key(dist) || current == 0);
                        assert(current == bucket(g, done, dist) + distance_count(seen, dist));
                    }
                    let ghost before = frequency@;
                    frequency.insert(dist, current + 1);
                    proof {
                        assert forall|d: usize|
                            {
                                &&& #[trigger] frequency@.contains_key(d) <==> d > 0 && bucket(g, done, d) + distance_count(distances@.take(v + 1), d) > 0
                                &&& frequency@.contains_key(d) ==> frequency@[d] == bucket(g, done, d) + distance_count(distances@.take(v + 1), d)
                            } by {
                            assert(before.contains_key(d) <==> d > 0 && bucket(g, done, d) + distance_count(seen, d) > 0);
                        }
                    }
                } else {
                    proof {
                        assert forall|d: usize|
                            {
                                &&& #[trigger] frequency@.contains_key(d) <==> d > 0 && bucket(g, done, d) + distance_count(distances@.take(v + 1), d) > 0
                                &&& frequency@.contains_key(d) ==> frequency@[d] == bucket(g, done, d) + distance_count(distances@.take(v + 1), d)
                            } by {
                            assert(frequency@.contains_key(d) <==> d > 0 && bucket(g, done, d) + distance_count(seen, d) > 0);
                        }
                    }
                }
            } else {
                proof {
                    assert forall|d: usize|
                        {
                            &&& #[trigger] frequency@.contains_key(d) <==> d > 0 && bucket(g, done, d) + distance_count(distances@.take(v + 1), d) > 0
                            &&& frequency@.contains_key(d) ==> frequency@[d] == bucket(g, done, d) + distance_count(distances@.take(v + 1), d)
                        } by {
                        assert(frequency@.contains_key(d) <==> d > 0 && bucket(g, done, d) + distance_count(seen, d) > 0);
                    }
                }
            }
            v = v + 1;
        }
        proof {
            assert(distances@.take(v as int) =~= distances@);
            assert(samples@.take(i + 1).drop_last() =~= done);
            assert(samples@.take(i + 1).last() == samples@[i as int]);
            if samples@.len() * n <= usize::MAX {
                assert forall|d: usize| #[trigger] bucket(g, samples@.take(i + 1), d) <= (i + 1) * n by {
                    lemma_distance_count_bound(distances@, d);
                    assert(bucket(g, done, d) <= i * n);
                }
            }
            assert forall|d: usize|
                {
                    &&& #[trigger] frequency@.contains_key(d) <==> d > 0 && bucket(g, samples@.take(i + 1), d) + distance_count(Seq::empty(), d) > 0
                    &&& frequency@.contains_key(d) ==> frequency@[d] == bucket(g, samples@.take(i + 1), d) + distance_count(Seq::empty(), d)
                } by {
                assert(frequency@.contains_key(d) <==> d > 0 && bucket(g, done, d) + distance_count(distances@, d) > 0);
            }
        }
        i = i + 1;
    }
    proof {
        assert(samples@.take(i as int) =~= samples@);
        assert forall|d: usize|
            {
                &&& #[trigger] frequency@.contains_key(d) <==> d > 0 && bucket(g, samples@, d) > 0
                &&& frequency@.contains_key(d) ==> frequency@[d] == bucket(g, samples@, d)
            } by {
            assert(frequency@.contains_key(d) <==> d > 0 && bucket(g, samples@, d) + distance_count(Seq::empty(), d) > 0);
        }
    }
    frequency
}

/// The histogram of hop distances, estimated from searches that start at
/// `sample_size` randomly drawn nodes with outgoing edges. On a graph
/// without edges it is empty.
pub fn avg_distance_histogram(adj_list: &Vec<Vec<usize>>, sample_size: usize) -> (frequency: HashMap<usize, usize>)
    requires
        well_formed(graph_of(adj_list)),
        draw_size(sample_size, adj_list.len() as nat) * adj_list.len() <= usize::MAX
            || forall|picked: Seq<usize>| #[trigger]
            is_sample(graph_of(adj_list), sample_size, picked) ==> counts_fit(graph_of(adj_list), picked),
    ensures
        exists|picked: Seq<usize>| #[trigger] is_sample(graph_of(adj_list), sample_size, picked)
            && is_histogram(frequency@, graph_of(adj_list), picked),
        eligible_set(graph_of(adj_list)).len() == 0 ==> frequency@ == Map::<usize, usize>::empty(),
{
    let samples = sample_nodes(adj_list, sample_size);
    proof {
        let n = adj_list.len() as int;
        assert(samples@.len() * n <= draw_size(sample_size, n as nat) * n) by (nonlinear_arith)
            requires
                samples@.len() <= draw_size(sample_size, n as nat),
                0 <= n,
        ;
        assert(counts_fit(graph_of(adj_list), samples@));
    }
    let frequency = avg_distance_histogram_over(adj_list, &samples);
    proof {
        if eligible_set(graph_of(adj_list)).len() == 0 {
            assert forall|d: usize| !frequency@.contains_key(d) by {
                assert(bucket(graph_of(adj_list), samples@, d) == 0);
            }
            assert(frequency@ =~= Map::<usize, usize>::empty());
        }
    }
    frequency
}

/// The largest count among `entries`, zero where there is none.
pub open spec fn largest_count(entries: Seq<(usize, usize)>) -> nat
    decreases entries.len(),
{
    if entries.len() == 0 {
        0
    } else {
        let rest = largest_count(entries.drop_last());
        if rest >= entries.last().1 { rest } else { entries.last().1 as nat }
    }
}

/// The count that gets a bar of full width: the largest, or one for an
/// empty histogram.
pub open spec fn peak(entries: Seq<(usize, usize)>) -> nat {
    if entries.len() == 0 {
        1
    } else {
        largest_count(entries)
    }
}

/// The length of the bar for `count`, where `peak` gets the full `width`.
pub open spec fn bar_length(count: nat, width: nat, peak: nat) -> nat {
    if peak == 0 {
        0
    } else {
        (count * width) / peak
    }
}

/// The bars of `entries` in their order: each distance with the length of
/// its bar, without those whose bar has no length.
pub open spec fn scaled(entries: Seq<(usize, usize)>, width: nat, peak: nat) -> Seq<(usize, usize)>
    decreases entries.len(),
{
    if entries.len() == 0 {
        Seq::empty()
    } else {
        let rest = scaled(entries.drop_last(), width, peak);
        let length = bar_length(entries.last().1 as nat, width, peak);
        if length > 0 {
            rest.push((entries.last().0, length as usize))
        } else {
            rest
        }
    }
}

/// The distances of `entries` never decrease.
pub open spec fn by_distance(entries: Seq<(usize, usize)>) -> bool {
    forall|p: int| 0 <= p && p + 1 < entries.len() ==> (#[trigger] entries[p]).0 <= entries[p + 1].0
}

/// No count among `entries` is above the largest.
proof fn lemma_largest_count(entries: Seq<(usize, usize)>, k: int)
    requires
        0 <= k < entries.len(),
    ensures
        entries[k].1 <= largest_count(entries),
    decreases entries.len(),
{
    if k < entries.len() - 1 {
        lemma_largest_count(entries.drop_last(), k);
    }
}

/// Orders the entries by distance, smallest first. No entry is added,
/// dropped or changed.
pub fn sort_by_distance(entries: Vec<(usize, usize)>) -> (sorted: Vec<(usize, usize)>)
    ensures
        by_distance(sorted@),
        sorted@.to_multiset() == entries@.to_multiset(),
        sorted@.len() == entries@.len(),
{
    let ghost given = entries@;
    let mut sorted = entries;
    let mut i: usize = 1;
    while i < sorted.len()
        invariant
            1 <= i,
            sorted@.len() == given.len(),
            sorted@.to_multiset() == given.to_multiset(),
            forall|p: int| 0 <= p && p + 1 < i && p + 1 < sorted@.len() ==> (#[trigger] sorted@[p]).0 <= sorted@[p + 1].0,
        decreases sorted@.len() - i,
    {
        let mut j: usize = i;
        let mut settled: bool = false;
        while j > 0 && !settled
            invariant
                j <= i < sorted@.len(),
                sorted@.len() == given.len(),
                sorted@.to_multiset() == given.to_multiset(),
                forall|p: int| 0 <= p && p + 1 <= i && p + 1 != j ==> (#[trigger] sorted@[p]).0 <= sorted@[p + 1].0,
                0 < j < i ==> sorted@[j - 1].0 <= sorted@[j + 1].0,
                settled && j > 0 ==> sorted@[j - 1].0 <= sorted@[j as int].0,
            decreases j + if settled { 0int } else { 1int },
        {
            let lower: (usize, usize) = sorted[j - 1];
            let upper: (usize, usize) = sorted[j];
            if lower.0 <= upper.0 {
                settled = true;
            } else {
                let ghost before = sorted@;
                sorted.set(j - 1, upper);
                sorted.set(j, lower);
                proof {
                    lemma_exchange_keeps_entries(before, j - 1, j as int);
                    assert(sorted@ =~= before.update(j - 1, before[j as int]).update(j as int, before[j - 1]));
                    assert forall|p: int| 0 <= p && p + 1 <= i && p + 1 != j - 1 implies (#[trigger] sorted@[p]).0 <= sorted@[p + 1].0 by {
                        if p + 1 == j {
                        } else if p == j {
                        } else {
                            assert(before[p].0 <= before[p + 1].0);
                        }
                    }
                    if j >= 2 {
                        assert(before[j - 2].0 <= before[j - 1].0);
                    }
                }
                j = j - 1;
            }
        }
        i = i + 1;
    }
    sorted
}

/// The bars of a histogram for a chart that is `max_width` wide: the
/// entries by ascending distance, each with the length of its bar, the
/// largest count getting the full width; an entry whose bar would have no
/// length is left out.
pub fn histogram_bars(entries: Vec<(usize, usize)>, max_width: usize) -> (bars: Vec<(usize, usize)>)
    requires
        peak(entries@) > 0,
    ensures
        exists|sorted: Seq<(usize, usize)>| #[trigger] by_distance(sorted)
            && sorted.to_multiset() == entries@.to_multiset()
            && bars@ == scaled(sorted, max_width as nat, peak(entries@)),
        forall|k: int| 0 <= k < bars@.len() ==> 0 < (#[trigger] bars@[k]).1 <= max_width,
        bars@.len() <= entries@.len(),
{
    let ghost given = entries@;
    let mut max_count: usize = 0;
    let mut k: usize = 0;
    proof {
        assert(given.take(0).len() == 0);
    }
    while k < entries.len()
        invariant
            given == entries@,
            k <= given.len(),
            max_count == largest_count(given.take(k as int)),
        decreases given.len() - k,
    {
        proof {
            assert(given.take(k + 1).drop_last() =~= given.take(k as int));
        }
        let count: usize = entries[k].1;
        if count > max_count {
            max_count = count;
        }
        k = k + 1;
    }
    proof {
        assert(given.take(k as int) =~= given);
    }
    if entries.len() == 0 {
        max_count = 1;
    }
    let sorted = sort_by_distance(entries);
    let mut bars: Vec<(usize, usize)> = Vec::new();
    let mut k: usize = 0;
    proof {
        assert(sorted@.take(0).len() == 0);
    }
    while k < sorted.len()
        invariant
            k <= sorted@.len(),
            max_count == peak(given),
            max_count > 0,
            sorted@.to_multiset() == given.to_multiset(),
            bars@ == scaled(sorted@.take(k as int), max_width as nat, max_count as nat),
            bars@.len() <= k,
            sorted@.len() == given.len(),
            forall|m: int| 0 <= m < bars@.len() ==> 0 < (#[trigger] bars@[m]).1 <= max_width,
        decreases sorted@.len() - k,
    {
        let (distance, count) = sorted[k];
        proof {
            assert(sorted@.take(k + 1).drop_last() =~= sorted@.take(k as int));
            assert(sorted@.take(k + 1).last() == sorted@[k as int]);
            vstd::seq_lib::to_multiset_contains(sorted@, sorted@[k as int]);
            vstd::seq_lib::to_multiset_contains(given, sorted@[k as int]);
            assert(sorted@.contains(sorted@[k as int]));
            let at = choose|at: int| 0 <= at < given.len() && given[at] == sorted@[k as int];
            lemma_largest_count(given, at);
            assert(count <= max_count);
            assert(count * max_width <= max_count * max_width) by (nonlinear_arith)
                requires
                    count <= max_count,
            ;
            assert(max_count * max_width <= u128::MAX) by (nonlinear_arith)
                requires
                    max_count <= 0xffff_ffff_ffff_ffff,
                    max_width <= 0xffff_ffff_ffff_ffff,
            ;
            assert((count * max_width) / (max_count as int) <= max_width) by (nonlinear_arith)
                requires
                    count * max_width <= max_count * max_width,
                    max_count > 0,
            ;
        }
        let product: u128 = (count as u128) * (max_width as u128);
        let bar_len: usize = (product / (max_count as u128)) as usize;
        if bar_len > 0 {
            bars.push((distance, bar_len));
        }
        k = k + 1;
    }
    proof {
        assert(sorted@.take(k as int) =~= sorted@);
    }
    bars
}

} // verus!
