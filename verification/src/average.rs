//! The mean hop distance over searches from sampled start nodes.

use vstd::prelude::*;
use crate::bfs::bfs;
use crate::closeness::Ratio;
use crate::graph::{graph_of, well_formed, distance_vector};
use crate::sampler::{draw_size, eligible_set, is_sample, sample_nodes};
use crate::tally::{positive_count, positive_sum, lemma_count_at_most_sum, lemma_tally_bounds, tally};

verus! {

/// The sum of all positive distances found by the searches from `picked`.
pub open spec fn total_sum(g: Seq<Seq<usize>>, picked: Seq<usize>) -> nat
    decreases picked.len(),
{
    if picked.len() == 0 {
        0
    } else {
        total_sum(g, picked.drop_last()) + positive_sum(distance_vector(g, picked.last() as int))
    }
}

/// The number of positive distances found by the searches from `picked`.
pub open spec fn total_count(g: Seq<Seq<usize>>, picked: Seq<usize>) -> nat
    decreases picked.len(),
{
    if picked.len() == 0 {
        0
    } else {
        total_count(g, picked.drop_last()) + positive_count(distance_vector(g, picked.last() as int))
    }
}

/// The sum of the distances found by the searches from `picked` fits a
/// machine integer. With `n` nodes every distance is below `n`, so it fits
/// whenever the number of searches times `n * n` does.
pub open spec fn totals_fit(g: Seq<Seq<usize>>, picked: Seq<usize>) -> bool {
    picked.len() * g.len() * g.len() <= usize::MAX || total_sum(g, picked) <= usize::MAX
}

/// The sum over the first searches is at most the sum over all.
pub proof fn lemma_prefix_total(g: Seq<Seq<usize>>, picked: Seq<usize>, upto: int)
    requires
        0 <= upto <= picked.len(),
    ensures
        total_sum(g, picked.take(upto)) <= total_sum(g, picked),
    decreases picked.len(),
{
    if upto == picked.len() {
        assert(picked.take(upto) =~= picked);
    } else {
        assert(picked.drop_last().take(upto) =~= picked.take(upto));
        lemma_prefix_total(g, picked.drop_last(), upto);
    }
}

/// The mean of the positive distances found by searches from `samples`,
/// as their sum over their number. Where there is none it is indeterminate.
pub fn avg_distance_over(adj_list: &Vec<Vec<usize>>, samples: &Vec<usize>) -> (mean: Ratio)
    requires
        well_formed(graph_of(adj_list)),
        forall|i: int| 0 <= i < samples@.len() ==> (#[trigger] samples@[i]) < adj_list.len(),
        totals_fit(graph_of(adj_list), samples@),
    ensures
        mean.numerator == total_sum(graph_of(adj_list), samples@),
        mean.denominator == total_count(graph_of(adj_list), samples@),
{
    let ghost g = graph_of(adj_list);
    let ghost n = adj_list.len() as int;
    let mut total_distance: usize = 0;
    let mut count: usize = 0;
    let mut i: usize = 0;
    proof {
        assert(0 * n * n == 0) by (nonlinear_arith);
    }
    while i < samples.len()
        invariant
            g == graph_of(adj_list),
            n == adj_list.len(),
            well_formed(g),
            forall|k: int| 0 <= k < samples@.len() ==> (#[trigger] samples@[k]) < adj_list.len(),
            totals_fit(g, samples@),
            i <= samples@.len(),
            total_distance == total_sum(g, samples@.take(i as int)),
            count == total_count(g, samples@.take(i as int)),
            count <= total_distance,
            samples@.len() * n * n <= usize::MAX ==> total_distance <= i * n * n,
        decreases samples@.len() - i,
    {
        let distances = bfs(adj_list, samples[i]);
        proof {
            lemma_tally_bounds(distances@, n as nat);
            lemma_count_at_most_sum(distances@);
            lemma_prefix_total(g, samples@, i + 1);
            assert(samples@.take(i + 1).drop_last() =~= samples@.take(i as int));
            assert(i * n * n + n * n == (i + 1) * n * n) by (nonlinear_arith);
            assert((i + 1) * n * n <= samples@.len() * n * n) by (nonlinear_arith)
                requires
                    i + 1 <= samples@.len(),
                    0 <= n,
            ;
            assert(0 <= i * n * n) by (nonlinear_arith)
                requires
                    0 <= n,
            ;
        }
        let (reached, sum) = tally(&distances);
        total_distance = total_distance + sum;
        count = count + reached;
        i = i + 1;
    }
    proof {
        assert(samples@.take(i as int) =~= samples@);
    }
    Ratio { numerator: total_distance, denominator: count }
}

/// The mean hop distance, estimated from searches that start at
/// `sample_size` randomly drawn nodes with outgoing edges. On a graph
/// without edges it is indeterminate.
pub fn avg_distance(adj_list: &Vec<Vec<usize>>, sample_size: usize) -> (mean: Ratio)
    requires
        well_formed(graph_of(adj_list)),
        draw_size(sample_size, adj_list.len() as nat) * adj_list.len() * adj_list.len() <= usize::MAX
            || forall|picked: Seq<usize>| #[trigger]
            is_sample(graph_of(adj_list), sample_size, picked) ==> total_sum(graph_of(adj_list), picked)
                <= usize::MAX,
    ensures
        exists|picked: Seq<usize>| #[trigger] is_sample(graph_of(adj_list), sample_size, picked)
            && mean.numerator == total_sum(graph_of(adj_list), picked)
            && mean.denominator == total_count(graph_of(adj_list), picked),
        eligible_set(graph_of(adj_list)).len() == 0 ==> mean.indeterminate() && mean.numerator == 0,
{
    let samples = sample_nodes(adj_list, sample_size);
    proof {
        let n = adj_list.len() as int;
        assert(samples@.len() * n * n <= draw_size(sample_size, n as nat) * n * n) by (nonlinear_arith)
            requires
                samples@.len() <= draw_size(sample_size, n as nat),
                0 <= n,
        ;
        assert(totals_fit(graph_of(adj_list), samples@));
    }
    avg_distance_over(adj_list, &samples)
}

} // verus!
