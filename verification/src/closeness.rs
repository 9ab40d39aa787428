//! Closeness scores from one search each, and their ranking.

use vstd::prelude::*;
use crate::bfs::bfs;
use crate::exchange::lemma_exchange_keeps_entries;
use crate::graph::{graph_of, well_formed, distance_vector, reversal, reverse_al};
use crate::sampler::{has_edges, is_sample, sample_nodes};
use crate::tally::{positive_count, positive_sum, lemma_count_at_most_sum, lemma_tally_bounds, tally};

verus! {

/// A score as a quotient of two counts. With a denominator of zero it has
/// no value: it is indeterminate.
#[derive(Clone, Copy, Debug, PartialEq, Eq, Structural)]
pub struct Ratio {
    pub numerator: usize,
    pub denominator: usize,
}

impl Ratio {
    /// The score has no value.
    pub open spec fn indeterminate(self) -> bool {
        self.denominator == 0
    }

    /// `self` may stand before `other` in a ranking: its value is at least
    /// that of `other`, and a score without a value stands behind every
    /// score that has one.
    pub open spec fn ranks_before(self, other: Ratio) -> bool {
        other.denominator == 0 || (self.denominator != 0 && self.numerator * other.denominator
            >= other.numerator * self.denominator)
    }

    /// Whether the score has no value.
    pub fn is_indeterminate(&self) -> (b: bool)
        ensures
            b == self.indeterminate(),
    {
        self.denominator == 0
    }

    /// Whether `self` may stand before `other` in a ranking.
    pub fn at_least(&self, other: &Ratio) -> (b: bool)
        ensures
            b == self.ranks_before(*other),
    {
        if other.denominator == 0 {
            true
        } else if self.denominator == 0 {
            false
        } else {
            let a: u128 = self.numerator as u128;
            let b: u128 = other.denominator as u128;
            let c: u128 = other.numerator as u128;
            let d: u128 = self.denominator as u128;
            assert(a * b <= u128::MAX && c * d <= u128::MAX) by (nonlinear_arith)
                requires
                    a <= 0xffff_ffff_ffff_ffff,
                    b <= 0xffff_ffff_ffff_ffff,
                    c <= 0xffff_ffff_ffff_ffff,
                    d <= 0xffff_ffff_ffff_ffff,
            ;
            a * b >= c * d
        }
    }
}

/// Of two scores, one may stand before the other.
pub proof fn lemma_ranking_total(a: Ratio, b: Ratio)
    ensures
        a.ranks_before(b) || b.ranks_before(a),
{
}

/// A score that may stand before a second, which may stand before a
/// third, may stand before the third.
pub proof fn lemma_ranking_transitive(a: Ratio, b: Ratio, c: Ratio)
    requires
        a.ranks_before(b),
        b.ranks_before(c),
    ensures
        a.ranks_before(c),
{
    if c.denominator != 0 {
        let (an, ad) = (a.numerator as int, a.denominator as int);
        let (bn, bd) = (b.numerator as int, b.denominator as int);
        let (cn, cd) = (c.numerator as int, c.denominator as int);
        assert(an * cd >= cn * ad) by (nonlinear_arith)
            requires
                an * bd >= bn * ad,
                bn * cd >= cn * bd,
                ad > 0,
                bd > 0,
                cd > 0,
                an >= 0,
                bn >= 0,
                cn >= 0,
        {
            assert((an * bd) * cd >= (bn * ad) * cd);
            assert((bn * cd) * ad >= (cn * bd) * ad);
            assert((an * cd) * bd >= (cn * ad) * bd);
        }
    }
}

/// In a ranked list every entry may stand before every later one.
pub proof fn lemma_ranked_throughout(list: Seq<(usize, Ratio)>, i: int, j: int)
    requires
        is_ranked(list),
        0 <= i <= j < list.len(),
    ensures
        list[i].1.ranks_before(list[j].1),
    decreases j - i,
{
    if i == j {
        lemma_ranking_total(list[i].1, list[i].1);
    } else {
        lemma_ranked_throughout(list, i, j - 1);
        assert(list[j - 1].1.ranks_before(list[j - 1 + 1].1));
        lemma_ranking_transitive(list[i].1, list[j - 1].1, list[j].1);
    }
}

/// The closeness of `s` along the edges of `g`: the number of nodes at a
/// positive distance from `s` over the sum of those distances.
pub open spec fn out_score(g: Seq<Seq<usize>>, s: int) -> Ratio {
    Ratio {
        numerator: positive_count(distance_vector(g, s)) as usize,
        denominator: positive_sum(distance_vector(g, s)) as usize,
    }
}

/// As `out_score`, but zero where no node lies at a positive distance.
pub open spec fn guarded_score(g: Seq<Seq<usize>>, s: int) -> Ratio {
    if positive_sum(distance_vector(g, s)) == 0 {
        Ratio { numerator: 0, denominator: 1 }
    } else {
        out_score(g, s)
    }
}

/// The sum of the distances from `s` fits a machine integer. With `n`
/// nodes every distance is below `n`, so it fits whenever `n * n` does.
pub open spec fn sum_fits(g: Seq<Seq<usize>>, s: int) -> bool {
    g.len() * g.len() <= usize::MAX || positive_sum(distance_vector(g, s)) <= usize::MAX
}

/// The closeness of `start` towards the nodes it reaches. Where it reaches
/// none the score is indeterminate.
pub fn out_closeness(adj_list: &Vec<Vec<usize>>, start: usize) -> (score: Ratio)
    requires
        well_formed(graph_of(adj_list)),
        start < adj_list.len(),
        sum_fits(graph_of(adj_list), start as int),
    ensures
        score == out_score(graph_of(adj_list), start as int),
        score.numerator == positive_count(distance_vector(graph_of(adj_list), start as int)),
        score.denominator == positive_sum(distance_vector(graph_of(adj_list), start as int)),
        score.numerator <= score.denominator,
{
    let distances = bfs(adj_list, start);
    proof {
        lemma_tally_bounds(distances@, adj_list.len() as nat);
        lemma_count_at_most_sum(distances@);
    }
    let (count, total) = tally(&distances);
    Ratio { numerator: count, denominator: total }
}

/// The closeness of `start` from the nodes that reach it, measured on a
/// graph whose edges are already turned round. Where none reaches it the
/// score is zero.
pub fn closeness_on_reversed(reversed: &Vec<Vec<usize>>, start: usize) -> (score: Ratio)
    requires
        well_formed(graph_of(reversed)),
        start < reversed.len(),
        sum_fits(graph_of(reversed), start as int),
    ensures
        score == guarded_score(graph_of(reversed), start as int),
        !score.indeterminate(),
{
    let raw = out_closeness(reversed, start);
    if raw.denominator == 0 {
        Ratio { numerator: 0, denominator: 1 }
    } else {
        raw
    }
}

/// The closeness of `start` from the nodes that reach it. Where none
/// reaches it the score is zero.
pub fn in_closeness(adj_list: &Vec<Vec<usize>>, start: usize) -> (score: Ratio)
    requires
        well_formed(graph_of(adj_list)),
        start < adj_list.len(),
        sum_fits(reversal(graph_of(adj_list)), start as int),
    ensures
        score == guarded_score(reversal(graph_of(adj_list)), start as int),
        !score.indeterminate(),
{
    let rev_adj_list = reverse_al(adj_list);
    closeness_on_reversed(&rev_adj_list, start)
}

/// Each entry may stand before the one that follows it.
pub open spec fn is_ranked(list: Seq<(usize, Ratio)>) -> bool {
    forall|p: int| 0 <= p && p + 1 < list.len() ==> (#[trigger] list[p]).1.ranks_before(list[p + 1].1)
}

/// The sampled nodes, each with its closeness along the edges of `g`.
pub open spec fn scored_out(g: Seq<Seq<usize>>, picked: Seq<usize>) -> Seq<(usize, Ratio)> {
    Seq::new(picked.len(), |i: int| (picked[i], out_score(g, picked[i] as int)))
}

/// The sampled nodes, each with its guarded closeness along the edges of `r`.
pub open spec fn scored_guarded(r: Seq<Seq<usize>>, picked: Seq<usize>) -> Seq<(usize, Ratio)> {
    Seq::new(picked.len(), |i: int| (picked[i], guarded_score(r, picked[i] as int)))
}

/// Orders the entries by score, highest first and indeterminate scores
/// last. No entry is added, dropped or changed.
pub fn rank(list: Vec<(usize, Ratio)>) -> (ranked: Vec<(usize, Ratio)>)
    ensures
        is_ranked(ranked@),
        ranked@.to_multiset() == list@.to_multiset(),
        ranked@.len() == list@.len(),
{
    let ghost given = list@;
    let mut ranked = list;
    let mut i: usize = 1;
    while i < ranked.len()
        invariant
            1 <= i,
            ranked@.len() == given.len(),
            ranked@.to_multiset() == given.to_multiset(),
            forall|p: int| 0 <= p && p + 1 < i && p + 1 < ranked@.len() ==> (#[trigger] ranked@[p]).1.ranks_before(ranked@[p + 1].1),
        decreases ranked@.len() - i,
    {
        let mut j: usize = i;
        let mut settled: bool = false;
        while j > 0 && !settled
            invariant
                j <= i < ranked@.len(),
                ranked@.len() == given.len(),
                ranked@.to_multiset() == given.to_multiset(),
                forall|p: int| 0 <= p && p + 1 <= i && p + 1 != j ==> (#[trigger] ranked@[p]).1.ranks_before(ranked@[p + 1].1),
                0 < j < i ==> ranked@[j - 1].1.ranks_before(ranked@[j + 1].1),
                settled && j > 0 ==> ranked@[j - 1].1.ranks_before(ranked@[j as int].1),
            decreases j + if settled { 0int } else { 1int },
        {
            let upper: (usize, Ratio) = ranked[j - 1];
            let lower: (usize, Ratio) = ranked[j];
            if upper.1.at_least(&lower.1) {
                settled = true;
            } else {
                let ghost before = ranked@;
                ranked.set(j - 1, lower);
                ranked.set(j, upper);
                proof {
                    lemma_ranking_total(upper.1, lower.1);
                    lemma_exchange_keeps_entries(before, j - 1, j as int);
                    assert(ranked@ =~= before.update(j - 1, before[j as int]).update(j as int, before[j - 1]));
                    assert forall|p: int| 0 <= p && p + 1 <= i && p + 1 != j - 1 implies (#[trigger] ranked@[p]).1.ranks_before(ranked@[p + 1].1) by {
                        if p + 1 == j {
                        } else if p == j {
                        } else {
                            assert(before[p].1.ranks_before(before[p + 1].1));
                        }
                    }
                    if j >= 2 {
                        assert(before[j - 2].1.ranks_before(before[j - 1].1));
                    }
                }
                j = j - 1;
            }
        }
        i = i + 1;
    }
    ranked
}

/// The closeness of each of `samples` along the edges, ranked.
pub fn rank_out_closeness(adj_list: &Vec<Vec<usize>>, samples: &Vec<usize>) -> (ranked: Vec<(usize, Ratio)>)
    requires
        well_formed(graph_of(adj_list)),
        forall|i: int| 0 <= i < samples@.len() ==> (#[trigger] samples@[i]) < adj_list.len(),
        forall|i: int| 0 <= i < samples@.len() ==> sum_fits(graph_of(adj_list), (#[trigger] samples@[i]) as int),
    ensures
        is_ranked(ranked@),
        ranked@.to_multiset() == scored_out(graph_of(adj_list), samples@).to_multiset(),
{
    let ghost g = graph_of(adj_list);
    let mut scored: Vec<(usize, Ratio)> = Vec::new();
    let mut i: usize = 0;
    while i < samples.len()
        invariant
            g == graph_of(adj_list),
            well_formed(g),
            forall|k: int| 0 <= k < samples@.len() ==> (#[trigger] samples@[k]) < adj_list.len(),
            forall|k: int| 0 <= k < samples@.len() ==> sum_fits(g, (#[trigger] samples@[k]) as int),
            i <= samples@.len(),
            scored@ == scored_out(g, samples@.take(i as int)),
        decreases samples@.len() - i,
    {
        let node: usize = samples[i];
        let score = out_closeness(adj_list, node);
        scored.push((node, score));
        proof {
            assert(scored@ =~= scored_out(g, samples@.take(i + 1)));
        }
        i = i + 1;
    }
    proof {
        assert(samples@.take(i as int) =~= samples@);
    }
    rank(scored)
}

/// The guarded closeness of each of `samples` along the edges of a graph
/// that is already turned round, ranked.
pub fn rank_closeness_on_reversed(reversed: &Vec<Vec<usize>>, samples: &Vec<usize>) -> (ranked: Vec<(usize, Ratio)>)
    requires
        well_formed(graph_of(reversed)),
        forall|i: int| 0 <= i < samples@.len() ==> (#[trigger] samples@[i]) < reversed.len(),
        forall|i: int| 0 <= i < samples@.len() ==> sum_fits(graph_of(reversed), (#[trigger] samples@[i]) as int),
    ensures
        is_ranked(ranked@),
        ranked@.to_multiset() == scored_guarded(graph_of(reversed), samples@).to_multiset(),
{
    let ghost r = graph_of(reversed);
    let mut scored: Vec<(usize, Ratio)> = Vec::new();
    let mut i: usize = 0;
    while i < samples.len()
        invariant
            r == graph_of(reversed),
            well_formed(r),
            forall|k: int| 0 <= k < samples@.len() ==> (#[trigger] samples@[k]) < reversed.len(),
            forall|k: int| 0 <= k < samples@.len() ==> sum_fits(r, (#[trigger] samples@[k]) as int),
            i <= samples@.len(),
            scored@ == scored_guarded(r, samples@.take(i as int)),
        decreases samples@.len() - i,
    {
        let node: usize = samples[i];
        let score = closeness_on_reversed(reversed, node);
        scored.push((node, score));
        proof {
            assert(scored@ =~= scored_guarded(r, samples@.take(i + 1)));
        }
        i = i + 1;
    }
    proof {
        assert(samples@.take(i as int) =~= samples@);
    }
    rank(scored)
}

/// Draws `sample_size` nodes with outgoing edges and ranks them by their
/// closeness along the edges.
pub fn get_all_out_closeness(adj_list: &Vec<Vec<usize>>, sample_size: usize) -> (ranked: Vec<(usize, Ratio)>)
    requires
        well_formed(graph_of(adj_list)),
        forall|s: int| has_edges(graph_of(adj_list), s) ==> #[trigger] sum_fits(graph_of(adj_list), s),
    ensures
        is_ranked(ranked@),
        exists|picked: Seq<usize>| #[trigger] is_sample(graph_of(adj_list), sample_size, picked)
            && ranked@.to_multiset() == scored_out(graph_of(adj_list), picked).to_multiset(),
{
    let samples = sample_nodes(adj_list, sample_size);
    rank_out_closeness(adj_list, &samples)
}

/// Draws `sample_size` nodes with incoming edges and ranks them by their
/// closeness against the edges.
pub fn get_all_in_closeness(adj_list: &Vec<Vec<usize>>, sample_size: usize) -> (ranked: Vec<(usize, Ratio)>)
    requires
        well_formed(graph_of(adj_list)),
        forall|s: int|
            has_edges(reversal(graph_of(adj_list)), s) ==> #[trigger] sum_fits(reversal(graph_of(adj_list)), s),
    ensures
        is_ranked(ranked@),
        exists|picked: Seq<usize>| #[trigger] is_sample(reversal(graph_of(adj_list)), sample_size, picked)
            && ranked@.to_multiset() == scored_guarded(reversal(graph_of(adj_list)), picked).to_multiset(),
{
    let rev_adj_list = reverse_al(adj_list);
    let samples = sample_nodes(&rev_adj_list, sample_size);
    rank_closeness_on_reversed(&rev_adj_list, &samples)
}

} // verus!
