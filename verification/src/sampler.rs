//! Drawing start nodes: the nodes that have edges, and a random choice among them.

use vstd::prelude::*;
use rand::rngs::ThreadRng;
use rand::seq::IteratorRandom;
use crate::graph::graph_of;

verus! {

/// The thread-local generator of `rand`; nothing of its state is visible here.
#[verifier::external_type_specification]
#[verifier::external_body]
pub struct ExThreadRng(ThreadRng);

/// `rand::rng` hands out the calling thread's generator. Nothing is claimed
/// of it. It panics only where the operating system gives no entropy.
pub assume_specification[ rand::rng ]() -> (generator: ThreadRng);

/// `IteratorRandom::choose_multiple` on the entries of `items`: a reservoir
/// of `amount` slots is filled from the front of `items`, and each later
/// entry may replace the content of one slot. So whatever the generator
/// yields, the result has `amount` entries, each taken from a different
/// position of `items`. Which positions, and in what order, is left open.
#[verifier::external_body]
fn choose_multiple(items: &Vec<usize>, generator: &mut ThreadRng, amount: usize) -> (picked: Vec<usize>)
    requires
        amount <= items@.len(),
    ensures
        picked@.len() == amount,
        picked@.to_multiset().subset_of(items@.to_multiset()),
{
    items.iter().copied().choose_multiple(generator, amount)
}

/// Node `v` has at least one outgoing edge.
pub open spec fn has_edges(g: Seq<Seq<usize>>, v: int) -> bool {
    0 <= v < g.len() && g[v].len() > 0
}

/// The nodes from which a search can be started: those with outgoing edges.
pub open spec fn eligible_set(g: Seq<Seq<usize>>) -> Set<usize> {
    Set::new(|v: usize| has_edges(g, v as int))
}

/// `list` names the nodes with outgoing edges, each once, in ascending order.
pub open spec fn is_eligible_list(g: Seq<Seq<usize>>, list: Seq<usize>) -> bool {
    &&& forall|i: int, j: int| 0 <= i < j < list.len() ==> list[i] < list[j]
    &&& forall|i: int| 0 <= i < list.len() ==> has_edges(g, (#[trigger] list[i]) as int)
    &&& forall|v: int| has_edges(g, v) ==> exists|i: int| 0 <= i < list.len() && #[trigger] list[i] == v
}

/// The smaller of the requested number and the number that can be had.
pub open spec fn draw_size(requested: usize, available: nat) -> nat {
    if requested <= available {
        requested as nat
    } else {
        available
    }
}

/// `picked` is a draw of `requested` start nodes from `g`: distinct nodes
/// with outgoing edges, as many as were requested, or all of them where
/// there are fewer.
pub open spec fn is_sample(g: Seq<Seq<usize>>, requested: usize, picked: Seq<usize>) -> bool {
    &&& picked.no_duplicates()
    &&& forall|i: int| 0 <= i < picked.len() ==> has_edges(g, (#[trigger] picked[i]) as int)
    &&& picked.len() == draw_size(requested, eligible_set(g).len())
    &&& requested >= eligible_set(g).len() ==> picked.to_set() == eligible_set(g)
}

/// A list of the nodes with outgoing edges has no repeats, holds exactly
/// the eligible set, and is as long as that set is large.
pub proof fn lemma_eligible_list(g: Seq<Seq<usize>>, list: Seq<usize>)
    requires
        is_eligible_list(g, list),
    ensures
        list.no_duplicates(),
        list.to_set() == eligible_set(g),
        eligible_set(g).finite(),
        eligible_set(g).len() == list.len(),
{
    assert forall|v: usize| list.to_set().contains(v) <==> eligible_set(g).contains(v) by {
        if has_edges(g, v as int) {
            let i = choose|i: int| 0 <= i < list.len() && #[trigger] list[i] == v as int;
            assert(list[i] == v);
        }
    }
    assert(list.to_set() =~= eligible_set(g));
    vstd::seq_lib::seq_to_set_is_finite(list);
    list.unique_seq_to_set();
}

/// The nodes with outgoing edges, in ascending order.
pub fn nodes_with_edges(adj_list: &Vec<Vec<usize>>) -> (nodes: Vec<usize>)
    ensures
        is_eligible_list(graph_of(adj_list), nodes@),
        nodes@.len() <= adj_list.len(),
{
    let ghost g = graph_of(adj_list);
    let mut nodes: Vec<usize> = Vec::new();
    let mut v: usize = 0;
    while v < adj_list.len()
        invariant
            g == graph_of(adj_list),
            v <= adj_list.len(),
            nodes@.len() <= v,
            forall|i: int, j: int| 0 <= i < j < nodes@.len() ==> nodes@[i] < nodes@[j],
            forall|i: int| 0 <= i < nodes@.len() ==> has_edges(g, (#[trigger] nodes@[i]) as int) && nodes@[i] < v,
            forall|w: int| has_edges(g, w) && w < v ==> exists|i: int| 0 <= i < nodes@.len() && #[trigger] nodes@[i] == w,
        decreases adj_list.len() - v,
    {
        if adj_list[v].len() > 0 {
            let ghost before = nodes@;
            nodes.push(v);
            proof {
                assert forall|w: int| has_edges(g, w) && w < v + 1 implies exists|i: int| 0 <= i < nodes@.len() && #[trigger] nodes@[i] == w by {
                    if w < v {
                        let i = choose|i: int| 0 <= i < before.len() && #[trigger] before[i] == w;
                        assert(nodes@[i] == w);
                    } else {
                        assert(nodes@[before.len() as int] == w);
                    }
                }
            }
        }
        v = v + 1;
    }
    nodes
}

/// Any choice of `amount` entries from different positions of a list of the
/// nodes with outgoing edges is a draw of start nodes, for every request of
/// which `amount` is the draw size.
pub proof fn lemma_choice_is_sample(g: Seq<Seq<usize>>, list: Seq<usize>, requested: usize, picked: Seq<usize>)
    requires
        is_eligible_list(g, list),
        picked.len() == draw_size(requested, list.len()),
        picked.to_multiset().subset_of(list.to_multiset()),
    ensures
        is_sample(g, requested, picked),
{
    broadcast use vstd::seq_lib::group_seq_properties;
    lemma_eligible_list(g, list);
    list.lemma_multiset_has_no_duplicates();
    assert forall|x: usize| picked.to_multiset().contains(x) implies picked.to_multiset().count(x) == 1 by {
        assert(picked.to_multiset().count(x) <= list.to_multiset().count(x));
        assert(list.to_multiset().contains(x));
    }
    picked.lemma_multiset_has_no_duplicates_conv();
    assert forall|i: int| 0 <= i < picked.len() implies list.contains(#[trigger] picked[i]) by {
        let x = picked[i];
        assert(picked.contains(x));
        assert(picked.to_multiset().count(x) > 0);
        assert(picked.to_multiset().count(x) <= list.to_multiset().count(x));
    }
    assert forall|i: int| 0 <= i < picked.len() implies has_edges(g, (#[trigger] picked[i]) as int) by {
        assert(list.contains(picked[i]));
        assert(list.to_set().contains(picked[i]));
    }
    if requested >= eligible_set(g).len() {
        assert(picked.to_set().subset_of(list.to_set())) by {
            assert forall|x: usize| picked.to_set().contains(x) implies list.to_set().contains(x) by {
                let i = choose|i: int| 0 <= i < picked.len() && picked[i] == x;
                assert(list.contains(picked[i]));
            }
        }
        picked.unique_seq_to_set();
        vstd::seq_lib::seq_to_set_is_finite(picked);
        vstd::set_lib::lemma_subset_equality(picked.to_set(), list.to_set());
    }
}

/// Draws `sample_size` distinct nodes with outgoing edges, or all of them
/// where there are fewer, each subset of that size being as likely as any other.
pub fn sample_nodes(adj_list: &Vec<Vec<usize>>, sample_size: usize) -> (picked: Vec<usize>)
    ensures
        is_sample(graph_of(adj_list), sample_size, picked@),
        picked@.len() <= draw_size(sample_size, adj_list.len() as nat),
{
    let mut generator = rand::rng();
    let nodes = nodes_with_edges(adj_list);
    let amount: usize = if sample_size <= nodes.len() { sample_size } else { nodes.len() };
    let picked = choose_multiple(&nodes, &mut generator, amount);
    proof {
        lemma_eligible_list(graph_of(adj_list), nodes@);
        lemma_choice_is_sample(graph_of(adj_list), nodes@, sample_size, picked@);
    }
    picked
}

} // verus!
