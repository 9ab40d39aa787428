//! Counting and summing the positive entries of a distance vector.

use vstd::prelude::*;

verus! {

/// One where `entry` is a distance other than zero.
pub open spec fn counts(entry: Option<usize>) -> nat {
    match entry {
        Some(d) => if d > 0 { 1 } else { 0 },
        None => 0,
    }
}

/// The distance that `entry` holds, zero where it holds none.
pub open spec fn weight(entry: Option<usize>) -> nat {
    match entry {
        Some(d) => d as nat,
        None => 0,
    }
}

/// The number of entries of `dv` that are a distance other than zero.
pub open spec fn positive_count(dv: Seq<Option<usize>>) -> nat
    decreases dv.len(),
{
    if dv.len() == 0 {
        0
    } else {
        positive_count(dv.drop_last()) + counts(dv.last())
    }
}

/// The sum of the distances in `dv`.
pub open spec fn positive_sum(dv: Seq<Option<usize>>) -> nat
    decreases dv.len(),
{
    if dv.len() == 0 {
        0
    } else {
        positive_sum(dv.drop_last()) + weight(dv.last())
    }
}

/// Every distance in `dv` is below `limit`.
pub open spec fn below(dv: Seq<Option<usize>>, limit: nat) -> bool {
    forall|v: int| 0 <= v < dv.len() && (#[trigger] dv[v]).is_some() ==> dv[v].unwrap() < limit
}

/// The count and the sum over a prefix are at most those over the whole.
pub proof fn lemma_prefix_tally(dv: Seq<Option<usize>>, upto: int)
    requires
        0 <= upto <= dv.len(),
    ensures
        positive_count(dv.take(upto)) <= positive_count(dv),
        positive_sum(dv.take(upto)) <= positive_sum(dv),
    decreases dv.len(),
{
    if upto == dv.len() {
        assert(dv.take(upto) =~= dv);
    } else {
        assert(dv.drop_last().take(upto) =~= dv.take(upto));
        lemma_prefix_tally(dv.drop_last(), upto);
    }
}

/// Each distance that is counted adds at least one to the sum.
pub proof fn lemma_count_at_most_sum(dv: Seq<Option<usize>>)
    ensures
        positive_count(dv) <= positive_sum(dv),
    decreases dv.len(),
{
    if dv.len() > 0 {
        lemma_count_at_most_sum(dv.drop_last());
    }
}

/// With every distance below `limit`, the count is at most the length and
/// the sum at most the length times `limit`.
pub proof fn lemma_tally_bounds(dv: Seq<Option<usize>>, limit: nat)
    requires
        below(dv, limit),
    ensures
        positive_count(dv) <= dv.len(),
        positive_sum(dv) <= dv.len() * limit,
    decreases dv.len(),
{
    if dv.len() > 0 {
        let rest = dv.drop_last();
        assert forall|v: int| 0 <= v < rest.len() && (#[trigger] rest[v]).is_some() implies rest[v].unwrap() < limit by {
            assert(rest[v] == dv[v]);
        }
        lemma_tally_bounds(rest, limit);
        assert(weight(dv.last()) <= limit) by {
            assert(dv.last() == dv[dv.len() - 1]);
        }
        assert(rest.len() * limit + limit == dv.len() * limit) by (nonlinear_arith)
            requires
                rest.len() + 1 == dv.len(),
        ;
    } else {
        assert(dv.len() * limit == 0) by (nonlinear_arith)
            requires
                dv.len() == 0,
        ;
    }
}

/// How many nodes lie at a positive distance, and the sum of those distances.
pub fn tally(distances: &Vec<Option<usize>>) -> (out: (usize, usize))
    requires
        positive_sum(distances@) <= usize::MAX,
    ensures
        out.0 == positive_count(distances@),
        out.1 == positive_sum(distances@),
{
    let mut count: usize = 0;
    let mut total: usize = 0;
    let mut v: usize = 0;
    while v < distances.len()
        invariant
            v <= distances@.len(),
            count == positive_count(distances@.take(v as int)),
            total == positive_sum(distances@.take(v as int)),
            count <= total,
            positive_sum(distances@) <= usize::MAX,
        decreases distances@.len() - v,
    {
        proof {
            assert(distances@.take(v + 1).drop_last() =~= distances@.take(v as int));
            lemma_prefix_tally(distances@, v + 1);
            lemma_count_at_most_sum(distances@.take(v + 1));
        }
        if let Some(dist) = distances[v] {
            if dist > 0 {
                total = total + dist;
                count = count + 1;
            }
        }
        v = v + 1;
    }
    proof {
        assert(distances@.take(v as int) =~= distances@);
    }
    (count, total)
}

} // verus!
