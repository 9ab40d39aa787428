//! Breadth-first search from one start node.

use vstd::prelude::*;
use crate::graph::{graph_of, well_formed, has_edge, walk, reachable, is_distance, is_distance_vector, distance_vector, lemma_walk_step, lemma_distance_vector_unique, lemma_predecessor_distance};

verus! {

/// Node `u` has a distance, and each of its first `upto` edges ends at a
/// node whose distance is at most one more.
spec fn closed_upto(g: Seq<Seq<usize>>, dist: Seq<Option<usize>>, u: int, upto: int) -> bool {
    &&& dist[u].is_some()
    &&& forall|j: int|
        0 <= j < upto ==> {
            let w = #[trigger] g[u][j] as int;
            dist[w].is_some() && dist[w].unwrap() <= dist[u].unwrap() + 1
        }
}

/// Where every node with a distance is closed under its edges, a walk of
/// `k` edges from the start ends at a node with a distance of at most `k`.
proof fn lemma_closed_bounds_walk(g: Seq<Seq<usize>>, s: int, dist: Seq<Option<usize>>, v: int, k: nat)
    requires
        well_formed(g),
        0 <= s < g.len(),
        dist.len() == g.len(),
        dist[s] == Some(0usize),
        forall|u: int| 0 <= u < g.len() && (#[trigger] dist[u]).is_some() ==> closed_upto(g, dist, u, g[u].len() as int),
        walk(g, s, v, k),
    ensures
        0 <= v < g.len(),
        dist[v].is_some(),
        dist[v].unwrap() <= k,
    decreases k,
{
    if k > 0 {
        let u = choose|u: int| walk(g, s, u, (k - 1) as nat) && #[trigger] has_edge(g, u, v);
        lemma_closed_bounds_walk(g, s, dist, u, (k - 1) as nat);
        let j = choose|j: int| 0 <= j < g[u].len() && #[trigger] g[u][j] == v;
        assert(closed_upto(g, dist, u, g[u].len() as int));
        assert(g[u][j] as int == v);
    }
}

/// Hop distances from `start` to every node, following the edges as given:
/// `Some(d)` where the shortest walk has `d` edges, `None` where there is none.
pub fn bfs(adj_list: &Vec<Vec<usize>>, start: usize) -> (distance: Vec<Option<usize>>)
    requires
        well_formed(graph_of(adj_list)),
        start < adj_list.len(),
    ensures
        is_distance_vector(graph_of(adj_list), start as int, distance@),
        distance@ == distance_vector(graph_of(adj_list), start as int),
        distance@[start as int] == Some(0usize),
        forall|v: int| 0 <= v < distance@.len() && (#[trigger] distance@[v]).is_some() ==> distance@[v].unwrap() < adj_list.len(),
        forall|v: int|
            0 <= v < distance@.len() && (#[trigger] distance@[v]).is_some() && distance@[v].unwrap() > 0
                ==> exists|u: int|
                #[trigger] has_edge(graph_of(adj_list), u, v) && distance@[u] == Some((distance@[v].unwrap() - 1) as usize),
{
    let n: usize = adj_list.len();
    let ghost g = graph_of(adj_list);
    let ghost s = start as int;
    let mut distance: Vec<Option<usize>> = Vec::new();
    let mut i: usize = 0;
    while i < n
        invariant
            i <= n,
            distance@.len() == i,
            forall|v: int| 0 <= v < i ==> (#[trigger] distance@[v]).is_none(),
        decreases n - i,
    {
        distance.push(None);
        i = i + 1;
    }
    let mut queue: Vec<usize> = Vec::new();
    distance.set(start, Some(0));
    queue.push(start);
    let ghost mut slot: Seq<int> = Seq::new(n as nat, |v: int| 0int);
    let ghost mut unseen: Set<int> = Set::new(|v: int| 0 <= v < n && v != s);
    proof {
        vstd::set_lib::lemma_int_range(0, n as int);
        assert(unseen =~= vstd::set_lib::set_int_range(0, n as int).remove(s));
        assert(walk(g, s, s, 0));
    }
    let mut head: usize = 0;
    while head < queue.len()
        invariant
            n == adj_list.len(),
            g == graph_of(adj_list),
            s == start as int,
            well_formed(g),
            0 <= s < n,
            distance@.len() == n,
            slot.len() == n,
            head <= queue@.len(),
            queue@.len() >= 1,
            unseen.finite(),
            unseen.len() + queue@.len() == n,
            forall|v: int| 0 <= v < n ==> (unseen.contains(v) <==> (#[trigger] distance@[v]).is_none()),
            distance@[s] == Some(0usize),
            forall|i: int| 0 <= i < queue@.len() ==> (#[trigger] queue@[i]) < n && distance@[queue@[i] as int].is_some(),
            forall|i: int| 0 <= i < queue@.len() ==> distance@[(#[trigger] queue@[i]) as int].unwrap() <= i,
            forall|i: int, j: int| 0 <= i <= j < queue@.len() ==> distance@[(#[trigger] queue@[i]) as int].unwrap() <= distance@[(#[trigger] queue@[j]) as int].unwrap(),
            head < queue@.len() ==> forall|i: int| 0 <= i < queue@.len() ==> distance@[(#[trigger] queue@[i]) as int].unwrap() <= distance@[queue@[head as int] as int].unwrap() + 1,
            forall|v: int| 0 <= v < n && (#[trigger] distance@[v]).is_some() ==> 0 <= slot[v] < queue@.len() && queue@[slot[v]] == v,
            forall|v: int| 0 <= v < n ==> match #[trigger] distance@[v] {
                Some(d) => walk(g, s, v, d as nat),
                None => true,
            },
            forall|i: int| 0 <= i < head ==> closed_upto(g, distance@, (#[trigger] queue@[i]) as int, g[queue@[i] as int].len() as int),
        decreases n - head,
    {
        let u: usize = queue[head];
        let du: usize = distance[u].unwrap();
        let neighbors = &adj_list[u];
        assert(neighbors@ == g[u as int]);
        let mut j: usize = 0;
        while j < neighbors.len()
            invariant
                n == adj_list.len(),
                g == graph_of(adj_list),
                s == start as int,
                well_formed(g),
                0 <= s < n,
                u < n,
                neighbors@ == g[u as int],
                j <= neighbors@.len(),
                distance@.len() == n,
                slot.len() == n,
                head < queue@.len(),
                queue@[head as int] == u,
                distance@[u as int] == Some(du),
                unseen.finite(),
                unseen.len() + queue@.len() == n,
                forall|v: int| 0 <= v < n ==> (unseen.contains(v) <==> (#[trigger] distance@[v]).is_none()),
                distance@[s] == Some(0usize),
                forall|i: int| 0 <= i < queue@.len() ==> (#[trigger] queue@[i]) < n && distance@[queue@[i] as int].is_some(),
                forall|i: int| 0 <= i < queue@.len() ==> distance@[(#[trigger] queue@[i]) as int].unwrap() <= i,
                forall|i: int, j: int| 0 <= i <= j < queue@.len() ==> distance@[(#[trigger] queue@[i]) as int].unwrap() <= distance@[(#[trigger] queue@[j]) as int].unwrap(),
                forall|i: int| 0 <= i < queue@.len() ==> distance@[(#[trigger] queue@[i]) as int].unwrap() <= du + 1,
                forall|v: int| 0 <= v < n && (#[trigger] distance@[v]).is_some() ==> 0 <= slot[v] < queue@.len() && queue@[slot[v]] == v,
                forall|v: int| 0 <= v < n ==> match #[trigger] distance@[v] {
                    Some(d) => walk(g, s, v, d as nat),
                    None => true,
                },
                forall|i: int| 0 <= i < head ==> closed_upto(g, distance@, (#[trigger] queue@[i]) as int, g[queue@[i] as int].len() as int),
                closed_upto(g, distance@, u as int, j as int),
            decreases neighbors@.len() - j,
        {
            let v: usize = neighbors[j];
            assert(v == g[u as int][j as int]);
            assert(v < n);
            if distance[v].is_none() {
                let ghost before = distance@;
                let ghost queue_before = queue@;
                proof {
                    assert(unseen.contains(v as int));
                    assert(has_edge(g, u as int, v as int));
                    lemma_walk_step(g, s, u as int, v as int, du as nat);
                    slot = slot.update(v as int, queue@.len() as int);
                    unseen = unseen.remove(v as int);
                }
                distance.set(v, Some(du + 1));
                queue.push(v);
                proof {
                    assert forall|i: int| 0 <= i < head implies closed_upto(g, distance@, (#[trigger] queue@[i]) as int, g[queue@[i] as int].len() as int) by {
                        assert(queue@[i] == queue_before[i]);
                        assert(closed_upto(g, before, queue_before[i] as int, g[queue_before[i] as int].len() as int));
                    }
                    assert(closed_upto(g, before, u as int, j as int));
                }
            } else {
                proof {
                    let p = slot[v as int];
                    assert(queue@[p] == v);
                }
            }
            j = j + 1;
        }
        head = head + 1;
    }
    proof {
        assert forall|w: int| 0 <= w < g.len() && (#[trigger] distance@[w]).is_some() implies closed_upto(g, distance@, w, g[w].len() as int) by {
            let p = slot[w];
            assert(queue@[p] == w);
        }
        assert forall|v: int| 0 <= v < g.len() implies match #[trigger] distance@[v] {
            Some(d) => is_distance(g, s, v, d as nat),
            None => !reachable(g, s, v),
        } by {
            match distance@[v] {
                Some(d) => {
                    assert forall|k: nat| k < d implies !walk(g, s, v, k) by {
                        if walk(g, s, v, k) {
                            lemma_closed_bounds_walk(g, s, distance@, v, k);
                        }
                    }
                },
                None => {
                    assert forall|k: nat| !walk(g, s, v, k) by {
                        if walk(g, s, v, k) {
                            lemma_closed_bounds_walk(g, s, distance@, v, k);
                        }
                    }
                },
            }
        }
        assert(is_distance_vector(g, s, distance@));
        lemma_distance_vector_unique(g, s, distance@, distance_vector(g, s));
        assert forall|v: int|
            0 <= v < distance@.len() && (#[trigger] distance@[v]).is_some() && distance@[v].unwrap() > 0 implies exists|u: int|
            #[trigger] has_edge(g, u, v) && distance@[u] == Some((distance@[v].unwrap() - 1) as usize) by {
            lemma_predecessor_distance(g, s, distance@, v, distance@[v].unwrap());
        }
        assert forall|v: int| 0 <= v < distance@.len() && (#[trigger] distance@[v]).is_some() implies distance@[v].unwrap() < adj_list.len() by {
            let p = slot[v];
            assert(queue@[p] == v);
        }
    }
    distance
}

} // verus!
