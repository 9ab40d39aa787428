//! The graph model: adjacency lists, edges, walks and hop distances.

use vstd::prelude::*;

verus! {

/// The adjacency lists as a sequence of sequences: entry `u` lists the
/// targets of the edges that leave node `u`, in order, repeats included.
pub open spec fn graph_of(adj: &Vec<Vec<usize>>) -> Seq<Seq<usize>> {
    Seq::new(adj@.len(), |u: int| adj@[u]@)
}

/// Every edge ends at a node of the graph.
pub open spec fn well_formed(g: Seq<Seq<usize>>) -> bool {
    forall|u: int, j: int|
        0 <= u < g.len() && 0 <= j < g[u].len() ==> (#[trigger] g[u][j]) < g.len()
}

/// Whether every edge ends at a node of the graph.
pub fn is_well_formed(adj_list: &Vec<Vec<usize>>) -> (ok: bool)
    ensures
        ok == well_formed(graph_of(adj_list)),
{
    let n: usize = adj_list.len();
    let ghost g = graph_of(adj_list);
    let mut u: usize = 0;
    while u < n
        invariant
            n == adj_list.len(),
            g == graph_of(adj_list),
            u <= n,
            forall|x: int, j: int| 0 <= x < u && 0 <= j < g[x].len() ==> (#[trigger] g[x][j]) < n,
        decreases n - u,
    {
        let neighbors = &adj_list[u];
        let mut j: usize = 0;
        while j < neighbors.len()
            invariant
                n == adj_list.len(),
                g == graph_of(adj_list),
                u < n,
                neighbors@ == g[u as int],
                j <= neighbors@.len(),
                forall|k: int| 0 <= k < j ==> (#[trigger] g[u as int][k]) < n,
            decreases neighbors@.len() - j,
        {
            if neighbors[j] >= n {
                assert(!(g[u as int][j as int] < g.len()));
                return false;
            }
            j = j + 1;
        }
        u = u + 1;
    }
    true
}

/// The graph has at least one edge from `u` to `v`.
pub open spec fn has_edge(g: Seq<Seq<usize>>, u: int, v: int) -> bool {
    0 <= u < g.len() && exists|j: int| 0 <= j < g[u].len() && #[trigger] g[u][j] == v
}

/// Some sequence of exactly `d` edges leads from `s` to `v`.
pub open spec fn walk(g: Seq<Seq<usize>>, s: int, v: int, d: nat) -> bool
    decreases d,
{
    if d == 0 {
        v == s
    } else {
        exists|u: int| walk(g, s, u, (d - 1) as nat) && #[trigger] has_edge(g, u, v)
    }
}

/// Some walk leads from `s` to `v`.
pub open spec fn reachable(g: Seq<Seq<usize>>, s: int, v: int) -> bool {
    exists|d: nat| walk(g, s, v, d)
}

/// `d` is the least number of edges on a walk from `s` to `v`.
pub open spec fn is_distance(g: Seq<Seq<usize>>, s: int, v: int, d: nat) -> bool {
    walk(g, s, v, d) && forall|k: nat| k < d ==> !walk(g, s, v, k)
}

/// `dv` holds, for each node, its hop distance from `s`, or `None` where no
/// walk from `s` reaches it.
pub open spec fn is_distance_vector(g: Seq<Seq<usize>>, s: int, dv: Seq<Option<usize>>) -> bool {
    &&& dv.len() == g.len()
    &&& forall|v: int|
        0 <= v < g.len() ==> match #[trigger] dv[v] {
            Some(d) => is_distance(g, s, v, d as nat),
            None => !reachable(g, s, v),
        }
}

/// The distance vector of `s`, where one exists that fits the machine's integers.
pub open spec fn distance_vector(g: Seq<Seq<usize>>, s: int) -> Seq<Option<usize>> {
    choose|dv: Seq<Option<usize>>| is_distance_vector(g, s, dv)
}

/// Extending a walk by one edge gives a walk that is one edge longer.
pub proof fn lemma_walk_step(g: Seq<Seq<usize>>, s: int, u: int, v: int, d: nat)
    requires
        walk(g, s, u, d),
        has_edge(g, u, v),
    ensures
        walk(g, s, v, (d + 1) as nat),
{
    assert(walk(g, s, u, ((d + 1) - 1) as nat));
}

/// A graph and a start node have at most one distance vector.
pub proof fn lemma_distance_vector_unique(
    g: Seq<Seq<usize>>,
    s: int,
    a: Seq<Option<usize>>,
    b: Seq<Option<usize>>,
)
    requires
        is_distance_vector(g, s, a),
        is_distance_vector(g, s, b),
    ensures
        a == b,
{
    assert forall|v: int| 0 <= v < g.len() implies a[v] == b[v] by {
        match (a[v], b[v]) {
            (Some(x), Some(y)) => {
                if x < y {
                    assert(!walk(g, s, v, x as nat));
                }
                if y < x {
                    assert(!walk(g, s, v, y as nat));
                }
            },
            (Some(x), None) => {
                assert(walk(g, s, v, x as nat));
            },
            (None, Some(y)) => {
                assert(walk(g, s, v, y as nat));
            },
            (None, None) => {},
        }
    }
    assert(a =~= b);
}

/// The start node is at distance zero from itself.
pub proof fn lemma_start_distance(g: Seq<Seq<usize>>, s: int, dv: Seq<Option<usize>>)
    requires
        0 <= s < g.len(),
        is_distance_vector(g, s, dv),
    ensures
        dv[s] == Some(0usize),
{
    assert(walk(g, s, s, 0));
    assert(reachable(g, s, s));
}

/// A node at a positive distance `d` has an in-neighbour at distance `d - 1`.
pub proof fn lemma_predecessor_distance(g: Seq<Seq<usize>>, s: int, dv: Seq<Option<usize>>, v: int, d: usize)
    requires
        is_distance_vector(g, s, dv),
        0 <= v < g.len(),
        dv[v] == Some(d),
        d > 0,
    ensures
        exists|u: int| #[trigger] has_edge(g, u, v) && dv[u] == Some((d - 1) as usize),
{
    assert(is_distance(g, s, v, d as nat));
    let u = choose|u: int| walk(g, s, u, (d - 1) as nat) && #[trigger] has_edge(g, u, v);
    assert(reachable(g, s, u));
    let du = dv[u].unwrap();
    assert(is_distance(g, s, u, du as nat));
    if du < d - 1 {
        lemma_walk_step(g, s, u, v, du as nat);
    }
    assert(du == d - 1);
}

/// How often `x` occurs in `s`.
pub open spec fn occurrences(s: Seq<usize>, x: int) -> nat
    decreases s.len(),
{
    if s.len() == 0 {
        0
    } else {
        occurrences(s.drop_last(), x) + if s.last() == x { 1nat } else { 0nat }
    }
}

/// The entries of `s` never decrease.
pub open spec fn ascending(s: Seq<usize>) -> bool {
    forall|i: int, j: int| 0 <= i <= j < s.len() ==> s[i] <= s[j]
}

/// `r` is `g` with every edge turned round: it has the same nodes, the
/// edge from `v` to `u` as often as `g` has the edge from `u` to `v`, and
/// each of its lists names the sources in ascending order.
pub open spec fn is_reversal(g: Seq<Seq<usize>>, r: Seq<Seq<usize>>) -> bool {
    &&& r.len() == g.len()
    &&& forall|v: int| 0 <= v < r.len() ==> ascending(#[trigger] r[v])
    &&& forall|v: int, u: int|
        0 <= v < g.len() && 0 <= u < g.len() ==> #[trigger] occurrences(r[v], u) == occurrences(g[u], v)
    &&& forall|v: int, j: int| 0 <= v < r.len() && 0 <= j < r[v].len() ==> (#[trigger] r[v][j]) < g.len()
}

/// `k` copies of `u`.
pub open spec fn copies(u: usize, k: nat) -> Seq<usize> {
    Seq::new(k, |i: int| u)
}

/// The sources of the edges into `v` among the nodes below `upto`, in
/// ascending order, each as often as it has an edge to `v`.
pub open spec fn sources(g: Seq<Seq<usize>>, v: int, upto: int) -> Seq<usize>
    decreases upto,
{
    if upto <= 0 {
        Seq::empty()
    } else {
        sources(g, v, upto - 1) + copies((upto - 1) as usize, occurrences(g[upto - 1], v))
    }
}

/// The graph with every edge of `g` turned round.
pub open spec fn reversal(g: Seq<Seq<usize>>) -> Seq<Seq<usize>> {
    Seq::new(g.len(), |v: int| sources(g, v, g.len() as int))
}

/// An entry occurs in two sequences joined as often as in both together.
proof fn lemma_occurrences_join(a: Seq<usize>, b: Seq<usize>, x: int)
    ensures
        occurrences(a + b, x) == occurrences(a, x) + occurrences(b, x),
    decreases b.len(),
{
    if b.len() == 0 {
        assert(a + b =~= a);
    } else {
        assert((a + b).drop_last() =~= a + b.drop_last());
        lemma_occurrences_join(a, b.drop_last(), x);
    }
}

/// Among `k` copies of `u`, `u` occurs `k` times and nothing else occurs.
proof fn lemma_occurrences_copies(u: usize, k: nat, x: int)
    ensures
        occurrences(copies(u, k), x) == if u == x { k } else { 0 },
    decreases k,
{
    if k > 0 {
        assert(copies(u, k).drop_last() =~= copies(u, (k - 1) as nat));
        lemma_occurrences_copies(u, (k - 1) as nat, x);
    }
}

/// The sources below `upto` are in ascending order, all below `upto`, and
/// each occurs as often as it has an edge to `v`.
proof fn lemma_sources(g: Seq<Seq<usize>>, v: int, upto: int)
    requires
        0 <= upto <= g.len() <= usize::MAX,
    ensures
        ascending(sources(g, v, upto)),
        forall|k: int| 0 <= k < sources(g, v, upto).len() ==> (#[trigger] sources(g, v, upto)[k]) < upto,
        forall|u: int|
            0 <= u < g.len() ==> #[trigger] occurrences(sources(g, v, upto), u) == if u < upto {
                occurrences(g[u], v)
            } else {
                0
            },
    decreases upto,
{
    if upto > 0 {
        lemma_sources(g, v, upto - 1);
        let last = (upto - 1) as usize;
        let a = sources(g, v, upto - 1);
        let b = copies(last, occurrences(g[upto - 1], v));
        assert(sources(g, v, upto) == a + b);
        assert forall|u: int| 0 <= u < g.len() implies #[trigger] occurrences(a + b, u) == if u < upto {
            occurrences(g[u], v)
        } else {
            0
        } by {
            lemma_occurrences_join(a, b, u);
            lemma_occurrences_copies(last, occurrences(g[upto - 1], v), u);
        }
        assert forall|k: int| 0 <= k < (a + b).len() implies (#[trigger] (a + b)[k]) < upto by {
            if k < a.len() {
                assert((a + b)[k] == a[k]);
            } else {
                assert((a + b)[k] == b[k - a.len()]);
            }
        }
        assert forall|i: int, j: int| 0 <= i <= j < (a + b).len() implies (a + b)[i] <= (a + b)[j] by {
            if j < a.len() {
                assert((a + b)[i] == a[i] && (a + b)[j] == a[j]);
            } else if i < a.len() {
                assert((a + b)[i] == a[i] && (a + b)[j] == b[j - a.len()]);
            } else {
                assert((a + b)[i] == b[i - a.len()] && (a + b)[j] == b[j - a.len()]);
            }
        }
    }
}

/// Turning every edge round keeps the nodes and the number of edges
/// between each two of them, and lists the sources in ascending order.
pub proof fn lemma_reversal(g: Seq<Seq<usize>>)
    requires
        g.len() <= usize::MAX,
    ensures
        is_reversal(g, reversal(g)),
{
    let r = reversal(g);
    assert forall|v: int| 0 <= v < r.len() implies ascending(#[trigger] r[v]) by {
        lemma_sources(g, v, g.len() as int);
    }
    assert forall|v: int, u: int| 0 <= v < g.len() && 0 <= u < g.len() implies #[trigger] occurrences(r[v], u) == occurrences(g[u], v) by {
        lemma_sources(g, v, g.len() as int);
    }
    assert forall|v: int, j: int| 0 <= v < r.len() && 0 <= j < r[v].len() implies (#[trigger] r[v][j]) < g.len() by {
        lemma_sources(g, v, g.len() as int);
    }
}

/// What the reversal holds once the edges of the nodes below `u`, and the
/// first `j` edges of `u`, have been turned round.
spec fn reversed_upto(g: Seq<Seq<usize>>, r: Seq<Seq<usize>>, u: int, j: int) -> bool {
    &&& r.len() == g.len()
    &&& forall|v: int|
        0 <= v < r.len() ==> #[trigger] r[v] == sources(g, v, u) + copies(u as usize, occurrences(g[u].take(j), v))
}

/// The graph with every edge turned round.
pub fn reverse_al(adj_list: &Vec<Vec<usize>>) -> (reversed: Vec<Vec<usize>>)
    requires
        well_formed(graph_of(adj_list)),
    ensures
        graph_of(&reversed) == reversal(graph_of(adj_list)),
        is_reversal(graph_of(adj_list), graph_of(&reversed)),
        well_formed(graph_of(&reversed)),
{
    let n: usize = adj_list.len();
    let ghost g = graph_of(adj_list);
    let mut reversed: Vec<Vec<usize>> = Vec::new();
    let mut i: usize = 0;
    while i < n
        invariant
            i <= n,
            reversed@.len() == i,
            forall|v: int| 0 <= v < i ==> (#[trigger] reversed@[v])@.len() == 0,
        decreases n - i,
    {
        reversed.push(Vec::new());
        i = i + 1;
    }
    let mut u: usize = 0;
    proof {
        if n > 0 {
            assert(g[0].take(0).len() == 0);
            assert forall|v: int| 0 <= v < n implies #[trigger] graph_of(&reversed)[v] == sources(g, v, 0) + copies(0usize, occurrences(g[0].take(0), v)) by {
                assert(reversed@[v]@.len() == 0);
                assert(graph_of(&reversed)[v] =~= sources(g, v, 0) + copies(0usize, 0));
            }
        } else {
            assert(graph_of(&reversed) =~= reversal(g));
        }
    }
    while u < n
        invariant
            n == adj_list.len(),
            g == graph_of(adj_list),
            well_formed(g),
            u <= n,
            u < n ==> reversed_upto(g, graph_of(&reversed), u as int, 0),
            u == n ==> graph_of(&reversed) == reversal(g),
        decreases n - u,
    {
        let neighbors = &adj_list[u];
        let mut j: usize = 0;
        while j < neighbors.len()
            invariant
                n == adj_list.len(),
                g == graph_of(adj_list),
                well_formed(g),
                u < n,
                neighbors@ == g[u as int],
                j <= neighbors@.len(),
                reversed_upto(g, graph_of(&reversed), u as int, j as int),
            decreases neighbors@.len() - j,
        {
            let v: usize = neighbors[j];
            assert(v == g[u as int][j as int]);
            let ghost before = graph_of(&reversed);
            reversed[v].push(u);
            proof {
                let after = graph_of(&reversed);
                assert(after =~= before.update(v as int, before[v as int].push(u)));
                assert(g[u as int].take(j + 1).drop_last() =~= g[u as int].take(j as int));
                assert forall|x: int| 0 <= x < after.len() implies #[trigger] after[x] == sources(g, x, u as int) + copies(u, occurrences(g[u as int].take(j + 1), x)) by {
                    let k = occurrences(g[u as int].take(j as int), x);
                    assert(before[x] == sources(g, x, u as int) + copies(u, k));
                    if x == v {
                        assert(copies(u, k + 1) =~= copies(u, k).push(u));
                        assert(after[x] =~= sources(g, x, u as int) + copies(u, k + 1));
                    }
                }
            }
            j = j + 1;
        }
        proof {
            let r = graph_of(&reversed);
            assert(g[u as int].take(j as int) =~= g[u as int]);
            assert forall|v: int| 0 <= v < n implies #[trigger] r[v] == sources(g, v, u + 1) by {
                assert(r[v] == sources(g, v, u as int) + copies(u, occurrences(g[u as int].take(j as int), v)));
            }
            if u + 1 < n {
                assert(g[u + 1].take(0).len() == 0);
                assert forall|v: int| 0 <= v < n implies #[trigger] r[v] == sources(g, v, u + 1) + copies((u + 1) as usize, occurrences(g[u + 1].take(0), v)) by {
                    assert(r[v] =~= sources(g, v, u + 1) + copies((u + 1) as usize, 0));
                }
            } else {
                assert(r =~= reversal(g));
            }
        }
        u = u + 1;
    }
    proof {
        lemma_reversal(g);
    }
    reversed
}

} // verus!
