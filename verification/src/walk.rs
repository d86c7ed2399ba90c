//! Walks in a graph and the hop distance they define.
//!
//! A graph is modelled by its adjacency: a sequence that gives, for each
//! vertex, the sequence of its neighbours.

use vstd::prelude::*;

verus! {

/// Every neighbour that `adj` lists is itself a vertex of the graph.
pub open spec fn closed(adj: Seq<Seq<usize>>) -> bool {
    forall|u: int, i: int|
        0 <= u < adj.len() && 0 <= i < adj[u].len() ==> (#[trigger] adj[u][i]) < adj.len()
}

/// `v` is listed among the neighbours of `u`.
pub open spec fn adjacent(adj: Seq<Seq<usize>>, u: usize, v: usize) -> bool {
    u < adj.len() && v < adj.len() && adj[u as int].contains(v)
}

/// Whenever `v` is a neighbour of `u`, `u` is a neighbour of `v`.
pub open spec fn symmetric(adj: Seq<Seq<usize>>) -> bool {
    forall|u: usize, v: usize| adjacent(adj, u, v) ==> adjacent(adj, v, u)
}

/// Two graphs have the same vertices, and in both the same vertices are
/// neighbours of the same vertices, however often each is listed.
pub open spec fn same_neighbours(a: Seq<Seq<usize>>, b: Seq<Seq<usize>>) -> bool {
    &&& a.len() == b.len()
    &&& forall|u: usize, v: usize| adjacent(a, u, v) == adjacent(b, u, v)
}

/// The step of `p` that leaves its `i`-th vertex follows an edge.
pub open spec fn step(adj: Seq<Seq<usize>>, p: Seq<usize>, i: int) -> bool {
    adjacent(adj, p[i], p[i + 1])
}

/// `p` is a walk: a sequence of at least one vertex in which each vertex but
/// the first is a neighbour of the one before it.
pub open spec fn is_walk(adj: Seq<Seq<usize>>, p: Seq<usize>) -> bool {
    &&& p.len() >= 1
    &&& p[0] < adj.len()
    &&& forall|i: int| 0 <= i < p.len() - 1 ==> #[trigger] step(adj, p, i)
}

/// `p` is a walk that starts at `s` and ends at `t`.
pub open spec fn walk_between(adj: Seq<Seq<usize>>, p: Seq<usize>, s: usize, t: usize) -> bool {
    is_walk(adj, p) && p.first() == s && p.last() == t
}

/// Some walk of exactly `k` steps leads from `s` to `t`.
pub open spec fn reachable_in(adj: Seq<Seq<usize>>, s: usize, t: usize, k: nat) -> bool {
    exists|p: Seq<usize>| #[trigger] walk_between(adj, p, s, t) && p.len() == k + 1
}

/// Some walk leads from `s` to `t`.
pub open spec fn connected(adj: Seq<Seq<usize>>, s: usize, t: usize) -> bool {
    exists|k: nat| reachable_in(adj, s, t, k)
}

/// `d` is the number of steps of a shortest walk from `s` to `t`.
pub open spec fn is_distance(adj: Seq<Seq<usize>>, s: usize, t: usize, d: nat) -> bool {
    &&& reachable_in(adj, s, t, d)
    &&& forall|k: nat| k < d ==> !reachable_in(adj, s, t, k)
}

/// The hop distance from `s` to `t`: the number of steps of a shortest walk,
/// or `None` where no walk leads from `s` to `t`.
pub open spec fn distance(adj: Seq<Seq<usize>>, s: usize, t: usize) -> Option<nat> {
    if connected(adj, s, t) {
        Some(choose|d: nat| is_distance(adj, s, t, d))
    } else {
        None
    }
}

/// The hop distance as the 32-bit count in which it is stored.
pub open spec fn hops(adj: Seq<Seq<usize>>, s: usize, t: usize) -> Option<u32> {
    match distance(adj, s, t) {
        Some(d) => Some(d as u32),
        None => None,
    }
}

/// The hop distances from `s` to every vertex, in the order of the vertices.
pub open spec fn distance_row(adj: Seq<Seq<usize>>, s: usize) -> Seq<Option<u32>> {
    Seq::new(adj.len(), |t: int| hops(adj, s, t as usize))
}

/// The hop distances between all pairs of vertices: one row for each source.
pub open spec fn distance_table(adj: Seq<Seq<usize>>) -> Seq<Seq<Option<u32>>> {
    Seq::new(adj.len(), |s: int| distance_row(adj, s as usize))
}

/// A walk followed by a step to a neighbour of its last vertex is a walk.
pub proof fn lemma_walk_extend(adj: Seq<Seq<usize>>, p: Seq<usize>, w: usize)
    requires
        is_walk(adj, p),
        adjacent(adj, p.last(), w),
    ensures
        is_walk(adj, p.push(w)),
        p.push(w).first() == p.first(),
        p.push(w).last() == w,
{
    let q = p.push(w);
    assert forall|i: int| 0 <= i < q.len() - 1 implies #[trigger] step(adj, q, i) by {
        if i < p.len() - 1 {
            assert(step(adj, p, i));
        }
    }
}

/// A walk of at least one step without its last vertex is a walk, and its
/// last step follows an edge.
pub proof fn lemma_walk_shorten(adj: Seq<Seq<usize>>, p: Seq<usize>)
    requires
        is_walk(adj, p),
        p.len() >= 2,
    ensures
        is_walk(adj, p.drop_last()),
        p.drop_last().first() == p.first(),
        adjacent(adj, p.drop_last().last(), p.last()),
{
    let q = p.drop_last();
    assert forall|i: int| 0 <= i < q.len() - 1 implies #[trigger] step(adj, q, i) by {
        assert(step(adj, p, i));
    }
    assert(step(adj, p, p.len() - 2));
}

/// Every vertex of a walk is a vertex of the graph.
pub proof fn lemma_walk_in_range(adj: Seq<Seq<usize>>, p: Seq<usize>, i: int)
    requires
        is_walk(adj, p),
        0 <= i < p.len(),
    ensures
        p[i] < adj.len(),
{
    if i > 0 {
        assert(step(adj, p, i - 1));
    }
}

/// In a symmetric graph a walk read backwards is a walk.
pub proof fn lemma_walk_reverse(adj: Seq<Seq<usize>>, p: Seq<usize>)
    requires
        symmetric(adj),
        is_walk(adj, p),
    ensures
        is_walk(adj, p.reverse()),
        p.reverse().len() == p.len(),
        p.reverse().first() == p.last(),
        p.reverse().last() == p.first(),
{
    let q = p.reverse();
    lemma_walk_in_range(adj, p, p.len() - 1);
    assert forall|i: int| 0 <= i < q.len() - 1 implies #[trigger] step(adj, q, i) by {
        let j = p.len() - 2 - i;
        assert(step(adj, p, j));
        assert(q[i] == p[j + 1]);
        assert(q[i + 1] == p[j]);
    }
}

/// In a symmetric graph, `t` is reached from `s` in `k` steps exactly when
/// `s` is reached from `t` in `k` steps.
pub proof fn lemma_reachable_symmetric(adj: Seq<Seq<usize>>, s: usize, t: usize, k: nat)
    requires
        symmetric(adj),
    ensures
        reachable_in(adj, s, t, k) == reachable_in(adj, t, s, k),
{
    if reachable_in(adj, s, t, k) {
        let p = choose|p: Seq<usize>| #[trigger] walk_between(adj, p, s, t) && p.len() == k + 1;
        lemma_walk_reverse(adj, p);
        assert(walk_between(adj, p.reverse(), t, s));
    }
    if reachable_in(adj, t, s, k) {
        let p = choose|p: Seq<usize>| #[trigger] walk_between(adj, p, t, s) && p.len() == k + 1;
        lemma_walk_reverse(adj, p);
        assert(walk_between(adj, p.reverse(), s, t));
    }
}

/// Where some walk of `k` steps leads from `s` to `t`, a shortest walk
/// exists, and it has at most `k` steps.
pub proof fn lemma_shortest_exists(adj: Seq<Seq<usize>>, s: usize, t: usize, k: nat) -> (d: nat)
    requires
        reachable_in(adj, s, t, k),
    ensures
        d <= k,
        is_distance(adj, s, t, d),
    decreases k,
{
    if forall|j: nat| j < k ==> !reachable_in(adj, s, t, j) {
        k
    } else {
        let j = choose|j: nat| j < k && reachable_in(adj, s, t, j);
        lemma_shortest_exists(adj, s, t, j)
    }
}

/// At most one number is the length of a shortest walk, and `distance`
/// gives it.
pub proof fn lemma_distance_is(adj: Seq<Seq<usize>>, s: usize, t: usize, d: nat)
    requires
        is_distance(adj, s, t, d),
    ensures
        distance(adj, s, t) == Some(d),
{
    assert(connected(adj, s, t));
    let c = choose|c: nat| is_distance(adj, s, t, c);
    assert(is_distance(adj, s, t, c));
    if c < d {
        assert(!reachable_in(adj, s, t, c));
    }
    if d < c {
        assert(!reachable_in(adj, s, t, d));
    }
}

/// What `distance` gives is the length of a shortest walk.
pub proof fn lemma_distance_some(adj: Seq<Seq<usize>>, s: usize, t: usize)
    requires
        connected(adj, s, t),
    ensures
        distance(adj, s, t) is Some,
        is_distance(adj, s, t, distance(adj, s, t)->0),
{
    let k = choose|k: nat| reachable_in(adj, s, t, k);
    let d = lemma_shortest_exists(adj, s, t, k);
    lemma_distance_is(adj, s, t, d);
}

/// The hop distance from a vertex to itself is zero.
pub proof fn lemma_distance_to_self(adj: Seq<Seq<usize>>, v: usize)
    requires
        v < adj.len(),
    ensures
        is_distance(adj, v, v, 0),
        distance(adj, v, v) == Some(0nat),
        hops(adj, v, v) == Some(0u32),
{
    let p = seq![v];
    assert(walk_between(adj, p, v, v));
    lemma_distance_is(adj, v, v, 0);
}

/// In a symmetric graph the hop distance from `u` to `v` is the hop distance
/// from `v` to `u`.
pub proof fn lemma_distance_symmetric(adj: Seq<Seq<usize>>, u: usize, v: usize)
    requires
        symmetric(adj),
    ensures
        distance(adj, u, v) == distance(adj, v, u),
        hops(adj, u, v) == hops(adj, v, u),
{
    assert forall|k: nat| reachable_in(adj, u, v, k) == reachable_in(adj, v, u, k) by {
        lemma_reachable_symmetric(adj, u, v, k);
    }
    if connected(adj, u, v) {
        let k = choose|k: nat| reachable_in(adj, u, v, k);
        assert(reachable_in(adj, v, u, k));
        lemma_distance_some(adj, u, v);
        let d = distance(adj, u, v)->0;
        assert(is_distance(adj, v, u, d));
        lemma_distance_is(adj, v, u, d);
    } else if connected(adj, v, u) {
        let k = choose|k: nat| reachable_in(adj, v, u, k);
        assert(reachable_in(adj, u, v, k));
    }
}

/// Two adjacencies whose lists hold the same elements, in whatever order,
/// have the same neighbours, and one lists only vertices where the other
/// does.
pub proof fn lemma_same_elements(a: Seq<Seq<usize>>, b: Seq<Seq<usize>>)
    requires
        a.len() == b.len(),
        forall|u: int| 0 <= u < a.len() ==> (#[trigger] a[u]).to_multiset() == b[u].to_multiset(),
    ensures
        same_neighbours(a, b),
        closed(a) ==> closed(b),
{
    broadcast use vstd::seq_lib::to_multiset_contains;

    assert forall|u: usize, v: usize| adjacent(a, u, v) == adjacent(b, u, v) by {
        if u < a.len() {
            assert(a[u as int].to_multiset().count(v) == b[u as int].to_multiset().count(v));
        }
    }
    if closed(a) {
        assert forall|u: int, i: int| 0 <= u < b.len() && 0 <= i < b[u].len() implies (
        #[trigger] b[u][i]) < b.len() by {
            let v = b[u][i];
            assert(b[u].contains(v));
            assert(a[u].to_multiset().count(v) == b[u].to_multiset().count(v));
            let k = choose|k: int| 0 <= k < a[u].len() && a[u][k] == v;
            assert(a[u][k] < a.len());
        }
    }
}

/// Graphs with the same neighbours have the same walks.
pub proof fn lemma_walk_by_neighbours(a: Seq<Seq<usize>>, b: Seq<Seq<usize>>, p: Seq<usize>)
    requires
        same_neighbours(a, b),
        is_walk(a, p),
    ensures
        is_walk(b, p),
{
    assert forall|i: int| 0 <= i < p.len() - 1 implies #[trigger] step(b, p, i) by {
        assert(step(a, p, i));
        assert(adjacent(a, p[i], p[i + 1]) == adjacent(b, p[i], p[i + 1]));
    }
}

/// Hop distances depend only on which vertices are neighbours: listing a
/// neighbour more than once changes no distance.
pub proof fn lemma_distance_by_neighbours(a: Seq<Seq<usize>>, b: Seq<Seq<usize>>, s: usize, t: usize)
    requires
        same_neighbours(a, b),
    ensures
        distance(a, s, t) == distance(b, s, t),
        hops(a, s, t) == hops(b, s, t),
{
    assert forall|k: nat| reachable_in(a, s, t, k) == reachable_in(b, s, t, k) by {
        if reachable_in(a, s, t, k) {
            let p = choose|p: Seq<usize>| #[trigger] walk_between(a, p, s, t) && p.len() == k + 1;
            lemma_walk_by_neighbours(a, b, p);
            assert(walk_between(b, p, s, t));
        }
        if reachable_in(b, s, t, k) {
            let p = choose|p: Seq<usize>| #[trigger] walk_between(b, p, s, t) && p.len() == k + 1;
            lemma_walk_by_neighbours(b, a, p);
            assert(walk_between(a, p, s, t));
        }
    }
    if connected(a, s, t) {
        let k = choose|k: nat| reachable_in(a, s, t, k);
        assert(reachable_in(b, s, t, k));
        lemma_distance_some(a, s, t);
        let d = distance(a, s, t)->0;
        assert(is_distance(b, s, t, d));
        lemma_distance_is(b, s, t, d);
    } else if connected(b, s, t) {
        let k = choose|k: nat| reachable_in(b, s, t, k);
        assert(reachable_in(a, s, t, k));
    }
}

/// No walk leads from a vertex without neighbours to any other vertex.
pub proof fn lemma_isolated_unreached(adj: Seq<Seq<usize>>, v: usize, t: usize)
    requires
        v < adj.len(),
        adj[v as int].len() == 0,
        t != v,
    ensures
        !connected(adj, v, t),
        distance(adj, v, t) is None,
        hops(adj, v, t) is None,
{
    if connected(adj, v, t) {
        let k = choose|k: nat| reachable_in(adj, v, t, k);
        let p = choose|p: Seq<usize>| #[trigger] walk_between(adj, p, v, t) && p.len() == k + 1;
        assert(p.len() >= 2);
        assert(step(adj, p, 0));
        let i = choose|i: int| 0 <= i < adj[v as int].len() && adj[v as int][i] == p[1];
    }
}

} // verus!
