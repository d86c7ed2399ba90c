//! Edge lists as mathematical sequences.

use vstd::prelude::*;
use crate::order::{ascending, lemma_ascending_unique};
use crate::walk::{
    adjacent, closed, hops, lemma_distance_by_neighbours, same_neighbours, symmetric,
};

verus! {

/// Every endpoint of every edge is a vertex of a graph with `n` vertices.
pub open spec fn in_range(edges: Seq<(usize, usize)>, n: usize) -> bool {
    forall|i: int| 0 <= i < edges.len() ==> (#[trigger] edges[i]).0 < n && edges[i].1 < n
}

/// The edge at `position` is the first with an endpoint that is no vertex of
/// a graph with `n` vertices.
pub open spec fn first_out_of_range(edges: Seq<(usize, usize)>, n: usize, position: usize) -> bool {
    &&& position < edges.len()
    &&& edges[position as int].0 >= n || edges[position as int].1 >= n
    &&& in_range(edges.take(position as int), n)
}

/// Every source of every edge is below `bound`.
pub open spec fn sources_below(edges: Seq<(usize, usize)>, bound: nat) -> bool {
    forall|i: int| 0 <= i < edges.len() ==> (#[trigger] edges[i]).0 < bound
}

/// The edge list with every edge turned around, in the same order.
pub open spec fn reversed(edges: Seq<(usize, usize)>) -> Seq<(usize, usize)> {
    Seq::new(edges.len(), |i: int| (edges[i].1, edges[i].0))
}

/// The edge list followed by its reversal: every edge in both directions.
pub open spec fn symmetrized(edges: Seq<(usize, usize)>) -> Seq<(usize, usize)> {
    edges + reversed(edges)
}

/// The targets of the edges that leave `u`, in the order of the edge list.
pub open spec fn targets_of(edges: Seq<(usize, usize)>, u: usize) -> Seq<usize>
    decreases edges.len(),
{
    if edges.len() == 0 {
        Seq::empty()
    } else if edges.last().0 == u {
        targets_of(edges.drop_last(), u).push(edges.last().1)
    } else {
        targets_of(edges.drop_last(), u)
    }
}

/// The sources of the edges that enter `v`, in the order of the edge list.
pub open spec fn sources_of(edges: Seq<(usize, usize)>, v: usize) -> Seq<usize>
    decreases edges.len(),
{
    if edges.len() == 0 {
        Seq::empty()
    } else if edges.last().1 == v {
        sources_of(edges.drop_last(), v).push(edges.last().0)
    } else {
        sources_of(edges.drop_last(), v)
    }
}

/// `adj` holds, for each of `n` vertices, the other endpoints of the edges
/// that leave or enter it, in ascending order, each as often as there is
/// such an edge leaving plus such an edge entering.
pub open spec fn joined_adjacency_of(adj: Seq<Seq<usize>>, n: usize, edges: Seq<(usize, usize)>) -> bool {
    &&& adj.len() == n
    &&& forall|u: int|
        0 <= u < n ==> ascending(#[trigger] adj[u]) && adj[u].to_multiset() == targets_of(
            edges,
            u as usize,
        ).to_multiset().add(sources_of(edges, u as usize).to_multiset())
}

/// `adj` holds, for each of `n` vertices, the targets of the edges that leave
/// it, in ascending order and as often as such an edge occurs in `edges`.
pub open spec fn sorted_adjacency_of(adj: Seq<Seq<usize>>, n: usize, edges: Seq<(usize, usize)>) -> bool {
    &&& adj.len() == n
    &&& forall|u: int|
        0 <= u < n ==> ascending(#[trigger] adj[u]) && adj[u].to_multiset() == targets_of(
            edges,
            u as usize,
        ).to_multiset()
}

/// The targets of a concatenation are the targets of its parts, concatenated.
pub proof fn lemma_targets_of_concat(a: Seq<(usize, usize)>, b: Seq<(usize, usize)>, u: usize)
    ensures
        targets_of(a + b, u) == targets_of(a, u) + targets_of(b, u),
    decreases b.len(),
{
    if b.len() == 0 {
        assert(a + b == a);
        assert(targets_of(a, u) + targets_of(b, u) == targets_of(a, u));
    } else {
        assert((a + b).drop_last() == a + b.drop_last());
        assert((a + b).last() == b.last());
        lemma_targets_of_concat(a, b.drop_last(), u);
        if b.last().0 == u {
            assert((targets_of(a, u) + targets_of(b.drop_last(), u)).push(b.last().1) == targets_of(
                a,
                u,
            ) + targets_of(b.drop_last(), u).push(b.last().1));
        }
    }
}

/// The sources of a concatenation are the sources of its parts, concatenated.
pub proof fn lemma_sources_of_concat(a: Seq<(usize, usize)>, b: Seq<(usize, usize)>, v: usize)
    ensures
        sources_of(a + b, v) == sources_of(a, v) + sources_of(b, v),
    decreases b.len(),
{
    if b.len() == 0 {
        assert(a + b == a);
        assert(sources_of(a, v) + sources_of(b, v) == sources_of(a, v));
    } else {
        assert((a + b).drop_last() == a + b.drop_last());
        assert((a + b).last() == b.last());
        lemma_sources_of_concat(a, b.drop_last(), v);
        if b.last().1 == v {
            assert((sources_of(a, v) + sources_of(b.drop_last(), v)).push(b.last().0) == sources_of(
                a,
                v,
            ) + sources_of(b.drop_last(), v).push(b.last().0));
        }
    }
}

/// Turning every edge around exchanges sources and targets, and turning
/// every edge around twice gives the list back.
pub proof fn lemma_reversed_exchanges(edges: Seq<(usize, usize)>, u: usize)
    ensures
        targets_of(reversed(edges), u) == sources_of(edges, u),
        sources_of(reversed(edges), u) == targets_of(edges, u),
        reversed(reversed(edges)) == edges,
    decreases edges.len(),
{
    assert(reversed(reversed(edges)) =~= edges);
    if edges.len() > 0 {
        assert(reversed(edges).drop_last() == reversed(edges.drop_last()));
        lemma_reversed_exchanges(edges.drop_last(), u);
    }
}

/// The targets of `u` in the symmetrized list are, counted with
/// multiplicity, the targets and the sources of `u` in the list; and so are
/// its sources.
pub proof fn lemma_symmetrized_targets(edges: Seq<(usize, usize)>, u: usize)
    ensures
        targets_of(symmetrized(edges), u).to_multiset() == targets_of(edges, u).to_multiset().add(
            sources_of(edges, u).to_multiset(),
        ),
        sources_of(symmetrized(edges), u).to_multiset() == targets_of(
            symmetrized(edges),
            u,
        ).to_multiset(),
{
    let here = targets_of(edges, u);
    let there = sources_of(edges, u);
    lemma_reversed_exchanges(edges, u);
    lemma_targets_of_concat(edges, reversed(edges), u);
    lemma_sources_of_concat(edges, reversed(edges), u);
    vstd::seq_lib::lemma_multiset_commutative(here, there);
    vstd::seq_lib::lemma_seq_union_to_multiset_commutative(here, there);
}

/// `v` is among the targets of `u` exactly when the edge from `u` to `v` is
/// in the list.
pub proof fn lemma_targets_of_contains(edges: Seq<(usize, usize)>, u: usize, v: usize)
    ensures
        targets_of(edges, u).contains(v) <==> edges.contains((u, v)),
    decreases edges.len(),
{
    if edges.len() == 0 {
    } else {
        let front = edges.drop_last();
        lemma_targets_of_contains(front, u, v);
        if targets_of(edges, u).contains(v) {
            if edges.last() == (u, v) {
                assert(edges[edges.len() - 1] == (u, v));
            } else {
                if edges.last().0 == u {
                    let k = choose|k: int|
                        0 <= k < targets_of(edges, u).len() && targets_of(edges, u)[k] == v;
                    assert(targets_of(front, u)[k] == v);
                }
                assert(front.contains((u, v)));
                let k = choose|k: int| 0 <= k < front.len() && front[k] == (u, v);
                assert(edges[k] == (u, v));
            }
        }
        if edges.contains((u, v)) {
            let k = choose|k: int| 0 <= k < edges.len() && edges[k] == (u, v);
            if k == edges.len() - 1 {
                assert(targets_of(edges, u).last() == v);
            } else {
                assert(front[k] == (u, v));
                assert(targets_of(front, u).contains(v));
                let m = choose|m: int|
                    0 <= m < targets_of(front, u).len() && targets_of(front, u)[m] == v;
                assert(targets_of(edges, u)[m] == v);
            }
        }
    }
}

/// An edge is in the symmetrized list exactly when it or its reversal is in
/// the list.
pub proof fn lemma_symmetrized_contains(edges: Seq<(usize, usize)>, u: usize, v: usize)
    ensures
        symmetrized(edges).contains((u, v)) <==> edges.contains((u, v)) || edges.contains((v, u)),
{
    let both = symmetrized(edges);
    let back = reversed(edges);
    if both.contains((u, v)) {
        let k = choose|k: int| 0 <= k < both.len() && both[k] == (u, v);
        if k < edges.len() {
            assert(edges[k] == (u, v));
        } else {
            assert(back[k - edges.len()] == (u, v));
            assert(edges[k - edges.len()] == (v, u));
        }
    }
    if edges.contains((u, v)) {
        let k = choose|k: int| 0 <= k < edges.len() && edges[k] == (u, v);
        assert(both[k] == (u, v));
    }
    if edges.contains((v, u)) {
        let k = choose|k: int| 0 <= k < edges.len() && edges[k] == (v, u);
        assert(back[k] == (u, v));
        assert(both[k + edges.len()] == (u, v));
    }
}

/// The adjacency of an edge list whose endpoints are vertices lists only
/// vertices.
pub proof fn lemma_targets_in_range(adj: Seq<Seq<usize>>, n: usize, edges: Seq<(usize, usize)>)
    requires
        in_range(edges, n),
        sorted_adjacency_of(adj, n, edges),
    ensures
        closed(adj),
{
    assert forall|u: int, i: int| 0 <= u < adj.len() && 0 <= i < adj[u].len() implies (
    #[trigger] adj[u][i]) < adj.len() by {
        let v = adj[u][i];
        lemma_listed_is_edge(adj, n, edges, u as usize, v);
        let k = choose|k: int| 0 <= k < edges.len() && edges[k] == (u as usize, v);
        assert(edges[k].1 < n);
    }
}

/// In the adjacency of an edge list, `v` is listed for `u` exactly when the
/// edge from `u` to `v` is in the list.
pub proof fn lemma_listed_is_edge(
    adj: Seq<Seq<usize>>,
    n: usize,
    edges: Seq<(usize, usize)>,
    u: usize,
    v: usize,
)
    requires
        sorted_adjacency_of(adj, n, edges),
        u < n,
    ensures
        adj[u as int].contains(v) <==> edges.contains((u, v)),
{
    broadcast use vstd::seq_lib::to_multiset_contains;

    lemma_targets_of_contains(edges, u, v);
    assert(adj[u as int].to_multiset().count(v) == targets_of(edges, u).to_multiset().count(v));
}

/// The adjacency of a symmetrized edge list is symmetric.
pub proof fn lemma_symmetrized_is_symmetric(adj: Seq<Seq<usize>>, n: usize, edges: Seq<(usize, usize)>)
    requires
        sorted_adjacency_of(adj, n, symmetrized(edges)),
    ensures
        symmetric(adj),
{
    assert forall|u: usize, v: usize| adjacent(adj, u, v) implies adjacent(adj, v, u) by {
        lemma_listed_is_edge(adj, n, symmetrized(edges), u, v);
        lemma_listed_is_edge(adj, n, symmetrized(edges), v, u);
        lemma_symmetrized_contains(edges, u, v);
        lemma_symmetrized_contains(edges, v, u);
    }
}

/// `v` is among the targets of `u` as often as the edge from `u` to `v` is in
/// the list, and `u` among the sources of `v` as often.
pub proof fn lemma_targets_count(edges: Seq<(usize, usize)>, u: usize, v: usize)
    ensures
        targets_of(edges, u).to_multiset().count(v) == edges.to_multiset().count((u, v)),
        sources_of(edges, v).to_multiset().count(u) == edges.to_multiset().count((u, v)),
    decreases edges.len(),
{
    broadcast use vstd::seq_lib::to_multiset_build;

    if edges.len() == 0 {
        assert(targets_of(edges, u).to_multiset().count(v) == 0) by {
            vstd::seq_lib::to_multiset_len(targets_of(edges, u));
        }
        assert(sources_of(edges, v).to_multiset().count(u) == 0) by {
            vstd::seq_lib::to_multiset_len(sources_of(edges, v));
        }
        assert(edges.to_multiset().count((u, v)) == 0) by {
            vstd::seq_lib::to_multiset_len(edges);
        }
    } else {
        let front = edges.drop_last();
        lemma_targets_count(front, u, v);
        assert(edges == front.push(edges.last()));
        assert(edges.to_multiset() == front.to_multiset().insert(edges.last()));
    }
}

/// In the graph that joins the endpoints of each edge in both directions, a
/// vertex lists a neighbour as often as an edge leads from it to the
/// neighbour or from the neighbour to it; so each of two vertices lists the
/// other equally often.
pub proof fn lemma_joined_counts(
    adj: Seq<Seq<usize>>,
    n: usize,
    edges: Seq<(usize, usize)>,
    u: usize,
    v: usize,
)
    requires
        joined_adjacency_of(adj, n, edges),
        u < n,
        v < n,
    ensures
        adj[u as int].to_multiset().count(v) == edges.to_multiset().count((u, v))
            + edges.to_multiset().count((v, u)),
        adj[u as int].to_multiset().count(v) == adj[v as int].to_multiset().count(u),
{
    lemma_targets_count(edges, u, v);
    lemma_targets_count(edges, v, u);
}

/// The neighbour lists of an edge list are determined by it: two adjacencies
/// that both hold its targets in ascending order are equal.
pub proof fn lemma_sorted_adjacency_unique(
    a: Seq<Seq<usize>>,
    b: Seq<Seq<usize>>,
    n: usize,
    edges: Seq<(usize, usize)>,
)
    requires
        sorted_adjacency_of(a, n, edges),
        sorted_adjacency_of(b, n, edges),
    ensures
        a == b,
{
    assert forall|u: int| 0 <= u < n implies a[u] == b[u] by {
        lemma_ascending_unique(a[u], b[u]);
    }
    assert(a =~= b);
}

/// Joining the endpoints of each edge in both directions is the same as
/// following, from source to target only, each edge of the symmetrized list.
pub proof fn lemma_joined_is_symmetrized(adj: Seq<Seq<usize>>, n: usize, edges: Seq<(usize, usize)>)
    ensures
        joined_adjacency_of(adj, n, edges) <==> sorted_adjacency_of(adj, n, symmetrized(edges)),
{
    if joined_adjacency_of(adj, n, edges) {
        assert forall|u: int| 0 <= u < n implies ascending(#[trigger] adj[u])
            && adj[u].to_multiset() == targets_of(symmetrized(edges), u as usize).to_multiset() by {
            lemma_symmetrized_targets(edges, u as usize);
        }
    }
    if sorted_adjacency_of(adj, n, symmetrized(edges)) {
        assert forall|u: int| 0 <= u < n implies ascending(#[trigger] adj[u])
            && adj[u].to_multiset() == targets_of(edges, u as usize).to_multiset().add(
            sources_of(edges, u as usize).to_multiset(),
        ) by {
            lemma_symmetrized_targets(edges, u as usize);
        }
    }
}

/// The graph that joins the endpoints of each edge of a list in both
/// directions, and the graph that follows each edge of the symmetrized list
/// from its source to its target, have the same neighbour lists.
pub proof fn lemma_symmetrization_round_trip(
    joined: Seq<Seq<usize>>,
    doubled: Seq<Seq<usize>>,
    n: usize,
    edges: Seq<(usize, usize)>,
)
    requires
        joined_adjacency_of(joined, n, edges),
        sorted_adjacency_of(doubled, n, symmetrized(edges)),
    ensures
        joined == doubled,
{
    lemma_joined_is_symmetrized(joined, n, edges);
    lemma_sorted_adjacency_unique(joined, doubled, n, symmetrized(edges));
}

/// Turning every edge of a symmetrized list around changes no neighbour
/// list: symmetrizing leaves nothing for a reversal to add.
pub proof fn lemma_symmetrized_reversal(adj: Seq<Seq<usize>>, n: usize, edges: Seq<(usize, usize)>)
    ensures
        sorted_adjacency_of(adj, n, symmetrized(edges)) <==> sorted_adjacency_of(
            adj,
            n,
            reversed(symmetrized(edges)),
        ),
{
    let both = symmetrized(edges);
    assert forall|u: int| 0 <= u < n implies #[trigger] targets_of(
        reversed(both),
        u as usize,
    ).to_multiset() == targets_of(both, u as usize).to_multiset() by {
        lemma_reversed_exchanges(both, u as usize);
        lemma_symmetrized_targets(edges, u as usize);
    }
    if sorted_adjacency_of(adj, n, both) {
        assert forall|u: int| 0 <= u < n implies ascending(#[trigger] adj[u])
            && adj[u].to_multiset() == targets_of(reversed(both), u as usize).to_multiset() by {
            assert(targets_of(reversed(both), u as usize).to_multiset() == targets_of(
                both,
                u as usize,
            ).to_multiset());
        }
    }
    if sorted_adjacency_of(adj, n, reversed(both)) {
        assert forall|u: int| 0 <= u < n implies ascending(#[trigger] adj[u])
            && adj[u].to_multiset() == targets_of(both, u as usize).to_multiset() by {
            assert(targets_of(reversed(both), u as usize).to_multiset() == targets_of(
                both,
                u as usize,
            ).to_multiset());
        }
    }
}

/// Symmetrizing a list that is symmetrized already changes for no vertex
/// which vertices are its neighbours, and so changes no hop distance; it
/// only lists each neighbour twice as often.
pub proof fn lemma_symmetrization_idempotent(
    once: Seq<Seq<usize>>,
    twice: Seq<Seq<usize>>,
    n: usize,
    edges: Seq<(usize, usize)>,
)
    requires
        joined_adjacency_of(once, n, edges),
        joined_adjacency_of(twice, n, symmetrized(edges)),
    ensures
        same_neighbours(once, twice),
        forall|s: usize, t: usize| #[trigger] hops(once, s, t) == hops(twice, s, t),
{
    lemma_joined_is_symmetrized(once, n, edges);
    lemma_joined_is_symmetrized(twice, n, symmetrized(edges));
    assert forall|u: usize, v: usize| adjacent(once, u, v) == adjacent(twice, u, v) by {
        if u < n && v < n {
            lemma_listed_is_edge(once, n, symmetrized(edges), u, v);
            lemma_listed_is_edge(twice, n, symmetrized(symmetrized(edges)), u, v);
            lemma_symmetrized_contains(symmetrized(edges), u, v);
            lemma_symmetrized_contains(edges, u, v);
            lemma_symmetrized_contains(edges, v, u);
        }
    }
    assert forall|s: usize, t: usize| #[trigger] hops(once, s, t) == hops(twice, s, t) by {
        lemma_distance_by_neighbours(once, twice, s, t);
    }
}

} // verus!
