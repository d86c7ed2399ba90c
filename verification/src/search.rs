//! The invariant of a breadth-first search and the steps that keep it.
//!
//! The state of a search is the row of levels assigned so far, the sequence
//! `order` of the vertices in the order in which they were visited, and the
//! number `head` of vertices whose neighbours have all been looked at. The
//! vertices of `order` from `head` on are the ones waiting in the queue.

use vstd::prelude::*;
use crate::walk::{
    adjacent, closed, connected, hops, is_distance, is_walk, lemma_distance_is,
    lemma_walk_extend, lemma_walk_shorten, reachable_in, walk_between,
};

verus! {

/// The level recorded for `v`; meaningful only where one is recorded.
pub(crate) open spec fn level(row: Seq<Option<u32>>, v: usize) -> int {
    row[v as int]->0 as int
}

/// `order` lists, without repetition, exactly the vertices with a level.
pub(crate) open spec fn lists_visited(row: Seq<Option<u32>>, order: Seq<usize>) -> bool {
    &&& order.no_duplicates()
    &&& forall|i: int|
        0 <= i < order.len() ==> (#[trigger] order[i]) < row.len() && row[order[i] as int] is Some
    &&& forall|v: usize| v < row.len() && (#[trigger] row[v as int]) is Some ==> order.contains(v)
}

/// Levels never fall along `order`, no level exceeds the position of its
/// vertex, and no level exceeds that of the vertex at `head` by more than one.
pub(crate) open spec fn levelled(row: Seq<Option<u32>>, order: Seq<usize>, head: int) -> bool {
    &&& forall|i: int| 0 <= i < order.len() ==> level(row, #[trigger] order[i]) <= i
    &&& forall|i: int, j: int|
        0 <= i <= j < order.len() ==> level(row, #[trigger] order[i]) <= level(
            row,
            #[trigger] order[j],
        )
    &&& head < order.len() ==> forall|i: int|
        0 <= i < order.len() ==> level(row, #[trigger] order[i]) <= level(row, order[head]) + 1
}

/// Each recorded level is the length of some walk from `start`.
pub(crate) open spec fn witnessed(adj: Seq<Seq<usize>>, start: usize, row: Seq<Option<u32>>) -> bool {
    forall|v: usize|
        v < row.len() && (#[trigger] row[v as int]) is Some ==> reachable_in(
            adj,
            start,
            v,
            level(row, v) as nat,
        )
}

/// Every neighbour of `u` has a level, at most one above that of `u`.
pub(crate) open spec fn relaxed(adj: Seq<Seq<usize>>, row: Seq<Option<u32>>, u: usize) -> bool {
    forall|w: usize| #[trigger]
        adjacent(adj, u, w) ==> row[w as int] is Some && level(row, w) <= level(row, u) + 1
}

/// What holds of a search from `start` between any two of its steps.
pub(crate) open spec fn search_inv(
    adj: Seq<Seq<usize>>,
    start: usize,
    row: Seq<Option<u32>>,
    order: Seq<usize>,
    head: int,
) -> bool {
    &&& closed(adj)
    &&& adj.len() <= 0x1_0000_0000
    &&& row.len() == adj.len()
    &&& start < adj.len()
    &&& 0 <= head <= order.len()
    &&& order.len() >= 1
    &&& order[0] == start
    &&& row[start as int] == Some(0u32)
    &&& lists_visited(row, order)
    &&& levelled(row, order, head)
    &&& witnessed(adj, start, row)
    &&& forall|i: int| 0 <= i < head ==> relaxed(adj, row, #[trigger] order[i])
}

/// A sequence of distinct numbers below `n` has at most `n` elements.
pub(crate) proof fn lemma_distinct_below(s: Seq<usize>, n: nat)
    requires
        s.no_duplicates(),
        forall|i: int| 0 <= i < s.len() ==> (#[trigger] s[i]) < n,
    ensures
        s.len() <= n,
    decreases n,
{
    if s.len() == 0 {
    } else if n == 0 {
        assert(s[0] < n);
    } else if exists|i: int| 0 <= i < s.len() && s[i] == n - 1 {
        // without its one occurrence of `n - 1` the sequence is below `n - 1`
        let i = choose|i: int| 0 <= i < s.len() && s[i] == n - 1;
        let rest = s.remove(i);
        assert forall|k: int| 0 <= k < rest.len() implies (#[trigger] rest[k]) < n - 1 by {
            let k0 = if k < i { k } else { k + 1 };
            assert(rest[k] == s[k0]);
        }
        assert forall|a: int, b: int|
            0 <= a < rest.len() && 0 <= b < rest.len() && a != b implies rest[a] != rest[b] by {
            let a0 = if a < i { a } else { a + 1 };
            let b0 = if b < i { b } else { b + 1 };
            assert(rest[a] == s[a0] && rest[b] == s[b0]);
        }
        lemma_distinct_below(rest, (n - 1) as nat);
    } else {
        assert forall|k: int| 0 <= k < s.len() implies (#[trigger] s[k]) < n - 1 by {
            assert(s[k] < n);
        }
        lemma_distinct_below(s, (n - 1) as nat);
    }
}

/// The state in which only `start` has been visited is a state of the
/// search.
pub(crate) proof fn lemma_search_start(adj: Seq<Seq<usize>>, start: usize, row: Seq<Option<u32>>)
    requires
        closed(adj),
        adj.len() <= 0x1_0000_0000,
        start < adj.len(),
        row.len() == adj.len(),
        forall|v: int| 0 <= v < row.len() ==> (#[trigger] row[v]) == (if v == start {
            Some(0u32)
        } else {
            None
        }),
    ensures
        search_inv(adj, start, row, seq![start], 0),
{
    let order = seq![start];
    assert(order[0] == start);
    assert(lists_visited(row, order));
    assert(walk_between(adj, seq![start], start, start));
}

/// Visiting an unvisited neighbour `w` of the vertex at `head`, one level
/// above it, keeps the search in a state of the search; and the new level is
/// below the number of vertices.
pub(crate) proof fn lemma_search_visit(
    adj: Seq<Seq<usize>>,
    start: usize,
    row: Seq<Option<u32>>,
    order: Seq<usize>,
    head: int,
    w: usize,
)
    requires
        search_inv(adj, start, row, order, head),
        head < order.len(),
        adjacent(adj, order[head], w),
        row[w as int] is None,
    ensures
        level(row, order[head]) + 1 < adj.len(),
        search_inv(
            adj,
            start,
            row.update(w as int, Some((level(row, order[head]) + 1) as u32)),
            order.push(w),
            head,
        ),
{
    let x = order[head];
    let up = level(row, x) + 1;
    let row2 = row.update(w as int, Some(up as u32));
    let order2 = order.push(w);
    // `w` is new to `order`, so `order2` is one of distinct vertices and no
    // longer than there are vertices; the level of `x` is at most `head`
    assert(!order.contains(w)) by {
        if order.contains(w) {
            let i = choose|i: int| 0 <= i < order.len() && order[i] == w;
            assert(row[order[i] as int] is Some);
        }
    }
    assert forall|i: int| 0 <= i < order2.len() implies (#[trigger] order2[i]) < adj.len() by {
        if i < order.len() {
            assert(order2[i] == order[i]);
        }
    }
    lemma_distinct_below(order2, adj.len());
    assert(up <= head + 1 <= order.len() < adj.len());
    // the vertices visited before keep their levels
    assert forall|i: int| 0 <= i < order.len() implies order2[i] == #[trigger] order[i] && level(
        row2,
        order[i],
    ) == level(row, order[i]) && row2[order[i] as int] is Some by {}
    assert(lists_visited(row2, order2)) by {
        assert forall|v: usize| v < row2.len() && (#[trigger] row2[v as int]) is Some implies order2.contains(
            v,
        ) by {
            if v == w {
                assert(order2[order.len() as int] == w);
            } else {
                let i = choose|i: int| 0 <= i < order.len() && order[i] == v;
                assert(order2[i] == v);
            }
        }
    }
    assert(levelled(row2, order2, head));
    assert(witnessed(adj, start, row2)) by {
        // a walk to `x`, one step longer, is a walk to `w`
        let p = choose|p: Seq<usize>| #[trigger]
            walk_between(adj, p, start, x) && p.len() == level(row, x) as nat + 1;
        lemma_walk_extend(adj, p, w);
        assert(walk_between(adj, p.push(w), start, w));
    }
    assert forall|i: int| 0 <= i < head implies relaxed(adj, row2, #[trigger] order2[i]) by {
        assert(relaxed(adj, row, order[i]));
    }
}

/// A neighbour of the vertex at `head` that already has a level is at most
/// one level above it.
pub(crate) proof fn lemma_search_seen(
    adj: Seq<Seq<usize>>,
    start: usize,
    row: Seq<Option<u32>>,
    order: Seq<usize>,
    head: int,
    w: usize,
)
    requires
        search_inv(adj, start, row, order, head),
        head < order.len(),
        w < row.len(),
        row[w as int] is Some,
    ensures
        level(row, w) <= level(row, order[head]) + 1,
{
    assert(order.contains(w));
    let i = choose|i: int| 0 <= i < order.len() && order[i] == w;
    assert(level(row, order[i]) <= level(row, order[head]) + 1);
}

/// Once every neighbour of the vertex at `head` has been looked at, the
/// search moves on to the next vertex.
pub(crate) proof fn lemma_search_advance(
    adj: Seq<Seq<usize>>,
    start: usize,
    row: Seq<Option<u32>>,
    order: Seq<usize>,
    head: int,
)
    requires
        search_inv(adj, start, row, order, head),
        head < order.len(),
        relaxed(adj, row, order[head]),
    ensures
        search_inv(adj, start, row, order, head + 1),
{
    if head + 1 < order.len() {
        assert(level(row, order[head]) <= level(row, order[head + 1]));
    }
}

/// When no vertex is waiting, the end of every walk from `start` has a
/// level, which is at most the number of steps of the walk.
pub(crate) proof fn lemma_search_bounds(
    adj: Seq<Seq<usize>>,
    start: usize,
    row: Seq<Option<u32>>,
    order: Seq<usize>,
    p: Seq<usize>,
)
    requires
        search_inv(adj, start, row, order, order.len() as int),
        is_walk(adj, p),
        p.first() == start,
    ensures
        p.last() < row.len(),
        row[p.last() as int] is Some,
        level(row, p.last()) <= p.len() - 1,
    decreases p.len(),
{
    if p.len() >= 2 {
        // the walk reaches its last vertex from a vertex whose neighbours
        // have all been looked at
        lemma_walk_shorten(adj, p);
        let q = p.drop_last();
        lemma_search_bounds(adj, start, row, order, q);
        let u = q.last();
        assert(order.contains(u));
        let i = choose|i: int| 0 <= i < order.len() && order[i] == u;
        assert(relaxed(adj, row, order[i]));
    }
}

/// When no vertex is waiting, the levels are the hop distances from `start`,
/// and each is below the number of vertices.
pub(crate) proof fn lemma_search_done(
    adj: Seq<Seq<usize>>,
    start: usize,
    row: Seq<Option<u32>>,
    order: Seq<usize>,
    t: usize,
)
    requires
        search_inv(adj, start, row, order, order.len() as int),
        t < adj.len(),
    ensures
        row[t as int] == hops(adj, start, t),
        match row[t as int] {
            Some(d) => is_distance(adj, start, t, d as nat) && d < adj.len(),
            None => !connected(adj, start, t),
        },
{
    assert forall|k: nat| #[trigger] reachable_in(adj, start, t, k) implies row[t as int] is Some
        && level(row, t) <= k by {
        let p = choose|p: Seq<usize>| #[trigger] walk_between(adj, p, start, t) && p.len() == k + 1;
        lemma_search_bounds(adj, start, row, order, p);
    }
    match row[t as int] {
        Some(d) => {
            assert(is_distance(adj, start, t, d as nat));
            lemma_distance_is(adj, start, t, d as nat);
            // the level is at most the position in `order`, which is
            // shorter than there are vertices
            assert(order.contains(t));
            let i = choose|i: int| 0 <= i < order.len() && order[i] == t;
            assert(level(row, order[i]) <= i);
            assert forall|k: int| 0 <= k < order.len() implies (#[trigger] order[k]) < adj.len() by {}
            lemma_distinct_below(order, adj.len());
        },
        None => {
            assert(!connected(adj, start, t));
        },
    }
}

} // verus!
