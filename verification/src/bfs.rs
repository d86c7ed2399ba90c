//! Breadth-first search and the statistics of hop distances.

use std::collections::VecDeque;
use vstd::prelude::*;
use crate::graph::{Graph, Vertex, MAX_VERTICES};
use crate::search::{
    lemma_distinct_below, lemma_search_advance, lemma_search_done, lemma_search_seen,
    lemma_search_start, lemma_search_visit, level, relaxed, search_inv,
};
use crate::tally::{
    count_present, coverage_of, each, equal_to, filtered, is_max_of, is_mode_of, keep,
    lemma_entries, lemma_row_entries, lemma_row_total_positive, lemma_row_total_step,
    lemma_total_covers, lemma_total_positive, lemma_total_step, length, matrix_view, mean_of,
    occurrences, present, row_total, square, total, Fraction,
};
use crate::walk::{
    adjacent, connected, distance_row, distance_table, hops, is_distance, lemma_distance_symmetric,
    lemma_distance_to_self, lemma_isolated_unreached, symmetric,
};

verus! {

/// The hop distances from `start` to every vertex of `graph`, found by a
/// breadth-first search: `Some(d)` where a shortest walk from `start` has `d`
/// steps, `None` where no walk leads there.
pub fn bfs_distance(start: Vertex, graph: &Graph) -> (distance: Vec<Option<u32>>)
    requires
        graph.wf(),
        start < graph.n,
        graph.n <= MAX_VERTICES,
    ensures
        distance@ == distance_row(graph.adjacency(), start),
        distance.len() == graph.n,
        distance[start as int] == Some(0u32),
        forall|t: usize|
            t < graph.n ==> match #[trigger] distance[t as int] {
                Some(d) => is_distance(graph.adjacency(), start, t, d as nat) && d < graph.n,
                None => !connected(graph.adjacency(), start, t),
            },
{
    let n = graph.n;
    let ghost adj = graph.adjacency();
    let mut distance: Vec<Option<u32>> = Vec::new();
    let mut k: usize = 0;
    while k < n
        invariant
            k <= n,
            distance.len() == k,
            forall|v: int| 0 <= v < k ==> (#[trigger] distance[v]) is None,
        decreases n - k,
    {
        distance.push(None);
        k += 1;
    }
    distance.set(start, Some(0));
    let mut queue: VecDeque<Vertex> = VecDeque::new();
    queue.push_back(start);
    // the vertices in the order of their visit; those before `head` have left
    // the queue, the others are the queue
    let ghost mut order: Seq<Vertex> = seq![start];
    let ghost mut head: int = 0;
    proof {
        lemma_search_start(adj, start, distance@);
    }
    while queue.len() > 0
        invariant
            graph.wf(),
            adj == graph.adjacency(),
            n == graph.n,
            search_inv(adj, start, distance@, order, head),
            queue@ == order.subrange(head, order.len() as int),
        decreases n - head,
    {
        let v = queue.pop_front().unwrap();
        let neighbours = &graph.outedges[v];
        let reached = distance[v].unwrap();
        let mut j: usize = 0;
        while j < neighbours.len()
            invariant
                graph.wf(),
                adj == graph.adjacency(),
                n == graph.n,
                search_inv(adj, start, distance@, order, head),
                head < order.len(),
                v == order[head],
                v < n,
                neighbours@ == adj[v as int],
                distance[v as int] == Some(reached),
                queue@ == order.subrange(head + 1, order.len() as int),
                j <= neighbours.len(),
                forall|i: int|
                    0 <= i < j ==> distance[(#[trigger] neighbours[i]) as int] is Some && level(
                        distance@,
                        neighbours[i],
                    ) <= reached + 1,
            decreases neighbours.len() - j,
        {
            let u = neighbours[j];
            if distance[u].is_none() {
                proof {
                    lemma_search_visit(adj, start, distance@, order, head, u);
                    order = order.push(u);
                }
                distance.set(u, Some(reached + 1));
                queue.push_back(u);
            } else {
                proof {
                    lemma_search_seen(adj, start, distance@, order, head, u);
                }
            }
            j += 1;
        }
        proof {
            assert(relaxed(adj, distance@, v)) by {
                assert forall|w: usize| #[trigger] adjacent(adj, v, w) implies distance[w as int] is Some
                    && level(distance@, w) <= level(distance@, v) + 1 by {
                    let i = choose|i: int| 0 <= i < neighbours.len() && neighbours[i] == w;
                    assert(distance[neighbours[i] as int] is Some);
                }
            }
            lemma_search_advance(adj, start, distance@, order, head);
            head = head + 1;
            assert forall|i: int| 0 <= i < order.len() implies (#[trigger] order[i]) < n by {}
            lemma_distinct_below(order, n as nat);
        }
    }
    proof {
        assert forall|t: usize| t < n implies (#[trigger] distance[t as int]) == hops(adj, start, t)
            && match distance[t as int] {
            Some(d) => is_distance(adj, start, t, d as nat) && d < n,
            None => !connected(adj, start, t),
        } by {
            lemma_search_done(adj, start, distance@, order, t);
        }
    }
    distance
}

/// The hop distances between all pairs of vertices of `graph`: row `s` is
/// what a breadth-first search from `s` finds.
pub fn distance_matrix(graph: &Graph) -> (distances: Vec<Vec<Option<u32>>>)
    requires
        graph.wf(),
        graph.n <= MAX_VERTICES,
    ensures
        matrix_view(distances) == distance_table(graph.adjacency()),
        square(matrix_view(distances), graph.n as nat),
        forall|s: int, t: int|
            0 <= s < graph.n && 0 <= t < graph.n && (#[trigger] distances[s][t]) is Some
                ==> distances[s][t]->0 < graph.n,
{
    let mut distances: Vec<Vec<Option<u32>>> = Vec::new();
    let mut i: usize = 0;
    while i < graph.n
        invariant
            graph.wf(),
            graph.n <= MAX_VERTICES,
            i <= graph.n,
            distances.len() == i,
            forall|s: int|
                0 <= s < i ==> (#[trigger] distances[s])@ == distance_row(
                    graph.adjacency(),
                    s as usize,
                ),
            forall|s: int, t: int|
                0 <= s < i && 0 <= t < graph.n && (#[trigger] distances[s][t]) is Some
                    ==> distances[s][t]->0 < graph.n,
        decreases graph.n - i,
    {
        let distances_from_i = bfs_distance(i, graph);
        distances.push(distances_from_i);
        i += 1;
    }
    distances
}

/// Applies the cutoff `degree` to every entry of `distance`: a distance of at
/// least one hop and at most `degree` hops stays, every other entry becomes
/// `None`.
pub fn separation_degree(distance: Vec<Vec<Option<u32>>>, degree: u32) -> (kept: Vec<
    Vec<Option<u32>>,
>)
    ensures
        matrix_view(kept) == filtered(matrix_view(distance), degree),
        kept.len() == distance.len(),
        forall|i: int| 0 <= i < kept.len() ==> (#[trigger] kept[i]).len() == distance[i].len(),
        forall|i: int, j: int|
            0 <= i < kept.len() && 0 <= j < kept[i].len() && (#[trigger] kept[i][j]) is Some ==> 0
                < kept[i][j]->0 <= degree && kept[i][j] == distance[i][j],
{
    let mut kept: Vec<Vec<Option<u32>>> = Vec::new();
    let mut i: usize = 0;
    while i < distance.len()
        invariant
            i <= distance.len(),
            kept.len() == i,
            forall|a: int| 0 <= a < i ==> (#[trigger] kept[a]).len() == distance[a].len(),
            forall|a: int, b: int|
                0 <= a < i && 0 <= b < distance[a].len() ==> (#[trigger] kept[a][b]) == keep(
                    distance[a][b],
                    degree,
                ),
        decreases distance.len() - i,
    {
        let row = &distance[i];
        let mut kept_row: Vec<Option<u32>> = Vec::new();
        let mut j: usize = 0;
        while j < row.len()
            invariant
                j <= row.len(),
                kept_row.len() == j,
                forall|b: int| 0 <= b < j ==> (#[trigger] kept_row[b]) == keep(row[b], degree),
            decreases row.len() - j,
        {
            let entry = match row[j] {
                Some(val) => if val <= degree && val > 0 {
                    Some(val)
                } else {
                    None
                },
                None => None,
            };
            kept_row.push(entry);
            j += 1;
        }
        kept.push(kept_row);
        i += 1;
    }
    proof {
        let a = matrix_view(kept);
        let b = filtered(matrix_view(distance), degree);
        assert forall|r: int| 0 <= r < a.len() implies a[r] == b[r] by {
            assert(a[r] =~= b[r]);
        }
    }
    kept
}

/// The hop distances between all pairs of vertices of `graph` with the cutoff
/// `degree` applied: entry `(s, t)` is `Some(d)` where the hop distance `d`
/// from `s` to `t` is at least one and at most `degree`, and `None`
/// otherwise.
pub fn filtered_distances(graph: &Graph, degree: u32) -> (kept: Vec<Vec<Option<u32>>>)
    requires
        graph.wf(),
        graph.n <= MAX_VERTICES,
    ensures
        matrix_view(kept) == filtered(distance_table(graph.adjacency()), degree),
        square(matrix_view(kept), graph.n as nat),
        forall|s: int, t: int|
            0 <= s < graph.n && 0 <= t < graph.n && (#[trigger] kept[s][t]) is Some ==> 0
                < kept[s][t]->0 <= degree && kept[s][t]->0 < graph.n,
{
    let distances = distance_matrix(graph);
    let kept = separation_degree(distances, degree);
    proof {
        assert forall|s: int| 0 <= s < graph.n implies (#[trigger] kept[s]).len() == graph.n by {
            assert(matrix_view(distances)[s].len() == graph.n);
        }
        assert forall|s: int, t: int|
            0 <= s < graph.n && 0 <= t < graph.n && (#[trigger] kept[s][t]) is Some implies 0
            < kept[s][t]->0 <= degree && kept[s][t]->0 < graph.n by {
            assert(kept[s].len() == graph.n);
        }
    }
    kept
}

/// The mean of the hop distances between the pairs of vertices of `graph`
/// that are at least one and at most `degree` hops apart, as the fraction of
/// their sum and their number; zero over one where there is no such pair.
pub fn average_distance(graph: &Graph, degree: u32) -> (mean: Fraction)
    requires
        graph.wf(),
        graph.n <= MAX_VERTICES,
    ensures
        mean@ == mean_of(filtered(distance_table(graph.adjacency()), degree)),
{
    let filtered_distances = filtered_distances(graph, degree);
    let ghost m = matrix_view(filtered_distances);
    let mut sum: u128 = 0;
    let mut count: u128 = 0;
    let mut i: usize = 0;
    while i < filtered_distances.len()
        invariant
            m == matrix_view(filtered_distances),
            square(m, graph.n as nat),
            graph.n <= MAX_VERTICES,
            i <= filtered_distances.len(),
            count == total(m.take(i as int), present()),
            sum == total(m.take(i as int), length()),
            count <= i * 0x1_0000_0000,
            sum <= i * 0x1_0000_0000 * 0x1_0000_0000,
        decreases filtered_distances.len() - i,
    {
        let distances = &filtered_distances[i];
        let ghost row = m[i as int];
        let ghost count_before = count;
        let ghost sum_before = sum;
        let mut j: usize = 0;
        while j < distances.len()
            invariant
                row == distances@,
                row.len() <= 0x1_0000_0000,
                j <= distances.len(),
                count == count_before + row_total(row.take(j as int), present()),
                sum == sum_before + row_total(row.take(j as int), length()),
                count_before <= i * 0x1_0000_0000,
                sum_before <= i * 0x1_0000_0000 * 0x1_0000_0000,
                i < 0x1_0000_0000,
                count <= i * 0x1_0000_0000 + j,
                sum <= (i * 0x1_0000_0000 + j) * 0x1_0000_0000,
            decreases distances.len() - j,
        {
            proof {
                lemma_row_total_step(row, present(), j as int);
                lemma_row_total_step(row, length(), j as int);
            }
            if let Some(val) = distances[j] {
                sum += val as u128;
                count += 1;
            }
            j += 1;
        }
        proof {
            assert(row.take(row.len() as int) == row);
            lemma_total_step(m, present(), i as int);
            lemma_total_step(m, length(), i as int);
        }
        i += 1;
    }
    proof {
        assert(m.take(m.len() as int) == m);
    }
    if count > 0 {
        Fraction { numerator: sum, denominator: count }
    } else {
        Fraction { numerator: 0, denominator: 1 }
    }
}

/// The largest hop distance between two vertices of `graph` that are at
/// least one and at most `degree` hops apart; zero where there is no such
/// pair.
pub fn max_distance(graph: &Graph, degree: u32) -> (max: u32)
    requires
        graph.wf(),
        graph.n <= MAX_VERTICES,
    ensures
        is_max_of(filtered(distance_table(graph.adjacency()), degree), max),
{
    let filtered_distances = filtered_distances(graph, degree);
    let ghost m = matrix_view(filtered_distances);
    let mut max: u32 = 0;
    let mut i: usize = 0;
    while i < filtered_distances.len()
        invariant
            m == matrix_view(filtered_distances),
            i <= filtered_distances.len(),
            forall|a: int, b: int|
                0 <= a < i && 0 <= b < m[a].len() && (#[trigger] m[a][b]) is Some ==> m[a][b]->0
                    <= max,
            max == 0 || exists|a: int, b: int|
                0 <= a < m.len() && 0 <= b < m[a].len() && #[trigger] m[a][b] == Some(max),
        decreases filtered_distances.len() - i,
    {
        let distances = &filtered_distances[i];
        let mut j: usize = 0;
        while j < distances.len()
            invariant
                m == matrix_view(filtered_distances),
                i < filtered_distances.len(),
                distances@ == m[i as int],
                j <= distances.len(),
                forall|a: int, b: int|
                    0 <= a < i && 0 <= b < m[a].len() && (#[trigger] m[a][b]) is Some
                        ==> m[a][b]->0 <= max,
                forall|b: int| 0 <= b < j && (#[trigger] distances[b]) is Some ==> distances[b]->0 <= max,
                max == 0 || exists|a: int, b: int|
                    0 <= a < m.len() && 0 <= b < m[a].len() && #[trigger] m[a][b] == Some(max),
            decreases distances.len() - j,
        {
            if let Some(val) = distances[j] {
                if val > max {
                    max = val;
                    proof {
                        assert(m[i as int][j as int] == Some(max));
                    }
                }
            }
            j += 1;
        }
        i += 1;
    }
    max
}

/// The hop distance that occurs most often among the pairs of vertices of
/// `graph` that are at least one and at most `degree` hops apart. Where
/// several distances occur equally often, the smallest of them is returned;
/// where there is no such pair, zero is returned, which is no distance of
/// any such pair.
pub fn mode_distance(graph: &Graph, degree: u32) -> (mode: u32)
    requires
        graph.wf(),
        graph.n <= MAX_VERTICES,
    ensures
        is_mode_of(filtered(distance_table(graph.adjacency()), degree), mode),
{
    let filtered_distances = filtered_distances(graph, degree);
    let ghost m = matrix_view(filtered_distances);
    let n = graph.n;
    let mut dist_frequency: Vec<u128> = Vec::new();
    let mut k: usize = 0;
    while k < n
        invariant
            k <= n,
            dist_frequency.len() == k,
            forall|d: int| 0 <= d < k ==> (#[trigger] dist_frequency[d]) == 0,
        decreases n - k,
    {
        dist_frequency.push(0);
        k += 1;
    }
    let mut i: usize = 0;
    while i < filtered_distances.len()
        invariant
            m == matrix_view(filtered_distances),
            square(m, n as nat),
            n <= MAX_VERTICES,
            forall|s: int, t: int|
                0 <= s < n && 0 <= t < n && (#[trigger] filtered_distances[s][t]) is Some
                    ==> filtered_distances[s][t]->0 < n,
            i <= filtered_distances.len(),
            dist_frequency.len() == n,
            forall|e: u32|
                e < n ==> dist_frequency[e as int] == total(m.take(i as int), #[trigger] equal_to(e)),
            forall|d: int| 0 <= d < n ==> (#[trigger] dist_frequency[d]) <= i * 0x1_0000_0000,
        decreases filtered_distances.len() - i,
    {
        let distances = &filtered_distances[i];
        let ghost row = m[i as int];
        let ghost before = dist_frequency@;
        let mut j: usize = 0;
        while j < distances.len()
            invariant
                row == distances@,
                row.len() == n,
                n <= MAX_VERTICES,
                i < n,
                forall|t: int| 0 <= t < n && (#[trigger] row[t]) is Some ==> row[t]->0 < n,
                j <= distances.len(),
                dist_frequency.len() == n,
                before.len() == n,
                forall|d: int| 0 <= d < n ==> (#[trigger] before[d]) <= i * 0x1_0000_0000,
                forall|e: u32|
                    e < n ==> dist_frequency[e as int] == before[e as int] + row_total(
                        row.take(j as int),
                        #[trigger] equal_to(e),
                    ),
                forall|d: int| 0 <= d < n ==> (#[trigger] dist_frequency[d]) <= i * 0x1_0000_0000 + j,
            decreases distances.len() - j,
        {
            proof {
                assert forall|e: u32| e < n implies row_total(row.take(j + 1), #[trigger] equal_to(e))
                    == row_total(row.take(j as int), equal_to(e)) + equal_to(e)(row[j as int]) by {
                    lemma_row_total_step(row, equal_to(e), j as int);
                }
            }
            if let Some(val) = distances[j] {
                let slot = val as usize;
                let seen = dist_frequency[slot];
                dist_frequency.set(slot, seen + 1);
            }
            j += 1;
        }
        proof {
            assert(row.take(row.len() as int) == row);
            assert forall|e: u32| e < n implies dist_frequency[e as int] == total(
                m.take(i + 1),
                #[trigger] equal_to(e),
            ) by {
                lemma_total_step(m, equal_to(e), i as int);
            }
        }
        i += 1;
    }
    proof {
        assert(m.take(m.len() as int) == m);
    }
    let mut mode: usize = 0;
    let mut most: u128 = 0;
    let mut d: usize = 0;
    while d < n
        invariant
            d <= n,
            dist_frequency.len() == n,
            forall|e: int| 0 <= e < d ==> (#[trigger] dist_frequency[e]) <= most,
            most == 0 ==> mode == 0,
            most > 0 ==> mode < d && dist_frequency[mode as int] == most && forall|e: int|
                0 <= e < mode ==> (#[trigger] dist_frequency[e]) < most,
        decreases n - d,
    {
        if dist_frequency[d] > most {
            mode = d;
            most = dist_frequency[d];
        }
        d += 1;
    }
    proof {
        // every distance is below `n`, and the table counts each of those
        assert forall|e: u32| e >= n implies occurrences(m, e) == 0 by {
            if occurrences(m, e) > 0 {
                let at = lemma_total_positive(m, equal_to(e));
                assert(filtered_distances[at.0][at.1] == Some(e));
            }
        }
        assert forall|e: u32| e < n implies occurrences(m, e) == dist_frequency[e as int] by {
            assert(dist_frequency[e as int] == total(m, equal_to(e)));
        }
        // where there is a distance at all, its count in the table is not zero
        if count_present(m) > 0 {
            let at = lemma_total_positive(m, present());
            let e = m[at.0][at.1]->0;
            assert(filtered_distances[at.0][at.1] == Some(e));
            lemma_total_covers(m, equal_to(e), at.0, at.1);
            assert(occurrences(m, e) > 0);
            assert(dist_frequency[e as int] > 0);
        }
        if most > 0 {
            assert(occurrences(m, mode as u32) > 0);
            let at = lemma_total_positive(m, equal_to(mode as u32));
            lemma_total_covers(m, present(), at.0, at.1);
        }
    }
    mode as u32
}

/// The percentage of the ordered pairs of vertices of `graph`, each vertex
/// paired with itself included, that are at least one and at most `degree`
/// hops apart: the fraction of a hundred times their number and the number
/// of all pairs; zero over one where the graph has no vertex.
pub fn distribution_percentage(graph: &Graph, degree: u32) -> (share: Fraction)
    requires
        graph.wf(),
        graph.n <= MAX_VERTICES,
    ensures
        share@ == coverage_of(filtered(distance_table(graph.adjacency()), degree)),
        graph.n > 0 ==> share.denominator == graph.n * graph.n,
{
    let filtered_distances = filtered_distances(graph, degree);
    let ghost m = matrix_view(filtered_distances);
    let mut pairs: u128 = 0;
    let mut valid: u128 = 0;
    let mut i: usize = 0;
    while i < filtered_distances.len()
        invariant
            m == matrix_view(filtered_distances),
            square(m, graph.n as nat),
            graph.n <= MAX_VERTICES,
            i <= filtered_distances.len(),
            pairs == total(m.take(i as int), each()),
            valid == total(m.take(i as int), present()),
            pairs <= i * 0x1_0000_0000,
            valid <= pairs,
        decreases filtered_distances.len() - i,
    {
        let distances = &filtered_distances[i];
        let ghost row = m[i as int];
        let ghost pairs_before = pairs;
        let ghost valid_before = valid;
        let mut j: usize = 0;
        while j < distances.len()
            invariant
                row == distances@,
                row.len() <= 0x1_0000_0000,
                j <= distances.len(),
                pairs == pairs_before + row_total(row.take(j as int), each()),
                valid == valid_before + row_total(row.take(j as int), present()),
                pairs_before <= i * 0x1_0000_0000,
                i < 0x1_0000_0000,
                pairs <= i * 0x1_0000_0000 + j,
                valid <= pairs,
            decreases distances.len() - j,
        {
            proof {
                lemma_row_total_step(row, each(), j as int);
                lemma_row_total_step(row, present(), j as int);
            }
            pairs += 1;
            if let Some(_val) = distances[j] {
                valid += 1;
            }
            j += 1;
        }
        proof {
            assert(row.take(row.len() as int) == row);
            lemma_total_step(m, each(), i as int);
            lemma_total_step(m, present(), i as int);
        }
        i += 1;
    }
    proof {
        assert(m.take(m.len() as int) == m);
        lemma_entries(m, graph.n as nat);
    }
    if pairs > 0 {
        Fraction { numerator: 100 * valid, denominator: pairs }
    } else {
        Fraction { numerator: 0, denominator: 1 }
    }
}

/// In a graph in which every edge runs both ways, the hop distance from `u`
/// to `v` is the hop distance from `v` to `u`, and every vertex is zero hops
/// from itself.
pub proof fn lemma_distances_symmetric(graph: Graph, u: Vertex, v: Vertex)
    requires
        graph.wf(),
        symmetric(graph.adjacency()),
        u < graph.n,
        v < graph.n,
    ensures
        distance_table(graph.adjacency())[u as int][v as int] == distance_table(
            graph.adjacency(),
        )[v as int][u as int],
        distance_table(graph.adjacency())[v as int][v as int] == Some(0u32),
{
    lemma_distance_symmetric(graph.adjacency(), u, v);
    lemma_distance_to_self(graph.adjacency(), v);
}

/// From a vertex without neighbours no other vertex is reached, whatever the
/// cutoff: its row has an entry for each vertex of the graph, the vertex
/// itself and every other one, and holds no distance, so that it adds to the
/// number of all pairs and nothing to the number of valid pairs.
pub proof fn lemma_isolated_row(graph: Graph, v: Vertex, degree: u32)
    requires
        graph.wf(),
        v < graph.n,
        graph.adjacency()[v as int].len() == 0,
    ensures
        forall|t: int|
            0 <= t < graph.n && t != v ==> (#[trigger] distance_table(
                graph.adjacency(),
            )[v as int][t]) is None,
        filtered(distance_table(graph.adjacency()), degree)[v as int].len() == graph.n,
        forall|t: int|
            0 <= t < graph.n ==> (#[trigger] filtered(
                distance_table(graph.adjacency()),
                degree,
            )[v as int][t]) is None,
        row_total(filtered(distance_table(graph.adjacency()), degree)[v as int], present()) == 0,
        row_total(filtered(distance_table(graph.adjacency()), degree)[v as int], each())
            == graph.n,
{
    let adj = graph.adjacency();
    let row = filtered(distance_table(adj), degree)[v as int];
    assert forall|t: int| 0 <= t < graph.n && t != v implies (#[trigger] distance_table(
        adj,
    )[v as int][t]) is None by {
        lemma_isolated_unreached(adj, v, t as usize);
    }
    lemma_distance_to_self(adj, v);
    assert forall|t: int| 0 <= t < graph.n implies (#[trigger] row[t]) is None by {
        if t != v {
            assert(distance_table(adj)[v as int][t] is None);
        }
    }
    if row_total(row, present()) > 0 {
        let t = lemma_row_total_positive(row, present());
        assert(row[t] is None);
    }
    lemma_row_entries(row);
}

} // verus!
