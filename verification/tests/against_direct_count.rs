use separation::bfs::{
    average_distance, distance_matrix, distribution_percentage, max_distance, mode_distance,
};
use separation::graph::{Graph, ListOfEdges};

/// A fixed sequence of edges on `n` vertices, from a linear congruential
/// generator.
fn scattered_edges(n: usize, count: usize, seed: u64) -> ListOfEdges {
    let mut state = seed;
    let mut edges = Vec::new();
    for _ in 0..count {
        state = state.wrapping_mul(6364136223846793005).wrapping_add(1442695040888963407);
        let u = (state >> 33) as usize % n;
        state = state.wrapping_mul(6364136223846793005).wrapping_add(1442695040888963407);
        let v = (state >> 33) as usize % n;
        edges.push((u, v));
    }
    edges
}

/// All shortest hop counts by repeated relaxation over every triple.
fn by_relaxation(n: usize, edges: &ListOfEdges) -> Vec<Vec<Option<u32>>> {
    let mut table = vec![vec![None; n]; n];
    for v in 0..n {
        table[v][v] = Some(0);
    }
    for &(u, v) in edges {
        if u != v {
            table[u][v] = Some(1);
            table[v][u] = Some(1);
        }
    }
    for k in 0..n {
        for i in 0..n {
            for j in 0..n {
                if let (Some(a), Some(b)) = (table[i][k], table[k][j]) {
                    if table[i][j].map_or(true, |c| a + b < c) {
                        table[i][j] = Some(a + b);
                    }
                }
            }
        }
    }
    table
}

#[test]
fn distances_agree_with_relaxation() {
    for (n, count, seed) in [(12, 10, 1), (12, 14, 2), (9, 30, 3), (15, 12, 4), (6, 0, 5)] {
        let edges = scattered_edges(n, count, seed);
        let graph = Graph::undirected(n, &edges);
        assert_eq!(distance_matrix(&graph), by_relaxation(n, &edges));
    }
}

#[test]
fn statistics_agree_with_a_direct_count() {
    for (n, count, seed) in [(12, 10, 1), (12, 14, 2), (9, 30, 3), (15, 12, 4)] {
        let edges = scattered_edges(n, count, seed);
        let graph = Graph::undirected(n, &edges);
        let table = by_relaxation(n, &edges);
        for cutoff in 0..=6u32 {
            let valid: Vec<u32> = table
                .iter()
                .flatten()
                .filter_map(|entry| *entry)
                .filter(|d| *d > 0 && *d <= cutoff)
                .collect();
            let mean = average_distance(&graph, cutoff);
            let share = distribution_percentage(&graph, cutoff);
            assert_eq!(share.numerator, 100 * valid.len() as u128);
            assert_eq!(share.denominator, (n * n) as u128);
            assert_eq!(max_distance(&graph, cutoff), valid.iter().copied().max().unwrap_or(0));
            if valid.is_empty() {
                assert_eq!((mean.numerator, mean.denominator), (0, 1));
                assert_eq!(mode_distance(&graph, cutoff), 0);
            } else {
                assert_eq!(mean.numerator, valid.iter().map(|d| *d as u128).sum::<u128>());
                assert_eq!(mean.denominator, valid.len() as u128);
                let mode = mode_distance(&graph, cutoff);
                let times = |d: u32| valid.iter().filter(|x| **x == d).count();
                assert!(times(mode) > 0);
                for d in 1..=cutoff {
                    assert!(times(d) <= times(mode));
                    if d < mode {
                        assert!(times(d) < times(mode));
                    }
                }
            }
        }
    }
}
