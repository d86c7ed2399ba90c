use separation::bfs::{
    average_distance, distribution_percentage, filtered_distances, max_distance, mode_distance,
};
use separation::graph::{Graph, ListOfEdges};
use separation::tally::Fraction;

fn sample_graph() -> Graph {
    let n: usize = 5;
    let mut edges: ListOfEdges = vec![(0, 1), (1, 2), (2, 3), (3, 4)];
    edges.sort();
    let graph2 = Graph::undirected(n, &edges);

    graph2
}

fn star_graph() -> Graph {
    let edges: ListOfEdges = vec![(0, 1), (0, 2), (0, 3), (0, 4)];
    Graph::undirected(5, &edges)
}

fn ring_graph() -> Graph {
    let edges: ListOfEdges = vec![(0, 1), (1, 2), (2, 3), (3, 4), (4, 0)];
    Graph::undirected(5, &edges)
}

fn value(fraction: Fraction) -> f64 {
    fraction.numerator as f64 / fraction.denominator as f64
}

#[test]
fn test_average_distance() {
    let graph2 = sample_graph();
    assert_eq!(value(average_distance(&graph2, 1)), 1.0);
}

#[test]
fn test_max_distance() {
    let graph2 = sample_graph();
    assert_eq!(max_distance(&graph2, 2), 2);
}

#[test]
fn test_mode_distance() {
    let graph2 = sample_graph();
    assert_eq!(mode_distance(&graph2, 2), 1);
}

#[test]
fn test_distribution_percentage() {
    let graph2 = sample_graph();
    let expected = 80.0;
    assert_eq!(value(distribution_percentage(&graph2, 4)), expected);
}

#[test]
fn average_is_sum_over_count() {
    let graph = sample_graph();
    // eight ordered pairs one hop apart, six two hops apart
    assert_eq!(average_distance(&graph, 2), Fraction { numerator: 20, denominator: 14 });
    // and four three hops apart, two four hops apart
    assert_eq!(average_distance(&graph, 4), Fraction { numerator: 40, denominator: 20 });
    assert_eq!(average_distance(&graph, 25), Fraction { numerator: 40, denominator: 20 });
}

#[test]
fn coverage_is_hundred_times_valid_over_all_pairs() {
    let graph = sample_graph();
    assert_eq!(distribution_percentage(&graph, 1), Fraction { numerator: 800, denominator: 25 });
    assert_eq!(distribution_percentage(&graph, 2), Fraction { numerator: 1400, denominator: 25 });
    assert_eq!(distribution_percentage(&graph, 4), Fraction { numerator: 2000, denominator: 25 });
    assert_eq!(value(distribution_percentage(&graph, 1)), 32.0);
}

#[test]
fn coverage_never_falls_as_the_cutoff_rises() {
    for graph in [sample_graph(), star_graph(), ring_graph()] {
        let mut before = distribution_percentage(&graph, 0);
        for cutoff in 1..=6u32 {
            let now = distribution_percentage(&graph, cutoff);
            assert_eq!(now.denominator, before.denominator);
            assert!(now.numerator >= before.numerator);
            before = now;
        }
    }
}

#[test]
fn a_cutoff_of_zero_leaves_no_pair() {
    let graph = sample_graph();
    assert_eq!(average_distance(&graph, 0), Fraction { numerator: 0, denominator: 1 });
    assert_eq!(value(average_distance(&graph, 0)), 0.0);
    assert_eq!(max_distance(&graph, 0), 0);
    assert_eq!(mode_distance(&graph, 0), 0);
    assert_eq!(distribution_percentage(&graph, 0), Fraction { numerator: 0, denominator: 25 });
}

#[test]
fn a_graph_without_vertices_has_no_pairs() {
    let graph = Graph::undirected(0, &vec![]);
    assert_eq!(filtered_distances(&graph, 3), Vec::<Vec<Option<u32>>>::new());
    assert_eq!(average_distance(&graph, 3), Fraction { numerator: 0, denominator: 1 });
    assert_eq!(max_distance(&graph, 3), 0);
    assert_eq!(mode_distance(&graph, 3), 0);
    assert_eq!(distribution_percentage(&graph, 3), Fraction { numerator: 0, denominator: 1 });
    assert_eq!(value(distribution_percentage(&graph, 3)), 0.0);
}

#[test]
fn a_graph_without_edges_has_no_valid_pair() {
    let graph = Graph::undirected(3, &vec![]);
    assert_eq!(average_distance(&graph, 5), Fraction { numerator: 0, denominator: 1 });
    assert_eq!(max_distance(&graph, 5), 0);
    assert_eq!(mode_distance(&graph, 5), 0);
    assert_eq!(distribution_percentage(&graph, 5), Fraction { numerator: 0, denominator: 9 });
}

#[test]
fn max_is_capped_by_cutoff_and_by_diameter() {
    let graph = sample_graph();
    assert_eq!(max_distance(&graph, 1), 1);
    assert_eq!(max_distance(&graph, 3), 3);
    assert_eq!(max_distance(&graph, 4), 4);
    assert_eq!(max_distance(&graph, 25), 4);
    assert_eq!(max_distance(&star_graph(), 25), 2);
}

#[test]
fn mode_is_the_most_frequent_distance() {
    // in a star the leaves are two hops from each other: twelve ordered
    // pairs, against eight pairs one hop apart
    let star = star_graph();
    assert_eq!(mode_distance(&star, 1), 1);
    assert_eq!(mode_distance(&star, 2), 2);
    assert_eq!(mode_distance(&star, 9), 2);
}

#[test]
fn mode_prefers_the_smallest_of_equally_frequent_distances() {
    // in a ring of five every vertex has two vertices one hop away and two
    // vertices two hops away
    let ring = ring_graph();
    assert_eq!(mode_distance(&ring, 2), 1);
    assert_eq!(mode_distance(&ring, 7), 1);
}

#[test]
fn an_isolated_vertex_counts_in_the_denominator_only() {
    let edges: ListOfEdges = vec![(0, 1), (1, 2)];
    let graph = Graph::undirected(4, &edges);
    for cutoff in 0..=5u32 {
        let kept = filtered_distances(&graph, cutoff);
        assert_eq!(kept[3], vec![None, None, None, None]);
        for row in kept.iter().take(3) {
            assert_eq!(row[3], None);
        }
        assert_eq!(distribution_percentage(&graph, cutoff).denominator, 16);
    }
    assert_eq!(distribution_percentage(&graph, 2), Fraction { numerator: 600, denominator: 16 });
    assert_eq!(average_distance(&graph, 2), Fraction { numerator: 8, denominator: 6 });
}
