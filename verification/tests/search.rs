use separation::bfs::{bfs_distance, distance_matrix, filtered_distances, separation_degree};
use separation::graph::{Graph, ListOfEdges};

fn path_graph() -> Graph {
    let edges: ListOfEdges = vec![(0, 1), (1, 2), (2, 3), (3, 4)];
    Graph::undirected(5, &edges)
}

#[test]
fn distances_along_a_path() {
    let graph = path_graph();
    assert_eq!(bfs_distance(0, &graph), vec![Some(0), Some(1), Some(2), Some(3), Some(4)]);
    assert_eq!(bfs_distance(2, &graph), vec![Some(2), Some(1), Some(0), Some(1), Some(2)]);
    assert_eq!(bfs_distance(4, &graph), vec![Some(4), Some(3), Some(2), Some(1), Some(0)]);
}

#[test]
fn the_shorter_of_two_ways_counts() {
    // 0-1-2-3 and the shortcut 0-3
    let edges: ListOfEdges = vec![(0, 1), (1, 2), (2, 3), (0, 3), (3, 4)];
    let graph = Graph::undirected(5, &edges);
    assert_eq!(bfs_distance(0, &graph), vec![Some(0), Some(1), Some(2), Some(1), Some(2)]);
}

#[test]
fn other_components_are_unreached() {
    let edges: ListOfEdges = vec![(0, 1), (2, 3)];
    let graph = Graph::undirected(5, &edges);
    assert_eq!(bfs_distance(0, &graph), vec![Some(0), Some(1), None, None, None]);
    assert_eq!(bfs_distance(3, &graph), vec![None, None, Some(1), Some(0), None]);
    assert_eq!(bfs_distance(4, &graph), vec![None, None, None, None, Some(0)]);
}

#[test]
fn a_single_vertex_is_zero_hops_from_itself() {
    let graph = Graph::undirected(1, &vec![]);
    assert_eq!(bfs_distance(0, &graph), vec![Some(0)]);
}

#[test]
fn self_loops_and_parallel_edges_change_no_distance() {
    let plain: ListOfEdges = vec![(0, 1), (1, 2)];
    let noisy: ListOfEdges = vec![(0, 1), (1, 1), (0, 1), (1, 2), (2, 1), (2, 2)];
    let a = distance_matrix(&Graph::undirected(3, &plain));
    let b = distance_matrix(&Graph::undirected(3, &noisy));
    assert_eq!(a, b);
    assert_eq!(a[0], vec![Some(0), Some(1), Some(2)]);
}

#[test]
fn a_search_follows_edges_from_source_to_target() {
    let edges: ListOfEdges = vec![(0, 1), (1, 2)];
    let graph = Graph::directed(3, &edges);
    assert_eq!(bfs_distance(0, &graph), vec![Some(0), Some(1), Some(2)]);
    assert_eq!(bfs_distance(2, &graph), vec![None, None, Some(0)]);
}

#[test]
fn the_distance_matrix_is_symmetric_with_a_zero_diagonal() {
    let edges: ListOfEdges = vec![(0, 1), (1, 2), (2, 0), (2, 3), (5, 4)];
    let graph = Graph::undirected(7, &edges);
    let matrix = distance_matrix(&graph);
    assert_eq!(matrix.len(), 7);
    for u in 0..7 {
        assert_eq!(matrix[u].len(), 7);
        assert_eq!(matrix[u][u], Some(0));
        for v in 0..7 {
            assert_eq!(matrix[u][v], matrix[v][u]);
            assert_eq!(matrix[u], bfs_distance(u, &graph));
        }
    }
    assert_eq!(matrix[0][3], Some(2));
    assert_eq!(matrix[0][4], None);
    assert_eq!(matrix[4][5], Some(1));
}

#[test]
fn the_cutoff_drops_zero_and_what_lies_beyond() {
    let matrix = vec![
        vec![Some(0), Some(1), Some(2), None],
        vec![Some(3), Some(4), Some(u32::MAX)],
        vec![],
    ];
    assert_eq!(
        separation_degree(matrix.clone(), 2),
        vec![vec![None, Some(1), Some(2), None], vec![None, None, None], vec![]]
    );
    assert_eq!(
        separation_degree(matrix.clone(), 0),
        vec![vec![None, None, None, None], vec![None, None, None], vec![]]
    );
    assert_eq!(
        separation_degree(matrix, u32::MAX),
        vec![vec![None, Some(1), Some(2), None], vec![Some(3), Some(4), Some(u32::MAX)], vec![]]
    );
}

#[test]
fn filtered_distances_hold_neither_zero_nor_more_than_the_cutoff() {
    let graph = path_graph();
    for cutoff in 0..=6u32 {
        let kept = filtered_distances(&graph, cutoff);
        assert_eq!(kept, separation_degree(distance_matrix(&graph), cutoff));
        for row in &kept {
            for entry in row {
                if let Some(d) = entry {
                    assert!(*d > 0 && *d <= cutoff);
                }
            }
        }
    }
    assert_eq!(
        filtered_distances(&graph, 2)[0],
        vec![None, Some(1), Some(2), None, None]
    );
}
