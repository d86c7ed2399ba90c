use separation::graph::{edge_reversal, ConstructionError, Graph, ListOfEdges, MAX_VERTICES};

#[test]
fn reversal_turns_each_edge_around_in_place() {
    let edges: ListOfEdges = vec![(0, 1), (4, 2), (3, 3)];
    assert_eq!(edge_reversal(&edges), vec![(1, 0), (2, 4), (3, 3)]);
    assert_eq!(edge_reversal(&vec![]), vec![]);
    assert_eq!(edge_reversal(&edge_reversal(&edges)), edges);
}

#[test]
fn edges_are_appended_in_the_order_of_the_list() {
    let mut graph = Graph { n: 3, outedges: vec![vec![2], vec![], vec![]] };
    graph.add_directed_edges(&vec![(0, 1), (2, 0), (0, 0), (0, 1)]);
    assert_eq!(graph.n, 3);
    assert_eq!(graph.outedges, vec![vec![2, 1, 0, 1], vec![], vec![0]]);
}

#[test]
fn sort_orders_every_list_and_keeps_duplicates() {
    let mut graph = Graph { n: 4, outedges: vec![vec![3, 1, 2, 1], vec![], vec![0], vec![2, 0]] };
    graph.sort();
    assert_eq!(graph.n, 4);
    assert_eq!(graph.outedges, vec![vec![1, 1, 2, 3], vec![], vec![0], vec![0, 2]]);
}

#[test]
fn directed_lists_targets_in_ascending_order() {
    let edges: ListOfEdges = vec![(0, 2), (0, 1), (2, 1), (0, 2)];
    let graph = Graph::directed(3, &edges);
    assert_eq!(graph.n, 3);
    assert_eq!(graph.outedges, vec![vec![1, 2, 2], vec![], vec![1]]);
}

#[test]
fn undirected_lists_both_endpoints() {
    let edges: ListOfEdges = vec![(3, 4), (0, 1), (2, 3), (1, 2)];
    let graph = Graph::undirected(5, &edges);
    assert_eq!(graph.n, 5);
    assert_eq!(graph.outedges, vec![vec![1], vec![0, 2], vec![1, 3], vec![2, 4], vec![3]]);
}

#[test]
fn undirected_keeps_parallel_edges_and_self_loops() {
    let edges: ListOfEdges = vec![(0, 1), (1, 0), (0, 1), (2, 2)];
    let graph = Graph::undirected(3, &edges);
    assert_eq!(graph.outedges, vec![vec![1, 1, 1], vec![0, 0, 0], vec![2, 2]]);
}

#[test]
fn undirected_of_a_list_is_directed_of_the_symmetrized_list() {
    let edges: ListOfEdges = vec![(0, 3), (2, 1), (3, 1), (0, 3), (4, 4)];
    let mut doubled = edges.clone();
    doubled.extend(edge_reversal(&edges));
    let joined = Graph::undirected(5, &edges);
    let followed = Graph::directed(5, &doubled);
    assert_eq!(joined.outedges, followed.outedges);
    assert_eq!(joined.outedges, Graph::directed(5, &edge_reversal(&doubled)).outedges);
}

#[test]
fn every_neighbour_lists_the_vertex_in_return() {
    let edges: ListOfEdges = vec![(0, 3), (2, 1), (3, 1), (0, 3), (4, 4)];
    let graph = Graph::undirected(5, &edges);
    for u in 0..5 {
        for &v in &graph.outedges[u] {
            assert!(graph.outedges[v].contains(&u));
        }
    }
}

#[test]
fn try_undirected_builds_what_undirected_builds() {
    let edges: ListOfEdges = vec![(3, 4), (0, 1), (2, 3), (1, 2)];
    let built = Graph::try_undirected(5, &edges);
    assert!(matches!(&built, Ok(graph) if graph.n == 5
        && graph.outedges == Graph::undirected(5, &edges).outedges));
    assert!(matches!(Graph::try_undirected(0, &vec![]), Ok(graph) if graph.outedges.is_empty()));
}

#[test]
fn try_undirected_names_the_first_edge_out_of_range() {
    let edges: ListOfEdges = vec![(0, 1), (1, 5), (7, 0)];
    assert!(matches!(
        Graph::try_undirected(5, &edges),
        Err(ConstructionError::EndpointOutOfRange { position: 1 })
    ));
    assert!(matches!(
        Graph::try_undirected(1, &edges),
        Err(ConstructionError::EndpointOutOfRange { position: 0 })
    ));
    assert!(matches!(
        Graph::try_undirected(0, &vec![(0, 0)]),
        Err(ConstructionError::EndpointOutOfRange { position: 0 })
    ));
    assert!(matches!(Graph::try_undirected(8, &edges), Ok(_)));
}

#[test]
fn try_undirected_refuses_more_vertices_than_distances_can_count() {
    if usize::BITS > 32 {
        let too_many = MAX_VERTICES as usize + 1;
        assert_eq!(
            Graph::try_undirected(too_many, &vec![(0, 1)]).err(),
            Some(ConstructionError::TooManyVertices)
        );
    }
}
