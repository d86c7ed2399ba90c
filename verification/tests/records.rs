use separation::bfs::max_distance;
use separation::graph::{ConstructionError, Graph, MAX_VERTICES};

fn record(fields: &[&str]) -> Vec<String> {
    fields.iter().map(|field| field.to_string()).collect()
}

fn records(rows: &[&[&str]]) -> Vec<Vec<String>> {
    rows.iter().map(|row| record(row)).collect()
}

#[test]
fn records_count_vertices_from_one() {
    let rows = records(&[&["1", "2"], &["2", "3"], &["3", "4"], &["4", "5"]]);
    let built = Graph::from_records(&rows, 5);
    assert!(matches!(&built, Ok(graph) if graph.n == 5
        && graph.outedges == vec![vec![1], vec![0, 2], vec![1, 3], vec![2, 4], vec![3]]));
    assert!(matches!(&built, Ok(graph) if max_distance(graph, 25) == 4));
}

#[test]
fn records_match_the_graph_of_their_edges() {
    let rows = records(&[&["3", "1"], &["2", "3"], &["3", "1"], &["4", "4"]]);
    let edges = vec![(2, 0), (1, 2), (2, 0), (3, 3)];
    assert!(matches!(Graph::from_records(&rows, 4), Ok(graph)
        if graph.outedges == Graph::undirected(4, &edges).outedges));
}

#[test]
fn numbers_are_decimal_digits_after_an_optional_plus() {
    let rows = records(&[&["+1", "0012"], &["12", "+0003", "ignored"]]);
    assert!(matches!(Graph::from_records(&rows, 12), Ok(graph)
        if graph.outedges[0] == vec![11] && graph.outedges[2] == vec![11]
        && graph.outedges[11] == vec![0, 2]));
}

#[test]
fn no_records_give_a_graph_without_edges() {
    assert!(matches!(Graph::from_records(&vec![], 3), Ok(graph)
        if graph.outedges == vec![Vec::<usize>::new(), vec![], vec![]]));
}

#[test]
fn a_record_that_holds_no_two_numbers_is_malformed() {
    for bad in [
        &["1"][..],
        &[][..],
        &["", "2"][..],
        &["1", "+"][..],
        &["1", "-2"][..],
        &[" 1", "2"][..],
        &["1", "2 "][..],
        &["1_0", "2"][..],
        &["1", "2.0"][..],
        &["one", "2"][..],
        &["1", "0x2"][..],
        &["1", "99999999999999999999999999999999999999999"][..],
    ] {
        let rows = vec![record(&["1", "2"]), record(bad), record(&["9", "9"])];
        assert_eq!(
            Graph::from_records(&rows, 3).err(),
            Some(ConstructionError::MalformedRecord { position: 1 })
        );
    }
}

#[test]
fn a_record_that_names_no_vertex_is_out_of_range() {
    for bad in [&["0", "1"][..], &["1", "0"][..], &["4", "1"][..], &["2", "7"][..]] {
        let rows = vec![record(&["1", "2"]), record(&["3", "3"]), record(bad), record(&["x"])];
        assert_eq!(
            Graph::from_records(&rows, 3).err(),
            Some(ConstructionError::EndpointOutOfRange { position: 2 })
        );
    }
}

#[test]
fn the_first_faulty_record_decides_the_error() {
    let rows = records(&[&["1", "2"], &["x", "2"], &["0", "2"]]);
    assert_eq!(
        Graph::from_records(&rows, 2).err(),
        Some(ConstructionError::MalformedRecord { position: 1 })
    );
    let rows = records(&[&["1", "2"], &["0", "2"], &["x", "2"]]);
    assert_eq!(
        Graph::from_records(&rows, 2).err(),
        Some(ConstructionError::EndpointOutOfRange { position: 1 })
    );
}

#[test]
fn from_records_refuses_more_vertices_than_distances_can_count() {
    if usize::BITS > 32 {
        let too_many = MAX_VERTICES as usize + 1;
        assert_eq!(
            Graph::from_records(&records(&[&["x"]]), too_many).err(),
            Some(ConstructionError::TooManyVertices)
        );
    }
}

#[test]
fn csv_text_gives_the_graph_of_its_records() {
    let text = b"source,target\n1,2\n2,3\n3,4\n4,5\n";
    assert!(matches!(Graph::read_csv(text, 5), Ok(graph) if graph.n == 5
        && graph.outedges == vec![vec![1], vec![0, 2], vec![1, 3], vec![2, 4], vec![3]]));
}

#[test]
fn csv_text_agrees_with_its_records() {
    let text = b"a,b,c\n3,1,x\n\"2\",3,\"y,z\"\r\n3,1,\n";
    let rows = records(&[&["3", "1", "x"], &["2", "3", "y,z"], &["3", "1", ""]]);
    let from_text = Graph::read_csv(text, 3);
    let from_rows = Graph::from_records(&rows, 3);
    assert!(matches!((&from_text, &from_rows), (Ok(a), Ok(b))
        if a.n == b.n && a.outedges == b.outedges));
    assert!(matches!(&from_text, Ok(graph)
        if graph.outedges == vec![vec![2, 2], vec![2], vec![0, 0, 1]]));
}

#[test]
fn the_first_line_of_csv_text_is_a_header() {
    assert!(matches!(Graph::read_csv(b"1,2\n2,3\n", 3), Ok(graph)
        if graph.outedges == vec![vec![], vec![2], vec![1]]));
    assert!(matches!(Graph::read_csv(b"1,2\n", 3), Ok(graph)
        if graph.outedges == vec![Vec::<usize>::new(), vec![], vec![]]));
    assert!(matches!(Graph::read_csv(b"", 2), Ok(graph)
        if graph.outedges == vec![Vec::<usize>::new(), vec![]]));
}

#[test]
fn csv_text_fails_as_its_records_fail() {
    assert_eq!(
        Graph::read_csv(b"a,b\n1,2\nx,2\n", 2).err(),
        Some(ConstructionError::MalformedRecord { position: 1 })
    );
    assert_eq!(
        Graph::read_csv(b"a\n1\n", 2).err(),
        Some(ConstructionError::MalformedRecord { position: 0 })
    );
    assert_eq!(
        Graph::read_csv(b"a,b\n1,2\n2,1\n2,3\n", 2).err(),
        Some(ConstructionError::EndpointOutOfRange { position: 2 })
    );
    assert_eq!(
        Graph::read_csv(b"a,b\n 1,2\n", 2).err(),
        Some(ConstructionError::MalformedRecord { position: 0 })
    );
}

#[test]
fn text_that_is_no_csv_is_undecodable() {
    // a record with fewer fields than the one before it
    assert_eq!(
        Graph::read_csv(b"a,b\n1,2\n2\n1,2\n", 2).err(),
        Some(ConstructionError::Undecodable { position: 1 })
    );
    // a field that is no text
    assert_eq!(
        Graph::read_csv(b"a,b\n1,\xff\n", 2).err(),
        Some(ConstructionError::Undecodable { position: 0 })
    );
    // a faulty record before the fault is found first
    assert_eq!(
        Graph::read_csv(b"a,b\n1,2\n0,2\n2\n", 2).err(),
        Some(ConstructionError::EndpointOutOfRange { position: 1 })
    );
}
