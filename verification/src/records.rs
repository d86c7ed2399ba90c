//! Graphs from the records of an edge list in text form.
//!
//! A record is a sequence of fields. Its first two fields name the endpoints
//! of an edge by their numbers, counted from one, in decimal digits. The
//! records are read from csv text by the `csv` crate.

use csv::ReaderBuilder;
use vstd::prelude::*;
use crate::edges::joined_adjacency_of;
use crate::graph::{ConstructionError, Graph, ListOfEdges, MAX_VERTICES};
use crate::walk::symmetric;

verus! {

/// `c` is one of the digits `0` to `9`.
pub open spec fn is_digit(c: char) -> bool {
    '0' <= c <= '9'
}

/// The number that a sequence of digits denotes in base ten.
pub open spec fn digits_value(digits: Seq<char>) -> nat
    decreases digits.len(),
{
    if digits.len() == 0 {
        0
    } else {
        (10 * digits_value(digits.drop_last()) + (digits.last() as u32 - '0' as u32)) as nat
    }
}

/// The text without the plus sign that may stand before the digits.
pub open spec fn unsigned_part(text: Seq<char>) -> Seq<char> {
    if text.len() > 0 && text[0] == '+' {
        text.drop_first()
    } else {
        text
    }
}

/// The number that `text` denotes: `text` is an optional plus sign followed
/// by one digit or more and by nothing else. `None` for any other text.
pub open spec fn decimal_number(text: Seq<char>) -> Option<nat> {
    let digits = unsigned_part(text);
    if digits.len() > 0 && forall|i: int| 0 <= i < digits.len() ==> is_digit(#[trigger] digits[i]) {
        Some(digits_value(digits))
    } else {
        None
    }
}

/// The fields of a record held in a vector of strings.
pub open spec fn fields_of(record: Vec<String>) -> Seq<Seq<char>> {
    Seq::new(record.len() as nat, |k: int| record[k]@)
}

/// The records held in a vector.
pub open spec fn records_view(records: Vec<Vec<String>>) -> Seq<Seq<Seq<char>>> {
    Seq::new(records.len() as nat, |i: int| fields_of(records[i]))
}

/// The record has two fields that denote numbers a `usize` can hold.
pub open spec fn is_numbered(record: Seq<Seq<char>>) -> bool {
    &&& record.len() >= 2
    &&& decimal_number(record[0]) is Some
    &&& decimal_number(record[0])->0 <= usize::MAX
    &&& decimal_number(record[1]) is Some
    &&& decimal_number(record[1])->0 <= usize::MAX
}

/// Both numbers of the record are numbers of vertices of a graph with `n`
/// vertices: at least one and at most `n`.
pub open spec fn is_edge_record(record: Seq<Seq<char>>, n: usize) -> bool {
    &&& is_numbered(record)
    &&& 1 <= decimal_number(record[0])->0 <= n
    &&& 1 <= decimal_number(record[1])->0 <= n
}

/// The edge that a record denotes, its endpoints counted from zero.
pub open spec fn edge_of(record: Seq<Seq<char>>) -> (usize, usize) {
    (
        (decimal_number(record[0])->0 - 1) as usize,
        (decimal_number(record[1])->0 - 1) as usize,
    )
}

/// The edges that the records denote, in the order of the records.
pub open spec fn edges_of(records: Seq<Seq<Seq<char>>>) -> Seq<(usize, usize)> {
    Seq::new(records.len(), |i: int| edge_of(records[i]))
}

/// Every record before `position` names two vertices of a graph with `n`
/// vertices.
pub open spec fn edge_records_before(records: Seq<Seq<Seq<char>>>, n: usize, position: int) -> bool {
    forall|i: int| 0 <= i < position ==> is_edge_record(#[trigger] records[i], n)
}

/// `built` is what building a graph with `n` vertices from `records` comes
/// to: the graph that joins the two vertices of every record, or the reason
/// why there is none, which is the vertex count, where it is over
/// `MAX_VERTICES`, and else the kind and the position of the first record
/// that names no two vertices.
pub open spec fn built_from(
    records: Seq<Seq<Seq<char>>>,
    n: usize,
    built: Result<Graph, ConstructionError>,
) -> bool {
    match built {
        Ok(graph) => {
            &&& n <= MAX_VERTICES
            &&& edge_records_before(records, n, records.len() as int)
            &&& graph.n == n
            &&& graph.wf()
            &&& symmetric(graph.adjacency())
            &&& joined_adjacency_of(graph.adjacency(), n, edges_of(records))
        },
        Err(ConstructionError::TooManyVertices) => n > MAX_VERTICES,
        Err(ConstructionError::MalformedRecord { position }) => {
            &&& n <= MAX_VERTICES
            &&& position < records.len()
            &&& edge_records_before(records, n, position as int)
            &&& !is_numbered(records[position as int])
        },
        Err(ConstructionError::EndpointOutOfRange { position }) => {
            &&& n <= MAX_VERTICES
            &&& position < records.len()
            &&& edge_records_before(records, n, position as int)
            &&& is_numbered(records[position as int])
            &&& !is_edge_record(records[position as int], n)
        },
        Err(ConstructionError::Undecodable { .. }) => false,
    }
}

/// An error of the `csv` crate; nothing is known of what it holds.
#[verifier::external_type_specification]
#[verifier::external_body]
pub struct ExCsvError(csv::Error);

/// What the `csv` crate's reader, as `ReaderBuilder::new()` configures it,
/// decodes from a text: the records after the header up to the end of the
/// text or to the first record that it reports an error for, each as the
/// sequence of its fields, and whether it reported an error.
pub uninterp spec fn csv_decoded(data: Seq<u8>) -> (Seq<Seq<Seq<char>>>, bool);

/// Decodes csv text with the `csv` crate: `ReaderBuilder::new()`, then
/// `from_reader` on the bytes, then the iterator that `records` gives, up
/// to its end or to the first error that it yields.
///
/// Trusted: the calls are not verified. The contract claims only that what
/// comes back is a function of the bytes, which it names `csv_decoded`: the
/// records yielded before the end or the first error, and that error if
/// there was one.
#[verifier::external_body]
fn decode_records(data: &[u8]) -> (decoded: (Vec<Vec<String>>, Option<csv::Error>))
    ensures
        records_view(decoded.0) == csv_decoded(data@).0,
        decoded.1 is Some == csv_decoded(data@).1,
{
    let mut reader = ReaderBuilder::new().from_reader(data);
    let mut records: Vec<Vec<String>> = Vec::new();
    for result in reader.records() {
        match result {
            Ok(record) => records.push(record.iter().map(|field| field.to_string()).collect()),
            Err(error) => return (records, Some(error)),
        }
    }
    (records, None)
}

/// Parses `text` as a `usize` with the standard library's `str::parse`.
///
/// Trusted: the call is not verified. The contract claims what the standard
/// library documents of parsing an unsigned integer: the text must be an
/// optional plus sign followed by decimal digits and nothing else, at least
/// one digit, and the number must fit the type; any other text is an error,
/// which is returned as `None`.
#[verifier::external_body]
fn parse_number(text: &str) -> (number: Option<usize>)
    ensures
        number == match decimal_number(text@) {
            Some(value) => if value <= usize::MAX {
                Some(value as usize)
            } else {
                None
            },
            None => None,
        },
{
    match text.parse::<usize>() {
        Ok(value) => Some(value),
        Err(_) => None,
    }
}

impl Graph {
    /// Builds the graph with `n` vertices that joins, in both directions, the
    /// two vertices that each record names by their numbers, counted from
    /// one. Fails where the graph would have more than `MAX_VERTICES`
    /// vertices, and otherwise at the first record that has fewer than two
    /// fields or a field that is no number, or that names a vertex that does
    /// not exist.
    pub fn from_records(records: &Vec<Vec<String>>, n: usize) -> (built: Result<
        Graph,
        ConstructionError,
    >)
        ensures
            built_from(records_view(*records), n, built),
    {
        if n as u64 > MAX_VERTICES {
            return Err(ConstructionError::TooManyVertices);
        }
        let mut edges: ListOfEdges = Vec::new();
        let mut i: usize = 0;
        while i < records.len()
            invariant
                i <= records.len(),
                n <= MAX_VERTICES,
                edges.len() == i,
                edge_records_before(records_view(*records), n, i as int),
                forall|k: int| 0 <= k < i ==> (#[trigger] edges[k]) == edge_of(records_view(*records)[k]),
            decreases records.len() - i,
        {
            let record = &records[i];
            if record.len() < 2 {
                return Err(ConstructionError::MalformedRecord { position: i });
            }
            let (node1, node2) = match (
                parse_number(record[0].as_str()),
                parse_number(record[1].as_str()),
            ) {
                (Some(node1), Some(node2)) => (node1, node2),
                _ => {
                    return Err(ConstructionError::MalformedRecord { position: i });
                },
            };
            if node1 < 1 || node1 > n || node2 < 1 || node2 > n {
                return Err(ConstructionError::EndpointOutOfRange { position: i });
            }
            edges.push((node1 - 1, node2 - 1));
            i += 1;
        }
        proof {
            assert(edges@ =~= edges_of(records_view(*records)));
        }
        Ok(Self::undirected(n, &edges))
    }

    /// Builds the graph with `n` vertices from csv text: one edge for each
    /// record after the header, as `from_records` builds it from the records
    /// that the `csv` crate decodes. Fails as `from_records` fails on the
    /// records decoded before the end of the text or the first error of the
    /// `csv` crate, and where all of these are in order, at that error, with
    /// the number of records decoded before it.
    pub fn read_csv(data: &[u8], n: usize) -> (built: Result<Graph, ConstructionError>)
        ensures
            ({
                let (records, fault) = csv_decoded(data@);
                if fault && n <= MAX_VERTICES && edge_records_before(records, n, records.len() as int) {
                    built == Err::<Graph, ConstructionError>(
                        ConstructionError::Undecodable { position: records.len() as usize },
                    )
                } else {
                    built_from(records, n, built)
                }
            }),
    {
        let (records, fault) = decode_records(data);
        match Graph::from_records(&records, n) {
            Ok(graph) => match fault {
                None => Ok(graph),
                Some(_) => Err(ConstructionError::Undecodable { position: records.len() }),
            },
            Err(error) => Err(error),
        }
    }
}

} // verus!
