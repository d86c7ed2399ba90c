//! Shortest-path statistics over undirected graphs.
//!
//! A [`graph::Graph`] is built from a list of edges, or by [`records`] from
//! an edge list in csv text. [`bfs`] finds hop distances by breadth-first
//! search and reduces the matrix of the distances between all pairs of
//! vertices, restricted to a maximum number of hops, to a mean, a maximum, a
//! mode and a coverage percentage.
//!
//! The contracts are stated over a mathematical model: [`edges`] for edge
//! lists, [`order`] for sorted neighbour lists, [`walk`] for walks and the
//! hop distance they define, [`tally`] for what is counted over a matrix of
//! distances.

pub mod order;
pub mod walk;
pub mod edges;
pub mod graph;
pub mod records;
mod search;
pub mod tally;
pub mod bfs;
