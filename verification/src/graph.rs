//! Graphs as adjacency lists, and their construction from edge lists.

use vstd::prelude::*;
use crate::edges::{
    first_out_of_range, in_range, joined_adjacency_of, lemma_joined_is_symmetrized,
    lemma_symmetrized_is_symmetric, lemma_targets_in_range, lemma_targets_of_concat,
    lemma_targets_of_contains, reversed,
    sorted_adjacency_of, sources_below, symmetrized, targets_of,
};
use crate::order::{ascending, sort_ascending};
use crate::walk::{closed, lemma_same_elements, same_neighbours, symmetric};

verus! {

/// A vertex: an index below the graph's vertex count.
pub type Vertex = usize;

/// A list of edges, each a pair of source and target.
pub type ListOfEdges = Vec<(Vertex, Vertex)>;

/// For each vertex the list of its neighbours.
pub type AdjacencyLists = Vec<Vec<Vertex>>;

/// The largest vertex count for which every hop distance fits in 32 bits.
pub const MAX_VERTICES: u64 = 0x1_0000_0000;

/// A graph with `n` vertices and, for each vertex, the list of its neighbours.
#[derive(Debug)]
pub struct Graph {
    pub n: usize,
    pub outedges: AdjacencyLists,
}

/// Why no graph was built.
#[derive(Debug, Clone, Copy, PartialEq, Eq, Structural)]
pub enum ConstructionError {
    /// The graph would have more vertices than a hop distance can count.
    TooManyVertices,
    /// The edge at `position` in the list has an endpoint that is no vertex.
    EndpointOutOfRange { position: usize },
    /// The record at `position` in the list does not hold two numbers.
    MalformedRecord { position: usize },
    /// The text is no csv text after `position` records.
    Undecodable { position: usize },
}

impl Graph {
    /// The neighbour lists as a sequence of sequences: the model of the graph
    /// that the contracts speak of.
    pub open spec fn adjacency(&self) -> Seq<Seq<Vertex>> {
        Seq::new(self.outedges.len() as nat, |u: int| self.outedges[u]@)
    }

    /// There is one neighbour list for each of the `n` vertices, and every
    /// neighbour is a vertex.
    pub open spec fn wf(&self) -> bool {
        &&& self.outedges.len() == self.n
        &&& closed(self.adjacency())
    }

    /// Appends, for each edge of `edges` in order, the edge's target to the
    /// neighbour list of its source.
    pub fn add_directed_edges(&mut self, edges: &ListOfEdges)
        requires
            sources_below(edges@, old(self).outedges.len() as nat),
        ensures
            final(self).n == old(self).n,
            final(self).outedges.len() == old(self).outedges.len(),
            forall|u: int|
                0 <= u < old(self).outedges.len() ==> #[trigger] final(self).adjacency()[u] == old(
                    self,
                ).adjacency()[u] + targets_of(edges@, u as usize),
            old(self).wf() && in_range(edges@, old(self).n) ==> final(self).wf(),
    {
        let mut i: usize = 0;
        while i < edges.len()
            invariant
                i <= edges.len(),
                sources_below(edges@, old(self).outedges.len() as nat),
                self.n == old(self).n,
                self.outedges.len() == old(self).outedges.len(),
                forall|u: int|
                    0 <= u < old(self).outedges.len() ==> #[trigger] self.outedges[u]@ == old(
                        self,
                    ).outedges[u]@ + targets_of(edges@.take(i as int), u as usize),
            decreases edges.len() - i,
        {
            let (u, v) = edges[i];
            proof {
                assert(edges@[i as int].0 < old(self).outedges.len());
                assert(edges@.take(i + 1).drop_last() == edges@.take(i as int));
                assert(edges@.take(i + 1).last() == edges@[i as int]);
            }
            self.outedges[u].push(v);
            i += 1;
        }
        proof {
            assert(edges@.take(edges.len() as int) == edges@);
            if old(self).wf() && in_range(edges@, old(self).n) {
                let before = old(self).adjacency();
                let after = self.adjacency();
                assert forall|u: int, k: int|
                    0 <= u < after.len() && 0 <= k < after[u].len() implies (#[trigger] after[u][k])
                    < after.len() by {
                    let added = targets_of(edges@, u as usize);
                    assert(after[u] == before[u] + added);
                    if k < before[u].len() {
                        assert(after[u][k] == before[u][k]);
                    } else {
                        let v = added[k - before[u].len()];
                        assert(added.contains(v));
                        lemma_targets_of_contains(edges@, u as usize, v);
                        let e = choose|e: int| 0 <= e < edges.len() && edges[e] == (u as usize, v);
                        assert(edges[e].1 < old(self).n);
                    }
                }
            }
        }
    }

    /// The graph with `n` vertices in which each edge of `edges` leads from its
    /// source to its target only. Parallel edges and self-loops are kept.
    pub fn directed(n: usize, edges: &ListOfEdges) -> (graph: Graph)
        requires
            in_range(edges@, n),
        ensures
            graph.n == n,
            graph.wf(),
            sorted_adjacency_of(graph.adjacency(), n, edges@),
    {
        let mut outedges: AdjacencyLists = Vec::new();
        let mut k: usize = 0;
        while k < n
            invariant
                k <= n,
                outedges.len() == k,
                forall|u: int| 0 <= u < k ==> (#[trigger] outedges[u])@ == Seq::<Vertex>::empty(),
            decreases n - k,
        {
            outedges.push(Vec::new());
            k += 1;
        }
        let mut graph = Graph { n, outedges };
        let ghost empty = graph.adjacency();
        graph.add_directed_edges(edges);
        let ghost filled = graph.adjacency();
        graph.sort();
        proof {
            let adj = graph.adjacency();
            assert forall|u: int| 0 <= u < n implies ascending(#[trigger] adj[u])
                && adj[u].to_multiset() == targets_of(edges@, u as usize).to_multiset() by {
                assert(filled[u] == empty[u] + targets_of(edges@, u as usize));
                assert(filled[u] == targets_of(edges@, u as usize));
            }
            lemma_targets_in_range(adj, n, edges@);
        }
        graph
    }

    /// The graph with `n` vertices in which each edge of `edges` joins its two
    /// endpoints in both directions. Parallel edges and self-loops are kept:
    /// an edge that occurs twice gives each endpoint the other twice as a
    /// neighbour.
    pub fn undirected(n: usize, edges: &ListOfEdges) -> (graph: Graph)
        requires
            in_range(edges@, n),
        ensures
            graph.n == n,
            graph.wf(),
            symmetric(graph.adjacency()),
            joined_adjacency_of(graph.adjacency(), n, edges@),
    {
        let mut graph = Self::directed(n, edges);
        let ghost forward = graph.adjacency();
        let back = edge_reversal(edges);
        graph.add_directed_edges(&back);
        let ghost both = graph.adjacency();
        graph.sort();
        proof {
            let adj = graph.adjacency();
            assert forall|u: int| 0 <= u < n implies ascending(#[trigger] adj[u])
                && adj[u].to_multiset() == targets_of(symmetrized(edges@), u as usize).to_multiset() by {
                let here = targets_of(edges@, u as usize);
                let there = targets_of(reversed(edges@), u as usize);
                assert(both[u] == forward[u] + there);
                lemma_targets_of_concat(edges@, reversed(edges@), u as usize);
                vstd::seq_lib::lemma_multiset_commutative(forward[u], there);
                vstd::seq_lib::lemma_multiset_commutative(here, there);
            }
            assert(in_range(symmetrized(edges@), n));
            lemma_targets_in_range(adj, n, symmetrized(edges@));
            lemma_symmetrized_is_symmetric(adj, n, edges@);
            lemma_joined_is_symmetrized(adj, n, edges@);
        }
        graph
    }

    /// Builds what `undirected` builds, after checking what `undirected`
    /// and the search for distances ask of their callers: fails where the
    /// graph would have more than `MAX_VERTICES` vertices, and otherwise at
    /// the first edge with an endpoint that is not below `n`.
    pub fn try_undirected(n: usize, edges: &ListOfEdges) -> (built: Result<Graph, ConstructionError>)
        ensures
            match built {
                Ok(graph) => {
                    &&& n <= MAX_VERTICES
                    &&& in_range(edges@, n)
                    &&& graph.n == n
                    &&& graph.wf()
                    &&& symmetric(graph.adjacency())
                    &&& joined_adjacency_of(graph.adjacency(), n, edges@)
                },
                Err(ConstructionError::TooManyVertices) => n > MAX_VERTICES,
                Err(ConstructionError::EndpointOutOfRange { position }) => {
                    &&& n <= MAX_VERTICES
                    &&& first_out_of_range(edges@, n, position)
                },
                Err(ConstructionError::MalformedRecord { .. }) => false,
                Err(ConstructionError::Undecodable { .. }) => false,
            },
    {
        if n as u64 > MAX_VERTICES {
            return Err(ConstructionError::TooManyVertices);
        }
        let mut i: usize = 0;
        while i < edges.len()
            invariant
                i <= edges.len(),
                n <= MAX_VERTICES,
                in_range(edges@.take(i as int), n),
            decreases edges.len() - i,
        {
            let (u, v) = edges[i];
            if u >= n || v >= n {
                return Err(ConstructionError::EndpointOutOfRange { position: i });
            }
            proof {
                assert forall|k: int| 0 <= k < i + 1 implies (#[trigger] edges@.take(i + 1)[k]).0 < n
                    && edges@.take(i + 1)[k].1 < n by {
                    if k < i {
                        assert(edges@.take(i as int)[k] == edges@[k]);
                    }
                }
            }
            i += 1;
        }
        proof {
            assert(edges@.take(edges.len() as int) == edges@);
        }
        Ok(Self::undirected(n, edges))
    }

    /// Sorts every neighbour list into ascending order.
    pub fn sort(&mut self)
        ensures
            final(self).n == old(self).n,
            final(self).outedges.len() == old(self).outedges.len(),
            forall|u: int|
                0 <= u < old(self).outedges.len() ==> ascending(#[trigger] final(self).adjacency()[u])
                    && final(self).adjacency()[u].to_multiset() == old(
                    self,
                ).adjacency()[u].to_multiset(),
            same_neighbours(old(self).adjacency(), final(self).adjacency()),
            old(self).wf() ==> final(self).wf(),
    {
        let mut u: usize = 0;
        while u < self.outedges.len()
            invariant
                u <= self.outedges.len(),
                self.n == old(self).n,
                self.outedges.len() == old(self).outedges.len(),
                forall|w: int|
                    0 <= w < u ==> ascending(#[trigger] self.outedges[w]@)
                        && self.outedges[w]@.to_multiset() == old(self).outedges[w]@.to_multiset(),
                forall|w: int|
                    u <= w < self.outedges.len() ==> #[trigger] self.outedges[w] == old(
                        self,
                    ).outedges[w],
            decreases self.outedges.len() - u,
        {
            sort_ascending(&mut self.outedges[u]);
            u += 1;
        }
        proof {
            lemma_same_elements(old(self).adjacency(), self.adjacency());
        }
    }
}

/// Turns every edge of `list` around, keeping the order of the list.
pub fn edge_reversal(list: &ListOfEdges) -> (new_list: ListOfEdges)
    ensures
        new_list@ == reversed(list@),
{
    let mut new_list: ListOfEdges = Vec::new();
    let mut i: usize = 0;
    while i < list.len()
        invariant
            i <= list.len(),
            new_list.len() == i,
            forall|k: int| 0 <= k < i ==> new_list[k] == (list[k].1, list[k].0),
        decreases list.len() - i,
    {
        let (u, v) = list[i];
        new_list.push((v, u));
        i += 1;
    }
    new_list
}

} // verus!
