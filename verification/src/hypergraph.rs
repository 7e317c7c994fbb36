//! Lax open hypergraphs: labelled nodes and hyperedges, boundary interfaces,
//! and a relation of nodes still to be identified. Nodes and edges are
//! numbered from zero in the order they were created.
use vstd::prelude::*;

verus! {

/// The sources and targets of one hyperedge, as node numbers.
#[derive(Debug, Clone)]
pub struct Hyperedge {
    pub sources: Vec<usize>,
    pub targets: Vec<usize>,
}

/// A hypergraph whose nodes in the pairs of `quotient` are to be identified.
#[derive(Debug)]
pub struct Hypergraph<O, A> {
    /// The label of each node.
    pub nodes: Vec<O>,
    /// The label of each hyperedge.
    pub edges: Vec<A>,
    /// The ports of each hyperedge.
    pub adjacency: Vec<Hyperedge>,
    /// Pairs of nodes to identify: `quotient.0[i]` with `quotient.1[i]`.
    pub quotient: (Vec<usize>, Vec<usize>),
}

/// A hypergraph with a source and a target interface.
#[derive(Debug)]
pub struct OpenHypergraph<O, A> {
    pub sources: Vec<usize>,
    pub targets: Vec<usize>,
    pub hypergraph: Hypergraph<O, A>,
}

/// An open hypergraph as plain sequences.
pub struct GraphView<O, A> {
    pub sources: Seq<usize>,
    pub targets: Seq<usize>,
    pub nodes: Seq<O>,
    pub edges: Seq<A>,
    /// Sources and targets of each hyperedge.
    pub adjacency: Seq<(Seq<usize>, Seq<usize>)>,
    pub quotient: (Seq<usize>, Seq<usize>),
}

/// The ports of a hyperedge as plain sequences.
pub open spec fn edge_view(h: Hyperedge) -> (Seq<usize>, Seq<usize>) {
    (h.sources@, h.targets@)
}

impl<O, A> View for OpenHypergraph<O, A> {
    type V = GraphView<O, A>;

    open spec fn view(&self) -> GraphView<O, A> {
        GraphView {
            sources: self.sources@,
            targets: self.targets@,
            nodes: self.hypergraph.nodes@,
            edges: self.hypergraph.edges@,
            adjacency: self.hypergraph.adjacency@.map_values(|h: Hyperedge| edge_view(h)),
            quotient: (self.hypergraph.quotient.0@, self.hypergraph.quotient.1@),
        }
    }
}

/// Every node number in `s` is below `n`.
pub open spec fn all_below(s: Seq<usize>, n: nat) -> bool {
    forall|i: int| 0 <= i < s.len() ==> #[trigger] s[i] < n
}

impl<O, A> GraphView<O, A> {
    /// One hyperedge per edge label, the two sides of the quotient of one
    /// length, and every node number naming a node.
    pub open spec fn wf(self) -> bool {
        &&& self.edges.len() == self.adjacency.len()
        &&& self.quotient.0.len() == self.quotient.1.len()
        &&& all_below(self.sources, self.nodes.len())
        &&& all_below(self.targets, self.nodes.len())
        &&& all_below(self.quotient.0, self.nodes.len())
        &&& all_below(self.quotient.1, self.nodes.len())
        &&& forall|e: int|
            0 <= e < self.adjacency.len() ==> all_below(#[trigger] self.adjacency[e].0, self.nodes.len())
                && all_below(self.adjacency[e].1, self.nodes.len())
    }
}

} // verus!
