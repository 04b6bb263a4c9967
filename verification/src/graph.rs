use vstd::prelude::*;

use crate::cell::{AffiliationID, NumberlinkCell};
use crate::location::Location;
use crate::shape::SquareStep;

verus! {

/// A graph vertex: a location together with the cell living there.
#[derive(Clone, Copy, PartialEq, Eq, Hash, Debug)]
pub struct Node {
    pub location: Location,
    pub cell: NumberlinkCell,
}

/// An undirected edge between two nodes, named by their indices in the
/// graph's node list. The direction is stored canonically as a forward
/// direction, pointing from the lower-ordered endpoint toward the higher.
#[derive(Clone, Copy, PartialEq, Eq, Hash, Debug)]
pub struct GraphEdge {
    pub a: usize,
    pub b: usize,
    pub affiliation: AffiliationID,
    pub direction: SquareStep,
}

/// An undirected multigraph over board cells. Two nodes may share a location
/// only if both are bridge lanes with different forward axes.
#[derive(Clone, Debug)]
pub struct BoardGraph {
    pub nodes: Vec<Node>,
    pub edges: Vec<GraphEdge>,
}

/// The mathematical model of a board graph: its node and edge lists.
#[verifier::ext_equal]
pub ghost struct GraphState {
    pub nodes: Seq<Node>,
    pub edges: Seq<GraphEdge>,
}

impl View for BoardGraph {
    type V = GraphState;

    open spec fn view(&self) -> GraphState {
        GraphState { nodes: self.nodes@, edges: self.edges@ }
    }
}

/// The lane discriminant of a cell: bridge lanes are keyed by their forward
/// axis, every other cell by `None`.
pub open spec fn lane_of(c: NumberlinkCell) -> Option<SquareStep> {
    match c {
        NumberlinkCell::Bridge { direction, .. } => Some(direction.ensure_forward_spec()),
        _ => None,
    }
}

/// The identity of a node: its location plus its lane discriminant.
pub open spec fn node_key(n: Node) -> (Location, Option<SquareStep>) {
    (n.location, lane_of(n.cell))
}

impl GraphState {
    /// Every edge joins two distinct, in-range nodes.
    pub open spec fn edge_wf(self, e: GraphEdge) -> bool {
        &&& e.a < self.nodes.len()
        &&& e.b < self.nodes.len()
        &&& e.a != e.b
    }

    /// Well-formedness: edges are in range, no two edges join the same
    /// unordered pair of nodes, and node identities are unique.
    pub open spec fn wf(self) -> bool {
        &&& forall|i: int| 0 <= i < self.edges.len() ==> self.edge_wf(#[trigger] self.edges[i])
        &&& forall|i: int, j: int|
            0 <= i < j < self.edges.len() ==> !same_endpoints(self.edges[i], self.edges[j])
        &&& forall|i: int, j: int|
            0 <= i < j < self.nodes.len() ==> node_key(self.nodes[i]) != node_key(self.nodes[j])
    }

    /// The largest terminus affiliation among the first `k` nodes.
    pub open spec fn max_affiliation_upto(self, k: int) -> int
        decreases k,
    {
        if k <= 0 {
            0
        } else {
            let prev = self.max_affiliation_upto(k - 1);
            match self.nodes[k - 1].cell {
                NumberlinkCell::Terminus { affiliation } => if affiliation > prev {
                    affiliation as int
                } else {
                    prev
                },
                _ => prev,
            }
        }
    }

    /// The largest terminus affiliation in the graph, 0 if it has none.
    pub open spec fn max_affiliation(self) -> int {
        self.max_affiliation_upto(self.nodes.len() as int)
    }
}

/// Whether two edges join the same unordered pair of node indices.
pub open spec fn same_endpoints(e1: GraphEdge, e2: GraphEdge) -> bool {
    (e1.a == e2.a && e1.b == e2.b) || (e1.a == e2.b && e1.b == e2.a)
}

impl BoardGraph {
    /// The number of nodes in the graph.
    pub fn node_count(&self) -> (r: usize)
        ensures
            r == self@.nodes.len(),
    {
        self.nodes.len()
    }

    /// The number of edges in the graph.
    pub fn edge_count(&self) -> (r: usize)
        ensures
            r == self@.edges.len(),
    {
        self.edges.len()
    }

    /// The largest terminus affiliation in the graph, 0 if it has none.
    pub fn max_affiliation(&self) -> (r: AffiliationID)
        ensures
            r == self@.max_affiliation(),
    {
        let mut best: AffiliationID = 0;
        let mut i: usize = 0;
        while i < self.nodes.len()
            invariant
                i <= self.nodes.len(),
                best == self@.max_affiliation_upto(i as int),
            decreases self.nodes.len() - i,
        {
            match self.nodes[i].cell {
                NumberlinkCell::Terminus { affiliation } => {
                    if affiliation > best {
                        best = affiliation;
                    }
                },
                _ => {},
            }
            i = i + 1;
        }
        best
    }
}

} // verus!
