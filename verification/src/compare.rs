//! Structural equality between two adjacency arrays: identical node and
//! edge counts, identical node data at every bidirected node index, and
//! identical payload and endpoints at every bidirected edge index.  This is
//! a diagnostic tool, not a graph-isomorphism test: index identity must
//! match, not merely graph shape.

use vstd::prelude::*;
use vstd::std_specs::cmp::PartialEqSpec;

use crate::graph::BidirectedAdjacencyArray;
use crate::graph::GraphModel;
use crate::index::EdgeIndex;
use crate::index::NodeIndex;
use crate::index::spec_invert;

verus! {

/// The first check that failed when comparing two graphs, in the fixed
/// order: node count, edge count, per-node data scan, then per-edge data and
/// endpoint scan.
#[derive(Debug, Clone, Copy, PartialEq, Eq, Structural)]
pub enum GraphComparisonError {
    /// The number of nodes in the graphs differ.
    NodeCountMismatch,
    /// The number of edges in the graphs differ.
    EdgeCountMismatch,
    /// The node data differ at the given bidirected node index.
    NodeDataMismatch(NodeIndex),
    /// The edge data differ at the given bidirected edge index.
    EdgeDataMismatch(EdgeIndex),
    /// The edge endpoints differ at the given bidirected edge index.
    EdgeEndpointMismatch(EdgeIndex),
}

/// The first index at or after `i` where the two node-data sequences differ.
pub open spec fn first_node_mismatch<NodeData: PartialEq>(
    a: Seq<NodeData>,
    b: Seq<NodeData>,
    i: int,
) -> Option<int>
    decreases a.len() - i,
{
    if i < 0 || i >= a.len() {
        None
    } else if !a[i].eq_spec(&b[i]) {
        Some(i)
    } else {
        first_node_mismatch(a, b, i + 1)
    }
}

/// The directed endpoints that the edge view reports for bidirected edge
/// `e`: the inverted reverse-slot destination and the forward-slot
/// destination.
pub open spec fn edge_endpoints<NodeData, EdgeData>(
    g: GraphModel<NodeData, EdgeData>,
    e: int,
) -> (int, int) {
    (spec_invert(g.successors[g.edges[e].reverse]), g.successors[g.edges[e].forward])
}

/// The first edge index at or after `e` where the two graphs differ, with
/// `true` for a payload mismatch and `false` for an endpoint mismatch; for
/// one edge the payload is checked first.
pub open spec fn first_edge_mismatch<NodeData, EdgeData: PartialEq>(
    a: GraphModel<NodeData, EdgeData>,
    b: GraphModel<NodeData, EdgeData>,
    e: int,
) -> Option<(int, bool)>
    decreases a.edges.len() - e,
{
    if e < 0 || e >= a.edges.len() {
        None
    } else if !a.edges[e].data.eq_spec(&b.edges[e].data) {
        Some((e, true))
    } else if edge_endpoints(a, e) != edge_endpoints(b, e) {
        Some((e, false))
    } else {
        first_edge_mismatch(a, b, e + 1)
    }
}

/// What the comparison returns: the first failing check in the fixed order,
/// or success when every check passes.
pub open spec fn spec_compare<NodeData: PartialEq, EdgeData: PartialEq>(
    a: GraphModel<NodeData, EdgeData>,
    b: GraphModel<NodeData, EdgeData>,
) -> Result<(), GraphComparisonError> {
    if a.nodes.len() != b.nodes.len() {
        Err(GraphComparisonError::NodeCountMismatch)
    } else if a.edges.len() != b.edges.len() {
        Err(GraphComparisonError::EdgeCountMismatch)
    } else {
        match first_node_mismatch(a.nodes, b.nodes, 0) {
            Some(i) => Err(GraphComparisonError::NodeDataMismatch(NodeIndex(i as usize))),
            None => match first_edge_mismatch(a, b, 0) {
                Some(pair) => if pair.1 {
                    Err(GraphComparisonError::EdgeDataMismatch(EdgeIndex(pair.0 as usize)))
                } else {
                    Err(GraphComparisonError::EdgeEndpointMismatch(EdgeIndex(pair.0 as usize)))
                },
                None => Ok(()),
            },
        }
    }
}

/// When the node data agree pointwise from `k` on, the scan finds no
/// mismatch.
pub proof fn lemma_no_node_mismatch<NodeData: PartialEq>(a: Seq<NodeData>, b: Seq<NodeData>, k: int)
    requires
        0 <= k <= a.len(),
        a.len() == b.len(),
        forall|i: int| k <= i < a.len() ==> (#[trigger] a[i]).eq_spec(&b[i]),
    ensures
        first_node_mismatch(a, b, k) is None,
    decreases a.len() - k,
{
    if k < a.len() {
        lemma_no_node_mismatch(a, b, k + 1);
    }
}

/// When the edge payloads and endpoints agree from `k` on, the scan finds
/// no mismatch.
pub proof fn lemma_no_edge_mismatch<NodeData, EdgeData: PartialEq>(
    a: GraphModel<NodeData, EdgeData>,
    b: GraphModel<NodeData, EdgeData>,
    k: int,
)
    requires
        0 <= k <= a.edges.len(),
        a.edges.len() == b.edges.len(),
        forall|e: int|
            k <= e < a.edges.len() ==> (#[trigger] a.edges[e]).data.eq_spec(&b.edges[e].data)
                && edge_endpoints(a, e) == edge_endpoints(b, e),
    ensures
        first_edge_mismatch(a, b, k) is None,
    decreases a.edges.len() - k,
{
    if k < a.edges.len() {
        lemma_no_edge_mismatch(a, b, k + 1);
    }
}

impl<NodeData, EdgeData> BidirectedAdjacencyArray<NodeData, EdgeData> {
    /// Compares this graph to another graph.
    ///
    /// The comparison returns `Ok` if all nodes and edges are identical in
    /// both graphs.  Otherwise it returns an error describing the first
    /// difference, checked in the fixed order: node count, edge count,
    /// per-node data, then per-edge data and endpoints.
    pub fn compare(&self, other: &Self) -> (r: Result<(), GraphComparisonError>) where
        NodeData: Eq,
        EdgeData: Eq,

        requires
            self@.wf(),
            other@.wf(),
            NodeData::obeys_eq_spec(),
            EdgeData::obeys_eq_spec(),
        ensures
            r == spec_compare(self@, other@),
    {
        let ghost a = self@;
        let ghost b = other@;
        if self.node_count() != other.node_count() {
            return Err(GraphComparisonError::NodeCountMismatch);
        }
        if self.edge_count() != other.edge_count() {
            return Err(GraphComparisonError::EdgeCountMismatch);
        }

        let node_count = self.node_count();
        for i in 0..node_count
            invariant
                a == self@,
                b == other@,
                a.wf(),
                b.wf(),
                NodeData::obeys_eq_spec(),
                node_count == a.nodes.len(),
                a.nodes.len() == b.nodes.len(),
                a.edges.len() == b.edges.len(),
                first_node_mismatch(a.nodes, b.nodes, 0) == first_node_mismatch(
                    a.nodes,
                    b.nodes,
                    i as int,
                ),
        {
            let self_node_data = self.node_data(NodeIndex::new(i));
            let other_node_data = other.node_data(NodeIndex::new(i));
            if !(self_node_data == other_node_data) {
                return Err(GraphComparisonError::NodeDataMismatch(NodeIndex::new(i)));
            }
        }

        let edge_count = self.edge_count();
        for e in 0..edge_count
            invariant
                a == self@,
                b == other@,
                a.wf(),
                b.wf(),
                NodeData::obeys_eq_spec(),
                EdgeData::obeys_eq_spec(),
                edge_count == a.edges.len(),
                a.nodes.len() == b.nodes.len(),
                a.edges.len() == b.edges.len(),
                first_node_mismatch(a.nodes, b.nodes, 0) is None,
                first_edge_mismatch(a, b, 0) == first_edge_mismatch(a, b, e as int),
        {
            let self_edge = self.edge(EdgeIndex::new(e));
            let other_edge = other.edge(EdgeIndex::new(e));

            if !(self_edge.data() == other_edge.data()) {
                return Err(GraphComparisonError::EdgeDataMismatch(EdgeIndex::new(e)));
            }
            if !(self_edge.from() == other_edge.from()) || !(self_edge.to() == other_edge.to()) {
                return Err(GraphComparisonError::EdgeEndpointMismatch(EdgeIndex::new(e)));
            }
        }

        Ok(())
    }
}

} // verus!
