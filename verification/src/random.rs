//! A random-graph generator for testing: draws edges between random sides
//! of random nodes until the requested number of distinct edges exists, and
//! reports a stall when the generator keeps producing edges that are already
//! present.

use vstd::prelude::*;
use vstd::std_specs::cmp::PartialEqSpec;

use rand::Rng;

use crate::compare::edge_endpoints;
use crate::graph::BidirectedAdjacencyArray;
use crate::graph::BidirectedEdge;
use crate::graph::GraphModel;
use crate::index::NodeIndex;
use crate::index::spec_directed_node;
use crate::index::spec_invert;

verus! {

/// Why random generation failed.
#[derive(Debug)]
pub enum RandomGraphError<NodeData, EdgeData> {
    /// The random edge generator repeatedly produced edges that were already
    /// present; the partial graph built so far is enclosed.
    RandomGenerationStalled(BidirectedAdjacencyArray<NodeData, EdgeData>),
}

/// Relies on rand's `Rng::random_range`: a value below the bound.
#[verifier::external_body]
fn sample_below<Random: Rng>(rng: &mut Random, bound: usize) -> (r: usize)
    requires
        bound > 0,
    ensures
        r < bound,
{
    rng.random_range(0..bound)
}

/// Relies on rand's `Rng::random`: a random truth value.
#[verifier::external_body]
fn sample_coin<Random: Rng>(rng: &mut Random) -> bool {
    rng.random()
}

/// Relies on rand's `Rng::random`: a random seed word for a data generator.
#[verifier::external_body]
fn sample_seed<Random: Rng>(rng: &mut Random) -> u64 {
    rng.random()
}

/// Whether two edge records are the same edge: same endpoints, same sides,
/// and payloads that compare equal.
pub open spec fn spec_edges_equal<EdgeData: PartialEq>(
    a: BidirectedEdge<EdgeData>,
    b: BidirectedEdge<EdgeData>,
) -> bool {
    a.from == b.from && a.from_forward == b.from_forward && a.to == b.to && a.to_forward
        == b.to_forward && a.data.eq_spec(&b.data)
}

/// No two edge records of the graph are the same edge: their reported
/// directed endpoints differ, or their payloads differ.
pub open spec fn edge_records_distinct<NodeData, EdgeData: PartialEq>(
    g: GraphModel<NodeData, EdgeData>,
) -> bool {
    forall|e1: int, e2: int|
        #![trigger g.edges[e1], g.edges[e2]]
        0 <= e1 < e2 < g.edges.len() ==> !(edge_endpoints(g, e1) == edge_endpoints(g, e2)
            && g.edges[e1].data.eq_spec(&g.edges[e2].data))
}

/// Whether the candidate equals one of the edges drawn so far.
fn contains_edge<EdgeData: Eq>(
    edges: &Vec<BidirectedEdge<EdgeData>>,
    candidate: &BidirectedEdge<EdgeData>,
) -> (r: bool)
    requires
        EdgeData::obeys_eq_spec(),
    ensures
        r == exists|j: int|
            0 <= j < edges@.len() && spec_edges_equal(#[trigger] edges@[j], *candidate),
{
    let count = edges.len();
    for k in 0..count
        invariant
            EdgeData::obeys_eq_spec(),
            count == edges@.len(),
            forall|j: int| 0 <= j < k ==> !spec_edges_equal(#[trigger] edges@[j], *candidate),
    {
        let edge = &edges[k];
        if edge.from == candidate.from && edge.from_forward == candidate.from_forward && edge.to
            == candidate.to && edge.to_forward == candidate.to_forward && edge.data
            == candidate.data {
            return true;
        }
    }
    false
}

impl<NodeData, EdgeData> BidirectedAdjacencyArray<NodeData, EdgeData> {
    /// Generates a random bidirected graph with the given number of nodes
    /// and of distinct edges.  Node and edge payloads come from the given
    /// generators, each fed a fresh random seed.  When the edge generator
    /// repeatedly produces an edge that is already present, generation is
    /// aborted with the partial graph.  Since the draws are random, which of
    /// the two outcomes occurs is not determined by the inputs; each outcome
    /// carries a well-formed graph with the stated counts and no duplicate
    /// edge records.
    pub fn generate_random_graph<Random: Rng>(
        num_nodes: usize,
        num_edges: usize,
        node_data_generator: impl Fn(NodeIndex, u64) -> NodeData,
        edge_data_generator: impl Fn(u64) -> EdgeData,
        rng: &mut Random,
    ) -> (r: Result<
        BidirectedAdjacencyArray<NodeData, EdgeData>,
        RandomGraphError<NodeData, EdgeData>,
    >) where EdgeData: Eq
        requires
            num_nodes > 0 || num_edges == 0,
            2 * num_nodes + 1 <= usize::MAX,
            2 * num_edges <= usize::MAX,
            EdgeData::obeys_eq_spec(),
            forall|i: NodeIndex, s: u64|
                0 <= i@ < num_nodes ==> call_requires(node_data_generator, (i, s)),
            forall|s: u64| call_requires(edge_data_generator, (s,)),
        ensures
            match r {
                Ok(g) => g@.wf() && g@.nodes.len() == num_nodes && g@.edges.len() == num_edges
                    && edge_records_distinct(g@),
                Err(e) => match e {
                    RandomGraphError::RandomGenerationStalled(g) => g@.wf() && g@.nodes.len()
                        == num_nodes && g@.edges.len() < num_edges && edge_records_distinct(g@),
                },
            },
    {
        let mut nodes: Vec<NodeData> = Vec::new();
        for i in 0..num_nodes
            invariant
                nodes@.len() == i,
                forall|k: NodeIndex, s: u64|
                    0 <= k@ < num_nodes ==> call_requires(node_data_generator, (k, s)),
        {
            let seed = sample_seed(rng);
            nodes.push(node_data_generator(NodeIndex::new(i), seed));
        }

        let mut edges: Vec<BidirectedEdge<EdgeData>> = Vec::new();
        let mut stall_counter: u32 = 0;
        while edges.len() < num_edges
            invariant
                num_nodes > 0 || num_edges == 0,
                2 * num_nodes + 1 <= usize::MAX,
                2 * num_edges <= usize::MAX,
                EdgeData::obeys_eq_spec(),
                forall|s: u64| call_requires(edge_data_generator, (s,)),
                nodes@.len() == num_nodes,
                edges@.len() <= num_edges,
                stall_counter <= 10,
                forall|e: int|
                    #![trigger edges@[e]]
                    0 <= e < edges@.len() ==> edges@[e].from@ < num_nodes && edges@[e].to@
                        < num_nodes,
                forall|e1: int, e2: int|
                    #![trigger edges@[e1], edges@[e2]]
                    0 <= e1 < e2 < edges@.len() ==> !spec_edges_equal(edges@[e1], edges@[e2]),
            decreases num_edges - edges@.len(), 10 - stall_counter,
        {
            let from = sample_below(rng, num_nodes);
            let to = sample_below(rng, num_nodes);
            let from_forward = sample_coin(rng);
            let to_forward = sample_coin(rng);
            let seed = sample_seed(rng);
            let candidate = BidirectedEdge {
                from: NodeIndex::new(from),
                from_forward,
                to: NodeIndex::new(to),
                to_forward,
                data: edge_data_generator(seed),
            };

            if !contains_edge(&edges, &candidate) {
                edges.push(candidate);
                stall_counter = 0;
            } else {
                if stall_counter >= 10 {
                    let graph = BidirectedAdjacencyArray::new(nodes, edges);
                    proof {
                        lemma_distinct_records(graph@, edges@);
                    }
                    return Err(RandomGraphError::RandomGenerationStalled(graph));
                }
                stall_counter = stall_counter + 1;
            }
        }

        let graph = BidirectedAdjacencyArray::new(nodes, edges);
        proof {
            lemma_distinct_records(graph@, edges@);
        }
        Ok(graph)
    }
}

/// A graph constructed from a duplicate-free edge list has no two edge
/// records with the same endpoints and equal payloads: the reported
/// endpoints determine the input edge's nodes and sides exactly.
proof fn lemma_distinct_records<NodeData, EdgeData: PartialEq>(
    g: GraphModel<NodeData, EdgeData>,
    input: Seq<BidirectedEdge<EdgeData>>,
)
    requires
        g.edges.len() == input.len(),
        forall|e: int|
            #![trigger g.edges[e]]
            0 <= e < input.len() ==> g.edges[e].data == input[e].data && g.edges[e].forward
                == crate::graph::claim_slot(crate::graph::claim_seq(input), 2 * e)
                && g.edges[e].reverse == crate::graph::claim_slot(
                crate::graph::claim_seq(input),
                2 * e + 1,
            ),
        forall|j: int|
            0 <= j < 2 * input.len() ==> #[trigger] g.successors[crate::graph::claim_slot(
                crate::graph::claim_seq(input),
                j,
            )] == crate::graph::claim_dest(input, j),
        forall|e1: int, e2: int|
            #![trigger input[e1], input[e2]]
            0 <= e1 < e2 < input.len() ==> !spec_edges_equal(input[e1], input[e2]),
    ensures
        edge_records_distinct(g),
{
    assert forall|e: int| 0 <= e < input.len() implies edge_endpoints(g, e) == (
        spec_directed_node(input[e].from@, input[e].from_forward),
        spec_directed_node(input[e].to@, input[e].to_forward),
    ) by {
        assert((2 * e) / 2 == e && (2 * e + 1) / 2 == e);
        assert(g.successors[g.edges[e].forward] == crate::graph::claim_dest(input, 2 * e));
        assert(g.successors[g.edges[e].reverse] == crate::graph::claim_dest(input, 2 * e + 1));
        crate::index::lemma_invert_involutive(
            spec_directed_node(input[e].from@, input[e].from_forward),
        );
    }
    assert forall|e1: int, e2: int|
        #![trigger g.edges[e1], g.edges[e2]]
        0 <= e1 < e2 < g.edges.len() implies !(edge_endpoints(g, e1) == edge_endpoints(g, e2)
        && g.edges[e1].data.eq_spec(&g.edges[e2].data)) by {
        if edge_endpoints(g, e1) == edge_endpoints(g, e2) {
            assert(input[e1].from == input[e2].from && input[e1].from_forward
                == input[e2].from_forward && input[e1].to == input[e2].to
                && input[e1].to_forward == input[e2].to_forward);
        }
    }
}

} // verus!
