//! The adjacency array: a compact, queryable layout for a bidirected graph,
//! built once from a node-data sequence and a bidirected edge list.
//!
//! Each bidirected node owns two directed nodes (its sides), and each
//! bidirected edge is represented by two mutually inverse directed edges.
//! The layout is the classic compact adjacency list: an offset table indexed
//! by directed node and a flat successor table indexed by directed edge,
//! filled by a counting-sort construction (count, prefix-sum, reverse bucket
//! fill).

use vstd::prelude::*;
use vstd::set_lib::lemma_len_subset;
use vstd::set_lib::lemma_int_range;
use vstd::set_lib::set_int_range;

use crate::index::DirectedEdgeIndex;
use crate::index::DirectedNodeIndex;
use crate::index::EdgeIndex;
use crate::index::NodeIndex;
use crate::index::OptionalEdgeIndex;
use crate::index::spec_directed_node;
use crate::index::spec_invert;

verus! {

/// A bidirected edge as supplied to the construction: a connection between a
/// specific side of a `from` node and a specific side of a `to` node,
/// carrying one payload value.
#[derive(Debug, Clone, PartialEq, Eq, Hash)]
pub struct BidirectedEdge<EdgeData> {
    pub from: NodeIndex,
    /// True if this edge originates from the forward side of the `from` node.
    pub from_forward: bool,
    pub to: NodeIndex,
    /// True if this edge terminates at the forward side of the `to` node.
    pub to_forward: bool,
    pub data: EdgeData,
}

/// The mathematical shape of one per-directed-edge key record: the inverse
/// directed edge and the optional back-reference to the shared payload slot.
pub struct KeyModel {
    pub inverse: int,
    pub data_index: Option<int>,
}

/// The mathematical shape of one payload record: the payload plus the two
/// directed-edge positions assigned to the edge during construction.
pub struct EdgeModel<EdgeData> {
    pub forward: int,
    pub reverse: int,
    pub data: EdgeData,
}

/// The mathematical view of an adjacency array: all four internal tables,
/// with every index as a plain integer.
pub struct GraphModel<NodeData, EdgeData> {
    pub nodes: Seq<NodeData>,
    pub offsets: Seq<int>,
    pub successors: Seq<int>,
    pub keys: Seq<KeyModel>,
    pub edges: Seq<EdgeModel<EdgeData>>,
}

impl<NodeData, EdgeData> GraphModel<NodeData, EdgeData> {
    /// Number of directed nodes: two per bidirected node.
    pub open spec fn directed_node_count(self) -> int {
        2 * self.nodes.len() as int
    }

    /// Number of directed edges: two per bidirected edge.
    pub open spec fn directed_edge_count(self) -> int {
        2 * self.edges.len() as int
    }

    /// The record of bidirected edge `e` occupies two valid, distinct
    /// successor-table positions which are mutual inverses, and exactly the
    /// forward one carries the payload back-reference.
    pub open spec fn edge_slots_wf(self, e: int) -> bool {
        &&& 0 <= self.edges[e].forward < self.successors.len()
        &&& 0 <= self.edges[e].reverse < self.successors.len()
        &&& self.edges[e].forward != self.edges[e].reverse
        &&& self.keys[self.edges[e].forward] == (KeyModel {
            inverse: self.edges[e].reverse,
            data_index: Some(e),
        })
        &&& self.keys[self.edges[e].reverse] == (KeyModel {
            inverse: self.edges[e].forward,
            data_index: None,
        })
    }

    /// Some bidirected edge owns successor-table position `k`.
    pub open spec fn slot_claimed(self, k: int) -> bool {
        exists|e: int|
            #![trigger self.edges[e]]
            0 <= e < self.edges.len() && (self.edges[e].forward == k || self.edges[e].reverse
                == k)
    }

    /// The bidirected edge that directed edge `k` resolves to: the one named
    /// by `k`'s own back-reference, or, where that is absent, by the
    /// back-reference of `k`'s inverse.  Resolution terminates in one hop.
    pub open spec fn resolved_data_index(self, k: int) -> int {
        match self.keys[k].data_index {
            Some(e) => e,
            None => match self.keys[self.keys[k].inverse].data_index {
                Some(e) => e,
                None => arbitrary(),
            },
        }
    }

    /// Whether the directed edge at position `k`, leaving directed node `d`,
    /// is reported by the incidence scan: one whose destination coincides
    /// with `d` or with its inverse belongs to a self loop, whose dual scan
    /// entry resolves to the same bidirected edge, so it is reported only
    /// from its forward storage slot.
    pub open spec fn incident_kept(self, d: int, k: int) -> bool {
        if self.successors[k] == d || self.successors[k] == spec_invert(d) {
            self.keys[k].data_index is Some
        } else {
            true
        }
    }

    /// The bidirected edges reported for the successor positions
    /// `[start, end)` of directed node `d`, in position order.
    pub open spec fn incident_range(self, d: int, start: int, end: int) -> Seq<int>
        decreases end - start,
    {
        if end <= start {
            Seq::empty()
        } else {
            self.incident_range(d, start, end - 1) + if self.incident_kept(d, end - 1) {
                seq![self.resolved_data_index(end - 1)]
            } else {
                Seq::empty()
            }
        }
    }

    /// The bidirected edges incident to bidirected node `node`: both sides'
    /// successor ranges, deduplicated as `incident_kept` says.
    pub open spec fn incident_edges(self, node: int) -> Seq<int> {
        let forward_side = spec_directed_node(node, true);
        let reverse_side = spec_directed_node(node, false);
        self.incident_range(
            forward_side,
            self.offsets[forward_side],
            self.offsets[forward_side + 1],
        ) + self.incident_range(
            reverse_side,
            self.offsets[reverse_side],
            self.offsets[reverse_side + 1],
        )
    }

    /// Well-formedness of the whole layout: table sizes agree, the offset
    /// table is a monotone scan from `0` to the directed edge count, every
    /// successor entry is a valid directed node, every payload record owns
    /// its two slots as `edge_slots_wf` says, and every successor-table
    /// position belongs to some bidirected edge.
    pub open spec fn wf(self) -> bool {
        &&& self.directed_node_count() + 1 <= usize::MAX
        &&& self.directed_edge_count() <= usize::MAX
        &&& self.offsets.len() == self.directed_node_count() + 1
        &&& self.successors.len() == self.directed_edge_count()
        &&& self.keys.len() == self.successors.len()
        &&& self.offsets[0] == 0
        &&& self.offsets[self.directed_node_count()] == self.successors.len()
        &&& forall|i: int, j: int|
            0 <= i <= j < self.offsets.len() ==> self.offsets[i] <= self.offsets[j]
        &&& forall|k: int|
            0 <= k < self.successors.len() ==> 0 <= #[trigger] self.successors[k]
                < self.directed_node_count()
        &&& forall|e: int| 0 <= e < self.edges.len() ==> self.edge_slots_wf(e)
        &&& forall|k: int| 0 <= k < self.keys.len() ==> #[trigger] self.slot_claimed(k)
    }
}

/// In a well-formed layout, payload resolution always succeeds in one hop:
/// either a directed edge's own back-reference or its inverse's is present,
/// and it names the bidirected edge owning the slot.
pub proof fn lemma_resolution<NodeData, EdgeData>(g: GraphModel<NodeData, EdgeData>, k: int)
    requires
        g.wf(),
        0 <= k < g.keys.len(),
    ensures
        0 <= g.keys[k].inverse < g.keys.len(),
        0 <= g.resolved_data_index(k) < g.edges.len(),
        g.keys[k].data_index is Some ==> g.edges[g.resolved_data_index(k)].forward == k,
        g.keys[k].data_index is None ==> g.edges[g.resolved_data_index(k)].reverse == k
            && g.keys[g.keys[k].inverse].data_index is Some,
{
    assert(g.slot_claimed(k));
    let e = choose|e: int|
        #![trigger g.edges[e]]
        0 <= e < g.edges.len() && (g.edges[e].forward == k || g.edges[e].reverse == k);
    assert(g.edge_slots_wf(e));
}

/// Inversion of directed edges, through the key table, is involutive and
/// has no fixed point: every directed edge's inverse is a different valid
/// directed edge whose inverse is the original.
pub proof fn lemma_edge_inversion_involutive<NodeData, EdgeData>(
    g: GraphModel<NodeData, EdgeData>,
    k: int,
)
    requires
        g.wf(),
        0 <= k < g.keys.len(),
    ensures
        0 <= g.keys[k].inverse < g.keys.len(),
        g.keys[k].inverse != k,
        g.keys[g.keys[k].inverse].inverse == k,
{
    assert(g.slot_claimed(k));
    let e = choose|e: int|
        #![trigger g.edges[e]]
        0 <= e < g.edges.len() && (g.edges[e].forward == k || g.edges[e].reverse == k);
    assert(g.edge_slots_wf(e));
}

/// Degree conservation: in a well-formed layout the two directed edges
/// derived from a bidirected edge are distinct mutual inverses, and exactly
/// one of the pair — the forward one — has a present payload back-reference.
pub proof fn lemma_degree_conservation<NodeData, EdgeData>(
    g: GraphModel<NodeData, EdgeData>,
    e: int,
)
    requires
        g.wf(),
        0 <= e < g.edges.len(),
    ensures
        g.edges[e].forward != g.edges[e].reverse,
        g.keys[g.edges[e].forward].inverse == g.edges[e].reverse,
        g.keys[g.edges[e].reverse].inverse == g.edges[e].forward,
        g.keys[g.edges[e].forward].data_index == Some(e),
        g.keys[g.edges[e].reverse].data_index is None,
{
    assert(g.edge_slots_wf(e));
}

/// Offset monotonicity: in a well-formed layout the offset table is
/// non-decreasing, starts at zero, and its final entry equals twice the
/// bidirected edge count.
pub proof fn lemma_offset_monotonicity<NodeData, EdgeData>(g: GraphModel<NodeData, EdgeData>)
    requires
        g.wf(),
    ensures
        forall|i: int, j: int| 0 <= i <= j < g.offsets.len() ==> g.offsets[i] <= g.offsets[j],
        g.offsets[0] == 0,
        g.offsets[g.directed_node_count()] == g.directed_edge_count(),
{
}

/// Self-loop classification: the two destinations stored for a bidirected
/// edge are identical exactly for an opposite-orientation self loop, mutual
/// inverses exactly for a same-orientation self loop, and otherwise neither.
/// The three cases are mutually exclusive and exhaustive, and they decide
/// which branch the endpoint reconstruction takes.
pub proof fn lemma_self_loop_classification<EdgeData>(edges: Seq<BidirectedEdge<EdgeData>>, e: int)
    requires
        0 <= e < edges.len(),
    ensures
        edges[e].from@ == edges[e].to@ && edges[e].from_forward == edges[e].to_forward ==> (
        claim_dest(edges, 2 * e) == spec_invert(claim_dest(edges, 2 * e + 1)) && claim_dest(
            edges,
            2 * e,
        ) != claim_dest(edges, 2 * e + 1)),
        edges[e].from@ == edges[e].to@ && edges[e].from_forward != edges[e].to_forward
            ==> claim_dest(edges, 2 * e) == claim_dest(edges, 2 * e + 1),
        edges[e].from@ != edges[e].to@ ==> (claim_dest(edges, 2 * e) != claim_dest(edges, 2 * e + 1)
            && claim_dest(edges, 2 * e) != spec_invert(claim_dest(edges, 2 * e + 1))),
{
    assert((2 * e) / 2 == e);
    assert((2 * e + 1) / 2 == e);
}

/// The origin of the forward directed edge derived from a bidirected edge:
/// the `from` side as given.
pub open spec fn fwd_claim<EdgeData>(edge: BidirectedEdge<EdgeData>) -> int {
    spec_directed_node(edge.from@, edge.from_forward)
}

/// The origin of the reverse directed edge derived from a bidirected edge:
/// the inverted `to` side.
pub open spec fn rev_claim<EdgeData>(edge: BidirectedEdge<EdgeData>) -> int {
    spec_invert(spec_directed_node(edge.to@, edge.to_forward))
}

/// The successor-table claims that the construction makes, in order: edge
/// `e` claims a slot at its forward origin (claim `2*e`), then one at its
/// reverse origin (claim `2*e + 1`).
pub open spec fn claim_seq<EdgeData>(edges: Seq<BidirectedEdge<EdgeData>>) -> Seq<int> {
    Seq::new(
        2 * edges.len(),
        |j: int|
            if j % 2 == 0 {
                fwd_claim(edges[j / 2])
            } else {
                rev_claim(edges[j / 2])
            },
    )
}

/// The destination written for claim `j`: the `to` side as given for the
/// forward directed edge, the inverted `from` side for the reverse one.
pub open spec fn claim_dest<EdgeData>(edges: Seq<BidirectedEdge<EdgeData>>, j: int) -> int {
    if j % 2 == 0 {
        spec_directed_node(edges[j / 2].to@, edges[j / 2].to_forward)
    } else {
        spec_invert(spec_directed_node(edges[j / 2].from@, edges[j / 2].from_forward))
    }
}

/// How many entries of `s` equal `d`.
pub open spec fn count_eq(s: Seq<int>, d: int) -> int
    decreases s.len(),
{
    if s.len() == 0 {
        0
    } else {
        count_eq(s.drop_last(), d) + if s.last() == d {
            1int
        } else {
            0int
        }
    }
}

/// How many entries of `s` are smaller than `d`.
pub open spec fn count_below(s: Seq<int>, d: int) -> int
    decreases s.len(),
{
    if s.len() == 0 {
        0
    } else {
        count_below(s.drop_last(), d) + if s.last() < d {
            1int
        } else {
            0int
        }
    }
}

/// The successor-table position that claim `j` receives: the bucket of its
/// origin directed node is filled from its upper end downwards, one position
/// per earlier claim on the same origin.
#[verifier::opaque]
pub open spec fn claim_slot(c: Seq<int>, j: int) -> int {
    count_below(c, c[j] + 1) - count_eq(c.take(j), c[j]) - 1
}

proof fn lemma_count_eq_push(s: Seq<int>, x: int, d: int)
    ensures
        count_eq(s.push(x), d) == count_eq(s, d) + if x == d {
            1int
        } else {
            0int
        },
{
    assert(s.push(x).drop_last() =~= s);
}

proof fn lemma_count_eq_bounds(s: Seq<int>, d: int)
    ensures
        0 <= count_eq(s, d) <= s.len(),
    decreases s.len(),
{
    if s.len() > 0 {
        lemma_count_eq_bounds(s.drop_last(), d);
    }
}

proof fn lemma_count_below_bounds(s: Seq<int>, d: int)
    ensures
        0 <= count_below(s, d) <= s.len(),
    decreases s.len(),
{
    if s.len() > 0 {
        lemma_count_below_bounds(s.drop_last(), d);
    }
}

/// Entries below `d + 1` are the entries below `d` plus those equal to `d`.
proof fn lemma_count_split(s: Seq<int>, d: int)
    ensures
        count_below(s, d + 1) == count_below(s, d) + count_eq(s, d),
    decreases s.len(),
{
    if s.len() > 0 {
        lemma_count_split(s.drop_last(), d);
    }
}

proof fn lemma_count_below_monotone(s: Seq<int>, d1: int, d2: int)
    requires
        d1 <= d2,
    ensures
        count_below(s, d1) <= count_below(s, d2),
    decreases s.len(),
{
    if s.len() > 0 {
        lemma_count_below_monotone(s.drop_last(), d1, d2);
    }
}

/// When every entry lies in `[0, hi)`, no entry is below `0` and all are
/// below any bound at least `hi`.
proof fn lemma_count_below_range(s: Seq<int>, hi: int, d: int)
    requires
        forall|i: int| 0 <= i < s.len() ==> 0 <= #[trigger] s[i] < hi,
    ensures
        d <= 0 ==> count_below(s, d) == 0,
        d >= hi ==> count_below(s, d) == s.len(),
    decreases s.len(),
{
    if s.len() > 0 {
        assert(s.drop_last() =~= s.take(s.len() - 1));
        lemma_count_below_range(s.drop_last(), hi, d);
    }
}

/// A prefix never holds more matching entries than a longer prefix.
proof fn lemma_count_eq_prefix_monotone(s: Seq<int>, j1: int, j2: int, d: int)
    requires
        0 <= j1 <= j2 <= s.len(),
    ensures
        count_eq(s.take(j1), d) <= count_eq(s.take(j2), d),
    decreases j2 - j1,
{
    if j1 < j2 {
        lemma_count_eq_prefix_monotone(s, j1, j2 - 1, d);
        assert(s.take(j2 - 1).push(s[j2 - 1]) =~= s.take(j2));
        lemma_count_eq_push(s.take(j2 - 1), s[j2 - 1], d);
    }
}

/// Strictly before position `j` there are strictly fewer entries equal to
/// `s[j]` than in the whole sequence.
proof fn lemma_count_eq_strict(s: Seq<int>, j: int)
    requires
        0 <= j < s.len(),
    ensures
        count_eq(s.take(j), s[j]) < count_eq(s, s[j]),
{
    assert(s.take(j).push(s[j]) =~= s.take(j + 1));
    lemma_count_eq_push(s.take(j), s[j], s[j]);
    lemma_count_eq_prefix_monotone(s, j + 1, s.len() as int, s[j]);
    assert(s.take(s.len() as int) =~= s);
}

/// Every claim's slot lies inside the bucket of its origin directed node.
proof fn lemma_slot_in_bucket(c: Seq<int>, j: int)
    requires
        0 <= j < c.len(),
    ensures
        count_below(c, c[j]) <= claim_slot(c, j) < count_below(c, c[j] + 1),
{
    reveal(claim_slot);
    lemma_count_split(c, c[j]);
    lemma_count_eq_strict(c, j);
    lemma_count_eq_bounds(c.take(j), c[j]);
}

/// Distinct claims receive distinct slots.
proof fn lemma_slot_injective(c: Seq<int>, j1: int, j2: int)
    requires
        0 <= j1 < c.len(),
        0 <= j2 < c.len(),
        j1 != j2,
    ensures
        claim_slot(c, j1) != claim_slot(c, j2),
{
    reveal(claim_slot);
    if c[j1] == c[j2] {
        let lo = if j1 < j2 {
            j1
        } else {
            j2
        };
        let hi = if j1 < j2 {
            j2
        } else {
            j1
        };
        assert(c.take(lo).push(c[lo]) =~= c.take(lo + 1));
        lemma_count_eq_push(c.take(lo), c[lo], c[j1]);
        lemma_count_eq_prefix_monotone(c, lo + 1, hi, c[j1]);
    } else {
        let lo = if c[j1] < c[j2] {
            j1
        } else {
            j2
        };
        let hi = if c[j1] < c[j2] {
            j2
        } else {
            j1
        };
        lemma_slot_in_bucket(c, lo);
        lemma_slot_in_bucket(c, hi);
        lemma_count_below_monotone(c, c[lo] + 1, c[hi]);
    }
}

/// When every claim origin lies in `[0, hi)`, every slot is a valid
/// successor-table position.
proof fn lemma_slot_range(c: Seq<int>, hi: int, j: int)
    requires
        forall|i: int| 0 <= i < c.len() ==> 0 <= #[trigger] c[i] < hi,
        0 <= j < c.len(),
    ensures
        0 <= claim_slot(c, j) < c.len(),
{
    lemma_slot_in_bucket(c, j);
    lemma_count_below_range(c, hi, 0);
    lemma_count_below_monotone(c, 0, c[j]);
    lemma_count_below_bounds(c, c[j] + 1);
}

/// Every successor-table position is some claim's slot: the slots are
/// `c.len()` distinct values inside `[0, c.len())`, so they cover it.
proof fn lemma_slot_coverage(c: Seq<int>, hi: int, k: int)
    requires
        forall|i: int| 0 <= i < c.len() ==> 0 <= #[trigger] c[i] < hi,
        0 <= k < c.len(),
    ensures
        exists|j: int| 0 <= j < c.len() && claim_slot(c, j) == k,
{
    broadcast use vstd::seq_lib::group_seq_properties;
    broadcast use vstd::set::group_set_axioms;

    let slots = Seq::new(c.len(), |j: int| claim_slot(c, j));
    assert forall|j1: int, j2: int| 0 <= j1 < j2 < slots.len() implies slots[j1] != slots[j2] by {
        lemma_slot_injective(c, j1, j2);
    }
    assert(slots.no_duplicates());
    slots.unique_seq_to_set();
    if !(exists|j: int| 0 <= j < c.len() && claim_slot(c, j) == k) {
        let missing = set_int_range(0, c.len() as int).remove(k);
        assert forall|x: int| slots.to_set().contains(x) implies missing.contains(x) by {
            let j = choose|j: int| 0 <= j < slots.len() && slots[j] == x;
            lemma_slot_in_bucket(c, j);
            lemma_count_below_range(c, hi, 0);
            lemma_count_below_monotone(c, 0, c[j]);
            lemma_count_below_bounds(c, c[j] + 1);
            assert(0 <= x < c.len());
            assert(x != k);
        }
        lemma_int_range(0, c.len() as int);
        lemma_len_subset(slots.to_set(), missing);
        assert(false);
    }
}

/// Extending a prefix by one entry raises its count for that entry's value.
proof fn lemma_count_eq_take_step(s: Seq<int>, j: int, d: int)
    requires
        0 <= j < s.len(),
    ensures
        count_eq(s.take(j + 1), d) == count_eq(s.take(j), d) + if s[j] == d {
            1int
        } else {
            0int
        },
{
    assert(s.take(j).push(s[j]) =~= s.take(j + 1));
    lemma_count_eq_push(s.take(j), s[j], d);
}

/// A layout whose offsets, slots, and keys come out of the counting-sort
/// construction on `all_edges` is well formed.
proof fn lemma_built_wf<NodeData, EdgeData>(
    g: GraphModel<NodeData, EdgeData>,
    all_edges: Seq<BidirectedEdge<EdgeData>>,
    n: int,
    m: int,
)
    requires
        n >= 0,
        m >= 0,
        2 * n + 1 <= usize::MAX,
        2 * m <= usize::MAX,
        g.nodes.len() == n,
        all_edges.len() == m,
        forall|e: int|
            #![trigger all_edges[e]]
            0 <= e < m ==> all_edges[e].from@ < n && all_edges[e].to@ < n,
        g.offsets.len() == 2 * n + 1,
        forall|d: int|
            0 <= d <= 2 * n ==> #[trigger] g.offsets[d] == count_below(claim_seq(all_edges), d),
        g.successors.len() == 2 * m,
        g.keys.len() == 2 * m,
        g.edges.len() == m,
        forall|k: int| 0 <= k < 2 * m ==> 0 <= #[trigger] g.successors[k] < 2 * n,
        forall|e: int|
            #![trigger g.edges[e]]
            0 <= e < m ==> g.edges[e].forward == claim_slot(claim_seq(all_edges), 2 * e)
                && g.edges[e].reverse == claim_slot(claim_seq(all_edges), 2 * e + 1),
        forall|e: int|
            #![trigger claim_slot(claim_seq(all_edges), 2 * e)]
            0 <= e < m ==> g.keys[claim_slot(claim_seq(all_edges), 2 * e)] == (KeyModel {
                inverse: claim_slot(claim_seq(all_edges), 2 * e + 1),
                data_index: Some(e),
            }) && g.keys[claim_slot(claim_seq(all_edges), 2 * e + 1)] == (KeyModel {
                inverse: claim_slot(claim_seq(all_edges), 2 * e),
                data_index: None,
            }),
    ensures
        g.wf(),
{
    let c = claim_seq(all_edges);
    assert forall|j: int| 0 <= j < c.len() implies 0 <= #[trigger] c[j] < 2 * n by {
        let e = j / 2;
        assert(all_edges[e].from@ < n && all_edges[e].to@ < n);
        crate::index::lemma_invert_directed_node(all_edges[e].to@, all_edges[e].to_forward);
    }
    lemma_count_below_range(c, 2 * n, 0);
    lemma_count_below_range(c, 2 * n, 2 * n);
    assert(g.offsets[0] == 0);
    assert(g.offsets[2 * n] == 2 * m);
    assert forall|i: int, j: int| 0 <= i <= j < g.offsets.len() implies g.offsets[i] <= g.offsets[j] by {
        lemma_count_below_monotone(c, i, j);
    }
    assert forall|e: int| 0 <= e < g.edges.len() implies g.edge_slots_wf(e) by {
        lemma_slot_range(c, 2 * n, 2 * e);
        lemma_slot_range(c, 2 * n, 2 * e + 1);
        lemma_slot_injective(c, 2 * e, 2 * e + 1);
        assert(g.edges[e].forward == claim_slot(claim_seq(all_edges), 2 * e));
        assert(g.edges[e].reverse == claim_slot(claim_seq(all_edges), 2 * e + 1));
    }
    assert forall|k: int| 0 <= k < g.keys.len() implies #[trigger] g.slot_claimed(k) by {
        lemma_slot_coverage(c, 2 * n, k);
        let j = choose|j: int| 0 <= j < c.len() && claim_slot(c, j) == k;
        let e = j / 2;
        if j % 2 == 0 {
            assert(g.edges[e].forward == k);
        } else {
            assert(g.edges[e].reverse == k);
        }
    }
}

/// One per-directed-edge key record: the index of the inverse directed edge
/// and an optional back-reference to the shared payload slot.
#[derive(Debug, Clone, Copy)]
struct EdgeDataKey {
    inverse: DirectedEdgeIndex,
    data_index: OptionalEdgeIndex,
}

/// One payload record: the payload and the two directed-edge positions
/// assigned to its bidirected edge during construction.
#[derive(Debug)]
struct BidirectedEdgeData<EdgeData> {
    forward: DirectedEdgeIndex,
    reverse: DirectedEdgeIndex,
    data: EdgeData,
}

/// One traversable arrow between two directed nodes, as reported by
/// [`BidirectedAdjacencyArray::iter_outgoing_edges`].
pub struct DirectedEdge {
    pub from: DirectedNodeIndex,
    pub to: DirectedNodeIndex,
    pub index: DirectedEdgeIndex,
}

impl DirectedEdge {
    pub fn from(&self) -> (r: DirectedNodeIndex)
        ensures
            r == self.from,
    {
        self.from
    }

    pub fn to(&self) -> (r: DirectedNodeIndex)
        ensures
            r == self.to,
    {
        self.to
    }

    pub fn index(&self) -> (r: DirectedEdgeIndex)
        ensures
            r == self.index,
    {
        self.index
    }
}

/// The payload view of one directed edge: whether this directed edge is the
/// forward storage slot, the owning bidirected edge, and the shared payload.
pub struct DirectedEdgeDataView<'a, EdgeData> {
    pub is_forward: bool,
    pub edge: EdgeIndex,
    pub data: &'a EdgeData,
}

impl<'a, EdgeData> DirectedEdgeDataView<'a, EdgeData> {
    pub fn is_forward(&self) -> (r: bool)
        ensures
            r == self.is_forward,
    {
        self.is_forward
    }

    pub fn edge(&self) -> (r: EdgeIndex)
        ensures
            r == self.edge,
    {
        self.edge
    }

    pub fn data(&self) -> (r: &'a EdgeData)
        ensures
            r == self.data,
    {
        self.data
    }
}

/// A bidirected edge's reconstructed view: its directed endpoints, its two
/// directed-edge positions, and its payload.
pub struct EdgeView<'a, EdgeData> {
    pub from: DirectedNodeIndex,
    pub to: DirectedNodeIndex,
    pub forward: DirectedEdgeIndex,
    pub reverse: DirectedEdgeIndex,
    pub data: &'a EdgeData,
}

impl<'a, EdgeData> EdgeView<'a, EdgeData> {
    pub fn from(&self) -> (r: DirectedNodeIndex)
        ensures
            r == self.from,
    {
        self.from
    }

    pub fn to(&self) -> (r: DirectedNodeIndex)
        ensures
            r == self.to,
    {
        self.to
    }

    pub fn forward(&self) -> (r: DirectedEdgeIndex)
        ensures
            r == self.forward,
    {
        self.forward
    }

    pub fn reverse(&self) -> (r: DirectedEdgeIndex)
        ensures
            r == self.reverse,
    {
        self.reverse
    }

    pub fn data(&self) -> (r: &'a EdgeData)
        ensures
            r == self.data,
    {
        self.data
    }
}

/// The adjacency array.  Built atomically by [`BidirectedAdjacencyArray::new`]
/// and immutable afterwards.
#[derive(Debug)]
pub struct BidirectedAdjacencyArray<NodeData, EdgeData> {
    /// Maps each directed node to the start of its successor range; the last
    /// element is a sentinel equal to the directed edge count.
    node_array: Vec<DirectedEdgeIndex>,
    /// The flat successor table: the destination directed node of every
    /// directed edge.
    edge_array: Vec<DirectedNodeIndex>,
    /// Data associated with the bidirected nodes.
    node_data: Vec<NodeData>,
    /// Keys for finding the data associated with the directed edges.
    edge_data_keys: Vec<EdgeDataKey>,
    /// The actual edge data, one record per bidirected edge.
    edge_data: Vec<BidirectedEdgeData<EdgeData>>,
}

impl<NodeData, EdgeData> View for BidirectedAdjacencyArray<NodeData, EdgeData> {
    type V = GraphModel<NodeData, EdgeData>;

    closed spec fn view(&self) -> GraphModel<NodeData, EdgeData> {
        GraphModel {
            nodes: self.node_data@,
            offsets: self.node_array@.map_values(|x: DirectedEdgeIndex| x@),
            successors: self.edge_array@.map_values(|x: DirectedNodeIndex| x@),
            keys: self.edge_data_keys@.map_values(
                |k: EdgeDataKey| KeyModel { inverse: k.inverse@, data_index: k.data_index@ },
            ),
            edges: self.edge_data@.map_values(
                |d: BidirectedEdgeData<EdgeData>| EdgeModel {
                    forward: d.forward@,
                    reverse: d.reverse@,
                    data: d.data,
                },
            ),
        }
    }
}

impl<NodeData, EdgeData> BidirectedAdjacencyArray<NodeData, EdgeData> {
    /// Builds the adjacency array from a node-data sequence (position =
    /// bidirected node index) and a bidirected edge list (position =
    /// bidirected edge index), by counting sort: count the out-degree of
    /// every directed node, turn the counts into offsets by a prefix sum,
    /// then fill every bucket from its upper end downwards in input order.
    ///
    /// The result is fully determined: the offset table holds, for each
    /// directed node, the number of claims on smaller directed nodes; edge
    /// `e` receives the slots of its two claims; and each slot holds the
    /// claim's destination.
    #[verifier::rlimit(100)]
    pub fn new(nodes: Vec<NodeData>, edges: Vec<BidirectedEdge<EdgeData>>) -> (r: Self)
        requires
            forall|e: int|
                #![trigger edges@[e]]
                0 <= e < edges@.len() ==> edges@[e].from@ < nodes@.len() && edges@[e].to@
                    < nodes@.len(),
            2 * nodes@.len() + 1 <= usize::MAX,
            2 * edges@.len() <= usize::MAX,
        ensures
            r@.wf(),
            r@.nodes == nodes@,
            r@.edges.len() == edges@.len(),
            forall|e: int|
                #![trigger r@.edges[e]]
                0 <= e < edges@.len() ==> r@.edges[e].data == edges@[e].data
                    && r@.edges[e].forward == claim_slot(claim_seq(edges@), 2 * e)
                    && r@.edges[e].reverse == claim_slot(claim_seq(edges@), 2 * e + 1),
            forall|d: int|
                0 <= d <= 2 * nodes@.len() ==> #[trigger] r@.offsets[d] == count_below(
                    claim_seq(edges@),
                    d,
                ),
            forall|j: int|
                0 <= j < 2 * edges@.len() ==> #[trigger] r@.successors[claim_slot(
                    claim_seq(edges@),
                    j,
                )] == claim_dest(edges@, j),
    {
        broadcast use vstd::seq_lib::group_seq_properties;

        let n = nodes.len();
        let m = edges.len();
        let ghost all_edges = edges@;
        let ghost c = claim_seq(all_edges);

        proof {
            assert forall|j: int| 0 <= j < c.len() implies 0 <= #[trigger] c[j] < 2 * n by {
                let e = j / 2;
                assert(all_edges[e].from@ < n && all_edges[e].to@ < n);
                crate::index::lemma_invert_directed_node(all_edges[e].to@, all_edges[e].to_forward);
            }
        }

        // Counting pass: one claim at the edge's forward origin, one at its
        // reverse origin, per edge.
        let mut node_array: Vec<DirectedEdgeIndex> = Vec::new();
        let node_array_len = 2 * n + 1;
        for i in 0..node_array_len
            invariant
                node_array@.len() == i,
                forall|d: int| 0 <= d < i ==> (#[trigger] node_array@[d])@ == 0,
        {
            node_array.push(DirectedEdgeIndex::zero());
        }

        proof {
            assert(c.take(0) =~= Seq::<int>::empty());
            assert forall|d: int| 0 <= d < 2 * n + 1 implies (#[trigger] node_array@[d])@
                == count_eq(c.take(0), d) by {}
        }

        for e in 0..m
            invariant
                2 * n + 1 <= usize::MAX,
                2 * m <= usize::MAX,
                edges@ == all_edges,
                all_edges.len() == m,
                forall|e2: int|
                    #![trigger all_edges[e2]]
                    0 <= e2 < m ==> all_edges[e2].from@ < n && all_edges[e2].to@ < n,
                c == claim_seq(all_edges),
                c.len() == 2 * m,
                forall|j: int| 0 <= j < c.len() ==> 0 <= #[trigger] c[j] < 2 * n,
                node_array@.len() == 2 * n + 1,
                forall|d: int|
                    0 <= d < 2 * n + 1 ==> (#[trigger] node_array@[d])@ == count_eq(
                        c.take(2 * e),
                        d,
                    ),
        {
            let edge = &edges[e];
            let from_directed_forward = DirectedNodeIndex::from_bidirected(
                edge.from,
                edge.from_forward,
            );
            let to_directed_forward = DirectedNodeIndex::from_bidirected(edge.to, edge.to_forward);
            let from_directed_reverse = to_directed_forward.invert();
            proof {
                assert((2 * e as int) / 2 == e as int);
                assert((2 * e as int + 1) / 2 == e as int);
                assert(c[2 * e as int] == from_directed_forward@);
                assert(c[2 * e as int + 1] == from_directed_reverse@);
            }

            let idx_f = from_directed_forward.into_usize();
            let cur_f = node_array[idx_f];
            proof {
                lemma_count_eq_bounds(c.take(2 * e as int), idx_f as int);
                lemma_count_eq_take_step(c, 2 * e as int, idx_f as int);
            }
            node_array[idx_f] = DirectedEdgeIndex::new(cur_f.into_usize() + 1);
            proof {
                assert forall|d: int| 0 <= d < 2 * n + 1 implies (#[trigger] node_array@[d])@
                    == count_eq(c.take(2 * e as int + 1), d) by {
                    lemma_count_eq_take_step(c, 2 * e as int, d);
                }
            }

            let idx_r = from_directed_reverse.into_usize();
            let cur_r = node_array[idx_r];
            proof {
                lemma_count_eq_bounds(c.take(2 * e as int + 1), idx_r as int);
                lemma_count_eq_take_step(c, 2 * e as int + 1, idx_r as int);
            }
            node_array[idx_r] = DirectedEdgeIndex::new(cur_r.into_usize() + 1);
            proof {
                assert forall|d: int| 0 <= d < 2 * n + 1 implies (#[trigger] node_array@[d])@
                    == count_eq(c.take(2 * (e as int + 1)), d) by {
                    lemma_count_eq_take_step(c, 2 * e as int + 1, d);
                    assert(2 * (e as int + 1) == 2 * e as int + 2);
                }
            }
        }

        proof {
            assert(c.take(2 * m as int) =~= c);
        }

        // Prefix-sum pass: convert counts to inclusive edge-list limits; the
        // final sum is the sentinel and equals the directed edge count.
        proof {
            lemma_count_below_range(c, 2 * n as int, 0);
        }
        let mut sum: usize = 0;
        for d in 0..node_array_len
            invariant
                node_array_len == 2 * n + 1,
                2 * m <= usize::MAX,
                c.len() == 2 * m,
                forall|j: int| 0 <= j < c.len() ==> 0 <= #[trigger] c[j] < 2 * n,
                node_array@.len() == 2 * n + 1,
                sum == count_below(c, d as int),
                forall|d2: int|
                    0 <= d2 < d ==> (#[trigger] node_array@[d2])@ == count_below(c, d2 + 1),
                forall|d2: int|
                    d <= d2 < 2 * n + 1 ==> (#[trigger] node_array@[d2])@ == count_eq(c, d2),
        {
            proof {
                lemma_count_split(c, d as int);
                lemma_count_below_bounds(c, d as int + 1);
                lemma_count_eq_bounds(c, d as int);
            }
            let next = sum + node_array[d].into_usize();
            node_array[d] = DirectedEdgeIndex::new(next);
            sum = next;
        }
        let directed_edge_count = sum;
        proof {
            lemma_count_below_range(c, 2 * n as int, 2 * n as int + 1);
            assert(directed_edge_count == 2 * m);
        }

        // Placement pass: fill every bucket from its upper end downwards by
        // decrementing the bucket limit, in input order; this also restores
        // the offset table to the correct start-of-range values.
        let mut edge_array: Vec<DirectedNodeIndex> = Vec::new();
        let mut edge_data_keys: Vec<EdgeDataKey> = Vec::new();
        let mut edge_data: Vec<BidirectedEdgeData<EdgeData>> = Vec::new();
        proof {
            if m > 0 {
                assert(all_edges[0].from@ < n);
            }
        }
        for i in 0..directed_edge_count
            invariant
                directed_edge_count == 2 * m,
                m > 0 ==> n > 0,
                edge_array@.len() == i,
                edge_data_keys@.len() == i,
                forall|k: int| 0 <= k < i ==> 0 <= (#[trigger] edge_array@[k])@ < 2 * n,
                forall|k: int|
                    0 <= k < i ==> (#[trigger] edge_data_keys@[k]).data_index@ is None,
        {
            edge_array.push(DirectedNodeIndex::new(0));
            edge_data_keys.push(
                EdgeDataKey { inverse: DirectedEdgeIndex::zero(), data_index: OptionalEdgeIndex::new_none() },
            );
        }

        let mut edges = edges;
        for e in 0..m
            invariant
                2 * n + 1 <= usize::MAX,
                2 * m <= usize::MAX,
                all_edges.len() == m,
                c == claim_seq(all_edges),
                c.len() == 2 * m,
                forall|j: int| 0 <= j < c.len() ==> 0 <= #[trigger] c[j] < 2 * n,
                forall|e2: int|
                    #![trigger all_edges[e2]]
                    0 <= e2 < m ==> all_edges[e2].from@ < n && all_edges[e2].to@ < n,
                edges@ == all_edges.subrange(e as int, m as int),
                node_array@.len() == 2 * n + 1,
                forall|d: int|
                    0 <= d < 2 * n + 1 ==> (#[trigger] node_array@[d])@ == count_below(c, d + 1)
                        - count_eq(c.take(2 * e), d),
                edge_array@.len() == 2 * m,
                forall|k: int| 0 <= k < 2 * m ==> 0 <= (#[trigger] edge_array@[k])@ < 2 * n,
                forall|j: int|
                    0 <= j < 2 * e ==> (#[trigger] edge_array@[claim_slot(c, j)])@ == claim_dest(
                        all_edges,
                        j,
                    ),
                edge_data_keys@.len() == 2 * m,
                forall|e2: int|
                    #![trigger edge_data@[e2]]
                    0 <= e2 < e ==> edge_data@[e2].forward@ == claim_slot(c, 2 * e2)
                        && edge_data@[e2].reverse@ == claim_slot(c, 2 * e2 + 1)
                        && edge_data@[e2].data == all_edges[e2].data,
                forall|e2: int|
                    #![trigger claim_slot(c, 2 * e2)]
                    0 <= e2 < e ==> edge_data_keys@[claim_slot(c, 2 * e2)].inverse@ == claim_slot(
                        c,
                        2 * e2 + 1,
                    ) && edge_data_keys@[claim_slot(c, 2 * e2)].data_index@ == Some(e2)
                        && edge_data_keys@[claim_slot(c, 2 * e2 + 1)].inverse@ == claim_slot(
                        c,
                        2 * e2,
                    ) && edge_data_keys@[claim_slot(c, 2 * e2 + 1)].data_index@ is None,
                edge_data@.len() == e,
        {
            proof {
                assert(edges@.len() == m - e);
                assert(all_edges.subrange(e as int, m as int)[0] == all_edges[e as int]);
            }
            let edge = edges.remove(0);
            proof {
                assert(all_edges.subrange(e as int, m as int).remove(0) =~= all_edges.subrange(
                    e as int + 1,
                    m as int,
                ));
            }
            let from_directed_forward = DirectedNodeIndex::from_bidirected(
                edge.from,
                edge.from_forward,
            );
            let to_directed_forward = DirectedNodeIndex::from_bidirected(edge.to, edge.to_forward);
            let from_directed_reverse = to_directed_forward.invert();
            let to_directed_reverse = from_directed_forward.invert();
            proof {
                assert((2 * e as int) / 2 == e as int);
                assert((2 * e as int + 1) / 2 == e as int);
                assert(c[2 * e as int] == from_directed_forward@);
                assert(c[2 * e as int + 1] == from_directed_reverse@);
                assert(claim_dest(all_edges, 2 * e as int) == to_directed_forward@);
                assert(claim_dest(all_edges, 2 * e as int + 1) == to_directed_reverse@);
            }

            // Claim the forward slot.
            let idx_f = from_directed_forward.into_usize();
            proof {
                lemma_count_eq_strict(c, 2 * e as int);
                lemma_count_split(c, idx_f as int);
                lemma_count_below_bounds(c, idx_f as int);
                lemma_count_eq_take_step(c, 2 * e as int, idx_f as int);
            }
            let slot_f = node_array[idx_f].into_usize() - 1;
            node_array[idx_f] = DirectedEdgeIndex::new(slot_f);
            proof {
                assert(slot_f == claim_slot(c, 2 * e as int)) by {
                    reveal(claim_slot);
                }
                assert forall|d: int| 0 <= d < 2 * n + 1 implies (#[trigger] node_array@[d])@
                    == count_below(c, d + 1) - count_eq(c.take(2 * e as int + 1), d) by {
                    lemma_count_eq_take_step(c, 2 * e as int, d);
                }
            }

            // Claim the reverse slot.
            let idx_r = from_directed_reverse.into_usize();
            proof {
                lemma_count_eq_strict(c, 2 * e as int + 1);
                lemma_count_split(c, idx_r as int);
                lemma_count_below_bounds(c, idx_r as int);
                lemma_count_eq_take_step(c, 2 * e as int + 1, idx_r as int);
            }
            let slot_r = node_array[idx_r].into_usize() - 1;
            node_array[idx_r] = DirectedEdgeIndex::new(slot_r);
            proof {
                assert(slot_r == claim_slot(c, 2 * e as int + 1)) by {
                    reveal(claim_slot);
                }
                assert forall|d: int| 0 <= d < 2 * n + 1 implies (#[trigger] node_array@[d])@
                    == count_below(c, d + 1) - count_eq(c.take(2 * (e as int + 1)), d) by {
                    lemma_count_eq_take_step(c, 2 * e as int + 1, d);
                    assert(2 * (e as int + 1) == 2 * e as int + 2);
                }
                lemma_slot_range(c, 2 * n as int, 2 * e as int);
                lemma_slot_range(c, 2 * n as int, 2 * e as int + 1);
                lemma_slot_injective(c, 2 * e as int, 2 * e as int + 1);
                assert forall|j: int| 0 <= j < 2 * e implies #[trigger] claim_slot(c, j) != slot_f
                    && claim_slot(c, j) != slot_r by {
                    lemma_slot_injective(c, j, 2 * e as int);
                    lemma_slot_injective(c, j, 2 * e as int + 1);
                }
                crate::index::lemma_invert_directed_node(
                    all_edges[e as int].from@,
                    all_edges[e as int].from_forward,
                );
            }

            let ghost edge_array_pre = edge_array@;
            edge_array[slot_f] = to_directed_forward;
            edge_array[slot_r] = to_directed_reverse;
            proof {
                assert forall|j: int| 0 <= j < 2 * (e + 1) implies (#[trigger] edge_array@[claim_slot(c, j)])@ == claim_dest(all_edges, j) by {
                    lemma_slot_range(c, 2 * n as int, j);
                    if j < 2 * e {
                        assert(edge_array@[claim_slot(c, j)] == edge_array_pre[claim_slot(c, j)]);
                    } else if j == 2 * e {
                        assert(claim_slot(c, j) == slot_f);
                    } else {
                        assert(claim_slot(c, j) == slot_r);
                    }
                }
            }

            let forward_index = DirectedEdgeIndex::new(slot_f);
            let reverse_index = DirectedEdgeIndex::new(slot_r);
            let ghost keys_pre = edge_data_keys@;
            edge_data_keys[slot_f] = EdgeDataKey {
                inverse: reverse_index,
                data_index: OptionalEdgeIndex::new_some(EdgeIndex::new(e)),
            };
            edge_data_keys[slot_r] = EdgeDataKey {
                inverse: forward_index,
                data_index: OptionalEdgeIndex::new_none(),
            };
            proof {
                assert forall|e2: int|
                    #![trigger claim_slot(c, 2 * e2)]
                    0 <= e2 < e + 1 implies edge_data_keys@[claim_slot(c, 2 * e2)].inverse@
                    == claim_slot(c, 2 * e2 + 1) && edge_data_keys@[claim_slot(
                    c,
                    2 * e2,
                )].data_index@ == Some(e2) && edge_data_keys@[claim_slot(c, 2 * e2 + 1)].inverse@
                    == claim_slot(c, 2 * e2) && edge_data_keys@[claim_slot(
                    c,
                    2 * e2 + 1,
                )].data_index@ is None by {
                    assert(all_edges[e2] == all_edges[e2]);
                    lemma_slot_range(c, 2 * n as int, 2 * e2);
                    lemma_slot_range(c, 2 * n as int, 2 * e2 + 1);
                    assert(e < usize::MAX);
                    if e2 < e {
                        assert(claim_slot(c, 2 * e2) != slot_f && claim_slot(c, 2 * e2) != slot_r);
                        assert(claim_slot(c, 2 * e2 + 1) != slot_f && claim_slot(c, 2 * e2 + 1)
                            != slot_r);
                        assert(edge_data_keys@[claim_slot(c, 2 * e2)] == keys_pre[claim_slot(
                            c,
                            2 * e2,
                        )]);
                        assert(edge_data_keys@[claim_slot(c, 2 * e2 + 1)] == keys_pre[claim_slot(
                            c,
                            2 * e2 + 1,
                        )]);
                    } else {
                        assert(claim_slot(c, 2 * e2) == slot_f);
                        assert(claim_slot(c, 2 * e2 + 1) == slot_r);
                    }
                }
            }
            edge_data.push(
                BidirectedEdgeData { forward: forward_index, reverse: reverse_index, data: edge.data },
            );
        }

        let result = BidirectedAdjacencyArray {
            node_array,
            edge_array,
            node_data: nodes,
            edge_data_keys,
            edge_data,
        };

        proof {
            assert(c.take(2 * m as int) =~= c);
            assert forall|d: int| 0 <= d <= 2 * n implies #[trigger] result@.offsets[d]
                == count_below(c, d) by {
                lemma_count_split(c, d);
            }
            assert forall|e2: int|
                #![trigger result@.edges[e2]]
                0 <= e2 < m implies result@.edges[e2].data == all_edges[e2].data
                && result@.edges[e2].forward == claim_slot(c, 2 * e2) && result@.edges[e2].reverse
                == claim_slot(c, 2 * e2 + 1) by {
                assert(edge_data@[e2] == edge_data@[e2]);
            }
            assert forall|j: int| 0 <= j < 2 * m implies #[trigger] result@.successors[claim_slot(
                c,
                j,
            )] == claim_dest(all_edges, j) by {
                lemma_slot_range(c, 2 * n as int, j);
            }
            assert forall|e2: int|
                #![trigger claim_slot(c, 2 * e2)]
                0 <= e2 < m implies result@.keys[claim_slot(c, 2 * e2)] == (KeyModel {
                inverse: claim_slot(c, 2 * e2 + 1),
                data_index: Some(e2),
            }) && result@.keys[claim_slot(c, 2 * e2 + 1)] == (KeyModel {
                inverse: claim_slot(c, 2 * e2),
                data_index: None,
            }) by {
                lemma_slot_range(c, 2 * n as int, 2 * e2);
                lemma_slot_range(c, 2 * n as int, 2 * e2 + 1);
            }
            lemma_built_wf(result@, all_edges, n as int, m as int);
        }

        result
    }

    /// Number of bidirected nodes.
    pub fn node_count(&self) -> (r: usize)
        ensures
            r == self@.nodes.len(),
    {
        self.node_data.len()
    }

    /// Number of bidirected edges.
    pub fn edge_count(&self) -> (r: usize)
        ensures
            r == self@.edges.len(),
    {
        self.edge_data.len()
    }

    /// All valid bidirected node indices, in ascending order.
    pub fn iter_nodes(&self) -> (r: Vec<NodeIndex>)
        ensures
            r@.len() == self@.nodes.len(),
            forall|i: int| 0 <= i < r@.len() ==> #[trigger] r@[i]@ == i,
    {
        let mut result: Vec<NodeIndex> = Vec::new();
        let count = self.node_data.len();
        for i in 0..count
            invariant
                result@.len() == i,
                forall|k: int| 0 <= k < i ==> #[trigger] result@[k]@ == k,
        {
            result.push(NodeIndex::new(i));
        }
        result
    }

    /// All valid bidirected edge indices, in ascending order.
    pub fn iter_edges(&self) -> (r: Vec<EdgeIndex>)
        ensures
            r@.len() == self@.edges.len(),
            forall|i: int| 0 <= i < r@.len() ==> #[trigger] r@[i]@ == i,
    {
        let mut result: Vec<EdgeIndex> = Vec::new();
        let count = self.edge_data.len();
        for i in 0..count
            invariant
                result@.len() == i,
                forall|k: int| 0 <= k < i ==> #[trigger] result@[k]@ == k,
        {
            result.push(EdgeIndex::new(i));
        }
        result
    }

    /// Borrowed reference to a node's data.
    pub fn node_data(&self, node: NodeIndex) -> (r: &NodeData)
        requires
            0 <= node@ < self@.nodes.len(),
        ensures
            *r == self@.nodes[node@],
    {
        &self.node_data[node.into_usize()]
    }

    /// All directed edges leaving the given directed node: the successor
    /// slice `[offsets[node], offsets[node + 1])`, in slice order.
    pub fn iter_outgoing_edges(&self, node: DirectedNodeIndex) -> (r: Vec<DirectedEdge>)
        requires
            self@.wf(),
            0 <= node@ < self@.directed_node_count(),
        ensures
            r@.len() == self@.offsets[node@ + 1] - self@.offsets[node@],
            forall|i: int|
                #![trigger r@[i]]
                0 <= i < r@.len() ==> r@[i].from == node && r@[i].index@ == self@.offsets[node@]
                    + i && r@[i].to@ == self@.successors[self@.offsets[node@] + i],
    {
        let start = self.node_array[node.into_usize()].into_usize();
        let end = self.node_array[node.into_usize() + 1].into_usize();
        let ghost g = self@;
        proof {
            assert(g.offsets[node@] <= g.offsets[node@ + 1] <= g.offsets[g.directed_node_count()]);
        }
        let mut result: Vec<DirectedEdge> = Vec::new();
        for k in start..end
            invariant
                g == self@,
                g.wf(),
                start == g.offsets[node@],
                end == g.offsets[node@ + 1],
                end <= g.successors.len(),
                result@.len() == k - start,
                forall|i: int|
                    #![trigger result@[i]]
                    0 <= i < result@.len() ==> result@[i].from == node && result@[i].index@ == start
                        + i && result@[i].to@ == g.successors[start + i],
        {
            let to_node = self.edge_array[k];
            result.push(DirectedEdge { from: node, to: to_node, index: DirectedEdgeIndex::new(k) });
        }
        result
    }

    /// Reconstructs a bidirected edge's directed endpoints from its two
    /// stored directed-edge positions.  Three disjoint cases arise: the two
    /// destinations coincide (an opposite-orientation self loop), they are
    /// mutual inverses (a same-orientation self loop), or the edge is
    /// general; in every case the reported endpoints are the inverted
    /// reverse-slot destination and the forward-slot destination.
    pub fn edge(&self, edge: EdgeIndex) -> (r: EdgeView<'_, EdgeData>)
        requires
            self@.wf(),
            0 <= edge@ < self@.edges.len(),
        ensures
            r.forward@ == self@.edges[edge@].forward,
            r.reverse@ == self@.edges[edge@].reverse,
            *r.data == self@.edges[edge@].data,
            r.to@ == self@.successors[self@.edges[edge@].forward],
            r.from@ == spec_invert(self@.successors[self@.edges[edge@].reverse]),
    {
        let ghost g = self@;
        proof {
            assert(g.edge_slots_wf(edge@));
        }
        let bidirected_edge_data = &self.edge_data[edge.into_usize()];

        let forward_to = self.edge_array[bidirected_edge_data.forward.into_usize()];
        let reverse_to = self.edge_array[bidirected_edge_data.reverse.into_usize()];
        proof {
            assert(forward_to@ == g.successors[g.edges[edge@].forward]);
            assert(reverse_to@ == g.successors[g.edges[edge@].reverse]);
            assert(forward_to@ < g.directed_node_count());
            assert(reverse_to@ < g.directed_node_count());
        }

        if forward_to == reverse_to {
            // Opposite-orientation self loop: both directed edges go from the
            // node's one side to the other, so both destinations coincide.
            let from = forward_to.invert();
            let to = forward_to;
            EdgeView {
                from,
                to,
                forward: bidirected_edge_data.forward,
                reverse: bidirected_edge_data.reverse,
                data: &bidirected_edge_data.data,
            }
        } else if forward_to.invert() == reverse_to {
            // Same-orientation self loop: both directed edges are self loops,
            // and the two destinations are mutual inverses.
            proof {
                crate::index::lemma_invert_involutive(forward_to@);
            }
            let from = forward_to;
            let to = forward_to;
            EdgeView {
                from,
                to,
                forward: bidirected_edge_data.forward,
                reverse: bidirected_edge_data.reverse,
                data: &bidirected_edge_data.data,
            }
        } else {
            // General edge between two distinct directed nodes.
            let from = reverse_to.invert();
            let to = forward_to;
            EdgeView {
                from,
                to,
                forward: bidirected_edge_data.forward,
                reverse: bidirected_edge_data.reverse,
                data: &bidirected_edge_data.data,
            }
        }
    }

    /// The payload view of one directed edge: its own back-reference where
    /// present, else its inverse's.  In a well-formed structure one of the
    /// two is always present.
    pub fn directed_edge_data<'this>(&'this self, directed_edge: DirectedEdgeIndex) -> (r:
        DirectedEdgeDataView<'this, EdgeData>)
        requires
            self@.wf(),
            0 <= directed_edge@ < self@.directed_edge_count(),
        ensures
            r.is_forward == (self@.keys[directed_edge@].data_index is Some),
            r.edge@ == self@.resolved_data_index(directed_edge@),
            *r.data == self@.edges[self@.resolved_data_index(directed_edge@)].data,
    {
        let ghost g = self@;
        proof {
            lemma_resolution(g, directed_edge@);
        }
        let key = &self.edge_data_keys[directed_edge.into_usize()];
        match key.data_index.into_option() {
            Some(edge) => DirectedEdgeDataView {
                is_forward: true,
                edge,
                data: &self.edge_data[edge.into_usize()].data,
            },
            None => {
                let inverse_key = &self.edge_data_keys[key.inverse.into_usize()];
                match inverse_key.data_index.into_option() {
                    Some(edge) => DirectedEdgeDataView {
                        is_forward: false,
                        edge,
                        data: &self.edge_data[edge.into_usize()].data,
                    },
                    None => vstd::pervasive::unreached(),
                }
            },
        }
    }

    /// The bidirected edge that a directed edge belongs to.
    pub fn directed_edge_into_bidirected(&self, directed_edge: DirectedEdgeIndex) -> (r: EdgeIndex)
        requires
            self@.wf(),
            0 <= directed_edge@ < self@.directed_edge_count(),
        ensures
            r@ == self@.resolved_data_index(directed_edge@),
    {
        let ghost g = self@;
        proof {
            lemma_resolution(g, directed_edge@);
        }
        let key = &self.edge_data_keys[directed_edge.into_usize()];
        match key.data_index.into_option() {
            Some(edge) => edge,
            None => {
                let inverse_key = &self.edge_data_keys[key.inverse.into_usize()];
                match inverse_key.data_index.into_option() {
                    Some(edge) => edge,
                    None => vstd::pervasive::unreached(),
                }
            },
        }
    }

    /// The bidirected edges incident to the given bidirected node: the union
    /// of both sides' outgoing directed edges mapped to bidirected edge
    /// identities, where a directed edge of either self-loop variety is
    /// reported only from its forward storage slot, so that each bidirected
    /// edge appears once per incidence.
    pub fn iter_incident_edges(&self, node: NodeIndex) -> (r: Vec<EdgeIndex>)
        requires
            self@.wf(),
            0 <= node@ < self@.nodes.len(),
        ensures
            r@.map_values(|x: EdgeIndex| x@) == self@.incident_edges(node@),
    {
        let forward_node = DirectedNodeIndex::from_bidirected(node, true);
        let reverse_node = DirectedNodeIndex::from_bidirected(node, false);
        let mut result = self.incident_side(forward_node);
        let mut rest = self.incident_side(reverse_node);
        let ghost left = result@;
        let ghost right = rest@;
        result.append(&mut rest);
        proof {
            assert(result@.map_values(|x: EdgeIndex| x@) =~= left.map_values(|x: EdgeIndex| x@)
                + right.map_values(|x: EdgeIndex| x@));
        }
        result
    }

    /// The incident-edge report for one directed node's successor range.
    fn incident_side(&self, node: DirectedNodeIndex) -> (r: Vec<EdgeIndex>)
        requires
            self@.wf(),
            0 <= node@ < self@.directed_node_count(),
        ensures
            r@.map_values(|x: EdgeIndex| x@) == self@.incident_range(
                node@,
                self@.offsets[node@],
                self@.offsets[node@ + 1],
            ),
    {
        let start = self.node_array[node.into_usize()].into_usize();
        let end = self.node_array[node.into_usize() + 1].into_usize();
        let inverted_node = node.invert();
        let ghost g = self@;
        proof {
            assert(g.offsets[node@] <= g.offsets[node@ + 1] <= g.offsets[g.directed_node_count()]);
        }
        let mut result: Vec<EdgeIndex> = Vec::new();
        for k in start..end
            invariant
                g == self@,
                g.wf(),
                start == g.offsets[node@],
                end == g.offsets[node@ + 1],
                end <= g.successors.len(),
                0 <= node@ < g.directed_node_count(),
                inverted_node@ == spec_invert(node@),
                result@.map_values(|x: EdgeIndex| x@) == g.incident_range(node@, start as int, k as int),
        {
            let to_node = self.edge_array[k];
            let keep_only_forward = to_node == node || to_node == inverted_node;
            let data_view = self.directed_edge_data(DirectedEdgeIndex::new(k));
            let ghost result_pre = result@;
            if !keep_only_forward || data_view.is_forward {
                result.push(data_view.edge);
            }
            proof {
                assert(result@.map_values(|x: EdgeIndex| x@) =~= g.incident_range(
                    node@,
                    start as int,
                    k + 1,
                ));
            }
        }
        result
    }
}

} // verus!
