//! Strongly distinguished identifier kinds: bidirected node and edge
//! indices, directed node and edge indices, and an optional edge index that
//! is either a valid index or explicitly absent.
//!
//! A bidirected node owns two directed nodes, one per side.  The directed
//! node index encodes the side in its lowest bit: `2 * node` is the forward
//! side, `2 * node + 1` the reverse side.  Inverting a directed index
//! toggles that bit and is involutive.

use vstd::prelude::*;

verus! {

/// The directed-node index of side `forward` of the bidirected node `node`.
pub open spec fn spec_directed_node(node: int, forward: bool) -> int {
    2 * node + if forward {
        0int
    } else {
        1int
    }
}

/// The opposite side of the same bidirected node: toggles the lowest bit.
pub open spec fn spec_invert(d: int) -> int {
    if d % 2 == 0 {
        d + 1
    } else {
        d - 1
    }
}

/// Inversion of directed indices is an involution and has no fixed point.
pub proof fn lemma_invert_involutive(d: int)
    ensures
        spec_invert(spec_invert(d)) == d,
        spec_invert(d) != d,
{
}

/// Inverting one side of a bidirected node yields its other side.
pub proof fn lemma_invert_directed_node(node: int, forward: bool)
    requires
        node >= 0,
    ensures
        spec_invert(spec_directed_node(node, forward)) == spec_directed_node(node, !forward),
{
}

/// Identifies a bidirected node: one logical entity owning one data slot.
#[derive(Clone, Copy, PartialEq, Eq, Structural, Debug, Hash)]
pub struct NodeIndex(pub usize);

/// Identifies a bidirected edge: the position of its data slot, equal to the
/// edge's position in the input edge list of the construction.
#[derive(Clone, Copy, PartialEq, Eq, Structural, Debug, Hash)]
pub struct EdgeIndex(pub usize);

/// Identifies one side of a bidirected node.
#[derive(Clone, Copy, PartialEq, Eq, Structural, Debug, Hash)]
pub struct DirectedNodeIndex(pub usize);

/// Identifies one directed edge, which is also its position in the flat
/// successor table.
#[derive(Clone, Copy, PartialEq, Eq, Structural, Debug, Hash)]
pub struct DirectedEdgeIndex(pub usize);

impl View for NodeIndex {
    type V = int;

    open spec fn view(&self) -> int {
        self.0 as int
    }
}

impl View for EdgeIndex {
    type V = int;

    open spec fn view(&self) -> int {
        self.0 as int
    }
}

impl View for DirectedNodeIndex {
    type V = int;

    open spec fn view(&self) -> int {
        self.0 as int
    }
}

impl View for DirectedEdgeIndex {
    type V = int;

    open spec fn view(&self) -> int {
        self.0 as int
    }
}

impl NodeIndex {
    pub fn new(value: usize) -> (r: Self)
        ensures
            r@ == value,
    {
        NodeIndex(value)
    }

    pub fn from_usize(value: usize) -> (r: Self)
        ensures
            r@ == value,
    {
        NodeIndex(value)
    }

    pub fn into_usize(self) -> (r: usize)
        ensures
            r == self@,
    {
        self.0
    }
}

impl EdgeIndex {
    pub fn new(value: usize) -> (r: Self)
        ensures
            r@ == value,
    {
        EdgeIndex(value)
    }

    pub fn from_usize(value: usize) -> (r: Self)
        ensures
            r@ == value,
    {
        EdgeIndex(value)
    }

    pub fn into_usize(self) -> (r: usize)
        ensures
            r == self@,
    {
        self.0
    }
}

impl DirectedNodeIndex {
    pub fn new(value: usize) -> (r: Self)
        ensures
            r@ == value,
    {
        DirectedNodeIndex(value)
    }

    pub fn from_usize(value: usize) -> (r: Self)
        ensures
            r@ == value,
    {
        DirectedNodeIndex(value)
    }

    pub fn into_usize(self) -> (r: usize)
        ensures
            r == self@,
    {
        self.0
    }

    /// Encodes a bidirected node plus side flag as a directed node.
    pub fn from_bidirected(bidirected: NodeIndex, forward: bool) -> (r: Self)
        requires
            2 * bidirected@ + 1 <= usize::MAX,
        ensures
            r@ == spec_directed_node(bidirected@, forward),
    {
        let base = bidirected.0 * 2;
        if forward {
            DirectedNodeIndex(base)
        } else {
            DirectedNodeIndex(base + 1)
        }
    }

    /// Projects to the owning bidirected node by dropping the side bit.
    pub fn into_bidirected(self) -> (r: NodeIndex)
        ensures
            r@ == self@ / 2,
    {
        NodeIndex(self.0 / 2)
    }

    /// The opposite side of the same bidirected node.
    pub fn invert(self) -> (r: Self)
        requires
            self@ < usize::MAX,
        ensures
            r@ == spec_invert(self@),
    {
        if self.0 % 2 == 0 {
            DirectedNodeIndex(self.0 + 1)
        } else {
            DirectedNodeIndex(self.0 - 1)
        }
    }

    /// True if this directed node is the forward side of its bidirected node.
    pub fn is_forward(self) -> (r: bool)
        ensures
            r == (self@ % 2 == 0),
    {
        self.0 % 2 == 0
    }

    /// True if this directed node is the reverse side of its bidirected node.
    pub fn is_reverse(self) -> (r: bool)
        ensures
            r == (self@ % 2 == 1),
    {
        self.0 % 2 != 0
    }

    pub fn add(self, other: DirectedNodeIndex) -> (r: DirectedNodeIndex)
        requires
            self@ + other@ <= usize::MAX,
        ensures
            r@ == self@ + other@,
    {
        DirectedNodeIndex(self.0 + other.0)
    }
}

impl DirectedEdgeIndex {
    pub fn new(value: usize) -> (r: Self)
        ensures
            r@ == value,
    {
        DirectedEdgeIndex(value)
    }

    pub fn from_usize(value: usize) -> (r: Self)
        ensures
            r@ == value,
    {
        DirectedEdgeIndex(value)
    }

    pub fn into_usize(self) -> (r: usize)
        ensures
            r == self@,
    {
        self.0
    }

    pub fn zero() -> (r: Self)
        ensures
            r@ == 0,
    {
        DirectedEdgeIndex(0)
    }

    pub fn increment(&mut self)
        requires
            old(self)@ < usize::MAX,
        ensures
            final (self)@ == old(self)@ + 1,
    {
        self.0 = self.0 + 1;
    }

    pub fn decrement(&mut self)
        requires
            old(self)@ > 0,
        ensures
            final (self)@ == old(self)@ - 1,
    {
        self.0 = self.0 - 1;
    }

    pub fn add(self, other: DirectedEdgeIndex) -> (r: DirectedEdgeIndex)
        requires
            self@ + other@ <= usize::MAX,
        ensures
            r@ == self@ + other@,
    {
        DirectedEdgeIndex(self.0 + other.0)
    }
}

/// A valid edge index or explicit absence, stored compactly: the absent
/// value is represented by the maximum integer, which is never a valid
/// index because the data slot count of a graph stays below it.
#[derive(Clone, Copy, PartialEq, Eq, Structural, Debug, Hash)]
pub struct OptionalEdgeIndex(pub usize);

impl View for OptionalEdgeIndex {
    type V = Option<int>;

    open spec fn view(&self) -> Option<int> {
        if self.0 == usize::MAX {
            None
        } else {
            Some(self.0 as int)
        }
    }
}

impl OptionalEdgeIndex {
    /// The explicitly absent value.
    pub fn new_none() -> (r: Self)
        ensures
            r@ is None,
    {
        OptionalEdgeIndex(usize::MAX)
    }

    /// Wraps a present index.  Round trip is exact: the same index comes
    /// back out of `into_option`.
    pub fn new_some(index: EdgeIndex) -> (r: Self)
        requires
            index@ < usize::MAX,
        ensures
            r@ == Some(index@),
    {
        OptionalEdgeIndex(index.0)
    }

    pub fn into_option(self) -> (r: Option<EdgeIndex>)
        ensures
            match r {
                Some(index) => self@ == Some(index@),
                None => self@ is None,
            },
    {
        if self.0 == usize::MAX {
            None
        } else {
            Some(EdgeIndex(self.0))
        }
    }

    pub fn is_some(self) -> (r: bool)
        ensures
            r == (self@ is Some),
    {
        self.0 != usize::MAX
    }

    pub fn is_none(self) -> (r: bool)
        ensures
            r == (self@ is None),
    {
        self.0 == usize::MAX
    }
}

} // verus!
