//! An in-memory representation of a bidirected graph: every node has a
//! forward and a reverse side, and every edge connects a specific side of
//! one node to a specific side of another.  The adjacency array is built
//! once from a complete edge list by a counting-sort construction and is
//! immutable afterwards.

pub mod compare;
pub mod graph;
pub mod index;
pub mod io;
pub mod random;

pub use index::DirectedEdgeIndex;
pub use index::DirectedNodeIndex;
pub use index::EdgeIndex;
pub use index::NodeIndex;
pub use index::OptionalEdgeIndex;
