use vstd::prelude::*;

verus! {

/// Everything that can go wrong when building or querying a graph.
#[derive(Debug, PartialEq, Eq, Structural, Clone, Copy)]
pub enum Error {
    /// A vertex identifier was used where it is not a member.
    UnknownId(usize),
    /// A vertex identifier was added twice.
    DuplicateId(usize),
    /// A vertex identifier was referenced before being added.
    MissingNode(usize),
    /// An adjacency list names a neighbor whose own list omits the back edge.
    MissingEdge(usize, usize),
    /// An edge was added twice, in either direction.
    DuplicateEdge(usize, usize),
    /// An edge re-uses a terminal that the container does not allow twice.
    InvalidEdge,
    /// A node was referenced that the container does not hold.
    UnknownNode,
    /// A vertex was introduced twice.
    DuplicateNode(usize),
    /// A neighbor index lies beyond the vertex range.
    UnknownIndex(usize),
    /// A row pairs the same neighbor twice, or a vertex with itself.
    DuplicatePairing(usize, usize),
    /// A row names a neighbor whose own row omits the back pairing.
    MissingPairing(usize, usize),
}

} // verus!
