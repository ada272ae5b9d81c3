use vstd::prelude::*;

verus! {

/// Why a graph operation refused to act.
#[derive(Debug, Clone, Copy, PartialEq, Eq, Structural)]
pub enum GraphError {
    /// The single node named by the call is not registered.
    NodeNotFound,
    /// The source endpoint of an edge or path is not registered.
    FromNodeNotFound,
    /// The target endpoint of an edge or path is not registered.
    ToNodeNotFound,
}

} // verus!
