//! Structural-misuse errors reported by the graph operations.

use vstd::prelude::*;

verus! {

/// A structural error raised while mutating or validating a graph.
///
/// These are misuse errors: the operation that reports one commits no
/// part of its mutation, so the graph is exactly as it was before the
/// call.
#[derive(Debug, Clone, Copy, PartialEq, Eq, Structural)]
pub enum DagError {
    /// An edge referenced a node outside the graph's registered set.
    NodeNotRegistered,
    /// The mutation or validation found a cycle; the payload is the id
    /// of a node that lies on such a cycle.
    CycleDetected(usize),
    /// The graph has no node with an empty dependency set, so execution
    /// could never start.
    NoRoots,
}

impl DagError {
    /// A short human-readable description of the error.
    pub fn describe(&self) -> (r: &'static str)
        ensures
            r@ == match self {
                DagError::NodeNotRegistered => "edge endpoint is not registered in the graph"@,
                DagError::CycleDetected(_) => "edge set contains a cycle"@,
                DagError::NoRoots => "graph has no roots"@,
            },
    {
        match self {
            DagError::NodeNotRegistered => "edge endpoint is not registered in the graph",
            DagError::CycleDetected(_) => "edge set contains a cycle",
            DagError::NoRoots => "graph has no roots",
        }
    }
}

} // verus!

