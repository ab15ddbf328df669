//! The standalone graph's vertices and its task-capability contract.
//!
//! The vertex type is the shared arena entry: a payload plus two edge
//! sets holding arena indices.  This module adds the capability
//! contract used by the standalone graph and the payload accessor that
//! goes with it.

use vstd::prelude::*;

pub use crate::flow::dag::node::Node;

verus! {

/// The task capability of the standalone graph: begin execution, and
/// report whether it was begun or has completed.
pub trait Resolveable {
    /// Whether execution has been invoked, as abstract state.
    spec fn spec_started(&self) -> bool;

    /// Whether execution has completed, as abstract state.
    spec fn spec_resolved(&self) -> bool;

    /// Begins or advances execution.
    fn start(&mut self)
        ensures
            final(self).spec_started(),
    ;

    /// Whether execution has completed.
    fn is_resolved(&self) -> (r: bool)
        ensures
            r == self.spec_resolved(),
    ;

    /// Whether execution has been invoked.
    fn is_started(&self) -> (r: bool)
        ensures
            r == self.spec_started(),
    ;
}

impl<T: Resolveable> Node<T> {
    /// Whether this node's payload reports its execution complete:
    /// pure delegation to the task capability.
    pub fn resolved(&self) -> (r: bool)
        ensures
            r == self.value.spec_resolved(),
    {
        self.value.is_resolved()
    }
}

} // verus!
