//! A dependency-graph task scheduler.
//!
//! Callers describe units of work as nodes with explicit "depends on"
//! edges.  The graph stays acyclic under mutation, and a ready-queue
//! scheduler drives execution in an order consistent with the edges,
//! capturing per-node failures.

use vstd::prelude::*;

pub mod cycle;
pub mod dag;
pub mod errors;
pub mod flow;

verus! {

} // verus!
