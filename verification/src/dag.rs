//! The standalone dependency graph: cycle-safety enforced on every
//! edge insertion.

pub mod dag;
pub mod node;
