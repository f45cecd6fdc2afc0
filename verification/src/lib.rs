//! Minimal-dependency analysis for a directed graph of named modules.
//!
//! The crate builds a dependency graph over interned module identifiers,
//! computes transitive reachability closures, extracts the ancestor
//! subgraph of a target module, and performs a transitive reduction that
//! keeps only the direct edges not already implied by a longer path.

use vstd::prelude::*;

pub mod bytes;
pub mod graph;
pub mod laws;
pub mod reach;
pub mod scan;

verus! {

/// Recoverable failures of the graph operations.
///
/// `NotFound` reports that a requested module is not a key of the graph.
#[derive(Clone, Copy, Debug, PartialEq, Eq, Structural)]
pub enum Error {
    NotFound,
}

} // verus!
