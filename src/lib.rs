//! Orbit invariants of indexed monomials under relabelling of their indices,
//! an incremental builder for pairwise invariants, and colour refinement on
//! directed graphs.

pub mod orbits;
pub mod pairwise;
pub mod polynom;
pub mod weisfeiler_leman;
