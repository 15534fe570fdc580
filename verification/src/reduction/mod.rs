//! Lattice reduction: the pieces of the reduction driver that decide what
//! to do next.

pub mod cond_unknown;
pub mod dispatch;
pub mod heuristic2;
pub mod preprocess;
pub mod recursive_generic;
pub mod sublattice_split;

use vstd::prelude::*;

verus! {

/// Summary of one reduction run: which algorithm ran and how many outer
/// iterations it took.
#[derive(Debug, Clone, Copy)]
pub struct ReductionReport {
    pub algorithm: &'static str,
    pub iterations: usize,
}

} // verus!
