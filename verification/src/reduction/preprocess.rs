//! Preprocessor stages: `Irregular` (phase 0) and `Heuristic1` (phase 1).
//! Each size-reduces the outer basis once and hands the lattice on at
//! phase 2.

use crate::lattice::Lattice;
use vstd::prelude::*;

verus! {

/// Phase-0 stage for rank-deficient or malformed inputs.
pub struct Irregular;

/// Phase-1 stage used when a bound on the condition number is known.
pub struct Heuristic1;

impl Irregular {
    pub fn new() -> (r: Self)
        ensures
            r == Irregular,
    {
        Irregular
    }

    /// The case that needs no work: a lattice of rank at most 1 is left as
    /// it is and takes 0 iterations (`Some(0)`); for a higher rank the
    /// preprocessor has to run (`None`).
    pub fn solve_trivial(&self, l: &Lattice) -> (r: Option<usize>)
        ensures
            r == (if l.rank <= 1 {
                Some(0usize)
            } else {
                None
            }),
    {
        if l.rank <= 1 {
            Some(0)
        } else {
            None
        }
    }
}

impl Heuristic1 {
    pub fn new() -> (r: Self)
        ensures
            r == Heuristic1,
    {
        Heuristic1
    }
}

} // verus!
