//! The dispatch tree of lattice reduction: which algorithm a problem goes
//! to, from its rank, dimension, precision and parameters.

use crate::lattice::{Lattice, entries_bits_fit, entries_fit, max_entry_bits};
use crate::integer::{bit_len, abs};
use vstd::prelude::*;

verus! {

/// Rank up to which, at low precision, the classical reduction is used.
pub const FPLLL_CROSSOVER_N: usize = 32;

/// Precision up to which, at low rank, the classical reduction is used.
pub const FPLLL_CROSSOVER_PREC: u32 = 128;

/// Precision from which rank-2 problems leave the Lagrange reduction.
pub const LAGRANGE_MAX_PREC: u32 = 1400;

/// The algorithm a reduction problem is routed to.
#[derive(PartialEq, Eq, Structural, Debug, Clone, Copy)]
pub enum Route {
    /// Classical LLL, which also stands in for the relative size
    /// reduction with a second basis, for Schoenhage's algorithm and for
    /// the external FPLLL library.
    Lll,
    /// Lagrange reduction of a rank-2 lattice of dimension 2.
    Lagrange,
    /// Proved reduction of an upper-triangular basis with a valid block.
    Proved3,
    /// Proved reduction of an upper-triangular basis.
    Proved2,
    /// Proved reduction of any basis.
    Proved1,
    /// Phase 0: irregular bases.
    Irregular,
    /// Phase 1 with an unknown condition number.
    CondUnknown,
    /// Phase 1 with a known condition number.
    Heuristic1,
    /// Phase 2: one sublattice per round.
    Heuristic2,
    /// Phase 3, on more than one thread.
    Threaded3,
    /// Phase 3, on one thread.
    Heuristic3,
}

/// The facts about a problem that the dispatch reads.
#[derive(PartialEq, Eq, Structural, Debug, Clone, Copy)]
pub struct Problem {
    /// Rank of the lattice.
    pub n: usize,
    /// Dimension of the lattice.
    pub m: usize,
    /// Bits in the largest entry of the basis.
    pub prec: u32,
    /// The external classical reduction is allowed.
    pub fplll: bool,
    /// A second basis with at least one column comes along.
    pub has_b2: bool,
    /// A proved reduction is asked for.
    pub proved: bool,
    /// The basis is upper triangular.
    pub is_upper_triangular: bool,
    /// Number of leading valid columns of the profile, from the left.
    pub lvalid: usize,
    /// Number of leading valid columns of the profile, from the right.
    pub rvalid: usize,
    /// Phase of the reduction (0, 1, 2, 3 and up).
    pub phase: u32,
    /// The condition number is known (its logarithm is not zero).
    pub log_cond_known: bool,
    /// More than one worker thread is available.
    pub threaded: bool,
}

/// The dispatch tree.
pub open spec fn spec_route(p: Problem) -> Route {
    if p.n <= 2 {
        if p.has_b2 {
            Route::Lll
        } else if p.prec < LAGRANGE_MAX_PREC && p.n == 2 && p.m == 2 {
            Route::Lagrange
        } else {
            Route::Lll
        }
    } else if p.proved {
        if p.has_b2 {
            Route::Lll
        } else if p.is_upper_triangular && p.lvalid > 0 && p.lvalid == p.rvalid {
            Route::Proved3
        } else if p.is_upper_triangular {
            Route::Proved2
        } else {
            Route::Proved1
        }
    } else if p.phase == 0 {
        Route::Irregular
    } else if p.phase == 1 {
        if p.log_cond_known {
            Route::Heuristic1
        } else {
            Route::CondUnknown
        }
    } else if p.n <= FPLLL_CROSSOVER_N && p.prec <= FPLLL_CROSSOVER_PREC && p.fplll {
        Route::Lll
    } else if p.phase == 2 {
        Route::Heuristic2
    } else if p.has_b2 {
        Route::Lll
    } else if p.threaded {
        Route::Threaded3
    } else {
        Route::Heuristic3
    }
}

/// The dispatch laws, branch by branch:
/// - rank at most 2: Lagrange for a rank-2 basis of dimension 2 below 1400
///   bits without a second basis, classical LLL otherwise;
/// - a proved reduction: LLL with a second basis, else `Proved3` for an
///   upper-triangular basis whose left and right valid counts agree and
///   are positive, `Proved2` for another upper-triangular one, `Proved1`
///   otherwise;
/// - phase 0: `Irregular`; phase 1: `Heuristic1` when the condition number
///   is known, `CondUnknown` otherwise;
/// - every phase from 2 on: classical LLL at rank at most 32 and at most
///   128 bits when the external reduction is allowed; otherwise
///   `Heuristic2` at phase 2, and from phase 3 on LLL with a second basis,
///   `Threaded3` with several threads, `Heuristic3` with one.
pub proof fn lemma_route_laws(p: Problem)
    ensures
        p.n <= 2 && p.has_b2 ==> spec_route(p) == Route::Lll,
        p.n <= 2 && !p.has_b2 && p.prec < 1400 && p.n == 2 && p.m == 2 ==> spec_route(p) == Route::Lagrange,
        p.n <= 2 && !p.has_b2 && !(p.prec < 1400 && p.n == 2 && p.m == 2) ==> spec_route(p) == Route::Lll,
        p.n > 2 && p.proved && p.has_b2 ==> spec_route(p) == Route::Lll,
        p.n > 2 && p.proved && !p.has_b2 && p.is_upper_triangular && p.lvalid > 0 && p.lvalid == p.rvalid
            ==> spec_route(p) == Route::Proved3,
        p.n > 2 && p.proved && !p.has_b2 && p.is_upper_triangular && !(p.lvalid > 0 && p.lvalid == p.rvalid)
            ==> spec_route(p) == Route::Proved2,
        p.n > 2 && p.proved && !p.has_b2 && !p.is_upper_triangular ==> spec_route(p) == Route::Proved1,
        p.n > 2 && !p.proved && p.phase == 0 ==> spec_route(p) == Route::Irregular,
        p.n > 2 && !p.proved && p.phase == 1 && p.log_cond_known ==> spec_route(p) == Route::Heuristic1,
        p.n > 2 && !p.proved && p.phase == 1 && !p.log_cond_known ==> spec_route(p) == Route::CondUnknown,
        p.n > 2 && !p.proved && p.phase >= 2 && p.n <= 32 && p.prec <= 128 && p.fplll ==> spec_route(p) == Route::Lll,
        p.n > 2 && !p.proved && p.phase == 2 && !(p.n <= 32 && p.prec <= 128 && p.fplll) ==> spec_route(p)
            == Route::Heuristic2,
        p.n > 2 && !p.proved && p.phase >= 3 && !(p.n <= 32 && p.prec <= 128 && p.fplll) && p.has_b2 ==> spec_route(p)
            == Route::Lll,
        p.n > 2 && !p.proved && p.phase >= 3 && !(p.n <= 32 && p.prec <= 128 && p.fplll) && !p.has_b2 && p.threaded
            ==> spec_route(p) == Route::Threaded3,
        p.n > 2 && !p.proved && p.phase >= 3 && !(p.n <= 32 && p.prec <= 128 && p.fplll) && !p.has_b2
            && !p.threaded ==> spec_route(p) == Route::Heuristic3,
{
}

/// The classical-reduction crossover does not depend on the phase: two
/// non-proved problems of rank above 2 that differ only in their phase,
/// both from 2 on, go to LLL together when the crossover applies.
pub proof fn lemma_route_crossover_any_phase(p: Problem, q: Problem)
    requires
        p.n > 2,
        !p.proved,
        p.phase >= 2,
        q.phase >= 2,
        q == (Problem { phase: q.phase, ..p }),
        p.n <= 32,
        p.prec <= 128,
        p.fplll,
    ensures
        spec_route(p) == Route::Lll,
        spec_route(q) == spec_route(p),
{
}

/// The algorithm that problem `p` goes to.
pub fn route(p: &Problem) -> (r: Route)
    ensures
        r == spec_route(*p),
{
    if p.n <= 2 {
        if p.has_b2 {
            return Route::Lll;
        }
        if p.prec < LAGRANGE_MAX_PREC && p.n == 2 && p.m == 2 {
            return Route::Lagrange;
        }
        return Route::Lll;
    }
    if p.proved {
        if p.has_b2 {
            return Route::Lll;
        }
        if p.is_upper_triangular && p.lvalid > 0 && p.lvalid == p.rvalid {
            return Route::Proved3;
        }
        if p.is_upper_triangular {
            return Route::Proved2;
        }
        return Route::Proved1;
    }
    match p.phase {
        0 => Route::Irregular,
        1 => {
            if p.log_cond_known {
                Route::Heuristic1
            } else {
                Route::CondUnknown
            }
        },
        _ => {
            if p.n <= FPLLL_CROSSOVER_N && p.prec <= FPLLL_CROSSOVER_PREC && p.fplll {
                return Route::Lll;
            }
            if p.phase == 2 {
                Route::Heuristic2
            } else {
                if p.has_b2 {
                    return Route::Lll;
                }
                if p.threaded {
                    Route::Threaded3
                } else {
                    Route::Heuristic3
                }
            }
        },
    }
}

/// The precision of a basis: the number of bits in its largest entry.
pub fn estimated_prec(l: &Lattice) -> (r: u32)
    requires
        l.basis.wf(),
        entries_bits_fit(l.basis),
    ensures
        forall|i: int, j: int|
            0 <= i < l.basis.nrows && 0 <= j < l.basis.ncols ==> bit_len(abs(#[trigger] l.basis.at(i, j))) <= r,
        r == 0 || exists|i: int, j: int|
            0 <= i < l.basis.nrows && 0 <= j < l.basis.ncols && r == bit_len(abs(#[trigger] l.basis.at(i, j))),
{
    let bits = max_entry_bits(&l.basis);
    proof {
        if bits != 0 {
            let (i, j) = choose|i: int, j: int|
                0 <= i < l.basis.nrows && 0 <= j < l.basis.ncols && bits == bit_len(abs(#[trigger] l.basis.at(i, j)));
            assert(bit_len(abs(l.basis.at(i, j))) <= u32::MAX);
        }
    }
    bits as u32
}

/// [`estimated_prec`] when every entry has at most `u32::MAX` binary
/// digits, and `None` otherwise.
pub fn try_estimated_prec(l: &Lattice) -> (r: Option<u32>)
    requires
        l.basis.wf(),
    ensures
        r is Some <==> entries_bits_fit(l.basis),
        r matches Some(p) ==> {
            &&& forall|i: int, j: int|
                0 <= i < l.basis.nrows && 0 <= j < l.basis.ncols ==> bit_len(abs(#[trigger] l.basis.at(i, j))) <= p
            &&& p == 0 || exists|i: int, j: int|
                0 <= i < l.basis.nrows && 0 <= j < l.basis.ncols && p == bit_len(abs(#[trigger] l.basis.at(i, j)))
        },
{
    if entries_fit(&l.basis) {
        Some(estimated_prec(l))
    } else {
        None
    }
}

} // verus!
