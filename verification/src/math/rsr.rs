//! `RelativeSizeReduction`, triangular case: size-reduce the columns of a
//! matrix `B2` against an upper-triangular basis `B1` (only the entries of
//! `B1` on and above the diagonal are read).
//!
//! Every column of `B2` is reduced from the bottom row up: with `d` the
//! diagonal entry `B1[row, row]`, the multiple `c = round(B2[row, j] / d)` of
//! column `row` of `B1` is subtracted, and `U[row, j]` records `-c`. When
//! `new_shift` is not zero, each entry whose row has a non-zero diagonal
//! entry is scaled by `2^-new_shift` once its row is done.

use crate::integer::{integer_value, int_add, int_sub, int_mul, int_div_floor, int_is_zero, int_neg, int_shl, int_shr, floor_div};
use crate::lattice::IntMatrix;
use crate::math::size_reduction::{reduced, round_quot, lemma_round_quot};
use vstd::prelude::*;
use vstd::arithmetic::power2::pow2;

verus! {

/// `x · 2^-s`, rounding towards negative infinity when `s > 0`.
pub open spec fn scaled(x: int, s: int) -> int {
    if s == 0 {
        x
    } else if s < 0 {
        x * pow2((-s) as nat)
    } else {
        floor_div(x, pow2(s as nat) as int)
    }
}

/// Entry `(i, l)` of the upper-triangular part of `B1`.
pub open spec fn upper_at(b1: IntMatrix, i: int, l: int) -> int {
    if i <= l {
        b1.at(i, l)
    } else {
        0
    }
}

/// `sum_{l < len} U1[i, l] · C(l, j)` for a coefficient function `C`, with
/// `U1` the upper-triangular part of `B1`.
pub open spec fn dot_fn(b1: IntMatrix, c: spec_fn(int, int) -> int, i: int, j: int, len: int) -> int
    decreases len,
{
    if len <= 0 {
        0
    } else {
        dot_fn(b1, c, i, j, len - 1) + upper_at(b1, i, len - 1) * c(len - 1, j)
    }
}

/// Entry `(row, j)` of `B2_in - B1 · C`, where `C` holds the multiples `c`.
pub open spec fn residue(b1: IntMatrix, b2_in: IntMatrix, c: spec_fn(int, int) -> int, row: int, j: int) -> int {
    b2_in.at(row, j) - dot_fn(b1, c, row, j, b1.nrows as int)
}

/// Entry `(row, j)` is finished: the residue is reduced against the
/// diagonal entry `d = B1[row, row]` (no multiple is taken when `d == 0`),
/// `B2` holds it scaled by `2^-shift` (unscaled when `d == 0`), and `U`
/// holds `-c` where `c` is not zero.
pub open spec fn entry_done(
    b1: IntMatrix,
    b2_in: IntMatrix,
    u_in: IntMatrix,
    b2: IntMatrix,
    u: IntMatrix,
    shift: int,
    c: spec_fn(int, int) -> int,
    row: int,
    j: int,
) -> bool {
    let v = residue(b1, b2_in, c, row, j);
    let d = b1.at(row, row);
    &&& (d == 0 ==> c(row, j) == 0)
    &&& (d != 0 ==> reduced(v, d))
    &&& b2.at(row, j) == (if d == 0 { v } else { scaled(v, shift) })
    &&& u.at(row, j) == (if c(row, j) != 0 { -c(row, j) } else { u_in.at(row, j) })
}

/// What the reduction computes, given the integer multiples `c(row, j)`
/// it subtracted: every entry of `B2` and `U` is finished.
pub open spec fn rsr_result(
    b1: IntMatrix,
    b2_in: IntMatrix,
    u_in: IntMatrix,
    b2_out: IntMatrix,
    u_out: IntMatrix,
    shift: int,
    c: spec_fn(int, int) -> int,
) -> bool {
    forall|row: int, j: int|
        0 <= row < b1.nrows && 0 <= j < b2_in.ncols ==> #[trigger] entry_done(b1, b2_in, u_in, b2_out, u_out, shift, c, row, j)
}

/// Entry `(row, j)` has not been touched yet.
spec fn entry_untouched(
    b2_in: IntMatrix,
    u_in: IntMatrix,
    b2: IntMatrix,
    u: IntMatrix,
    c: spec_fn(int, int) -> int,
    row: int,
    j: int,
) -> bool {
    &&& c(row, j) == 0
    &&& b2.at(row, j) == b2_in.at(row, j)
    &&& u.at(row, j) == u_in.at(row, j)
}

/// Entry `(row, j)` has taken the multiples of the rows below it, and its
/// own is still to come.
spec fn entry_pending(
    b1: IntMatrix,
    b2_in: IntMatrix,
    u_in: IntMatrix,
    b2: IntMatrix,
    u: IntMatrix,
    c: spec_fn(int, int) -> int,
    row: int,
    j: int,
) -> bool {
    &&& c(row, j) == 0
    &&& b2.at(row, j) == residue(b1, b2_in, c, row, j)
    &&& u.at(row, j) == u_in.at(row, j)
}

/// `B1 · C` vanishes on a column where `C` is zero.
proof fn lemma_dot_fn_zero_col(b1: IntMatrix, c: spec_fn(int, int) -> int, i: int, j: int, len: int)
    requires
        forall|l: int| 0 <= l < len ==> #[trigger] c(l, j) == 0,
    ensures
        dot_fn(b1, c, i, j, len) == 0,
    decreases len,
{
    if len > 0 {
        lemma_dot_fn_zero_col(b1, c, i, j, len - 1);
        assert(c(len - 1, j) == 0);
    }
}

/// Setting `c(row, j)` from zero to `cv` adds `U1[i, row] · cv` to
/// `(U1 · C)[i, j]` and leaves the other columns alone.
pub proof fn lemma_dot_fn_update(
    b1: IntMatrix,
    c: spec_fn(int, int) -> int,
    c2: spec_fn(int, int) -> int,
    i: int,
    j: int,
    row: int,
    col: int,
    cv: int,
    len: int,
)
    requires
        c(row, col) == 0,
        forall|a: int, b: int| #[trigger] c2(a, b) == if a == row && b == col { cv } else { c(a, b) },
    ensures
        dot_fn(b1, c2, i, j, len) == dot_fn(b1, c, i, j, len) + if j == col && 0 <= row < len {
            upper_at(b1, i, row) * cv
        } else {
            0
        },
    decreases len,
{
    if len > 0 {
        lemma_dot_fn_update(b1, c, c2, i, j, row, col, cv, len - 1);
        assert(c2(len - 1, j) == if len - 1 == row && j == col { cv } else { c(len - 1, j) });
    }
}

pub struct RsrTriangular<'a> {
    pub b1: &'a IntMatrix,
    pub b2: &'a mut IntMatrix,
    pub u: &'a mut IntMatrix,
    pub new_shift: i32,
}

impl<'a> RsrTriangular<'a> {
    /// A triangular relative size reduction of `b2` against `b1`, recording
    /// the multiples in `u`.
    pub fn new(b1: &'a IntMatrix, b2: &'a mut IntMatrix, u: &'a mut IntMatrix) -> (r: Self)
        requires
            b1.nrows == b1.ncols,
            old(b2).nrows == b1.nrows,
            old(u).nrows == b1.nrows,
            old(u).ncols == old(b2).ncols,
        ensures
            r.b1 == b1,
            *r.b2 == *old(b2),
            *r.u == *old(u),
            *final(b2) == *final(r.b2),
            *final(u) == *final(r.u),
            r.new_shift == 0,
    {
        RsrTriangular { b1, b2, u, new_shift: 0 }
    }

    /// Reduce every column of `b2` against the upper-triangular part of
    /// `b1`.
    pub fn solve(&mut self)
        requires
            old(self).b1.wf(),
            old(self).b2.wf(),
            old(self).u.wf(),
            old(self).b1.nrows == old(self).b1.ncols,
            old(self).b2.nrows == old(self).b1.nrows,
            old(self).u.nrows == old(self).b1.nrows,
            old(self).u.ncols == old(self).b2.ncols,
            old(self).new_shift != i32::MIN,
        ensures
            final(self).b1 == old(self).b1,
            *final(final(self).b2) == *final(old(self).b2),
            *final(final(self).u) == *final(old(self).u),
            final(self).new_shift == old(self).new_shift,
            final(self).b2.wf(),
            final(self).u.wf(),
            final(self).b2.nrows == old(self).b2.nrows,
            final(self).b2.ncols == old(self).b2.ncols,
            final(self).u.nrows == old(self).u.nrows,
            final(self).u.ncols == old(self).u.ncols,
            exists|c: spec_fn(int, int) -> int|
                rsr_result(
                    *old(self).b1,
                    *old(self).b2,
                    *old(self).u,
                    *final(self).b2,
                    *final(self).u,
                    old(self).new_shift as int,
                    c,
                ),
    {
        reduce_triangular(self.b1, self.b2, self.u, self.new_shift);
    }
}

/// The loop of `RsrTriangular::solve`, on the three matrices themselves.
fn reduce_triangular(b1: &IntMatrix, b2: &mut IntMatrix, u: &mut IntMatrix, shift: i32)
    requires
        b1.wf(),
        old(b2).wf(),
        old(u).wf(),
        b1.nrows == b1.ncols,
        old(b2).nrows == b1.nrows,
        old(u).nrows == b1.nrows,
        old(u).ncols == old(b2).ncols,
        shift != i32::MIN,
    ensures
        final(b2).wf(),
        final(u).wf(),
        final(b2).nrows == old(b2).nrows,
        final(b2).ncols == old(b2).ncols,
        final(u).nrows == old(u).nrows,
        final(u).ncols == old(u).ncols,
        exists|c: spec_fn(int, int) -> int| rsr_result(*b1, *old(b2), *old(u), *final(b2), *final(u), shift as int, c),
{
    let ghost b2_in = *b2;
    let ghost u_in = *u;
    let ghost sh = shift as int;
    let rows = b2.nrows;
    let cols = b2.ncols;
    let ghost mut cm: spec_fn(int, int) -> int = |a: int, b: int| 0int;
    let mut j: usize = 0;
    while j < cols
        invariant
            b1.wf(),
            b2.wf(),
            u.wf(),
            b1.nrows == rows,
            b1.ncols == rows,
            b2.nrows == rows,
            b2.ncols == cols,
            u.nrows == rows,
            u.ncols == cols,
            b2_in.nrows == rows,
            b2_in.ncols == cols,
            u_in.nrows == rows,
            u_in.ncols == cols,
            shift != i32::MIN,
            sh == shift,
            j <= cols,
            forall|row: int, jj: int|
                0 <= row < rows && j <= jj < cols ==> #[trigger] entry_untouched(b2_in, u_in, *b2, *u, cm, row, jj),
            forall|row: int, jj: int|
                0 <= row < rows && 0 <= jj < j ==> #[trigger] entry_done(*b1, b2_in, u_in, *b2, *u, sh, cm, row, jj),
        decreases cols - j,
    {
        proof {
            assert forall|row: int| 0 <= row < rows implies #[trigger] entry_pending(*b1, b2_in, u_in, *b2, *u, cm, row, j as int) by {
                assert forall|l: int| 0 <= l < rows implies #[trigger] cm(l, j as int) == 0 by {
                    assert(entry_untouched(b2_in, u_in, *b2, *u, cm, l, j as int));
                }
                lemma_dot_fn_zero_col(*b1, cm, row, j as int, rows as int);
                assert(entry_untouched(b2_in, u_in, *b2, *u, cm, row, j as int));
            }
        }
        let mut i: usize = 0;
        while i < rows
            invariant
                b1.wf(),
                b2.wf(),
                u.wf(),
                b1.nrows == rows,
                b1.ncols == rows,
                b2.nrows == rows,
                b2.ncols == cols,
                u.nrows == rows,
                u.ncols == cols,
                b2_in.nrows == rows,
                b2_in.ncols == cols,
                u_in.nrows == rows,
                u_in.ncols == cols,
                    shift != i32::MIN,
                sh == shift,
                j < cols,
                i <= rows,
                forall|row: int, jj: int|
                    0 <= row < rows && j < jj < cols ==> #[trigger] entry_untouched(b2_in, u_in, *b2, *u, cm, row, jj),
                forall|row: int, jj: int|
                    0 <= row < rows && 0 <= jj < j ==> #[trigger] entry_done(*b1, b2_in, u_in, *b2, *u, sh, cm, row, jj),
                forall|row: int|
                    0 <= row < rows - i ==> #[trigger] entry_pending(*b1, b2_in, u_in, *b2, *u, cm, row, j as int),
                forall|row: int|
                    rows - i <= row < rows ==> #[trigger] entry_done(*b1, b2_in, u_in, *b2, *u, sh, cm, row, j as int),
            decreases rows - i,
        {
            let row = rows - i - 1;
            let ghost b2p = *b2;
            let ghost up = *u;
            let ghost cprev = cm;
            let ghost mut cv: int = 0;
            let ghost mut b2s = *b2;
            proof {
                assert(entry_pending(*b1, b2_in, u_in, *b2, *u, cm, row as int, j as int));
            }
            let d = b1.get(row, row);
            if !int_is_zero(d) {
                // c = round(B2[row, j] / d) = floor((2 B2[row, j] + d) / (2 d))
                let e = b2.get(row, j);
                let twice_e = int_add(e, e);
                let num = int_add(&twice_e, d);
                let den = int_add(d, d);
                let c = int_div_floor(&num, &den);
                proof {
                    lemma_round_quot(b2p.at(row as int, j as int), b1.at(row as int, row as int));
                    cv = integer_value(c);
                    assert(cv == round_quot(b2p.at(row as int, j as int), b1.at(row as int, row as int)));
                    assert(reduced(b2p.at(row as int, j as int) - b1.at(row as int, row as int) * cv, b1.at(row as int, row as int))) by {
                        assert(b1.at(row as int, row as int) * cv == cv * b1.at(row as int, row as int)) by (nonlinear_arith);
                    }
                }
                if !int_is_zero(&c) {
                    let neg = int_neg(&c);
                    u.set(row, j, neg);
                    let mut k: usize = 0;
                    while k <= row
                        invariant
                            b1.wf(),
                            b2.wf(),
                            b1.nrows == rows,
                            b1.ncols == rows,
                            b2.nrows == rows,
                            b2.ncols == cols,
                            b2p.nrows == rows,
                            b2p.ncols == cols,
                            row < rows,
                            j < cols,
                            k <= row + 1,
                            cv == integer_value(c),
                            forall|a: int, b: int|
                                0 <= a < rows && 0 <= b < cols ==> #[trigger] b2.at(a, b) == if b == j && a < k {
                                    b2p.at(a, b) - b1.at(a, row as int) * cv
                                } else {
                                    b2p.at(a, b)
                                },
                        decreases row + 1 - k,
                    {
                        let p = int_mul(b1.get(k, row), &c);
                        let v = int_sub(b2.get(k, j), &p);
                        b2.set(k, j, v);
                        k = k + 1;
                    }
                }
                proof {
                    b2s = *b2;
                }
                if shift != 0 {
                    let cur = b2.get(row, j);
                    let v = if shift < 0 {
                        int_shl(cur, (-shift) as u32)
                    } else {
                        int_shr(cur, shift as u32)
                    };
                    b2.set(row, j, v);
                }
            }
            proof {
                let cvq = cv;
                let rq = row as int;
                let jq = j as int;
                cm = |a: int, b: int| if a == rq && b == jq { cvq } else { cprev(a, b) };
                assert forall|rr: int, jj: int| 0 <= rr < rows && 0 <= jj < cols implies dot_fn(*b1, cm, rr, jj, rows as int)
                    == dot_fn(*b1, cprev, rr, jj, rows as int) + if jj == j { upper_at(*b1, rr, row as int) * cv } else { 0 } by {
                    lemma_dot_fn_update(*b1, cprev, cm, rr, jj, row as int, j as int, cv, rows as int);
                }
                assert(b1.at(row as int, row as int) == 0 ==> cv == 0);
                assert(b1.at(row as int, row as int) != 0 ==> cv == round_quot(b2p.at(row as int, j as int), b1.at(row as int, row as int)));
                assert(b2s.at(row as int, j as int) == b2p.at(row as int, j as int) - b1.at(row as int, row as int) * cv);
                assert(b1.at(row as int, row as int) != 0 ==> b2.at(row as int, j as int) == scaled(b2s.at(row as int, j as int), sh));
                assert forall|rr: int, jj: int| 0 <= rr < rows && j < jj < cols implies #[trigger] entry_untouched(b2_in, u_in, *b2, *u, cm, rr, jj) by {
                    assert(entry_untouched(b2_in, u_in, b2p, up, cprev, rr, jj));
                }
                assert forall|rr: int, jj: int| 0 <= rr < rows && 0 <= jj < j implies #[trigger] entry_done(*b1, b2_in, u_in, *b2, *u, sh, cm, rr, jj) by {
                    assert(entry_done(*b1, b2_in, u_in, b2p, up, sh, cprev, rr, jj));
                }
                assert forall|rr: int| 0 <= rr < rows - (i + 1) implies #[trigger] entry_pending(*b1, b2_in, u_in, *b2, *u, cm, rr, j as int) by {
                    assert(entry_pending(*b1, b2_in, u_in, b2p, up, cprev, rr, j as int));
                }
                assert forall|rr: int| rows - (i + 1) <= rr < rows implies #[trigger] entry_done(*b1, b2_in, u_in, *b2, *u, sh, cm, rr, j as int) by {
                    if rr != row {
                        assert(entry_done(*b1, b2_in, u_in, b2p, up, sh, cprev, rr, j as int));
                    } else {
                        let dd = b1.at(rr, rr);
                        assert(residue(*b1, b2_in, cm, rr, j as int) == residue(*b1, b2_in, cprev, rr, j as int) - dd * cv);
                        assert(residue(*b1, b2_in, cm, rr, j as int) == b2s.at(rr, j as int));
                        assert(cm(rr, j as int) == cv);
                        assert(dd != 0 ==> reduced(residue(*b1, b2_in, cm, rr, j as int), dd));
                        assert(u.at(rr, j as int) == if cv != 0 { -cv } else { u_in.at(rr, j as int) });
                    }
                }
            }
            i = i + 1;
        }
        j = j + 1;
    }
    proof {
        assert(rsr_result(*b1, b2_in, u_in, *b2, *u, sh, cm));
    }
}

} // verus!
