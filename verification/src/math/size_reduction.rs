//! Size reduction of an upper-triangular integer matrix `R`.
//!
//! Every column `i` is reduced against the columns `j < i`, from `j = i - 1`
//! down to `0`: `R[:, i] -= mu · R[:, j]` with `mu` the rounding of
//! `R[j, i] / R[j, j]`, after which `|R[j, i]| <= |R[j, j]| / 2`. `U` records
//! the same column operations, so that `R_new = R_old · U`.

use crate::integer::{integer_value, int_add, int_sub, int_mul, int_div_floor, int_is_zero, floor_div};
use crate::lattice::IntMatrix;
use crate::math::mat_mul::{dot, is_product};
use vstd::prelude::*;

verus! {

/// `x` is reduced modulo `b`: `-|b| <= 2x < |b|` for `b > 0` and
/// `-|b| < 2x <= |b|` for `b < 0`, the range that rounding half up lands in.
pub open spec fn reduced(x: int, b: int) -> bool {
    if b > 0 {
        -b <= 2 * x < b
    } else {
        b < 2 * x <= -b
    }
}

/// The rounded quotient the kernel uses: `floor((2a + b) / (2b))`.
pub open spec fn round_quot(a: int, b: int) -> int {
    floor_div(2 * a + b, 2 * b)
}

/// Unit upper-triangular square matrix of size `n`.
pub open spec fn unit_upper(u: IntMatrix, n: int) -> bool {
    &&& forall|x: int, y: int| 0 <= y < x < n ==> #[trigger] u.at(x, y) == 0
    &&& forall|x: int| 0 <= x < n ==> #[trigger] u.at(x, x) == 1
}

/// Upper-triangular square matrix of size `n`.
pub open spec fn upper(r: IntMatrix, n: int) -> bool {
    forall|x: int, y: int| 0 <= y < x < n ==> #[trigger] r.at(x, y) == 0
}

/// Subtracting `mu · round_quot(a, b)` leaves a reduced remainder.
pub proof fn lemma_round_quot(a: int, b: int)
    requires
        b != 0,
    ensures
        reduced(a - round_quot(a, b) * b, b),
{
    let mu = round_quot(a, b);
    if b > 0 {
        let d = 2 * b;
        let n = 2 * a + b;
        vstd::arithmetic::div_mod::lemma_fundamental_div_mod(n, d);
        vstd::arithmetic::div_mod::lemma_mod_bound(n, d);
        assert(mu == n / d);
        assert(d * mu <= n < d * mu + d);
        assert(2 * (a - mu * b) == n - b - d * mu) by (nonlinear_arith)
            requires
                d == 2 * b,
                n == 2 * a + b,
        ;
    } else {
        let d = -2 * b;
        let n = -(2 * a + b);
        vstd::arithmetic::div_mod::lemma_fundamental_div_mod(n, d);
        vstd::arithmetic::div_mod::lemma_mod_bound(n, d);
        assert(mu == n / d);
        assert(d * mu <= n < d * mu + d);
        assert(2 * (a - mu * b) == d * mu - n - b) by (nonlinear_arith)
            requires
                d == -2 * b,
                n == -(2 * a + b),
        ;
    }
}

/// Replacing column `i` of `u` by `u[:, i] - mu · u[:, j]` changes
/// `(a · u)[x, i]` the same way.
pub proof fn lemma_dot_col_op(a: IntMatrix, u: IntMatrix, u2: IntMatrix, x: int, i: int, j: int, mu: int, len: int)
    requires
        forall|l: int| 0 <= l < len ==> #[trigger] u2.at(l, i) == u.at(l, i) - mu * u.at(l, j),
    ensures
        dot(a, u2, x, i, len) == dot(a, u, x, i, len) - mu * dot(a, u, x, j, len),
    decreases len,
{
    if len > 0 {
        lemma_dot_col_op(a, u, u2, x, i, j, mu, len - 1);
        let p = a.at(x, len - 1);
        assert(u2.at(len - 1, i) == u.at(len - 1, i) - mu * u.at(len - 1, j));
        assert(p * (u.at(len - 1, i) - mu * u.at(len - 1, j)) == p * u.at(len - 1, i) - mu * (p * u.at(
            len - 1,
            j,
        ))) by (nonlinear_arith);
        let di = dot(a, u, x, i, len - 1);
        let dj = dot(a, u, x, j, len - 1);
        let qj = p * u.at(len - 1, j);
        assert(mu * (dj + qj) == mu * dj + mu * qj) by (nonlinear_arith);
    }
}

/// `(a · u)[x, y]` only reads column `y` of `u`.
pub proof fn lemma_dot_col_same(a: IntMatrix, u: IntMatrix, u2: IntMatrix, x: int, y: int, len: int)
    requires
        forall|l: int| 0 <= l < len ==> #[trigger] u2.at(l, y) == u.at(l, y),
    ensures
        dot(a, u2, x, y, len) == dot(a, u, x, y, len),
    decreases len,
{
    if len > 0 {
        lemma_dot_col_same(a, u, u2, x, y, len - 1);
        assert(u2.at(len - 1, y) == u.at(len - 1, y));
    }
}

/// `sum_{lo <= j < hi} mu(j, c) · m[x, j]`: what was subtracted from entry
/// `x` of column `c` by the multiples `mu(j, c)` of columns `lo..hi`.
pub open spec fn msum(mu: spec_fn(int, int) -> int, m: IntMatrix, x: int, c: int, lo: int, hi: int) -> int
    decreases hi - lo,
{
    if lo >= hi {
        0
    } else {
        mu(lo, c) * m.at(x, lo) + msum(mu, m, x, c, lo + 1, hi)
    }
}

/// `mu(j, i)` is the multiple of column `j` subtracted from column `i`:
/// - it is zero unless `j < i < n` and `R[j, j] != 0`: no multiple of a
///   column with a zero diagonal entry is taken;
/// - otherwise it is the rounded quotient of `R[j, i]`, as it stood once the
///   columns `j + 1..i` had been subtracted, by `R[j, j]`;
/// - column `i` of `R` and of `U` is column `i` of `R0`, respectively of the
///   identity, minus those multiples of the final columns `0..i`.
pub open spec fn size_reduce_steps(r0: IntMatrix, r: IntMatrix, u: IntMatrix, mu: spec_fn(int, int) -> int, n: int) -> bool {
    &&& forall|j: int, i: int| #[trigger] mu(j, i) != 0 ==> 0 <= j < i < n && r.at(j, j) != 0
    &&& forall|j: int, i: int|
        0 <= j < i < n && r.at(j, j) != 0 ==> #[trigger] mu(j, i) == round_quot(
            r0.at(j, i) - msum(mu, r, j, i, j + 1, i),
            r.at(j, j),
        )
    &&& forall|x: int, i: int| 0 <= x < n && 0 <= i < n ==> #[trigger] r.at(x, i) == r0.at(x, i) - msum(mu, r, x, i, 0, i)
    &&& forall|x: int, i: int|
        0 <= x < n && 0 <= i < n ==> #[trigger] u.at(x, i) == (if x == i {
            1int
        } else {
            0int
        }) - msum(mu, u, x, i, 0, i)
}

/// `msum` reads `mu` only in column `c`, rows `lo..hi`, and `m` only in row
/// `x`, columns `lo..hi`.
pub proof fn lemma_msum_same(
    mu: spec_fn(int, int) -> int,
    mu2: spec_fn(int, int) -> int,
    m: IntMatrix,
    m2: IntMatrix,
    x: int,
    c: int,
    lo: int,
    hi: int,
)
    requires
        forall|j: int| lo <= j < hi ==> #[trigger] mu(j, c) == mu2(j, c) && m.at(x, j) == m2.at(x, j),
    ensures
        msum(mu, m, x, c, lo, hi) == msum(mu2, m2, x, c, lo, hi),
    decreases hi - lo,
{
    if lo < hi {
        lemma_msum_same(mu, mu2, m, m2, x, c, lo + 1, hi);
    }
}

proof fn lemma_msum_zero(mu: spec_fn(int, int) -> int, m: IntMatrix, x: int, c: int, lo: int, hi: int)
    requires
        forall|j: int| lo <= j < hi ==> #[trigger] mu(j, c) == 0,
    ensures
        msum(mu, m, x, c, lo, hi) == 0,
    decreases hi - lo,
{
    if lo < hi {
        lemma_msum_zero(mu, m, x, c, lo + 1, hi);
    }
}

/// Progress of `size_reduce` inside column `i`: columns `0..i` are done,
/// and the multiples of columns `lo..i` have been taken from column `i`.
#[verifier::opaque]
spec fn steps_upto(r0: IntMatrix, r: IntMatrix, u: IntMatrix, mu: spec_fn(int, int) -> int, n: int, i: int, lo: int) -> bool {
    &&& forall|j: int, c: int|
        #[trigger] mu(j, c) != 0 ==> 0 <= j < c && r.at(j, j) != 0 && (c < i || (c == i && lo <= j))
    &&& forall|j: int, c: int|
        0 <= j < c && (c < i || (c == i && lo <= j)) && r.at(j, j) != 0 ==> #[trigger] mu(j, c) == round_quot(
            r0.at(j, c) - msum(mu, r, j, c, j + 1, c),
            r.at(j, j),
        )
    &&& forall|x: int, c: int|
        0 <= x < n && 0 <= c < n ==> #[trigger] r.at(x, c) == r0.at(x, c) - if c < i {
            msum(mu, r, x, c, 0, c)
        } else if c == i {
            msum(mu, r, x, c, lo, c)
        } else {
            0
        }
    &&& forall|x: int, c: int|
        0 <= x < n && 0 <= c < n ==> #[trigger] u.at(x, c) == (if x == c {
            1int
        } else {
            0int
        }) - if c < i {
            msum(mu, u, x, c, 0, c)
        } else if c == i {
            msum(mu, u, x, c, lo, c)
        } else {
            0
        }
}

/// Taking `m` times column `j` from column `i` (or nothing, with `m == 0`)
/// extends the progress of column `i` from `j + 1..i` to `j..i`.
proof fn lemma_steps_take(
    r0: IntMatrix,
    rb: IntMatrix,
    ub: IntMatrix,
    ra: IntMatrix,
    ua: IntMatrix,
    mu: spec_fn(int, int) -> int,
    mu2: spec_fn(int, int) -> int,
    n: int,
    i: int,
    j: int,
    m: int,
)
    requires
        0 <= j < i < n,
        steps_upto(r0, rb, ub, mu, n, i, j + 1),
        rb.at(j, j) != 0 ==> m == round_quot(rb.at(j, i), rb.at(j, j)),
        rb.at(j, j) == 0 ==> m == 0,
        forall|a: int, b: int| #[trigger] mu2(a, b) == if a == j && b == i { m } else { mu(a, b) },
        forall|x: int, y: int|
            0 <= x < n && 0 <= y < n ==> #[trigger] ra.at(x, y) == if y == i {
                rb.at(x, y) - m * rb.at(x, j)
            } else {
                rb.at(x, y)
            },
        forall|x: int, y: int|
            0 <= x < n && 0 <= y < n ==> #[trigger] ua.at(x, y) == if y == i {
                ub.at(x, y) - m * ub.at(x, j)
            } else {
                ub.at(x, y)
            },
    ensures
        steps_upto(r0, ra, ua, mu2, n, i, j),
{
    reveal(steps_upto);
    assert(ra.at(j, j) == rb.at(j, j));
    assert forall|a: int, c: int| #[trigger] mu2(a, c) != 0 implies 0 <= a < c && ra.at(a, a) != 0 && (c < i || (c == i
        && j <= a)) by {
        if a == j && c == i {
        } else {
            assert(mu(a, c) != 0);
            assert(ra.at(a, a) == rb.at(a, a));
        }
    }
    assert forall|a: int, c: int|
        0 <= a < c && (c < i || (c == i && j <= a)) && ra.at(a, a) != 0 implies #[trigger] mu2(a, c) == round_quot(
        r0.at(a, c) - msum(mu2, ra, a, c, a + 1, c),
        ra.at(a, a),
    ) by {
        assert(ra.at(a, a) == rb.at(a, a));
        assert forall|l: int| a + 1 <= l < c implies #[trigger] mu2(l, c) == mu(l, c) && ra.at(a, l) == rb.at(a, l) by {
            assert(mu2(l, c) == if l == j && c == i { m } else { mu(l, c) });
            assert(ra.at(a, l) == rb.at(a, l));
        }
        lemma_msum_same(mu2, mu, ra, rb, a, c, a + 1, c);
        if a == j && c == i {
            assert(rb.at(j, i) == r0.at(j, i) - msum(mu, rb, j, i, j + 1, i));
        } else {
            assert(mu2(a, c) == mu(a, c));
        }
    }
    assert forall|x: int, c: int| 0 <= x < n && 0 <= c < n implies #[trigger] ra.at(x, c) == r0.at(x, c) - if c < i {
        msum(mu2, ra, x, c, 0, c)
    } else if c == i {
        msum(mu2, ra, x, c, j, c)
    } else {
        0
    } by {
        assert(rb.at(x, c) == r0.at(x, c) - if c < i {
            msum(mu, rb, x, c, 0, c)
        } else if c == i {
            msum(mu, rb, x, c, j + 1, c)
        } else {
            0
        });
        if c < i {
            assert forall|l: int| 0 <= l < c implies #[trigger] mu2(l, c) == mu(l, c) && ra.at(x, l) == rb.at(x, l) by {
                assert(mu2(l, c) == mu(l, c));
                assert(ra.at(x, l) == rb.at(x, l));
            }
            lemma_msum_same(mu2, mu, ra, rb, x, c, 0, c);
        } else if c == i {
            assert forall|l: int| j + 1 <= l < c implies #[trigger] mu2(l, c) == mu(l, c) && ra.at(x, l) == rb.at(x, l) by {
                assert(mu2(l, c) == mu(l, c));
                assert(ra.at(x, l) == rb.at(x, l));
            }
            lemma_msum_same(mu2, mu, ra, rb, x, c, j + 1, c);
            assert(mu2(j, i) == m);
            assert(ra.at(x, j) == rb.at(x, j));
            assert(msum(mu2, ra, x, i, j, i) == m * ra.at(x, j) + msum(mu2, ra, x, i, j + 1, i));
        }
    }
    assert forall|x: int, c: int| 0 <= x < n && 0 <= c < n implies #[trigger] ua.at(x, c) == (if x == c {
        1int
    } else {
        0int
    }) - if c < i {
        msum(mu2, ua, x, c, 0, c)
    } else if c == i {
        msum(mu2, ua, x, c, j, c)
    } else {
        0
    } by {
        assert(ub.at(x, c) == (if x == c {
            1int
        } else {
            0int
        }) - if c < i {
            msum(mu, ub, x, c, 0, c)
        } else if c == i {
            msum(mu, ub, x, c, j + 1, c)
        } else {
            0
        });
        if c < i {
            assert forall|l: int| 0 <= l < c implies #[trigger] mu2(l, c) == mu(l, c) && ua.at(x, l) == ub.at(x, l) by {
                assert(mu2(l, c) == mu(l, c));
                assert(ua.at(x, l) == ub.at(x, l));
            }
            lemma_msum_same(mu2, mu, ua, ub, x, c, 0, c);
        } else if c == i {
            assert forall|l: int| j + 1 <= l < c implies #[trigger] mu2(l, c) == mu(l, c) && ua.at(x, l) == ub.at(x, l) by {
                assert(mu2(l, c) == mu(l, c));
                assert(ua.at(x, l) == ub.at(x, l));
            }
            lemma_msum_same(mu2, mu, ua, ub, x, c, j + 1, c);
            assert(mu2(j, i) == m);
            assert(ua.at(x, j) == ub.at(x, j));
            assert(msum(mu2, ua, x, i, j, i) == m * ua.at(x, j) + msum(mu2, ua, x, i, j + 1, i));
        }
    }
}

/// Finishing column `i` starts column `i + 1`; finishing column `n - 1`
/// gives the whole description.
proof fn lemma_steps_next(r0: IntMatrix, r: IntMatrix, u: IntMatrix, mu: spec_fn(int, int) -> int, n: int, i: int)
    requires
        0 <= i < n,
        steps_upto(r0, r, u, mu, n, i, 0),
    ensures
        steps_upto(r0, r, u, mu, n, i + 1, i + 1),
        i + 1 == n ==> size_reduce_steps(r0, r, u, mu, n),
{
    reveal(steps_upto);
    assert forall|x: int, c: int| 0 <= x < n && 0 <= c < n implies #[trigger] r.at(x, c) == r0.at(x, c) - if c < i + 1 {
        msum(mu, r, x, c, 0, c)
    } else if c == i + 1 {
        msum(mu, r, x, c, i + 1, c)
    } else {
        0
    } by {
        assert(r.at(x, c) == r0.at(x, c) - if c < i {
            msum(mu, r, x, c, 0, c)
        } else if c == i {
            msum(mu, r, x, c, 0, c)
        } else {
            0
        });
    }
    assert forall|x: int, c: int| 0 <= x < n && 0 <= c < n implies #[trigger] u.at(x, c) == (if x == c {
        1int
    } else {
        0int
    }) - if c < i + 1 {
        msum(mu, u, x, c, 0, c)
    } else if c == i + 1 {
        msum(mu, u, x, c, i + 1, c)
    } else {
        0
    } by {
        assert(u.at(x, c) == (if x == c {
            1int
        } else {
            0int
        }) - if c < i {
            msum(mu, u, x, c, 0, c)
        } else if c == i {
            msum(mu, u, x, c, 0, c)
        } else {
            0
        });
    }
    if i + 1 == n {
        assert forall|j: int, c: int| #[trigger] mu(j, c) != 0 implies 0 <= j < c < n && r.at(j, j) != 0 by {
        }
    }
}

/// In-place size reduction of the square matrix `r`, meant for an upper
/// triangular one; `u` is set to the unimodular matrix of the column
/// operations performed.
///
/// Afterwards `R_new = R_old · U` with `U` unit upper triangular. When `R`
/// is upper triangular, `R_new` is upper triangular with the same diagonal,
/// and every entry above a non-zero diagonal entry is reduced:
/// `|R[j, i]| <= |R[j, j]| / 2` for `j < i`. For any square `R`, the
/// multiples taken are those of `size_reduce_steps`: column `i` loses, for
/// `j` from `i - 1` down to `0`, the rounded multiple of column `j` that
/// reduces its entry `j`, and nothing when `R[j, j]` is zero.
pub fn size_reduce(r: &mut IntMatrix, u: &mut IntMatrix)
    requires
        old(r).wf(),
        old(u).wf(),
        old(r).nrows == old(r).ncols,
        old(u).nrows == old(r).ncols,
        old(u).ncols == old(r).ncols,
    ensures
        final(r).wf(),
        final(u).wf(),
        final(r).nrows == old(r).nrows,
        final(r).ncols == old(r).ncols,
        final(u).nrows == old(u).nrows,
        final(u).ncols == old(u).ncols,
        is_product(*final(r), *old(r), *final(u)),
        unit_upper(*final(u), old(r).ncols as int),
        upper(*old(r), old(r).ncols as int) ==> upper(*final(r), old(r).ncols as int),
        upper(*old(r), old(r).ncols as int) ==> forall|x: int| 0 <= x < old(r).ncols ==> #[trigger] final(r).at(x, x) == old(r).at(x, x),
        upper(*old(r), old(r).ncols as int) ==> forall|j: int, i: int|
            0 <= j < i < old(r).ncols && old(r).at(j, j) != 0 ==> reduced(#[trigger] final(r).at(j, i), old(r).at(j, j)),
        exists|mu: spec_fn(int, int) -> int| #[trigger] size_reduce_steps(*old(r), *final(r), *final(u), mu, old(r).ncols as int),
{
    let ghost r0 = *r;
    let ghost tri = upper(*r, r.ncols as int);
    let n = r.ncols;
    u.set_identity();
    let ghost mut mults: spec_fn(int, int) -> int = |a: int, b: int| 0int;
    proof {
        reveal(steps_upto);
        assert(steps_upto(r0, *r, *u, mults, n as int, 0, 0));
        assert forall|x: int, y: int| 0 <= x < n && 0 <= y < n implies #[trigger] r.at(x, y) == dot(r0, *u, x, y, n as int) by {
            lemma_dot_identity(r0, *u, x, y, n as int, n as int);
        }
    }
    let mut i: usize = 0;
    while i < n
        invariant
            r.wf(),
            u.wf(),
            r0.wf(),
            r0.nrows == n,
            r0.ncols == n,
            r.nrows == n,
            r.ncols == n,
            u.nrows == n,
            u.ncols == n,
            i <= n,
            forall|x: int, y: int| 0 <= x < n && 0 <= y < n ==> #[trigger] r.at(x, y) == dot(r0, *u, x, y, n as int),
            unit_upper(*u, n as int),
            tri == upper(r0, n as int),
            tri ==> upper(*r, n as int),
            tri ==> forall|x: int| 0 <= x < n ==> #[trigger] r.at(x, x) == r0.at(x, x),
            tri ==> forall|j: int, c: int| 0 <= j < c < i && r0.at(j, j) != 0 ==> reduced(#[trigger] r.at(j, c), r0.at(j, j)),
            i < n ==> steps_upto(r0, *r, *u, mults, n as int, i as int, i as int),
            i == n ==> size_reduce_steps(r0, *r, *u, mults, n as int),
        decreases n - i,
    {
        let mut ind: usize = 0;
        while ind < i
            invariant
                r.wf(),
                u.wf(),
                r0.wf(),
                r0.nrows == n,
                r0.ncols == n,
                r.nrows == n,
                r.ncols == n,
                u.nrows == n,
                u.ncols == n,
                i < n,
                ind <= i,
                forall|x: int, y: int| 0 <= x < n && 0 <= y < n ==> #[trigger] r.at(x, y) == dot(r0, *u, x, y, n as int),
                unit_upper(*u, n as int),
                tri == upper(r0, n as int),
                tri ==> upper(*r, n as int),
                tri ==> forall|x: int| 0 <= x < n ==> #[trigger] r.at(x, x) == r0.at(x, x),
                tri ==> forall|j: int, c: int| 0 <= j < c < i && r0.at(j, j) != 0 ==> reduced(#[trigger] r.at(j, c), r0.at(j, j)),
                tri ==> forall|j: int| i - ind <= j < i && r0.at(j, j) != 0 ==> reduced(#[trigger] r.at(j, i as int), r0.at(j, j)),
                steps_upto(r0, *r, *u, mults, n as int, i as int, i - ind),
            decreases i - ind,
        {
            let j = i - ind - 1;
            let ghost rs = *r;
            let ghost us = *u;
            let ghost mut mv: int = 0;
            if !int_is_zero(r.get(j, j)) {
                // mu = round(R[j, i] / R[j, j]) = floor((2 R[j, i] + R[j, j]) / (2 R[j, j]))
                let a = r.get(j, i);
                let b = r.get(j, j);
                let twice_a = int_add(a, a);
                let num = int_add(&twice_a, b);
                let den = int_add(b, b);
                let mu = int_div_floor(&num, &den);
                let ghost rp = *r;
                let ghost m = integer_value(mu);
                proof {
                    lemma_round_quot(r.at(j as int, i as int), r.at(j as int, j as int));
                    assert(m == round_quot(rp.at(j as int, i as int), rp.at(j as int, j as int)));
                }
                proof {
                    mv = m;
                }
                if !int_is_zero(&mu) {
                    column_op(r, u, i, j, &mu, Ghost(r0));
                }
                proof {
                    assert forall|x: int, y: int| 0 <= x < n && 0 <= y < n implies #[trigger] r.at(x, y) == if y == i {
                        rp.at(x, y) - m * rp.at(x, j as int)
                    } else {
                        rp.at(x, y)
                    } && u.at(x, y) == if y == i {
                        us.at(x, y) - m * us.at(x, j as int)
                    } else {
                        us.at(x, y)
                    } by {
                        if m == 0 {
                            assert(m * rp.at(x, j as int) == 0);
                            assert(m * us.at(x, j as int) == 0);
                        }
                    }
                }
                proof {
                    if tri {
                    assert forall|jj: int| i - ind - 1 <= jj < i && r0.at(jj, jj) != 0 implies reduced(
                        #[trigger] r.at(jj, i as int),
                        r0.at(jj, jj),
                    ) by {
                        assert(r.at(jj, i as int) == rp.at(jj, i as int) - m * rp.at(jj, j as int));
                        if jj != j {
                            assert(rp.at(jj, j as int) == 0);
                            assert(reduced(rp.at(jj, i as int), r0.at(jj, jj)));
                        } else {
                            assert(rp.at(jj, jj) == r0.at(jj, jj));
                            assert(reduced(
                                rp.at(jj, i as int) - round_quot(rp.at(jj, i as int), rp.at(jj, jj)) * rp.at(jj, jj),
                                rp.at(jj, jj),
                            ));
                        }
                    }
                    }
                }
            }
            proof {
                let mu0 = mults;
                mults = |a: int, b: int| if a == j && b == i { mv } else { mu0(a, b) };
                lemma_steps_take(r0, rs, us, *r, *u, mu0, mults, n as int, i as int, j as int, mv);
            }
            ind = ind + 1;
        }
        proof {
            lemma_steps_next(r0, *r, *u, mults, n as int, i as int);
        }
        i = i + 1;
    }
    proof {
        if n == 0 {
            assert(size_reduce_steps(r0, *r, *u, mults, 0));
        }
    }
}

/// `R[:, i] -= mu · R[:, j]` and `U[:, i] -= mu · U[:, j]`, for `j < i`.
fn column_op(r: &mut IntMatrix, u: &mut IntMatrix, i: usize, j: usize, mu: &rug::Integer, Ghost(r0): Ghost<IntMatrix>)
    requires
        old(r).wf(),
        old(u).wf(),
        r0.nrows == old(r).ncols,
        r0.ncols == old(r).ncols,
        old(r).nrows == old(r).ncols,
        old(u).nrows == old(r).ncols,
        old(u).ncols == old(r).ncols,
        j < i < old(r).ncols,
        forall|x: int, y: int|
            0 <= x < old(r).ncols && 0 <= y < old(r).ncols ==> #[trigger] old(r).at(x, y) == dot(r0, *old(u), x, y, old(r).ncols as int),
        unit_upper(*old(u), old(r).ncols as int),
    ensures
        final(r).wf(),
        final(u).wf(),
        final(r).nrows == old(r).nrows,
        final(r).ncols == old(r).ncols,
        final(u).nrows == old(u).nrows,
        final(u).ncols == old(u).ncols,
        forall|x: int, y: int|
            0 <= x < old(r).ncols && 0 <= y < old(r).ncols ==> #[trigger] final(r).at(x, y) == dot(r0, *final(u), x, y, old(r).ncols as int),
        unit_upper(*final(u), old(r).ncols as int),
        upper(*old(r), old(r).ncols as int) ==> upper(*final(r), old(r).ncols as int),
        forall|x: int, y: int|
            0 <= x < old(r).ncols && 0 <= y < old(r).ncols ==> #[trigger] final(r).at(x, y) == if y == i {
                old(r).at(x, y) - integer_value(*mu) * old(r).at(x, j as int)
            } else {
                old(r).at(x, y)
            },
        forall|x: int, y: int|
            0 <= x < old(r).ncols && 0 <= y < old(r).ncols ==> #[trigger] final(u).at(x, y) == if y == i {
                old(u).at(x, y) - integer_value(*mu) * old(u).at(x, j as int)
            } else {
                old(u).at(x, y)
            },
{
    let ghost rb = *r;
    let ghost ub = *u;
    let n = r.ncols;
    let ghost m = integer_value(*mu);
    let mut k: usize = 0;
    while k < n
        invariant
            r.wf(),
            u.wf(),
            rb.wf(),
            ub.wf(),
            r.nrows == n,
            r.ncols == n,
            u.nrows == n,
            u.ncols == n,
            rb.nrows == n,
            rb.ncols == n,
            ub.nrows == n,
            ub.ncols == n,
            j < i < n,
            k <= n,
            m == integer_value(*mu),
            forall|x: int, y: int|
                0 <= x < n && 0 <= y < n ==> #[trigger] r.at(x, y) == if y == i && x < k {
                    rb.at(x, y) - m * rb.at(x, j as int)
                } else {
                    rb.at(x, y)
                },
            forall|x: int, y: int|
                0 <= x < n && 0 <= y < n ==> #[trigger] u.at(x, y) == if y == i && x < k {
                    ub.at(x, y) - m * ub.at(x, j as int)
                } else {
                    ub.at(x, y)
                },
        decreases n - k,
    {
        let p = int_mul(mu, r.get(k, j));
        let v = int_sub(r.get(k, i), &p);
        r.set(k, i, v);
        let p = int_mul(mu, u.get(k, j));
        let v = int_sub(u.get(k, i), &p);
        u.set(k, i, v);
        k = k + 1;
    }
    proof {
        assert forall|x: int, y: int| 0 <= x < n && 0 <= y < n implies #[trigger] r.at(x, y) == dot(r0, *u, x, y, n as int) by {
            if y == i {
                assert forall|l: int| 0 <= l < n implies #[trigger] u.at(l, i as int) == ub.at(l, i as int) - m * ub.at(l, j as int) by {
                    assert(u.at(l, i as int) == ub.at(l, i as int) - m * ub.at(l, j as int));
                }
                lemma_dot_col_op(r0, ub, *u, x, i as int, j as int, m, n as int);
                assert(rb.at(x, i as int) == dot(r0, ub, x, i as int, n as int));
                assert(rb.at(x, j as int) == dot(r0, ub, x, j as int, n as int));
            } else {
                assert forall|l: int| 0 <= l < n implies #[trigger] u.at(l, y) == ub.at(l, y) by {
                    assert(u.at(l, y) == ub.at(l, y));
                }
                lemma_dot_col_same(r0, ub, *u, x, y, n as int);
                assert(rb.at(x, y) == dot(r0, ub, x, y, n as int));
            }
        }
        assert forall|x: int, y: int| 0 <= y < x < n implies #[trigger] u.at(x, y) == 0 by {
            assert(u.at(x, y) == if y == i { ub.at(x, y) - m * ub.at(x, j as int) } else { ub.at(x, y) });
            assert(ub.at(x, y) == 0);
            if y == i {
                assert(ub.at(x, j as int) == 0);
            }
        }
        assert forall|x: int| 0 <= x < n implies #[trigger] u.at(x, x) == 1 by {
            assert(u.at(x, x) == if x == i { ub.at(x, x) - m * ub.at(x, j as int) } else { ub.at(x, x) });
            assert(ub.at(x, x) == 1);
            if x == i {
                assert(ub.at(x, j as int) == 0);
            }
        }
        if upper(rb, n as int) {
            assert forall|x: int, y: int| 0 <= y < x < n implies #[trigger] r.at(x, y) == 0 by {
                assert(r.at(x, y) == if y == i { rb.at(x, y) - m * rb.at(x, j as int) } else { rb.at(x, y) });
                assert(rb.at(x, y) == 0);
                if y == i {
                    assert(rb.at(x, j as int) == 0);
                }
            }
        }
    }
}

/// With `u` the identity, `(r · u)[x, y] = r[x, y]`.
proof fn lemma_dot_identity(r: IntMatrix, u: IntMatrix, x: int, y: int, len: int, n: int)
    requires
        0 <= y < n,
        len <= n,
        u.spec_identity(),
        u.nrows == n,
    ensures
        dot(r, u, x, y, len) == if y < len { r.at(x, y) } else { 0 },
    decreases len,
{
    if len > 0 {
        lemma_dot_identity(r, u, x, y, len - 1, n);
        assert(u.at(len - 1, y) == if len - 1 == y { 1int } else { 0int });
    }
}

} // verus!
