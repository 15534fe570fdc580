//! Unimodular matrices: square integer matrices with an integer inverse
//! (equivalently, of determinant `±1`), and the fact that a product of
//! unimodular matrices is unimodular.

use crate::lattice::IntMatrix;
use crate::math::mat_mul::{dot, is_product};
use vstd::prelude::*;

verus! {

/// The entries of `m` as a function of row and column.
pub open spec fn entries(m: IntMatrix) -> spec_fn(int, int) -> int {
    |i: int, j: int| m.at(i, j)
}

/// `sum_{l < len} f(i, l) · g(l, j)`.
pub open spec fn fdot(f: spec_fn(int, int) -> int, g: spec_fn(int, int) -> int, i: int, j: int, len: int) -> int
    decreases len,
{
    if len <= 0 {
        0
    } else {
        fdot(f, g, i, j, len - 1) + f(i, len - 1) * g(len - 1, j)
    }
}

/// The product of `f` and `g` as `n × n` matrices.
pub open spec fn fprod(f: spec_fn(int, int) -> int, g: spec_fn(int, int) -> int, n: int) -> spec_fn(int, int) -> int {
    |i: int, j: int| fdot(f, g, i, j, n)
}

/// Entry `(i, j)` of the identity.
pub open spec fn delta(i: int, j: int) -> int {
    if i == j {
        1
    } else {
        0
    }
}

/// `v` is a two-sided inverse of the `n × n` matrix `f`.
pub open spec fn inverse_of(v: spec_fn(int, int) -> int, f: spec_fn(int, int) -> int, n: int) -> bool {
    forall|i: int, j: int|
        #![trigger fdot(f, v, i, j, n)]
        #![trigger fdot(v, f, i, j, n)]
        0 <= i < n && 0 <= j < n ==> fdot(f, v, i, j, n) == delta(i, j) && fdot(v, f, i, j, n) == delta(i, j)
}

/// `a` is an `n × n` integer matrix with an integer inverse.
pub open spec fn unimodular(a: IntMatrix, n: int) -> bool {
    &&& a.nrows == n
    &&& a.ncols == n
    &&& exists|v: spec_fn(int, int) -> int| #[trigger] inverse_of(v, entries(a), n)
}

proof fn lemma_fdot_same(
    f: spec_fn(int, int) -> int,
    g: spec_fn(int, int) -> int,
    f2: spec_fn(int, int) -> int,
    g2: spec_fn(int, int) -> int,
    i: int,
    j: int,
    len: int,
)
    requires
        forall|l: int| 0 <= l < len ==> #[trigger] f(i, l) == f2(i, l),
        forall|l: int| 0 <= l < len ==> #[trigger] g(l, j) == g2(l, j),
    ensures
        fdot(f, g, i, j, len) == fdot(f2, g2, i, j, len),
    decreases len,
{
    if len > 0 {
        lemma_fdot_same(f, g, f2, g2, i, j, len - 1);
        assert(f(i, len - 1) == f2(i, len - 1));
        assert(g(len - 1, j) == g2(len - 1, j));
    }
}

proof fn lemma_dot_fdot(a: IntMatrix, b: IntMatrix, i: int, j: int, len: int)
    ensures
        dot(a, b, i, j, len) == fdot(entries(a), entries(b), i, j, len),
    decreases len,
{
    if len > 0 {
        lemma_dot_fdot(a, b, i, j, len - 1);
    }
}

/// `sum_{t < p} f(i, t) · (g · h)[t, j]` with the inner sums over `q`
/// terms.
spec fn fdot_of_dots(f: spec_fn(int, int) -> int, g: spec_fn(int, int) -> int, h: spec_fn(int, int) -> int, i: int, j: int, p: int, q: int) -> int
    decreases p,
{
    if p <= 0 {
        0
    } else {
        fdot_of_dots(f, g, h, i, j, p - 1, q) + f(i, p - 1) * fdot(g, h, p - 1, j, q)
    }
}

proof fn lemma_fdot_of_dots_zero(f: spec_fn(int, int) -> int, g: spec_fn(int, int) -> int, h: spec_fn(int, int) -> int, i: int, j: int, p: int)
    ensures
        fdot_of_dots(f, g, h, i, j, p, 0) == 0,
    decreases p,
{
    if p > 0 {
        lemma_fdot_of_dots_zero(f, g, h, i, j, p - 1);
    }
}

proof fn lemma_fdot_of_dots_step(f: spec_fn(int, int) -> int, g: spec_fn(int, int) -> int, h: spec_fn(int, int) -> int, i: int, j: int, p: int, q: int)
    requires
        q >= 0,
    ensures
        fdot_of_dots(f, g, h, i, j, p, q + 1) == fdot_of_dots(f, g, h, i, j, p, q) + fdot(f, g, i, q, p) * h(q, j),
    decreases p,
{
    if p > 0 {
        lemma_fdot_of_dots_step(f, g, h, i, j, p - 1, q);
        let x = f(i, p - 1);
        let gg = fdot(g, h, p - 1, j, q);
        let y = g(p - 1, q);
        let z = h(q, j);
        let d = fdot(f, g, i, q, p - 1);
        assert(fdot(g, h, p - 1, j, q + 1) == gg + y * z);
        assert(x * (gg + y * z) == x * gg + (x * y) * z) by (nonlinear_arith);
        assert((d + x * y) * z == d * z + (x * y) * z) by (nonlinear_arith);
    }
}

proof fn lemma_fdot_left(f: spec_fn(int, int) -> int, g: spec_fn(int, int) -> int, h: spec_fn(int, int) -> int, i: int, j: int, p: int, q: int)
    requires
        q >= 0,
    ensures
        fdot(fprod(f, g, p), h, i, j, q) == fdot_of_dots(f, g, h, i, j, p, q),
    decreases q,
{
    if q == 0 {
        lemma_fdot_of_dots_zero(f, g, h, i, j, p);
    } else {
        lemma_fdot_left(f, g, h, i, j, p, q - 1);
        lemma_fdot_of_dots_step(f, g, h, i, j, p, q - 1);
        assert(fprod(f, g, p)(i, q - 1) == fdot(f, g, i, q - 1, p));
    }
}

proof fn lemma_fdot_right(f: spec_fn(int, int) -> int, g: spec_fn(int, int) -> int, h: spec_fn(int, int) -> int, i: int, j: int, p: int, q: int)
    ensures
        fdot(f, fprod(g, h, q), i, j, p) == fdot_of_dots(f, g, h, i, j, p, q),
    decreases p,
{
    if p > 0 {
        lemma_fdot_right(f, g, h, i, j, p - 1, q);
        assert(fprod(g, h, q)(p - 1, j) == fdot(g, h, p - 1, j, q));
    }
}

/// `(f · g) · h == f · (g · h)` for `n × n` matrices.
proof fn lemma_fdot_assoc(f: spec_fn(int, int) -> int, g: spec_fn(int, int) -> int, h: spec_fn(int, int) -> int, i: int, j: int, n: int)
    requires
        n >= 0,
    ensures
        fdot(fprod(f, g, n), h, i, j, n) == fdot(f, fprod(g, h, n), i, j, n),
{
    lemma_fdot_left(f, g, h, i, j, n, n);
    lemma_fdot_right(f, g, h, i, j, n, n);
}

proof fn lemma_fdot_delta_left(g: spec_fn(int, int) -> int, i: int, j: int, len: int)
    requires
        0 <= i,
    ensures
        fdot(|a: int, b: int| delta(a, b), g, i, j, len) == if i < len { g(i, j) } else { 0 },
    decreases len,
{
    if len > 0 {
        lemma_fdot_delta_left(g, i, j, len - 1);
    }
}

/// `f · (g · v) == v` when `f · g` is the `n × n` identity.
proof fn lemma_cancel(f: spec_fn(int, int) -> int, g: spec_fn(int, int) -> int, v: spec_fn(int, int) -> int, i: int, j: int, n: int)
    requires
        0 <= i < n,
        0 <= j < n,
        forall|a: int, b: int| 0 <= a < n && 0 <= b < n ==> #[trigger] fdot(f, g, a, b, n) == delta(a, b),
    ensures
        fdot(f, fprod(g, v, n), i, j, n) == v(i, j),
{
    lemma_fdot_assoc(f, g, v, i, j, n);
    assert forall|l: int| 0 <= l < n implies #[trigger] fprod(f, g, n)(i, l) == (|a: int, b: int| delta(a, b))(i, l) by {
        assert(fdot(f, g, i, l, n) == delta(i, l));
    }
    lemma_fdot_same(fprod(f, g, n), v, |a: int, b: int| delta(a, b), v, i, j, n);
    lemma_fdot_delta_left(v, i, j, n);
}

/// A product of unimodular `n × n` matrices is unimodular: with inverses
/// `va` of `a` and `vb` of `b`, `vb · va` is an inverse of `a · b`.
pub proof fn lemma_product_unimodular(a: IntMatrix, b: IntMatrix, c: IntMatrix, n: int)
    requires
        unimodular(a, n),
        unimodular(b, n),
        is_product(c, a, b),
    ensures
        unimodular(c, n),
{
    let va = choose|v: spec_fn(int, int) -> int| #[trigger] inverse_of(v, entries(a), n);
    let vb = choose|v: spec_fn(int, int) -> int| #[trigger] inverse_of(v, entries(b), n);
    let fa = entries(a);
    let fb = entries(b);
    let fc = entries(c);
    let w = fprod(vb, va, n);
    let ab = fprod(fa, fb, n);
    assert forall|i: int, l: int| 0 <= i < n && 0 <= l < n implies #[trigger] fc(i, l) == ab(i, l) by {
        assert(c.at(i, l) == dot(a, b, i, l, n));
        lemma_dot_fdot(a, b, i, l, n);
    }
    assert forall|x: int, y: int| 0 <= x < n && 0 <= y < n implies #[trigger] fdot(fb, vb, x, y, n) == delta(x, y) by {
        assert(inverse_of(vb, fb, n));
    }
    assert forall|x: int, y: int| 0 <= x < n && 0 <= y < n implies #[trigger] fdot(fa, va, x, y, n) == delta(x, y) by {
        assert(inverse_of(va, fa, n));
    }
    assert forall|x: int, y: int| 0 <= x < n && 0 <= y < n implies #[trigger] fdot(va, fa, x, y, n) == delta(x, y) by {
        assert(inverse_of(va, fa, n));
    }
    assert forall|x: int, y: int| 0 <= x < n && 0 <= y < n implies #[trigger] fdot(vb, fb, x, y, n) == delta(x, y) by {
        assert(inverse_of(vb, fb, n));
    }
    assert forall|i: int, j: int| 0 <= i < n && 0 <= j < n implies #[trigger] fdot(fc, w, i, j, n) == delta(i, j) && fdot(
        w,
        fc,
        i,
        j,
        n,
    ) == delta(i, j) by {
        // (a b)(vb va) = a (b (vb va)) = a ((b vb) va) = a va = I.
        lemma_fdot_same(fc, w, ab, w, i, j, n);
        lemma_fdot_assoc(fa, fb, w, i, j, n);
        assert forall|l: int| 0 <= l < n implies #[trigger] fprod(fb, w, n)(l, j) == va(l, j) by {
            lemma_cancel(fb, vb, va, l, j, n);
        }
        lemma_fdot_same(fa, fprod(fb, w, n), fa, va, i, j, n);
        // (vb va)(a b) = vb (va (a b)) = vb ((va a) b) = vb b = I.
        lemma_fdot_same(w, fc, w, ab, i, j, n);
        lemma_fdot_assoc(vb, va, ab, i, j, n);
        assert forall|l: int| 0 <= l < n implies #[trigger] fprod(va, ab, n)(l, j) == fb(l, j) by {
            lemma_cancel(va, fa, fb, l, j, n);
        }
        lemma_fdot_same(vb, fprod(va, ab, n), vb, fb, i, j, n);
    }
    assert(inverse_of(w, fc, n));
}

} // verus!
