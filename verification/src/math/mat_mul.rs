//! Exact integer matrix multiplication. Used to fold the unimodular
//! transform of a sub-lattice back into the outer basis.

use crate::integer::{integer_value, int_add, int_mul, int_zero, int_clone};
use crate::lattice::IntMatrix;
use rug::Integer;
use vstd::prelude::*;

verus! {

/// `sum_{l < len} A[i, l] · B[l, j]`.
pub open spec fn dot(a: IntMatrix, b: IntMatrix, i: int, j: int, len: int) -> int
    decreases len,
{
    if len <= 0 {
        0
    } else {
        dot(a, b, i, j, len - 1) + a.at(i, len - 1) * b.at(len - 1, j)
    }
}

/// `C` is the product `A · B`.
pub open spec fn is_product(c: IntMatrix, a: IntMatrix, b: IntMatrix) -> bool {
    &&& c.nrows == a.nrows
    &&& c.ncols == b.ncols
    &&& forall|i: int, j: int|
        0 <= i < a.nrows && 0 <= j < b.ncols ==> #[trigger] c.at(i, j) == dot(a, b, i, j, a.ncols as int)
}

/// `sum_{l < k} A[i, l] · B[l, j]`, computed exactly.
fn dot_entry(a: &IntMatrix, b: &IntMatrix, i: usize, j: usize) -> (r: Integer)
    requires
        a.wf(),
        b.wf(),
        a.ncols == b.nrows,
        i < a.nrows,
        j < b.ncols,
    ensures
        integer_value(r) == dot(*a, *b, i as int, j as int, a.ncols as int),
{
    let mut sum = int_zero();
    let mut l: usize = 0;
    while l < a.ncols
        invariant
            a.wf(),
            b.wf(),
            a.ncols == b.nrows,
            i < a.nrows,
            j < b.ncols,
            l <= a.ncols,
            integer_value(sum) == dot(*a, *b, i as int, j as int, l as int),
        decreases a.ncols - l,
    {
        let t = int_mul(a.get(i, l), b.get(l, j));
        sum = int_add(&sum, &t);
        l = l + 1;
    }
    sum
}

/// Exact `C = A · B`. `A` is `m × k`, `B` is `k × n`, `C` is `m × n`.
pub fn mat_mul(a: &IntMatrix, b: &IntMatrix) -> (c: IntMatrix)
    requires
        a.wf(),
        b.wf(),
        a.ncols == b.nrows,
        a.nrows * b.ncols <= usize::MAX,
    ensures
        c.wf(),
        is_product(c, *a, *b),
{
    let m = a.nrows;
    let n = b.ncols;
    let mut c = IntMatrix::zeros(m, n);
    let mut i: usize = 0;
    while i < m
        invariant
            a.wf(),
            b.wf(),
            a.ncols == b.nrows,
            m == a.nrows,
            n == b.ncols,
            c.wf(),
            c.nrows == m,
            c.ncols == n,
            i <= m,
            forall|x: int, y: int| 0 <= x < i && 0 <= y < n ==> #[trigger] c.at(x, y) == dot(*a, *b, x, y, a.ncols as int),
        decreases m - i,
    {
        let mut j: usize = 0;
        while j < n
            invariant
                a.wf(),
                b.wf(),
                a.ncols == b.nrows,
                m == a.nrows,
                n == b.ncols,
                c.wf(),
                c.nrows == m,
                c.ncols == n,
                i < m,
                j <= n,
                forall|x: int, y: int|
                    0 <= x < m && 0 <= y < n && (x < i || (x == i && y < j)) ==> #[trigger] c.at(x, y) == dot(
                        *a,
                        *b,
                        x,
                        y,
                        a.ncols as int,
                    ),
            decreases n - j,
        {
            let v = dot_entry(a, b, i, j);
            c.set(i, j, v);
            j = j + 1;
        }
        i = i + 1;
    }
    c
}

/// In place `A := A · B` for square `n × n` matrices; one row buffer is
/// reused for every row.
pub fn mat_mul_inplace_square(a: &mut IntMatrix, b: &IntMatrix)
    requires
        old(a).wf(),
        b.wf(),
        old(a).nrows == old(a).ncols,
        old(a).ncols == b.nrows,
        b.nrows == b.ncols,
    ensures
        final(a).wf(),
        is_product(*final(a), *old(a), *b),
{
    let ghost a0 = *a;
    let n = a.nrows;
    let mut i: usize = 0;
    while i < n
        invariant
            a.wf(),
            b.wf(),
            a0.wf(),
            a.nrows == n,
            a.ncols == n,
            a0.nrows == n,
            a0.ncols == n,
            b.nrows == n,
            b.ncols == n,
            i <= n,
            forall|x: int, y: int| 0 <= x < i && 0 <= y < n ==> #[trigger] a.at(x, y) == dot(a0, *b, x, y, n as int),
            forall|x: int, y: int| i <= x < n && 0 <= y < n ==> #[trigger] a.at(x, y) == a0.at(x, y),
        decreases n - i,
    {
        let mut row_buf: Vec<Integer> = Vec::new();
        let mut j: usize = 0;
        while j < n
            invariant
                a.wf(),
                b.wf(),
                a.nrows == n,
                a.ncols == n,
                a0.nrows == n,
                a0.ncols == n,
                b.nrows == n,
                b.ncols == n,
                i < n,
                j <= n,
                row_buf@.len() == j,
                forall|x: int, y: int| i <= x < n && 0 <= y < n ==> #[trigger] a.at(x, y) == a0.at(x, y),
                forall|y: int| 0 <= y < j ==> integer_value(#[trigger] row_buf@[y]) == dot(a0, *b, i as int, y, n as int),
            decreases n - j,
        {
            let mut sum = int_zero();
            let mut l: usize = 0;
            while l < n
                invariant
                    a.wf(),
                    b.wf(),
                    a.nrows == n,
                    a.ncols == n,
                    a0.nrows == n,
                    a0.ncols == n,
                    b.nrows == n,
                    b.ncols == n,
                    i < n,
                    j < n,
                    l <= n,
                    forall|x: int, y: int| i <= x < n && 0 <= y < n ==> #[trigger] a.at(x, y) == a0.at(x, y),
                    integer_value(sum) == dot(a0, *b, i as int, j as int, l as int),
                decreases n - l,
            {
                assert(a.at(i as int, l as int) == a0.at(i as int, l as int));
                let t = int_mul(a.get(i, l), b.get(l, j));
                sum = int_add(&sum, &t);
                l = l + 1;
            }
            row_buf.push(sum);
            j = j + 1;
        }
        let mut j: usize = 0;
        while j < n
            invariant
                a.wf(),
                a.nrows == n,
                a.ncols == n,
                i < n,
                j <= n,
                row_buf@.len() == n,
                forall|y: int| 0 <= y < n ==> integer_value(#[trigger] row_buf@[y]) == dot(a0, *b, i as int, y, n as int),
                forall|x: int, y: int| 0 <= x < i && 0 <= y < n ==> #[trigger] a.at(x, y) == dot(a0, *b, x, y, n as int),
                forall|y: int| 0 <= y < j ==> #[trigger] a.at(i as int, y) == dot(a0, *b, i as int, y, n as int),
                forall|x: int, y: int| i < x < n && 0 <= y < n ==> #[trigger] a.at(x, y) == a0.at(x, y),
            decreases n - j,
        {
            let v = int_clone(&row_buf[j]);
            a.set(i, j, v);
            j = j + 1;
        }
        i = i + 1;
    }
}

/// The product of two matrices is unique: `mat_mul_inplace_square` leaves
/// in `A` exactly what `mat_mul` returns for the same operands.
pub proof fn lemma_product_unique(c1: IntMatrix, c2: IntMatrix, a: IntMatrix, b: IntMatrix)
    requires
        is_product(c1, a, b),
        is_product(c2, a, b),
    ensures
        c1.nrows == c2.nrows,
        c1.ncols == c2.ncols,
        forall|i: int, j: int| 0 <= i < c1.nrows && 0 <= j < c1.ncols ==> #[trigger] c1.at(i, j) == c2.at(i, j),
{
    assert forall|i: int, j: int| 0 <= i < c1.nrows && 0 <= j < c1.ncols implies #[trigger] c1.at(i, j) == c2.at(i, j) by {
        assert(c1.at(i, j) == dot(a, b, i, j, a.ncols as int));
        assert(c2.at(i, j) == dot(a, b, i, j, a.ncols as int));
    }
}

/// `sum_{t < p} A[i, t] · (B · C)[t, j]`, with `B · C` summed over its first
/// `q` terms.
pub open spec fn dot_of_dots(a: IntMatrix, b: IntMatrix, c: IntMatrix, i: int, j: int, p: int, q: int) -> int
    decreases p,
{
    if p <= 0 {
        0
    } else {
        dot_of_dots(a, b, c, i, j, p - 1, q) + a.at(i, p - 1) * dot(b, c, p - 1, j, q)
    }
}

proof fn lemma_dot_of_dots_zero(a: IntMatrix, b: IntMatrix, c: IntMatrix, i: int, j: int, p: int)
    ensures
        dot_of_dots(a, b, c, i, j, p, 0) == 0,
    decreases p,
{
    if p > 0 {
        lemma_dot_of_dots_zero(a, b, c, i, j, p - 1);
    }
}

/// One more term of the inner sums adds `(A · B)[i, q] · C[q, j]`.
proof fn lemma_dot_of_dots_step(a: IntMatrix, b: IntMatrix, c: IntMatrix, i: int, j: int, p: int, q: int)
    requires
        q >= 0,
    ensures
        dot_of_dots(a, b, c, i, j, p, q + 1) == dot_of_dots(a, b, c, i, j, p, q) + dot(a, b, i, q, p) * c.at(q, j),
    decreases p,
{
    if p > 0 {
        lemma_dot_of_dots_step(a, b, c, i, j, p - 1, q);
        let x = a.at(i, p - 1);
        let g = dot(b, c, p - 1, j, q);
        let y = b.at(p - 1, q);
        let z = c.at(q, j);
        let d = dot(a, b, i, q, p - 1);
        assert(dot(b, c, p - 1, j, q + 1) == g + y * z);
        assert(x * (g + y * z) == x * g + (x * y) * z) by (nonlinear_arith);
        assert((d + x * y) * z == d * z + (x * y) * z) by (nonlinear_arith);
    }
}

/// `(A · B) · C`, with `X` holding `A · B` in row `i`, summed over `q` terms.
proof fn lemma_left_assoc(a: IntMatrix, b: IntMatrix, c: IntMatrix, x: IntMatrix, i: int, j: int, p: int, q: int)
    requires
        q >= 0,
        forall|l: int| 0 <= l < q ==> #[trigger] x.at(i, l) == dot(a, b, i, l, p),
    ensures
        dot(x, c, i, j, q) == dot_of_dots(a, b, c, i, j, p, q),
    decreases q,
{
    if q == 0 {
        lemma_dot_of_dots_zero(a, b, c, i, j, p);
    } else {
        lemma_left_assoc(a, b, c, x, i, j, p, q - 1);
        lemma_dot_of_dots_step(a, b, c, i, j, p, q - 1);
        assert(x.at(i, q - 1) == dot(a, b, i, q - 1, p));
    }
}

/// `A · (B · C)`, with `Y` holding `B · C` in column `j`, summed over `p`
/// terms.
proof fn lemma_right_assoc(a: IntMatrix, b: IntMatrix, c: IntMatrix, y: IntMatrix, i: int, j: int, p: int, q: int)
    requires
        forall|t: int| 0 <= t < p ==> #[trigger] y.at(t, j) == dot(b, c, t, j, q),
    ensures
        dot(a, y, i, j, p) == dot_of_dots(a, b, c, i, j, p, q),
    decreases p,
{
    if p > 0 {
        lemma_right_assoc(a, b, c, y, i, j, p - 1, q);
        assert(y.at(p - 1, j) == dot(b, c, p - 1, j, q));
    }
}

/// Matrix products associate: with `X = A · B` and `Y = B · C`,
/// `X · C == A · Y` entry by entry.
pub proof fn lemma_mat_assoc(a: IntMatrix, b: IntMatrix, c: IntMatrix, x: IntMatrix, y: IntMatrix)
    requires
        a.ncols == b.nrows,
        b.ncols == c.nrows,
        is_product(x, a, b),
        is_product(y, b, c),
    ensures
        forall|i: int, j: int|
            0 <= i < a.nrows && 0 <= j < c.ncols ==> #[trigger] dot(x, c, i, j, b.ncols as int) == dot(
                a,
                y,
                i,
                j,
                a.ncols as int,
            ),
{
    let p = a.ncols as int;
    let q = b.ncols as int;
    assert forall|i: int, j: int| 0 <= i < a.nrows && 0 <= j < c.ncols implies #[trigger] dot(x, c, i, j, q) == dot(
        a,
        y,
        i,
        j,
        p,
    ) by {
        assert forall|l: int| 0 <= l < q implies #[trigger] x.at(i, l) == dot(a, b, i, l, p) by {
            assert(x.at(i, l) == dot(a, b, i, l, p));
        }
        assert forall|t: int| 0 <= t < p implies #[trigger] y.at(t, j) == dot(b, c, t, j, q) by {
            assert(y.at(t, j) == dot(b, c, t, j, q));
        }
        lemma_left_assoc(a, b, c, x, i, j, p, q);
        lemma_right_assoc(a, b, c, y, i, j, p, q);
    }
}

} // verus!
