//! `i64` matrix multiplication kernels with wrapping arithmetic.
//!
//! `C = A · B` (or `C += A · B`) for row-major `A` (`m × k`), `B` (`k × n`)
//! and `C` (`m × n`). Every product and sum wraps around modulo `2^64`, so
//! each entry of `C` is the exact integer result reduced to a two's
//! complement `i64`; when that result fits in an `i64` it is the result.

use crate::lattice::{idx, lemma_idx, lemma_idx_inj};
use vstd::prelude::*;

verus! {

/// Rows of `C` per block.
pub const MC: usize = 64;

/// Length of the inner dimension per block.
pub const KC: usize = 256;

/// Columns of `C` per block.
pub const NC: usize = 256;

/// `x` reduced to a two's complement 64-bit integer.
pub open spec fn wrap64(x: int) -> int {
    let r = x % 0x1_0000_0000_0000_0000;
    if r > i64::MAX {
        r - 0x1_0000_0000_0000_0000
    } else {
        r
    }
}

/// `sum_{l < len} A[i, l] · B[l, j]`, computed exactly.
pub open spec fn psum(a: Seq<i64>, b: Seq<i64>, n: int, k: int, i: int, j: int, len: int) -> int
    decreases len,
{
    if len <= 0 {
        0
    } else {
        psum(a, b, n, k, i, j, len - 1) + a[idx(i, len - 1, k)] * b[idx(len - 1, j, n)]
    }
}

/// Entry `(i, j)` of `A · B`, plus the old `C[i, j]` when accumulating,
/// computed exactly.
pub open spec fn gemm_entry(a: Seq<i64>, b: Seq<i64>, c_old: Seq<i64>, n: int, k: int, accumulate: bool, i: int, j: int) -> int {
    let s = psum(a, b, n, k, i, j, k);
    if accumulate {
        c_old[idx(i, j, n)] + s
    } else {
        s
    }
}

/// The result of a product of `m × k` by `k × n` into `c` (`m × n`).
pub open spec fn gemm_done(a: Seq<i64>, b: Seq<i64>, c_old: Seq<i64>, c: Seq<i64>, m: int, n: int, k: int, accumulate: bool) -> bool {
    &&& c.len() == m * n
    &&& forall|i: int, j: int|
        0 <= i < m && 0 <= j < n ==> #[trigger] c[idx(i, j, n)] == wrap64(gemm_entry(a, b, c_old, n, k, accumulate, i, j))
}

/// `wrap64` is the identity on the values an `i64` holds.
pub proof fn lemma_wrap64_small(x: int)
    requires
        i64::MIN <= x <= i64::MAX,
    ensures
        wrap64(x) == x,
{
    let r: int = 0x1_0000_0000_0000_0000;
    if x >= 0 {
        vstd::arithmetic::div_mod::lemma_small_mod(x as nat, r as nat);
    } else {
        vstd::arithmetic::div_mod::lemma_mod_add_multiples_vanish(x, r);
        vstd::arithmetic::div_mod::lemma_small_mod((x + r) as nat, r as nat);
    }
}

/// `wrap64` lands in the range of `i64`.
pub proof fn lemma_wrap64_range(x: int)
    ensures
        i64::MIN <= wrap64(x) <= i64::MAX,
{
    vstd::arithmetic::div_mod::lemma_mod_bound(x, 0x1_0000_0000_0000_0000);
}

/// Reducing an operand first does not change a wrapped sum.
pub proof fn lemma_wrap64_add(x: int, y: int)
    ensures
        wrap64(wrap64(x) + y) == wrap64(x + y),
{
    let r: int = 0x1_0000_0000_0000_0000;
    vstd::arithmetic::div_mod::lemma_add_mod_noop_right(y, x, r);
    vstd::arithmetic::div_mod::lemma_mod_sub_multiples_vanish(x % r + y, r);
    assert((x % r + y) % r == (x + y) % r);
}

/// `i64::wrapping_add` is the wrapped sum.
pub proof fn lemma_wrapping_add(x: i64, y: i64)
    ensures
        x.wrapping_add(y) == wrap64(x + y),
{
    let r: int = 0x1_0000_0000_0000_0000;
    let s = x + y;
    if s >= 0 {
        vstd::arithmetic::div_mod::lemma_small_mod(s as nat, r as nat);
    } else {
        vstd::arithmetic::div_mod::lemma_mod_add_multiples_vanish(s, r);
        vstd::arithmetic::div_mod::lemma_small_mod((s + r) as nat, r as nat);
    }
}

/// `i64::wrapping_mul` is the wrapped product.
pub proof fn lemma_wrapping_mul(x: i64, y: i64)
    ensures
        x.wrapping_mul(y) == wrap64(x * y),
{
    lemma_wrap64_range(x * y);
}

/// One more wrapped step of a sum: `wrap(wrap(s) + wrap(t)) == wrap(s + t)`.
proof fn lemma_wrapping_step(acc: i64, s: int, x: i64, y: i64)
    requires
        acc == wrap64(s),
    ensures
        acc.wrapping_add(x.wrapping_mul(y)) == wrap64(s + x * y),
{
    lemma_wrapping_mul(x, y);
    let p = x.wrapping_mul(y);
    lemma_wrapping_add(acc, p);
    lemma_wrap64_add(s, p as int);
    lemma_wrap64_add(x * y, s);
}

/// The lengths of slices fit in a `usize`.
proof fn lemma_slice_lens(a: &[i64], b: &[i64], c: &[i64])
    ensures
        a@.len() <= usize::MAX,
        b@.len() <= usize::MAX,
        c@.len() <= usize::MAX,
{
    vstd::slice::axiom_spec_len(a);
    vstd::slice::axiom_spec_len(b);
    vstd::slice::axiom_spec_len(c);
}

/// Direct triple loop: `C[i, j] = sum_l A[i, l] · B[l, j]`, or `C[i, j] +=`
/// that sum when `accumulate` is set, with wrapping arithmetic.
pub fn gemm_i64_naive(a: &[i64], b: &[i64], c: &mut [i64], m: usize, n: usize, k: usize, accumulate: bool)
    requires
        a@.len() == m * k,
        b@.len() == k * n,
        old(c)@.len() == m * n,
    ensures
        gemm_done(a@, b@, old(c)@, final(c)@, m as int, n as int, k as int, accumulate),
{
    proof {
        lemma_slice_lens(a, b, c);
    }
    let ghost c0 = c@;
    let mut i: usize = 0;
    while i < m
        invariant
            a@.len() == m * k,
            b@.len() == k * n,
            c@.len() == m * n,
            c0.len() == m * n,
            m * k <= usize::MAX,
            k * n <= usize::MAX,
            m * n <= usize::MAX,
            i <= m,
            forall|ii: int, jj: int|
                0 <= ii < i && 0 <= jj < n ==> #[trigger] c@[idx(ii, jj, n as int)] == wrap64(
                    gemm_entry(a@, b@, c0, n as int, k as int, accumulate, ii, jj),
                ),
            forall|ii: int, jj: int| i <= ii < m && 0 <= jj < n ==> #[trigger] c@[idx(ii, jj, n as int)] == c0[idx(ii, jj, n as int)],
        decreases m - i,
    {
        let mut j: usize = 0;
        while j < n
            invariant
                a@.len() == m * k,
                b@.len() == k * n,
                c@.len() == m * n,
                c0.len() == m * n,
                m * k <= usize::MAX,
                k * n <= usize::MAX,
                m * n <= usize::MAX,
                i < m,
                j <= n,
                forall|ii: int, jj: int|
                    (0 <= ii < i && 0 <= jj < n) || (ii == i && 0 <= jj < j) ==> #[trigger] c@[idx(ii, jj, n as int)] == wrap64(
                        gemm_entry(a@, b@, c0, n as int, k as int, accumulate, ii, jj),
                    ),
                forall|ii: int, jj: int|
                    (i < ii < m && 0 <= jj < n) || (ii == i && j <= jj < n) ==> #[trigger] c@[idx(ii, jj, n as int)] == c0[idx(ii, jj, n as int)],
            decreases n - j,
        {
            let mut sum: i64 = 0;
            let mut l: usize = 0;
            proof {
                lemma_wrap64_small(0);
            }
            while l < k
                invariant
                    a@.len() == m * k,
                    b@.len() == k * n,
                    m * k <= usize::MAX,
                    k * n <= usize::MAX,
                    i < m,
                    j < n,
                    l <= k,
                    sum == wrap64(psum(a@, b@, n as int, k as int, i as int, j as int, l as int)),
                decreases k - l,
            {
                proof {
                    lemma_idx(i as int, l as int, m as int, k as int);
                    lemma_idx(l as int, j as int, k as int, n as int);
                    lemma_wrapping_step(
                        sum,
                        psum(a@, b@, n as int, k as int, i as int, j as int, l as int),
                        a@[idx(i as int, l as int, k as int)],
                        b@[idx(l as int, j as int, n as int)],
                    );
                }
                sum = sum.wrapping_add(a[i * k + l].wrapping_mul(b[l * n + j]));
                l = l + 1;
            }
            proof {
                lemma_idx(i as int, j as int, m as int, n as int);
            }
            let t = i * n + j;
            let ghost cb = c@;
            if accumulate {
                proof {
                    lemma_wrapping_add(c@[t as int], sum);
                    lemma_wrap64_add(psum(a@, b@, n as int, k as int, i as int, j as int, k as int), c@[t as int] as int);
                }
                c[t] = c[t].wrapping_add(sum);
            } else {
                c[t] = sum;
            }
            proof {
                assert forall|ii: int, jj: int| 0 <= ii < m && 0 <= jj < n && (ii != i || jj != j) implies
                    #[trigger] c@[idx(ii, jj, n as int)] == cb[idx(ii, jj, n as int)] by {
                    lemma_idx(ii, jj, m as int, n as int);
                    if idx(ii, jj, n as int) == t {
                        lemma_idx_inj(ii, jj, i as int, j as int, n as int);
                    }
                }
            }
            j = j + 1;
        }
        i = i + 1;
    }
}

/// Rows `lo..hi` of a matrix with `n` columns occupy the positions
/// `lo·n .. hi·n`.
pub proof fn lemma_idx_rows(r: int, col: int, n: int, lo: int, hi: int)
    requires
        0 <= col < n,
        0 <= lo <= hi,
    ensures
        (lo <= r < hi) <==> (lo * n <= idx(r, col, n) < hi * n),
{
    if r < lo {
        assert(r * n + col < lo * n) by (nonlinear_arith)
            requires
                r < lo,
                0 <= col < n,
        ;
    } else if r >= hi {
        assert(r * n + col >= hi * n) by (nonlinear_arith)
            requires
                r >= hi,
                0 <= col < n,
        ;
    } else {
        assert(lo * n <= r * n + col < hi * n) by (nonlinear_arith)
            requires
                lo <= r < hi,
                0 <= col < n,
        ;
    }
}

/// How many terms of `sum_l A[i0 + r, l] · B[l, col]` have been added to
/// entry `(r, col)` of a row block, with the loops at the inner-dimension
/// block `ll .. ll + lb`, the column block `jj .. jj + jb`, row `i`, term
/// `ll + l` and column `jj + j`.
pub open spec fn block_count(ll: int, lb: int, jj: int, jb: int, i: int, l: int, j: int, r: int, col: int) -> int {
    if col < jj {
        ll + lb
    } else if col >= jj + jb {
        ll
    } else if r < i {
        ll + lb
    } else if r > i {
        ll
    } else if col - jj < j {
        ll + l + 1
    } else {
        ll + l
    }
}

/// Entry `(r, col)` of the row block holds its old value plus the first
/// `cnt(r, col)` terms of its sum, wrapped.
pub open spec fn rows_state(
    a: Seq<i64>,
    b: Seq<i64>,
    c0: Seq<i64>,
    c: Seq<i64>,
    c_row0: int,
    i0: int,
    ib: int,
    n: int,
    k: int,
    cnt: spec_fn(int, int) -> int,
) -> bool {
    forall|r: int, col: int|
        0 <= r < ib && 0 <= col < n ==> #[trigger] c[idx(c_row0 + r, col, n)] == wrap64(
            c0[idx(c_row0 + r, col, n)] + psum(a, b, n, k, i0 + r, col, cnt(r, col)),
        )
}

/// `rows_state` depends on the counts only on the block.
proof fn lemma_rows_state_counts(
    a: Seq<i64>,
    b: Seq<i64>,
    c0: Seq<i64>,
    c: Seq<i64>,
    c_row0: int,
    i0: int,
    ib: int,
    n: int,
    k: int,
    cnt: spec_fn(int, int) -> int,
    cnt2: spec_fn(int, int) -> int,
)
    requires
        rows_state(a, b, c0, c, c_row0, i0, ib, n, k, cnt),
        forall|r: int, col: int| 0 <= r < ib && 0 <= col < n ==> #[trigger] cnt(r, col) == cnt2(r, col),
    ensures
        rows_state(a, b, c0, c, c_row0, i0, ib, n, k, cnt2),
{
    assert forall|r: int, col: int| 0 <= r < ib && 0 <= col < n implies #[trigger] c[idx(c_row0 + r, col, n)] == wrap64(
        c0[idx(c_row0 + r, col, n)] + psum(a, b, n, k, i0 + r, col, cnt2(r, col)),
    ) by {
        assert(cnt(r, col) == cnt2(r, col));
    }
}

/// Multiply rows `i0 .. i0 + ib` of `A` (`m × k`) by `B` (`k × n`) and add
/// the result, wrapping, to rows `c_row0 .. c_row0 + ib` of `c`, cache block
/// by cache block. The rest of `c` is left alone.
pub fn gemm_i64_row_block(
    a: &[i64],
    b: &[i64],
    c: &mut [i64],
    c_row0: usize,
    i0: usize,
    ib: usize,
    m: usize,
    n: usize,
    k: usize,
)
    requires
        a@.len() == m * k,
        b@.len() == k * n,
        i0 + ib <= m,
        (c_row0 + ib) * n <= old(c)@.len(),
    ensures
        final(c)@.len() == old(c)@.len(),
        forall|r: int, col: int|
            0 <= r < ib && 0 <= col < n ==> #[trigger] final(c)@[idx(c_row0 + r, col, n as int)] == wrap64(
                old(c)@[idx(c_row0 + r, col, n as int)] + psum(a@, b@, n as int, k as int, i0 + r, col, k as int),
            ),
        forall|t: int|
            0 <= t < old(c)@.len() && !(c_row0 * n <= t < (c_row0 + ib) * n) ==> #[trigger] final(c)@[t] == old(c)@[t],
{
    proof {
        lemma_slice_lens(a, b, c);
    }
    let ghost c0 = c@;
    let ghost ni = n as int;
    let ghost ki = k as int;
    let ghost r0 = c_row0 as int;
    let ghost ii0 = i0 as int;
    let ghost ibi = ib as int;
    proof {
        assert forall|r: int, col: int| 0 <= r < ib && 0 <= col < n implies #[trigger] c@[idx(r0 + r, col, ni)] == wrap64(
            c0[idx(r0 + r, col, ni)] + psum(a@, b@, ni, ki, ii0 + r, col, block_count(0, 0, 0, 0, 0, 0, 0, r, col)),
        ) by {
            lemma_idx(r0 + r, col, r0 + ibi, ni);
            lemma_wrap64_small(c0[idx(r0 + r, col, ni)] as int);
        }
    }
    let mut ll: usize = 0;
    while ll < k
        invariant
            a@.len() == m * k,
            b@.len() == k * n,
            m * k <= usize::MAX,
            k * n <= usize::MAX,
            c@.len() <= usize::MAX,
            i0 + ib <= m,
            (c_row0 + ib) * n <= c@.len(),
            c@.len() == c0.len(),
            ni == n,
            ki == k,
            r0 == c_row0,
            ii0 == i0,
            ibi == ib,
            ll <= k,
            rows_state(a@, b@, c0, c@, r0, ii0, ibi, ni, ki, |r: int, col: int| block_count(ll as int, 0, 0, 0, 0, 0, 0, r, col)),
            forall|t: int| 0 <= t < c0.len() && !(c_row0 * n <= t < (c_row0 + ib) * n) ==> #[trigger] c@[t] == c0[t],
        decreases k - ll,
    {
        let lb = if k - ll < KC {
            k - ll
        } else {
            KC
        };
        let mut jj: usize = 0;
        proof {
            lemma_rows_state_counts(
                a@, b@, c0, c@, r0, ii0, ibi, ni, ki,
                |r: int, col: int| block_count(ll as int, 0, 0, 0, 0, 0, 0, r, col),
                |r: int, col: int| block_count(ll as int, lb as int, 0, 0, 0, 0, 0, r, col),
            );
        }
        while jj < n
            invariant
                a@.len() == m * k,
                b@.len() == k * n,
                m * k <= usize::MAX,
                k * n <= usize::MAX,
                c@.len() <= usize::MAX,
                i0 + ib <= m,
                (c_row0 + ib) * n <= c@.len(),
                c@.len() == c0.len(),
                ni == n,
                ki == k,
                r0 == c_row0,
                ii0 == i0,
                ibi == ib,
                ll < k,
                0 < lb <= k - ll,
                jj <= n,
                rows_state(a@, b@, c0, c@, r0, ii0, ibi, ni, ki, |r: int, col: int| block_count(ll as int, lb as int, jj as int, 0, 0, 0, 0, r, col)),
                forall|t: int| 0 <= t < c0.len() && !(c_row0 * n <= t < (c_row0 + ib) * n) ==> #[trigger] c@[t] == c0[t],
            decreases n - jj,
        {
            let jb = if n - jj < NC {
                n - jj
            } else {
                NC
            };
            proof {
                lemma_rows_state_counts(
                    a@, b@, c0, c@, r0, ii0, ibi, ni, ki,
                    |r: int, col: int| block_count(ll as int, lb as int, jj as int, 0, 0, 0, 0, r, col),
                    |r: int, col: int| block_count(ll as int, lb as int, jj as int, jb as int, 0, 0, 0, r, col),
                );
            }
            let mut i: usize = 0;
            while i < ib
                invariant
                    a@.len() == m * k,
                    b@.len() == k * n,
                    m * k <= usize::MAX,
                    k * n <= usize::MAX,
                    c@.len() <= usize::MAX,
                    i0 + ib <= m,
                    (c_row0 + ib) * n <= c@.len(),
                    c@.len() == c0.len(),
                    ni == n,
                    ki == k,
                    r0 == c_row0,
                    ii0 == i0,
                    ibi == ib,
                    ll < k,
                    0 < lb <= k - ll,
                    jj < n,
                    0 < jb <= n - jj,
                    i <= ib,
                    rows_state(a@, b@, c0, c@, r0, ii0, ibi, ni, ki, |r: int, col: int| block_count(ll as int, lb as int, jj as int, jb as int, i as int, 0, 0, r, col)),
                    forall|t: int| 0 <= t < c0.len() && !(c_row0 * n <= t < (c_row0 + ib) * n) ==> #[trigger] c@[t] == c0[t],
                decreases ib - i,
            {
                let mut l: usize = 0;
                while l < lb
                    invariant
                        a@.len() == m * k,
                        b@.len() == k * n,
                        m * k <= usize::MAX,
                        k * n <= usize::MAX,
                        c@.len() <= usize::MAX,
                        i0 + ib <= m,
                        (c_row0 + ib) * n <= c@.len(),
                        c@.len() == c0.len(),
                        ni == n,
                        ki == k,
                        r0 == c_row0,
                        ii0 == i0,
                        ibi == ib,
                        ll < k,
                        0 < lb <= k - ll,
                        jj < n,
                        0 < jb <= n - jj,
                        i < ib,
                        l <= lb,
                        rows_state(a@, b@, c0, c@, r0, ii0, ibi, ni, ki, |r: int, col: int| block_count(ll as int, lb as int, jj as int, jb as int, i as int, l as int, 0, r, col)),
                        forall|t: int| 0 <= t < c0.len() && !(c_row0 * n <= t < (c_row0 + ib) * n) ==> #[trigger] c@[t] == c0[t],
                    decreases lb - l,
                {
                    proof {
                        lemma_idx(i0 + i, ll + l, m as int, k as int);
                    }
                    let a_il = a[(i0 + i) * k + ll + l];
                    let mut j: usize = 0;
                    while j < jb
                        invariant
                            a@.len() == m * k,
                            b@.len() == k * n,
                            m * k <= usize::MAX,
                            k * n <= usize::MAX,
                            c@.len() <= usize::MAX,
                            i0 + ib <= m,
                            (c_row0 + ib) * n <= c@.len(),
                            c@.len() == c0.len(),
                            ni == n,
                            ki == k,
                            r0 == c_row0,
                            ii0 == i0,
                            ibi == ib,
                            ll < k,
                            0 < lb <= k - ll,
                            jj < n,
                            0 < jb <= n - jj,
                            i < ib,
                            l < lb,
                            j <= jb,
                            a_il == a@[idx(i0 + i, ll + l, k as int)],
                            rows_state(a@, b@, c0, c@, r0, ii0, ibi, ni, ki, |r: int, col: int| block_count(ll as int, lb as int, jj as int, jb as int, i as int, l as int, j as int, r, col)),
                            forall|t: int| 0 <= t < c0.len() && !(c_row0 * n <= t < (c_row0 + ib) * n) ==> #[trigger] c@[t] == c0[t],
                        decreases jb - j,
                    {
                        let ghost cb = c@;
                        let ghost ri = i as int;
                        let ghost col = (jj + j) as int;
                        proof {
                            lemma_idx(ll + l, jj + j, k as int, n as int);
                            lemma_idx(c_row0 + i, jj + j, c_row0 + ib, n as int);
                            lemma_idx_rows(c_row0 + i, jj + j, n as int, c_row0 as int, c_row0 + ib);
                            assert(c_row0 + ib <= (c_row0 + ib) * n) by (nonlinear_arith)
                                requires
                                    n >= 1,
                            ;
                        }
                        let t = (c_row0 + i) * n + jj + j;
                        let bv = b[(ll + l) * n + jj + j];
                        proof {
                            assert(cb[idx(r0 + ri, col, ni)] == wrap64(
                                c0[idx(r0 + ri, col, ni)] + psum(a@, b@, ni, ki, ii0 + ri, col, ll + l),
                            ));
                            lemma_wrapping_step(
                                cb[t as int],
                                c0[t as int] + psum(a@, b@, ni, ki, ii0 + ri, col, ll + l),
                                a_il,
                                bv,
                            );
                        }
                        c[t] = c[t].wrapping_add(a_il.wrapping_mul(bv));
                        proof {
                            assert forall|r: int, cc: int| 0 <= r < ib && 0 <= cc < n implies #[trigger] c@[idx(r0 + r, cc, ni)] == wrap64(
                                c0[idx(r0 + r, cc, ni)] + psum(a@, b@, ni, ki, ii0 + r, cc, block_count(ll as int, lb as int, jj as int, jb as int, i as int, l as int, j + 1, r, cc)),
                            ) by {
                                if r != ri || cc != col {
                                    assert(cb[idx(r0 + r, cc, ni)] == wrap64(
                                        c0[idx(r0 + r, cc, ni)] + psum(a@, b@, ni, ki, ii0 + r, cc, block_count(ll as int, lb as int, jj as int, jb as int, i as int, l as int, j as int, r, cc)),
                                    ));
                                    lemma_idx(r0 + r, cc, r0 + ibi, ni);
                                    if idx(r0 + r, cc, ni) == t {
                                        lemma_idx_inj(r0 + r, cc, r0 + ri, col, ni);
                                    }
                                    assert(c@[idx(r0 + r, cc, ni)] == cb[idx(r0 + r, cc, ni)]);
                                } else {
                                    assert(psum(a@, b@, ni, ki, ii0 + r, cc, ll + l + 1) == psum(a@, b@, ni, ki, ii0 + r, cc, ll + l) + a_il * bv);
                                    assert(c@[idx(r0 + r, cc, ni)] == wrap64(c0[t as int] + psum(a@, b@, ni, ki, ii0 + r, cc, ll + l) + a_il * bv));
                                }
                            }
                        }
                        j = j + 1;
                    }
                    proof {
                        lemma_rows_state_counts(
                            a@, b@, c0, c@, r0, ii0, ibi, ni, ki,
                            |r: int, col: int| block_count(ll as int, lb as int, jj as int, jb as int, i as int, l as int, jb as int, r, col),
                            |r: int, col: int| block_count(ll as int, lb as int, jj as int, jb as int, i as int, l + 1, 0, r, col),
                        );
                    }
                    l = l + 1;
                }
                proof {
                    lemma_rows_state_counts(
                        a@, b@, c0, c@, r0, ii0, ibi, ni, ki,
                        |r: int, col: int| block_count(ll as int, lb as int, jj as int, jb as int, i as int, lb as int, 0, r, col),
                        |r: int, col: int| block_count(ll as int, lb as int, jj as int, jb as int, i + 1, 0, 0, r, col),
                    );
                }
                i = i + 1;
            }
            proof {
                lemma_rows_state_counts(
                    a@, b@, c0, c@, r0, ii0, ibi, ni, ki,
                    |r: int, col: int| block_count(ll as int, lb as int, jj as int, jb as int, ib as int, 0, 0, r, col),
                    |r: int, col: int| block_count(ll as int, lb as int, jj + jb, 0, 0, 0, 0, r, col),
                );
            }
            jj = jj + jb;
        }
        proof {
            lemma_rows_state_counts(
                a@, b@, c0, c@, r0, ii0, ibi, ni, ki,
                |r: int, col: int| block_count(ll as int, lb as int, n as int, 0, 0, 0, 0, r, col),
                |r: int, col: int| block_count(ll + lb, 0, 0, 0, 0, 0, 0, r, col),
            );
        }
        ll = ll + lb;
    }
    proof {
        assert forall|r: int, col: int| 0 <= r < ib && 0 <= col < n implies #[trigger] c@[idx(c_row0 + r, col, n as int)] == wrap64(
            c0[idx(c_row0 + r, col, n as int)] + psum(a@, b@, n as int, k as int, i0 + r, col, k as int),
        ) by {
            assert(c@[idx(r0 + r, col, ni)] == wrap64(
                c0[idx(r0 + r, col, ni)] + psum(a@, b@, ni, ki, ii0 + r, col, block_count(ll as int, 0, 0, 0, 0, 0, 0, r, col)),
            ));
        }
    }
}

/// Cache-blocked product: the same result as `gemm_i64_naive`, computed
/// in blocks of `MC` rows, `KC` terms and `NC` columns.
pub fn gemm_i64_blocked(a: &[i64], b: &[i64], c: &mut [i64], m: usize, n: usize, k: usize, accumulate: bool)
    requires
        a@.len() == m * k,
        b@.len() == k * n,
        old(c)@.len() == m * n,
    ensures
        gemm_done(a@, b@, old(c)@, final(c)@, m as int, n as int, k as int, accumulate),
{
    proof {
        lemma_slice_lens(a, b, c);
    }
    let ghost c_in = c@;
    if !accumulate {
        let mut t: usize = 0;
        while t < c.len()
            invariant
                c@.len() == m * n,
                t <= c@.len(),
                forall|x: int| 0 <= x < t ==> #[trigger] c@[x] == 0,
            decreases c@.len() - t,
        {
            c[t] = 0;
            t = t + 1;
        }
    }
    let ghost cz = c@;
    proof {
        assert forall|r: int, col: int| 0 <= r < m && 0 <= col < n implies #[trigger] cz[idx(r, col, n as int)] + psum(
            a@, b@, n as int, k as int, r, col, k as int,
        ) == gemm_entry(a@, b@, c_in, n as int, k as int, accumulate, r, col) by {
            lemma_idx(r, col, m as int, n as int);
        }
    }
    let mut ii: usize = 0;
    while ii < m
        invariant
            a@.len() == m * k,
            b@.len() == k * n,
            c@.len() == m * n,
            cz.len() == m * n,
            m * n <= usize::MAX,
            ii <= m,
            forall|r: int, col: int|
                0 <= r < ii && 0 <= col < n ==> #[trigger] c@[idx(r, col, n as int)] == wrap64(
                    cz[idx(r, col, n as int)] + psum(a@, b@, n as int, k as int, r, col, k as int),
                ),
            forall|r: int, col: int| ii <= r < m && 0 <= col < n ==> #[trigger] c@[idx(r, col, n as int)] == cz[idx(r, col, n as int)],
        decreases m - ii,
    {
        let ib = if m - ii < MC {
            m - ii
        } else {
            MC
        };
        proof {
            assert((ii + ib) * n <= m * n) by (nonlinear_arith)
                requires
                    ii + ib <= m,
            ;
        }
        let ghost cb = c@;
        gemm_i64_row_block(a, b, c, ii, ii, ib, m, n, k);
        proof {
            assert forall|r: int, col: int| 0 <= r < m && 0 <= col < n && !(ii <= r < ii + ib) implies
                #[trigger] c@[idx(r, col, n as int)] == cb[idx(r, col, n as int)] by {
                lemma_idx_rows(r, col, n as int, ii as int, ii + ib);
                lemma_idx(r, col, m as int, n as int);
            }
            assert forall|r: int, col: int| ii <= r < ii + ib && 0 <= col < n implies #[trigger] c@[idx(r, col, n as int)] == wrap64(
                cz[idx(r, col, n as int)] + psum(a@, b@, n as int, k as int, r, col, k as int),
            ) by {
                assert(c@[idx(ii + (r - ii), col, n as int)] == wrap64(
                    cb[idx(ii + (r - ii), col, n as int)] + psum(a@, b@, n as int, k as int, ii + (r - ii), col, k as int),
                ));
            }
        }
        ii = ii + ib;
    }
}

/// When every exact entry of the result fits in an `i64`, a wrapped
/// product is the exact product.
pub proof fn lemma_gemm_exact(
    a: Seq<i64>,
    b: Seq<i64>,
    c_old: Seq<i64>,
    c: Seq<i64>,
    m: int,
    n: int,
    k: int,
    accumulate: bool,
)
    requires
        gemm_done(a, b, c_old, c, m, n, k, accumulate),
        forall|i: int, j: int|
            0 <= i < m && 0 <= j < n ==> i64::MIN <= #[trigger] gemm_entry(a, b, c_old, n, k, accumulate, i, j) <= i64::MAX,
    ensures
        forall|i: int, j: int| 0 <= i < m && 0 <= j < n ==> #[trigger] c[idx(i, j, n)] == gemm_entry(a, b, c_old, n, k, accumulate, i, j),
{
    assert forall|i: int, j: int| 0 <= i < m && 0 <= j < n implies #[trigger] c[idx(i, j, n)] == gemm_entry(
        a,
        b,
        c_old,
        n,
        k,
        accumulate,
        i,
        j,
    ) by {
        lemma_wrap64_small(gemm_entry(a, b, c_old, n, k, accumulate, i, j));
    }
}

/// The result of a product is unique: `gemm_i64_naive`,
/// `gemm_i64_blocked` and a run of `gemm_i64_row_block` over all row
/// blocks leave the same `C` for the same operands.
pub proof fn lemma_gemm_unique(
    a: Seq<i64>,
    b: Seq<i64>,
    c_old: Seq<i64>,
    c1: Seq<i64>,
    c2: Seq<i64>,
    m: int,
    n: int,
    k: int,
    accumulate: bool,
)
    requires
        0 <= m,
        0 <= n,
        gemm_done(a, b, c_old, c1, m, n, k, accumulate),
        gemm_done(a, b, c_old, c2, m, n, k, accumulate),
    ensures
        c1 == c2,
{
    assert forall|t: int| 0 <= t < c1.len() implies c1[t] == c2[t] by {
        vstd::arithmetic::div_mod::lemma_fundamental_div_mod(t, n);
        vstd::arithmetic::div_mod::lemma_mod_bound(t, n);
        let i = t / n;
        let j = t % n;
        assert(t == idx(i, j, n)) by (nonlinear_arith)
            requires
                t == n * (t / n) + t % n,
                i == t / n,
                j == t % n,
        ;
        assert(0 <= i < m) by (nonlinear_arith)
            requires
                0 <= t < m * n,
                t == n * i + j,
                0 <= j < n,
        ;
        assert(c1[idx(i, j, n)] == c2[idx(i, j, n)]);
    }
    assert(c1 =~= c2);
}

} // verus!
