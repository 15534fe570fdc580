//! The exact integer steps of the preprocessor for bases of unknown
//! condition number: moving columns by a selection matrix, applying a
//! block transform to the basis, and deciding, from what a refinement
//! round found, whether to stop or at which precision to go on.

use crate::integer::{integer_value, int_zero, int_add, int_mul, int_clone, int_is_zero, int_to_i64, int_from_i64};
use crate::lattice::{IntMatrix, col_is_zero};
use crate::math::mat_mul::{dot, is_product, lemma_mat_assoc, mat_mul};
use crate::math::unimodular::{unimodular, lemma_product_unimodular};
use vstd::prelude::*;

verus! {

/// `u[s, j] == 1` for some row `s < n`.
pub open spec fn has_source(u: IntMatrix, j: int, n: int) -> bool {
    exists|s: int| 0 <= s < n && u.at(s, j) == 1
}

/// The first row `s < n` with `u[s, j] == 1`.
pub open spec fn first_source(u: IntMatrix, j: int, n: int) -> int {
    choose|s: int| 0 <= s < n && u.at(s, j) == 1 && forall|t: int| 0 <= t < s ==> u.at(t, j) != 1
}

/// Column `j` of the result of `apply_perm`: column `s` of `b` for the
/// first `s` with `u[s, j] == 1`, or zero when there is none or `j` is
/// past the columns of `u`.
pub open spec fn permuted_entry(b: IntMatrix, u: IntMatrix, i: int, j: int) -> int {
    if j < u.ncols && has_source(u, j, b.ncols as int) {
        b.at(i, first_source(u, j, b.ncols as int))
    } else {
        0
    }
}

/// Replace `b` by the matrix whose column `j` is column `s` of `b`, for the
/// first row `s` at which column `j` of `u` holds a one (a zero column when
/// there is none).
pub fn apply_perm(b: &mut IntMatrix, u: &IntMatrix)
    requires
        old(b).wf(),
        u.wf(),
        u.nrows >= old(b).ncols,
        u.ncols <= old(b).ncols,
    ensures
        final(b).wf(),
        final(b).nrows == old(b).nrows,
        final(b).ncols == old(b).ncols,
        forall|i: int, j: int|
            0 <= i < old(b).nrows && 0 <= j < old(b).ncols ==> #[trigger] final(b).at(i, j) == permuted_entry(*old(b), *u, i, j),
{
    let m = b.nrows;
    let n = b.ncols;
    proof {
        assert(m * n == b.data@.len());
        assert(b.data.len() == b.data@.len());
    }
    let mut b2 = IntMatrix::zeros(m, n);
    let mut j: usize = 0;
    while j < u.ncols
        invariant
            b.wf(),
            u.wf(),
            b.nrows == m,
            b.ncols == n,
            u.nrows >= n,
            u.ncols <= n,
            b2.wf(),
            b2.nrows == m,
            b2.ncols == n,
            j <= u.ncols,
            forall|x: int, y: int| 0 <= x < m && 0 <= y < n ==> #[trigger] b2.at(x, y) == if y < j {
                permuted_entry(*b, *u, x, y)
            } else {
                0
            },
        decreases u.ncols - j,
    {
        let mut src: usize = 0;
        let mut found = false;
        let mut s: usize = 0;
        while s < n && !found
            invariant
                u.wf(),
                u.nrows >= n,
                j < u.ncols,
                s <= n,
                found ==> s > 0 && src == s - 1 && src < n && u.at(src as int, j as int) == 1,
                forall|t: int| 0 <= t < (if found { src as int } else { s as int }) ==> u.at(t, j as int) != 1,
            decreases n - s + (if found { 0int } else { 1int }),
        {
            if int_to_i64(u.get(s, j)) == Some(1i64) {
                src = s;
                found = true;
            }
            s = s + 1;
        }
        proof {
            if found {
                assert(has_source(*u, j as int, n as int));
                let f = first_source(*u, j as int, n as int);
                if f < src {
                    assert(u.at(f, j as int) != 1);
                } else if f > src {
                    assert(u.at(src as int, j as int) != 1);
                }
            } else {
                assert(!has_source(*u, j as int, n as int));
            }
        }
        if found {
            let mut i: usize = 0;
            while i < m
                invariant
                    b.wf(),
                    u.wf(),
                    b.nrows == m,
                    b.ncols == n,
                    u.nrows >= n,
                    u.ncols <= n,
                    b2.wf(),
                    b2.nrows == m,
                    b2.ncols == n,
                    j < u.ncols,
                    src < n,
                    i <= m,
                    has_source(*u, j as int, n as int),
                    first_source(*u, j as int, n as int) == src,
                    forall|x: int, y: int| 0 <= x < m && 0 <= y < n ==> #[trigger] b2.at(x, y) == if y < j || (y == j
                        && x < i) {
                        permuted_entry(*b, *u, x, y)
                    } else {
                        0
                    },
                decreases m - i,
            {
                let v = int_clone(b.get(i, src));
                b2.set(i, j, v);
                i = i + 1;
            }
        }
        j = j + 1;
    }
    proof {
        assert forall|x: int, y: int| 0 <= x < m && 0 <= y < n implies #[trigger] b2.at(x, y) == permuted_entry(*b, *u, x, y) by {
            if y >= u.ncols {
                assert(permuted_entry(*b, *u, x, y) == 0);
            }
        }
    }
    *b = b2;
}

/// `sum_{l < k} B[i, l] · U[l, j]`, computed exactly.
fn partial_dot(b: &IntMatrix, u: &IntMatrix, i: usize, j: usize, k: usize) -> (r: rug::Integer)
    requires
        b.wf(),
        u.wf(),
        i < b.nrows,
        j < u.ncols,
        k <= b.ncols,
        k <= u.nrows,
    ensures
        integer_value(r) == dot(*b, *u, i as int, j as int, k as int),
{
    let mut sum = int_zero();
    let mut l: usize = 0;
    while l < k
        invariant
            b.wf(),
            u.wf(),
            i < b.nrows,
            j < u.ncols,
            k <= b.ncols,
            k <= u.nrows,
            l <= k,
            integer_value(sum) == dot(*b, *u, i as int, j as int, l as int),
        decreases k - l,
    {
        let t = int_mul(b.get(i, l), u.get(l, j));
        sum = int_add(&sum, &t);
        l = l + 1;
    }
    sum
}

/// Entry `(i, j)` of `b` after `apply_u(b, u, k)`.
pub open spec fn block_applied(b: IntMatrix, u: IntMatrix, k: int, i: int, j: int) -> int {
    if j < k {
        dot(b, u, i, j, k)
    } else {
        b.at(i, j) + dot(b, u, i, j, k)
    }
}

/// Apply the block transform `U = [[U1, U2], [*, *]]` (`U1` is `k × k`,
/// `U2` is `k × (n - k)`) to the columns of `b`: the first `k` columns
/// become `B_left · U1` and the others gain `B_left · U2`, where `B_left`
/// is the first `k` columns of `b` before the call.
pub fn apply_u(b: &mut IntMatrix, u: &IntMatrix, k: usize)
    requires
        old(b).wf(),
        u.wf(),
        k <= old(b).ncols,
        k <= u.nrows,
        old(b).ncols <= u.ncols,
    ensures
        final(b).wf(),
        final(b).nrows == old(b).nrows,
        final(b).ncols == old(b).ncols,
        forall|i: int, j: int|
            0 <= i < old(b).nrows && 0 <= j < old(b).ncols ==> #[trigger] final(b).at(i, j) == block_applied(
                *old(b),
                *u,
                k as int,
                i,
                j,
            ),
{
    let m = b.nrows;
    let n = b.ncols;
    let b0 = b.submatrix(0, m, 0, n);
    proof {
        assert forall|i: int, j: int, len: int| 0 <= i < m && 0 <= j < u.ncols && 0 <= len <= k implies #[trigger] dot(
            b0,
            *u,
            i,
            j,
            len,
        ) == dot(*b, *u, i, j, len) by {
            lemma_dot_same_left(b0, *b, *u, i, j, len);
        }
    }
    let ghost bb = *b;
    let mut i: usize = 0;
    while i < m
        invariant
            b.wf(),
            b0.wf(),
            u.wf(),
            b.nrows == m,
            b.ncols == n,
            b0.nrows == m,
            b0.ncols == n,
            bb.nrows == m,
            bb.ncols == n,
            k <= n,
            k <= u.nrows,
            n <= u.ncols,
            i <= m,
            forall|x: int, y: int| 0 <= x < m && 0 <= y < n ==> #[trigger] b0.at(x, y) == bb.at(x, y),
            forall|x: int, y: int, len: int|
                0 <= x < m && 0 <= y < u.ncols && 0 <= len <= k ==> #[trigger] dot(b0, *u, x, y, len) == dot(bb, *u, x, y, len),
            forall|x: int, y: int| 0 <= x < m && 0 <= y < n ==> #[trigger] b.at(x, y) == if x < i {
                if y < k {
                    dot(bb, *u, x, y, k as int)
                } else {
                    bb.at(x, y) + dot(bb, *u, x, y, k as int)
                }
            } else {
                bb.at(x, y)
            },
        decreases m - i,
    {
        let mut j: usize = 0;
        while j < n
            invariant
                b.wf(),
                b0.wf(),
                u.wf(),
                b.nrows == m,
                b.ncols == n,
                b0.nrows == m,
                b0.ncols == n,
                bb.nrows == m,
                bb.ncols == n,
                k <= n,
                k <= u.nrows,
                n <= u.ncols,
                i < m,
                j <= n,
                forall|x: int, y: int| 0 <= x < m && 0 <= y < n ==> #[trigger] b0.at(x, y) == bb.at(x, y),
                forall|x: int, y: int, len: int|
                    0 <= x < m && 0 <= y < u.ncols && 0 <= len <= k ==> #[trigger] dot(b0, *u, x, y, len) == dot(bb, *u, x, y, len),
                forall|x: int, y: int| 0 <= x < m && 0 <= y < n ==> #[trigger] b.at(x, y) == if x < i || (x == i && y < j) {
                    if y < k {
                        dot(bb, *u, x, y, k as int)
                    } else {
                        bb.at(x, y) + dot(bb, *u, x, y, k as int)
                    }
                } else {
                    bb.at(x, y)
                },
            decreases n - j,
        {
            let s = partial_dot(&b0, u, i, j, k);
            if j < k {
                b.set(i, j, s);
            } else {
                let v = int_add(b.get(i, j), &s);
                b.set(i, j, v);
            }
            j = j + 1;
        }
        i = i + 1;
    }
}

/// `B · U` over the first `len` columns only reads those columns of `B`.
proof fn lemma_dot_same_left(a: IntMatrix, a2: IntMatrix, u: IntMatrix, i: int, j: int, len: int)
    requires
        forall|l: int| 0 <= l < len ==> #[trigger] a.at(i, l) == a2.at(i, l),
    ensures
        dot(a, u, i, j, len) == dot(a2, u, i, j, len),
    decreases len,
{
    if len > 0 {
        lemma_dot_same_left(a, a2, u, i, j, len - 1);
        assert(a.at(i, len - 1) == a2.at(i, len - 1));
    }
}

/// How many of the columns `from..ncols` of `b` are zero.
pub open spec fn zero_cols_from(b: IntMatrix, from: int) -> int
    decreases b.ncols - from,
{
    if from >= b.ncols {
        0
    } else {
        zero_cols_from(b, from + 1) + if col_is_zero(b, from) {
            1int
        } else {
            0int
        }
    }
}

/// The number of zero columns among `from..ncols`.
pub fn count_zero_cols(b: &IntMatrix, from: usize) -> (r: usize)
    requires
        b.wf(),
        from <= b.ncols,
    ensures
        r == zero_cols_from(*b, from as int),
        r <= b.ncols - from,
{
    let n = b.ncols;
    let mut count: usize = 0;
    let mut j: usize = n;
    while j > from
        invariant
            b.wf(),
            b.ncols == n,
            from <= j <= n,
            count == zero_cols_from(*b, j as int),
            count <= n - j,
        decreases j - from,
    {
        j = j - 1;
        let mut is_zero = true;
        let mut i: usize = 0;
        while i < b.nrows
            invariant
                b.wf(),
                j < b.ncols,
                i <= b.nrows,
                is_zero <==> forall|t: int| 0 <= t < i ==> #[trigger] b.at(t, j as int) == 0,
            decreases b.nrows - i,
        {
            if !int_is_zero(b.get(i, j)) {
                is_zero = false;
            }
            i = i + 1;
        }
        proof {
            assert(is_zero == col_is_zero(*b, j as int));
        }
        if is_zero {
            count = count + 1;
        }
    }
    count
}

/// What a refinement round leads to.
#[derive(PartialEq, Eq, Structural, Debug, Clone, Copy)]
pub enum Refinement {
    /// Every vector is either independent or zero: the basis is done.
    Converged,
    /// Go on with this rank bound and working precision.
    Continue { max_rank: usize, working_prec: u32 },
}

/// The decision at the end of a refinement round that found `num_valid`
/// independent vectors and `zero_vecs` zero vectors among the other
/// `n - num_valid`, in a basis of `n` vectors of dimension `m`. When all
/// vectors are accounted for, the basis is done. When the rank bound was
/// reached, the precision becomes `spread_bits + 40` (at least 53, where
/// `spread_bits` is twice the profile spread rounded up); otherwise the
/// rank bound drops to `min(m, n - zero_vecs)` and the precision doubles
/// (at least 53), both saturating at `u32::MAX`.
pub open spec fn refinement_after(
    num_valid: int,
    zero_vecs: int,
    n: int,
    m: int,
    max_rank: int,
    working_prec: int,
    spread_bits: int,
) -> Refinement {
    if num_valid + zero_vecs == n {
        Refinement::Converged
    } else if num_valid == max_rank {
        Refinement::Continue {
            max_rank: max_rank as usize,
            working_prec: if spread_bits + 40 > u32::MAX {
                u32::MAX
            } else if spread_bits + 40 < 53 {
                53
            } else {
                (spread_bits + 40) as u32
            },
        }
    } else {
        Refinement::Continue {
            max_rank: if m < n - zero_vecs {
                m as usize
            } else {
                (n - zero_vecs) as usize
            },
            working_prec: if 2 * working_prec > u32::MAX {
                u32::MAX
            } else if 2 * working_prec < 53 {
                53
            } else {
                (2 * working_prec) as u32
            },
        }
    }
}

/// The decision of [`refinement_after`], computed.
pub fn next_refinement(
    num_valid: usize,
    zero_vecs: usize,
    n: usize,
    m: usize,
    max_rank: usize,
    working_prec: u32,
    spread_bits: u32,
) -> (r: Refinement)
    requires
        num_valid + zero_vecs <= n,
    ensures
        r == refinement_after(
            num_valid as int,
            zero_vecs as int,
            n as int,
            m as int,
            max_rank as int,
            working_prec as int,
            spread_bits as int,
        ),
{
    if num_valid + zero_vecs == n {
        return Refinement::Converged;
    }
    if num_valid == max_rank {
        let p = spread_bits.saturating_add(40);
        let p = if p < 53 {
            53
        } else {
            p
        };
        return Refinement::Continue { max_rank, working_prec: p };
    }
    let rest = n - zero_vecs;
    let new_rank = if m < rest {
        m
    } else {
        rest
    };
    let p = if working_prec > u32::MAX / 2 {
        u32::MAX
    } else {
        working_prec * 2
    };
    let p = if p < 53 {
        53
    } else {
        p
    };
    Refinement::Continue { max_rank: new_rank, working_prec: p }
}

/// `sum_{i < len} B[i, j]^2`.
pub open spec fn col_norm2(b: IntMatrix, j: int, len: int) -> int
    decreases len,
{
    if len <= 0 {
        0
    } else {
        col_norm2(b, j, len - 1) + b.at(len - 1, j) * b.at(len - 1, j)
    }
}

/// Squared length of column `j`.
pub open spec fn norm2(b: IntMatrix, j: int) -> int {
    col_norm2(b, j, b.nrows as int)
}

/// Column `j1` comes before column `j2` when sorting by size: zero columns
/// first, by index; then the others by their keys, ties by index.
pub open spec fn size_precedes(b: IntMatrix, keys: Seq<i64>, j1: int, j2: int) -> bool {
    let z1 = norm2(b, j1) == 0;
    let z2 = norm2(b, j2) == 0;
    if z1 && z2 {
        j1 < j2
    } else if z1 {
        true
    } else if z2 {
        false
    } else {
        keys[j1] < keys[j2] || (keys[j1] == keys[j2] && j1 < j2)
    }
}

/// `p` lists the columns of `b` (a permutation of `0..ncols`) with the
/// non-zero ones first, by key (ties by index), in positions `0..w`, and the
/// zero ones last, by decreasing index.
pub open spec fn size_sorted(b: IntMatrix, keys: Seq<i64>, p: Seq<int>, w: int) -> bool {
    let n = b.ncols as int;
    &&& p.len() == n
    &&& 0 <= w <= n
    &&& forall|t: int| 0 <= t < n ==> 0 <= #[trigger] p[t] < n
    &&& forall|t: int, t2: int| 0 <= t < n && 0 <= t2 < n && t != t2 ==> #[trigger] p[t] != #[trigger] p[t2]
    &&& forall|t: int| 0 <= t < w ==> norm2(b, #[trigger] p[t]) != 0
    &&& forall|t: int| w <= t < n ==> norm2(b, #[trigger] p[t]) == 0
    &&& forall|t: int, t2: int| 0 <= t < t2 < w ==> size_precedes(b, keys, #[trigger] p[t], #[trigger] p[t2])
    &&& forall|t: int, t2: int| w <= t < t2 < n ==> #[trigger] p[t] > #[trigger] p[t2]
}

/// The squared length of column `j`, computed exactly.
pub fn column_norm2(b: &IntMatrix, j: usize) -> (r: rug::Integer)
    requires
        b.wf(),
        j < b.ncols,
    ensures
        integer_value(r) == norm2(*b, j as int),
{
    let mut s = int_zero();
    let mut i: usize = 0;
    while i < b.nrows
        invariant
            b.wf(),
            j < b.ncols,
            i <= b.nrows,
            integer_value(s) == col_norm2(*b, j as int, i as int),
        decreases b.nrows - i,
    {
        let t = int_mul(b.get(i, j), b.get(i, j));
        s = int_add(&s, &t);
        i = i + 1;
    }
    s
}

/// Among columns not yet taken, the first by `size_precedes`.
fn next_by_size(b: &IntMatrix, keys: &Vec<i64>, zero: &Vec<bool>, taken: &Vec<bool>) -> (r: Option<usize>)
    requires
        b.wf(),
        keys@.len() == b.ncols,
        zero@.len() == b.ncols,
        taken@.len() == b.ncols,
        forall|j: int| 0 <= j < b.ncols ==> #[trigger] zero@[j] == (norm2(*b, j) == 0),
    ensures
        r is None ==> forall|j: int| 0 <= j < b.ncols ==> #[trigger] taken@[j],
        r matches Some(c) ==> c < b.ncols && !taken@[c as int] && forall|j: int|
            0 <= j < b.ncols && !#[trigger] taken@[j] && j != c ==> size_precedes(*b, keys@, c as int, j),
{
    let n = b.ncols;
    let mut best: Option<usize> = None;
    let mut j: usize = 0;
    while j < n
        invariant
            b.wf(),
            n == b.ncols,
            keys@.len() == n,
            zero@.len() == n,
            taken@.len() == n,
            forall|x: int| 0 <= x < n ==> #[trigger] zero@[x] == (norm2(*b, x) == 0),
            j <= n,
            best is None ==> forall|x: int| 0 <= x < j ==> #[trigger] taken@[x],
            best matches Some(c) ==> c < j && !taken@[c as int] && forall|x: int|
                0 <= x < j && !#[trigger] taken@[x] && x != c ==> size_precedes(*b, keys@, c as int, x),
        decreases n - j,
    {
        if !taken[j] {
            match best {
                None => {
                    best = Some(j);
                },
                Some(c) => {
                    let better = (zero[j] && !zero[c]) || (!zero[j] && !zero[c] && keys[j] < keys[c]);
                    proof {
                        assert(better == size_precedes(*b, keys@, j as int, c as int));
                    }
                    if better {
                        best = Some(j);
                    }
                },
            }
        }
        j = j + 1;
    }
    best
}

/// Number of `true` entries among the first `len` of `s`.
spec fn count_true(s: Seq<bool>, len: int) -> int
    decreases len,
{
    if len <= 0 {
        0
    } else {
        count_true(s, len - 1) + if s[len - 1] {
            1int
        } else {
            0int
        }
    }
}

proof fn lemma_count_true_set(s: Seq<bool>, c: int, len: int)
    requires
        0 <= c < s.len(),
        !s[c],
        0 <= len <= s.len(),
    ensures
        count_true(s.update(c, true), len) == count_true(s, len) + if c < len {
            1int
        } else {
            0int
        },
    decreases len,
{
    if len > 0 {
        lemma_count_true_set(s, c, len - 1);
    }
}

proof fn lemma_count_true_none(s: Seq<bool>, len: int)
    requires
        0 <= len <= s.len(),
        forall|x: int| 0 <= x < len ==> !#[trigger] s[x],
    ensures
        count_true(s, len) == 0,
    decreases len,
{
    if len > 0 {
        lemma_count_true_none(s, len - 1);
    }
}

proof fn lemma_count_true_all(s: Seq<bool>, len: int)
    requires
        0 <= len <= s.len(),
        forall|x: int| 0 <= x < len ==> #[trigger] s[x],
    ensures
        count_true(s, len) == len,
    decreases len,
{
    if len > 0 {
        lemma_count_true_all(s, len - 1);
    }
}

/// Move the columns of `b` into the order of `size_sorted`: non-zero
/// columns by `keys` (ties by index), then the zero columns by decreasing
/// index. `keys[j]` ranks column `j` by size; the caller computes it (a
/// floating-point logarithm of the squared length, mapped to integers in the
/// same order), and only the keys of non-zero columns matter.
pub fn sort_by_size(b: &mut IntMatrix, keys: &Vec<i64>)
    requires
        old(b).wf(),
        old(b).ncols * old(b).ncols <= usize::MAX,
        keys@.len() == old(b).ncols,
    ensures
        final(b).wf(),
        final(b).nrows == old(b).nrows,
        final(b).ncols == old(b).ncols,
        exists|p: Seq<int>, w: int|
            size_sorted(*old(b), keys@, p, w) && forall|i: int, t: int|
                0 <= i < old(b).nrows && 0 <= t < old(b).ncols ==> #[trigger] final(b).at(i, t) == old(b).at(i, p[t]),
{
    let n = b.ncols;
    let ghost b0 = *b;
    let mut zero: Vec<bool> = Vec::new();
    let mut taken: Vec<bool> = Vec::new();
    let mut j: usize = 0;
    while j < n
        invariant
            b.wf(),
            *b == b0,
            n == b.ncols,
            j <= n,
            zero@.len() == j,
            taken@.len() == j,
            forall|x: int| 0 <= x < j ==> #[trigger] zero@[x] == (norm2(*b, x) == 0),
            forall|x: int| 0 <= x < j ==> !#[trigger] taken@[x],
        decreases n - j,
    {
        let s = column_norm2(b, j);
        zero.push(int_is_zero(&s));
        taken.push(false);
        j = j + 1;
    }
    proof {
        lemma_count_true_none(taken@, n as int);
    }
    let mut u_sort = IntMatrix::zeros(n, n);
    let mut start: usize = 0;
    let mut placed_zero: usize = 0;
    let ghost mut p: Seq<int> = Seq::new(n as nat, |t: int| 0int);
    let mut step: usize = 0;
    while step < n
        invariant
            b.wf(),
            *b == b0,
            n == b.ncols,
            n * n <= usize::MAX,
            keys@.len() == n,
            zero@.len() == n,
            taken@.len() == n,
            forall|x: int| 0 <= x < n ==> #[trigger] zero@[x] == (norm2(*b, x) == 0),
            u_sort.wf(),
            u_sort.nrows == n,
            u_sort.ncols == n,
            step <= n,
            start + placed_zero == step,
            count_true(taken@, n as int) == step,
            p.len() == n,
            forall|t: int| (0 <= t < start || n - placed_zero <= t < n) ==> 0 <= #[trigger] p[t] < n && taken@[p[t]],
            forall|x: int| 0 <= x < n && #[trigger] taken@[x] ==> exists|t: int|
                (0 <= t < start || n - placed_zero <= t < n) && p[t] == x,
            forall|t: int, t2: int|
                (0 <= t < start || n - placed_zero <= t < n) && (0 <= t2 < start || n - placed_zero <= t2 < n) && t != t2
                    ==> #[trigger] p[t] != #[trigger] p[t2],
            forall|t: int| 0 <= t < start ==> norm2(b0, #[trigger] p[t]) != 0,
            forall|t: int| n - placed_zero <= t < n ==> norm2(b0, #[trigger] p[t]) == 0,
            forall|t: int, t2: int| 0 <= t < t2 < start ==> size_precedes(b0, keys@, #[trigger] p[t], #[trigger] p[t2]),
            forall|t: int, t2: int| n - placed_zero <= t < t2 < n ==> #[trigger] p[t] > #[trigger] p[t2],
            start > 0 ==> forall|x: int| 0 <= x < n && norm2(b0, x) == 0 ==> #[trigger] taken@[x],
            forall|t: int, x: int| 0 <= t < start && 0 <= x < n && !#[trigger] taken@[x] ==> size_precedes(b0, keys@, #[trigger] p[t], x),
            forall|t: int, x: int|
                n - placed_zero <= t < n && 0 <= x < n && !#[trigger] taken@[x] && norm2(b0, x) == 0 ==> #[trigger] p[t] < x,
            forall|s: int, t: int| 0 <= s < n && 0 <= t < n ==> #[trigger] u_sort.at(s, t) == if (0 <= t < start || n
                - placed_zero <= t < n) && p[t] == s {
                1int
            } else {
                0int
            },
        decreases n - step,
    {
        let sel = next_by_size(b, keys, &zero, &taken);
        proof {
            if sel is None {
                lemma_count_true_all(taken@, n as int);
            }
        }
        let c = sel.unwrap();
        let ghost taken0 = taken@;
        let ghost u0 = u_sort;
        let ghost p0 = p;
        let ghost start0 = start as int;
        let ghost pz0 = placed_zero as int;
        proof {
            lemma_count_true_set(taken@, c as int, n as int);
        }
        taken.set(c, true);
        let one = int_from_i64(1);
        let ghost pos: int;
        if zero[c] {
            let t = n - 1 - placed_zero;
            proof {
                pos = t as int;
            }
            u_sort.set(c, t, one);
            placed_zero = placed_zero + 1;
        } else {
            proof {
                pos = start as int;
            }
            u_sort.set(c, start, one);
            start = start + 1;
        }
        proof {
            p = p0.update(pos, c as int);
            assert(!(0 <= pos < start0 || n - pz0 <= pos < n));
            assert forall|t: int| (0 <= t < start || n - placed_zero <= t < n) implies 0 <= #[trigger] p[t] < n
                && taken@[p[t]] by {
                if t != pos {
                    assert(0 <= t < start0 || n - pz0 <= t < n);
                }
            }
            assert forall|x: int| 0 <= x < n && #[trigger] taken@[x] implies exists|t: int|
                (0 <= t < start || n - placed_zero <= t < n) && p[t] == x by {
                if x == c {
                    assert(p[pos] == x);
                } else {
                    assert(taken0[x]);
                    let t0 = choose|t: int| (0 <= t < start0 || n - pz0 <= t < n) && p0[t] == x;
                    assert(p[t0] == x);
                }
            }
            assert forall|t: int, t2: int|
                (0 <= t < start || n - placed_zero <= t < n) && (0 <= t2 < start || n - placed_zero <= t2 < n) && t != t2
                    implies #[trigger] p[t] != #[trigger] p[t2] by {
                if t == pos {
                    assert(0 <= t2 < start0 || n - pz0 <= t2 < n);
                    assert(taken0[p0[t2]]);
                } else if t2 == pos {
                    assert(0 <= t < start0 || n - pz0 <= t < n);
                    assert(taken0[p0[t]]);
                }
            }
            if zero@[c as int] {
                assert(start0 == 0);
                assert forall|t: int, x: int|
                    n - placed_zero <= t < n && 0 <= x < n && !#[trigger] taken@[x] && norm2(b0, x) == 0 implies #[trigger] p[t] < x by {
                    assert(taken0[x] == taken@[x]);
                    if t == pos {
                        assert(size_precedes(b0, keys@, c as int, x));
                    }
                }
                assert forall|t: int, t2: int| n - placed_zero <= t < t2 < n implies #[trigger] p[t] > #[trigger] p[t2] by {
                    if t == pos {
                        assert(!taken0[c as int]);
                    }
                }
            } else {
                assert forall|x: int| 0 <= x < n && norm2(b0, x) == 0 implies #[trigger] taken@[x] by {
                    if !taken0[x] {
                        assert(size_precedes(b0, keys@, c as int, x));
                    }
                }
                assert forall|t: int, t2: int| 0 <= t < t2 < start implies size_precedes(b0, keys@, #[trigger] p[t], #[trigger] p[t2]) by {
                    if t2 == pos {
                        assert(!taken0[c as int]);
                    }
                }
                assert forall|t: int, x: int| 0 <= t < start && 0 <= x < n && !#[trigger] taken@[x] implies size_precedes(
                    b0,
                    keys@,
                    #[trigger] p[t],
                    x,
                ) by {
                    assert(taken0[x] == taken@[x]);
                    if t == pos {
                        assert(x != c);
                    }
                }
            }
            assert forall|s: int, t: int| 0 <= s < n && 0 <= t < n implies #[trigger] u_sort.at(s, t) == if (0 <= t < start
                || n - placed_zero <= t < n) && p[t] == s {
                1int
            } else {
                0int
            } by {
                if t != pos || s != c {
                    assert(u_sort.at(s, t) == u0.at(s, t));
                }
            }
        }
        step = step + 1;
    }
    proof {
        assert(start + placed_zero == n);
        assert(size_sorted(b0, keys@, p, start as int));
    }
    let ghost us = u_sort;
    apply_perm(b, &u_sort);
    proof {
        assert forall|i: int, t: int| 0 <= i < b0.nrows && 0 <= t < n implies #[trigger] b.at(i, t) == b0.at(i, p[t]) by {
            assert(us.at(p[t], t) == 1);
            assert(has_source(us, t, n as int));
            let f = first_source(us, t, n as int);
            assert(us.at(f, t) == 1);
        }
    }
}

/// Row `s < n` holds the only one among the first `n` entries of column `j`
/// of `u`, the others being zero.
pub open spec fn single_one(u: IntMatrix, s: int, j: int, n: int) -> bool {
    &&& 0 <= s < n
    &&& u.at(s, j) == 1
    &&& forall|t: int| 0 <= t < n && t != s ==> u.at(t, j) == 0
}

/// Column `j` of `u` selects one of the first `n` rows.
pub open spec fn column_selects(u: IntMatrix, j: int, n: int) -> bool {
    exists|s: int| #[trigger] single_one(u, s, j, n)
}

/// Each of the first `n` columns of `u` holds a single one, in one of the
/// first `n` rows, and zeros elsewhere in those rows.
pub open spec fn is_selection(u: IntMatrix, n: int) -> bool {
    forall|j: int| 0 <= j < n ==> #[trigger] column_selects(u, j, n)
}

/// Rows `k..n` of `u` are those of the `n × n` identity.
pub open spec fn lower_identity(u: IntMatrix, k: int, n: int) -> bool {
    forall|l: int, j: int| k <= l < n && 0 <= j < n ==> #[trigger] u.at(l, j) == if l == j {
        1int
    } else {
        0int
    }
}

/// Entry `(i, j)` of the `n × n` block transform `[[ui, ud], [0, I]]`,
/// `ui` being `k × k` and `ud` being `k × (n - k)`.
pub open spec fn block_entry(ui: IntMatrix, ud: IntMatrix, i: int, j: int) -> int {
    let k = ui.nrows as int;
    if i < k && j < k {
        ui.at(i, j)
    } else if i < k {
        ud.at(i, j - k)
    } else if i == j {
        1
    } else {
        0
    }
}

/// The `n × n` block transform `[[ui, ud], [0, I]]`: the identity with `ui`
/// in its top-left `k × k` block and `ud` in its top-right `k × (n - k)`
/// block. Its rows past `k` are those of the identity.
pub fn block_transform(ui: &IntMatrix, ud: &IntMatrix, n: usize) -> (u: IntMatrix)
    requires
        ui.wf(),
        ud.wf(),
        ui.nrows == ui.ncols,
        ud.nrows == ui.nrows,
        ui.ncols + ud.ncols == n,
        n * n <= usize::MAX,
    ensures
        u.wf(),
        u.nrows == n,
        u.ncols == n,
        forall|i: int, j: int| 0 <= i < n && 0 <= j < n ==> #[trigger] u.at(i, j) == block_entry(*ui, *ud, i, j),
        lower_identity(u, ui.nrows as int, n as int),
{
    let k = ui.nrows;
    let mut u = IntMatrix::zeros(n, n);
    u.set_identity();
    let mut i: usize = 0;
    while i < k
        invariant
            ui.wf(),
            ud.wf(),
            ui.nrows == k,
            ui.ncols == k,
            ud.nrows == k,
            k + ud.ncols == n,
            u.wf(),
            u.nrows == n,
            u.ncols == n,
            i <= k,
            forall|a: int, b: int| 0 <= a < n && 0 <= b < n ==> #[trigger] u.at(a, b) == if a < i {
                block_entry(*ui, *ud, a, b)
            } else if a == b {
                1int
            } else {
                0int
            },
        decreases k - i,
    {
        let mut j: usize = 0;
        while j < n
            invariant
                ui.wf(),
                ud.wf(),
                ui.nrows == k,
                ui.ncols == k,
                ud.nrows == k,
                k + ud.ncols == n,
                u.wf(),
                u.nrows == n,
                u.ncols == n,
                i < k,
                j <= n,
                forall|a: int, b: int| 0 <= a < n && 0 <= b < n ==> #[trigger] u.at(a, b) == if a < i || (a == i && b < j) {
                    block_entry(*ui, *ud, a, b)
                } else if a == b {
                    1int
                } else {
                    0int
                },
            decreases n - j,
        {
            let v = if j < k {
                int_clone(ui.get(i, j))
            } else {
                int_clone(ud.get(i, j - k))
            };
            u.set(i, j, v);
            j = j + 1;
        }
        i = i + 1;
    }
    u
}

proof fn lemma_dot_single(b: IntMatrix, u: IntMatrix, i: int, j: int, s: int, n: int, len: int)
    requires
        0 <= s < n,
        0 <= len <= n,
        u.at(s, j) == 1,
        forall|t: int| 0 <= t < n && t != s ==> u.at(t, j) == 0,
    ensures
        dot(b, u, i, j, len) == if s < len {
            b.at(i, s)
        } else {
            0
        },
    decreases len,
{
    if len > 0 {
        lemma_dot_single(b, u, i, j, s, n, len - 1);
        if len - 1 != s {
            assert(u.at(len - 1, j) == 0);
        }
    }
}

/// Moving columns by a selection matrix multiplies by it.
proof fn lemma_selection_product(b: IntMatrix, u: IntMatrix, i: int, j: int)
    requires
        u.ncols == b.ncols,
        is_selection(u, b.ncols as int),
        0 <= j < b.ncols,
    ensures
        permuted_entry(b, u, i, j) == dot(b, u, i, j, b.ncols as int),
{
    let n = b.ncols as int;
    assert(column_selects(u, j, n));
    let s = choose|s: int| #[trigger] single_one(u, s, j, n);
    assert(has_source(u, j, n));
    let f = first_source(u, j, n);
    assert(u.at(f, j) == 1);
    if f != s {
        assert(u.at(f, j) == 0);
    }
    lemma_dot_single(b, u, i, j, s, n, n);
}

proof fn lemma_dot_lower_identity(b: IntMatrix, u: IntMatrix, i: int, j: int, k: int, n: int, len: int)
    requires
        0 <= k <= len <= n,
        0 <= j < n,
        lower_identity(u, k, n),
    ensures
        dot(b, u, i, j, len) == dot(b, u, i, j, k) + if k <= j < len {
            b.at(i, j)
        } else {
            0
        },
    decreases len,
{
    if len > k {
        lemma_dot_lower_identity(b, u, i, j, k, n, len - 1);
        assert(u.at(len - 1, j) == if len - 1 == j { 1int } else { 0int });
    }
}

/// A block transform whose rows past `k` are those of the identity acts as
/// a product.
proof fn lemma_block_product(b: IntMatrix, u: IntMatrix, k: int, i: int, j: int)
    requires
        0 <= k <= b.ncols,
        0 <= j < b.ncols,
        lower_identity(u, k, b.ncols as int),
    ensures
        block_applied(b, u, k, i, j) == dot(b, u, i, j, b.ncols as int),
{
    lemma_dot_lower_identity(b, u, i, j, k, b.ncols as int, b.ncols as int);
}

/// `b1`, `b2`, `b3` are `b0` after moving its columns by `u1` and then
/// applying the block transforms `u2` and `u3` on its first `k` columns
/// (skipped when `k == 0`).
pub open spec fn refinement_steps(
    b0: IntMatrix,
    u1: IntMatrix,
    u2: IntMatrix,
    u3: IntMatrix,
    k: int,
    b1: IntMatrix,
    b2: IntMatrix,
    b3: IntMatrix,
) -> bool {
    let m = b0.nrows as int;
    let n = b0.ncols as int;
    &&& b1.nrows == m && b1.ncols == n
    &&& b2.nrows == m && b2.ncols == n
    &&& b3.nrows == m && b3.ncols == n
    &&& forall|i: int, j: int| 0 <= i < m && 0 <= j < n ==> #[trigger] b1.at(i, j) == permuted_entry(b0, u1, i, j)
    &&& forall|i: int, j: int| 0 <= i < m && 0 <= j < n ==> #[trigger] b2.at(i, j) == if k > 0 {
        block_applied(b1, u2, k, i, j)
    } else {
        b1.at(i, j)
    }
    &&& forall|i: int, j: int| 0 <= i < m && 0 <= j < n ==> #[trigger] b3.at(i, j) == if k > 0 {
        block_applied(b2, u3, k, i, j)
    } else {
        b2.at(i, j)
    }
}

/// `u_new == u0 · ((u1 · u2) · u3)`, through the products `u12` and `u123`.
pub open spec fn composed_transform(
    u0: IntMatrix,
    u1: IntMatrix,
    u2: IntMatrix,
    u3: IntMatrix,
    u12: IntMatrix,
    u123: IntMatrix,
    u_new: IntMatrix,
) -> bool {
    &&& is_product(u12, u1, u2)
    &&& is_product(u123, u12, u3)
    &&& is_product(u_new, u0, u123)
}

/// The transform `W = (u1 · u2) · u3` of a refinement round, held in `u123`:
/// `u_new == u0 · W`; `W` is unimodular when `u1`, `u2`, `u3` are; and when
/// `u1` is a selection and `u2`, `u3` leave the rows past `k` as in the
/// identity, the new basis `b3` is the old basis `b0` times `W`.
pub open spec fn refinement_transform(
    b0: IntMatrix,
    u0: IntMatrix,
    u1: IntMatrix,
    u2: IntMatrix,
    u3: IntMatrix,
    k: int,
    u12: IntMatrix,
    u123: IntMatrix,
    b3: IntMatrix,
    u_new: IntMatrix,
) -> bool {
    let n = b0.ncols as int;
    &&& composed_transform(u0, u1, u2, u3, u12, u123, u_new)
    &&& unimodular(u1, n) && unimodular(u2, n) && unimodular(u3, n) ==> unimodular(u123, n)
    &&& is_selection(u1, n) && lower_identity(u2, k, n) && lower_identity(u3, k, n) ==> is_product(b3, b0, u123)
}

/// The exact tail of a refinement round, once the selection `u1` of the
/// independent vectors, the size reduction `u2` and the reduction `u3` of
/// the first `num_valid` vectors are known: move the columns of `b` by
/// `u1`, apply `u2` and `u3` to its first `num_valid` columns, fold
/// `u1 · u2 · u3` into `u`, count the zero vectors past the first
/// `num_valid`, and decide with [`refinement_after`]. With
/// `W = (u1 · u2) · u3`, the new `u` is `u · W`, and `W` is unimodular when
/// `u1`, `u2`, `u3` are. When `u1` is a selection and `u2`, `u3` leave the
/// rows past `num_valid` as in the identity, the new `b` is `b · W`, so a
/// basis that was `M · u` stays `M · u` for the new `u`.
pub fn finish_refinement(
    b: &mut IntMatrix,
    u: &mut IntMatrix,
    u1: &IntMatrix,
    u2: &IntMatrix,
    u3: &IntMatrix,
    num_valid: usize,
    max_rank: usize,
    working_prec: u32,
    spread_bits: u32,
) -> (r: Refinement)
    requires
        old(b).wf(),
        old(u).wf(),
        u1.wf(),
        u2.wf(),
        u3.wf(),
        old(u).nrows == old(b).ncols,
        old(u).ncols == old(b).ncols,
        u1.nrows == old(b).ncols,
        u1.ncols == old(b).ncols,
        u2.nrows == old(b).ncols,
        u2.ncols == old(b).ncols,
        u3.nrows == old(b).ncols,
        u3.ncols == old(b).ncols,
        old(b).ncols * old(b).ncols <= usize::MAX,
        num_valid <= old(b).ncols,
    ensures
        final(b).wf(),
        final(u).wf(),
        final(b).nrows == old(b).nrows,
        final(b).ncols == old(b).ncols,
        final(u).nrows == old(u).nrows,
        final(u).ncols == old(u).ncols,
        exists|b1: IntMatrix, b2: IntMatrix|
            #[trigger] refinement_steps(*old(b), *u1, *u2, *u3, num_valid as int, b1, b2, *final(b)),
        exists|u12: IntMatrix, u123: IntMatrix|
            #[trigger] refinement_transform(
                *old(b),
                *old(u),
                *u1,
                *u2,
                *u3,
                num_valid as int,
                u12,
                u123,
                *final(b),
                *final(u),
            ),
        r == refinement_after(
            num_valid as int,
            zero_cols_from(*final(b), num_valid as int),
            old(b).ncols as int,
            old(b).nrows as int,
            max_rank as int,
            working_prec as int,
            spread_bits as int,
        ),
        is_selection(*u1, old(b).ncols as int) && lower_identity(*u2, num_valid as int, old(b).ncols as int)
            && lower_identity(*u3, num_valid as int, old(b).ncols as int) ==> forall|mm: IntMatrix|
            mm.ncols == old(b).ncols && #[trigger] is_product(*old(b), mm, *old(u)) ==> is_product(
                *final(b),
                mm,
                *final(u),
            ),
{
    let n = b.ncols;
    let m = b.nrows;
    let ghost b0 = *b;
    let ghost u0 = *u;
    apply_perm(b, u1);
    let ghost b1 = *b;
    if num_valid > 0 {
        apply_u(b, u2, num_valid);
    }
    let ghost b2 = *b;
    if num_valid > 0 {
        apply_u(b, u3, num_valid);
    }
    let u12 = mat_mul(u1, u2);
    let u123 = mat_mul(&u12, u3);
    let new_u = mat_mul(u, &u123);
    *u = new_u;
    proof {
        assert(refinement_steps(b0, *u1, *u2, *u3, num_valid as int, b1, b2, *b));
        assert(composed_transform(u0, *u1, *u2, *u3, u12, u123, *u));
        if unimodular(*u1, n as int) && unimodular(*u2, n as int) && unimodular(*u3, n as int) {
            lemma_product_unimodular(*u1, *u2, u12, n as int);
            lemma_product_unimodular(u12, *u3, u123, n as int);
        }
        let k = num_valid as int;
        let b3 = *b;
        if is_selection(*u1, n as int) && lower_identity(*u2, k, n as int) && lower_identity(*u3, k, n as int) {
            assert forall|i: int, j: int| 0 <= i < m && 0 <= j < n implies #[trigger] b1.at(i, j) == dot(
                b0,
                *u1,
                i,
                j,
                n as int,
            ) by {
                lemma_selection_product(b0, *u1, i, j);
            }
            assert(is_product(b1, b0, *u1));
            assert forall|i: int, j: int| 0 <= i < m && 0 <= j < n implies #[trigger] b2.at(i, j) == dot(
                b1,
                *u2,
                i,
                j,
                n as int,
            ) by {
                lemma_block_product(b1, *u2, k, i, j);
            }
            assert forall|i: int, j: int| 0 <= i < m && 0 <= j < n implies #[trigger] b3.at(i, j) == dot(
                b2,
                *u3,
                i,
                j,
                n as int,
            ) by {
                lemma_block_product(b2, *u3, k, i, j);
            }
            lemma_mat_assoc(b0, *u1, *u2, b1, u12);
            assert forall|i: int, j: int| 0 <= i < m && 0 <= j < n implies #[trigger] b2.at(i, j) == dot(
                b0,
                u12,
                i,
                j,
                n as int,
            ) by {
                assert(dot(b1, *u2, i, j, n as int) == dot(b0, u12, i, j, n as int));
            }
            assert(is_product(b2, b0, u12));
            lemma_mat_assoc(b0, u12, *u3, b2, u123);
            assert forall|i: int, j: int| 0 <= i < m && 0 <= j < n implies #[trigger] b3.at(i, j) == dot(
                b0,
                u123,
                i,
                j,
                n as int,
            ) by {
                assert(dot(b2, *u3, i, j, n as int) == dot(b0, u123, i, j, n as int));
            }
            assert(is_product(b3, b0, u123));
            assert forall|mm: IntMatrix| mm.ncols == n && #[trigger] is_product(b0, mm, u0) implies is_product(
                b3,
                mm,
                *u,
            ) by {
                lemma_mat_assoc(mm, u0, u123, b0, *u);
                assert forall|i: int, j: int| 0 <= i < mm.nrows && 0 <= j < u.ncols implies #[trigger] b3.at(i, j)
                    == dot(mm, *u, i, j, mm.ncols as int) by {
                    assert(dot(b0, u123, i, j, n as int) == dot(mm, *u, i, j, mm.ncols as int));
                }
            }
        }
    }
    proof {
        assert(refinement_transform(b0, u0, *u1, *u2, *u3, num_valid as int, u12, u123, *b, *u));
    }
    let zero_vecs = count_zero_cols(b, num_valid);
    next_refinement(num_valid, zero_vecs, n, m, max_rank, working_prec, spread_bits)
}

} // verus!
