//! Integer matrices and lattice bases.
//!
//! A basis is stored as a `dimension × rank` matrix of arbitrary-precision
//! integers in row-major order: `B[i, j]` is coordinate `i` of basis vector
//! `j`.

use crate::integer::{integer_value, int_zero, int_clone, int_sub, int_mul, int_is_zero, int_from_i64, int_to_i64, int_significant_bits, int_bit_count, bit_len, abs};
use rug::Integer;
use vstd::prelude::*;

verus! {

/// Dense integer matrix, row-major, `nrows × ncols`.
#[derive(Clone, Debug)]
pub struct IntMatrix {
    pub nrows: usize,
    pub ncols: usize,
    pub data: Vec<Integer>,
}

impl Default for IntMatrix {
    /// The empty `0 × 0` matrix.
    fn default() -> (r: Self)
        ensures
            r.nrows == 0,
            r.ncols == 0,
            r.data@.len() == 0,
    {
        IntMatrix { nrows: 0, ncols: 0, data: Vec::new() }
    }
}

/// Position of entry `(i, j)` in a row-major matrix with `ncols` columns.
pub open spec fn idx(i: int, j: int, ncols: int) -> int {
    i * ncols + j
}

pub proof fn lemma_idx(i: int, j: int, nrows: int, ncols: int)
    requires
        0 <= i < nrows,
        0 <= j < ncols,
    ensures
        0 <= idx(i, j, ncols) < nrows * ncols,
        idx(i, j, ncols) + 1 <= nrows * ncols,
        i * ncols <= idx(i, j, ncols),
{
    assert(0 <= i * ncols + j < nrows * ncols) by (nonlinear_arith)
        requires
            0 <= i < nrows,
            0 <= j < ncols,
    ;
    assert(0 <= i * ncols) by (nonlinear_arith)
        requires
            0 <= i,
            0 <= j < ncols,
    ;
}

/// Two different positions of a matrix are two different indices.
pub proof fn lemma_idx_inj(i: int, j: int, i2: int, j2: int, ncols: int)
    requires
        0 <= j < ncols,
        0 <= j2 < ncols,
        idx(i, j, ncols) == idx(i2, j2, ncols),
    ensures
        i == i2 && j == j2,
{
    if i < i2 {
        assert(i * ncols + ncols <= i2 * ncols) by (nonlinear_arith)
            requires
                i < i2,
                0 < ncols,
        ;
    } else if i2 < i {
        assert(i2 * ncols + ncols <= i * ncols) by (nonlinear_arith)
            requires
                i2 < i,
                0 < ncols,
        ;
    }
}

impl IntMatrix {
    pub open spec fn wf(&self) -> bool {
        self.data@.len() == self.nrows * self.ncols
    }

    /// Value of entry `(i, j)`.
    pub open spec fn at(&self, i: int, j: int) -> int {
        integer_value(self.data@[idx(i, j, self.ncols as int)])
    }

    /// A `nrows × ncols` matrix of zeros.
    pub fn zeros(nrows: usize, ncols: usize) -> (r: Self)
        requires
            nrows * ncols <= usize::MAX,
        ensures
            r.wf(),
            r.nrows == nrows,
            r.ncols == ncols,
            forall|i: int, j: int| 0 <= i < nrows && 0 <= j < ncols ==> #[trigger] r.at(i, j) == 0,
    {
        let len = nrows * ncols;
        let mut data: Vec<Integer> = Vec::new();
        while data.len() < len
            invariant
                data@.len() <= len,
                forall|t: int| 0 <= t < data@.len() ==> integer_value(#[trigger] data@[t]) == 0,
            decreases len - data@.len(),
        {
            data.push(int_zero());
        }
        let r = IntMatrix { nrows, ncols, data };
        proof {
            assert forall|i: int, j: int| 0 <= i < nrows && 0 <= j < ncols implies #[trigger] r.at(i, j) == 0 by {
                lemma_idx(i, j, nrows as int, ncols as int);
            }
        }
        r
    }

    /// Entry `(i, j)`.
    pub fn get(&self, i: usize, j: usize) -> (r: &Integer)
        requires
            self.wf(),
            i < self.nrows,
            j < self.ncols,
        ensures
            integer_value(*r) == self.at(i as int, j as int),
    {
        proof {
            lemma_idx(i as int, j as int, self.nrows as int, self.ncols as int);
            assert(self.data.len() == self.data@.len());
        }
        &self.data[i * self.ncols + j]
    }

    /// Mutable access to entry `(i, j)`; whatever is left there is the new
    /// entry, and the rest of the matrix is unchanged.
    pub fn get_mut(&mut self, i: usize, j: usize) -> (r: &mut Integer)
        requires
            old(self).wf(),
            i < old(self).nrows,
            j < old(self).ncols,
        ensures
            *r == old(self).data@[idx(i as int, j as int, old(self).ncols as int)],
            final(self).nrows == old(self).nrows,
            final(self).ncols == old(self).ncols,
            final(self).data@ == old(self).data@.update(idx(i as int, j as int, old(self).ncols as int), *final(r)),
    {
        proof {
            lemma_idx(i as int, j as int, self.nrows as int, self.ncols as int);
            assert(self.data.len() == self.data@.len());
        }
        &mut self.data[i * self.ncols + j]
    }

    /// Overwrite entry `(i, j)` with `v`.
    pub fn set(&mut self, i: usize, j: usize, v: Integer)
        requires
            old(self).wf(),
            i < old(self).nrows,
            j < old(self).ncols,
        ensures
            final(self).wf(),
            final(self).nrows == old(self).nrows,
            final(self).ncols == old(self).ncols,
            final(self).at(i as int, j as int) == integer_value(v),
            forall|a: int, b: int|
                0 <= a < old(self).nrows && 0 <= b < old(self).ncols && (a != i || b != j) ==> #[trigger] final(self).at(a, b)
                    == old(self).at(a, b),
    {
        proof {
            lemma_idx(i as int, j as int, self.nrows as int, self.ncols as int);
            assert(self.data.len() == self.data@.len());
        }
        let ghost old_self = *self;
        let p = i * self.ncols + j;
        self.data.set(p, v);
        proof {
            assert forall|a: int, b: int|
                0 <= a < old_self.nrows && 0 <= b < old_self.ncols && (a != i || b != j) implies #[trigger] self.at(a, b)
                == old_self.at(a, b) by {
                lemma_idx(a, b, old_self.nrows as int, old_self.ncols as int);
                if idx(a, b, self.ncols as int) == p {
                    lemma_idx_inj(a, b, i as int, j as int, self.ncols as int);
                }
            }
        }
    }

    /// Every entry below the main diagonal is zero.
    pub open spec fn spec_upper(&self) -> bool {
        forall|i: int, j: int| 0 <= j < i < self.nrows && j < self.ncols ==> #[trigger] self.at(i, j) == 0
    }

    /// Square, ones on the diagonal, zeros elsewhere.
    pub open spec fn spec_identity(&self) -> bool {
        &&& self.nrows == self.ncols
        &&& forall|i: int, j: int|
            0 <= i < self.nrows && 0 <= j < self.ncols ==> #[trigger] self.at(i, j) == (if i == j {
                1int
            } else {
                0int
            })
    }

    /// True iff every entry below the main diagonal is zero.
    pub fn is_upper_triangular(&self) -> (r: bool)
        requires
            self.wf(),
        ensures
            r == self.spec_upper(),
    {
        let mut i: usize = 0;
        while i < self.nrows
            invariant
                self.wf(),
                i <= self.nrows,
                forall|a: int, b: int| 0 <= b < a < i && b < self.ncols ==> #[trigger] self.at(a, b) == 0,
            decreases self.nrows - i,
        {
            let lim = if i < self.ncols { i } else { self.ncols };
            let mut j: usize = 0;
            while j < lim
                invariant
                    self.wf(),
                    i < self.nrows,
                    lim <= i,
                    lim <= self.ncols,
                    lim == i || lim == self.ncols,
                    j <= lim,
                    forall|a: int, b: int| 0 <= b < a < i && b < self.ncols ==> #[trigger] self.at(a, b) == 0,
                    forall|b: int| 0 <= b < j ==> #[trigger] self.at(i as int, b) == 0,
                decreases lim - j,
            {
                if !int_is_zero(self.get(i, j)) {
                    return false;
                }
                j = j + 1;
            }
            i = i + 1;
        }
        true
    }

    /// True iff the matrix is the identity (square, 1 on the diagonal, 0
    /// elsewhere).
    pub fn is_identity(&self) -> (r: bool)
        requires
            self.wf(),
        ensures
            r == self.spec_identity(),
    {
        if self.nrows != self.ncols {
            return false;
        }
        let mut i: usize = 0;
        while i < self.nrows
            invariant
                self.wf(),
                self.nrows == self.ncols,
                i <= self.nrows,
                forall|a: int, b: int|
                    0 <= a < i && 0 <= b < self.ncols ==> #[trigger] self.at(a, b) == (if a == b {
                        1int
                    } else {
                        0int
                    }),
            decreases self.nrows - i,
        {
            let mut j: usize = 0;
            while j < self.ncols
                invariant
                    self.wf(),
                    self.nrows == self.ncols,
                    i < self.nrows,
                    j <= self.ncols,
                    forall|a: int, b: int|
                        0 <= a < i && 0 <= b < self.ncols ==> #[trigger] self.at(a, b) == (if a == b {
                            1int
                        } else {
                            0int
                        }),
                    forall|b: int|
                        0 <= b < j ==> #[trigger] self.at(i as int, b) == (if i == b {
                            1int
                        } else {
                            0int
                        }),
                decreases self.ncols - j,
            {
                let v = self.get(i, j);
                if i == j {
                    if int_to_i64(v) != Some(1i64) {
                        return false;
                    }
                } else if !int_is_zero(v) {
                    return false;
                }
                j = j + 1;
            }
            i = i + 1;
        }
        true
    }

    /// Overwrite with the identity matrix.
    pub fn set_identity(&mut self)
        requires
            old(self).wf(),
            old(self).nrows == old(self).ncols,
        ensures
            final(self).wf(),
            final(self).nrows == old(self).nrows,
            final(self).ncols == old(self).ncols,
            final(self).spec_identity(),
    {
        let n = self.nrows;
        let mut i: usize = 0;
        while i < n
            invariant
                self.wf(),
                self.nrows == n,
                self.ncols == n,
                i <= n,
                forall|a: int, b: int|
                    0 <= a < i && 0 <= b < n ==> #[trigger] self.at(a, b) == (if a == b {
                        1int
                    } else {
                        0int
                    }),
            decreases n - i,
        {
            let mut j: usize = 0;
            while j < n
                invariant
                    self.wf(),
                    self.nrows == n,
                    self.ncols == n,
                    i < n,
                    j <= n,
                    forall|a: int, b: int|
                        0 <= a < i && 0 <= b < n ==> #[trigger] self.at(a, b) == (if a == b {
                            1int
                        } else {
                            0int
                        }),
                    forall|b: int|
                        0 <= b < j ==> #[trigger] self.at(i as int, b) == (if i == b {
                            1int
                        } else {
                            0int
                        }),
                decreases n - j,
            {
                let v = if i == j { int_from_i64(1) } else { int_from_i64(0) };
                self.set(i, j, v);
                j = j + 1;
            }
            i = i + 1;
        }
    }

    /// Copy of the block `[i0..i1, j0..j1]`.
    pub fn submatrix(&self, i0: usize, i1: usize, j0: usize, j1: usize) -> (out: IntMatrix)
        requires
            self.wf(),
            i0 <= i1 <= self.nrows,
            j0 <= j1 <= self.ncols,
        ensures
            out.wf(),
            out.nrows == i1 - i0,
            out.ncols == j1 - j0,
            forall|a: int, b: int|
                0 <= a < out.nrows && 0 <= b < out.ncols ==> #[trigger] out.at(a, b) == self.at(i0 + a, j0 + b),
    {
        proof {
            assert((i1 - i0) * (j1 - j0) <= self.nrows * self.ncols) by (nonlinear_arith)
                requires
                    i0 <= i1 <= self.nrows,
                    j0 <= j1 <= self.ncols,
            ;
            assert(self.data.len() == self.data@.len());
        }
        let mut out = IntMatrix::zeros(i1 - i0, j1 - j0);
        let mut i: usize = 0;
        while i < i1 - i0
            invariant
                self.wf(),
                i0 <= i1 <= self.nrows,
                j0 <= j1 <= self.ncols,
                out.wf(),
                out.nrows == i1 - i0,
                out.ncols == j1 - j0,
                i <= i1 - i0,
                forall|a: int, b: int|
                    0 <= a < i && 0 <= b < out.ncols ==> #[trigger] out.at(a, b) == self.at(i0 + a, j0 + b),
            decreases i1 - i0 - i,
        {
            let mut j: usize = 0;
            while j < j1 - j0
                invariant
                    self.wf(),
                    i0 <= i1 <= self.nrows,
                    j0 <= j1 <= self.ncols,
                    out.wf(),
                    out.nrows == i1 - i0,
                    out.ncols == j1 - j0,
                    i < i1 - i0,
                    j <= j1 - j0,
                    forall|a: int, b: int|
                        0 <= a < out.nrows && 0 <= b < out.ncols && (a < i || (a == i && b < j))
                            ==> #[trigger] out.at(a, b) == self.at(i0 + a, j0 + b),
                decreases j1 - j0 - j,
            {
                let v = int_clone(self.get(i0 + i, j0 + j));
                out.set(i, j, v);
                j = j + 1;
            }
            i = i + 1;
        }
        out
    }

    /// Write `src` into `self` with its top-left corner at `(i0, j0)`.
    pub fn copy_submatrix_from(&mut self, i0: usize, j0: usize, src: &IntMatrix)
        requires
            old(self).wf(),
            src.wf(),
            i0 + src.nrows <= old(self).nrows,
            j0 + src.ncols <= old(self).ncols,
        ensures
            final(self).wf(),
            final(self).nrows == old(self).nrows,
            final(self).ncols == old(self).ncols,
            forall|a: int, b: int|
                0 <= a < old(self).nrows && 0 <= b < old(self).ncols ==> #[trigger] final(self).at(a, b) == if i0
                    <= a < i0 + src.nrows && j0 <= b < j0 + src.ncols {
                    src.at(a - i0, b - j0)
                } else {
                    old(self).at(a, b)
                },
    {
        let ghost s0 = *self;
        let mut i: usize = 0;
        while i < src.nrows
            invariant
                self.wf(),
                src.wf(),
                s0.wf(),
                self.nrows == s0.nrows,
                self.ncols == s0.ncols,
                i0 + src.nrows <= s0.nrows,
                j0 + src.ncols <= s0.ncols,
                i <= src.nrows,
                forall|a: int, b: int|
                    0 <= a < s0.nrows && 0 <= b < s0.ncols ==> #[trigger] self.at(a, b) == if i0 <= a < i0 + i
                        && j0 <= b < j0 + src.ncols {
                        src.at(a - i0, b - j0)
                    } else {
                        s0.at(a, b)
                    },
            decreases src.nrows - i,
        {
            let mut j: usize = 0;
            while j < src.ncols
                invariant
                    self.wf(),
                    src.wf(),
                    self.nrows == s0.nrows,
                    self.ncols == s0.ncols,
                    i0 + src.nrows <= s0.nrows,
                    j0 + src.ncols <= s0.ncols,
                    i < src.nrows,
                    j <= src.ncols,
                    forall|a: int, b: int|
                        0 <= a < s0.nrows && 0 <= b < s0.ncols ==> #[trigger] self.at(a, b) == if (i0 <= a < i0
                            + i && j0 <= b < j0 + src.ncols) || (a == i0 + i && j0 <= b < j0 + j) {
                            src.at(a - i0, b - j0)
                        } else {
                            s0.at(a, b)
                        },
                decreases src.ncols - j,
            {
                let v = int_clone(src.get(i, j));
                self.set(i0 + i, j0 + j, v);
                j = j + 1;
            }
            i = i + 1;
        }
    }
}

/// A lattice basis: column `j` of the `dimension × nvecs` matrix `basis` is
/// basis vector `j`, and `rank` counts the vectors in use.
#[derive(Clone, Debug)]
pub struct Lattice {
    pub basis: IntMatrix,
    pub rank: usize,
}

impl Default for Lattice {
    /// The empty lattice: no vectors, dimension 0, rank 0.
    fn default() -> (r: Self)
        ensures
            r.basis.nrows == 0,
            r.basis.ncols == 0,
            r.basis.data@.len() == 0,
            r.rank == 0,
    {
        Lattice { basis: IntMatrix::default(), rank: 0 }
    }
}

/// Column `col` of `b` is zero.
pub open spec fn col_is_zero(b: IntMatrix, col: int) -> bool {
    forall|i: int| 0 <= i < b.nrows ==> #[trigger] b.at(i, col) == 0
}

/// Where the run of zero columns that ends just before column `end` starts:
/// `end` itself when column `end - 1` is not zero (or `end` is 0).
pub open spec fn zero_run_start(b: IntMatrix, end: int) -> int
    decreases end,
{
    if end > 0 && col_is_zero(b, end - 1) {
        zero_run_start(b, end - 1)
    } else {
        end
    }
}

/// The rank that `update_rank` settles on: where the trailing zero columns
/// start, if the last column is zero (else the old rank), capped at the
/// dimension.
pub open spec fn trimmed_rank(b: IntMatrix, rank: int) -> int {
    let e = zero_run_start(b, b.ncols as int);
    let r = if e < b.ncols {
        e
    } else {
        rank
    };
    if r < b.nrows {
        r
    } else {
        b.nrows as int
    }
}

impl Lattice {
    /// The basis matrix is well formed and the rank counts at most all the
    /// vectors and at most the dimension.
    pub open spec fn wf(&self) -> bool {
        &&& self.basis.wf()
        &&& self.rank <= self.basis.ncols
        &&& self.rank <= self.basis.nrows
    }

    /// The zero lattice of `nvecs` vectors in dimension `dimension`, of rank
    /// `min(dimension, nvecs)`.
    pub fn new(nvecs: usize, dimension: usize) -> (r: Self)
        requires
            nvecs * dimension <= usize::MAX,
        ensures
            r.wf(),
            r.basis.nrows == dimension,
            r.basis.ncols == nvecs,
            r.rank == if dimension < nvecs { dimension } else { nvecs },
            forall|i: int, j: int| 0 <= i < dimension && 0 <= j < nvecs ==> #[trigger] r.basis.at(i, j) == 0,
    {
        proof {
            assert(dimension * nvecs == nvecs * dimension) by (nonlinear_arith);
        }
        let basis = IntMatrix::zeros(dimension, nvecs);
        let rank = if dimension < nvecs { dimension } else { nvecs };
        Lattice { basis, rank }
    }

    /// Replace the lattice by `Lattice::new(nvecs, dimension)`.
    pub fn resize(&mut self, nvecs: usize, dimension: usize)
        requires
            nvecs * dimension <= usize::MAX,
        ensures
            final(self).wf(),
            final(self).basis.nrows == dimension,
            final(self).basis.ncols == nvecs,
            final(self).rank == if dimension < nvecs { dimension } else { nvecs },
            forall|i: int, j: int| 0 <= i < dimension && 0 <= j < nvecs ==> #[trigger] final(self).basis.at(i, j) == 0,
    {
        *self = Lattice::new(nvecs, dimension);
    }

    /// Length of each basis vector.
    pub fn dimension(&self) -> (r: usize)
        ensures
            r == self.basis.nrows,
    {
        self.basis.nrows
    }

    /// Number of basis vectors.
    pub fn nvecs(&self) -> (r: usize)
        ensures
            r == self.basis.ncols,
    {
        self.basis.ncols
    }

    /// Cut the rank where the trailing zero basis vectors start, if the last
    /// one is zero, and at the dimension.
    pub fn update_rank(&mut self)
        requires
            old(self).basis.wf(),
        ensures
            final(self).basis == old(self).basis,
            final(self).rank == trimmed_rank(old(self).basis, old(self).rank as int),
    {
        let ncols = self.basis.ncols;
        let nrows = self.basis.nrows;
        let mut e: usize = ncols;
        let mut trailing_zero = true;
        while e > 0 && trailing_zero
            invariant
                self.basis.wf(),
                self.basis.ncols == ncols,
                self.basis.nrows == nrows,
                e <= ncols,
                trailing_zero ==> zero_run_start(self.basis, ncols as int) == zero_run_start(self.basis, e as int),
                !trailing_zero ==> zero_run_start(self.basis, ncols as int) == e,
            decreases e + if trailing_zero { 1int } else { 0int },
        {
            let col = e - 1;
            let mut any_nonzero = false;
            let mut j: usize = 0;
            while j < nrows
                invariant
                    self.basis.wf(),
                    self.basis.ncols == ncols,
                    self.basis.nrows == nrows,
                    col < ncols,
                    j <= nrows,
                    any_nonzero <==> exists|t: int| 0 <= t < j && self.basis.at(t, col as int) != 0,
                decreases nrows - j,
            {
                if !int_is_zero(self.basis.get(j, col)) {
                    any_nonzero = true;
                }
                j = j + 1;
            }
            if any_nonzero {
                proof {
                    let t = choose|t: int| 0 <= t < nrows && self.basis.at(t, col as int) != 0;
                    assert(!col_is_zero(self.basis, col as int));
                }
                trailing_zero = false;
            } else {
                assert(col_is_zero(self.basis, col as int));
                e = col;
            }
        }
        let mut r = if e < ncols {
            e
        } else {
            self.rank
        };
        if r > nrows {
            r = nrows;
        }
        self.rank = r;
    }
}

/// Every entry of `b` has at most `u32::MAX` binary digits.
pub open spec fn entries_bits_fit(b: IntMatrix) -> bool {
    forall|i: int, j: int| 0 <= i < b.nrows && 0 <= j < b.ncols ==> #[trigger] bit_len(abs(b.at(i, j))) <= u32::MAX
}

/// `bits` is the largest number of binary digits of an entry of `b` (zero
/// when `b` has no entries or only zeros).
pub open spec fn is_max_entry_bits(b: IntMatrix, bits: int) -> bool {
    &&& forall|i: int, j: int| 0 <= i < b.nrows && 0 <= j < b.ncols ==> bit_len(abs(#[trigger] b.at(i, j))) <= bits
    &&& bits == 0 || exists|i: int, j: int| 0 <= i < b.nrows && 0 <= j < b.ncols && bits == bit_len(abs(#[trigger] b.at(i, j)))
}

/// Whether every entry of `b` has at most `u32::MAX` binary digits, the
/// bound that [`max_entry_bits`] needs.
pub fn entries_fit(b: &IntMatrix) -> (r: bool)
    requires
        b.wf(),
    ensures
        r == entries_bits_fit(*b),
{
    let mut i: usize = 0;
    while i < b.nrows
        invariant
            b.wf(),
            i <= b.nrows,
            forall|x: int, y: int| 0 <= x < i && 0 <= y < b.ncols ==> #[trigger] bit_len(abs(b.at(x, y))) <= u32::MAX,
        decreases b.nrows - i,
    {
        let mut j: usize = 0;
        while j < b.ncols
            invariant
                b.wf(),
                i < b.nrows,
                j <= b.ncols,
                forall|x: int, y: int|
                    (0 <= x < i && 0 <= y < b.ncols) || (x == i && 0 <= y < j) ==> #[trigger] bit_len(abs(b.at(x, y)))
                        <= u32::MAX,
            decreases b.ncols - j,
        {
            let c = int_bit_count(b.get(i, j));
            if c > 0xffff_ffffusize {
                return false;
            }
            j = j + 1;
        }
        i = i + 1;
    }
    true
}

/// [`max_entry_bits`] when every entry has at most `u32::MAX` binary
/// digits, and `None` otherwise.
pub fn try_max_entry_bits(b: &IntMatrix) -> (r: Option<u64>)
    requires
        b.wf(),
    ensures
        r is Some <==> entries_bits_fit(*b),
        r matches Some(v) ==> is_max_entry_bits(*b, v as int),
{
    if entries_fit(b) {
        Some(max_entry_bits(b))
    } else {
        None
    }
}

/// The largest number of binary digits of an entry of `b`, zero for an
/// empty matrix.
pub fn max_entry_bits(b: &IntMatrix) -> (r: u64)
    requires
        b.wf(),
        entries_bits_fit(*b),
    ensures
        forall|i: int, j: int| 0 <= i < b.nrows && 0 <= j < b.ncols ==> bit_len(abs(#[trigger] b.at(i, j))) <= r,
        r == 0 || exists|i: int, j: int| 0 <= i < b.nrows && 0 <= j < b.ncols && r == bit_len(abs(#[trigger] b.at(i, j))),
{
    let mut mx: u64 = 0;
    let mut i: usize = 0;
    while i < b.nrows
        invariant
            b.wf(),
            entries_bits_fit(*b),
            i <= b.nrows,
            forall|x: int, y: int| 0 <= x < i && 0 <= y < b.ncols ==> bit_len(abs(#[trigger] b.at(x, y))) <= mx,
            mx == 0 || exists|x: int, y: int| 0 <= x < b.nrows && 0 <= y < b.ncols && mx == bit_len(abs(#[trigger] b.at(x, y))),
        decreases b.nrows - i,
    {
        let mut j: usize = 0;
        while j < b.ncols
            invariant
                b.wf(),
                entries_bits_fit(*b),
                i < b.nrows,
                j <= b.ncols,
                forall|x: int, y: int|
                    0 <= x < b.nrows && 0 <= y < b.ncols && (x < i || (x == i && y < j)) ==> bit_len(abs(#[trigger] b.at(x, y))) <= mx,
                mx == 0 || exists|x: int, y: int| 0 <= x < b.nrows && 0 <= y < b.ncols && mx == bit_len(abs(#[trigger] b.at(x, y))),
            decreases b.ncols - j,
        {
            proof {
                assert(bit_len(abs(b.at(i as int, j as int))) <= u32::MAX);
            }
            let bits = int_significant_bits(b.get(i, j)) as u64;
            if bits > mx {
                mx = bits;
            }
            j = j + 1;
        }
        i = i + 1;
    }
    mx
}

/// Exchange columns `a` and `b` of the basis.
pub fn swap_cols(l: &mut Lattice, a: usize, b: usize)
    requires
        old(l).basis.wf(),
        a < old(l).basis.ncols,
        b < old(l).basis.ncols,
    ensures
        final(l).basis.wf(),
        final(l).rank == old(l).rank,
        final(l).basis.nrows == old(l).basis.nrows,
        final(l).basis.ncols == old(l).basis.ncols,
        forall|i: int, j: int|
            0 <= i < old(l).basis.nrows && 0 <= j < old(l).basis.ncols ==> #[trigger] final(l).basis.at(i, j) == old(l).basis.at(
                i,
                if j == a {
                    b as int
                } else if j == b {
                    a as int
                } else {
                    j
                },
            ),
{
    if a == b {
        return;
    }
    let ghost m0 = l.basis;
    let nrows = l.basis.nrows;
    let mut i: usize = 0;
    while i < nrows
        invariant
            l.basis.wf(),
            l.basis.nrows == m0.nrows,
            l.basis.ncols == m0.ncols,
            l.rank == old(l).rank,
            m0 == old(l).basis,
            nrows == m0.nrows,
            a < m0.ncols,
            b < m0.ncols,
            a != b,
            i <= nrows,
            forall|x: int, y: int|
                0 <= x < m0.nrows && 0 <= y < m0.ncols ==> #[trigger] l.basis.at(x, y) == if x < i {
                    m0.at(
                        x,
                        if y == a {
                            b as int
                        } else if y == b {
                            a as int
                        } else {
                            y
                        },
                    )
                } else {
                    m0.at(x, y)
                },
        decreases nrows - i,
    {
        let va = int_clone(l.basis.get(i, a));
        let vb = int_clone(l.basis.get(i, b));
        l.basis.set(i, a, vb);
        l.basis.set(i, b, va);
        i = i + 1;
    }
}

/// Subtract `q` times column `j` from column `k` of `b`, where `k != j`.
pub fn sub_multiple_of_col(b: &mut IntMatrix, k: usize, j: usize, q: &Integer)
    requires
        old(b).wf(),
        k < old(b).ncols,
        j < old(b).ncols,
        k != j,
    ensures
        final(b).wf(),
        final(b).nrows == old(b).nrows,
        final(b).ncols == old(b).ncols,
        forall|x: int, y: int|
            0 <= x < old(b).nrows && 0 <= y < old(b).ncols ==> #[trigger] final(b).at(x, y) == if y == k {
                old(b).at(x, k as int) - integer_value(*q) * old(b).at(x, j as int)
            } else {
                old(b).at(x, y)
            },
{
    let ghost m0 = *b;
    let nrows = b.nrows;
    let mut i: usize = 0;
    while i < nrows
        invariant
            b.wf(),
            b.nrows == m0.nrows,
            b.ncols == m0.ncols,
            m0 == *old(b),
            nrows == m0.nrows,
            k < m0.ncols,
            j < m0.ncols,
            k != j,
            i <= nrows,
            forall|x: int, y: int|
                0 <= x < m0.nrows && 0 <= y < m0.ncols ==> #[trigger] b.at(x, y) == if y == k && x < i {
                    m0.at(x, k as int) - integer_value(*q) * m0.at(x, j as int)
                } else {
                    m0.at(x, y)
                },
        decreases nrows - i,
    {
        let ghost bj = b.at(i as int, j as int);
        let ghost bk = b.at(i as int, k as int);
        assert(bj == m0.at(i as int, j as int));
        assert(bk == m0.at(i as int, k as int));
        let p = int_mul(b.get(i, j), q);
        let v = int_sub(b.get(i, k), &p);
        proof {
            let qv = integer_value(*q);
            assert(bj * qv == qv * bj) by (nonlinear_arith);
            assert(integer_value(v) == m0.at(i as int, k as int) - integer_value(*q) * m0.at(i as int, j as int));
        }
        b.set(i, k, v);
        i = i + 1;
    }
}

} // verus!
