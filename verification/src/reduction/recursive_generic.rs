//! The integer state shared by the recursive reductions: the outer basis,
//! its compressed shadow, and the unimodular transforms of the rounds with
//! the compression shifts under which each was found. Folding the rounds
//! back into one transform undoes each round's compression: entry
//! `(i, j)` of a round's transform is scaled by `2^(d[j] - d[i])` where
//! `d` are that round's shifts.

use crate::integer::int_shl;
use crate::lattice::{IntMatrix, entries_bits_fit, entries_fit, is_max_entry_bits, max_entry_bits};
use crate::math::mat_mul::{dot, is_product, mat_mul};
use vstd::prelude::*;
use vstd::arithmetic::power2::pow2;

verus! {

/// The integer part of a recursive reduction's state.
pub struct RecursiveGeneric {
    /// Dimension of the outer basis.
    pub m: usize,
    /// Rank of the outer basis.
    pub n: usize,
    /// The outer basis, `m × n`.
    pub outer_m: IntMatrix,
    /// The compressed shadow basis, `m × n`.
    pub b: IntMatrix,
    /// Workspace of the same shape as `b`.
    pub b_next: IntMatrix,
    /// The accumulated transform, `n × n`.
    pub u: IntMatrix,
    /// The transform of each round, `n × n`.
    pub u_iters: Vec<IntMatrix>,
    /// The compression shifts in force before each round and after the
    /// last one.
    pub compression_iters: Vec<Vec<i32>>,
    /// Working precision in bits.
    pub precision: u32,
    /// The precision the reduction started with.
    pub original_precision: u32,
    /// The basis changed since the profile was last read.
    pub lattice_changed: bool,
}

/// An `n × n` matrix as a function of its indices.
pub open spec fn entries(a: IntMatrix) -> spec_fn(int, int) -> int {
    |i: int, j: int| a.at(i, j)
}

/// `sum_{l < len} A(i, l) · B(l, j)`.
pub open spec fn sum_prod(a: spec_fn(int, int) -> int, b: spec_fn(int, int) -> int, i: int, j: int, len: int) -> int
    decreases len,
{
    if len <= 0 {
        0
    } else {
        sum_prod(a, b, i, j, len - 1) + a(i, len - 1) * b(len - 1, j)
    }
}

/// The identity matrix.
pub open spec fn identity() -> spec_fn(int, int) -> int {
    |i: int, j: int| if i == j { 1int } else { 0int }
}

/// A round's transform with its compression undone: entry `(i, j)` times
/// `2^(d[j] - d[i])` where `d[j] > d[i]`, unchanged elsewhere.
pub open spec fn decompressed(u: IntMatrix, d: Seq<i32>) -> spec_fn(int, int) -> int {
    |i: int, j: int|
        if d[j] > d[i] {
            u.at(i, j) * pow2((d[j] - d[i]) as nat)
        } else {
            u.at(i, j)
        }
}

/// The product of the decompressed transforms of rounds `t..`, in round
/// order.
pub open spec fn folded(us: Seq<IntMatrix>, ds: Seq<Seq<i32>>, t: int, n: int) -> spec_fn(int, int) -> int
    decreases us.len() - t,
{
    if t >= us.len() {
        identity()
    } else {
        let a = decompressed(us[t], ds[t]);
        let b = folded(us, ds, t + 1, n);
        |i: int, j: int| sum_prod(a, b, i, j, n)
    }
}

/// The shifts of each round, as sequences.
pub open spec fn shifts_of(cs: Seq<Vec<i32>>) -> Seq<Seq<i32>> {
    cs.map_values(|v: Vec<i32>| v@)
}

/// `dot` over matrices that agree with two functions is the sum of their
/// products.
proof fn lemma_dot_sum_prod(a: IntMatrix, b: IntMatrix, fa: spec_fn(int, int) -> int, fb: spec_fn(int, int) -> int, i: int, j: int, len: int)
    requires
        forall|l: int| 0 <= l < len ==> #[trigger] a.at(i, l) == fa(i, l),
        forall|l: int| 0 <= l < len ==> #[trigger] b.at(l, j) == fb(l, j),
    ensures
        dot(a, b, i, j, len) == sum_prod(fa, fb, i, j, len),
    decreases len,
{
    if len > 0 {
        lemma_dot_sum_prod(a, b, fa, fb, i, j, len - 1);
        assert(a.at(i, len - 1) == fa(i, len - 1));
        assert(b.at(len - 1, j) == fb(len - 1, j));
    }
}

/// A sum of products of two matrices that agree with the identity on
/// `0..len` is an entry of the identity (restricted to `0..len`).
proof fn lemma_sum_prod_identity(a: spec_fn(int, int) -> int, b: spec_fn(int, int) -> int, i: int, j: int, len: int)
    requires
        0 <= i,
        0 <= j,
        forall|l: int| 0 <= l < len ==> #[trigger] a(i, l) == identity()(i, l),
        forall|l: int| 0 <= l < len ==> #[trigger] b(l, j) == identity()(l, j),
    ensures
        sum_prod(a, b, i, j, len) == if i == j && i < len { 1int } else { 0int },
    decreases len,
{
    if len > 0 {
        lemma_sum_prod_identity(a, b, i, j, len - 1);
        assert(a(i, len - 1) == identity()(i, len - 1));
        assert(b(len - 1, j) == identity()(len - 1, j));
    }
}

/// Folding rounds whose transforms are all the identity gives the
/// identity, whatever their compression shifts.
pub proof fn lemma_folded_identity(us: Seq<IntMatrix>, ds: Seq<Seq<i32>>, t: int, n: int)
    requires
        0 <= t,
        forall|s: int, i: int, j: int|
            t <= s < us.len() && 0 <= i < n && 0 <= j < n ==> #[trigger] us[s].at(i, j) == identity()(i, j),
    ensures
        forall|i: int, j: int| 0 <= i < n && 0 <= j < n ==> #[trigger] folded(us, ds, t, n)(i, j) == identity()(i, j),
    decreases us.len() - t,
{
    if t < us.len() {
        lemma_folded_identity(us, ds, t + 1, n);
        let a = decompressed(us[t], ds[t]);
        let b = folded(us, ds, t + 1, n);
        assert forall|i: int, j: int| 0 <= i < n && 0 <= j < n implies #[trigger] folded(us, ds, t, n)(i, j) == identity()(i, j) by {
            assert forall|l: int| 0 <= l < n implies #[trigger] a(i, l) == identity()(i, l) by {
                assert(us[t].at(i, l) == identity()(i, l));
            }
            assert forall|l: int| 0 <= l < n implies #[trigger] b(l, j) == identity()(l, j) by {}
            lemma_sum_prod_identity(a, b, i, j, n);
        }
    }
}

impl RecursiveGeneric {
    /// The state for the outer basis `outer_m`, before any round: zero
    /// shadow, workspace and transform, no rounds.
    pub fn new(outer_m: IntMatrix) -> (r: Self)
        requires
            outer_m.wf(),
            outer_m.ncols * outer_m.ncols <= usize::MAX,
        ensures
            r.m == outer_m.nrows,
            r.n == outer_m.ncols,
            r.outer_m == outer_m,
            r.b.wf() && r.b.nrows == r.m && r.b.ncols == r.n,
            r.b_next.wf() && r.b_next.nrows == r.m && r.b_next.ncols == r.n,
            r.u.wf() && r.u.nrows == r.n && r.u.ncols == r.n,
            forall|i: int, j: int| 0 <= i < r.m && 0 <= j < r.n ==> #[trigger] r.b.at(i, j) == 0 && r.b_next.at(i, j) == 0,
            forall|i: int, j: int| 0 <= i < r.n && 0 <= j < r.n ==> #[trigger] r.u.at(i, j) == 0,
            r.u_iters@.len() == 0,
            r.compression_iters@.len() == 0,
            r.precision == 53,
            r.original_precision == 53,
            r.lattice_changed,
    {
        let m = outer_m.nrows;
        let n = outer_m.ncols;
        proof {
            assert(outer_m.data.len() == outer_m.data@.len());
        }
        let b = IntMatrix::zeros(m, n);
        let b_next = IntMatrix::zeros(m, n);
        let u = IntMatrix::zeros(n, n);
        RecursiveGeneric {
            m,
            n,
            outer_m,
            b,
            b_next,
            u,
            u_iters: Vec::new(),
            compression_iters: Vec::new(),
            precision: 53,
            original_precision: 53,
            lattice_changed: true,
        }
    }

    /// The working precision for a basis whose largest entry has `bits`
    /// binary digits: `2 · bits + 40`, at least 53 and at most `u32::MAX`.
    pub open spec fn precision_for_bits(bits: int) -> int {
        let p = 2 * bits + 40;
        let p = if p < 53 {
            53
        } else {
            p
        };
        if p > u32::MAX {
            u32::MAX as int
        } else {
            p
        }
    }

    /// The starting precision as a function of the bits of the largest
    /// entry: 53 up to 6 bits, then `2 · bits + 40`, growing by exactly 2
    /// with each extra bit, until it saturates at `u32::MAX`; it never
    /// decreases as the entries grow.
    pub proof fn lemma_precision_for_bits(bits: int, more: int)
        requires
            0 <= bits <= more,
        ensures
            bits <= 6 ==> Self::precision_for_bits(bits) == 53,
            7 <= bits && 2 * bits + 40 <= u32::MAX ==> Self::precision_for_bits(bits) == 2 * bits + 40,
            2 * bits + 40 > u32::MAX ==> Self::precision_for_bits(bits) == u32::MAX,
            7 <= bits && 2 * bits + 42 <= u32::MAX ==> Self::precision_for_bits(bits + 1) == Self::precision_for_bits(
                bits,
            ) + 2,
            53 <= Self::precision_for_bits(bits) <= u32::MAX,
            Self::precision_for_bits(bits) <= Self::precision_for_bits(more),
    {
    }

    /// The precision to start with: `precision_for_bits` of the number of
    /// binary digits in the largest entry of the outer basis.
    pub fn get_initial_precision(&self) -> (r: u32)
        requires
            self.outer_m.wf(),
            entries_bits_fit(self.outer_m),
        ensures
            exists|bits: int| r == Self::precision_for_bits(bits) && is_max_entry_bits(self.outer_m, bits),
            exists|bits: int|
                #![trigger is_max_entry_bits(self.outer_m, bits)]
                is_max_entry_bits(self.outer_m, bits) && r == (if 2 * bits + 40 < 53 {
                    53
                } else if 2 * bits + 40 > u32::MAX {
                    u32::MAX as int
                } else {
                    2 * bits + 40
                }),
    {
        let bits = max_entry_bits(&self.outer_m);
        let p: u64 = if bits > 0x7fff_ffff {
            u32::MAX as u64
        } else {
            2 * bits + 40
        };
        let p = if p < 53 {
            53
        } else {
            p
        };
        let r: u32 = if p > u32::MAX as u64 {
            u32::MAX
        } else {
            p as u32
        };
        proof {
            assert(r == Self::precision_for_bits(bits as int));
            assert(is_max_entry_bits(self.outer_m, bits as int));
        }
        r
    }

    /// [`RecursiveGeneric::get_initial_precision`] when every entry of the
    /// outer basis has at most `u32::MAX` binary digits, and `None`
    /// otherwise.
    pub fn try_get_initial_precision(&self) -> (r: Option<u32>)
        requires
            self.outer_m.wf(),
        ensures
            r is Some <==> entries_bits_fit(self.outer_m),
            r matches Some(p) ==> exists|bits: int| p == Self::precision_for_bits(bits) && is_max_entry_bits(self.outer_m, bits),
    {
        if entries_fit(&self.outer_m) {
            Some(self.get_initial_precision())
        } else {
            None
        }
    }

    /// Start a round: its transform is the identity and its shifts are
    /// zero.
    pub fn init_iter(&mut self)
        requires
            old(self).n * old(self).n <= usize::MAX,
        ensures
            final(self).m == old(self).m,
            final(self).n == old(self).n,
            final(self).outer_m == old(self).outer_m,
            final(self).b == old(self).b,
            final(self).b_next == old(self).b_next,
            final(self).precision == old(self).precision,
            final(self).original_precision == old(self).original_precision,
            final(self).lattice_changed == old(self).lattice_changed,
            final(self).u == old(self).u,
            final(self).u_iters@.len() == old(self).u_iters@.len() + 1,
            final(self).u_iters@.drop_last() == old(self).u_iters@,
            final(self).u_iters@.last().wf(),
            final(self).u_iters@.last().nrows == old(self).n,
            final(self).u_iters@.last().ncols == old(self).n,
            forall|i: int, j: int|
                0 <= i < old(self).n && 0 <= j < old(self).n ==> #[trigger] final(self).u_iters@.last().at(i, j) == identity()(i, j),
            final(self).compression_iters@ == old(self).compression_iters@.push(final(self).compression_iters@.last()),
            final(self).compression_iters@.last()@ == Seq::new(old(self).n as nat, |k: int| 0i32),
    {
        let n = self.n;
        let mut id = IntMatrix::zeros(n, n);
        id.set_identity();
        self.u_iters.push(id);
        let mut zs: Vec<i32> = Vec::new();
        while zs.len() < n
            invariant
                zs@.len() <= n,
                forall|k: int| 0 <= k < zs@.len() ==> #[trigger] zs@[k] == 0,
            decreases n - zs@.len(),
        {
            zs.push(0);
        }
        proof {
            assert(zs@ =~= Seq::new(n as nat, |k: int| 0i32));
        }
        self.compression_iters.push(zs);
        proof {
            assert(self.u_iters@.drop_last() =~= old(self).u_iters@);
        }
    }

    /// Fold the transforms of all rounds into `u`, in round order, each with
    /// its compression undone, and clear the rounds. The shifts after the
    /// last round are dropped unused.
    #[allow(non_snake_case)]
    pub fn collect_U(&mut self)
        requires
            old(self).u_iters@.len() + 1 == old(self).compression_iters@.len(),
            old(self).n * old(self).n <= usize::MAX,
            forall|t: int| 0 <= t < old(self).u_iters@.len() ==> {
                let ut = #[trigger] old(self).u_iters@[t];
                ut.wf() && ut.nrows == old(self).n && ut.ncols == old(self).n
            },
            forall|t: int| 0 <= t < old(self).compression_iters@.len() ==> #[trigger] old(self).compression_iters@[t]@.len() == old(self).n,
            forall|t: int, i: int, j: int|
                #![trigger old(self).compression_iters@[t]@[j], old(self).compression_iters@[t]@[i]]
                0 <= t < old(self).u_iters@.len() && 0 <= i < old(self).n && 0 <= j < old(self).n ==> old(self).compression_iters@[t]@[j]
                    - old(self).compression_iters@[t]@[i] <= i32::MAX,
        ensures
            final(self).m == old(self).m,
            final(self).n == old(self).n,
            final(self).outer_m == old(self).outer_m,
            final(self).b == old(self).b,
            final(self).b_next == old(self).b_next,
            final(self).precision == old(self).precision,
            final(self).original_precision == old(self).original_precision,
            final(self).lattice_changed == old(self).lattice_changed,
            final(self).u_iters@.len() == 0,
            final(self).compression_iters@.len() == 0,
            final(self).u.wf(),
            final(self).u.nrows == old(self).n,
            final(self).u.ncols == old(self).n,
            forall|i: int, j: int|
                0 <= i < old(self).n && 0 <= j < old(self).n ==> #[trigger] final(self).u.at(i, j) == folded(
                    old(self).u_iters@,
                    shifts_of(old(self).compression_iters@),
                    0,
                    old(self).n as int,
                )(i, j),
    {
        let n = self.n;
        let ghost us = self.u_iters@;
        let ghost ds = shifts_of(self.compression_iters@);
        let mut u = IntMatrix::zeros(n, n);
        u.set_identity();
        self.compression_iters.pop();
        while self.u_iters.len() > 0
            invariant
                self.n == n,
                n * n <= usize::MAX,
                self.m == old(self).m,
                self.outer_m == old(self).outer_m,
                self.b == old(self).b,
                self.b_next == old(self).b_next,
                self.precision == old(self).precision,
                self.original_precision == old(self).original_precision,
                self.lattice_changed == old(self).lattice_changed,
                us == old(self).u_iters@,
                ds == shifts_of(old(self).compression_iters@),
                self.u_iters@.len() <= us.len(),
                self.u_iters@ == us.subrange(0, self.u_iters@.len() as int),
                self.compression_iters@.len() == self.u_iters@.len(),
                forall|t: int| 0 <= t < self.compression_iters@.len() ==> #[trigger] self.compression_iters@[t]@ == ds[t],
                forall|t: int| 0 <= t < us.len() ==> {
                    let ut = #[trigger] us[t];
                    ut.wf() && ut.nrows == n && ut.ncols == n
                },
                forall|t: int| 0 <= t < us.len() ==> #[trigger] ds[t].len() == n,
                forall|t: int, i: int, j: int|
                    #![trigger ds[t][j], ds[t][i]]
                    0 <= t < us.len() && 0 <= i < n && 0 <= j < n ==> ds[t][j] - ds[t][i] <= i32::MAX,
                u.wf(),
                u.nrows == n,
                u.ncols == n,
                forall|i: int, j: int|
                    0 <= i < n && 0 <= j < n ==> #[trigger] u.at(i, j) == folded(us, ds, self.u_iters@.len() as int, n as int)(i, j),
            decreases self.u_iters@.len(),
        {
            let ghost t = self.u_iters@.len() - 1;
            let mut u_iter = self.u_iters.pop().unwrap();
            let d = self.compression_iters.pop().unwrap();
            proof {
                assert(us[t] == u_iter);
                assert(d@ == ds[t]);
            }
            let ghost u0 = u_iter;
            let mut i: usize = 0;
            while i < n
                invariant
                    u0.wf(),
                    u0.nrows == n,
                    u0.ncols == n,
                    u_iter.wf(),
                    u_iter.nrows == n,
                    u_iter.ncols == n,
                    d@.len() == n,
                    forall|a: int, b: int| #![trigger d@[b], d@[a]] 0 <= a < n && 0 <= b < n ==> d@[b] - d@[a] <= i32::MAX,
                    i <= n,
                    forall|a: int, b: int| 0 <= a < n && 0 <= b < n ==> #[trigger] u_iter.at(a, b) == if a < i {
                        decompressed(u0, d@)(a, b)
                    } else {
                        u0.at(a, b)
                    },
                decreases n - i,
            {
                let mut j: usize = 0;
                while j < n
                    invariant
                        u0.wf(),
                        u0.nrows == n,
                        u0.ncols == n,
                        u_iter.wf(),
                        u_iter.nrows == n,
                        u_iter.ncols == n,
                        d@.len() == n,
                        forall|a: int, b: int| #![trigger d@[b], d@[a]] 0 <= a < n && 0 <= b < n ==> d@[b] - d@[a] <= i32::MAX,
                        i < n,
                        j <= n,
                        forall|a: int, b: int| 0 <= a < n && 0 <= b < n ==> #[trigger] u_iter.at(a, b) == if a < i || (a == i
                            && b < j) {
                            decompressed(u0, d@)(a, b)
                        } else {
                            u0.at(a, b)
                        },
                    decreases n - j,
                {
                    let di = d[i];
                    let dj = d[j];
                    if dj > di {
                        proof {
                            assert(d@[j as int] - d@[i as int] <= i32::MAX);
                        }
                        let shift = (dj - di) as u32;
                        let v = int_shl(u_iter.get(i, j), shift);
                        u_iter.set(i, j, v);
                    }
                    j = j + 1;
                }
                i = i + 1;
            }
            let new_u = mat_mul(&u_iter, &u);
            proof {
                let a = decompressed(us[t], ds[t]);
                let b = folded(us, ds, t + 1, n as int);
                assert forall|x: int, y: int| 0 <= x < n && 0 <= y < n implies #[trigger] new_u.at(x, y) == folded(
                    us,
                    ds,
                    t,
                    n as int,
                )(x, y) by {
                    assert forall|l: int| 0 <= l < n implies #[trigger] u_iter.at(x, l) == a(x, l) by {}
                    assert forall|l: int| 0 <= l < n implies #[trigger] u.at(l, y) == b(l, y) by {}
                    lemma_dot_sum_prod(u_iter, u, a, b, x, y, n as int);
                }
                assert(self.u_iters@ =~= us.subrange(0, t));
            }
            u = new_u;
        }
        self.u = u;
    }

    /// The exact part of finishing a reduction: fold the rounds into `u`
    /// with [`RecursiveGeneric::collect_U`], then replace the outer basis
    /// `M` by `M · u`.
    pub fn apply_collected_u(&mut self)
        requires
            old(self).u_iters@.len() + 1 == old(self).compression_iters@.len(),
            old(self).n * old(self).n <= usize::MAX,
            old(self).outer_m.wf(),
            old(self).outer_m.ncols == old(self).n,
            old(self).outer_m.nrows * old(self).n <= usize::MAX,
            forall|t: int| 0 <= t < old(self).u_iters@.len() ==> {
                let ut = #[trigger] old(self).u_iters@[t];
                ut.wf() && ut.nrows == old(self).n && ut.ncols == old(self).n
            },
            forall|t: int| 0 <= t < old(self).compression_iters@.len() ==> #[trigger] old(self).compression_iters@[t]@.len() == old(self).n,
            forall|t: int, i: int, j: int|
                #![trigger old(self).compression_iters@[t]@[j], old(self).compression_iters@[t]@[i]]
                0 <= t < old(self).u_iters@.len() && 0 <= i < old(self).n && 0 <= j < old(self).n ==> old(self).compression_iters@[t]@[j]
                    - old(self).compression_iters@[t]@[i] <= i32::MAX,
        ensures
            final(self).m == old(self).m,
            final(self).n == old(self).n,
            final(self).b == old(self).b,
            final(self).b_next == old(self).b_next,
            final(self).precision == old(self).precision,
            final(self).original_precision == old(self).original_precision,
            final(self).lattice_changed == old(self).lattice_changed,
            final(self).u_iters@.len() == 0,
            final(self).compression_iters@.len() == 0,
            final(self).u.wf(),
            final(self).u.nrows == old(self).n,
            final(self).u.ncols == old(self).n,
            forall|i: int, j: int|
                0 <= i < old(self).n && 0 <= j < old(self).n ==> #[trigger] final(self).u.at(i, j) == folded(
                    old(self).u_iters@,
                    shifts_of(old(self).compression_iters@),
                    0,
                    old(self).n as int,
                )(i, j),
            final(self).outer_m.wf(),
            is_product(final(self).outer_m, old(self).outer_m, final(self).u),
    {
        self.collect_U();
        let new_m = mat_mul(&self.outer_m, &self.u);
        self.outer_m = new_m;
    }
}

} // verus!
