//! Bounds of the single-sublattice iterated-compression heuristic.

use crate::reduction::recursive_generic::RecursiveGeneric;
use vstd::prelude::*;
use vstd::arithmetic::power2::pow2;

verus! {

/// `ceil(log2(n))` for `n >= 1`, and 0 for `n == 0`.
pub open spec fn spec_ceil_log2(n: nat) -> nat
    decreases n,
{
    if n <= 1 {
        0
    } else {
        1 + spec_ceil_log2(((n + 1) / 2) as nat)
    }
}

/// Cap on the outer rounds of the heuristic: `max(32, 4 · n · ceil(log2 n))`.
pub open spec fn spec_max_outer_rounds(n: nat) -> nat {
    let r = n * spec_ceil_log2(n) * 4;
    if r < 32 {
        32
    } else {
        r
    }
}

/// `2^c >= n` exactly when `c >= ceil(log2 n)`.
pub proof fn lemma_ceil_log2(n: nat, c: nat)
    requires
        n >= 1,
    ensures
        (pow2(c) >= n) <==> (c >= spec_ceil_log2(n)),
    decreases n,
{
    vstd::arithmetic::power2::lemma_pow2_pos(c);
    if n > 1 {
        let h = ((n + 1) / 2) as nat;
        if c > 0 {
            vstd::arithmetic::power2::lemma_pow2_unfold(c);
            lemma_ceil_log2(h, (c - 1) as nat);
        } else {
            vstd::arithmetic::power2::lemma2_to64();
        }
    } else {
        vstd::arithmetic::power2::lemma2_to64();
        if c > 0 {
            vstd::arithmetic::power2::lemma_pow2_unfold(c);
        }
    }
}

/// Exact `ceil(log2(n))` (0 for `n <= 1`).
fn ceil_log2(n: usize) -> (c: usize)
    ensures
        c == spec_ceil_log2(n as nat),
        c <= 64,
{
    let mut c: usize = 0;
    let mut p: u128 = 1;
    proof {
        vstd::arithmetic::power2::lemma2_to64();
    }
    while p < n as u128
        invariant
            p == pow2(c as nat),
            p >= 1,
            c <= 64,
            n == 0 ==> c == 0,
            n >= 1 ==> c <= spec_ceil_log2(n as nat),
            n >= 1 ==> (p < n <==> c < spec_ceil_log2(n as nat)),
        decreases 64 - c,
    {
        proof {
            lemma_ceil_log2(n as nat, c as nat);
            lemma_ceil_log2(n as nat, (c + 1) as nat);
            vstd::arithmetic::power2::lemma_pow2_unfold((c + 1) as nat);
            vstd::arithmetic::power2::lemma_pow2_pos(c as nat);
            lemma_ceil_log2_bound(n as nat);
        }
        p = p * 2;
        c = c + 1;
    }
    proof {
        if n >= 1 {
            lemma_ceil_log2(n as nat, c as nat);
            assert(c >= spec_ceil_log2(n as nat));
        } else {
            assert(spec_ceil_log2(0) == 0);
        }
    }
    c
}

/// `ceil(log2 n) <= 64` for every `n` that fits in 64 bits.
pub proof fn lemma_ceil_log2_bound(n: nat)
    requires
        n <= u64::MAX,
    ensures
        spec_ceil_log2(n) <= 64,
{
    if n >= 1 {
        vstd::arithmetic::power2::lemma2_to64_rest();
        lemma_ceil_log2(n, 64);
    }
}

/// Safety cap on the outer rounds of one heuristic run: one Phase-2
/// schedule has at most a few rounds per level of a tree of depth
/// `ceil(log2 n)`, so `4 · n · ceil(log2 n)` (at least 32) is plenty.
pub fn max_outer_rounds(n: usize) -> (r: usize)
    requires
        n * spec_ceil_log2(n as nat) * 4 <= usize::MAX,
    ensures
        r == spec_max_outer_rounds(n as nat),
{
    let c = ceil_log2(n);
    proof {
        assert(n * c <= n * c * 4) by (nonlinear_arith);
    }
    let r = n * c * 4;
    if r < 32 {
        32
    } else {
        r
    }
}

/// Number of rounds run so far: one transform is kept per round.
pub fn rounds_so_far(rg: &RecursiveGeneric) -> (r: usize)
    ensures
        r == rg.u_iters@.len(),
{
    rg.u_iters.len()
}

} // verus!
