use flatter::lattice::{IntMatrix, Lattice};
use flatter::reduction::cond_unknown::{
    apply_perm, apply_u, block_transform, column_norm2, count_zero_cols, finish_refinement, next_refinement,
    sort_by_size, Refinement,
};
use flatter::math::mat_mul::mat_mul;
use flatter::reduction::dispatch::{estimated_prec, route, try_estimated_prec, Problem, Route};
use flatter::reduction::heuristic2::{max_outer_rounds, rounds_so_far};
use flatter::reduction::preprocess::{Heuristic1, Irregular};
use flatter::reduction::recursive_generic::RecursiveGeneric;
use flatter::reduction::ReductionReport;
use rug::Integer;

fn mat(rows: usize, cols: usize, vals: &[i64]) -> IntMatrix {
    let mut m = IntMatrix::zeros(rows, cols);
    for i in 0..rows {
        for j in 0..cols {
            m.set(i, j, Integer::from(vals[i * cols + j]));
        }
    }
    m
}

fn problem() -> Problem {
    Problem {
        n: 10,
        m: 10,
        prec: 64,
        fplll: true,
        has_b2: false,
        proved: false,
        is_upper_triangular: false,
        lvalid: 0,
        rvalid: 0,
        phase: 2,
        log_cond_known: false,
        threaded: false,
    }
}

#[test]
fn dispatch_small_rank() {
    let p = Problem { n: 2, m: 2, ..problem() };
    assert_eq!(route(&p), Route::Lagrange);
    assert_eq!(route(&Problem { prec: 1400, ..p }), Route::Lll);
    assert_eq!(route(&Problem { m: 3, ..p }), Route::Lll);
    assert_eq!(route(&Problem { has_b2: true, ..p }), Route::Lll);
    assert_eq!(route(&Problem { n: 1, ..p }), Route::Lll);
}

#[test]
fn dispatch_proved_family() {
    let p = Problem { proved: true, ..problem() };
    assert_eq!(route(&p), Route::Proved1);
    assert_eq!(route(&Problem { is_upper_triangular: true, ..p }), Route::Proved2);
    assert_eq!(
        route(&Problem { is_upper_triangular: true, lvalid: 3, rvalid: 3, ..p }),
        Route::Proved3
    );
    assert_eq!(
        route(&Problem { is_upper_triangular: true, lvalid: 3, rvalid: 2, ..p }),
        Route::Proved2
    );
    assert_eq!(route(&Problem { has_b2: true, ..p }), Route::Lll);
}

#[test]
fn dispatch_heuristic_family() {
    let p = problem();
    assert_eq!(route(&Problem { phase: 0, ..p }), Route::Irregular);
    assert_eq!(route(&Problem { phase: 1, ..p }), Route::CondUnknown);
    assert_eq!(route(&Problem { phase: 1, log_cond_known: true, ..p }), Route::Heuristic1);
    assert_eq!(route(&p), Route::Lll);
    let big = Problem { n: 40, ..p };
    assert_eq!(route(&big), Route::Heuristic2);
    assert_eq!(route(&Problem { prec: 200, ..p }), Route::Heuristic2);
    assert_eq!(route(&Problem { fplll: false, ..p }), Route::Heuristic2);
    assert_eq!(route(&Problem { phase: 3, ..big }), Route::Heuristic3);
    assert_eq!(route(&Problem { phase: 3, threaded: true, ..big }), Route::Threaded3);
    assert_eq!(route(&Problem { phase: 3, has_b2: true, ..big }), Route::Lll);
}

#[test]
fn estimated_prec_is_largest_bit_length() {
    let mut l = Lattice::new(2, 2);
    l.basis.set(0, 0, Integer::from(255));
    l.basis.set(1, 1, Integer::from(-256));
    assert_eq!(estimated_prec(&l), 9);
    assert_eq!(try_estimated_prec(&l), Some(9));
}

#[test]
fn apply_perm_moves_columns() {
    let mut b = mat(2, 3, &[1, 2, 3, 4, 5, 6]);
    // column 0 <- old column 2, column 1 <- old column 0, column 2 <- none
    let u = mat(3, 3, &[0, 1, 0, 0, 0, 0, 1, 0, 0]);
    apply_perm(&mut b, &u);
    assert_eq!(b.get(0, 0).to_i64(), Some(3));
    assert_eq!(b.get(1, 0).to_i64(), Some(6));
    assert_eq!(b.get(0, 1).to_i64(), Some(1));
    assert_eq!(b.get(1, 1).to_i64(), Some(4));
    assert!(*b.get(0, 2) == 0);
    assert!(*b.get(1, 2) == 0);
}

#[test]
fn apply_u_updates_blocks() {
    // B = [1 2 3; 4 5 6], k = 2, U1 = [0 1; 1 0], U2 = [1; 1].
    let mut b = mat(2, 3, &[1, 2, 3, 4, 5, 6]);
    let u = mat(3, 3, &[0, 1, 1, 1, 0, 1, 0, 0, 1]);
    apply_u(&mut b, &u, 2);
    let want = [2i64, 1, 6, 5, 4, 15];
    for i in 0..2 {
        for j in 0..3 {
            assert_eq!(b.get(i, j).to_i64(), Some(want[i * 3 + j]));
        }
    }
}

#[test]
fn count_zero_columns() {
    let b = mat(2, 4, &[1, 0, 0, 2, 0, 0, 3, 0]);
    assert_eq!(count_zero_cols(&b, 0), 1);
    assert_eq!(count_zero_cols(&b, 2), 0);
    assert_eq!(count_zero_cols(&b, 4), 0);
}

#[test]
fn refinement_decisions() {
    assert_eq!(next_refinement(3, 2, 5, 5, 5, 53, 10), Refinement::Converged);
    assert_eq!(
        next_refinement(3, 0, 5, 5, 3, 100, 70),
        Refinement::Continue { max_rank: 3, working_prec: 110 }
    );
    assert_eq!(
        next_refinement(3, 0, 5, 5, 3, 100, 1),
        Refinement::Continue { max_rank: 3, working_prec: 53 }
    );
    assert_eq!(
        next_refinement(2, 1, 5, 3, 5, 100, 0),
        Refinement::Continue { max_rank: 3, working_prec: 200 }
    );
    assert_eq!(
        next_refinement(2, 1, 5, 9, 5, u32::MAX, 0),
        Refinement::Continue { max_rank: 4, working_prec: u32::MAX }
    );
    assert_eq!(
        next_refinement(2, 0, 5, 9, 2, 7, u32::MAX - 3),
        Refinement::Continue { max_rank: 2, working_prec: u32::MAX }
    );
}

#[test]
fn collect_u_identity_no_rounds() {
    let b = mat(3, 3, &[5, 0, 0, 0, 5, 0, 0, 0, 5]);
    let mut rg = RecursiveGeneric::new(b);
    // The initial compression, before any round.
    rg.compression_iters.push(vec![0, 0, 0]);
    rg.collect_U();
    assert!(rg.u.is_identity(), "u should be identity");
}

#[test]
fn collect_u_single_round_preserves_product() {
    let b = mat(3, 3, &[10, 3, 7, 0, 8, 2, 0, 0, 5]);
    let mut rg = RecursiveGeneric::new(b);
    rg.compression_iters.push(vec![0, 0, 0]);
    rg.init_iter();
    rg.collect_U();
    assert!(rg.u.is_identity());
    assert!(rg.u_iters.is_empty());
    assert!(rg.compression_iters.is_empty());
}

#[test]
fn collect_u_undoes_compression_and_multiplies_in_order() {
    let b = mat(2, 2, &[1, 0, 0, 1]);
    let mut rg = RecursiveGeneric::new(b);
    // Round 0 under shifts (0, 3): entry (0, 1) is scaled by 2^3.
    rg.compression_iters.push(vec![0, 3]);
    rg.u_iters.push(mat(2, 2, &[1, 1, 0, 1]));
    // Round 1 under shifts (0, 0).
    rg.compression_iters.push(vec![0, 0]);
    rg.u_iters.push(mat(2, 2, &[1, 0, 2, 1]));
    // Shifts after the last round, unused.
    rg.compression_iters.push(vec![5, 5]);
    rg.collect_U();
    // [1 8; 0 1] * [1 0; 2 1] = [17 8; 2 1]
    let want = [17i64, 8, 2, 1];
    for i in 0..2 {
        for j in 0..2 {
            assert_eq!(rg.u.get(i, j).to_i64(), Some(want[i * 2 + j]));
        }
    }
}

#[test]
fn outer_round_cap() {
    assert_eq!(max_outer_rounds(0), 32);
    assert_eq!(max_outer_rounds(4), 32);
    assert_eq!(max_outer_rounds(16), 256);
    assert_eq!(max_outer_rounds(100), 2800);
}

#[test]
fn preprocessors_and_report() {
    let _ = Irregular::new();
    let _ = Heuristic1::new();
    let r = ReductionReport { algorithm: "lll", iterations: 3 };
    assert_eq!(r.algorithm, "lll");
    assert_eq!(r.iterations, 3);
}

/// Keys ranking columns by half the `log2` of their squared length,
/// computed from the squared length truncated to a double.
fn float_size_keys(b: &IntMatrix) -> Vec<i64> {
    let mut keys = Vec::new();
    for j in 0..b.ncols {
        let s = column_norm2(b, j);
        if s == 0 {
            keys.push(0);
        } else {
            let (d, e) = s.to_f64_exp();
            let x: f64 = (d.abs().log2() + e as f64) / 2.0;
            let bits = x.to_bits() as i64;
            keys.push(if x == 0.0 {
                0
            } else if bits < 0 {
                bits ^ i64::MAX
            } else {
                bits
            });
        }
    }
    keys
}

#[test]
fn sort_by_size_orders_columns() {
    // Columns: (3, 4) len 25, (0, 0) zero, (1, 0) len 1, (0, 0) zero,
    // (0, 5) len 25, (2, 0) len 4.
    let mut b = mat(2, 6, &[3, 0, 1, 0, 0, 2, 4, 0, 0, 0, 5, 0]);
    let keys = float_size_keys(&b);
    sort_by_size(&mut b, &keys);
    // Non-zero columns by length, ties by index: 2, 5, 0, 4; then the zero
    // columns by decreasing index: 3, 1.
    let want_top = [1i64, 2, 3, 0, 0, 0];
    let want_bottom = [0i64, 0, 4, 5, 0, 0];
    for t in 0..6 {
        assert_eq!(b.get(0, t).to_i64(), Some(want_top[t]), "column {}", t);
        assert_eq!(b.get(1, t).to_i64(), Some(want_bottom[t]), "column {}", t);
    }
}

#[test]
fn sort_by_size_ties_on_truncated_length() {
    // Squared lengths 2^108 + 2^55 + 1 and 2^108 agree once truncated to a
    // double, so the keys tie and column 0 stays first.
    let big = Integer::from(1) << 54u32;
    let mut b = IntMatrix::zeros(1, 2);
    b.set(0, 0, Integer::from(&big + 1));
    b.set(0, 1, big.clone());
    let keys = float_size_keys(&b);
    assert_eq!(keys[0], keys[1]);
    sort_by_size(&mut b, &keys);
    assert!(*b.get(0, 0) == Integer::from(&big + 1));
    assert!(*b.get(0, 1) == big);
}

#[test]
fn sort_by_size_follows_given_keys() {
    // Columns (1), (2), (0), (3) with keys 5, -1, 9, 5: column 1 first, then
    // the tie 0 before 3, then the zero column.
    let mut b = mat(1, 4, &[1, 2, 0, 3]);
    sort_by_size(&mut b, &vec![5, -1, 9, 5]);
    let want = [2i64, 1, 3, 0];
    for t in 0..4 {
        assert_eq!(b.get(0, t).to_i64(), Some(want[t]), "column {}", t);
    }
}

#[test]
fn column_norm2_is_exact() {
    let b = mat(2, 2, &[3, -7, 4, 1]);
    assert!(column_norm2(&b, 0) == 25);
    assert!(column_norm2(&b, 1) == 50);
}

#[test]
fn rounds_are_counted_by_transforms() {
    let mut rg = RecursiveGeneric::new(mat(2, 2, &[1, 0, 0, 1]));
    assert_eq!(rounds_so_far(&rg), 0);
    rg.init_iter();
    rg.init_iter();
    assert_eq!(rounds_so_far(&rg), 2);
    assert_eq!(rg.compression_iters.len(), 2);
    assert!(rg.u_iters[1].is_identity());
}

#[test]
fn initial_precision_from_entry_size() {
    // Largest entry 1000 has 10 bits: 2 * 10 + 40 = 60.
    let rg = RecursiveGeneric::new(mat(2, 2, &[1000, 0, -3, 1]));
    assert_eq!(rg.get_initial_precision(), 60);
    assert_eq!(rg.try_get_initial_precision(), Some(60));
    // Small entries: at least 53.
    let rg = RecursiveGeneric::new(mat(1, 1, &[1]));
    assert_eq!(rg.get_initial_precision(), 53);
}

fn assert_same(a: &IntMatrix, b: &IntMatrix) {
    assert_eq!((a.nrows, a.ncols), (b.nrows, b.ncols));
    for i in 0..a.nrows {
        for j in 0..a.ncols {
            assert!(*a.get(i, j) == *b.get(i, j), "entry ({}, {})", i, j);
        }
    }
}

#[test]
fn finish_refinement_applies_and_folds_transforms() {
    let m0 = mat(2, 3, &[1, 2, 3, 4, 5, 6]);
    let mut b = mat(2, 3, &[1, 2, 3, 4, 5, 6]);
    let mut u = mat(3, 3, &[1, 0, 0, 0, 1, 0, 0, 0, 1]);
    // New column 0 is old column 2, column 1 is old 0, column 2 is old 1.
    let u1 = mat(3, 3, &[0, 1, 0, 0, 0, 1, 1, 0, 0]);
    let u2 = mat(3, 3, &[1, -1, 0, 0, 1, 2, 0, 0, 1]);
    let u3 = mat(3, 3, &[0, 1, 0, 1, 0, 0, 0, 0, 1]);
    let r = finish_refinement(&mut b, &mut u, &u1, &u2, &u3, 2, 3, 64, 7);
    // b = M · u and u = u1 · u2 · u3.
    let u123 = mat_mul(&mat_mul(&u1, &u2), &u3);
    assert_same(&u, &u123);
    assert_same(&b, &mat_mul(&m0, &u));
    // After u1: (3, 6), (1, 4), (2, 5); after u2: (3, 6), (-2, -2),
    // (4, 13); u3 swaps the first two.
    let want = [[-2i64, 3, 4], [-2, 6, 13]];
    for i in 0..2 {
        for j in 0..3 {
            assert_eq!(b.get(i, j).to_i64(), Some(want[i][j]), "entry ({}, {})", i, j);
        }
    }
    // No zero vector, and 2 != max_rank 3: the rank bound becomes
    // min(2, 3) and the precision doubles.
    assert_eq!(r, Refinement::Continue { max_rank: 2, working_prec: 128 });
}

#[test]
fn finish_refinement_converges_on_zero_vector() {
    let mut b = mat(2, 3, &[1, 0, 1, 0, 1, 1]);
    let mut u = mat(3, 3, &[1, 0, 0, 0, 1, 0, 0, 0, 1]);
    let id = mat(3, 3, &[1, 0, 0, 0, 1, 0, 0, 0, 1]);
    // Column 2 loses columns 0 and 1 and becomes zero.
    let u2 = mat(3, 3, &[1, 0, -1, 0, 1, -1, 0, 0, 1]);
    let r = finish_refinement(&mut b, &mut u, &id, &u2, &id, 2, 2, 64, 7);
    assert!(*b.get(0, 2) == 0 && *b.get(1, 2) == 0);
    assert_same(&u, &u2);
    assert_eq!(r, Refinement::Converged);
}

#[test]
fn finish_refinement_rank_bound_reached() {
    let mut b = mat(1, 2, &[1, 1]);
    let mut u = mat(2, 2, &[1, 0, 0, 1]);
    let id = mat(2, 2, &[1, 0, 0, 1]);
    let r = finish_refinement(&mut b, &mut u, &id, &id, &id, 1, 1, 64, 30);
    // 1 independent vector, no zero one, rank bound 1 reached: precision
    // spread_bits + 40.
    assert_eq!(r, Refinement::Continue { max_rank: 1, working_prec: 70 });
}

#[test]
fn apply_collected_u_multiplies_outer_basis() {
    let b = mat(2, 2, &[1, 2, 3, 4]);
    let mut rg = RecursiveGeneric::new(b);
    rg.compression_iters.push(vec![0, 3]);
    rg.u_iters.push(mat(2, 2, &[1, 1, 0, 1]));
    rg.compression_iters.push(vec![0, 0]);
    rg.apply_collected_u();
    // u = [1 8; 0 1]; M · u = [1 10; 3 28].
    let want = [1i64, 10, 3, 28];
    for i in 0..2 {
        for j in 0..2 {
            assert_eq!(rg.outer_m.get(i, j).to_i64(), Some(want[i * 2 + j]));
        }
    }
    assert!(rg.u_iters.is_empty());
}

#[test]
fn block_transform_places_blocks_in_identity() {
    let ui = mat(2, 2, &[1, 3, 0, 1]);
    let ud = mat(2, 1, &[-4, 5]);
    let u = block_transform(&ui, &ud, 3);
    let want = [1i64, 3, -4, 0, 1, 5, 0, 0, 1];
    for i in 0..3 {
        for j in 0..3 {
            assert_eq!(u.get(i, j).to_i64(), Some(want[i * 3 + j]), "entry ({}, {})", i, j);
        }
    }
    // With no top-right block it is the top-left block padded by nothing.
    let u = block_transform(&ui, &IntMatrix::zeros(2, 0), 2);
    assert_same(&u, &ui);
}

#[test]
fn irregular_trivial_ranks() {
    let ir = Irregular::new();
    let mut l = Lattice::new(3, 3);
    assert_eq!(ir.solve_trivial(&l), None);
    l.rank = 1;
    assert_eq!(ir.solve_trivial(&l), Some(0));
    l.rank = 0;
    assert_eq!(ir.solve_trivial(&l), Some(0));
}
