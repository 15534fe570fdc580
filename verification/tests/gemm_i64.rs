use flatter::gemm_i64::{gemm_i64_blocked, gemm_i64_naive, gemm_i64_row_block, MC};

fn reference(a: &[i64], b: &[i64], m: usize, n: usize, k: usize) -> Vec<i64> {
    let mut c = vec![0i64; m * n];
    gemm_i64_naive(a, b, &mut c, m, n, k, false);
    c
}

#[test]
fn gemm_i64_blocked_matches_naive() {
    let (m, n, k) = (40, 50, 30);
    let a: Vec<i64> = (0..m * k).map(|i| (i as i64) * 3 - 17).collect();
    let b: Vec<i64> = (0..k * n).map(|i| (i as i64) * 5 + 11).collect();
    let r = reference(&a, &b, m, n, k);
    let mut c = vec![0i64; m * n];
    gemm_i64_blocked(&a, &b, &mut c, m, n, k, false);
    assert_eq!(r, c);
}

#[test]
fn gemm_i64_row_blocks_match_naive() {
    // Rows handled block by block on separate chunks of C, the way the
    // parallel variant splits the work.
    let (m, n, k) = (130, 97, 71);
    let a: Vec<i64> = (0..m * k).map(|i| (i as i64) - 5).collect();
    let b: Vec<i64> = (0..k * n).map(|i| -(i as i64) + 9).collect();
    let r = reference(&a, &b, m, n, k);
    let mut c = vec![0i64; m * n];
    for (block, chunk) in c.chunks_mut(MC * n).enumerate() {
        let i0 = block * MC;
        let ib = (m - i0).min(MC);
        gemm_i64_row_block(&a, &b, chunk, 0, i0, ib, m, n, k);
    }
    assert_eq!(r, c);
}

#[test]
fn naive_small_exact() {
    // [1 2; 3 4] * [5 6; 7 8] = [19 22; 43 50]
    let a = [1i64, 2, 3, 4];
    let b = [5i64, 6, 7, 8];
    let mut c = [0i64; 4];
    gemm_i64_naive(&a, &b, &mut c, 2, 2, 2, false);
    assert_eq!(c, [19, 22, 43, 50]);
    let mut c2 = [0i64; 4];
    gemm_i64_blocked(&a, &b, &mut c2, 2, 2, 2, false);
    assert_eq!(c2, [19, 22, 43, 50]);
}

#[test]
fn accumulate_adds_to_c() {
    let a = [1i64, 2, 3, 4];
    let b = [5i64, 6, 7, 8];
    let mut c = [1i64, 1, 1, 1];
    gemm_i64_naive(&a, &b, &mut c, 2, 2, 2, true);
    assert_eq!(c, [20, 23, 44, 51]);
    let mut c2 = [1i64, 1, 1, 1];
    gemm_i64_blocked(&a, &b, &mut c2, 2, 2, 2, true);
    assert_eq!(c2, [20, 23, 44, 51]);
}

#[test]
fn overwrite_ignores_old_c() {
    let a = [2i64];
    let b = [3i64];
    let mut c = [100i64];
    gemm_i64_blocked(&a, &b, &mut c, 1, 1, 1, false);
    assert_eq!(c, [6]);
}

#[test]
fn products_wrap_modulo_two_to_the_64() {
    let a = [i64::MAX, 2];
    let b = [2i64, i64::MAX];
    let mut c = [0i64];
    gemm_i64_naive(&a, &b, &mut c, 1, 1, 2, false);
    // 4 * i64::MAX = 2^65 - 4, which is -4 modulo 2^64.
    assert_eq!(c, [-4]);
    let mut c2 = [0i64];
    gemm_i64_blocked(&a, &b, &mut c2, 1, 1, 2, false);
    assert_eq!(c2, [-4]);
}

#[test]
fn empty_inner_dimension_gives_zero() {
    let a: [i64; 0] = [];
    let b: [i64; 0] = [];
    let mut c = [7i64, 7];
    gemm_i64_blocked(&a, &b, &mut c, 2, 1, 0, false);
    assert_eq!(c, [0, 0]);
    let mut c2 = [7i64, 7];
    gemm_i64_naive(&a, &b, &mut c2, 2, 1, 0, true);
    assert_eq!(c2, [7, 7]);
}

#[test]
fn row_block_leaves_other_rows() {
    let a = [1i64, 1, 1, 1];
    let b = [1i64, 1];
    let mut c = [5i64, 6, 7, 8];
    // Rows 1..3 of A into rows 1..3 of C (a 4 x 1 product, k = 1... here
    // A is 4 x 1, B is 1 x 1 with n = 1).
    gemm_i64_row_block(&a, &b[..1], &mut c, 1, 1, 2, 4, 1, 1);
    assert_eq!(c, [5, 7, 8, 8]);
}
