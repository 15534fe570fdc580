use flatter::lattice::IntMatrix;
use flatter::math::mat_mul::{mat_mul, mat_mul_inplace_square};
use flatter::math::rsr::RsrTriangular;
use flatter::math::size_reduction::size_reduce;
use rug::Integer;

fn make(n: usize, vals: &[i64]) -> IntMatrix {
    let mut m = IntMatrix::zeros(n, n);
    for i in 0..n {
        for j in 0..n {
            m.set(i, j, Integer::from(vals[i * n + j]));
        }
    }
    m
}

#[test]
fn identity_matmul() {
    let n = 3;
    let mut i3 = IntMatrix::zeros(n, n);
    for i in 0..n {
        i3.set(i, i, Integer::from(1));
    }
    let b = make(n, &[1, 2, 3, 4, 5, 6, 7, 8, 9]);
    let c = mat_mul(&i3, &b);
    for i in 0..n {
        for j in 0..n {
            assert_eq!(c.get(i, j), b.get(i, j));
        }
    }
}

#[test]
fn inplace_matches_fresh() {
    let a = make(3, &[1, 2, 3, 4, 5, 6, 7, 8, 9]);
    let b = make(3, &[9, 8, 7, 6, 5, 4, 3, 2, 1]);
    let c = mat_mul(&a, &b);
    let mut a2 = a.clone();
    mat_mul_inplace_square(&mut a2, &b);
    for i in 0..3 {
        for j in 0..3 {
            assert_eq!(c.get(i, j), a2.get(i, j), "row {} col {}", i, j);
        }
    }
}

#[test]
fn matmul_big_entries() {
    let base: Integer = Integer::from(1u64) << 200;
    let mut a = IntMatrix::zeros(2, 2);
    a.set(0, 0, base.clone());
    a.set(0, 1, Integer::from(3));
    a.set(1, 0, Integer::from(5));
    a.set(1, 1, base.clone());
    let c = mat_mul(&a, &a);
    let expected = Integer::from(&base * &base) + 15;
    assert_eq!(c.get(0, 0), &expected);
}

#[test]
fn matmul_rectangular_values() {
    // [1 2 3; 4 5 6] * [7 8; 9 10; 11 12] = [58 64; 139 154]
    let mut a = IntMatrix::zeros(2, 3);
    let mut b = IntMatrix::zeros(3, 2);
    for (t, v) in [1, 2, 3, 4, 5, 6].iter().enumerate() {
        a.set(t / 3, t % 3, Integer::from(*v));
    }
    for (t, v) in [7, 8, 9, 10, 11, 12].iter().enumerate() {
        b.set(t / 2, t % 2, Integer::from(*v));
    }
    let c = mat_mul(&a, &b);
    assert_eq!(c.nrows, 2);
    assert_eq!(c.ncols, 2);
    assert_eq!(c.get(0, 0).to_i64(), Some(58));
    assert_eq!(c.get(0, 1).to_i64(), Some(64));
    assert_eq!(c.get(1, 0).to_i64(), Some(139));
    assert_eq!(c.get(1, 1).to_i64(), Some(154));
}

#[test]
fn size_reduce_upper_triangular() {
    let mut r = IntMatrix::zeros(3, 3);
    r.set(0, 0, Integer::from(10));
    r.set(0, 1, Integer::from(23));
    r.set(0, 2, Integer::from(4));
    r.set(1, 1, Integer::from(7));
    r.set(1, 2, Integer::from(9));
    r.set(2, 2, Integer::from(5));
    let mut u = IntMatrix::zeros(3, 3);
    size_reduce(&mut r, &mut u);

    for i in 0..3 {
        for j in 0..i {
            let v = r.get(j, i).to_i64().unwrap().abs();
            let d = r.get(j, j).to_i64().unwrap().abs();
            assert!(v * 2 <= d, "|R[{},{}]|={} > |R[{},{}]|/2", j, i, v, j, j);
        }
    }
    let det = r.get(0, 0).to_i64().unwrap() * r.get(1, 1).to_i64().unwrap() * r.get(2, 2).to_i64().unwrap();
    assert_eq!(det.abs(), 350);
}

#[test]
fn size_reduce_product_and_exact_values() {
    // R = [[10, 23], [0, 7]]: mu = round(23 / 10) = 2, so R[0, 1] = 3 and
    // U = [[1, -2], [0, 1]]; R_new = R_old * U.
    let mut r = IntMatrix::zeros(2, 2);
    r.set(0, 0, Integer::from(10));
    r.set(0, 1, Integer::from(23));
    r.set(1, 1, Integer::from(7));
    let r_old = r.clone();
    let mut u = IntMatrix::zeros(2, 2);
    size_reduce(&mut r, &mut u);
    assert_eq!(r.get(0, 1).to_i64(), Some(3));
    assert_eq!(u.get(0, 0).to_i64(), Some(1));
    assert_eq!(u.get(0, 1).to_i64(), Some(-2));
    assert_eq!(u.get(1, 0).to_i64(), Some(0));
    assert_eq!(u.get(1, 1).to_i64(), Some(1));
    let p = mat_mul(&r_old, &u);
    for i in 0..2 {
        for j in 0..2 {
            assert_eq!(p.get(i, j), r.get(i, j));
        }
    }
}

#[test]
fn size_reduce_half_rounds_up() {
    // R[0, 1] = 5 against R[0, 0] = 10: 5/10 rounds to 1, leaving -5.
    let mut r = IntMatrix::zeros(2, 2);
    r.set(0, 0, Integer::from(10));
    r.set(0, 1, Integer::from(5));
    r.set(1, 1, Integer::from(3));
    let mut u = IntMatrix::zeros(2, 2);
    size_reduce(&mut r, &mut u);
    assert_eq!(r.get(0, 1).to_i64(), Some(-5));
    assert_eq!(u.get(0, 1).to_i64(), Some(-1));
}

#[test]
fn size_reduce_skips_zero_diagonal() {
    let mut r = IntMatrix::zeros(2, 2);
    r.set(0, 1, Integer::from(17));
    r.set(1, 1, Integer::from(3));
    let mut u = IntMatrix::zeros(2, 2);
    size_reduce(&mut r, &mut u);
    assert_eq!(r.get(0, 1).to_i64(), Some(17));
    assert!(u.is_identity());
}

#[test]
fn triangular_size_reduces() {
    let mut b1 = IntMatrix::zeros(2, 2);
    b1.set(0, 0, Integer::from(10));
    b1.set(1, 1, Integer::from(7));
    let mut b2 = IntMatrix::zeros(2, 1);
    b2.set(0, 0, Integer::from(13));
    b2.set(1, 0, Integer::from(5));
    let mut u = IntMatrix::zeros(2, 1);

    let mut rsr = RsrTriangular::new(&b1, &mut b2, &mut u);
    rsr.solve();

    assert_eq!(b2.get(0, 0).to_i64().unwrap(), 3);
    assert_eq!(b2.get(1, 0).to_i64().unwrap(), -2);

    for j in 0..b2.ncols {
        for i in 0..b2.nrows {
            let v = b2.get(i, j).to_i64().unwrap().abs();
            let d = b1.get(i, i).to_i64().unwrap().abs();
            assert!(v * 2 <= d, "|b2[{},{}]|={} > |b1[{},{}]|/2={}", i, j, v, i, i, d / 2);
        }
    }
}

#[test]
fn triangular_records_negated_multiples() {
    // Same system: the multiples are 1 (row 1) and 1 (row 0).
    let mut b1 = IntMatrix::zeros(2, 2);
    b1.set(0, 0, Integer::from(10));
    b1.set(1, 1, Integer::from(7));
    let mut b2 = IntMatrix::zeros(2, 1);
    b2.set(0, 0, Integer::from(13));
    b2.set(1, 0, Integer::from(5));
    let mut u = IntMatrix::zeros(2, 1);
    let mut rsr = RsrTriangular::new(&b1, &mut b2, &mut u);
    rsr.solve();
    assert_eq!(u.get(0, 0).to_i64(), Some(-1));
    assert_eq!(u.get(1, 0).to_i64(), Some(-1));
}

#[test]
fn triangular_shift_scales_rows() {
    // With new_shift = 1 the reduced entries 3 and -2 come out as
    // floor(3 / 2) = 1 and floor(-2 / 2) = -1; with -1 they double.
    let mut b1 = IntMatrix::zeros(2, 2);
    b1.set(0, 0, Integer::from(10));
    b1.set(1, 1, Integer::from(7));
    for (shift, e0, e1) in [(1i32, 1i64, -1i64), (-1, 6, -4)] {
        let mut b2 = IntMatrix::zeros(2, 1);
        b2.set(0, 0, Integer::from(13));
        b2.set(1, 0, Integer::from(5));
        let mut u = IntMatrix::zeros(2, 1);
        let mut rsr = RsrTriangular::new(&b1, &mut b2, &mut u);
        rsr.new_shift = shift;
        rsr.solve();
        assert_eq!(b2.get(0, 0).to_i64(), Some(e0));
        assert_eq!(b2.get(1, 0).to_i64(), Some(e1));
    }
}

#[test]
fn triangular_zero_diagonal_row_untouched() {
    // Row 1 has a zero diagonal entry: nothing is subtracted there and
    // the shift is not applied to it.
    let mut b1 = IntMatrix::zeros(2, 2);
    b1.set(0, 0, Integer::from(10));
    let mut b2 = IntMatrix::zeros(2, 1);
    b2.set(0, 0, Integer::from(13));
    b2.set(1, 0, Integer::from(5));
    let mut u = IntMatrix::zeros(2, 1);
    let mut rsr = RsrTriangular::new(&b1, &mut b2, &mut u);
    rsr.new_shift = 1;
    rsr.solve();
    assert_eq!(b2.get(1, 0).to_i64(), Some(5));
    assert_eq!(b2.get(0, 0).to_i64(), Some(1));
    assert_eq!(u.get(1, 0).to_i64(), Some(0));
    assert_eq!(u.get(0, 0).to_i64(), Some(-1));
}
