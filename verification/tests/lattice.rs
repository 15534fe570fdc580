use flatter::fplll::FplllError;
use flatter::lattice::{entries_fit, max_entry_bits, sub_multiple_of_col, swap_cols, try_max_entry_bits, IntMatrix, Lattice};
use rug::Integer;

fn lat_from_rows(rows: &[&[i64]]) -> Lattice {
    let nvecs = rows.len();
    let dim = rows[0].len();
    let mut l = Lattice::new(nvecs, dim);
    for j in 0..nvecs {
        for i in 0..dim {
            l.basis.set(i, j, Integer::from(rows[j][i]));
        }
    }
    l
}

#[test]
fn roundtrip_small() {
    let src = "[[1 0 0 75 47 67]\n\
               [0 1 0 72 97 59]\n\
               [0 0 1 99 9 11]\n\
               [0 0 0 116 0 0]\n\
               [0 0 0 0 116 0]\n\
               [0 0 0 0 0 116]]\n";
    let lat = Lattice::read_fplll(src.as_bytes()).unwrap();
    assert_eq!(lat.dimension(), 6);
    assert_eq!(lat.nvecs(), 6);
    assert_eq!(lat.rank, 6);
    assert!(*lat.basis.get(0, 3) == 0);
    assert_eq!(lat.basis.get(3, 3).to_i64().unwrap(), 116);

    let out = lat.to_string();
    let lat2 = Lattice::read_fplll(out.as_bytes()).unwrap();
    assert_eq!(lat2.dimension(), lat.dimension());
    for i in 0..lat.basis.nrows {
        for j in 0..lat.basis.ncols {
            assert_eq!(lat.basis.get(i, j), lat2.basis.get(i, j));
        }
    }
}

#[test]
fn read_transposes_rows_into_columns() {
    let lat = Lattice::read_fplll(b"[[1 2 3]\n[4 5 6]]").unwrap();
    assert_eq!(lat.dimension(), 3);
    assert_eq!(lat.nvecs(), 2);
    assert_eq!(lat.rank, 2);
    assert_eq!(lat.basis.get(0, 1).to_i64(), Some(4));
    assert_eq!(lat.basis.get(2, 0).to_i64(), Some(3));
    assert_eq!(lat.basis.get(2, 1).to_i64(), Some(6));
}

#[test]
fn write_exact_text() {
    let lat = lat_from_rows(&[&[1, -2], &[30, 0]]);
    assert_eq!(lat.to_string(), "[[1 -2]\n[30 0]\n]\n");
    assert_eq!(lat.fplll_bytes(), b"[[1 -2]\n[30 0]\n]\n".to_vec());
}

#[test]
fn write_only_rank_vectors() {
    let mut lat = lat_from_rows(&[&[1, 2], &[3, 4]]);
    lat.rank = 1;
    assert_eq!(lat.to_string(), "[[1 2]\n]\n");
}

#[test]
fn roundtrip_big_and_negative_entries() {
    let big = Integer::from(1u64) << 130;
    let mut lat = Lattice::new(2, 2);
    lat.basis.set(0, 0, Integer::from(-&big));
    lat.basis.set(1, 0, Integer::from(7));
    lat.basis.set(0, 1, Integer::from(0));
    lat.basis.set(1, 1, Integer::from(&big + 1));
    let text = lat.fplll_bytes();
    let back = Lattice::read_fplll(&text).unwrap();
    assert_eq!(back.rank, 2);
    for i in 0..2 {
        for j in 0..2 {
            assert_eq!(back.basis.get(i, j), lat.basis.get(i, j));
        }
    }
}

#[test]
fn literals_in_other_bases() {
    let lat = Lattice::read_fplll(b" [ [0x1F -0x10 017 -010 09 0 -0 +5 1_000] ] trailing").unwrap();
    let want = [31i64, -16, 15, -8, 9, 0, 0, 5, 1000];
    assert_eq!(lat.dimension(), want.len());
    for (i, w) in want.iter().enumerate() {
        assert_eq!(lat.basis.get(i, 0).to_i64(), Some(*w), "entry {}", i);
    }
}

#[test]
fn whitespace_between_and_inside_blocks() {
    let lat = Lattice::read_fplll(b"\r\n\t[\n[1\t2\x0c3]\r\n [4 5 6 ]\n]").unwrap();
    assert_eq!(lat.nvecs(), 2);
    assert_eq!(lat.basis.get(1, 1).to_i64(), Some(5));
}

#[test]
fn empty_lattice() {
    let lat = Lattice::read_fplll(b"[]").unwrap();
    assert_eq!(lat.dimension(), 0);
    assert_eq!(lat.nvecs(), 0);
    assert_eq!(lat.rank, 0);
    let lat = Lattice::read_fplll(b"[[][]]").unwrap();
    assert_eq!(lat.dimension(), 0);
    assert_eq!(lat.nvecs(), 0);
    assert_eq!(lat.to_string(), "[]\n");
}

#[test]
fn error_expected_open() {
    assert_eq!(Lattice::read_fplll(b"  1 2").unwrap_err(), FplllError::ExpectedOpen);
    assert_eq!(Lattice::read_fplll(b"").unwrap_err(), FplllError::ExpectedOpen);
}

#[test]
fn error_unterminated_lattice() {
    assert_eq!(Lattice::read_fplll(b"[[1 2]").unwrap_err(), FplllError::UnterminatedLattice);
    assert_eq!(Lattice::read_fplll(b"[ \n").unwrap_err(), FplllError::UnterminatedLattice);
}

#[test]
fn error_expected_row_open() {
    assert_eq!(Lattice::read_fplll(b"[[1 2] 3]").unwrap_err(), FplllError::ExpectedRowOpen);
}

#[test]
fn error_unterminated_row() {
    assert_eq!(Lattice::read_fplll(b"[[1 2").unwrap_err(), FplllError::UnterminatedRow);
}

#[test]
fn error_bad_integer_span() {
    let text = b"[[1 2x 3]]";
    match Lattice::read_fplll(text).unwrap_err() {
        FplllError::BadInteger { start, end } => {
            assert_eq!(&text[start..end], b"2x");
        }
        e => panic!("unexpected {:?}", e),
    }
    assert_eq!(
        Lattice::read_fplll(b"[[0x]]").unwrap_err(),
        FplllError::BadInteger { start: 2, end: 4 }
    );
    assert_eq!(
        Lattice::read_fplll(b"[[--1]]").unwrap_err(),
        FplllError::BadInteger { start: 2, end: 5 }
    );
}

#[test]
fn error_inconsistent_widths() {
    assert_eq!(Lattice::read_fplll(b"[[1 2][3]]").unwrap_err(), FplllError::InconsistentRowWidths);
}

#[test]
fn new_resize_and_sizes() {
    let mut l = Lattice::new(3, 5);
    assert_eq!(l.dimension(), 5);
    assert_eq!(l.nvecs(), 3);
    assert_eq!(l.rank, 3);
    assert!(*l.basis.get(4, 2) == 0);
    l.resize(4, 2);
    assert_eq!(l.dimension(), 2);
    assert_eq!(l.nvecs(), 4);
    assert_eq!(l.rank, 2);
}

#[test]
fn update_rank_trims_trailing_zero_vectors() {
    // A zero vector in the middle is not trailing: the rank stays.
    let mut l = lat_from_rows(&[&[1, 0, 0], &[0, 0, 0], &[0, 0, 2]]);
    l.update_rank();
    assert_eq!(l.rank, 3);
    let mut l = lat_from_rows(&[&[1, 0, 0], &[0, 3, 0], &[0, 0, 2]]);
    l.rank = 2;
    l.update_rank();
    assert_eq!(l.rank, 2);
    // A trailing zero vector past the current rank still sets the rank.
    let mut l = lat_from_rows(&[&[1, 0, 0], &[0, 3, 0], &[0, 0, 0]]);
    l.rank = 1;
    l.update_rank();
    assert_eq!(l.rank, 2);
    // Two trailing zero vectors.
    let mut l = lat_from_rows(&[&[1, 0, 0], &[0, 0, 0], &[0, 0, 0]]);
    l.update_rank();
    assert_eq!(l.rank, 1);
    // All zero.
    let mut l = lat_from_rows(&[&[0, 0], &[0, 0]]);
    l.update_rank();
    assert_eq!(l.rank, 0);
    // Capped at the dimension.
    let mut l = lat_from_rows(&[&[1], &[2], &[3]]);
    l.rank = 1;
    l.update_rank();
    assert_eq!(l.rank, 1);
}

#[test]
fn max_entry_bits_values() {
    let l = lat_from_rows(&[&[0, -8], &[7, 1]]);
    assert_eq!(max_entry_bits(&l.basis), 4);
    let z = IntMatrix::zeros(2, 2);
    assert_eq!(max_entry_bits(&z), 0);
}

#[test]
fn swap_and_subtract_columns() {
    let mut l = lat_from_rows(&[&[1, 2], &[3, 4], &[5, 6]]);
    swap_cols(&mut l, 0, 2);
    assert_eq!(l.basis.get(0, 0).to_i64(), Some(5));
    assert_eq!(l.basis.get(1, 2).to_i64(), Some(2));
    assert_eq!(l.basis.get(0, 1).to_i64(), Some(3));
    sub_multiple_of_col(&mut l.basis, 1, 0, &Integer::from(2));
    // column 1 was (3, 4); minus 2 * (5, 6).
    assert_eq!(l.basis.get(0, 1).to_i64(), Some(-7));
    assert_eq!(l.basis.get(1, 1).to_i64(), Some(-8));
    assert_eq!(l.basis.get(0, 0).to_i64(), Some(5));
}

#[test]
fn int_matrix_shape_queries() {
    let mut m = IntMatrix::zeros(3, 3);
    assert!(m.is_upper_triangular());
    assert!(!m.is_identity());
    m.set_identity();
    assert!(m.is_identity());
    m.set(0, 2, Integer::from(9));
    assert!(m.is_upper_triangular());
    assert!(!m.is_identity());
    m.set(2, 0, Integer::from(1));
    assert!(!m.is_upper_triangular());
    let r = IntMatrix::zeros(2, 3);
    assert!(!r.is_identity());
}

#[test]
fn submatrix_and_copy_back() {
    let mut m = IntMatrix::zeros(3, 4);
    for i in 0..3 {
        for j in 0..4 {
            m.set(i, j, Integer::from((10 * i + j) as i64));
        }
    }
    let s = m.submatrix(1, 3, 2, 4);
    assert_eq!(s.nrows, 2);
    assert_eq!(s.ncols, 2);
    assert_eq!(s.get(0, 0).to_i64(), Some(12));
    assert_eq!(s.get(1, 1).to_i64(), Some(23));
    let mut z = IntMatrix::zeros(3, 4);
    z.copy_submatrix_from(0, 1, &s);
    assert_eq!(z.get(0, 1).to_i64(), Some(12));
    assert_eq!(z.get(1, 2).to_i64(), Some(23));
    assert!(*z.get(2, 3) == 0);
}

#[test]
fn get_mut_writes_one_entry() {
    let mut m = IntMatrix::zeros(2, 2);
    *m.get_mut(1, 0) = Integer::from(42);
    assert_eq!(m.get(1, 0).to_i64(), Some(42));
    assert_eq!(*m.get(0, 1), 0);
    assert_eq!(*m.get(1, 1), 0);
}

#[test]
fn default_is_empty() {
    let m = IntMatrix::default();
    assert_eq!((m.nrows, m.ncols, m.data.len()), (0, 0, 0));
    let l = Lattice::default();
    assert_eq!((l.basis.nrows, l.basis.ncols, l.rank), (0, 0, 0));
}

#[test]
fn try_max_entry_bits_checks_the_bound() {
    let l = lat_from_rows(&[&[0, -8], &[7, 1]]);
    assert_eq!(try_max_entry_bits(&l.basis), Some(4));
    assert!(entries_fit(&l.basis));
    assert_eq!(try_max_entry_bits(&IntMatrix::zeros(0, 0)), Some(0));
}
