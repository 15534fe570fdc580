//! The FPLLL text format for lattice bases.
//!
//! A basis is written as `[` followed by one `[...]` block per basis
//! vector and a closing `]`. Inside a block, the coordinates are integer
//! literals separated by ASCII whitespace; a literal is decimal, hexadecimal
//! after `0x`/`0X`, or octal after a leading `0`, with an optional leading
//! minus sign. Whitespace between blocks is skipped and anything after the
//! closing `]` is ignored. All blocks must have the same length; the basis
//! matrix holds block `j` as its column `j`.

use crate::integer::{integer_value, int_clone, int_parse_radix, int_to_dec, parsed_in_radix, radix_scan, dec_digits, dec_text};
use crate::lattice::{IntMatrix, Lattice};
use rug::Integer;
use vstd::prelude::*;

verus! {

/// Why a text is not a basis in FPLLL format.
#[derive(PartialEq, Eq, Structural, Debug, Clone, Copy)]
pub enum FplllError {
    /// The text does not start with `[`.
    ExpectedOpen,
    /// The text ends before the closing `]`.
    UnterminatedLattice,
    /// A basis vector does not start with `[`.
    ExpectedRowOpen,
    /// A basis vector has no closing `]`.
    UnterminatedRow,
    /// The literal at bytes `start..end` is not an integer.
    BadInteger { start: usize, end: usize },
    /// The basis vectors have different lengths.
    InconsistentRowWidths,
}

/// The whitespace skipped between blocks: space, tab, carriage return and
/// line feed.
pub open spec fn is_block_space(b: u8) -> bool {
    b == 0x20 || b == 0x09 || b == 0x0d || b == 0x0a
}

/// The whitespace that separates literals: space, tab, line feed, form
/// feed and carriage return.
pub open spec fn is_literal_space(b: u8) -> bool {
    b == 0x20 || b == 0x09 || b == 0x0a || b == 0x0c || b == 0x0d
}

/// The first position at or after `i` that is not block whitespace.
pub open spec fn skip_space(s: Seq<u8>, i: int) -> int
    decreases s.len() - i,
{
    if i >= s.len() || !is_block_space(s[i]) {
        i
    } else {
        skip_space(s, i + 1)
    }
}

/// The first position at or after `i` that holds `]`, or the end.
pub open spec fn find_close(s: Seq<u8>, i: int) -> int
    decreases s.len() - i,
{
    if i >= s.len() || s[i] == 0x5d {
        i
    } else {
        find_close(s, i + 1)
    }
}

/// The end of the literal that starts at `i`: the first whitespace at or
/// after `i`, or `end`.
pub open spec fn literal_end(s: Seq<u8>, i: int, end: int) -> int
    decreases end - i,
{
    if i >= end || is_literal_space(s[i]) {
        i
    } else {
        literal_end(s, i + 1, end)
    }
}

/// All bytes of `t` are octal digits.
pub open spec fn all_octal(t: Seq<u8>) -> bool {
    forall|x: int| 0 <= x < t.len() ==> 0x30 <= #[trigger] t[x] <= 0x37
}

/// `t` begins with `0x` or `0X`.
pub open spec fn has_hex_prefix(t: Seq<u8>) -> bool {
    t.len() >= 2 && t[0] == 0x30 && (t[1] == 0x78 || t[1] == 0x58)
}

/// `t` is a `0` followed by at least one octal digit.
pub open spec fn has_octal_prefix(t: Seq<u8>) -> bool {
    t.len() > 1 && t[0] == 0x30 && all_octal(t.subrange(1, t.len() as int))
}

/// The value of a literal: after an optional minus sign, `0x`/`0X` selects
/// base 16, a leading `0` before octal digits selects base 8, and base 10
/// is the default; the rest is read by `parsed_in_radix`.
pub open spec fn literal_value(tok: Seq<u8>) -> Option<int> {
    let neg = tok.len() > 0 && tok[0] == 0x2d;
    let rest = if neg {
        tok.subrange(1, tok.len() as int)
    } else {
        tok
    };
    let radix: int = if has_hex_prefix(rest) {
        16
    } else if has_octal_prefix(rest) {
        8
    } else {
        10
    };
    let digits = if has_hex_prefix(rest) {
        rest.subrange(2, rest.len() as int)
    } else if has_octal_prefix(rest) {
        rest.subrange(1, rest.len() as int)
    } else {
        rest
    };
    parsed_in_radix(if neg { seq![0x2du8] + digits } else { digits }, radix)
}

/// `done` followed by the values in `rest`, or the error in `rest`.
pub open spec fn prepend<T, E>(done: Seq<T>, rest: Result<Seq<T>, E>) -> Result<Seq<T>, E> {
    match rest {
        Ok(r) => Ok(done + r),
        Err(e) => Err(e),
    }
}

/// The values of the literals in `s[i..end]`, or the span of the first
/// literal that is not an integer.
pub open spec fn row_values(s: Seq<u8>, i: int, end: int) -> Result<Seq<int>, (int, int)>
    decreases end - i,
{
    if i >= end {
        Ok(seq![])
    } else if is_literal_space(s[i]) {
        row_values(s, i + 1, end)
    } else {
        let e = literal_end(s, i + 1, end);
        match literal_value(s.subrange(i, e)) {
            None => Err((i, e)),
            Some(v) => {
                proof {
                    lemma_literal_end_bounds(s, i + 1, end);
                }
                prepend(seq![v], row_values(s, e, end))
            },
        }
    }
}

/// `skip_space` and `find_close` never move backwards, nor past the end.
pub proof fn lemma_scan_bounds(s: Seq<u8>, i: int)
    ensures
        skip_space(s, i) >= i,
        find_close(s, i) >= i,
        i <= s.len() ==> skip_space(s, i) <= s.len() && find_close(s, i) <= s.len(),
    decreases s.len() - i,
{
    if i < s.len() {
        lemma_scan_bounds(s, i + 1);
    }
}

/// `literal_end` stays within `i..=end`.
pub proof fn lemma_literal_end_bounds(s: Seq<u8>, i: int, end: int)
    requires
        i <= end,
    ensures
        i <= literal_end(s, i, end) <= end,
    decreases end - i,
{
    if i < end {
        lemma_literal_end_bounds(s, i + 1, end);
    }
}

/// The basis vectors written from position `i` on (just after the opening
/// `[` of the basis, or after a vector's closing `]`).
pub open spec fn rows_from(s: Seq<u8>, i: int) -> Result<Seq<Seq<int>>, FplllError>
    decreases s.len() - i,
{
    let p = skip_space(s, i);
    if i < 0 || i > s.len() {
        Err(FplllError::UnterminatedLattice)
    } else if p >= s.len() {
        Err(FplllError::UnterminatedLattice)
    } else if s[p] == 0x5d {
        Ok(seq![])
    } else if s[p] != 0x5b {
        Err(FplllError::ExpectedRowOpen)
    } else {
        let q = find_close(s, p + 1);
        if q >= s.len() {
            Err(FplllError::UnterminatedRow)
        } else {
            match row_values(s, p + 1, q) {
                Err((a, b)) => Err(FplllError::BadInteger { start: a as usize, end: b as usize }),
                Ok(row) => {
                    proof {
                        lemma_scan_bounds(s, i);
                        lemma_scan_bounds(s, p + 1);
                    }
                    prepend(seq![row], rows_from(s, q + 1))
                },
            }
        }
    }
}

/// The basis vectors of a text in FPLLL format, in order.
pub open spec fn fplll_rows(s: Seq<u8>) -> Result<Seq<Seq<int>>, FplllError> {
    let p = skip_space(s, 0);
    if p >= s.len() || s[p] != 0x5b {
        Err(FplllError::ExpectedOpen)
    } else {
        rows_from(s, p + 1)
    }
}

/// Some basis vector has a length other than the first one's.
pub open spec fn ragged(rows: Seq<Seq<int>>) -> bool {
    exists|j: int| 0 <= j < rows.len() && #[trigger] rows[j].len() != rows[0].len()
}

/// `l` is the lattice that the vectors `rows` (all of one length) make:
/// vector `j` is column `j` of the basis, and the rank is the smaller of
/// the two sizes; no vectors, or vectors of length zero, make the empty
/// lattice.
pub open spec fn lattice_of_rows(l: Lattice, rows: Seq<Seq<int>>) -> bool {
    if rows.len() == 0 || rows[0].len() == 0 {
        l.basis.nrows == 0 && l.basis.ncols == 0 && l.rank == 0
    } else {
        &&& l.basis.nrows == rows[0].len()
        &&& l.basis.ncols == rows.len()
        &&& l.rank == if rows[0].len() < rows.len() { rows[0].len() } else { rows.len() }
        &&& forall|i: int, j: int| 0 <= i < l.basis.nrows && 0 <= j < l.basis.ncols ==> #[trigger] l.basis.at(i, j) == rows[j][i]
    }
}

/// What reading `s` gives: the error the text has, or the lattice of its
/// basis vectors.
pub open spec fn read_result(s: Seq<u8>, r: Result<Lattice, FplllError>) -> bool {
    match fplll_rows(s) {
        Err(e) => r == Err::<Lattice, FplllError>(e),
        Ok(rows) => if ragged(rows) {
            r == Err::<Lattice, FplllError>(FplllError::InconsistentRowWidths)
        } else {
            r matches Ok(l) && l.wf() && lattice_of_rows(l, rows)
        },
    }
}

/// Values of a sequence of integers.
pub open spec fn values(v: Seq<Integer>) -> Seq<int> {
    v.map_values(|x: Integer| integer_value(x))
}

fn skip_space_exec(s: &[u8], i: usize) -> (r: usize)
    requires
        i <= s@.len(),
    ensures
        r == skip_space(s@, i as int),
{
    let mut p = i;
    while p < s.len() && (s[p] == 0x20 || s[p] == 0x09 || s[p] == 0x0d || s[p] == 0x0a)
        invariant
            i <= p <= s@.len(),
            skip_space(s@, p as int) == skip_space(s@, i as int),
        decreases s@.len() - p,
    {
        p = p + 1;
    }
    p
}

fn find_close_exec(s: &[u8], i: usize) -> (r: usize)
    requires
        i <= s@.len(),
    ensures
        r == find_close(s@, i as int),
{
    let mut p = i;
    while p < s.len() && s[p] != 0x5d
        invariant
            i <= p <= s@.len(),
            find_close(s@, p as int) == find_close(s@, i as int),
        decreases s@.len() - p,
    {
        p = p + 1;
    }
    p
}

fn literal_end_exec(s: &[u8], i: usize, end: usize) -> (r: usize)
    requires
        i <= end <= s@.len(),
    ensures
        r == literal_end(s@, i as int, end as int),
{
    let mut p = i;
    while p < end && !(s[p] == 0x20 || s[p] == 0x09 || s[p] == 0x0a || s[p] == 0x0c || s[p] == 0x0d)
        invariant
            i <= p <= end,
            end <= s@.len(),
            literal_end(s@, p as int, end as int) == literal_end(s@, i as int, end as int),
        decreases end - p,
    {
        p = p + 1;
    }
    p
}

/// The value of the literal `s[start..end]`, if it is an integer.
fn parse_literal(s: &[u8], start: usize, end: usize) -> (r: Option<Integer>)
    requires
        start <= end <= s@.len(),
    ensures
        match r {
            Some(v) => literal_value(s@.subrange(start as int, end as int)) == Some(integer_value(v)),
            None => literal_value(s@.subrange(start as int, end as int)) is None,
        },
{
    let ghost tok = s@.subrange(start as int, end as int);
    let neg = start < end && s[start] == 0x2d;
    let rs = if neg {
        start + 1
    } else {
        start
    };
    let ghost rest = s@.subrange(rs as int, end as int);
    proof {
        assert(rest =~= if neg { tok.subrange(1, tok.len() as int) } else { tok });
    }
    let hex = end - rs >= 2 && s[rs] == 0x30 && (s[rs + 1] == 0x78 || s[rs + 1] == 0x58);
    let mut oct = false;
    if !hex && end - rs > 1 && s[rs] == 0x30 {
        oct = true;
        let mut t = rs + 1;
        while t < end
            invariant
                rs + 1 <= t <= end,
                end <= s@.len(),
                oct <==> forall|x: int| rs + 1 <= x < t ==> 0x30 <= #[trigger] s@[x] <= 0x37,
            decreases end - t,
        {
            if !(0x30 <= s[t] && s[t] <= 0x37) {
                oct = false;
            }
            t = t + 1;
        }
        proof {
            let o = rest.subrange(1, rest.len() as int);
            if oct {
                assert forall|x: int| 0 <= x < o.len() implies 0x30 <= #[trigger] o[x] <= 0x37 by {
                    assert(o[x] == s@[rs + 1 + x]);
                }
            } else {
                let x = choose|x: int| rs + 1 <= x < end && !(0x30 <= #[trigger] s@[x] <= 0x37);
                assert(o[x - rs - 1] == s@[x]);
            }
        }
    }
    proof {
        assert(hex == has_hex_prefix(rest));
        assert(oct == (!has_hex_prefix(rest) && has_octal_prefix(rest)));
    }
    let radix: i32 = if hex {
        16
    } else if oct {
        8
    } else {
        10
    };
    let ds = if hex {
        rs + 2
    } else if oct {
        rs + 1
    } else {
        rs
    };
    let mut text: Vec<u8> = Vec::new();
    if neg {
        text.push(0x2d);
    }
    let mut t = ds;
    while t < end
        invariant
            ds <= t <= end,
            end <= s@.len(),
            text@ == (if neg { seq![0x2du8] } else { seq![] }) + s@.subrange(ds as int, t as int),
        decreases end - t,
    {
        text.push(s[t]);
        t = t + 1;
    }
    proof {
        let digits = if has_hex_prefix(rest) {
            rest.subrange(2, rest.len() as int)
        } else if has_octal_prefix(rest) {
            rest.subrange(1, rest.len() as int)
        } else {
            rest
        };
        assert(digits =~= s@.subrange(ds as int, end as int));
        assert(text@ =~= if neg { seq![0x2du8] + digits } else { digits });
    }
    int_parse_radix(text.as_slice(), radix)
}

/// The values of the literals in `s[start..end]`, or the span of the first
/// one that is not an integer.
fn parse_row(s: &[u8], start: usize, end: usize) -> (r: Result<Vec<Integer>, (usize, usize)>)
    requires
        start <= end <= s@.len(),
    ensures
        match r {
            Ok(v) => row_values(s@, start as int, end as int) == Ok::<Seq<int>, (int, int)>(values(v@)),
            Err((a, b)) => row_values(s@, start as int, end as int) == Err::<Seq<int>, (int, int)>((a as int, b as int)),
        },
        r matches Ok(v) ==> v@.len() <= end - start,
{
    let mut row: Vec<Integer> = Vec::new();
    let mut i = start;
    while i < end
        invariant
            start <= i <= end,
            end <= s@.len(),
            row@.len() <= i - start,
            row_values(s@, start as int, end as int) == prepend(values(row@), row_values(s@, i as int, end as int)),
        decreases end - i,
    {
        if s[i] == 0x20 || s[i] == 0x09 || s[i] == 0x0a || s[i] == 0x0c || s[i] == 0x0d {
            i = i + 1;
        } else {
            let e = literal_end_exec(s, i + 1, end);
            proof {
                lemma_literal_end_bounds(s@, i + 1, end as int);
            }
            match parse_literal(s, i, e) {
                None => {
                    return Err((i, e));
                },
                Some(v) => {
                    let ghost before = values(row@);
                    row.push(v);
                    proof {
                        assert(values(row@) =~= before + seq![integer_value(v)]);
                        match row_values(s@, e as int, end as int) {
                            Ok(rest) => {
                                assert(before + (seq![integer_value(v)] + rest) =~= values(row@) + rest);
                            },
                            Err(_) => {},
                        }
                    }
                    i = e;
                },
            }
        }
    }
    proof {
        assert(values(row@) + seq![] =~= values(row@));
    }
    Ok(row)
}

/// Values of a sequence of integer vectors.
pub open spec fn rows_values(rows: Seq<Vec<Integer>>) -> Seq<Seq<int>> {
    rows.map_values(|v: Vec<Integer>| values(v@))
}

/// Total number of entries in `rows`.
pub open spec fn total_len(rows: Seq<Seq<int>>) -> int
    decreases rows.len(),
{
    if rows.len() == 0 {
        0
    } else {
        total_len(rows.drop_last()) + rows.last().len()
    }
}

/// Vectors of one length `w` hold `rows.len() · w` entries in all.
proof fn lemma_total_len_uniform(rows: Seq<Seq<int>>, w: int)
    requires
        forall|j: int| 0 <= j < rows.len() ==> #[trigger] rows[j].len() == w,
    ensures
        total_len(rows) == rows.len() * w,
    decreases rows.len(),
{
    if rows.len() > 0 {
        let d = rows.drop_last();
        assert forall|j: int| 0 <= j < d.len() implies #[trigger] d[j].len() == w by {
            assert(d[j] == rows[j]);
        }
        lemma_total_len_uniform(d, w);
        assert(rows.len() * w == (rows.len() - 1) * w + w) by (nonlinear_arith);
    }
}

impl Lattice {
    /// Read a basis in FPLLL format from the bytes of a text.
    pub fn read_fplll(text: &[u8]) -> (r: Result<Lattice, FplllError>)
        ensures
            read_result(text@, r),
    {
        proof {
            vstd::slice::axiom_spec_len(text);
        }
        let p = skip_space_exec(text, 0);
        if p >= text.len() || text[p] != 0x5b {
            return Err(FplllError::ExpectedOpen);
        }
        let start = p + 1;
        let mut idx = start;
        let mut rows: Vec<Vec<Integer>> = Vec::new();
        proof {
            assert(rows_values(rows@) =~= seq![]);
            assert(prepend(seq![], rows_from(text@, start as int)) =~= rows_from(text@, start as int));
        }
        loop
            invariant_except_break
                start <= idx <= text@.len(),
                fplll_rows(text@) == rows_from(text@, start as int),
                rows_from(text@, start as int) == prepend(rows_values(rows@), rows_from(text@, idx as int)),
                total_len(rows_values(rows@)) <= idx,
            ensures
                fplll_rows(text@) == Ok::<Seq<Seq<int>>, FplllError>(rows_values(rows@)),
                total_len(rows_values(rows@)) <= text@.len(),
            decreases text@.len() - idx,
        {
            let q = skip_space_exec(text, idx);
            proof {
                lemma_scan_bounds(text@, idx as int);
            }
            if q >= text.len() {
                return Err(FplllError::UnterminatedLattice);
            }
            if text[q] == 0x5d {
                proof {
                    assert(rows_values(rows@) + seq![] =~= rows_values(rows@));
                }
                break;
            }
            if text[q] != 0x5b {
                return Err(FplllError::ExpectedRowOpen);
            }
            let e = find_close_exec(text, q + 1);
            proof {
                lemma_scan_bounds(text@, q + 1);
            }
            if e >= text.len() {
                return Err(FplllError::UnterminatedRow);
            }
            match parse_row(text, q + 1, e) {
                Err((a, b)) => {
                    return Err(FplllError::BadInteger { start: a, end: b });
                },
                Ok(row) => {
                    let ghost before = rows_values(rows@);
                    let ghost rv = values(row@);
                    rows.push(row);
                    proof {
                        assert(rows_values(rows@) =~= before + seq![rv]);
                        assert(rows_values(rows@).drop_last() =~= before);
                        match rows_from(text@, e + 1) {
                            Ok(rest) => {
                                assert(before + (seq![rv] + rest) =~= rows_values(rows@) + rest);
                            },
                            Err(_) => {},
                        }
                    }
                },
            }
            idx = e + 1;
        }
        let ghost rv = rows_values(rows@);
        let nvecs = rows.len();
        if nvecs == 0 {
            return Ok(Lattice::new(0, 0));
        }
        let dim = rows[0].len();
        let mut j: usize = 0;
        while j < nvecs
            invariant
                nvecs == rows@.len(),
                rv == rows_values(rows@),
                fplll_rows(text@) == Ok::<Seq<Seq<int>>, FplllError>(rv),
                dim == rv[0].len(),
                j <= nvecs,
                forall|t: int| 0 <= t < j ==> #[trigger] rv[t].len() == dim,
            decreases nvecs - j,
        {
            if rows[j].len() != dim {
                proof {
                    assert(rv[j as int] == values(rows@[j as int]@));
                    assert(rv[j as int].len() != rv[0].len());
                    assert(ragged(rv));
                }
                return Err(FplllError::InconsistentRowWidths);
            }
            j = j + 1;
        }
        proof {
            lemma_total_len_uniform(rv, dim as int);
            assert(nvecs * dim == dim * nvecs) by (nonlinear_arith);
        }
        if dim == 0 {
            return Ok(Lattice::new(0, 0));
        }
        let mut l = Lattice::new(nvecs, dim);
        let mut j: usize = 0;
        while j < nvecs
            invariant
                nvecs == rows@.len(),
                rv == rows_values(rows@),
                fplll_rows(text@) == Ok::<Seq<Seq<int>>, FplllError>(rv),
                forall|t: int| 0 <= t < nvecs ==> #[trigger] rv[t].len() == dim,
                l.wf(),
                l.basis.nrows == dim,
                l.basis.ncols == nvecs,
                l.rank == if dim < nvecs { dim } else { nvecs },
                j <= nvecs,
                forall|a: int, b: int| 0 <= a < dim && 0 <= b < j ==> #[trigger] l.basis.at(a, b) == rv[b][a],
            decreases nvecs - j,
        {
            let mut i: usize = 0;
            while i < dim
                invariant
                    nvecs == rows@.len(),
                    rv == rows_values(rows@),
                    forall|t: int| 0 <= t < nvecs ==> #[trigger] rv[t].len() == dim,
                    l.wf(),
                    l.basis.nrows == dim,
                    l.basis.ncols == nvecs,
                    l.rank == if dim < nvecs { dim } else { nvecs },
                    j < nvecs,
                    i <= dim,
                    forall|a: int, b: int|
                        0 <= a < dim && 0 <= b < nvecs && (b < j || (b == j && a < i)) ==> #[trigger] l.basis.at(a, b) == rv[b][a],
                decreases dim - i,
            {
                proof {
                    assert(rv[j as int].len() == dim);
                    assert(rows@[j as int]@.len() == dim);
                }
                let v = int_clone(&rows[j][i]);
                l.basis.set(i, j, v);
                i = i + 1;
            }
            j = j + 1;
        }
        Ok(l)
    }
}

/// Coordinates `j..dim` of basis vector `col`, in decimal, separated by
/// single spaces.
pub open spec fn entries_text(b: IntMatrix, col: int, j: int, dim: int) -> Seq<u8>
    decreases dim - j,
{
    if j >= dim {
        seq![]
    } else if j + 1 == dim {
        dec_text(b.at(j, col))
    } else {
        dec_text(b.at(j, col)) + seq![0x20u8] + entries_text(b, col, j + 1, dim)
    }
}

/// Basis vectors `i..count`, each as `[` coordinates `]` and a line feed.
pub open spec fn vectors_text(b: IntMatrix, i: int, count: int, dim: int) -> Seq<u8>
    decreases count - i,
{
    if i >= count {
        seq![]
    } else {
        seq![0x5bu8] + entries_text(b, i, 0, dim) + seq![0x5du8, 0x0au8] + vectors_text(b, i + 1, count, dim)
    }
}

/// The FPLLL text of a lattice: its first `rank` basis vectors between
/// brackets, one per line, and a closing bracket on a line of its own.
pub open spec fn fplll_text(l: Lattice) -> Seq<u8> {
    seq![0x5bu8] + vectors_text(l.basis, 0, l.rank as int, l.basis.nrows as int) + seq![0x5du8, 0x0au8]
}

impl Lattice {
    /// The FPLLL text of the lattice, as bytes.
    pub fn fplll_bytes(&self) -> (r: Vec<u8>)
        requires
            self.wf(),
        ensures
            r@ == fplll_text(*self),
    {
        let rank = self.rank;
        let dim = self.basis.nrows;
        let ghost b = self.basis;
        let mut out: Vec<u8> = Vec::new();
        out.push(0x5b);
        let mut i: usize = 0;
        while i < rank
            invariant
                self.wf(),
                b == self.basis,
                rank == self.rank,
                dim == self.basis.nrows,
                i <= rank,
                out@ + vectors_text(b, i as int, rank as int, dim as int) == seq![0x5bu8] + vectors_text(
                    b,
                    0,
                    rank as int,
                    dim as int,
                ),
            decreases rank - i,
        {
            let mut row: Vec<u8> = Vec::new();
            row.push(0x5b);
            let mut j: usize = 0;
            while j < dim
                invariant
                    self.wf(),
                    b == self.basis,
                    rank == self.rank,
                    dim == self.basis.nrows,
                    i < rank,
                    j <= dim,
                    row@ + entries_text(b, i as int, j as int, dim as int) == seq![0x5bu8] + entries_text(b, i as int, 0, dim as int),
                decreases dim - j,
            {
                let ghost before = row@;
                let mut t = int_to_dec(self.basis.get(j, i));
                row.append(&mut t);
                if j + 1 < dim {
                    row.push(0x20);
                }
                proof {
                    let d = dec_text(b.at(j as int, i as int));
                    if j + 1 < dim {
                        assert(row@ =~= before + d + seq![0x20u8]);
                        assert(before + entries_text(b, i as int, j as int, dim as int) =~= row@ + entries_text(
                            b,
                            i as int,
                            j + 1,
                            dim as int,
                        ));
                    } else {
                        assert(row@ =~= before + d);
                        assert(row@ + entries_text(b, i as int, j + 1, dim as int) =~= row@);
                    }
                }
                j = j + 1;
            }
            row.push(0x5d);
            row.push(0x0a);
            let ghost before = out@;
            out.append(&mut row);
            proof {
                assert(entries_text(b, i as int, dim as int, dim as int) =~= seq![]);
                assert(out@ + vectors_text(b, i + 1, rank as int, dim as int) =~= before + vectors_text(
                    b,
                    i as int,
                    rank as int,
                    dim as int,
                ));
            }
            i = i + 1;
        }
        out.push(0x5d);
        out.push(0x0a);
        proof {
            assert(vectors_text(b, rank as int, rank as int, dim as int) =~= seq![]);
        }
        out
    }
}

/// A decimal digit byte.
pub open spec fn is_dec_digit(b: u8) -> bool {
    0x30 <= b <= 0x39
}

/// Value of a string of decimal digits, most significant first.
pub open spec fn dec_value(d: Seq<u8>) -> int
    decreases d.len(),
{
    if d.len() == 0 {
        0
    } else {
        10 * dec_value(d.drop_last()) + (d.last() - 0x30)
    }
}

/// The decimal digits of `v` are digits, spell `v`, and start with `0`
/// only for zero.
proof fn lemma_dec_digits(v: nat)
    ensures
        dec_digits(v).len() >= 1,
        forall|t: int| 0 <= t < dec_digits(v).len() ==> is_dec_digit(#[trigger] dec_digits(v)[t]),
        dec_value(dec_digits(v)) == v,
        dec_digits(v)[0] == 0x30 ==> v == 0 && dec_digits(v).len() == 1,
    decreases v,
{
    if v < 10 {
        assert(dec_digits(v).drop_last() =~= seq![]);
        assert(dec_value(dec_digits(v).drop_last()) == 0);
        assert(dec_digits(v).last() == 0x30 + v);
    } else {
        lemma_dec_digits(v / 10);
        let d = dec_digits(v);
        let p = dec_digits(v / 10);
        assert(d =~= p + seq![(0x30 + v % 10) as u8]);
        assert(d.drop_last() =~= p);
        assert(d.last() == 0x30 + v % 10);
        assert(dec_value(d) == 10 * (v / 10) + v % 10);
        assert(forall|t: int| 0 <= t < p.len() ==> d[t] == p[t]);
        if d[0] == 0x30 {
            assert(p[0] == 0x30);
        }
    }
}

/// Reading a run of decimal digits `d` that starts at `s[i]`, from an
/// empty magnitude, ends with the magnitude `dec_value(d)`.
proof fn lemma_scan_digits(s: Seq<u8>, i: int, d: Seq<u8>, has_sign: bool, neg: bool, has_digits: bool)
    requires
        0 <= i,
        i + d.len() <= s.len(),
        d.len() >= 1,
        s.subrange(i, i + d.len()) == d,
        forall|t: int| 0 <= t < d.len() ==> is_dec_digit(#[trigger] d[t]),
    ensures
        radix_scan(s, 10, i, has_sign, neg, has_digits, 0) == radix_scan(s, 10, i + d.len(), has_sign, neg, true, dec_value(d)),
    decreases d.len(),
{
    assert(s[i] == d[0]);
    if d.len() == 1 {
        assert(d.drop_last() =~= seq![]);
        assert(dec_value(d.drop_last()) == 0);
        assert(is_dec_digit(d[0]));
        assert(dec_value(d) == d[0] - 0x30);
        assert(radix_scan(s, 10, i, has_sign, neg, has_digits, 0) == radix_scan(s, 10, i + 1, has_sign, neg, true, 0 * 10 + (d[0] - 0x30)));
    } else {
        let d0 = d.drop_last();
        assert(s.subrange(i, i + d0.len()) =~= d0);
        lemma_scan_digits(s, i, d0, has_sign, neg, has_digits);
        let k = i + d0.len();
        assert(s[k] == d.last());
        assert(is_dec_digit(d[d.len() - 1]));
        assert(radix_scan(s, 10, k, has_sign, neg, true, dec_value(d0)) == radix_scan(s, 10, k + 1, has_sign, neg, true, dec_value(d0) * 10 + (d.last() - 0x30)));
        assert(dec_value(d) == 10 * dec_value(d0) + (d.last() - 0x30));
    }
}

/// The decimal text of `x` is a literal for `x`.
proof fn lemma_literal_dec(x: int)
    ensures
        literal_value(dec_text(x)) == Some(x),
{
    let v: nat = if x < 0 { (-x) as nat } else { x as nat };
    lemma_dec_digits(v);
    let d = dec_digits(v);
    let tok = dec_text(x);
    let neg = tok.len() > 0 && tok[0] == 0x2d;
    if x < 0 {
        assert(tok =~= seq![0x2du8] + d);
        assert(tok.subrange(1, tok.len() as int) =~= d);
        assert(tok[0] == 0x2d);
        assert(!has_hex_prefix(d));
        assert(!has_octal_prefix(d));
        assert(tok.subrange(1, 1 + d.len() as int) =~= d);
        lemma_scan_digits(tok, 1, d, true, true, false);
    } else {
        assert(tok =~= d);
        assert(!neg) by {
            assert(is_dec_digit(d[0]));
        }
        assert(!has_hex_prefix(d)) by {
            if d.len() >= 2 {
                assert(is_dec_digit(d[1]));
            }
        }
        assert(!has_octal_prefix(d));
        assert(d.subrange(0, d.len() as int) =~= d);
        lemma_scan_digits(d, 0, d, false, false, false);
    }
}

/// Coordinates `j..dim` of basis vector `col`.
pub open spec fn entries_values(b: IntMatrix, col: int, j: int, dim: int) -> Seq<int>
    decreases dim - j,
{
    if j >= dim {
        seq![]
    } else {
        seq![b.at(j, col)] + entries_values(b, col, j + 1, dim)
    }
}

/// Basis vectors `i..count`, as sequences of coordinates.
pub open spec fn columns(b: IntMatrix, i: int, count: int, dim: int) -> Seq<Seq<int>>
    decreases count - i,
{
    if i >= count {
        seq![]
    } else {
        seq![entries_values(b, i, 0, dim)] + columns(b, i + 1, count, dim)
    }
}

proof fn lemma_entries_values(b: IntMatrix, col: int, j: int, dim: int)
    requires
        j <= dim,
    ensures
        entries_values(b, col, j, dim).len() == dim - j,
        forall|t: int| 0 <= t < dim - j ==> #[trigger] entries_values(b, col, j, dim)[t] == b.at(j + t, col),
    decreases dim - j,
{
    if j < dim {
        lemma_entries_values(b, col, j + 1, dim);
        let e = entries_values(b, col, j, dim);
        let r = entries_values(b, col, j + 1, dim);
        assert forall|t: int| 0 <= t < dim - j implies #[trigger] e[t] == b.at(j + t, col) by {
            if t > 0 {
                assert(e[t] == r[t - 1]);
            }
        }
    }
}

proof fn lemma_columns(b: IntMatrix, i: int, count: int, dim: int)
    requires
        i <= count,
    ensures
        columns(b, i, count, dim).len() == count - i,
        forall|t: int| 0 <= t < count - i ==> #[trigger] columns(b, i, count, dim)[t] == entries_values(b, i + t, 0, dim),
    decreases count - i,
{
    if i < count {
        lemma_columns(b, i + 1, count, dim);
        let c = columns(b, i, count, dim);
        let r = columns(b, i + 1, count, dim);
        assert forall|t: int| 0 <= t < count - i implies #[trigger] c[t] == entries_values(b, i + t, 0, dim) by {
            if t > 0 {
                assert(c[t] == r[t - 1]);
            }
        }
    }
}

/// A byte of a decimal text: a digit or a minus sign.
pub open spec fn is_number_byte(x: u8) -> bool {
    x == 0x2d || is_dec_digit(x)
}

proof fn lemma_dec_text_bytes(x: int)
    ensures
        dec_text(x).len() >= 1,
        is_dec_digit(dec_text(x)[0]) || dec_text(x)[0] == 0x2d,
        forall|t: int| 0 <= t < dec_text(x).len() ==> #[trigger] is_number_byte(dec_text(x)[t]),
{
    let v: nat = if x < 0 { (-x) as nat } else { x as nat };
    lemma_dec_digits(v);
    let d = dec_digits(v);
    if x < 0 {
        let t = dec_text(x);
        assert(t =~= seq![0x2du8] + d);
        assert forall|k: int| 0 <= k < t.len() implies #[trigger] is_number_byte(t[k]) by {
            if k > 0 {
                assert(t[k] == d[k - 1]);
            }
        }
    } else {
        assert forall|k: int| 0 <= k < d.len() implies #[trigger] is_number_byte(d[k]) by {
            assert(is_dec_digit(d[k]));
        }
    }
}

proof fn lemma_literal_end_run(s: Seq<u8>, i: int, k: int, end: int)
    requires
        i <= k <= end,
        forall|t: int| i <= t < k ==> !is_literal_space(#[trigger] s[t]),
        k == end || is_literal_space(s[k]),
    ensures
        literal_end(s, i, end) == k,
    decreases k - i,
{
    if i < k {
        lemma_literal_end_run(s, i + 1, k, end);
    }
}

proof fn lemma_find_close_run(s: Seq<u8>, i: int, k: int)
    requires
        0 <= i <= k < s.len(),
        forall|t: int| i <= t < k ==> #[trigger] s[t] != 0x5d,
        s[k] == 0x5d,
    ensures
        find_close(s, i) == k,
    decreases k - i,
{
    if i < k {
        lemma_find_close_run(s, i + 1, k);
    }
}

/// The text of coordinates `j..dim` holds digits, minus signs and spaces.
proof fn lemma_entries_text_bytes(b: IntMatrix, col: int, j: int, dim: int)
    ensures
        forall|t: int|
            0 <= t < entries_text(b, col, j, dim).len() ==> #[trigger] is_number_byte(entries_text(b, col, j, dim)[t])
                || entries_text(b, col, j, dim)[t] == 0x20,
    decreases dim - j,
{
    if j < dim {
        lemma_dec_text_bytes(b.at(j, col));
        lemma_entries_text_bytes(b, col, j + 1, dim);
        let d = dec_text(b.at(j, col));
        let e = entries_text(b, col, j, dim);
        if j + 1 < dim {
            let r = entries_text(b, col, j + 1, dim);
            assert forall|t: int| 0 <= t < e.len() implies #[trigger] is_number_byte(e[t]) || e[t] == 0x20 by {
                if t < d.len() {
                    assert(e[t] == d[t]);
                } else if t > d.len() {
                    assert(e[t] == r[t - d.len() - 1]);
                }
            }
        }
    }
}

/// Reading the text of coordinates `j..dim` of vector `col` gives them
/// back.
proof fn lemma_row_values_entries(s: Seq<u8>, a: int, end: int, b: IntMatrix, col: int, j: int, dim: int)
    requires
        0 <= a <= end <= s.len(),
        0 <= j <= dim,
        s.subrange(a, end) == entries_text(b, col, j, dim),
    ensures
        row_values(s, a, end) == Ok::<Seq<int>, (int, int)>(entries_values(b, col, j, dim)),
    decreases dim - j,
{
    if j < dim {
        let x = b.at(j, col);
        let d = dec_text(x);
        let n = d.len() as int;
        lemma_dec_text_bytes(x);
        lemma_literal_dec(x);
        let e = entries_text(b, col, j, dim);
        if j + 1 == dim {
            assert(e == d);
        } else {
            assert(e =~= d + seq![0x20u8] + entries_text(b, col, j + 1, dim));
        }
        assert(e.len() >= n);
        assert forall|t: int| 0 <= t < n implies s[a + t] == #[trigger] d[t] by {
            assert(s.subrange(a, end)[t] == s[a + t]);
            assert(e[t] == d[t]);
        }
        assert(!is_literal_space(s[a])) by {
            assert(is_number_byte(d[0]));
        }
        assert forall|t: int| a + 1 <= t < a + n implies !is_literal_space(#[trigger] s[t]) by {
            assert(s[a + (t - a)] == d[t - a]);
            assert(is_number_byte(d[t - a]));
        }
        if j + 1 == dim {
            assert(e == d);
            lemma_literal_end_run(s, a + 1, a + n, end);
            assert(s.subrange(a, a + n) =~= d);
            assert(entries_values(b, col, j + 1, dim) =~= seq![]);
            assert(seq![x] + seq![] =~= seq![x]);
        } else {
            let r = entries_text(b, col, j + 1, dim);
            assert(e =~= d + seq![0x20u8] + r);
            assert(s[a + n] == 0x20) by {
                assert(s.subrange(a, end)[n] == s[a + n]);
            }
            lemma_literal_end_run(s, a + 1, a + n, end);
            assert(s.subrange(a, a + n) =~= d);
            assert(s.subrange(a + n + 1, end) =~= r) by {
                assert forall|t: int| 0 <= t < r.len() implies s.subrange(a + n + 1, end)[t] == r[t] by {
                    assert(s.subrange(a, end)[n + 1 + t] == s[a + n + 1 + t]);
                    assert(e[n + 1 + t] == r[t]);
                }
            }
            lemma_row_values_entries(s, a + n + 1, end, b, col, j + 1, dim);
            assert(row_values(s, a + n, end) == row_values(s, a + n + 1, end));
        }
    } else {
        assert(entries_text(b, col, j, dim) =~= seq![]);
    }
}

/// Reading the text of vectors `i..count` followed by the closing `]`
/// gives the vectors back, when the reading starts at `p0` and the
/// whitespace after `p0` ends at `p`.
proof fn lemma_rows_vectors(s: Seq<u8>, p0: int, p: int, b: IntMatrix, i: int, count: int, dim: int)
    requires
        0 <= p0 <= p,
        0 <= i <= count,
        0 <= dim,
        p + vectors_text(b, i, count, dim).len() < s.len(),
        s.subrange(p, p + vectors_text(b, i, count, dim).len()) == vectors_text(b, i, count, dim),
        s[p + vectors_text(b, i, count, dim).len()] == 0x5d,
        skip_space(s, p0) == p,
    ensures
        rows_from(s, p0) == Ok::<Seq<Seq<int>>, FplllError>(columns(b, i, count, dim)),
    decreases count - i,
{
    let v = vectors_text(b, i, count, dim);
    if i >= count {
        assert(v.len() == 0);
    } else {
        let e = entries_text(b, i, 0, dim);
        let rest = vectors_text(b, i + 1, count, dim);
        let n = e.len() as int;
        assert(v =~= seq![0x5bu8] + e + seq![0x5du8, 0x0au8] + rest);
        assert(s[p] == 0x5b) by {
            assert(s.subrange(p, p + v.len())[0] == s[p]);
        }
        assert forall|t: int| 0 <= t < v.len() implies #[trigger] s[p + t] == v[t] by {
            assert(s.subrange(p, p + v.len())[t] == s[p + t]);
        }
        lemma_entries_text_bytes(b, i, 0, dim);
        assert forall|t: int| p + 1 <= t < p + 1 + n implies #[trigger] s[t] != 0x5d by {
            assert(s[p + (t - p)] == v[t - p]);
            assert(v[t - p] == e[t - p - 1]);
            assert(is_number_byte(e[t - p - 1]) || e[t - p - 1] == 0x20);
        }
        assert(s[p + 1 + n] == 0x5d) by {
            assert(s[p + (1 + n)] == v[1 + n]);
        }
        lemma_find_close_run(s, p + 1, p + 1 + n);
        let q = p + 1 + n;
        assert(s.subrange(p + 1, q) =~= e) by {
            assert forall|t: int| 0 <= t < n implies s.subrange(p + 1, q)[t] == e[t] by {
                assert(s[p + (1 + t)] == v[1 + t]);
            }
        }
        lemma_row_values_entries(s, p + 1, q, b, i, 0, dim);
        assert(s[q + 1] == 0x0a) by {
            assert(s[p + (n + 2)] == v[n + 2]);
        }
        let p2 = q + 2;
        assert(s.subrange(p2, p2 + rest.len()) =~= rest) by {
            assert forall|t: int| 0 <= t < rest.len() implies s.subrange(p2, p2 + rest.len())[t] == rest[t] by {
                assert(s[p + (n + 3 + t)] == v[n + 3 + t]);
            }
        }
        assert(p2 + rest.len() == p + v.len());
        if i + 1 < count {
            assert(rest[0] == 0x5b);
            assert(s[p2] == rest[0]);
        }
        assert(!is_block_space(s[p2]));
        assert(skip_space(s, p2) == p2);
        assert(skip_space(s, q + 1) == p2);
        lemma_rows_vectors(s, q + 1, p2, b, i + 1, count, dim);
        lemma_scan_bounds(s, p0);
        assert(columns(b, i, count, dim) == seq![entries_values(b, i, 0, dim)] + columns(b, i + 1, count, dim));
    }
}

/// Reading back the FPLLL text of a lattice whose rank counts all of its
/// vectors, of which there is at least one, gives back the same basis and
/// rank.
pub proof fn lemma_fplll_roundtrip(l: Lattice, r: Result<Lattice, FplllError>)
    requires
        l.wf(),
        0 < l.rank,
        l.rank == l.basis.ncols,
        read_result(fplll_text(l), r),
    ensures
        r matches Ok(l2) && {
            &&& l2.wf()
            &&& l2.basis.nrows == l.basis.nrows
            &&& l2.basis.ncols == l.basis.ncols
            &&& l2.rank == l.rank
            &&& forall|i: int, j: int|
                0 <= i < l.basis.nrows && 0 <= j < l.basis.ncols ==> #[trigger] l2.basis.at(i, j) == l.basis.at(i, j)
        },
{
    let b = l.basis;
    let dim = b.nrows as int;
    let count = l.rank as int;
    let s = fplll_text(l);
    let v = vectors_text(b, 0, count, dim);
    assert(s =~= seq![0x5bu8] + v + seq![0x5du8, 0x0au8]);
    assert(s[0] == 0x5b);
    assert(skip_space(s, 0) == 0);
    assert(s.subrange(1, 1 + v.len() as int) =~= v);
    assert(s[1 + v.len() as int] == 0x5d);
    assert(v[0] == 0x5b);
    assert(s[1] == v[0]);
    assert(skip_space(s, 1) == 1);
    lemma_rows_vectors(s, 1, 1, b, 0, count, dim);
    let rows = columns(b, 0, count, dim);
    assert(fplll_rows(s) == Ok::<Seq<Seq<int>>, FplllError>(rows));
    lemma_columns(b, 0, count, dim);
    assert forall|j: int| 0 <= j < count implies #[trigger] rows[j].len() == dim by {
        lemma_entries_values(b, j, 0, dim);
    }
    assert(!ragged(rows));
    let l2 = r->Ok_0;
    assert forall|i: int, j: int| 0 <= i < dim && 0 <= j < count implies #[trigger] l2.basis.at(i, j) == b.at(i, j) by {
        lemma_entries_values(b, j, 0, dim);
        assert(rows[j] == entries_values(b, j, 0, dim));
    }
}

/// The text of vectors `i..count` is ASCII.
proof fn lemma_vectors_text_ascii(b: IntMatrix, i: int, count: int, dim: int)
    ensures
        forall|t: int| 0 <= t < vectors_text(b, i, count, dim).len() ==> #[trigger] vectors_text(b, i, count, dim)[t] < 128,
    decreases count - i,
{
    if i < count {
        lemma_vectors_text_ascii(b, i + 1, count, dim);
        lemma_entries_text_bytes(b, i, 0, dim);
        let e = entries_text(b, i, 0, dim);
        let r = vectors_text(b, i + 1, count, dim);
        let v = vectors_text(b, i, count, dim);
        assert(v =~= seq![0x5bu8] + e + seq![0x5du8, 0x0au8] + r);
        assert forall|t: int| 0 <= t < v.len() implies #[trigger] v[t] < 128 by {
            if 1 <= t < 1 + e.len() {
                assert(v[t] == e[t - 1]);
                assert(is_number_byte(e[t - 1]) || e[t - 1] == 0x20);
            } else if t >= e.len() + 3 {
                assert(v[t] == r[t - e.len() - 3]);
            }
        }
    }
}

/// `std::string::FromUtf8Error`, the error of `String::from_utf8`,
/// declared so that its result can be matched on.
#[verifier::external_type_specification]
#[verifier::external_body]
pub struct ExFromUtf8Error(std::string::FromUtf8Error);

/// Calls `String::from_utf8` on ASCII bytes, which succeeds and makes each
/// byte one character of the string.
#[verifier::external_body]
fn ascii_string(v: Vec<u8>) -> (r: Result<String, std::string::FromUtf8Error>)
    requires
        forall|t: int| 0 <= t < v@.len() ==> #[trigger] v@[t] < 128,
    ensures
        r is Ok,
        r->Ok_0@ == v@.map_values(|x: u8| x as char),
{
    String::from_utf8(v)
}

impl Lattice {
    /// The FPLLL text of the lattice.
    pub fn to_string(&self) -> (r: String)
        requires
            self.wf(),
        ensures
            r@ == fplll_text(*self).map_values(|x: u8| x as char),
    {
        let bytes = self.fplll_bytes();
        proof {
            lemma_vectors_text_ascii(self.basis, 0, self.rank as int, self.basis.nrows as int);
            let v = vectors_text(self.basis, 0, self.rank as int, self.basis.nrows as int);
            let t = fplll_text(*self);
            assert(t =~= seq![0x5bu8] + v + seq![0x5du8, 0x0au8]);
            assert forall|k: int| 0 <= k < t.len() implies #[trigger] t[k] < 128 by {
                if 1 <= k < 1 + v.len() {
                    assert(t[k] == v[k - 1]);
                }
            }
        }
        match ascii_string(bytes) {
            Ok(s) => s,
            Err(_) => String::new(),
        }
    }
}

} // verus!
