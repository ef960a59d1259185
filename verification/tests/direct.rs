use linalg::matrix::Matrix;
use linalg::scalar::{ComplexField, RealField};

#[derive(Clone, Copy, Debug, PartialEq)]
struct R64(f64);

impl RealField for R64 {
    fn spec_zero() -> Self { R64(0.0) }
    fn spec_one() -> Self { R64(1.0) }
    fn spec_epsilon() -> Self { R64(f64::EPSILON) }
    fn spec_plus(self, rhs: Self) -> Self { R64(self.0 + rhs.0) }
    fn spec_minus(self, rhs: Self) -> Self { R64(self.0 - rhs.0) }
    fn spec_times(self, rhs: Self) -> Self { R64(self.0 * rhs.0) }
    fn spec_over(self, rhs: Self) -> Self { R64(self.0 / rhs.0) }
    fn spec_neg(self) -> Self { R64(-self.0) }
    fn spec_abs(self) -> Self { R64(self.0.abs()) }
    fn spec_sqrt(self) -> Self { R64(self.0.sqrt()) }
    fn spec_is_zero(self) -> bool { self.0 == 0.0 }
    fn spec_lt(self, rhs: Self) -> bool { self.0 < rhs.0 }
    fn spec_le(self, rhs: Self) -> bool { self.0 <= rhs.0 }
    fn zero() -> Self { R64(0.0) }
    fn one() -> Self { R64(1.0) }
    fn epsilon() -> Self { R64(f64::EPSILON) }
    fn plus(self, rhs: Self) -> Self { R64(self.0 + rhs.0) }
    fn minus(self, rhs: Self) -> Self { R64(self.0 - rhs.0) }
    fn times(self, rhs: Self) -> Self { R64(self.0 * rhs.0) }
    fn over(self, rhs: Self) -> Self { R64(self.0 / rhs.0) }
    fn neg(self) -> Self { R64(-self.0) }
    fn abs(self) -> Self { R64(self.0.abs()) }
    fn sqrt(self) -> Self { R64(self.0.sqrt()) }
    fn is_zero(self) -> bool { self.0 == 0.0 }
    fn lt(self, rhs: Self) -> bool { self.0 < rhs.0 }
    fn le(self, rhs: Self) -> bool { self.0 <= rhs.0 }
}

impl ComplexField for R64 {
    type Real = R64;
    fn spec_zero() -> Self { R64(0.0) }
    fn spec_one() -> Self { R64(1.0) }
    fn spec_plus(self, rhs: Self) -> Self { R64(self.0 + rhs.0) }
    fn spec_minus(self, rhs: Self) -> Self { R64(self.0 - rhs.0) }
    fn spec_times(self, rhs: Self) -> Self { R64(self.0 * rhs.0) }
    fn spec_over(self, rhs: Self) -> Self { R64(self.0 / rhs.0) }
    fn spec_neg(self) -> Self { R64(-self.0) }
    fn spec_conj(self) -> Self { self }
    fn spec_from_real(r: R64) -> Self { r }
    fn spec_re(self) -> R64 { self }
    fn spec_modulus(self) -> R64 { R64(self.0.abs()) }
    fn spec_scale(self, factor: R64) -> Self { R64(self.0 * factor.0) }
    fn spec_unscale(self, divisor: R64) -> Self { R64(self.0 / divisor.0) }
    fn spec_try_sqrt(self) -> Option<Self> { if self.0 >= 0.0 { Some(R64(self.0.sqrt())) } else { None } }
    fn spec_is_zero(self) -> bool { self.0 == 0.0 }
    fn zero() -> Self { R64(0.0) }
    fn one() -> Self { R64(1.0) }
    fn plus(self, rhs: Self) -> Self { R64(self.0 + rhs.0) }
    fn minus(self, rhs: Self) -> Self { R64(self.0 - rhs.0) }
    fn times(self, rhs: Self) -> Self { R64(self.0 * rhs.0) }
    fn over(self, rhs: Self) -> Self { R64(self.0 / rhs.0) }
    fn neg(self) -> Self { R64(-self.0) }
    fn conj(self) -> Self { self }
    fn from_real(r: R64) -> Self { r }
    fn re(self) -> R64 { self }
    fn modulus(self) -> R64 { R64(self.0.abs()) }
    fn scale(self, factor: R64) -> Self { R64(self.0 * factor.0) }
    fn unscale(self, divisor: R64) -> Self { R64(self.0 / divisor.0) }
    fn try_sqrt(self) -> Option<Self> { if self.0 >= 0.0 { Some(R64(self.0.sqrt())) } else { None } }
    fn is_zero(self) -> bool { self.0 == 0.0 }
}

type Rows = Vec<Vec<f64>>;

fn mat(rows: &[&[f64]]) -> Matrix<R64> {
    let nrows = rows.len();
    let ncols = if nrows == 0 { 0 } else { rows[0].len() };
    let mut data = Vec::new();
    for r in rows {
        assert_eq!(r.len(), ncols);
        for x in r.iter() {
            data.push(R64(*x));
        }
    }
    Matrix::from_row_major(nrows, ncols, data)
}

fn rows_of(m: &Matrix<R64>) -> Rows {
    let mut out = Vec::new();
    for i in 0..m.nrows() {
        let mut row = Vec::new();
        for j in 0..m.ncols() {
            row.push(m.get(i, j).0);
        }
        out.push(row);
    }
    out
}

fn lit(rows: &[&[f64]]) -> Rows {
    rows.iter().map(|r| r.to_vec()).collect()
}

fn mul(a: &Rows, b: &Rows) -> Rows {
    let n = a.len();
    let k = b.len();
    let m = if k == 0 { 0 } else { b[0].len() };
    let mut out = vec![vec![0.0; m]; n];
    for i in 0..n {
        assert_eq!(a[i].len(), k);
        for j in 0..m {
            for x in 0..k {
                out[i][j] += a[i][x] * b[x][j];
            }
        }
    }
    out
}

fn transpose(a: &Rows) -> Rows {
    let n = a.len();
    let m = if n == 0 { 0 } else { a[0].len() };
    let mut out = vec![vec![0.0; n]; m];
    for i in 0..n {
        for j in 0..m {
            out[j][i] = a[i][j];
        }
    }
    out
}

fn diag_of(d: &[f64]) -> Rows {
    let n = d.len();
    let mut out = vec![vec![0.0; n]; n];
    for i in 0..n {
        out[i][i] = d[i];
    }
    out
}

fn eye_rows(n: usize) -> Rows {
    diag_of(&vec![1.0; n])
}

fn assert_close(a: &Rows, b: &Rows, tol: f64) {
    assert_eq!(a.len(), b.len(), "row counts differ");
    for i in 0..a.len() {
        assert_eq!(a[i].len(), b[i].len(), "column counts differ");
        for j in 0..a[i].len() {
            assert!(
                (a[i][j] - b[i][j]).abs() <= tol,
                "entry ({}, {}): {} against {}",
                i,
                j,
                a[i][j],
                b[i][j]
            );
        }
    }
}

fn sample_square() -> Rows {
    lit(&[&[2.0, -1.0, 0.5, 3.0], &[4.0, 1.0, -2.0, 0.0], &[-1.0, 5.0, 3.0, 1.5], &[0.5, 2.0, 7.0, -4.0]])
}

fn sample_tall() -> Rows {
    lit(&[&[1.0, 2.0, 3.0], &[4.0, -5.0, 6.0], &[7.0, 8.0, -9.0], &[2.0, 0.0, 1.0], &[-3.0, 1.0, 4.0]])
}

fn sample_wide() -> Rows {
    transpose(&sample_tall())
}

fn sample_spd() -> Rows {
    let a = sample_square();
    let mut s = mul(&a, &transpose(&a));
    for i in 0..4 {
        s[i][i] += 1.0;
    }
    s
}

fn from_rows(a: &Rows) -> Matrix<R64> {
    let refs: Vec<&[f64]> = a.iter().map(|r| r.as_slice()).collect();
    mat(&refs)
}

fn check_lu(a: &Rows) {
    let nrows = a.len();
    let lu = from_rows(a).lu();
    let l = rows_of(&lu.l());
    let u = rows_of(&lu.u());
    let mut pm = from_rows(a);
    lu.p().permute_rows(&mut pm);
    assert_close(&mul(&l, &u), &rows_of(&pm), 1e-12);
    for i in 0..l.len() {
        for j in 0..l[i].len() {
            assert!(l[i][j].abs() <= 1.0);
            if j > i {
                assert_eq!(l[i][j], 0.0);
            }
            if j == i {
                assert_eq!(l[i][j], 1.0);
            }
        }
    }
    for i in 0..u.len() {
        for j in 0..u[i].len() {
            if j < i {
                assert_eq!(u[i][j], 0.0);
            }
        }
    }
    let mut back = pm;
    lu.p().inv_permute_rows(&mut back);
    assert_close(&rows_of(&back), a, 0.0);
    assert!(lu.p().len() <= nrows);
}

#[test]
fn lu_reconstructs_square() {
    check_lu(&sample_square());
}

#[test]
fn lu_reconstructs_tall() {
    check_lu(&sample_tall());
}

#[test]
fn lu_reconstructs_wide() {
    check_lu(&sample_wide());
}

#[test]
fn lu_exact_values() {
    let lu = mat(&[&[1.0, 2.0], &[4.0, 2.0]]).lu();
    assert_eq!(rows_of(&lu.l()), lit(&[&[1.0, 0.0], &[0.25, 1.0]]));
    assert_eq!(rows_of(&lu.u()), lit(&[&[4.0, 2.0], &[0.0, 1.5]]));
    assert_eq!(lu.p().len(), 1);
    assert_eq!(lu.p().get(0), (0, 1));
}

#[test]
fn lu_first_of_equal_pivots() {
    let lu = mat(&[&[2.0, 1.0], &[-2.0, 3.0]]).lu();
    assert!(lu.p().is_empty());
    assert_eq!(rows_of(&lu.l()), lit(&[&[1.0, 0.0], &[-1.0, 1.0]]));
}

#[test]
fn lu_singular_column_is_skipped() {
    let lu = mat(&[&[0.0, 1.0], &[0.0, 2.0]]).lu();
    assert_eq!(rows_of(&lu.l()), lit(&[&[1.0, 0.0], &[0.0, 1.0]]));
    assert_eq!(rows_of(&lu.u()), lit(&[&[0.0, 1.0], &[0.0, 2.0]]));
    assert!(lu.p().is_empty());
}

#[test]
fn lu_of_upper_triangular_is_itself() {
    let a = lit(&[&[3.0, 1.0, -2.0], &[0.0, 0.5, 4.0], &[0.0, 0.0, -7.0]]);
    let lu = from_rows(&a).lu();
    assert!(lu.p().is_empty());
    assert_eq!(rows_of(&lu.l()), eye_rows(3));
    assert_eq!(rows_of(&lu.u()), a);
}

#[test]
fn lu_swaps_replay_to_permutation_matrix() {
    let lu = from_rows(&sample_square()).lu();
    let mut p: Matrix<R64> = Matrix::identity(4);
    lu.p().permute_rows(&mut p);
    let p = rows_of(&p);
    for i in 0..4 {
        let ones_in_row = (0..4).filter(|&j| p[i][j] == 1.0).count();
        let zeros_in_row = (0..4).filter(|&j| p[i][j] == 0.0).count();
        let ones_in_col = (0..4).filter(|&j| p[j][i] == 1.0).count();
        assert_eq!(ones_in_row, 1);
        assert_eq!(zeros_in_row, 3);
        assert_eq!(ones_in_col, 1);
    }
}

fn check_full_piv_lu(a: &Rows) {
    let lu = from_rows(a).full_piv_lu();
    let l = rows_of(&lu.l());
    let u = rows_of(&lu.u());
    let mut pmq = from_rows(a);
    lu.p().permute_rows(&mut pmq);
    lu.q().permute_columns(&mut pmq);
    assert_close(&mul(&l, &u), &rows_of(&pmq), 1e-12);
    for i in 0..l.len() {
        for j in 0..l[i].len() {
            assert!(l[i][j].abs() <= 1.0);
        }
    }
    let mut back = pmq;
    lu.q().inv_permute_columns(&mut back);
    lu.p().inv_permute_rows(&mut back);
    assert_close(&rows_of(&back), a, 0.0);
}

#[test]
fn full_piv_lu_reconstructs() {
    check_full_piv_lu(&sample_square());
    check_full_piv_lu(&sample_tall());
    check_full_piv_lu(&sample_wide());
}

#[test]
fn full_piv_lu_picks_largest_entry() {
    let lu = mat(&[&[1.0, 2.0], &[3.0, -8.0]]).full_piv_lu();
    assert_eq!(lu.p().get(0), (0, 1));
    assert_eq!(lu.q().get(0), (0, 1));
    assert_eq!(rows_of(&lu.u()), lit(&[&[-8.0, 3.0], &[0.0, 1.75]]));
    assert_eq!(rows_of(&lu.l()), lit(&[&[1.0, 0.0], &[-0.25, 1.0]]));
}

#[test]
fn full_piv_lu_stops_at_zero_rest() {
    let lu = mat(&[&[2.0, 4.0], &[1.0, 2.0]]).full_piv_lu();
    let u = rows_of(&lu.u());
    assert_eq!(u[1][1], 0.0);
    assert_eq!(lu.p().len(), 0);
    assert_eq!(lu.q().len(), 1);
}

fn check_orthonormal_columns(q: &Rows, tol: f64) {
    let qtq = mul(&transpose(q), q);
    assert_close(&qtq, &eye_rows(qtq.len()), tol);
}

fn check_qr(a: &Rows) {
    let qr = from_rows(a).qr();
    let q = rows_of(&qr.q());
    let r = rows_of(&qr.r());
    assert_close(&mul(&q, &r), a, 1e-12);
    check_orthonormal_columns(&q, 1e-12);
    for i in 0..r.len() {
        for j in 0..r[i].len() {
            if j < i {
                assert_eq!(r[i][j], 0.0);
            }
        }
        if i < r[i].len() {
            assert!(r[i][i] >= 0.0);
        }
    }
}

#[test]
fn qr_reconstructs() {
    check_qr(&sample_square());
    check_qr(&sample_tall());
    check_qr(&sample_wide());
}

#[test]
fn qr_of_zero_matrix() {
    let a = lit(&[&[0.0, 0.0], &[0.0, 0.0], &[0.0, 0.0]]);
    let qr = from_rows(&a).qr();
    assert_close(&mul(&rows_of(&qr.q()), &rows_of(&qr.r())), &a, 0.0);
}

#[test]
fn qr_exact_values() {
    let qr = mat(&[&[3.0, 1.0], &[4.0, 2.0]]).qr();
    let r = rows_of(&qr.r());
    assert_close(&r, &lit(&[&[5.0, 2.2], &[0.0, 0.4]]), 1e-12);
    let (q, r2) = qr.unpack();
    assert_close(&rows_of(&q), &lit(&[&[0.6, -0.8], &[0.8, 0.6]]), 1e-12);
    assert_close(&rows_of(&r2), &r, 0.0);
}

fn check_col_piv_qr(a: &Rows) {
    let qr = from_rows(a).col_piv_qr();
    let q = rows_of(&qr.q());
    let r = rows_of(&qr.r());
    let mut ap = from_rows(a);
    qr.p().permute_columns(&mut ap);
    assert_close(&mul(&q, &r), &rows_of(&ap), 1e-12);
    check_orthonormal_columns(&q, 1e-12);
    for i in 1..r.len() {
        assert!(r[i][i] <= r[i - 1][i - 1] + 1e-12);
        for j in 0..i {
            assert_eq!(r[i][j], 0.0);
        }
    }
}

#[test]
fn col_piv_qr_reconstructs() {
    check_col_piv_qr(&sample_square());
    check_col_piv_qr(&sample_tall());
    check_col_piv_qr(&sample_wide());
}

#[test]
fn col_piv_qr_first_of_equal_norms() {
    let qr = mat(&[&[1.0, 0.0, 3.0], &[0.0, 1.0, 4.0]]).col_piv_qr();
    assert_eq!(qr.p().get(0), (0, 2));
    let qr = mat(&[&[1.0, 0.0], &[0.0, 1.0]]).col_piv_qr();
    assert!(qr.p().is_empty());
}

#[test]
fn cholesky_of_identity_is_identity() {
    let c = from_rows(&eye_rows(3)).cholesky().unwrap();
    assert_eq!(rows_of(&c.l()), eye_rows(3));
}

#[test]
fn cholesky_rejects_indefinite() {
    assert!(mat(&[&[1.0, 0.0], &[0.0, -1.0]]).cholesky().is_none());
    assert!(mat(&[&[1.0, 2.0], &[2.0, 1.0]]).cholesky().is_none());
    assert!(mat(&[&[0.0, 0.0], &[0.0, 1.0]]).cholesky().is_none());
    assert!(mat(&[&[1.0, 1.0], &[1.0, 1.0]]).cholesky().is_none());
}

#[test]
fn cholesky_reconstructs() {
    let a = sample_spd();
    let c = from_rows(&a).cholesky().unwrap();
    let l = rows_of(&c.l());
    assert_close(&mul(&l, &transpose(&l)), &a, 1e-10);
    for i in 0..4 {
        for j in (i + 1)..4 {
            assert_eq!(l[i][j], 0.0);
        }
    }
}

#[test]
fn cholesky_reads_lower_triangle_only() {
    let c = mat(&[&[4.0, 99.0], &[2.0, 10.0]]).cholesky().unwrap();
    assert_eq!(rows_of(&c.l()), lit(&[&[2.0, 0.0], &[1.0, 3.0]]));
    assert_eq!(c.l_dirty().get(0, 1), R64(99.0));
}

#[test]
fn udu_reconstructs() {
    let a = sample_spd();
    let f = from_rows(&a).udu().unwrap();
    let u = rows_of(f.u());
    let d: Vec<f64> = f.d().iter().map(|x| x.0).collect();
    assert_close(&mul(&mul(&u, &diag_of(&d)), &transpose(&u)), &a, 1e-10);
    assert_close(&rows_of(&f.d_matrix(R64(0.0))), &diag_of(&d), 0.0);
    for i in 0..4 {
        assert_eq!(u[i][i], 1.0);
        for j in 0..i {
            assert_eq!(u[i][j], 0.0);
        }
    }
}

#[test]
fn udu_exact_values() {
    let f = mat(&[&[6.0, 4.0], &[-50.0, 2.0]]).udu().unwrap();
    assert_eq!(rows_of(f.u()), lit(&[&[1.0, 2.0], &[0.0, 1.0]]));
    assert_eq!(f.d().clone(), vec![R64(-2.0), R64(2.0)]);
}

#[test]
fn udu_of_diagonal_is_itself() {
    let f = from_rows(&diag_of(&[3.0, -2.0, 5.0])).udu().unwrap();
    assert_eq!(rows_of(f.u()), eye_rows(3));
    assert_eq!(f.d().clone(), vec![R64(3.0), R64(-2.0), R64(5.0)]);
}

#[test]
fn udu_rejects_zero_pivot() {
    assert!(mat(&[&[1.0, 0.0], &[0.0, 0.0]]).udu().is_none());
    assert!(mat(&[&[4.0, 2.0], &[2.0, 1.0]]).udu().is_none());
}

#[test]
fn hessenberg_reconstructs() {
    let a = sample_square();
    let hess = from_rows(&a).hessenberg();
    let (q, h) = hess.unpack();
    let q = rows_of(&q);
    let h = rows_of(&h);
    assert_close(&mul(&mul(&q, &h), &transpose(&q)), &a, 1e-12);
    check_orthonormal_columns(&q, 1e-12);
    for i in 0..4 {
        for j in 0..4 {
            if i > j + 1 {
                assert_eq!(h[i][j], 0.0);
            }
        }
    }
}

#[test]
fn hessenberg_of_small_matrices() {
    let h = mat(&[&[5.0]]).hessenberg();
    assert_eq!(rows_of(&h.h()), lit(&[&[5.0]]));
    assert_eq!(rows_of(&h.q()), lit(&[&[1.0]]));
    let e: Matrix<R64> = Matrix::from_row_major(0, 0, Vec::new());
    let h = e.hessenberg();
    assert_eq!(h.h().nrows(), 0);
}

#[test]
fn symmetric_tridiagonal_reconstructs() {
    let a = sample_spd();
    let t = from_rows(&a).symmetric_tridiagonalize();
    let (q, diag, off) = t.unpack();
    let q = rows_of(&q);
    let mut tri = diag_of(&diag.iter().map(|x| x.0).collect::<Vec<f64>>());
    for i in 0..off.len() {
        tri[i][i + 1] = off[i].0;
        tri[i + 1][i] = off[i].0;
    }
    assert_close(&mul(&mul(&q, &tri), &transpose(&q)), &a, 1e-9);
    check_orthonormal_columns(&q, 1e-12);
}

#[test]
fn symmetric_tridiagonal_reads_lower_triangle_only() {
    let a = sample_spd();
    let mut b = a.clone();
    for i in 0..4 {
        for j in (i + 1)..4 {
            b[i][j] = 1000.0;
        }
    }
    let ta = from_rows(&a).symmetric_tridiagonalize().unpack_tridiagonal();
    let tb = from_rows(&b).symmetric_tridiagonalize().unpack_tridiagonal();
    assert_eq!(ta, tb);
}

fn check_bidiagonal(a: &Rows) {
    let b = from_rows(a).bidiagonalize();
    assert_eq!(b.is_upper_diagonal(), a.len() >= a[0].len());
    let upper = b.is_upper_diagonal();
    let diag = b.diagonal();
    let off = b.off_diagonal();
    let (u, d, v_t) = b.unpack();
    let u = rows_of(&u);
    let d = rows_of(&d);
    let v_t = rows_of(&v_t);
    assert_close(&mul(&mul(&u, &d), &v_t), a, 1e-12);
    check_orthonormal_columns(&u, 1e-12);
    check_orthonormal_columns(&transpose(&v_t), 1e-12);
    let n = d.len();
    for i in 0..n {
        assert_eq!(d[i][i], diag[i].0);
        for j in 0..n {
            let on_band = i == j || (upper && j == i + 1) || (!upper && i == j + 1);
            if !on_band {
                assert_eq!(d[i][j], 0.0);
            }
        }
    }
    assert_eq!(off.len(), n - 1);
}

#[test]
fn bidiagonal_reconstructs() {
    check_bidiagonal(&sample_square());
    check_bidiagonal(&sample_tall());
    check_bidiagonal(&sample_wide());
}

#[test]
fn permutation_round_trip() {
    let a = sample_tall();
    let mut p = linalg::permutation::PermutationSequence::identity();
    p.append_permutation(0, 3);
    p.append_permutation(1, 1);
    p.append_permutation(2, 4);
    p.append_permutation(0, 2);
    assert_eq!(p.len(), 3);
    let mut m = from_rows(&a);
    p.permute_rows(&mut m);
    assert_eq!(rows_of(&m)[0], a[4]);
    assert_eq!(rows_of(&m)[3], a[0]);
    p.inv_permute_rows(&mut m);
    assert_close(&rows_of(&m), &a, 0.0);
    let mut w = from_rows(&sample_wide());
    p.permute_columns(&mut w);
    p.inv_permute_columns(&mut w);
    assert_close(&rows_of(&w), &sample_wide(), 0.0);
}
