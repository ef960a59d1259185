use linalg::matrix::Matrix;
use linalg::scalar::{ComplexField, RealField};

#[derive(Clone, Copy, Debug, PartialEq)]
struct R64(f64);

impl RealField for R64 {
    fn spec_zero() -> Self { R64(0.0) }
    fn spec_one() -> Self { R64(1.0) }
    fn spec_epsilon() -> Self { R64(f64::EPSILON) }
    fn spec_plus(self, rhs: Self) -> Self { R64(self.0 + rhs.0) }
    fn spec_minus(self, rhs: Self) -> Self { R64(self.0 - rhs.0) }
    fn spec_times(self, rhs: Self) -> Self { R64(self.0 * rhs.0) }
    fn spec_over(self, rhs: Self) -> Self { R64(self.0 / rhs.0) }
    fn spec_neg(self) -> Self { R64(-self.0) }
    fn spec_abs(self) -> Self { R64(self.0.abs()) }
    fn spec_sqrt(self) -> Self { R64(self.0.sqrt()) }
    fn spec_is_zero(self) -> bool { self.0 == 0.0 }
    fn spec_lt(self, rhs: Self) -> bool { self.0 < rhs.0 }
    fn spec_le(self, rhs: Self) -> bool { self.0 <= rhs.0 }
    fn zero() -> Self { R64(0.0) }
    fn one() -> Self { R64(1.0) }
    fn epsilon() -> Self { R64(f64::EPSILON) }
    fn plus(self, rhs: Self) -> Self { R64(self.0 + rhs.0) }
    fn minus(self, rhs: Self) -> Self { R64(self.0 - rhs.0) }
    fn times(self, rhs: Self) -> Self { R64(self.0 * rhs.0) }
    fn over(self, rhs: Self) -> Self { R64(self.0 / rhs.0) }
    fn neg(self) -> Self { R64(-self.0) }
    fn abs(self) -> Self { R64(self.0.abs()) }
    fn sqrt(self) -> Self { R64(self.0.sqrt()) }
    fn is_zero(self) -> bool { self.0 == 0.0 }
    fn lt(self, rhs: Self) -> bool { self.0 < rhs.0 }
    fn le(self, rhs: Self) -> bool { self.0 <= rhs.0 }
}

impl ComplexField for R64 {
    type Real = R64;
    fn spec_zero() -> Self { R64(0.0) }
    fn spec_one() -> Self { R64(1.0) }
    fn spec_plus(self, rhs: Self) -> Self { R64(self.0 + rhs.0) }
    fn spec_minus(self, rhs: Self) -> Self { R64(self.0 - rhs.0) }
    fn spec_times(self, rhs: Self) -> Self { R64(self.0 * rhs.0) }
    fn spec_over(self, rhs: Self) -> Self { R64(self.0 / rhs.0) }
    fn spec_neg(self) -> Self { R64(-self.0) }
    fn spec_conj(self) -> Self { self }
    fn spec_from_real(r: R64) -> Self { r }
    fn spec_re(self) -> R64 { self }
    fn spec_modulus(self) -> R64 { R64(self.0.abs()) }
    fn spec_scale(self, factor: R64) -> Self { R64(self.0 * factor.0) }
    fn spec_unscale(self, divisor: R64) -> Self { R64(self.0 / divisor.0) }
    fn spec_try_sqrt(self) -> Option<Self> { if self.0 >= 0.0 { Some(R64(self.0.sqrt())) } else { None } }
    fn spec_is_zero(self) -> bool { self.0 == 0.0 }
    fn zero() -> Self { R64(0.0) }
    fn one() -> Self { R64(1.0) }
    fn plus(self, rhs: Self) -> Self { R64(self.0 + rhs.0) }
    fn minus(self, rhs: Self) -> Self { R64(self.0 - rhs.0) }
    fn times(self, rhs: Self) -> Self { R64(self.0 * rhs.0) }
    fn over(self, rhs: Self) -> Self { R64(self.0 / rhs.0) }
    fn neg(self) -> Self { R64(-self.0) }
    fn conj(self) -> Self { self }
    fn from_real(r: R64) -> Self { r }
    fn re(self) -> R64 { self }
    fn modulus(self) -> R64 { R64(self.0.abs()) }
    fn scale(self, factor: R64) -> Self { R64(self.0 * factor.0) }
    fn unscale(self, divisor: R64) -> Self { R64(self.0 / divisor.0) }
    fn try_sqrt(self) -> Option<Self> { if self.0 >= 0.0 { Some(R64(self.0.sqrt())) } else { None } }
    fn is_zero(self) -> bool { self.0 == 0.0 }
}

type Rows = Vec<Vec<f64>>;

fn mat(rows: &[&[f64]]) -> Matrix<R64> {
    let nrows = rows.len();
    let ncols = if nrows == 0 { 0 } else { rows[0].len() };
    let mut data = Vec::new();
    for r in rows {
        assert_eq!(r.len(), ncols);
        for x in r.iter() {
            data.push(R64(*x));
        }
    }
    Matrix::from_row_major(nrows, ncols, data)
}

fn rows_of(m: &Matrix<R64>) -> Rows {
    let mut out = Vec::new();
    for i in 0..m.nrows() {
        let mut row = Vec::new();
        for j in 0..m.ncols() {
            row.push(m.get(i, j).0);
        }
        out.push(row);
    }
    out
}

fn lit(rows: &[&[f64]]) -> Rows {
    rows.iter().map(|r| r.to_vec()).collect()
}

fn mul(a: &Rows, b: &Rows) -> Rows {
    let n = a.len();
    let k = b.len();
    let m = if k == 0 { 0 } else { b[0].len() };
    let mut out = vec![vec![0.0; m]; n];
    for i in 0..n {
        assert_eq!(a[i].len(), k);
        for j in 0..m {
            for x in 0..k {
                out[i][j] += a[i][x] * b[x][j];
            }
        }
    }
    out
}

fn transpose(a: &Rows) -> Rows {
    let n = a.len();
    let m = if n == 0 { 0 } else { a[0].len() };
    let mut out = vec![vec![0.0; n]; m];
    for i in 0..n {
        for j in 0..m {
            out[j][i] = a[i][j];
        }
    }
    out
}

fn diag_of(d: &[f64]) -> Rows {
    let n = d.len();
    let mut out = vec![vec![0.0; n]; n];
    for i in 0..n {
        out[i][i] = d[i];
    }
    out
}

fn eye_rows(n: usize) -> Rows {
    diag_of(&vec![1.0; n])
}

fn assert_close(a: &Rows, b: &Rows, tol: f64) {
    assert_eq!(a.len(), b.len(), "row counts differ");
    for i in 0..a.len() {
        assert_eq!(a[i].len(), b[i].len(), "column counts differ");
        for j in 0..a[i].len() {
            assert!(
                (a[i][j] - b[i][j]).abs() <= tol,
                "entry ({}, {}): {} against {}",
                i,
                j,
                a[i][j],
                b[i][j]
            );
        }
    }
}

fn from_rows(a: &Rows) -> Matrix<R64> {
    let refs: Vec<&[f64]> = a.iter().map(|r| r.as_slice()).collect();
    mat(&refs)
}

fn sample_square() -> Rows {
    lit(&[&[2.0, -1.0, 0.5, 3.0], &[4.0, 1.0, -2.0, 0.0], &[-1.0, 5.0, 3.0, 1.5], &[0.5, 2.0, 7.0, -4.0]])
}

fn sample_symmetric() -> Rows {
    let a = sample_square();
    let t = transpose(&a);
    let mut s = a.clone();
    for i in 0..4 {
        for j in 0..4 {
            s[i][j] = a[i][j] + t[i][j];
        }
    }
    s
}

fn sample_tall() -> Rows {
    lit(&[&[1.0, 2.0, 3.0], &[4.0, -5.0, 6.0], &[7.0, 8.0, -9.0], &[2.0, 0.0, 1.0], &[-3.0, 1.0, 4.0]])
}

fn sample_five() -> Rows {
    lit(&[
        &[1.0, 2.0, 0.0, -1.0, 3.0],
        &[0.5, -2.0, 4.0, 1.0, 0.0],
        &[3.0, 1.0, 1.0, 2.0, -2.0],
        &[-1.0, 0.0, 2.0, 5.0, 1.0],
        &[2.0, -3.0, 1.0, 0.0, 4.0],
    ])
}

fn check_orthogonal(q: &Rows, tol: f64) {
    let qtq = mul(&transpose(q), q);
    assert_close(&qtq, &eye_rows(qtq.len()), tol);
}

fn reals(v: &[R64]) -> Vec<f64> {
    v.iter().map(|x| x.0).collect()
}

fn check_symmetric_eigen(a: &Rows) {
    let e = from_rows(a).symmetric_eigen();
    let q = rows_of(&e.eigenvectors);
    let d = diag_of(&reals(&e.eigenvalues));
    assert_close(&mul(&mul(&q, &d), &transpose(&q)), a, 1e-9);
    check_orthogonal(&q, 1e-10);
}

#[test]
fn symmetric_eigen_reconstructs() {
    check_symmetric_eigen(&sample_symmetric());
    let five = sample_five();
    let s = mul(&five, &transpose(&five));
    check_symmetric_eigen(&s);
}

#[test]
fn symmetric_eigen_of_diagonal() {
    let e = from_rows(&diag_of(&[3.0, -1.0, 2.0])).symmetric_eigen();
    assert_eq!(reals(&e.eigenvalues), vec![3.0, -1.0, 2.0]);
    assert_eq!(rows_of(&e.eigenvectors), eye_rows(3));
}

#[test]
fn symmetric_eigen_exact_values() {
    let e = mat(&[&[2.0, 1.0], &[1.0, 2.0]]).symmetric_eigen();
    let mut vals = reals(&e.eigenvalues);
    vals.sort_by(|a, b| a.partial_cmp(b).unwrap());
    assert!((vals[0] - 1.0).abs() < 1e-14);
    assert!((vals[1] - 3.0).abs() < 1e-14);
    let one = mat(&[&[7.0]]).symmetric_eigen();
    assert_eq!(reals(&one.eigenvalues), vec![7.0]);
    assert_eq!(rows_of(&one.eigenvectors), lit(&[&[1.0]]));
}

#[test]
fn symmetric_eigen_reads_lower_triangle_only() {
    let a = sample_symmetric();
    let mut b = a.clone();
    for i in 0..4 {
        for j in (i + 1)..4 {
            b[i][j] = -77.0;
        }
    }
    let ea = from_rows(&a).symmetric_eigen();
    let eb = from_rows(&b).symmetric_eigen();
    assert_eq!(reals(&ea.eigenvalues), reals(&eb.eigenvalues));
}

#[test]
fn symmetric_eigen_budget_boundary() {
    let a = sample_symmetric();
    assert!(from_rows(&a).try_symmetric_eigen(R64(f64::EPSILON), 1).is_none());
    assert!(from_rows(&a).try_symmetric_eigen(R64(f64::EPSILON), 0).is_some());
    assert!(from_rows(&a).try_symmetric_eigen(R64(f64::EPSILON), 1000).is_some());
    let d = diag_of(&[1.0, 2.0, 3.0]);
    assert!(from_rows(&d).try_symmetric_eigen(R64(f64::EPSILON), 1).is_some());
}

fn check_svd(a: &Rows) {
    let svd = from_rows(a).svd(true, true);
    let u = rows_of(svd.u.as_ref().unwrap());
    let v_t = rows_of(svd.v_t.as_ref().unwrap());
    let s = reals(&svd.singular_values);
    assert_close(&mul(&mul(&u, &diag_of(&s)), &v_t), a, 1e-9);
    check_orthogonal(&u, 1e-10);
    check_orthogonal(&transpose(&v_t), 1e-10);
    for i in 0..s.len() {
        assert!(s[i] >= 0.0);
        if i > 0 {
            assert!(s[i - 1] >= s[i]);
        }
    }
    let plain = from_rows(a).svd(false, false);
    assert!(plain.u.is_none());
    assert!(plain.v_t.is_none());
    let t = reals(&plain.singular_values);
    for i in 0..s.len() {
        assert!((s[i] - t[i]).abs() < 1e-9);
    }
    let left = from_rows(a).svd(true, false);
    assert!(left.u.is_some() && left.v_t.is_none());
    let right = from_rows(a).svd(false, true);
    assert!(right.u.is_none() && right.v_t.is_some());
}

#[test]
fn svd_reconstructs() {
    check_svd(&sample_square());
    check_svd(&sample_tall());
    check_svd(&transpose(&sample_tall()));
    check_svd(&sample_five());
}

#[test]
fn svd_exact_values() {
    let svd = mat(&[&[3.0, 0.0], &[0.0, -4.0]]).svd(true, true);
    let s = reals(&svd.singular_values);
    assert!((s[0] - 4.0).abs() < 1e-14);
    assert!((s[1] - 3.0).abs() < 1e-14);
    let svd = mat(&[&[0.0, 2.0], &[1.0, 0.0], &[0.0, 0.0]]).svd(false, false);
    let s = reals(&svd.singular_values);
    assert!((s[0] - 2.0).abs() < 1e-14);
    assert!((s[1] - 1.0).abs() < 1e-14);
}

#[test]
fn svd_of_rank_deficient() {
    let a = lit(&[&[1.0, 2.0, 3.0], &[2.0, 4.0, 6.0], &[1.0, 0.0, 1.0]]);
    let svd = from_rows(&a).svd(true, true);
    let s = reals(&svd.singular_values);
    assert!(s[2].abs() < 1e-12);
    let u = rows_of(svd.u.as_ref().unwrap());
    let v_t = rows_of(svd.v_t.as_ref().unwrap());
    assert_close(&mul(&mul(&u, &diag_of(&s)), &v_t), &a, 1e-10);
    let zero = lit(&[&[0.0, 0.0], &[0.0, 0.0]]);
    let svd = from_rows(&zero).svd(true, true);
    assert_eq!(reals(&svd.singular_values), vec![0.0, 0.0]);
}

#[test]
fn svd_budget_boundary() {
    let a = sample_five();
    assert!(from_rows(&a).try_svd(true, true, R64(f64::EPSILON), 1).is_none());
    assert!(from_rows(&a).try_svd(true, true, R64(f64::EPSILON), 0).is_some());
    assert!(from_rows(&a).try_svd(false, false, R64(f64::EPSILON), 1000).is_some());
}

fn check_schur(a: &Rows) -> Rows {
    let (q, t) = from_rows(a).schur().unpack();
    let q = rows_of(&q);
    let t = rows_of(&t);
    assert_close(&mul(&mul(&q, &t), &transpose(&q)), a, 1e-9);
    check_orthogonal(&q, 1e-10);
    let n = t.len();
    for i in 0..n {
        for j in 0..n {
            if i > j + 1 {
                assert!(t[i][j].abs() < 1e-12, "entry ({}, {}) is {}", i, j, t[i][j]);
            }
        }
    }
    for i in 2..n {
        assert!(t[i][i - 1] == 0.0 || t[i - 1][i - 2] == 0.0);
    }
    t
}

#[test]
fn schur_reconstructs() {
    check_schur(&sample_square());
    check_schur(&sample_five());
    check_schur(&sample_symmetric());
}

#[test]
fn schur_of_symmetric_is_diagonal() {
    let t = check_schur(&sample_symmetric());
    for i in 0..4 {
        for j in 0..4 {
            if i != j {
                assert!(t[i][j].abs() < 1e-9);
            }
        }
    }
}

#[test]
fn schur_keeps_complex_pairs_as_blocks() {
    let a = lit(&[&[0.0, -1.0, 0.0], &[1.0, 0.0, 0.0], &[0.0, 0.0, 2.0]]);
    let t = check_schur(&a);
    let blocks = (1..3).filter(|&i| t[i][i - 1] != 0.0).count();
    assert_eq!(blocks, 1);
    let rot = lit(&[&[0.0, -1.0], &[1.0, 0.0]]);
    let (q, t) = from_rows(&rot).schur().unpack();
    assert_eq!(rows_of(&q), eye_rows(2));
    assert_eq!(rows_of(&t), rot);
}

#[test]
fn schur_of_small_matrices() {
    let (q, t) = mat(&[&[5.0]]).schur().unpack();
    assert_eq!(rows_of(&q), lit(&[&[1.0]]));
    assert_eq!(rows_of(&t), lit(&[&[5.0]]));
    let a = lit(&[&[1.0, 2.0], &[3.0, 4.0]]);
    let t2 = check_schur(&a);
    assert_eq!(t2[1][0], 0.0);
    let up = lit(&[&[1.0, 2.0, 3.0], &[0.0, 4.0, 5.0], &[0.0, 0.0, 6.0]]);
    let (q, t) = from_rows(&up).schur().unpack();
    assert_close(&rows_of(&q), &eye_rows(3), 1e-14);
    assert_close(&rows_of(&t), &up, 1e-14);
}

#[test]
fn schur_budget_boundary() {
    let a = sample_five();
    assert!(from_rows(&a).try_schur(R64(f64::EPSILON), 1).is_none());
    assert!(from_rows(&a).try_schur(R64(f64::EPSILON), 0).is_some());
    assert!(from_rows(&a).try_schur(R64(f64::EPSILON), 10000).is_some());
}
