use linalg::matrix::Matrix;
use linalg::scalar::{ComplexField, RealField};

#[derive(Clone, Copy, Debug, PartialEq)]
struct R64(f64);

impl RealField for R64 {
    fn spec_zero() -> Self { R64(0.0) }
    fn spec_one() -> Self { R64(1.0) }
    fn spec_epsilon() -> Self { R64(f64::EPSILON) }
    fn spec_plus(self, rhs: Self) -> Self { R64(self.0 + rhs.0) }
    fn spec_minus(self, rhs: Self) -> Self { R64(self.0 - rhs.0) }
    fn spec_times(self, rhs: Self) -> Self { R64(self.0 * rhs.0) }
    fn spec_over(self, rhs: Self) -> Self { R64(self.0 / rhs.0) }
    fn spec_neg(self) -> Self { R64(-self.0) }
    fn spec_abs(self) -> Self { R64(self.0.abs()) }
    fn spec_sqrt(self) -> Self { R64(self.0.sqrt()) }
    fn spec_is_zero(self) -> bool { self.0 == 0.0 }
    fn spec_lt(self, rhs: Self) -> bool { self.0 < rhs.0 }
    fn spec_le(self, rhs: Self) -> bool { self.0 <= rhs.0 }
    fn zero() -> Self { R64(0.0) }
    fn one() -> Self { R64(1.0) }
    fn epsilon() -> Self { R64(f64::EPSILON) }
    fn plus(self, rhs: Self) -> Self { R64(self.0 + rhs.0) }
    fn minus(self, rhs: Self) -> Self { R64(self.0 - rhs.0) }
    fn times(self, rhs: Self) -> Self { R64(self.0 * rhs.0) }
    fn over(self, rhs: Self) -> Self { R64(self.0 / rhs.0) }
    fn neg(self) -> Self { R64(-self.0) }
    fn abs(self) -> Self { R64(self.0.abs()) }
    fn sqrt(self) -> Self { R64(self.0.sqrt()) }
    fn is_zero(self) -> bool { self.0 == 0.0 }
    fn lt(self, rhs: Self) -> bool { self.0 < rhs.0 }
    fn le(self, rhs: Self) -> bool { self.0 <= rhs.0 }
}

impl ComplexField for R64 {
    type Real = R64;
    fn spec_zero() -> Self { R64(0.0) }
    fn spec_one() -> Self { R64(1.0) }
    fn spec_plus(self, rhs: Self) -> Self { R64(self.0 + rhs.0) }
    fn spec_minus(self, rhs: Self) -> Self { R64(self.0 - rhs.0) }
    fn spec_times(self, rhs: Self) -> Self { R64(self.0 * rhs.0) }
    fn spec_over(self, rhs: Self) -> Self { R64(self.0 / rhs.0) }
    fn spec_neg(self) -> Self { R64(-self.0) }
    fn spec_conj(self) -> Self { self }
    fn spec_from_real(r: R64) -> Self { r }
    fn spec_re(self) -> R64 { self }
    fn spec_modulus(self) -> R64 { R64(self.0.abs()) }
    fn spec_scale(self, factor: R64) -> Self { R64(self.0 * factor.0) }
    fn spec_unscale(self, divisor: R64) -> Self { R64(self.0 / divisor.0) }
    fn spec_try_sqrt(self) -> Option<Self> { if self.0 >= 0.0 { Some(R64(self.0.sqrt())) } else { None } }
    fn spec_is_zero(self) -> bool { self.0 == 0.0 }
    fn zero() -> Self { R64(0.0) }
    fn one() -> Self { R64(1.0) }
    fn plus(self, rhs: Self) -> Self { R64(self.0 + rhs.0) }
    fn minus(self, rhs: Self) -> Self { R64(self.0 - rhs.0) }
    fn times(self, rhs: Self) -> Self { R64(self.0 * rhs.0) }
    fn over(self, rhs: Self) -> Self { R64(self.0 / rhs.0) }
    fn neg(self) -> Self { R64(-self.0) }
    fn conj(self) -> Self { self }
    fn from_real(r: R64) -> Self { r }
    fn re(self) -> R64 { self }
    fn modulus(self) -> R64 { R64(self.0.abs()) }
    fn scale(self, factor: R64) -> Self { R64(self.0 * factor.0) }
    fn unscale(self, divisor: R64) -> Self { R64(self.0 / divisor.0) }
    fn try_sqrt(self) -> Option<Self> { if self.0 >= 0.0 { Some(R64(self.0.sqrt())) } else { None } }
    fn is_zero(self) -> bool { self.0 == 0.0 }
}

type Rows = Vec<Vec<f64>>;

fn mat(rows: &[&[f64]]) -> Matrix<R64> {
    let nrows = rows.len();
    let ncols = if nrows == 0 { 0 } else { rows[0].len() };
    let mut data = Vec::new();
    for r in rows {
        assert_eq!(r.len(), ncols);
        for x in r.iter() {
            data.push(R64(*x));
        }
    }
    Matrix::from_row_major(nrows, ncols, data)
}

fn rows_of(m: &Matrix<R64>) -> Rows {
    let mut out = Vec::new();
    for i in 0..m.nrows() {
        let mut row = Vec::new();
        for j in 0..m.ncols() {
            row.push(m.get(i, j).0);
        }
        out.push(row);
    }
    out
}

fn lit(rows: &[&[f64]]) -> Rows {
    rows.iter().map(|r| r.to_vec()).collect()
}

fn mul(a: &Rows, b: &Rows) -> Rows {
    let n = a.len();
    let k = b.len();
    let m = if k == 0 { 0 } else { b[0].len() };
    let mut out = vec![vec![0.0; m]; n];
    for i in 0..n {
        assert_eq!(a[i].len(), k);
        for j in 0..m {
            for x in 0..k {
                out[i][j] += a[i][x] * b[x][j];
            }
        }
    }
    out
}

fn transpose(a: &Rows) -> Rows {
    let n = a.len();
    let m = if n == 0 { 0 } else { a[0].len() };
    let mut out = vec![vec![0.0; n]; m];
    for i in 0..n {
        for j in 0..m {
            out[j][i] = a[i][j];
        }
    }
    out
}

fn diag_of(d: &[f64]) -> Rows {
    let n = d.len();
    let mut out = vec![vec![0.0; n]; n];
    for i in 0..n {
        out[i][i] = d[i];
    }
    out
}

fn eye_rows(n: usize) -> Rows {
    diag_of(&vec![1.0; n])
}

fn assert_close(a: &Rows, b: &Rows, tol: f64) {
    assert_eq!(a.len(), b.len(), "row counts differ");
    for i in 0..a.len() {
        assert_eq!(a[i].len(), b[i].len(), "column counts differ");
        for j in 0..a[i].len() {
            assert!(
                (a[i][j] - b[i][j]).abs() <= tol,
                "entry ({}, {}): {} against {}",
                i,
                j,
                a[i][j],
                b[i][j]
            );
        }
    }
}
use linalg::complex::Complex;
use linalg::gf2::Gf2;
use linalg::givens::{cancel_x, cancel_y, hypot, jacobi, real_signum, rotate, rotate_rows, rotation, sign, try_rotation};
use linalg::householder::{clear_column, clear_row, column_from, conjugate_mut, reflect_columns, reflect_rows, reflection_axis_mut, row_from, write_column, write_row};
use linalg::scalar::{signum, two};
use linalg::scaling::{amax_of, normalize, scale_mut, scale_reals, unscale_mut};
use linalg::symmetric_eigen::{delimit_subproblem, half, is_exceeding, is_negligible, wilkinson_shift};
use linalg::svd::svd_2x2;

fn close(a: f64, b: f64) -> bool {
    (a - b).abs() <= 1e-14
}

#[test]
fn matrix_construction_and_access() {
    let mut m = mat(&[&[1.0, 2.0, 3.0], &[4.0, 5.0, 6.0]]);
    assert_eq!(m.nrows(), 2);
    assert_eq!(m.ncols(), 3);
    assert_eq!(m.get(1, 0), R64(4.0));
    m.set(1, 0, R64(-4.0));
    m.set(0, 2, R64(9.0));
    assert_eq!(rows_of(&m), lit(&[&[1.0, 2.0, 9.0], &[-4.0, 5.0, 6.0]]));
    let copy = m.duplicate();
    m.swap_rows(0, 1);
    assert_eq!(rows_of(&m), lit(&[&[-4.0, 5.0, 6.0], &[1.0, 2.0, 9.0]]));
    m.swap_columns(0, 2);
    assert_eq!(rows_of(&m), lit(&[&[6.0, 5.0, -4.0], &[9.0, 2.0, 1.0]]));
    assert_eq!(rows_of(&copy), lit(&[&[1.0, 2.0, 9.0], &[-4.0, 5.0, 6.0]]));
    let f = Matrix::filled(2, 2, R64(7.0));
    assert_eq!(rows_of(&f), lit(&[&[7.0, 7.0], &[7.0, 7.0]]));
    let z: Matrix<R64> = Matrix::zeros(1, 2);
    assert_eq!(rows_of(&z), lit(&[&[0.0, 0.0]]));
    let e: Matrix<R64> = Matrix::eye(2, 3);
    assert_eq!(rows_of(&e), lit(&[&[1.0, 0.0, 0.0], &[0.0, 1.0, 0.0]]));
    let i: Matrix<R64> = Matrix::identity(2);
    assert_eq!(rows_of(&i), eye_rows(2));
}

#[test]
fn matrix_triangles() {
    let m = mat(&[&[1.0, 2.0, 3.0], &[4.0, 5.0, 6.0], &[7.0, 8.0, 9.0], &[10.0, 11.0, 12.0]]);
    assert_eq!(
        rows_of(&m.lower_triangle()),
        lit(&[&[1.0, 0.0, 0.0], &[4.0, 5.0, 0.0], &[7.0, 8.0, 9.0], &[10.0, 11.0, 12.0]])
    );
    assert_eq!(
        rows_of(&m.unit_lower_triangle()),
        lit(&[&[1.0, 0.0, 0.0], &[4.0, 1.0, 0.0], &[7.0, 8.0, 1.0], &[10.0, 11.0, 12.0]])
    );
    assert_eq!(rows_of(&m.upper_triangle()), lit(&[&[1.0, 2.0, 3.0], &[0.0, 5.0, 6.0], &[0.0, 0.0, 9.0]]));
    let w = mat(&[&[1.0, 2.0, 3.0], &[4.0, 5.0, 6.0]]);
    assert_eq!(rows_of(&w.unit_lower_triangle()), lit(&[&[1.0, 0.0], &[4.0, 1.0]]));
    assert_eq!(rows_of(&w.upper_triangle()), lit(&[&[1.0, 2.0, 3.0], &[0.0, 5.0, 6.0]]));
}

#[test]
fn empty_matrices_decompose() {
    let e = || -> Matrix<R64> { Matrix::from_row_major(0, 0, Vec::new()) };
    assert_eq!(e().lu().l().nrows(), 0);
    assert_eq!(e().full_piv_lu().u().nrows(), 0);
    assert_eq!(e().qr().q().nrows(), 0);
    assert_eq!(e().col_piv_qr().r().nrows(), 0);
    assert!(e().cholesky().is_some());
    assert!(e().udu().is_some());
    assert_eq!(e().symmetric_tridiagonalize().diagonal().len(), 0);
    assert_eq!(e().bidiagonalize().diagonal().len(), 0);
    assert_eq!(e().svd(true, true).singular_values.len(), 0);
    assert_eq!(e().symmetric_eigen().eigenvalues.len(), 0);
    let (q, t) = e().schur().unpack();
    assert_eq!(q.nrows(), 0);
    assert_eq!(t.nrows(), 0);
    let wide: Matrix<R64> = Matrix::from_row_major(0, 3, Vec::new());
    let svd = wide.svd(true, true);
    assert_eq!(svd.v_t.as_ref().unwrap().ncols(), 3);
    assert_eq!(svd.singular_values.len(), 0);
}

#[test]
fn single_entry_decompositions() {
    let one = || mat(&[&[-3.0]]);
    let lu = one().lu();
    assert_eq!(rows_of(&lu.l()), lit(&[&[1.0]]));
    assert_eq!(rows_of(&lu.u()), lit(&[&[-3.0]]));
    let qr = one().qr();
    assert_eq!(rows_of(&qr.r()), lit(&[&[3.0]]));
    assert_eq!(rows_of(&qr.q()), lit(&[&[-1.0]]));
    assert!(one().cholesky().is_none());
    assert_eq!(rows_of(&mat(&[&[9.0]]).cholesky().unwrap().l()), lit(&[&[3.0]]));
    let f = one().udu().unwrap();
    assert_eq!(f.d().clone(), vec![R64(-3.0)]);
    assert_eq!(rows_of(f.u()), lit(&[&[1.0]]));
    let svd = one().svd(true, true);
    assert_eq!(svd.singular_values, vec![R64(3.0)]);
    let u = rows_of(svd.u.as_ref().unwrap());
    let v = rows_of(svd.v_t.as_ref().unwrap());
    assert_eq!(u[0][0] * 3.0 * v[0][0], -3.0);
    let b = one().bidiagonalize();
    assert_eq!(b.diagonal(), vec![R64(3.0)]);
    assert_eq!(b.off_diagonal().len(), 0);
}

#[test]
fn scalar_helpers() {
    assert_eq!(signum(R64(-2.5)), R64(-1.0));
    assert_eq!(signum(R64(0.0)), R64(1.0));
    assert_eq!(two::<R64>(), R64(2.0));
    assert_eq!(half::<R64>(), R64(0.5));
    assert_eq!(sign(R64(-0.1)), R64(-1.0));
    assert_eq!(sign(R64(0.0)), R64(1.0));
    assert_eq!(real_signum(R64(4.0)), R64(1.0));
    assert_eq!(real_signum(R64(0.0)), R64(1.0));
    assert_eq!(hypot(R64(3.0), R64(-4.0)), R64(5.0));
    assert!(is_negligible(R64(1e-20), R64(1.0), R64(-1.0), R64(1e-16)));
    assert!(!is_negligible(R64(1e-3), R64(1.0), R64(-1.0), R64(1e-16)));
    assert!(is_exceeding(R64(1e-3), R64(1.0), R64(-1.0), R64(1e-16)));
    assert!(!is_exceeding(R64(0.0), R64(0.0), R64(0.0), R64(1e-16)));
}

#[test]
fn givens_rotations() {
    let (c, s, r) = cancel_y(R64(3.0), R64(4.0)).unwrap();
    assert!(close(c.0, 0.6) && close(s.0, -0.8) && close(r.0, 5.0));
    assert!(close(c.0 * 3.0 - s.0 * 4.0, 5.0));
    assert!(close(s.0 * 3.0 + c.0 * 4.0, 0.0));
    assert!(cancel_y(R64(3.0), R64(0.0)).is_none());
    let (c, s, r) = cancel_x(R64(3.0), R64(4.0)).unwrap();
    assert!(close(c.0, 0.8) && close(s.0, 0.6) && close(r.0, 5.0));
    assert!(close(c.0 * 3.0 - s.0 * 4.0, 0.0));
    assert!(close(s.0 * 3.0 + c.0 * 4.0, 5.0));
    assert!(cancel_x(R64(0.0), R64(4.0)).is_none());
    let (c, s, n) = try_rotation(R64(-3.0), R64(4.0), R64(0.0)).unwrap();
    assert!(close(c.0, 0.6) && close(s.0, -0.8) && close(n.0, -5.0));
    assert!(try_rotation(R64(0.0), R64(0.0), R64(0.0)).is_none());
    assert!(try_rotation(R64(3.0), R64(4.0), R64(5.0)).is_none());
    let (c, s, n) = try_rotation(R64(3.0), R64(4.0), R64(1.0)).unwrap();
    assert!(close(c.0, 0.6) && close(s.0, 0.8) && close(n.0, 5.0));
    assert_eq!(rotation(R64(0.0), R64(0.0)), (R64(1.0), R64(0.0)));
    let mut m = mat(&[&[3.0, 1.0], &[4.0, 2.0]]);
    rotate(&mut m, R64(0.6), R64(-0.8), 0, 1, 0, 2);
    assert_close(&rows_of(&m), &lit(&[&[5.0, 2.2], &[0.0, 0.4]]), 1e-14);
    let mut m = mat(&[&[3.0, 4.0], &[1.0, 2.0]]);
    rotate_rows(&mut m, R64(0.6), R64(0.8), 0, 1, 0, 1);
    assert_close(&rows_of(&m), &lit(&[&[5.0, 0.0], &[1.0, 2.0]]), 1e-14);
}

#[test]
fn shifts_and_small_blocks() {
    assert_eq!(wilkinson_shift(R64(2.0), R64(5.0), R64(0.0)), R64(5.0));
    let s = wilkinson_shift(R64(2.0), R64(2.0), R64(1.0));
    assert!(close(s.0, 1.0));
    let s = wilkinson_shift(R64(1.0), R64(3.0), R64(2.0));
    assert!(close(s.0, 2.0 + 5.0f64.sqrt()));
    let (c, s, t) = jacobi(R64(2.0), R64(2.0), R64(1.0));
    assert!(close(t.0, 1.0) && close(c.0, 0.5f64.sqrt()) && close(s.0, 0.5f64.sqrt()));
    assert!(close(2.0 - t.0 * 1.0, 1.0) && close(2.0 + t.0 * 1.0, 3.0));
    assert_eq!(jacobi(R64(2.0), R64(5.0), R64(0.0)), (R64(1.0), R64(0.0), R64(0.0)));
    let (c, s, t) = jacobi(R64(1.0), R64(4.0), R64(2.0));
    assert!(close(t.0, 0.5) && close(c.0 * c.0 + s.0 * s.0, 1.0));
    assert!(close(1.0 - t.0 * 2.0, 0.0) && close(4.0 + t.0 * 2.0, 5.0));
    let (_, (s1, s2), _) = svd_2x2(R64(3.0), R64(0.0), R64(4.0));
    assert!(close(s1.0, 3.0) && close(s2.0, 4.0));
    let golden = (1.0 + 5.0f64.sqrt()) / 2.0;
    for (m11, m12, m22) in [(1.0, 1.0, 1.0), (1.0, 1.0, 1e-8), (1e-9, 1.0, 1.0), (0.5, -2.0, 0.0), (0.0, 0.0, 0.0), (0.0, 3.0, 0.0), (-1.0, 1e-7, 1.0)] {
        let ((cu, su), (s1, s2), (cv, sv)) = svd_2x2(R64(m11), R64(m12), R64(m22));
        let u = lit(&[&[cu.0, -su.0], &[su.0, cu.0]]);
        let v = lit(&[&[cv.0, -sv.0], &[sv.0, cv.0]]);
        let back = mul(&mul(&u, &diag_of(&[s1.0, s2.0])), &transpose(&v));
        assert_close(&back, &lit(&[&[m11, m12], &[0.0, m22]]), 1e-15);
        assert!(close(cu.0 * cu.0 + su.0 * su.0, 1.0));
        assert!(close(cv.0 * cv.0 + sv.0 * sv.0, 1.0));
        if (m11, m12, m22) == (1.0, 1.0, 1.0) {
            assert!(close(s1.0.abs().min(s2.0.abs()), 1.0 / golden));
            assert!(close(s1.0.abs().max(s2.0.abs()), golden));
        }
    }
}

#[test]
fn delimiting_the_block() {
    let diag = vec![R64(1.0), R64(2.0), R64(3.0), R64(4.0)];
    let mut off = vec![R64(0.5), R64(0.0), R64(0.5)];
    assert_eq!(delimit_subproblem(&diag, &mut off, 3, R64(1e-16)), (2, 3));
    let mut off = vec![R64(0.5), R64(0.5), R64(1e-20)];
    assert_eq!(delimit_subproblem(&diag, &mut off, 3, R64(1e-16)), (0, 2));
    assert_eq!(off[2], R64(1e-20));
    let mut off = vec![R64(1e-20), R64(0.5), R64(0.5)];
    assert_eq!(delimit_subproblem(&diag, &mut off, 3, R64(1e-16)), (1, 3));
    assert_eq!(off[0], R64(0.0));
    let mut off = vec![R64(0.0), R64(0.0), R64(0.0)];
    assert_eq!(delimit_subproblem(&diag, &mut off, 3, R64(1e-16)), (0, 0));
}

#[test]
fn householder_axis() {
    let mut v = vec![R64(3.0), R64(4.0)];
    let (norm, active) = reflection_axis_mut(&mut v);
    assert!(active);
    assert!(close(norm.0, -5.0));
    assert!(close(v[0].0 * v[0].0 + v[1].0 * v[1].0, 1.0));
    assert!(close(v[0].0, 8.0 / 80.0f64.sqrt()));
    let mut z = vec![R64(0.0), R64(0.0), R64(0.0)];
    let (norm, active) = reflection_axis_mut(&mut z);
    assert!(!active);
    assert_eq!(norm, R64(0.0));
    assert_eq!(z, vec![R64(0.0), R64(0.0), R64(0.0)]);
}

#[test]
fn householder_on_matrices() {
    let a = lit(&[&[3.0, 1.0], &[4.0, 2.0]]);
    let mut m = mat(&[&[3.0, 1.0], &[4.0, 2.0]]);
    let norm = clear_column(&mut m, 0, 0);
    assert!(close(norm.0, -5.0));
    let r = rows_of(&m);
    assert!(close(r[0][1], 2.2) && close(r[1][1].abs(), 0.4));
    let mut t = mat(&[&[3.0, 4.0], &[1.0, 2.0]]);
    let norm = clear_row(&mut t, 0, 0);
    assert!(close(norm.0, -5.0));
    let r = rows_of(&t);
    assert!(close(r[1][0], 2.2) && close(r[1][1].abs(), 0.4));
    let m = mat(&[&[1.0, 2.0, 3.0], &[4.0, 5.0, 6.0]]);
    assert_eq!(column_from(&m, 1, 0), vec![R64(2.0), R64(5.0)]);
    assert_eq!(column_from(&m, 2, 1), vec![R64(6.0)]);
    assert_eq!(row_from(&m, 1, 1), vec![R64(5.0), R64(6.0)]);
    let mut w = mat(&[&[1.0, 2.0, 3.0], &[4.0, 5.0, 6.0]]);
    write_column(&mut w, 0, 1, &vec![R64(-1.0)]);
    write_row(&mut w, 0, 1, &vec![R64(8.0), R64(9.0)]);
    assert_eq!(rows_of(&w), lit(&[&[1.0, 8.0, 9.0], &[-1.0, 5.0, 6.0]]));
    let axis = vec![R64(1.0), R64(0.0)];
    let mut x = mat(&[&[3.0, 1.0], &[4.0, 2.0]]);
    reflect_columns(&mut x, &axis, R64(1.0), 0, 0, 2);
    assert_eq!(rows_of(&x), lit(&[&[-3.0, -1.0], &[4.0, 2.0]]));
    let mut y = mat(&[&[3.0, 1.0], &[4.0, 2.0]]);
    reflect_rows(&mut y, &axis, R64(1.0), 0, 2, 0);
    assert_eq!(rows_of(&y), lit(&[&[-3.0, 1.0], &[-4.0, 2.0]]));
    assert_eq!(a.len(), 2);
}

#[test]
fn scaling_by_the_largest_entry() {
    let m = mat(&[&[1.0, -8.0], &[2.0, 4.0]]);
    assert_eq!(amax_of(&m, false), R64(8.0));
    assert_eq!(amax_of(&m, true), R64(4.0));
    let mut n = mat(&[&[1.0, -8.0], &[2.0, 4.0]]);
    assert_eq!(normalize(&mut n, false), R64(8.0));
    assert_eq!(rows_of(&n), lit(&[&[0.125, -1.0], &[0.25, 0.5]]));
    let mut l = mat(&[&[1.0, -8.0], &[2.0, 4.0]]);
    assert_eq!(normalize(&mut l, true), R64(4.0));
    assert_eq!(rows_of(&l), lit(&[&[0.25, -8.0], &[0.5, 1.0]]));
    let mut z = mat(&[&[0.0, 0.0], &[0.0, 0.0]]);
    assert_eq!(normalize(&mut z, false), R64(0.0));
    assert_eq!(rows_of(&z), lit(&[&[0.0, 0.0], &[0.0, 0.0]]));
    scale_mut(&mut n, R64(8.0));
    assert_eq!(rows_of(&n), lit(&[&[1.0, -8.0], &[2.0, 4.0]]));
    unscale_mut(&mut n, true, R64(2.0));
    assert_eq!(rows_of(&n), lit(&[&[0.5, -8.0], &[1.0, 2.0]]));
    let mut v = vec![R64(1.0), R64(-2.0)];
    scale_reals(&mut v, R64(3.0));
    assert_eq!(v, vec![R64(3.0), R64(-6.0)]);
}

#[test]
fn complex_numbers() {
    let z = Complex { re: R64(3.0), im: R64(4.0) };
    let w = Complex { re: R64(1.0), im: R64(-2.0) };
    assert_eq!(z.modulus(), R64(5.0));
    let p = z.times(w);
    assert_eq!((p.re, p.im), (R64(11.0), R64(-2.0)));
    let q = p.over(w);
    assert!(close(q.re.0, 3.0) && close(q.im.0, 4.0));
    let c = z.conj();
    assert_eq!((c.re, c.im), (R64(3.0), R64(-4.0)));
    let s = Complex { re: R64(-4.0), im: R64(0.0) }.try_sqrt().unwrap();
    assert!(close(s.re.0, 0.0) && close(s.im.0, 2.0));
    let s = Complex { re: R64(0.0), im: R64(-2.0) }.try_sqrt().unwrap();
    assert!(close(s.re.0, 1.0) && close(s.im.0, -1.0));
    let u = z.unscale(R64(5.0));
    assert!(close(u.re.0, 0.6) && close(u.im.0, 0.8));
    let t = z.scale(R64(2.0));
    assert_eq!((t.re, t.im), (R64(6.0), R64(8.0)));
    assert!(Complex::<R64>::zero().is_zero());
    assert!(!z.is_zero());
    assert_eq!(z.re(), R64(3.0));
    let n = z.minus(w).plus(Complex::<R64>::one()).neg();
    assert_eq!((n.re, n.im), (R64(-3.0), R64(-6.0)));
    let f = Complex::<R64>::from_real(R64(2.0));
    assert_eq!((f.re, f.im), (R64(2.0), R64(0.0)));
    let mut v = vec![z, w];
    conjugate_mut(&mut v);
    assert_eq!((v[0].im, v[1].im), (R64(-4.0), R64(2.0)));
}

#[test]
fn complex_matrices_over_library_numbers() {
    let z = |re: f64, im: f64| Complex { re: R64(re), im: R64(im) };
    let a = vec![z(2.0, 0.0), z(1.0, 1.0), z(1.0, -1.0), z(3.0, 0.0)];
    let m = Matrix::from_row_major(2, 2, a.clone());
    let l = m.cholesky().unwrap().l();
    let l00 = l.get(0, 0);
    let l10 = l.get(1, 0);
    let l11 = l.get(1, 1);
    assert!(close(l00.re.0 * l00.re.0, 2.0));
    let back = l10.times(l10.conj()).plus(l11.times(l11.conj()));
    assert!(close(back.re.0, 3.0) && close(back.im.0, 0.0));
    let prod = l10.times(l00.conj());
    assert!(close(prod.re.0, 1.0) && close(prod.im.0, -1.0));
}

#[test]
fn two_element_field() {
    let o = Gf2(true);
    let z = Gf2(false);
    assert_eq!(<Gf2 as ComplexField>::plus(o, o), z);
    assert_eq!(<Gf2 as ComplexField>::times(o, o), o);
    assert_eq!(<Gf2 as ComplexField>::minus(z, o), o);
    assert_eq!(<Gf2 as ComplexField>::over(o, o), o);
    assert_eq!(<Gf2 as ComplexField>::neg(o), o);
    assert!(<Gf2 as RealField>::lt(z, o));
    assert!(!<Gf2 as RealField>::lt(o, o));
    assert!(<Gf2 as RealField>::le(o, o));
    assert_eq!(o.try_sqrt(), Some(o));
    assert!(<Gf2 as ComplexField>::is_zero(z));
    assert_eq!(o.modulus(), o);
}
