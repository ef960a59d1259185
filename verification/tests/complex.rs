use linalg::matrix::Matrix;
use linalg::scalar::{ComplexField, RealField};

#[derive(Clone, Copy, Debug, PartialEq)]
struct R64(f64);

impl RealField for R64 {
    fn spec_zero() -> Self { R64(0.0) }
    fn spec_one() -> Self { R64(1.0) }
    fn spec_epsilon() -> Self { R64(f64::EPSILON) }
    fn spec_plus(self, rhs: Self) -> Self { R64(self.0 + rhs.0) }
    fn spec_minus(self, rhs: Self) -> Self { R64(self.0 - rhs.0) }
    fn spec_times(self, rhs: Self) -> Self { R64(self.0 * rhs.0) }
    fn spec_over(self, rhs: Self) -> Self { R64(self.0 / rhs.0) }
    fn spec_neg(self) -> Self { R64(-self.0) }
    fn spec_abs(self) -> Self { R64(self.0.abs()) }
    fn spec_sqrt(self) -> Self { R64(self.0.sqrt()) }
    fn spec_is_zero(self) -> bool { self.0 == 0.0 }
    fn spec_lt(self, rhs: Self) -> bool { self.0 < rhs.0 }
    fn spec_le(self, rhs: Self) -> bool { self.0 <= rhs.0 }
    fn zero() -> Self { R64(0.0) }
    fn one() -> Self { R64(1.0) }
    fn epsilon() -> Self { R64(f64::EPSILON) }
    fn plus(self, rhs: Self) -> Self { R64(self.0 + rhs.0) }
    fn minus(self, rhs: Self) -> Self { R64(self.0 - rhs.0) }
    fn times(self, rhs: Self) -> Self { R64(self.0 * rhs.0) }
    fn over(self, rhs: Self) -> Self { R64(self.0 / rhs.0) }
    fn neg(self) -> Self { R64(-self.0) }
    fn abs(self) -> Self { R64(self.0.abs()) }
    fn sqrt(self) -> Self { R64(self.0.sqrt()) }
    fn is_zero(self) -> bool { self.0 == 0.0 }
    fn lt(self, rhs: Self) -> bool { self.0 < rhs.0 }
    fn le(self, rhs: Self) -> bool { self.0 <= rhs.0 }
}

impl ComplexField for R64 {
    type Real = R64;
    fn spec_zero() -> Self { R64(0.0) }
    fn spec_one() -> Self { R64(1.0) }
    fn spec_plus(self, rhs: Self) -> Self { R64(self.0 + rhs.0) }
    fn spec_minus(self, rhs: Self) -> Self { R64(self.0 - rhs.0) }
    fn spec_times(self, rhs: Self) -> Self { R64(self.0 * rhs.0) }
    fn spec_over(self, rhs: Self) -> Self { R64(self.0 / rhs.0) }
    fn spec_neg(self) -> Self { R64(-self.0) }
    fn spec_conj(self) -> Self { self }
    fn spec_from_real(r: R64) -> Self { r }
    fn spec_re(self) -> R64 { self }
    fn spec_modulus(self) -> R64 { R64(self.0.abs()) }
    fn spec_scale(self, factor: R64) -> Self { R64(self.0 * factor.0) }
    fn spec_unscale(self, divisor: R64) -> Self { R64(self.0 / divisor.0) }
    fn spec_try_sqrt(self) -> Option<Self> { if self.0 >= 0.0 { Some(R64(self.0.sqrt())) } else { None } }
    fn spec_is_zero(self) -> bool { self.0 == 0.0 }
    fn zero() -> Self { R64(0.0) }
    fn one() -> Self { R64(1.0) }
    fn plus(self, rhs: Self) -> Self { R64(self.0 + rhs.0) }
    fn minus(self, rhs: Self) -> Self { R64(self.0 - rhs.0) }
    fn times(self, rhs: Self) -> Self { R64(self.0 * rhs.0) }
    fn over(self, rhs: Self) -> Self { R64(self.0 / rhs.0) }
    fn neg(self) -> Self { R64(-self.0) }
    fn conj(self) -> Self { self }
    fn from_real(r: R64) -> Self { r }
    fn re(self) -> R64 { self }
    fn modulus(self) -> R64 { R64(self.0.abs()) }
    fn scale(self, factor: R64) -> Self { R64(self.0 * factor.0) }
    fn unscale(self, divisor: R64) -> Self { R64(self.0 / divisor.0) }
    fn try_sqrt(self) -> Option<Self> { if self.0 >= 0.0 { Some(R64(self.0.sqrt())) } else { None } }
    fn is_zero(self) -> bool { self.0 == 0.0 }
}

#[derive(Clone, Copy, Debug, PartialEq)]
struct C64 {
    re: f64,
    im: f64,
}

fn c(re: f64, im: f64) -> C64 {
    C64 { re, im }
}

fn c_add(a: C64, b: C64) -> C64 {
    c(a.re + b.re, a.im + b.im)
}

fn c_sub(a: C64, b: C64) -> C64 {
    c(a.re - b.re, a.im - b.im)
}

fn c_mul(a: C64, b: C64) -> C64 {
    c(a.re * b.re - a.im * b.im, a.re * b.im + a.im * b.re)
}

fn c_div(a: C64, b: C64) -> C64 {
    let d = b.re * b.re + b.im * b.im;
    c((a.re * b.re + a.im * b.im) / d, (a.im * b.re - a.re * b.im) / d)
}

fn c_sqrt(a: C64) -> C64 {
    let m = a.re.hypot(a.im);
    if m == 0.0 {
        return c(0.0, 0.0);
    }
    let re = ((m + a.re) / 2.0).sqrt();
    let im = ((m - a.re) / 2.0).sqrt();
    c(re, if a.im < 0.0 { -im } else { im })
}

impl ComplexField for C64 {
    type Real = R64;
    fn spec_zero() -> Self { c(0.0, 0.0) }
    fn spec_one() -> Self { c(1.0, 0.0) }
    fn spec_plus(self, rhs: Self) -> Self { c_add(self, rhs) }
    fn spec_minus(self, rhs: Self) -> Self { c_sub(self, rhs) }
    fn spec_times(self, rhs: Self) -> Self { c_mul(self, rhs) }
    fn spec_over(self, rhs: Self) -> Self { c_div(self, rhs) }
    fn spec_neg(self) -> Self { c(-self.re, -self.im) }
    fn spec_conj(self) -> Self { c(self.re, -self.im) }
    fn spec_from_real(r: R64) -> Self { c(r.0, 0.0) }
    fn spec_re(self) -> R64 { R64(self.re) }
    fn spec_modulus(self) -> R64 { R64(self.re.hypot(self.im)) }
    fn spec_scale(self, factor: R64) -> Self { c(self.re * factor.0, self.im * factor.0) }
    fn spec_unscale(self, divisor: R64) -> Self { c(self.re / divisor.0, self.im / divisor.0) }
    fn spec_try_sqrt(self) -> Option<Self> { Some(c_sqrt(self)) }
    fn spec_is_zero(self) -> bool { self.re == 0.0 && self.im == 0.0 }
    fn zero() -> Self { c(0.0, 0.0) }
    fn one() -> Self { c(1.0, 0.0) }
    fn plus(self, rhs: Self) -> Self { c_add(self, rhs) }
    fn minus(self, rhs: Self) -> Self { c_sub(self, rhs) }
    fn times(self, rhs: Self) -> Self { c_mul(self, rhs) }
    fn over(self, rhs: Self) -> Self { c_div(self, rhs) }
    fn neg(self) -> Self { c(-self.re, -self.im) }
    fn conj(self) -> Self { c(self.re, -self.im) }
    fn from_real(r: R64) -> Self { c(r.0, 0.0) }
    fn re(self) -> R64 { R64(self.re) }
    fn modulus(self) -> R64 { R64(self.re.hypot(self.im)) }
    fn scale(self, factor: R64) -> Self { c(self.re * factor.0, self.im * factor.0) }
    fn unscale(self, divisor: R64) -> Self { c(self.re / divisor.0, self.im / divisor.0) }
    fn try_sqrt(self) -> Option<Self> { Some(c_sqrt(self)) }
    fn is_zero(self) -> bool { self.re == 0.0 && self.im == 0.0 }
}

type CRows = Vec<Vec<C64>>;

fn cmat(a: &CRows) -> Matrix<C64> {
    let nrows = a.len();
    let ncols = if nrows == 0 { 0 } else { a[0].len() };
    let mut data = Vec::new();
    for r in a {
        for x in r {
            data.push(*x);
        }
    }
    Matrix::from_row_major(nrows, ncols, data)
}

fn crows(m: &Matrix<C64>) -> CRows {
    (0..m.nrows()).map(|i| (0..m.ncols()).map(|j| m.get(i, j)).collect()).collect()
}

fn cmul(a: &CRows, b: &CRows) -> CRows {
    let n = a.len();
    let k = b.len();
    let m = if k == 0 { 0 } else { b[0].len() };
    let mut out = vec![vec![c(0.0, 0.0); m]; n];
    for i in 0..n {
        assert_eq!(a[i].len(), k);
        for j in 0..m {
            for x in 0..k {
                out[i][j] = c_add(out[i][j], c_mul(a[i][x], b[x][j]));
            }
        }
    }
    out
}

fn adjoint(a: &CRows) -> CRows {
    let n = a.len();
    let m = if n == 0 { 0 } else { a[0].len() };
    let mut out = vec![vec![c(0.0, 0.0); n]; m];
    for i in 0..n {
        for j in 0..m {
            out[j][i] = c(a[i][j].re, -a[i][j].im);
        }
    }
    out
}

fn cdiag(d: &[f64]) -> CRows {
    let n = d.len();
    let mut out = vec![vec![c(0.0, 0.0); n]; n];
    for i in 0..n {
        out[i][i] = c(d[i], 0.0);
    }
    out
}

fn ceye(n: usize) -> CRows {
    cdiag(&vec![1.0; n])
}

fn assert_cclose(a: &CRows, b: &CRows, tol: f64) {
    assert_eq!(a.len(), b.len(), "row counts differ");
    for i in 0..a.len() {
        assert_eq!(a[i].len(), b[i].len(), "column counts differ");
        for j in 0..a[i].len() {
            let d = c_sub(a[i][j], b[i][j]);
            assert!(d.re.hypot(d.im) <= tol, "entry ({}, {}): {:?} against {:?}", i, j, a[i][j], b[i][j]);
        }
    }
}

fn check_unitary_columns(q: &CRows, tol: f64) {
    let g = cmul(&adjoint(q), q);
    assert_cclose(&g, &ceye(g.len()), tol);
}

fn csample() -> CRows {
    vec![
        vec![c(1.0, 2.0), c(0.0, -1.0), c(3.0, 0.5), c(-2.0, 1.0)],
        vec![c(2.0, 0.0), c(1.0, 1.0), c(0.0, 4.0), c(1.5, -0.5)],
        vec![c(-1.0, 1.0), c(2.0, -3.0), c(1.0, 0.0), c(0.0, 2.0)],
        vec![c(0.5, -2.0), c(3.0, 1.0), c(-1.0, -1.0), c(4.0, 0.0)],
    ]
}

fn ctall() -> CRows {
    vec![
        vec![c(1.0, 1.0), c(2.0, 0.0), c(0.0, -3.0)],
        vec![c(0.0, 2.0), c(-1.0, 1.0), c(4.0, 0.0)],
        vec![c(3.0, 0.0), c(1.0, -2.0), c(2.0, 2.0)],
        vec![c(-2.0, 1.0), c(0.0, 0.0), c(1.0, 1.0)],
        vec![c(1.0, -1.0), c(5.0, 0.5), c(0.0, 1.0)],
    ]
}

fn chermitian() -> CRows {
    let a = csample();
    let mut h = cmul(&a, &adjoint(&a));
    for i in 0..4 {
        h[i][i] = c(h[i][i].re + 1.0, 0.0);
    }
    h
}

#[test]
fn complex_lu_reconstructs() {
    let a = csample();
    let lu = cmat(&a).lu();
    let mut pm = cmat(&a);
    lu.p().permute_rows(&mut pm);
    let l = crows(&lu.l());
    assert_cclose(&cmul(&l, &crows(&lu.u())), &crows(&pm), 1e-12);
    for i in 0..4 {
        for j in 0..i {
            assert!(l[i][j].re.hypot(l[i][j].im) <= 1.0 + 1e-15);
        }
    }
}

#[test]
fn complex_full_piv_lu_reconstructs() {
    let a = ctall();
    let lu = cmat(&a).full_piv_lu();
    let mut pmq = cmat(&a);
    lu.p().permute_rows(&mut pmq);
    lu.q().permute_columns(&mut pmq);
    assert_cclose(&cmul(&crows(&lu.l()), &crows(&lu.u())), &crows(&pmq), 1e-12);
}

#[test]
fn complex_qr_reconstructs() {
    for a in [csample(), ctall(), adjoint(&ctall())] {
        let qr = cmat(&a).qr();
        let q = crows(&qr.q());
        let r = crows(&qr.r());
        assert_cclose(&cmul(&q, &r), &a, 1e-12);
        check_unitary_columns(&q, 1e-12);
        for i in 0..r.len() {
            for j in 0..i.min(r[i].len()) {
                assert_eq!(r[i][j], c(0.0, 0.0));
            }
        }
    }
}

#[test]
fn complex_col_piv_qr_reconstructs() {
    let a = ctall();
    let qr = cmat(&a).col_piv_qr();
    let mut ap = cmat(&a);
    qr.p().permute_columns(&mut ap);
    assert_cclose(&cmul(&crows(&qr.q()), &crows(&qr.r())), &crows(&ap), 1e-12);
}

#[test]
fn complex_cholesky_reconstructs() {
    let h = chermitian();
    let l = crows(&cmat(&h).cholesky().unwrap().l());
    assert_cclose(&cmul(&l, &adjoint(&l)), &h, 1e-10);
}

#[test]
fn complex_hessenberg_reconstructs() {
    let a = csample();
    let (q, h) = cmat(&a).hessenberg().unpack();
    let q = crows(&q);
    let h = crows(&h);
    assert_cclose(&cmul(&cmul(&q, &h), &adjoint(&q)), &a, 1e-12);
    check_unitary_columns(&q, 1e-12);
    assert_eq!(h[2][0], c(0.0, 0.0));
    assert_eq!(h[3][0], c(0.0, 0.0));
    assert_eq!(h[3][1], c(0.0, 0.0));
}

#[test]
fn complex_tridiagonal_reconstructs() {
    let h = chermitian();
    let (q, diag, off) = cmat(&h).symmetric_tridiagonalize().unpack();
    let q = crows(&q);
    let mut t = cdiag(&diag.iter().map(|x| x.0).collect::<Vec<f64>>());
    for i in 0..off.len() {
        t[i][i + 1] = c(off[i].0, 0.0);
        t[i + 1][i] = c(off[i].0, 0.0);
    }
    assert_cclose(&cmul(&cmul(&q, &t), &adjoint(&q)), &h, 1e-9);
    check_unitary_columns(&q, 1e-12);
}

#[test]
fn complex_symmetric_eigen_reconstructs() {
    let h = chermitian();
    let e = cmat(&h).symmetric_eigen();
    let q = crows(&e.eigenvectors);
    let d = cdiag(&e.eigenvalues.iter().map(|x| x.0).collect::<Vec<f64>>());
    assert_cclose(&cmul(&cmul(&q, &d), &adjoint(&q)), &h, 1e-9);
    check_unitary_columns(&q, 1e-10);
}

#[test]
fn complex_bidiagonal_reconstructs() {
    for a in [csample(), ctall(), adjoint(&ctall())] {
        let (u, d, v_t) = cmat(&a).bidiagonalize().unpack();
        let u = crows(&u);
        let v_t = crows(&v_t);
        assert_cclose(&cmul(&cmul(&u, &crows(&d)), &v_t), &a, 1e-12);
        check_unitary_columns(&u, 1e-12);
        check_unitary_columns(&adjoint(&v_t), 1e-12);
    }
}

#[test]
fn complex_svd_reconstructs() {
    for a in [csample(), ctall(), adjoint(&ctall())] {
        let svd = cmat(&a).svd(true, true);
        let u = crows(svd.u.as_ref().unwrap());
        let v_t = crows(svd.v_t.as_ref().unwrap());
        let s: Vec<f64> = svd.singular_values.iter().map(|x| x.0).collect();
        assert_cclose(&cmul(&cmul(&u, &cdiag(&s)), &v_t), &a, 1e-9);
        check_unitary_columns(&u, 1e-10);
        check_unitary_columns(&adjoint(&v_t), 1e-10);
        for i in 1..s.len() {
            assert!(s[i - 1] >= s[i] && s[i] >= 0.0);
        }
    }
}

#[test]
fn complex_schur_is_triangular() {
    let a = csample();
    let (q, t) = cmat(&a).schur().unpack();
    let q = crows(&q);
    let t = crows(&t);
    assert_cclose(&cmul(&cmul(&q, &t), &adjoint(&q)), &a, 1e-9);
    check_unitary_columns(&q, 1e-10);
    for i in 0..4 {
        for j in 0..i {
            assert!(t[i][j].re.hypot(t[i][j].im) < 1e-9, "entry ({}, {}) is {:?}", i, j, t[i][j]);
        }
    }
}

struct Lcg(u64);

impl Lcg {
    fn next(&mut self) -> f64 {
        self.0 = self.0.wrapping_mul(6364136223846793005).wrapping_add(1442695040888963407);
        let bits = (self.0 >> 11) as f64;
        bits / (1u64 << 53) as f64 * 2.0 - 1.0
    }

    fn matrix(&mut self, nrows: usize, ncols: usize) -> CRows {
        (0..nrows).map(|_| (0..ncols).map(|_| c(self.next(), self.next())).collect()).collect()
    }
}

fn random_samples() -> Vec<CRows> {
    let mut rng = Lcg(7);
    let mut out = Vec::new();
    for nrows in 1..=6 {
        for ncols in 1..=6 {
            for kind in 0..3 {
                let mut a = rng.matrix(nrows, ncols);
                if kind == 1 {
                    for i in 0..nrows {
                        a[i][ncols - 1] = c_mul(a[i][0], c(0.0, 2.0));
                    }
                }
                if kind == 2 {
                    for j in 0..ncols {
                        a[nrows - 1][j] = c(0.0, 0.0);
                    }
                }
                out.push(a);
            }
        }
    }
    out
}

#[test]
fn complex_stress_svd_and_reductions() {
    for a in random_samples() {
        let svd = cmat(&a).svd(true, true);
        let u = crows(svd.u.as_ref().unwrap());
        let v_t = crows(svd.v_t.as_ref().unwrap());
        let s: Vec<f64> = svd.singular_values.iter().map(|x| x.0).collect();
        assert_cclose(&cmul(&cmul(&u, &cdiag(&s)), &v_t), &a, 1e-13);
        check_unitary_columns(&u, 1e-13);
        check_unitary_columns(&adjoint(&v_t), 1e-13);
        for i in 0..s.len() {
            assert!(s[i] >= 0.0 && (i == 0 || s[i - 1] >= s[i]));
        }
        let qr = cmat(&a).qr();
        assert_cclose(&cmul(&crows(&qr.q()), &crows(&qr.r())), &a, 1e-13);
        let lu = cmat(&a).full_piv_lu();
        let mut paq = cmat(&a);
        lu.p().permute_rows(&mut paq);
        lu.q().permute_columns(&mut paq);
        assert_cclose(&cmul(&crows(&lu.l()), &crows(&lu.u())), &crows(&paq), 1e-13);
    }
}

#[test]
fn complex_stress_square() {
    for a in random_samples() {
        if a.len() != a[0].len() {
            continue;
        }
        let n = a.len();
        let (q, t) = cmat(&a).schur().unpack();
        let q = crows(&q);
        let t = crows(&t);
        assert_cclose(&cmul(&cmul(&q, &t), &adjoint(&q)), &a, 1e-12);
        check_unitary_columns(&q, 1e-12);
        for i in 0..n {
            for j in 0..i {
                assert!(t[i][j].re.hypot(t[i][j].im) <= 1e-12);
            }
        }
        let ah = adjoint(&a);
        let h: CRows = (0..n).map(|i| (0..n).map(|j| c_add(a[i][j], ah[i][j])).collect()).collect();
        let e = cmat(&h).symmetric_eigen();
        let v = crows(&e.eigenvectors);
        let d = cdiag(&e.eigenvalues.iter().map(|x| x.0).collect::<Vec<f64>>());
        assert_cclose(&cmul(&cmul(&v, &d), &adjoint(&v)), &h, 1e-13);
        check_unitary_columns(&v, 1e-13);
    }
}
