use linalg::matrix::Matrix;
use linalg::scalar::{ComplexField, RealField};

#[derive(Clone, Copy, Debug, PartialEq)]
struct R64(f64);

impl RealField for R64 {
    fn spec_zero() -> Self { R64(0.0) }
    fn spec_one() -> Self { R64(1.0) }
    fn spec_epsilon() -> Self { R64(f64::EPSILON) }
    fn spec_plus(self, rhs: Self) -> Self { R64(self.0 + rhs.0) }
    fn spec_minus(self, rhs: Self) -> Self { R64(self.0 - rhs.0) }
    fn spec_times(self, rhs: Self) -> Self { R64(self.0 * rhs.0) }
    fn spec_over(self, rhs: Self) -> Self { R64(self.0 / rhs.0) }
    fn spec_neg(self) -> Self { R64(-self.0) }
    fn spec_abs(self) -> Self { R64(self.0.abs()) }
    fn spec_sqrt(self) -> Self { R64(self.0.sqrt()) }
    fn spec_is_zero(self) -> bool { self.0 == 0.0 }
    fn spec_lt(self, rhs: Self) -> bool { self.0 < rhs.0 }
    fn spec_le(self, rhs: Self) -> bool { self.0 <= rhs.0 }
    fn zero() -> Self { R64(0.0) }
    fn one() -> Self { R64(1.0) }
    fn epsilon() -> Self { R64(f64::EPSILON) }
    fn plus(self, rhs: Self) -> Self { R64(self.0 + rhs.0) }
    fn minus(self, rhs: Self) -> Self { R64(self.0 - rhs.0) }
    fn times(self, rhs: Self) -> Self { R64(self.0 * rhs.0) }
    fn over(self, rhs: Self) -> Self { R64(self.0 / rhs.0) }
    fn neg(self) -> Self { R64(-self.0) }
    fn abs(self) -> Self { R64(self.0.abs()) }
    fn sqrt(self) -> Self { R64(self.0.sqrt()) }
    fn is_zero(self) -> bool { self.0 == 0.0 }
    fn lt(self, rhs: Self) -> bool { self.0 < rhs.0 }
    fn le(self, rhs: Self) -> bool { self.0 <= rhs.0 }
}

impl ComplexField for R64 {
    type Real = R64;
    fn spec_zero() -> Self { R64(0.0) }
    fn spec_one() -> Self { R64(1.0) }
    fn spec_plus(self, rhs: Self) -> Self { R64(self.0 + rhs.0) }
    fn spec_minus(self, rhs: Self) -> Self { R64(self.0 - rhs.0) }
    fn spec_times(self, rhs: Self) -> Self { R64(self.0 * rhs.0) }
    fn spec_over(self, rhs: Self) -> Self { R64(self.0 / rhs.0) }
    fn spec_neg(self) -> Self { R64(-self.0) }
    fn spec_conj(self) -> Self { self }
    fn spec_from_real(r: R64) -> Self { r }
    fn spec_re(self) -> R64 { self }
    fn spec_modulus(self) -> R64 { R64(self.0.abs()) }
    fn spec_scale(self, factor: R64) -> Self { R64(self.0 * factor.0) }
    fn spec_unscale(self, divisor: R64) -> Self { R64(self.0 / divisor.0) }
    fn spec_try_sqrt(self) -> Option<Self> { if self.0 >= 0.0 { Some(R64(self.0.sqrt())) } else { None } }
    fn spec_is_zero(self) -> bool { self.0 == 0.0 }
    fn zero() -> Self { R64(0.0) }
    fn one() -> Self { R64(1.0) }
    fn plus(self, rhs: Self) -> Self { R64(self.0 + rhs.0) }
    fn minus(self, rhs: Self) -> Self { R64(self.0 - rhs.0) }
    fn times(self, rhs: Self) -> Self { R64(self.0 * rhs.0) }
    fn over(self, rhs: Self) -> Self { R64(self.0 / rhs.0) }
    fn neg(self) -> Self { R64(-self.0) }
    fn conj(self) -> Self { self }
    fn from_real(r: R64) -> Self { r }
    fn re(self) -> R64 { self }
    fn modulus(self) -> R64 { R64(self.0.abs()) }
    fn scale(self, factor: R64) -> Self { R64(self.0 * factor.0) }
    fn unscale(self, divisor: R64) -> Self { R64(self.0 / divisor.0) }
    fn try_sqrt(self) -> Option<Self> { if self.0 >= 0.0 { Some(R64(self.0.sqrt())) } else { None } }
    fn is_zero(self) -> bool { self.0 == 0.0 }
}

type Rows = Vec<Vec<f64>>;

fn mat(rows: &[&[f64]]) -> Matrix<R64> {
    let nrows = rows.len();
    let ncols = if nrows == 0 { 0 } else { rows[0].len() };
    let mut data = Vec::new();
    for r in rows {
        assert_eq!(r.len(), ncols);
        for x in r.iter() {
            data.push(R64(*x));
        }
    }
    Matrix::from_row_major(nrows, ncols, data)
}

fn rows_of(m: &Matrix<R64>) -> Rows {
    let mut out = Vec::new();
    for i in 0..m.nrows() {
        let mut row = Vec::new();
        for j in 0..m.ncols() {
            row.push(m.get(i, j).0);
        }
        out.push(row);
    }
    out
}

fn lit(rows: &[&[f64]]) -> Rows {
    rows.iter().map(|r| r.to_vec()).collect()
}

fn mul(a: &Rows, b: &Rows) -> Rows {
    let n = a.len();
    let k = b.len();
    let m = if k == 0 { 0 } else { b[0].len() };
    let mut out = vec![vec![0.0; m]; n];
    for i in 0..n {
        assert_eq!(a[i].len(), k);
        for j in 0..m {
            for x in 0..k {
                out[i][j] += a[i][x] * b[x][j];
            }
        }
    }
    out
}

fn transpose(a: &Rows) -> Rows {
    let n = a.len();
    let m = if n == 0 { 0 } else { a[0].len() };
    let mut out = vec![vec![0.0; n]; m];
    for i in 0..n {
        for j in 0..m {
            out[j][i] = a[i][j];
        }
    }
    out
}

fn diag_of(d: &[f64]) -> Rows {
    let n = d.len();
    let mut out = vec![vec![0.0; n]; n];
    for i in 0..n {
        out[i][i] = d[i];
    }
    out
}

fn eye_rows(n: usize) -> Rows {
    diag_of(&vec![1.0; n])
}

fn assert_close(a: &Rows, b: &Rows, tol: f64) {
    assert_eq!(a.len(), b.len(), "row counts differ");
    for i in 0..a.len() {
        assert_eq!(a[i].len(), b[i].len(), "column counts differ");
        for j in 0..a[i].len() {
            assert!(
                (a[i][j] - b[i][j]).abs() <= tol,
                "entry ({}, {}): {} against {}",
                i,
                j,
                a[i][j],
                b[i][j]
            );
        }
    }
}

struct Lcg(u64);

impl Lcg {
    fn next(&mut self) -> f64 {
        self.0 = self.0.wrapping_mul(6364136223846793005).wrapping_add(1442695040888963407);
        let bits = (self.0 >> 11) as f64;
        bits / (1u64 << 53) as f64 * 2.0 - 1.0
    }

    fn matrix(&mut self, nrows: usize, ncols: usize) -> Rows {
        (0..nrows).map(|_| (0..ncols).map(|_| self.next()).collect()).collect()
    }
}

fn from_rows(a: &Rows) -> Matrix<R64> {
    let nrows = a.len();
    let ncols = if nrows == 0 { 0 } else { a[0].len() };
    let mut data = Vec::new();
    for r in a {
        for x in r {
            data.push(R64(*x));
        }
    }
    Matrix::from_row_major(nrows, ncols, data)
}

fn reals(v: &[R64]) -> Vec<f64> {
    v.iter().map(|x| x.0).collect()
}

fn check_orthonormal(q: &Rows, tol: f64) {
    let g = mul(&transpose(q), q);
    assert_close(&g, &eye_rows(g.len()), tol);
}

fn degrade(a: &mut Rows, kind: usize) {
    let nrows = a.len();
    let ncols = a[0].len();
    match kind {
        1 => {
            for i in 0..nrows {
                a[i][ncols - 1] = 0.0;
            }
        }
        2 => {
            for j in 0..ncols {
                a[0][j] = 0.0;
            }
        }
        3 => {
            for i in 0..nrows {
                a[i][ncols - 1] = 2.0 * a[i][0];
            }
        }
        4 => {
            for j in 0..ncols {
                a[nrows - 1][j] = -a[0][j];
            }
        }
        5 => {
            for i in 0..nrows {
                for j in 0..ncols {
                    if i != j {
                        a[i][j] = 0.0;
                    }
                }
            }
        }
        _ => {}
    }
}

fn samples() -> Vec<Rows> {
    let mut out = Vec::new();
    for seed in [0x1234_5678_9abc_def0u64, 0x0bad_cafe_dead_beef, 42] {
        let mut rng = Lcg(seed);
        for nrows in 1..=8 {
            for ncols in 1..=8 {
                for kind in 0..6 {
                    let mut a = rng.matrix(nrows, ncols);
                    degrade(&mut a, kind);
                    out.push(a);
                }
            }
        }
    }
    for n in [12, 20] {
        let mut rng = Lcg(n as u64);
        out.push(rng.matrix(n, n));
        out.push(rng.matrix(n, n / 2));
        out.push(rng.matrix(n / 2, n));
    }
    out
}

fn square_samples() -> Vec<Rows> {
    samples().into_iter().filter(|a| a.len() == a[0].len()).collect()
}

#[test]
fn stress_svd() {
    for a in samples() {
        let svd = from_rows(&a).try_svd(true, true, R64(f64::EPSILON), 0).unwrap();
        let u = rows_of(svd.u.as_ref().unwrap());
        let v_t = rows_of(svd.v_t.as_ref().unwrap());
        let s = reals(&svd.singular_values);
        assert_close(&mul(&mul(&u, &diag_of(&s)), &v_t), &a, 1e-13);
        check_orthonormal(&u, 1e-13);
        check_orthonormal(&transpose(&v_t), 1e-13);
        for i in 0..s.len() {
            assert!(s[i] >= 0.0);
            if i > 0 {
                assert!(s[i - 1] >= s[i]);
            }
        }
        let plain = from_rows(&a).try_svd(false, false, R64(f64::EPSILON), 0).unwrap();
        let t = reals(&plain.singular_values);
        for i in 0..s.len() {
            assert!((s[i] - t[i]).abs() <= 1e-13);
        }
    }
}

#[test]
fn stress_symmetric_eigen() {
    for a in square_samples() {
        let n = a.len();
        let t = transpose(&a);
        let sym: Rows = (0..n).map(|i| (0..n).map(|j| a[i][j] + t[i][j]).collect()).collect();
        let e = from_rows(&sym).try_symmetric_eigen(R64(f64::EPSILON), 0).unwrap();
        let q = rows_of(&e.eigenvectors);
        let d = diag_of(&reals(&e.eigenvalues));
        assert_close(&mul(&mul(&q, &d), &transpose(&q)), &sym, 1e-13);
        check_orthonormal(&q, 1e-13);
        let mut from_svd = reals(&from_rows(&sym).svd(false, false).singular_values);
        let mut abs: Vec<f64> = reals(&e.eigenvalues).iter().map(|x| x.abs()).collect();
        abs.sort_by(|x, y| y.partial_cmp(x).unwrap());
        from_svd.sort_by(|x, y| y.partial_cmp(x).unwrap());
        for i in 0..n {
            assert!((abs[i] - from_svd[i]).abs() <= 1e-13);
        }
    }
}

#[test]
fn stress_schur() {
    for a in square_samples() {
        let n = a.len();
        let (q, t) = from_rows(&a).try_schur(R64(f64::EPSILON), 0).unwrap().unpack();
        let q = rows_of(&q);
        let t = rows_of(&t);
        assert_close(&mul(&mul(&q, &t), &transpose(&q)), &a, 1e-13);
        check_orthonormal(&q, 1e-13);
        for i in 0..n {
            for j in 0..n {
                if i > j + 1 {
                    assert!(t[i][j].abs() <= 1e-13);
                }
            }
        }
        for i in 2..n {
            assert!(t[i][i - 1].abs() <= 1e-13 || t[i - 1][i - 2].abs() <= 1e-13);
        }
        let trace_a: f64 = (0..n).map(|i| a[i][i]).sum();
        let trace_t: f64 = (0..n).map(|i| t[i][i]).sum();
        assert!((trace_a - trace_t).abs() <= 1e-13);
    }
}

#[test]
fn stress_orthogonal_reductions() {
    for a in samples() {
        let qr = from_rows(&a).qr();
        let q = rows_of(&qr.q());
        assert_close(&mul(&q, &rows_of(&qr.r())), &a, 1e-13);
        check_orthonormal(&q, 1e-13);
        let cp = from_rows(&a).col_piv_qr();
        let mut ap = from_rows(&a);
        cp.p().permute_columns(&mut ap);
        let r = rows_of(&cp.r());
        assert_close(&mul(&rows_of(&cp.q()), &r), &rows_of(&ap), 1e-13);
        for i in 1..r.len() {
            assert!(r[i][i] <= r[i - 1][i - 1] + 1e-13);
        }
        let (u, d, v_t) = from_rows(&a).bidiagonalize().unpack();
        assert_close(&mul(&mul(&rows_of(&u), &rows_of(&d)), &rows_of(&v_t)), &a, 1e-13);
        if a.len() == a[0].len() {
            let (q, h) = from_rows(&a).hessenberg().unpack();
            let q = rows_of(&q);
            assert_close(&mul(&mul(&q, &rows_of(&h)), &transpose(&q)), &a, 1e-13);
            check_orthonormal(&q, 1e-13);
        }
    }
}

#[test]
fn stress_eliminations() {
    for a in samples() {
        let lu = from_rows(&a).lu();
        let mut pa = from_rows(&a);
        lu.p().permute_rows(&mut pa);
        let l = rows_of(&lu.l());
        assert_close(&mul(&l, &rows_of(&lu.u())), &rows_of(&pa), 1e-13);
        for row in &l {
            for x in row {
                assert!(x.abs() <= 1.0);
            }
        }
        let fp = from_rows(&a).full_piv_lu();
        let mut paq = from_rows(&a);
        fp.p().permute_rows(&mut paq);
        fp.q().permute_columns(&mut paq);
        let l = rows_of(&fp.l());
        assert_close(&mul(&l, &rows_of(&fp.u())), &rows_of(&paq), 1e-13);
        for row in &l {
            for x in row {
                assert!(x.abs() <= 1.0);
            }
        }
        if a.len() == a[0].len() {
            let n = a.len();
            let mut spd = mul(&a, &transpose(&a));
            for i in 0..n {
                spd[i][i] += 0.5;
            }
            let c = rows_of(&from_rows(&spd).cholesky().unwrap().l());
            assert_close(&mul(&c, &transpose(&c)), &spd, 1e-13);
            let f = from_rows(&spd).udu().unwrap();
            let u = rows_of(f.u());
            let d = diag_of(&reals(f.d()));
            assert_close(&mul(&mul(&u, &d), &transpose(&u)), &spd, 1e-13);
        }
    }
}

#[test]
fn repeated_and_clustered_values() {
    let a = lit(&[&[2.0, 0.0, 0.0], &[0.0, 2.0, 0.0], &[0.0, 0.0, 2.0]]);
    assert_eq!(reals(&from_rows(&a).svd(true, true).singular_values), vec![2.0, 2.0, 2.0]);
    let b = lit(&[&[1.0, 1.0, 1.0], &[1.0, 1.0, 1.0], &[1.0, 1.0, 1.0]]);
    let s = reals(&from_rows(&b).svd(true, true).singular_values);
    assert!((s[0] - 3.0).abs() < 1e-14 && s[1].abs() < 1e-14 && s[2].abs() < 1e-14);
    let e = from_rows(&b).symmetric_eigen();
    let mut vals = reals(&e.eigenvalues);
    vals.sort_by(|x, y| x.partial_cmp(y).unwrap());
    assert!(vals[0].abs() < 1e-14 && vals[1].abs() < 1e-14 && (vals[2] - 3.0).abs() < 1e-14);
    let j = lit(&[&[1.0, 1.0, 0.0], &[0.0, 1.0, 1.0], &[0.0, 0.0, 1.0]]);
    let (q, t) = from_rows(&j).schur().unpack();
    assert_close(&mul(&mul(&rows_of(&q), &rows_of(&t)), &transpose(&rows_of(&q))), &j, 1e-14);
}
