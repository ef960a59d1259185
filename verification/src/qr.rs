//! QR decomposition by Householder reflections.

use crate::householder::{
    clear_column, cleared_column, column_from, reflect_columns, reflected_columns, sub_column,
};
use crate::matrix::{eye, Matrix};
use crate::scalar::{signum, spec_signum, ComplexField};
use vstd::prelude::*;

verus! {

/// The packed matrix and the signed diagonal after the first `k` columns
/// were cleared.
pub open spec fn qr_run<T: ComplexField>(a: Seq<Seq<T>>, k: nat) -> (Seq<Seq<T>>, Seq<T>)
    decreases k,
{
    if k == 0 {
        (a, Seq::empty())
    } else {
        let (b, diag) = qr_run(a, (k - 1) as nat);
        let (c, norm) = cleared_column(b, k - 1, 0);
        (c, diag.push(norm))
    }
}

/// The factor `Q` after the last `t` reflections were applied to the
/// identity of `packed.len()` rows and `diag.len()` columns: the axis of
/// reflection `i` lies in column `i` of `packed` from the diagonal down.
pub open spec fn q_run<T: ComplexField>(packed: Seq<Seq<T>>, diag: Seq<T>, t: nat) -> Seq<Seq<T>>
    decreases t,
{
    if t == 0 {
        eye::<T>(packed.len(), diag.len())
    } else {
        let i = diag.len() - t;
        reflected_columns(
            q_run(packed, diag, (t - 1) as nat),
            sub_column(packed, i, i),
            spec_signum(diag[i]),
            i,
            i,
            diag.len() as int,
        )
    }
}

/// The factor `R`: the packed entries above the diagonal, the absolute
/// values of the signed diagonal on it, zeros below it.
pub open spec fn r_entry<T: ComplexField>(packed: Seq<Seq<T>>, diag: Seq<T>, i: int, j: int) -> T {
    if i < j {
        packed[i][j]
    } else if i == j {
        T::spec_from_real(diag[i].spec_modulus())
    } else {
        T::spec_zero()
    }
}

/// Builds `Q` from packed reflection axes.
pub(crate) fn build_q<T: ComplexField>(packed: &Matrix<T>, diag: &Vec<T>) -> (q: Matrix<T>)
    requires
        diag@.len() == packed.min_dim(),
    ensures
        q.rows() == packed.rows(),
        q.cols() == packed.min_dim(),
        q@ == q_run(packed@, diag@, diag@.len()),
{
    let nrows = packed.nrows();
    let ncols = packed.ncols();
    let dim = diag.len();
    assert(nrows * dim <= nrows * ncols) by (nonlinear_arith)
        requires
            dim <= ncols,
    ;
    let mut q = Matrix::eye(nrows, dim);
    let mut t: usize = 0;
    while t < dim
        invariant
            t <= dim,
            dim == diag@.len(),
            dim == packed.min_dim(),
            nrows == packed.rows(),
            q.rows() == nrows,
            q.cols() == dim,
            q@ == q_run(packed@, diag@, t as nat),
        decreases dim - t,
    {
        let i = dim - 1 - t;
        let axis = column_from(packed, i, i);
        let sign = signum(diag[i]);
        reflect_columns(&mut q, &axis, sign, i, i, dim);
        t += 1;
    }
    q
}

/// Builds `R` from the packed matrix and the signed diagonal.
pub(crate) fn build_r<T: ComplexField>(packed: &Matrix<T>, diag: &Vec<T>) -> (r: Matrix<T>)
    requires
        diag@.len() == packed.min_dim(),
    ensures
        r.rows() == packed.min_dim(),
        r.cols() == packed.cols(),
        forall|i: int, j: int| r.has(i, j) ==> #[trigger] r.at(i, j) == r_entry(packed@, diag@, i, j),
{
    let mut r = packed.upper_triangle();
    let dim = diag.len();
    let mut i: usize = 0;
    while i < dim
        invariant
            i <= dim,
            dim == diag@.len(),
            dim == packed.min_dim(),
            r.rows() == packed.min_dim(),
            r.cols() == packed.cols(),
            forall|x: int, y: int|
                r.has(x, y) ==> #[trigger] r.at(x, y) == (if x == y && x >= i {
                    packed@[x][y]
                } else {
                    r_entry(packed@, diag@, x, y)
                }),
        decreases dim - i,
    {
        r.set(i, i, T::from_real(diag[i].modulus()));
        i += 1;
    }
    r
}

/// The QR decomposition of a matrix.
pub struct QR<T> {
    qr: Matrix<T>,
    diag: Vec<T>,
}

impl<T> QR<T> {
    #[verifier::type_invariant]
    spec fn inv(self) -> bool {
        self.diag.len() == self.qr.min_dim()
    }
}

impl<T: ComplexField> QR<T> {
    /// The reflection axes, on and below the diagonal, and the part of `R`
    /// above it.
    pub closed spec fn packed(&self) -> Seq<Seq<T>> {
        self.qr@
    }

    /// The signed diagonal of `R`.
    pub closed spec fn signed_diagonal(&self) -> Seq<T> {
        self.diag@
    }

    pub closed spec fn rows(&self) -> nat {
        self.qr.rows()
    }

    pub closed spec fn cols(&self) -> nat {
        self.qr.cols()
    }

    pub open spec fn min_dim(&self) -> nat {
        if self.rows() <= self.cols() {
            self.rows()
        } else {
            self.cols()
        }
    }

    /// Decomposes `matrix`, clearing one column after the other below the
    /// diagonal.
    pub fn new(matrix: Matrix<T>) -> (r: Self)
        ensures
            r.rows() == matrix.rows(),
            r.cols() == matrix.cols(),
            r.signed_diagonal().len() == matrix.min_dim(),
            (r.packed(), r.signed_diagonal()) == qr_run(matrix@, matrix.min_dim()),
    {
        let ghost orig = matrix@;
        let mut m = matrix;
        let nrows = m.nrows();
        let ncols = m.ncols();
        let min = if nrows <= ncols {
            nrows
        } else {
            ncols
        };
        let mut diag: Vec<T> = Vec::new();
        assert(diag@ =~= Seq::empty());
        let mut k: usize = 0;
        while k < min
            invariant
                k <= min,
                min <= nrows,
                min <= ncols,
                m.rows() == nrows,
                m.cols() == ncols,
                diag@.len() == k,
                (m@, diag@) == qr_run(orig, k as nat),
            decreases min - k,
        {
            let norm = clear_column(&mut m, k, 0);
            diag.push(norm);
            k += 1;
        }
        QR { qr: m, diag }
    }

    /// The factor with orthonormal columns.
    pub fn q(&self) -> (q: Matrix<T>)
        ensures
            q.rows() == self.rows(),
            q.cols() == self.min_dim(),
            q@ == q_run(self.packed(), self.signed_diagonal(), self.signed_diagonal().len()),
    {
        proof {
            use_type_invariant(self);
        }
        build_q(&self.qr, &self.diag)
    }

    /// The upper-triangular factor.
    pub fn r(&self) -> (r: Matrix<T>)
        ensures
            r.rows() == self.min_dim(),
            r.cols() == self.cols(),
            forall|i: int, j: int|
                r.has(i, j) ==> #[trigger] r.at(i, j) == r_entry(
                    self.packed(),
                    self.signed_diagonal(),
                    i,
                    j,
                ),
    {
        proof {
            use_type_invariant(self);
        }
        build_r(&self.qr, &self.diag)
    }

    /// Both factors.
    pub fn unpack(self) -> (qr: (Matrix<T>, Matrix<T>))
        ensures
            qr.0@ == q_run(self.packed(), self.signed_diagonal(), self.signed_diagonal().len()),
            qr.0.rows() == self.rows(),
            qr.0.cols() == self.min_dim(),
            qr.1.rows() == self.min_dim(),
            qr.1.cols() == self.cols(),
            forall|i: int, j: int|
                qr.1.has(i, j) ==> #[trigger] qr.1.at(i, j) == r_entry(
                    self.packed(),
                    self.signed_diagonal(),
                    i,
                    j,
                ),
    {
        (self.q(), self.r())
    }
}

} // verus!
