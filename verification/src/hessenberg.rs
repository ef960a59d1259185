//! Reduction of a square matrix to upper Hessenberg form.

use crate::householder::{
    assemble_q, assembled_q, clear_column_bilateral, cleared_column_bilateral,
};
use crate::matrix::Matrix;
use crate::scalar::ComplexField;
use vstd::prelude::*;

verus! {

/// The packed matrix and the signed subdiagonal after the first `k` columns
/// were cleared below the subdiagonal.
pub open spec fn hessenberg_run<T: ComplexField>(a: Seq<Seq<T>>, k: nat) -> (Seq<Seq<T>>, Seq<T>)
    decreases k,
{
    if k == 0 {
        (a, Seq::empty())
    } else {
        let (b, sub) = hessenberg_run(a, (k - 1) as nat);
        let (c, norm) = cleared_column_bilateral(b, k - 1);
        (c, sub.push(norm))
    }
}

/// The number of columns that the reduction of a matrix of dimension `n`
/// clears.
pub open spec fn reduction_steps(n: nat) -> nat {
    if n == 0 {
        0
    } else {
        (n - 1) as nat
    }
}

/// The entry of the Hessenberg matrix: the packed entries on and above the
/// diagonal, the absolute values of the signed subdiagonal below it, zeros
/// further down.
pub open spec fn h_entry<T: ComplexField>(packed: Seq<Seq<T>>, sub: Seq<T>, i: int, j: int) -> T {
    if i <= j {
        packed[i][j]
    } else if i == j + 1 {
        T::spec_from_real(sub[j].spec_modulus())
    } else {
        T::spec_zero()
    }
}

/// The Hessenberg decomposition of a square matrix.
pub struct Hessenberg<T> {
    hess: Matrix<T>,
    subdiag: Vec<T>,
}

impl<T> Hessenberg<T> {
    #[verifier::type_invariant]
    spec fn inv(self) -> bool {
        &&& self.hess.is_square()
        &&& self.subdiag.len() == reduction_steps(self.hess.rows())
    }
}

impl<T: ComplexField> Hessenberg<T> {
    /// The reflection axes, below the subdiagonal, and the part of `H` on
    /// and above the diagonal.
    pub closed spec fn packed(&self) -> Seq<Seq<T>> {
        self.hess@
    }

    /// The signed subdiagonal of `H`.
    pub closed spec fn signed_subdiagonal(&self) -> Seq<T> {
        self.subdiag@
    }

    /// The dimension of the matrix.
    pub closed spec fn dim(&self) -> nat {
        self.hess.rows()
    }

    /// Reduces `hess` by reflections applied from both sides.
    pub fn new(hess: Matrix<T>) -> (r: Self)
        requires
            hess.is_square(),
        ensures
            r.dim() == hess.rows(),
            r.packed().len() == hess.rows(),
            r.signed_subdiagonal().len() == reduction_steps(hess.rows()),
            (r.packed(), r.signed_subdiagonal()) == hessenberg_run(
                hess@,
                reduction_steps(hess.rows()),
            ),
    {
        let ghost orig = hess@;
        let mut m = hess;
        let dim = m.nrows();
        let steps = if dim == 0 {
            0
        } else {
            dim - 1
        };
        let mut subdiag: Vec<T> = Vec::new();
        assert(subdiag@ =~= Seq::empty());
        let mut k: usize = 0;
        while k < steps
            invariant
                k <= steps,
                steps == reduction_steps(dim as nat),
                m.rows() == dim,
                m.cols() == dim,
                subdiag@.len() == k,
                (m@, subdiag@) == hessenberg_run(orig, k as nat),
            decreases steps - k,
        {
            let norm = clear_column_bilateral(&mut m, k);
            subdiag.push(norm);
            k += 1;
        }
        Hessenberg { hess: m, subdiag }
    }

    /// The orthogonal factor.
    pub fn q(&self) -> (q: Matrix<T>)
        ensures
            q.rows() == self.dim(),
            q.cols() == self.dim(),
            q@ == assembled_q(
                self.packed(),
                self.signed_subdiagonal(),
                self.signed_subdiagonal().len(),
            ),
    {
        proof {
            use_type_invariant(self);
        }
        assemble_q(&self.hess, &self.subdiag)
    }

    /// The Hessenberg matrix, with zeros below the subdiagonal.
    pub fn h(&self) -> (h: Matrix<T>)
        ensures
            h.rows() == self.dim(),
            h.cols() == self.dim(),
            forall|i: int, j: int|
                h.has(i, j) ==> #[trigger] h.at(i, j) == h_entry(
                    self.packed(),
                    self.signed_subdiagonal(),
                    i,
                    j,
                ),
    {
        proof {
            use_type_invariant(self);
        }
        let dim = self.hess.nrows();
        let mut h = self.hess.upper_triangle();
        let count = self.subdiag.len();
        let mut j: usize = 0;
        while j < count
            invariant
                j <= count,
                count == self.subdiag@.len(),
                count == reduction_steps(dim as nat),
                dim == self.hess.rows(),
                self.hess.is_square(),
                h.rows() == dim,
                h.cols() == dim,
                forall|x: int, y: int|
                    h.has(x, y) ==> #[trigger] h.at(x, y) == (if x == y + 1 && y >= j {
                        T::spec_zero()
                    } else {
                        h_entry(self.hess@, self.subdiag@, x, y)
                    }),
            decreases count - j,
        {
            h.set(j + 1, j, T::from_real(self.subdiag[j].modulus()));
            j += 1;
        }
        h
    }

    /// The orthogonal factor and the Hessenberg matrix.
    pub fn unpack(self) -> (qh: (Matrix<T>, Matrix<T>))
        ensures
            qh.0.rows() == self.dim(),
            qh.0.cols() == self.dim(),
            qh.0@ == assembled_q(
                self.packed(),
                self.signed_subdiagonal(),
                self.signed_subdiagonal().len(),
            ),
            qh.1.rows() == self.dim(),
            qh.1.cols() == self.dim(),
            forall|i: int, j: int|
                qh.1.has(i, j) ==> #[trigger] qh.1.at(i, j) == h_entry(
                    self.packed(),
                    self.signed_subdiagonal(),
                    i,
                    j,
                ),
    {
        (self.q(), self.h())
    }
}

} // verus!
