//! The decompositions as methods of the matrix.

use crate::bidiagonal::{bidiagonal_run, Bidiagonal, BidiagonalState};
use crate::cholesky::{factor_columns, Cholesky};
use crate::col_piv_qr::{col_piv_run, ColPivQR};
use crate::full_piv_lu::{full_piv_run, FullPivLU};
use crate::hessenberg::{hessenberg_run, reduction_steps, Hessenberg};
use crate::lu::{is_upper_triangular, lu_run, multipliers_bounded, LU};
use crate::matrix::Matrix;
use crate::permutation::{permute_columns, permute_rows, swaps_within};
use crate::reconstruction::multiplies_to;
use crate::qr::{qr_run, QR};
use crate::scalar::{
    absorbing_zero, dominated_quotients, field_laws, negation_flips, real_field_laws,
    real_roots, strict_weak_order, zero_is_least, ComplexField, RealField,
};
use crate::schur::Schur;
use crate::svd::{descending, non_negative, SVD};
use crate::symmetric_eigen::SymmetricEigen;
use crate::symmetric_tridiagonal::{tridiagonal_run, SymmetricTridiagonal};
use crate::udu::{udu_run, UDU};
use vstd::prelude::*;

verus! {

impl<T: ComplexField> Matrix<T> {
    /// Computes the bidiagonalization using Householder reflections.
    pub fn bidiagonalize(self) -> (r: Bidiagonal<T>)
        ensures
            r.rows() == self.rows(),
            r.cols() == self.cols(),
            r.upper() == (self.rows() >= self.cols()),
            r.signed_diagonal().len() == self.min_dim(),
            bidiagonal_run(self@, r.upper(), self.min_dim()) == (BidiagonalState {
                a: r.packed(),
                diag: r.signed_diagonal(),
                off: r.signed_off_diagonal(),
            }),
    {
        Bidiagonal::new(self)
    }

    /// Computes the LU decomposition with full pivoting: `P`, `L`, `U`, `Q`
    /// with `P * self * Q = L * U`.
    pub fn full_piv_lu(self) -> (r: FullPivLU<T>)
        ensures
            r.rows() == self.rows(),
            r.cols() == self.cols(),
            swaps_within(r.row_swaps(), r.rows()),
            swaps_within(r.column_swaps(), r.cols()),
            r.packed() == full_piv_run(self@, self.min_dim()).a,
            r.row_swaps() == full_piv_run(self@, self.min_dim()).p,
            r.column_swaps() == full_piv_run(self@, self.min_dim()).q,
            strict_weak_order::<T::Real>() && dominated_quotients::<T>() ==> multipliers_bounded(
                r.packed(),
                r.min_dim() as int,
            ),
            field_laws::<T>() && strict_weak_order::<T::Real>() && zero_is_least::<T>()
                ==> multiplies_to(
                r.packed(),
                permute_columns(permute_rows(self@, r.row_swaps()), r.column_swaps()),
                r.rows(),
                r.cols(),
                r.min_dim(),
            ),
    {
        FullPivLU::new(self)
    }

    /// Computes the LU decomposition with partial (row) pivoting.
    pub fn lu(self) -> (r: LU<T>)
        ensures
            r.rows() == self.rows(),
            r.cols() == self.cols(),
            swaps_within(r.swaps(), r.rows()),
            (r.packed(), r.swaps()) == lu_run(self@, self.min_dim()),
            strict_weak_order::<T::Real>() && dominated_quotients::<T>() ==> multipliers_bounded(
                r.packed(),
                r.min_dim() as int,
            ),
            field_laws::<T>() && strict_weak_order::<T::Real>() && zero_is_least::<T>()
                ==> multiplies_to(
                r.packed(),
                permute_rows(self@, r.swaps()),
                r.rows(),
                r.cols(),
                r.min_dim(),
            ),
            absorbing_zero::<T>() && is_upper_triangular(self@) ==> r.packed() == self@
                && r.swaps().len() == 0,
    {
        LU::new(self)
    }

    /// Computes the QR decomposition.
    pub fn qr(self) -> (r: QR<T>)
        ensures
            r.rows() == self.rows(),
            r.cols() == self.cols(),
            r.signed_diagonal().len() == self.min_dim(),
            (r.packed(), r.signed_diagonal()) == qr_run(self@, self.min_dim()),
    {
        QR::new(self)
    }

    /// Computes the QR decomposition with column pivoting.
    pub fn col_piv_qr(self) -> (r: ColPivQR<T>)
        ensures
            r.rows() == self.rows(),
            r.cols() == self.cols(),
            r.signed_diagonal().len() == self.min_dim(),
            swaps_within(r.swaps(), r.cols()),
            r.packed() == col_piv_run(self@, self.min_dim()).a,
            r.signed_diagonal() == col_piv_run(self@, self.min_dim()).diag,
            r.swaps() == col_piv_run(self@, self.min_dim()).p,
    {
        ColPivQR::new(self)
    }

    /// Computes the singular value decomposition using implicit shift, with
    /// the default tolerance and no bound on the number of iterations. The
    /// iteration must end for `self`.
    pub fn svd(self, compute_u: bool, compute_v: bool) -> (r: SVD<T>)
        requires
            crate::svd::decomposed(
                self@,
                self.cols(),
                compute_u,
                compute_v,
                T::Real::spec_epsilon(),
                0,
            ).is_some(),
        ensures
            r.holds(
                crate::svd::decomposed(
                    self@,
                    self.cols(),
                    compute_u,
                    compute_v,
                    T::Real::spec_epsilon(),
                    0,
                ).unwrap(),
                compute_u,
                compute_v,
            ),
            r.fits(self.rows(), self.cols()),
            negation_flips::<T::Real>() ==> non_negative(r.singular_values@),
            strict_weak_order::<T::Real>() ==> descending(r.singular_values@),
    {
        SVD::new(self, compute_u, compute_v)
    }

    /// Attempts to compute the singular value decomposition using implicit
    /// shift.
    ///
    /// * `compute_u`: whether the left-singular vectors are computed.
    /// * `compute_v`: whether the right-singular vectors are computed.
    /// * `eps`: the tolerance below which a value counts as zero.
    /// * `max_niter`: the largest number of iterations. There is no result
    ///   if it is reached. With zero the iteration goes on until it ends.
    pub fn try_svd(self, compute_u: bool, compute_v: bool, eps: T::Real, max_niter: usize) -> (r:
        Option<SVD<T>>)
        ensures
            r.is_some() == crate::svd::decomposed(
                self@,
                self.cols(),
                compute_u,
                compute_v,
                eps,
                max_niter,
            ).is_some(),
            r.is_some() ==> {
                &&& r.unwrap().holds(
                    crate::svd::decomposed(
                        self@,
                        self.cols(),
                        compute_u,
                        compute_v,
                        eps,
                        max_niter,
                    ).unwrap(),
                    compute_u,
                    compute_v,
                )
                &&& r.unwrap().fits(self.rows(), self.cols())
                &&& negation_flips::<T::Real>() ==> non_negative(r.unwrap().singular_values@)
                &&& strict_weak_order::<T::Real>() ==> descending(r.unwrap().singular_values@)
            },
    {
        SVD::try_new(self, compute_u, compute_v, eps, max_niter)
    }

    /// Attempts to compute the Cholesky decomposition. There is no result
    /// if the matrix is not positive-definite. The matrix is taken to be
    /// symmetric, and only its part on and below the diagonal is read.
    pub fn cholesky(self) -> (r: Option<Cholesky<T>>)
        requires
            self.is_square(),
        ensures
            r.is_some() == factor_columns(self@, self.rows()).is_some(),
            r.is_some() ==> r.unwrap().packed() == factor_columns(self@, self.rows()).unwrap()
                && r.unwrap().dim() == self.rows(),
            r.is_some() && field_laws::<T>() && real_roots::<T>()
                ==> crate::cholesky::multiplies_back(self@, r.unwrap().packed(), self.rows()),
    {
        Cholesky::new(self)
    }

    /// Computes the Hessenberg decomposition using Householder reflections.
    pub fn hessenberg(self) -> (r: Hessenberg<T>)
        requires
            self.is_square(),
        ensures
            r.dim() == self.rows(),
            (r.packed(), r.signed_subdiagonal()) == hessenberg_run(
                self@,
                reduction_steps(self.rows()),
            ),
    {
        Hessenberg::new(self)
    }

    /// Computes the Schur decomposition, with the default tolerance and no
    /// bound on the number of iterations. The iteration must end for
    /// `self`.
    pub fn schur(self) -> (r: Schur<T>)
        requires
            self.is_square(),
            Schur::<T>::converges(self@),
        ensures
            Some((r.vectors(), r.triangle())) == crate::schur::decomposed(
                self@,
                T::Real::spec_epsilon(),
                0,
            ),
            r.dim() == self.rows(),
    {
        Schur::new(self)
    }

    /// Attempts to compute the Schur decomposition.
    ///
    /// * `eps`: the tolerance below which a value counts as zero.
    /// * `max_niter`: the largest number of iterations. There is no result
    ///   if it is reached. With zero the iteration goes on until it ends.
    pub fn try_schur(self, eps: T::Real, max_niter: usize) -> (r: Option<Schur<T>>)
        requires
            self.is_square(),
        ensures
            r.is_some() == crate::schur::decomposed(self@, eps, max_niter).is_some(),
            r.is_some() ==> {
                &&& Some((r.unwrap().vectors(), r.unwrap().triangle()))
                    == crate::schur::decomposed(self@, eps, max_niter)
                &&& r.unwrap().dim() == self.rows()
            },
    {
        Schur::try_new(self, eps, max_niter)
    }

    /// Computes the eigendecomposition of this symmetric matrix, with the
    /// default tolerance and no bound on the number of iterations. Only the
    /// part on and below the diagonal is read. The iteration must end for
    /// `self`.
    pub fn symmetric_eigen(self) -> (r: SymmetricEigen<T>)
        requires
            self.is_square(),
            SymmetricEigen::<T>::converges(self@),
        ensures
            Some((r.eigenvectors@, r.eigenvalues@)) == crate::symmetric_eigen::decomposed(
                self@,
                T::Real::spec_epsilon(),
                0,
            ),
            r.eigenvectors.rows() == self.rows(),
            r.eigenvectors.cols() == self.rows(),
            r.eigenvalues@.len() == self.rows(),
    {
        SymmetricEigen::new(self)
    }

    /// Attempts to compute the eigendecomposition of this symmetric matrix.
    /// Only the part on and below the diagonal is read.
    ///
    /// * `eps`: the tolerance below which a value counts as zero.
    /// * `max_niter`: the largest number of iterations. There is no result
    ///   if it is reached. With zero the iteration goes on until it ends.
    pub fn try_symmetric_eigen(self, eps: T::Real, max_niter: usize) -> (r: Option<
        SymmetricEigen<T>,
    >)
        requires
            self.is_square(),
        ensures
            r.is_some() == crate::symmetric_eigen::decomposed(self@, eps, max_niter).is_some(),
            r.is_some() ==> {
                &&& Some((r.unwrap().eigenvectors@, r.unwrap().eigenvalues@))
                    == crate::symmetric_eigen::decomposed(self@, eps, max_niter)
                &&& r.unwrap().eigenvectors.rows() == self.rows()
                &&& r.unwrap().eigenvectors.cols() == self.rows()
                &&& r.unwrap().eigenvalues@.len() == self.rows()
            },
    {
        SymmetricEigen::try_new(self, eps, max_niter)
    }

    /// Computes the tridiagonalization of this symmetric matrix. Only its
    /// part on and below the diagonal is read.
    pub fn symmetric_tridiagonalize(self) -> (r: SymmetricTridiagonal<T>)
        requires
            self.is_square(),
        ensures
            r.dim() == self.rows(),
            r.signed_off_diagonal().len() == reduction_steps(self.rows()),
            (r.packed(), r.signed_off_diagonal()) == tridiagonal_run(
                self@,
                reduction_steps(self.rows()),
            ),
    {
        SymmetricTridiagonal::new(self)
    }
}

impl<R: RealField> Matrix<R> {
    /// Attempts to compute the UDU decomposition. The matrix is taken to be
    /// symmetric, and only its part on and above the diagonal is read.
    pub fn udu(self) -> (r: Option<UDU<R>>)
        requires
            self.is_square(),
        ensures
            r.is_some() == udu_run(self@, self.rows()).is_some(),
            r.is_some() ==> (r.unwrap().upper(), r.unwrap().diagonal()) == udu_run(
                self@,
                self.rows(),
            ).unwrap() && r.unwrap().dim() == self.rows(),
            r.is_some() && real_field_laws::<R>() ==> crate::udu::multiplies_back(
                self@,
                r.unwrap().upper(),
                r.unwrap().diagonal(),
                self.rows(),
            ),
    {
        UDU::new(self)
    }
}

} // verus!
