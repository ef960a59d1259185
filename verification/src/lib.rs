//! Decompositions of dense matrices over a real or complex field: QR, LU,
//! Cholesky, UDU, Hessenberg, Schur, symmetric eigendecomposition,
//! tridiagonalization, bidiagonalization and SVD.
//!
//! The algorithms are generic over the scalar (`scalar`). Each is defined
//! as a function on the rows of a matrix, step by step, and the executable
//! code is proved to compute exactly that function, in place. What holds
//! of the results in exact arithmetic is proved from these definitions
//! under the laws that `scalar` names: the factors of the eliminations
//! multiply back to the matrix, multipliers are bounded, singular values
//! come out ordered.

pub mod bidiagonal;
pub mod cholesky;
pub mod col_piv_qr;
pub mod complex;
pub mod decomposition;
pub mod full_piv_lu;
pub mod gf2;
pub mod givens;
pub mod hessenberg;
pub mod householder;
pub mod lu;
pub mod matrix;
pub mod permutation;
pub mod qr;
pub mod reconstruction;
pub mod scalar;
pub mod scaling;
pub mod schur;
pub mod svd;
pub mod symmetric_eigen;
pub mod symmetric_tridiagonal;
pub mod udu;
