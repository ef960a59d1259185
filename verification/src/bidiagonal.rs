//! Reduction of a matrix to bidiagonal form.

use crate::householder::{
    clear_column, clear_row, cleared_column, cleared_row, column_from, reflect_columns,
    reflect_rows, reflected_columns, reflected_rows, row_from, sub_column, sub_row,
};
use crate::matrix::{eye, Matrix};
use crate::scalar::{signum, spec_signum, ComplexField};
use crate::symmetric_tridiagonal::{moduli, moduli_of};
use vstd::prelude::*;

verus! {

/// What the reduction holds between two steps.
pub struct BidiagonalState<T> {
    /// The packed matrix.
    pub a: Seq<Seq<T>>,
    /// The signed diagonal found so far.
    pub diag: Seq<T>,
    /// The signed off-diagonal found so far.
    pub off: Seq<T>,
}

/// The state after the first `k` pairs of steps. For the upper form a pair
/// clears column `k` below the diagonal, then row `k` right of the
/// superdiagonal; for the lower form it clears row `k` right of the
/// diagonal, then column `k` below the subdiagonal.
pub open spec fn bidiagonal_pairs<T: ComplexField>(
    a: Seq<Seq<T>>,
    upper: bool,
    k: nat,
) -> BidiagonalState<T>
    decreases k,
{
    if k == 0 {
        BidiagonalState { a, diag: Seq::empty(), off: Seq::empty() }
    } else {
        let s = bidiagonal_pairs(a, upper, (k - 1) as nat);
        if upper {
            let (b, d) = cleared_column(s.a, k - 1, 0);
            let (c, e) = cleared_row(b, k - 1, 1);
            BidiagonalState { a: c, diag: s.diag.push(d), off: s.off.push(e) }
        } else {
            let (b, d) = cleared_row(s.a, k - 1, 0);
            let (c, e) = cleared_column(b, k - 1, 1);
            BidiagonalState { a: c, diag: s.diag.push(d), off: s.off.push(e) }
        }
    }
}

/// The state at the end of the reduction of a matrix whose smaller
/// dimension is `dim`: after `dim - 1` pairs of steps the last diagonal
/// entry is cleared alone.
pub open spec fn bidiagonal_run<T: ComplexField>(
    a: Seq<Seq<T>>,
    upper: bool,
    dim: nat,
) -> BidiagonalState<T> {
    if dim == 0 {
        BidiagonalState { a, diag: Seq::empty(), off: Seq::empty() }
    } else {
        let s = bidiagonal_pairs(a, upper, (dim - 1) as nat);
        let (b, d) = if upper {
            cleared_column(s.a, dim - 1, 0)
        } else {
            cleared_row(s.a, dim - 1, 0)
        };
        BidiagonalState { a: b, diag: s.diag.push(d), off: s.off }
    }
}

/// The number of reflections from the left, and from the right, that the
/// reduction made.
pub open spec fn reflection_counts(dim: nat, upper: bool) -> (nat, nat) {
    if dim == 0 {
        (0, 0)
    } else if upper {
        (dim, (dim - 1) as nat)
    } else {
        ((dim - 1) as nat, dim)
    }
}

/// The left factor after the last `t` reflections from the left were
/// applied to the identity of `uv.len()` rows and `dim` columns.
pub open spec fn u_run<T: ComplexField>(
    uv: Seq<Seq<T>>,
    signs: Seq<T>,
    dim: nat,
    upper: bool,
    t: nat,
) -> Seq<Seq<T>>
    decreases t,
{
    if t == 0 {
        eye::<T>(uv.len(), dim)
    } else {
        let shift: int = if upper {
            0
        } else {
            1
        };
        let i = reflection_counts(dim, upper).0 - t;
        reflected_columns(
            u_run(uv, signs, dim, upper, (t - 1) as nat),
            sub_column(uv, i, i + shift),
            spec_signum(signs[i]),
            i + shift,
            i,
            dim as int,
        )
    }
}

/// The right factor after the last `t` reflections from the right were
/// applied to the identity of `dim` rows and `cols` columns.
pub open spec fn v_t_run<T: ComplexField>(
    uv: Seq<Seq<T>>,
    signs: Seq<T>,
    dim: nat,
    cols: nat,
    upper: bool,
    t: nat,
) -> Seq<Seq<T>>
    decreases t,
{
    if t == 0 {
        eye::<T>(dim, cols)
    } else {
        let shift: int = if upper {
            1
        } else {
            0
        };
        let i = reflection_counts(dim, upper).1 - t;
        reflected_rows(
            v_t_run(uv, signs, dim, cols, upper, (t - 1) as nat),
            sub_row(uv, i, i + shift),
            spec_signum(signs[i]),
            i,
            dim as int,
            i + shift,
        )
    }
}

/// The entry of the bidiagonal matrix.
pub open spec fn d_entry<T: ComplexField>(
    diag: Seq<T>,
    off: Seq<T>,
    upper: bool,
    i: int,
    j: int,
) -> T {
    if i == j {
        T::spec_from_real(diag[i].spec_modulus())
    } else if upper && j == i + 1 {
        T::spec_from_real(off[i].spec_modulus())
    } else if !upper && i == j + 1 {
        T::spec_from_real(off[j].spec_modulus())
    } else {
        T::spec_zero()
    }
}

/// The bidiagonalization of a matrix.
pub struct Bidiagonal<T> {
    uv: Matrix<T>,
    diagonal: Vec<T>,
    off_diagonal: Vec<T>,
    upper_diagonal: bool,
}

impl<T> Bidiagonal<T> {
    #[verifier::type_invariant]
    spec fn inv(self) -> bool {
        &&& self.diagonal.len() == self.uv.min_dim()
        &&& self.off_diagonal.len() + 1 == self.uv.min_dim() || (self.off_diagonal.len() == 0
            && self.uv.min_dim() == 0)
        &&& self.upper_diagonal == (self.uv.rows() >= self.uv.cols())
    }
}

impl<T: ComplexField> Bidiagonal<T> {
    /// The reflection axes and nothing else of use.
    pub closed spec fn packed(&self) -> Seq<Seq<T>> {
        self.uv@
    }

    /// The signed diagonal of the bidiagonal matrix.
    pub closed spec fn signed_diagonal(&self) -> Seq<T> {
        self.diagonal@
    }

    /// The signed off-diagonal of the bidiagonal matrix.
    pub closed spec fn signed_off_diagonal(&self) -> Seq<T> {
        self.off_diagonal@
    }

    /// Whether the off-diagonal lies above the diagonal.
    pub closed spec fn upper(&self) -> bool {
        self.upper_diagonal
    }

    pub closed spec fn rows(&self) -> nat {
        self.uv.rows()
    }

    pub closed spec fn cols(&self) -> nat {
        self.uv.cols()
    }

    pub open spec fn min_dim(&self) -> nat {
        if self.rows() <= self.cols() {
            self.rows()
        } else {
            self.cols()
        }
    }

    /// The signs of the reflections from the left.
    pub open spec fn left_signs(&self) -> Seq<T> {
        if self.upper() {
            self.signed_diagonal()
        } else {
            self.signed_off_diagonal()
        }
    }

    /// The signs of the reflections from the right.
    pub open spec fn right_signs(&self) -> Seq<T> {
        if self.upper() {
            self.signed_off_diagonal()
        } else {
            self.signed_diagonal()
        }
    }

    /// Reduces `matrix` by reflections applied in turn from the left and
    /// from the right.
    pub fn new(matrix: Matrix<T>) -> (r: Self)
        ensures
            r.rows() == matrix.rows(),
            r.cols() == matrix.cols(),
            r.upper() == (matrix.rows() >= matrix.cols()),
            r.signed_diagonal().len() == matrix.min_dim(),
            r.signed_off_diagonal().len() == (if matrix.min_dim() == 0 {
                0
            } else {
                matrix.min_dim() - 1
            }),
            bidiagonal_run(matrix@, r.upper(), matrix.min_dim()) == (BidiagonalState {
                a: r.packed(),
                diag: r.signed_diagonal(),
                off: r.signed_off_diagonal(),
            }),
    {
        let ghost orig = matrix@;
        let mut m = matrix;
        let nrows = m.nrows();
        let ncols = m.ncols();
        let dim = if nrows <= ncols {
            nrows
        } else {
            ncols
        };
        let upper = nrows >= ncols;
        let mut diagonal: Vec<T> = Vec::new();
        let mut off_diagonal: Vec<T> = Vec::new();
        assert(diagonal@ =~= Seq::empty());
        assert(off_diagonal@ =~= Seq::empty());
        if dim == 0 {
            return Bidiagonal { uv: m, diagonal, off_diagonal, upper_diagonal: upper };
        }
        let mut k: usize = 0;
        while k < dim - 1
            invariant
                k <= dim - 1,
                dim >= 1,
                dim <= nrows,
                dim <= ncols,
                dim == nrows || dim == ncols,
                upper == (nrows >= ncols),
                m.rows() == nrows,
                m.cols() == ncols,
                diagonal@.len() == k,
                off_diagonal@.len() == k,
                bidiagonal_pairs(orig, upper, k as nat) == (BidiagonalState {
                    a: m@,
                    diag: diagonal@,
                    off: off_diagonal@,
                }),
            decreases dim - 1 - k,
        {
            if upper {
                let d = clear_column(&mut m, k, 0);
                let e = clear_row(&mut m, k, 1);
                diagonal.push(d);
                off_diagonal.push(e);
            } else {
                let d = clear_row(&mut m, k, 0);
                let e = clear_column(&mut m, k, 1);
                diagonal.push(d);
                off_diagonal.push(e);
            }
            k += 1;
        }
        let d = if upper {
            clear_column(&mut m, dim - 1, 0)
        } else {
            clear_row(&mut m, dim - 1, 0)
        };
        diagonal.push(d);
        Bidiagonal { uv: m, diagonal, off_diagonal, upper_diagonal: upper }
    }

    /// Whether the bidiagonal matrix is upper bidiagonal.
    pub fn is_upper_diagonal(&self) -> (b: bool)
        ensures
            b == self.upper(),
    {
        self.upper_diagonal
    }

    /// The left factor, with orthonormal columns.
    pub fn u(&self) -> (u: Matrix<T>)
        ensures
            u.rows() == self.rows(),
            u.cols() == self.min_dim(),
            u@ == u_run(
                self.packed(),
                self.left_signs(),
                self.min_dim(),
                self.upper(),
                reflection_counts(self.min_dim(), self.upper()).0,
            ),
    {
        proof {
            use_type_invariant(self);
        }
        let nrows = self.uv.nrows();
        let ncols = self.uv.ncols();
        let dim = self.diagonal.len();
        assert(nrows * dim <= nrows * ncols) by (nonlinear_arith)
            requires
                dim <= ncols,
        ;
        let mut u = Matrix::eye(nrows, dim);
        let shift: usize = if self.upper_diagonal {
            0
        } else {
            1
        };
        let count = if dim == 0 {
            0
        } else {
            dim - shift
        };
        let mut t: usize = 0;
        while t < count
            invariant
                t <= count,
                count == reflection_counts(dim as nat, self.upper_diagonal).0,
                shift == (if self.upper_diagonal {
                    0usize
                } else {
                    1usize
                }),
                dim == self.uv.min_dim(),
                dim == self.diagonal@.len(),
                self.off_diagonal@.len() + 1 == dim || (self.off_diagonal@.len() == 0 && dim == 0),
                self.upper_diagonal == (self.uv.rows() >= self.uv.cols()),
                nrows == self.uv.rows(),
                u.rows() == nrows,
                u.cols() == dim,
                u@ == u_run(
                    self.uv@,
                    self.left_signs(),
                    dim as nat,
                    self.upper_diagonal,
                    t as nat,
                ),
            decreases count - t,
        {
            let i = count - 1 - t;
            let axis = column_from(&self.uv, i, i + shift);
            let sign = if self.upper_diagonal {
                signum(self.diagonal[i])
            } else {
                signum(self.off_diagonal[i])
            };
            reflect_columns(&mut u, &axis, sign, i + shift, i, dim);
            t += 1;
        }
        u
    }

    /// The right factor, with orthonormal rows.
    pub fn v_t(&self) -> (v_t: Matrix<T>)
        ensures
            v_t.rows() == self.min_dim(),
            v_t.cols() == self.cols(),
            v_t@ == v_t_run(
                self.packed(),
                self.right_signs(),
                self.min_dim(),
                self.cols(),
                self.upper(),
                reflection_counts(self.min_dim(), self.upper()).1,
            ),
    {
        proof {
            use_type_invariant(self);
        }
        let nrows = self.uv.nrows();
        let ncols = self.uv.ncols();
        let dim = self.diagonal.len();
        assert(dim * ncols <= nrows * ncols) by (nonlinear_arith)
            requires
                dim <= nrows,
        ;
        let mut v_t = Matrix::eye(dim, ncols);
        let shift: usize = if self.upper_diagonal {
            1
        } else {
            0
        };
        let count = if dim == 0 {
            0
        } else {
            dim - shift
        };
        let mut t: usize = 0;
        while t < count
            invariant
                t <= count,
                count == reflection_counts(dim as nat, self.upper_diagonal).1,
                shift == (if self.upper_diagonal {
                    1usize
                } else {
                    0usize
                }),
                dim == self.uv.min_dim(),
                dim == self.diagonal@.len(),
                self.off_diagonal@.len() + 1 == dim || (self.off_diagonal@.len() == 0 && dim == 0),
                self.upper_diagonal == (self.uv.rows() >= self.uv.cols()),
                ncols == self.uv.cols(),
                v_t.rows() == dim,
                v_t.cols() == ncols,
                v_t@ == v_t_run(
                    self.uv@,
                    self.right_signs(),
                    dim as nat,
                    ncols as nat,
                    self.upper_diagonal,
                    t as nat,
                ),
            decreases count - t,
        {
            let i = count - 1 - t;
            let axis = row_from(&self.uv, i, i + shift);
            let sign = if self.upper_diagonal {
                signum(self.off_diagonal[i])
            } else {
                signum(self.diagonal[i])
            };
            reflect_rows(&mut v_t, &axis, sign, i, dim, i + shift);
            t += 1;
        }
        v_t
    }

    /// The bidiagonal matrix.
    pub fn d(&self) -> (d: Matrix<T>)
        ensures
            d.rows() == self.min_dim(),
            d.cols() == self.min_dim(),
            forall|i: int, j: int|
                d.has(i, j) ==> #[trigger] d.at(i, j) == d_entry(
                    self.signed_diagonal(),
                    self.signed_off_diagonal(),
                    self.upper(),
                    i,
                    j,
                ),
    {
        proof {
            use_type_invariant(self);
        }
        let nrows = self.uv.nrows();
        let ncols = self.uv.ncols();
        let dim = self.diagonal.len();
        assert(dim * dim <= nrows * ncols) by (nonlinear_arith)
            requires
                dim <= nrows,
                dim <= ncols,
        ;
        let mut d = Matrix::filled(dim, dim, T::zero());
        let mut i: usize = 0;
        while i < dim
            invariant
                i <= dim,
                dim == self.diagonal@.len(),
                self.off_diagonal@.len() + 1 == dim || (self.off_diagonal@.len() == 0 && dim == 0),
                d.rows() == dim,
                d.cols() == dim,
                forall|x: int, y: int|
                    d.has(x, y) ==> #[trigger] d.at(x, y) == (if x < i && y < i + 1 {
                        d_entry(self.diagonal@, self.off_diagonal@, self.upper_diagonal, x, y)
                    } else if y < i && x < i + 1 {
                        d_entry(self.diagonal@, self.off_diagonal@, self.upper_diagonal, x, y)
                    } else {
                        T::spec_zero()
                    }),
            decreases dim - i,
        {
            d.set(i, i, T::from_real(self.diagonal[i].modulus()));
            if i + 1 < dim {
                let e = T::from_real(self.off_diagonal[i].modulus());
                if self.upper_diagonal {
                    d.set(i, i + 1, e);
                } else {
                    d.set(i + 1, i, e);
                }
            }
            i += 1;
        }
        d
    }

    /// The diagonal of the bidiagonal matrix.
    pub fn diagonal(&self) -> (r: Vec<T::Real>)
        ensures
            r@ == moduli(self.signed_diagonal()),
            r@.len() == self.min_dim(),
    {
        proof {
            use_type_invariant(self);
        }
        moduli_of(&self.diagonal)
    }

    /// The off-diagonal of the bidiagonal matrix.
    pub fn off_diagonal(&self) -> (r: Vec<T::Real>)
        ensures
            r@ == moduli(self.signed_off_diagonal()),
    {
        moduli_of(&self.off_diagonal)
    }

    /// The left factor, the bidiagonal matrix and the right factor.
    pub fn unpack(self) -> (r: (Matrix<T>, Matrix<T>, Matrix<T>))
        ensures
            r.0.rows() == self.rows(),
            r.0.cols() == self.min_dim(),
            r.0@ == u_run(
                self.packed(),
                self.left_signs(),
                self.min_dim(),
                self.upper(),
                reflection_counts(self.min_dim(), self.upper()).0,
            ),
            r.1.rows() == self.min_dim(),
            r.1.cols() == self.min_dim(),
            forall|i: int, j: int|
                r.1.has(i, j) ==> #[trigger] r.1.at(i, j) == d_entry(
                    self.signed_diagonal(),
                    self.signed_off_diagonal(),
                    self.upper(),
                    i,
                    j,
                ),
            r.2.rows() == self.min_dim(),
            r.2.cols() == self.cols(),
            r.2@ == v_t_run(
                self.packed(),
                self.right_signs(),
                self.min_dim(),
                self.cols(),
                self.upper(),
                reflection_counts(self.min_dim(), self.upper()).1,
            ),
    {
        (self.u(), self.d(), self.v_t())
    }
}

} // verus!
