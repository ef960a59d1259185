//! QR decomposition with column pivoting.

use crate::householder::{clear_column, cleared_column, norm_squared, sub_column};
use crate::matrix::{swap_columns, Matrix};
use crate::permutation::{swaps_within, PermutationSequence};
use crate::qr::{build_q, build_r, q_run, r_entry};
use crate::scalar::{ComplexField, RealField};
use vstd::prelude::*;

verus! {

/// The squared norm of the part of column `c` from row `from` down.
pub open spec fn remaining_norm<T: ComplexField>(a: Seq<Seq<T>>, c: int, from: int) -> T::Real {
    norm_squared(sub_column(a, c, from), (a.len() - from) as nat)
}

/// The first column among `k..upto` whose part from row `k` down has the
/// largest norm.
pub open spec fn pivot_column<T: ComplexField>(a: Seq<Seq<T>>, k: int, upto: int) -> int
    decreases upto - k,
{
    if upto <= k + 1 {
        k
    } else {
        let p = pivot_column(a, k, upto - 1);
        if remaining_norm(a, p, k).spec_lt(remaining_norm(a, upto - 1, k)) {
            upto - 1
        } else {
            p
        }
    }
}

/// What the decomposition holds between two steps.
pub struct ColPivState<T> {
    /// The packed matrix.
    pub a: Seq<Seq<T>>,
    /// The signed diagonal of `R`.
    pub diag: Seq<T>,
    /// The column exchanges made.
    pub p: Seq<(usize, usize)>,
}

/// The state after the first `k` steps: in each, the remaining column of
/// largest norm is brought to position `k` and cleared below the diagonal.
pub open spec fn col_piv_run<T: ComplexField>(a: Seq<Seq<T>>, k: nat) -> ColPivState<T>
    decreases k,
{
    if k == 0 {
        ColPivState { a, diag: Seq::empty(), p: Seq::empty() }
    } else {
        let s = col_piv_run(a, (k - 1) as nat);
        let c = pivot_column(s.a, k - 1, s.a[k - 1].len() as int);
        let (b, norm) = cleared_column(swap_columns(s.a, k - 1, c), k - 1, 0);
        ColPivState {
            a: b,
            diag: s.diag.push(norm),
            p: if c != k - 1 {
                s.p.push(((k - 1) as usize, c as usize))
            } else {
                s.p
            },
        }
    }
}

fn remaining_norm_of<T: ComplexField>(m: &Matrix<T>, c: usize, from: usize) -> (r: T::Real)
    requires
        c < m.cols(),
        from <= m.rows(),
    ensures
        r == remaining_norm(m@, c as int, from as int),
{
    let n = m.nrows();
    let ghost col = sub_column(m@, c as int, from as int);
    let mut acc = T::Real::zero();
    let mut i: usize = from;
    while i < n
        invariant
            from <= i <= n,
            n == m.rows(),
            c < m.cols(),
            col == sub_column(m@, c as int, from as int),
            acc == norm_squared(col, (i - from) as nat),
        decreases n - i,
    {
        assert(col[i - from] == m@[i as int][c as int]);
        assert(m@[i as int][c as int] == m.at(i as int, c as int));
        let x = m.get(i, c).modulus();
        acc = acc.plus(x.times(x));
        i += 1;
    }
    acc
}

fn find_pivot_column<T: ComplexField>(m: &Matrix<T>, k: usize) -> (p: usize)
    requires
        k < m.rows(),
        k < m.cols(),
    ensures
        p == pivot_column(m@, k as int, m.cols() as int),
        k <= p < m.cols(),
{
    let ncols = m.ncols();
    let mut best = k;
    let mut best_norm = remaining_norm_of(m, k, k);
    let mut c: usize = k + 1;
    while c < ncols
        invariant
            k < c <= ncols,
            k < m.rows(),
            ncols == m.cols(),
            k <= best < c,
            best == pivot_column(m@, k as int, c as int),
            best_norm == remaining_norm(m@, best as int, k as int),
        decreases ncols - c,
    {
        let v = remaining_norm_of(m, c, k);
        if best_norm.lt(v) {
            best = c;
            best_norm = v;
        }
        c += 1;
    }
    best
}

/// The QR decomposition of a matrix with column pivoting, with the column
/// exchanges that the pivoting made.
pub struct ColPivQR<T> {
    col_piv_qr: Matrix<T>,
    p: PermutationSequence,
    diag: Vec<T>,
}

impl<T> ColPivQR<T> {
    #[verifier::type_invariant]
    spec fn inv(self) -> bool {
        self.diag.len() == self.col_piv_qr.min_dim()
    }
}

impl<T: ComplexField> ColPivQR<T> {
    /// The reflection axes, on and below the diagonal, and the part of `R`
    /// above it.
    pub closed spec fn packed(&self) -> Seq<Seq<T>> {
        self.col_piv_qr@
    }

    /// The signed diagonal of `R`.
    pub closed spec fn signed_diagonal(&self) -> Seq<T> {
        self.diag@
    }

    /// The column exchanges, in the order in which they were made.
    pub closed spec fn swaps(&self) -> Seq<(usize, usize)> {
        self.p@
    }

    pub closed spec fn rows(&self) -> nat {
        self.col_piv_qr.rows()
    }

    pub closed spec fn cols(&self) -> nat {
        self.col_piv_qr.cols()
    }

    pub open spec fn min_dim(&self) -> nat {
        if self.rows() <= self.cols() {
            self.rows()
        } else {
            self.cols()
        }
    }

    /// Decomposes `matrix`, bringing at each step the remaining column of
    /// largest norm into place before it is cleared.
    pub fn new(matrix: Matrix<T>) -> (r: Self)
        ensures
            r.rows() == matrix.rows(),
            r.cols() == matrix.cols(),
            r.signed_diagonal().len() == matrix.min_dim(),
            swaps_within(r.swaps(), r.cols()),
            r.packed() == col_piv_run(matrix@, matrix.min_dim()).a,
            r.signed_diagonal() == col_piv_run(matrix@, matrix.min_dim()).diag,
            r.swaps() == col_piv_run(matrix@, matrix.min_dim()).p,
    {
        let ghost orig = matrix@;
        let mut m = matrix;
        let nrows = m.nrows();
        let ncols = m.ncols();
        let min = if nrows <= ncols {
            nrows
        } else {
            ncols
        };
        let mut diag: Vec<T> = Vec::new();
        let mut p = PermutationSequence::identity();
        assert(diag@ =~= Seq::empty());
        assert(p@ =~= Seq::empty());
        let mut k: usize = 0;
        while k < min
            invariant
                k <= min,
                min <= nrows,
                min <= ncols,
                m.rows() == nrows,
                m.cols() == ncols,
                diag@.len() == k,
                swaps_within(p@, ncols as nat),
                col_piv_run(orig, k as nat) == (ColPivState { a: m@, diag: diag@, p: p@ }),
            decreases min - k,
        {
            assert(m@[k as int].len() == ncols);
            let c = find_pivot_column(&m, k);
            m.swap_columns(k, c);
            p.append_permutation(k, c);
            let norm = clear_column(&mut m, k, 0);
            diag.push(norm);
            k += 1;
        }
        ColPivQR { col_piv_qr: m, p, diag }
    }

    /// The factor with orthonormal columns.
    pub fn q(&self) -> (q: Matrix<T>)
        ensures
            q.rows() == self.rows(),
            q.cols() == self.min_dim(),
            q@ == q_run(self.packed(), self.signed_diagonal(), self.signed_diagonal().len()),
    {
        proof {
            use_type_invariant(self);
        }
        build_q(&self.col_piv_qr, &self.diag)
    }

    /// The upper-triangular factor.
    pub fn r(&self) -> (r: Matrix<T>)
        ensures
            r.rows() == self.min_dim(),
            r.cols() == self.cols(),
            forall|i: int, j: int|
                r.has(i, j) ==> #[trigger] r.at(i, j) == r_entry(
                    self.packed(),
                    self.signed_diagonal(),
                    i,
                    j,
                ),
    {
        proof {
            use_type_invariant(self);
        }
        build_r(&self.col_piv_qr, &self.diag)
    }

    /// The column exchanges that the pivoting made.
    pub fn p(&self) -> (p: &PermutationSequence)
        ensures
            p@ == self.swaps(),
    {
        &self.p
    }
}

} // verus!
