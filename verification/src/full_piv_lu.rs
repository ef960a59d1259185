//! LU decomposition with full (row and column) pivoting.

use crate::lu::{eliminate, gauss_step, multipliers_bounded};
use crate::matrix::{
    has_shape, swap_columns, swap_rows, unit_lower_entry, upper_entry, Matrix,
};
use crate::permutation::{permute_columns, permute_rows, swaps_within, PermutationSequence};
use crate::reconstruction::{lemma_full_piv_lu_reconstructs, multiplies_to};
use crate::scalar::{
    dominated_quotients, field_laws, strict_weak_order, zero_is_least, ComplexField, RealField,
};
use vstd::prelude::*;

verus! {

/// The position that is best after the rows `from..upto` of column `col`
/// were compared with `best`: a later entry replaces an earlier one only if
/// it is larger in absolute value.
pub open spec fn scan_column<T: ComplexField>(
    a: Seq<Seq<T>>,
    best: (int, int),
    col: int,
    from: int,
    upto: int,
) -> (int, int)
    decreases upto - from,
{
    if upto <= from {
        best
    } else {
        let b = scan_column(a, best, col, from, upto - 1);
        if a[b.0][b.1].spec_modulus().spec_lt(a[upto - 1][col].spec_modulus()) {
            (upto - 1, col)
        } else {
            b
        }
    }
}

/// The first position, going down column after column, of an entry of
/// largest absolute value among the rows from `k` and the columns
/// `k..upto_col`.
pub open spec fn full_pivot<T: ComplexField>(a: Seq<Seq<T>>, k: int, upto_col: int) -> (int, int)
    decreases upto_col - k,
{
    if upto_col <= k {
        (k, k)
    } else {
        scan_column(a, full_pivot(a, k, upto_col - 1), upto_col - 1, k, a.len() as int)
    }
}

/// What the decomposition holds between two steps.
pub struct FullPivState<T> {
    /// The packed factors.
    pub a: Seq<Seq<T>>,
    /// The row exchanges made.
    pub p: Seq<(usize, usize)>,
    /// The column exchanges made.
    pub q: Seq<(usize, usize)>,
    /// Whether a zero pivot ended the elimination.
    pub stopped: bool,
}

/// Step `k`: the pivot of the remaining submatrix is brought to the
/// diagonal by a column and a row exchange, and the rows below are
/// reduced. If the pivot is zero the rest of the matrix is zero, and the
/// elimination ends.
pub open spec fn full_piv_step<T: ComplexField>(s: FullPivState<T>, k: int) -> FullPivState<T> {
    let (r, c) = full_pivot(s.a, k, s.a[k].len() as int);
    if s.a[r][c].spec_is_zero() {
        FullPivState { a: s.a, p: s.p, q: s.q, stopped: true }
    } else {
        FullPivState {
            a: eliminate(swap_rows(swap_columns(s.a, k, c), k, r), k),
            p: if r != k {
                s.p.push((k as usize, r as usize))
            } else {
                s.p
            },
            q: if c != k {
                s.q.push((k as usize, c as usize))
            } else {
                s.q
            },
            stopped: false,
        }
    }
}

/// The state after the first `k` steps.
pub open spec fn full_piv_run<T: ComplexField>(a: Seq<Seq<T>>, k: nat) -> FullPivState<T>
    decreases k,
{
    if k == 0 {
        FullPivState { a, p: Seq::empty(), q: Seq::empty(), stopped: false }
    } else {
        let s = full_piv_run(a, (k - 1) as nat);
        if s.stopped {
            s
        } else {
            full_piv_step(s, k - 1)
        }
    }
}

/// Once the elimination has ended, later steps change nothing.
pub proof fn lemma_stopped_stays<T: ComplexField>(a: Seq<Seq<T>>, k: nat, n: nat)
    requires
        k <= n,
        full_piv_run(a, k).stopped,
    ensures
        full_piv_run(a, n) == full_piv_run(a, k),
    decreases n - k,
{
    if k < n {
        lemma_stopped_stays(a, k, (n - 1) as nat);
    }
}

/// The full pivot is an entry of the remaining submatrix, and none of that
/// submatrix is larger in absolute value.
pub proof fn lemma_full_pivot_dominates<T: ComplexField>(
    a: Seq<Seq<T>>,
    k: int,
    rows: int,
    upto_col: int,
)
    requires
        strict_weak_order::<T::Real>(),
        a.len() == rows,
        0 <= k < rows,
        k <= upto_col,
    ensures
        ({
            let p = full_pivot(a, k, upto_col);
            &&& k <= p.0 < rows
            &&& p.1 == k || k <= p.1 < upto_col
            &&& forall|i: int, j: int|
                k <= i < rows && k <= j < upto_col ==> !a[p.0][p.1].spec_modulus().spec_lt(
                    (#[trigger] a[i][j]).spec_modulus(),
                )
        }),
    decreases upto_col - k,
{
    if upto_col > k {
        lemma_full_pivot_dominates(a, k, rows, upto_col - 1);
        let start = full_pivot(a, k, upto_col - 1);
        lemma_scan_dominates(a, start, upto_col - 1, k, rows, k, rows);
        let p = full_pivot(a, k, upto_col);
        assert forall|i: int, j: int| k <= i < rows && k <= j < upto_col implies !a[p.0][p.1]
            .spec_modulus().spec_lt((#[trigger] a[i][j]).spec_modulus()) by {
            if j < upto_col - 1 {
                assert(!a[start.0][start.1].spec_modulus().spec_lt(a[i][j].spec_modulus()));
                assert(!a[p.0][p.1].spec_modulus().spec_lt(a[start.0][start.1].spec_modulus()));
            }
        }
    }
}

proof fn lemma_scan_dominates<T: ComplexField>(
    a: Seq<Seq<T>>,
    start: (int, int),
    col: int,
    from: int,
    upto: int,
    k: int,
    rows: int,
)
    requires
        strict_weak_order::<T::Real>(),
        k <= from <= upto <= rows,
        k <= start.0 < rows,
    ensures
        ({
            let p = scan_column(a, start, col, from, upto);
            &&& k <= p.0 < rows
            &&& p == start || p.1 == col
            &&& !a[p.0][p.1].spec_modulus().spec_lt(a[start.0][start.1].spec_modulus())
            &&& forall|i: int|
                from <= i < upto ==> !a[p.0][p.1].spec_modulus().spec_lt(
                    (#[trigger] a[i])[col].spec_modulus(),
                )
        }),
    decreases upto - from,
{
    let p = scan_column(a, start, col, from, upto);
    let pm = a[p.0][p.1].spec_modulus();
    let sm = a[start.0][start.1].spec_modulus();
    if upto <= from {
        if sm.spec_lt(sm) {
            assert(!sm.spec_lt(sm));
        }
    } else {
        lemma_scan_dominates(a, start, col, from, upto - 1, k, rows);
        let q = scan_column(a, start, col, from, upto - 1);
        let qm = a[q.0][q.1].spec_modulus();
        let last = a[upto - 1][col].spec_modulus();
        if qm.spec_lt(last) {
            assert(!last.spec_lt(qm));
            assert(!qm.spec_lt(sm));
            assert(!last.spec_lt(sm));
            if last.spec_lt(last) {
                assert(!last.spec_lt(last));
            }
            assert forall|i: int| from <= i < upto implies !pm.spec_lt(
                (#[trigger] a[i])[col].spec_modulus(),
            ) by {
                if i < upto - 1 {
                    assert(!qm.spec_lt(a[i][col].spec_modulus()));
                    assert(!last.spec_lt(a[i][col].spec_modulus()));
                }
            }
        } else {
            assert forall|i: int| from <= i < upto implies !pm.spec_lt(
                (#[trigger] a[i])[col].spec_modulus(),
            ) by {
                if i < upto - 1 {
                    assert(!qm.spec_lt(a[i][col].spec_modulus()));
                }
            }
        }
    }
}

/// Every entry below the diagonal is at most one in absolute value.
pub open spec fn all_bounded<T: ComplexField>(a: Seq<Seq<T>>, cols: nat) -> bool {
    forall|i: int, j: int|
        0 <= j < cols && j < i < a.len() ==> (#[trigger] a[i][j]).spec_modulus().spec_le(
            T::Real::spec_one(),
        )
}

/// In a field where quotients by a dominating pivot are bounded, every
/// multiplier that full pivoting leaves below the diagonal is at most one
/// in absolute value.
pub proof fn lemma_full_piv_multipliers_bounded<T: ComplexField>(
    a: Seq<Seq<T>>,
    rows: nat,
    cols: nat,
    k: nat,
)
    requires
        has_shape(a, rows, cols),
        k <= rows,
        k <= cols,
        strict_weak_order::<T::Real>(),
        dominated_quotients::<T>(),
    ensures
        has_shape(full_piv_run(a, k).a, rows, cols),
        multipliers_bounded(full_piv_run(a, k).a, k as int),
        full_piv_run(a, k).stopped ==> all_bounded(full_piv_run(a, k).a, cols),
    decreases k,
{
    if k > 0 {
        let s = (k - 1) as nat;
        let si = s as int;
        lemma_full_piv_multipliers_bounded(a, rows, cols, s);
        let st = full_piv_run(a, s);
        let b = st.a;
        let next = full_piv_run(a, k).a;
        if st.stopped {
            assert forall|i: int, j: int| 0 <= j < k && j < i < next.len() implies (
            #[trigger] next[i][j]).spec_modulus().spec_le(T::Real::spec_one()) by {}
        } else {
            assert(b[si].len() == cols);
            lemma_full_pivot_dominates(b, si, rows as int, cols as int);
            let (r, c) = full_pivot(b, si, cols as int);
            let pivot = b[r][c];
            if pivot.spec_is_zero() {
                assert forall|i: int, j: int| 0 <= j < cols && j < i < b.len() implies (
                #[trigger] b[i][j]).spec_modulus().spec_le(T::Real::spec_one()) by {
                    if j >= si {
                        assert(!pivot.spec_modulus().spec_lt(b[i][j].spec_modulus()));
                    }
                }
            } else {
                let b1 = swap_columns(b, si, c);
                let b2 = swap_rows(b1, si, r);
                assert(next == eliminate(b2, si));
                assert forall|i: int, j: int| 0 <= j < k && j < i < next.len() implies (
                #[trigger] next[i][j]).spec_modulus().spec_le(T::Real::spec_one()) by {
                    let src = if i == si {
                        r
                    } else if i == r {
                        si
                    } else {
                        i
                    };
                    assert(b2[i] == b1[src]);
                    assert(b2[si] == b1[r]);
                    assert(b1[r][si] == pivot);
                    if j == si {
                        assert(b1[src][si] == b[src][c]);
                        assert(next[i][j] == b[src][c].spec_over(pivot));
                        assert(!pivot.spec_modulus().spec_lt(b[src][c].spec_modulus()));
                    } else {
                        assert(b1[src][j] == b[src][j]);
                        assert(next[i][j] == b[src][j]);
                    }
                }
            }
        }
    }
}

fn find_full_pivot<T: ComplexField>(m: &Matrix<T>, k: usize) -> (p: (usize, usize))
    requires
        k < m.rows(),
        k < m.cols(),
    ensures
        (p.0 as int, p.1 as int) == full_pivot(m@, k as int, m.cols() as int),
        k <= p.0 < m.rows(),
        k <= p.1 < m.cols(),
{
    let nrows = m.nrows();
    let ncols = m.ncols();
    let mut best: (usize, usize) = (k, k);
    let mut best_mod = m.get(k, k).modulus();
    let mut j: usize = k;
    while j < ncols
        invariant
            k <= j <= ncols,
            k < nrows,
            nrows == m.rows(),
            ncols == m.cols(),
            k <= best.0 < nrows,
            k <= best.1 < ncols,
            (best.0 as int, best.1 as int) == full_pivot(m@, k as int, j as int),
            best_mod == m.at(best.0 as int, best.1 as int).spec_modulus(),
        decreases ncols - j,
    {
        let ghost start = (best.0 as int, best.1 as int);
        let mut i: usize = k;
        while i < nrows
            invariant
                k <= i <= nrows,
                k <= j < ncols,
                nrows == m.rows(),
                ncols == m.cols(),
                k <= best.0 < nrows,
                k <= best.1 < ncols,
                (best.0 as int, best.1 as int) == scan_column(
                    m@,
                    start,
                    j as int,
                    k as int,
                    i as int,
                ),
                best_mod == m.at(best.0 as int, best.1 as int).spec_modulus(),
            decreases nrows - i,
        {
            let v = m.get(i, j).modulus();
            assert(m@[i as int][j as int] == m.at(i as int, j as int));
            assert(m@[best.0 as int][best.1 as int] == m.at(best.0 as int, best.1 as int));
            if best_mod.lt(v) {
                best = (i, j);
                best_mod = v;
            }
            i += 1;
        }
        j += 1;
    }
    best
}

/// The LU decomposition of a matrix with full pivoting, with the row and
/// column exchanges that the pivoting made.
pub struct FullPivLU<T> {
    lu: Matrix<T>,
    p: PermutationSequence,
    q: PermutationSequence,
}

impl<T: ComplexField> FullPivLU<T> {
    /// The factors in one matrix: `U` on and above the diagonal, the
    /// multipliers of `L` below it.
    pub closed spec fn packed(&self) -> Seq<Seq<T>> {
        self.lu@
    }

    /// The row exchanges, in the order in which they were made.
    pub closed spec fn row_swaps(&self) -> Seq<(usize, usize)> {
        self.p@
    }

    /// The column exchanges, in the order in which they were made.
    pub closed spec fn column_swaps(&self) -> Seq<(usize, usize)> {
        self.q@
    }

    pub closed spec fn rows(&self) -> nat {
        self.lu.rows()
    }

    pub closed spec fn cols(&self) -> nat {
        self.lu.cols()
    }

    pub open spec fn min_dim(&self) -> nat {
        if self.rows() <= self.cols() {
            self.rows()
        } else {
            self.cols()
        }
    }

    /// Decomposes `matrix` by Gaussian elimination with row and column
    /// pivoting.
    pub fn new(matrix: Matrix<T>) -> (r: Self)
        ensures
            r.rows() == matrix.rows(),
            r.cols() == matrix.cols(),
            swaps_within(r.row_swaps(), r.rows()),
            swaps_within(r.column_swaps(), r.cols()),
            r.packed() == full_piv_run(matrix@, matrix.min_dim()).a,
            r.row_swaps() == full_piv_run(matrix@, matrix.min_dim()).p,
            r.column_swaps() == full_piv_run(matrix@, matrix.min_dim()).q,
            strict_weak_order::<T::Real>() && dominated_quotients::<T>() ==> multipliers_bounded(
                r.packed(),
                r.min_dim() as int,
            ),
            field_laws::<T>() && strict_weak_order::<T::Real>() && zero_is_least::<T>()
                ==> multiplies_to(
                r.packed(),
                permute_columns(permute_rows(matrix@, r.row_swaps()), r.column_swaps()),
                r.rows(),
                r.cols(),
                r.min_dim(),
            ),
    {
        let ghost orig = matrix@;
        let mut m = matrix;
        let nrows = m.nrows();
        let ncols = m.ncols();
        let min = if nrows <= ncols {
            nrows
        } else {
            ncols
        };
        let mut p = PermutationSequence::identity();
        let mut q = PermutationSequence::identity();
        assert(p@ =~= Seq::empty());
        assert(q@ =~= Seq::empty());
        let mut k: usize = 0;
        let mut stopped = false;
        while k < min && !stopped
            invariant
                k <= min,
                min <= nrows,
                min <= ncols,
                m.rows() == nrows,
                m.cols() == ncols,
                swaps_within(p@, nrows as nat),
                swaps_within(q@, ncols as nat),
                full_piv_run(orig, k as nat) == (FullPivState {
                    a: m@,
                    p: p@,
                    q: q@,
                    stopped: stopped,
                }),
            decreases min - k,
        {
            let piv = find_full_pivot(&m, k);
            let diag = m.get(piv.0, piv.1);
            assert(m@[piv.0 as int][piv.1 as int] == diag);
            assert(m@[k as int].len() == ncols);
            if diag.is_zero() {
                stopped = true;
            } else {
                m.swap_columns(k, piv.1);
                q.append_permutation(k, piv.1);
                m.swap_rows(k, piv.0);
                p.append_permutation(k, piv.0);
                gauss_step(&mut m, k);
            }
            k += 1;
        }
        proof {
            if stopped {
                lemma_stopped_stays(orig, k as nat, min as nat);
            }
            if strict_weak_order::<T::Real>() && dominated_quotients::<T>() {
                lemma_full_piv_multipliers_bounded(orig, nrows as nat, ncols as nat, min as nat);
            }
            if field_laws::<T>() && strict_weak_order::<T::Real>() && zero_is_least::<T>() {
                lemma_full_piv_lu_reconstructs(orig, nrows as nat, ncols as nat, min as nat);
            }
        }
        FullPivLU { lu: m, p, q }
    }

    /// The lower-triangular factor: ones on the diagonal, the multipliers
    /// below it, zeros above it.
    pub fn l(&self) -> (l: Matrix<T>)
        ensures
            l.rows() == self.rows(),
            l.cols() == self.min_dim(),
            forall|i: int, j: int|
                l.has(i, j) ==> #[trigger] l.at(i, j) == unit_lower_entry(self.packed(), i, j),
    {
        self.lu.unit_lower_triangle()
    }

    /// The upper-triangular factor: the packed entries on and above the
    /// diagonal, zeros below it.
    pub fn u(&self) -> (u: Matrix<T>)
        ensures
            u.rows() == self.min_dim(),
            u.cols() == self.cols(),
            forall|i: int, j: int|
                u.has(i, j) ==> #[trigger] u.at(i, j) == upper_entry(self.packed(), i, j),
    {
        self.lu.upper_triangle()
    }

    /// The row exchanges that the pivoting made.
    pub fn p(&self) -> (p: &PermutationSequence)
        ensures
            p@ == self.row_swaps(),
    {
        &self.p
    }

    /// The column exchanges that the pivoting made.
    pub fn q(&self) -> (q: &PermutationSequence)
        ensures
            q@ == self.column_swaps(),
    {
        &self.q
    }

    /// The packed factors.
    pub fn lu_internal(&self) -> (m: &Matrix<T>)
        ensures
            m@ == self.packed(),
            m.rows() == self.rows(),
            m.cols() == self.cols(),
    {
        &self.lu
    }
}

} // verus!
