//! LU decomposition with partial (row) pivoting.

use crate::matrix::{has_shape, swap_rows, unit_lower_entry, upper_entry, Matrix};
use crate::permutation::{permute_rows, swaps_within, PermutationSequence};
use crate::reconstruction::{lemma_lu_reconstructs, multiplies_to};
use crate::scalar::{
    absorbing_zero, dominated_quotients, field_laws, strict_weak_order, zero_is_least,
    ComplexField, RealField,
};
use vstd::prelude::*;

verus! {

/// The first row among `from..upto` whose entry in column `col` has the
/// largest absolute value.
pub open spec fn pivot_row<T: ComplexField>(a: Seq<Seq<T>>, col: int, from: int, upto: int) -> int
    decreases upto - from,
{
    if upto <= from + 1 {
        from
    } else {
        let p = pivot_row(a, col, from, upto - 1);
        if a[p][col].spec_modulus().spec_lt(a[upto - 1][col].spec_modulus()) {
            upto - 1
        } else {
            p
        }
    }
}

/// The entry of row `i`, column `j` after the rows below row `k` were
/// reduced with the pivot `a[k][k]`: the multiplier in column `k`, the
/// reduced entry to its right.
pub open spec fn eliminated_entry<T: ComplexField>(a: Seq<Seq<T>>, k: int, i: int, j: int) -> T {
    if i <= k || j < k {
        a[i][j]
    } else if j == k {
        a[i][k].spec_over(a[k][k])
    } else {
        a[i][j].spec_minus(a[k][j].spec_times(a[i][k].spec_over(a[k][k])))
    }
}

/// One step of Gaussian elimination on column `k`, the pivot being in place.
pub open spec fn eliminate<T: ComplexField>(a: Seq<Seq<T>>, k: int) -> Seq<Seq<T>> {
    Seq::new(a.len(), |i: int| Seq::new(a[i].len(), |j: int| eliminated_entry(a, k, i, j)))
}

/// Step `k` of the decomposition: choose the pivot of column `k`, bring it
/// to row `k`, eliminate below it. A column whose pivot is zero is left as
/// it is.
pub open spec fn lu_step<T: ComplexField>(
    state: (Seq<Seq<T>>, Seq<(usize, usize)>),
    k: int,
) -> (Seq<Seq<T>>, Seq<(usize, usize)>) {
    let (a, swaps) = state;
    let p = pivot_row(a, k, k, a.len() as int);
    if a[p][k].spec_is_zero() {
        state
    } else {
        (
            eliminate(swap_rows(a, k, p), k),
            if p != k {
                swaps.push((k as usize, p as usize))
            } else {
                swaps
            },
        )
    }
}

/// The packed factors and the recorded exchanges after the first `k` steps.
pub open spec fn lu_run<T: ComplexField>(a: Seq<Seq<T>>, k: nat) -> (
    Seq<Seq<T>>,
    Seq<(usize, usize)>,
)
    decreases k,
{
    if k == 0 {
        (a, Seq::empty())
    } else {
        lu_step(lu_run(a, (k - 1) as nat), k - 1)
    }
}

/// Below the diagonal, the first `k` columns hold nothing larger than one in
/// absolute value.
pub open spec fn multipliers_bounded<T: ComplexField>(a: Seq<Seq<T>>, k: int) -> bool {
    forall|i: int, j: int|
        0 <= j < k && j < i < a.len() ==> (#[trigger] a[i][j]).spec_modulus().spec_le(
            T::Real::spec_one(),
        )
}

/// Below the diagonal every entry is the zero of the field.
pub open spec fn is_upper_triangular<T: ComplexField>(a: Seq<Seq<T>>) -> bool {
    forall|i: int, j: int|
        0 <= j < i < a.len() && j < a[i].len() ==> #[trigger] a[i][j] == T::spec_zero()
}

/// The pivot that is chosen is not smaller in absolute value than any entry
/// it was chosen among.
pub proof fn lemma_pivot_dominates<T: ComplexField>(a: Seq<Seq<T>>, col: int, from: int, upto: int)
    requires
        strict_weak_order::<T::Real>(),
        from < upto,
    ensures
        from <= pivot_row(a, col, from, upto) < upto,
        forall|i: int|
            from <= i < upto ==> !a[pivot_row(a, col, from, upto)][col].spec_modulus().spec_lt(
                #[trigger] a[i][col].spec_modulus(),
            ),
    decreases upto - from,
{
    let p = pivot_row(a, col, from, upto);
    let pm = a[p][col].spec_modulus();
    if upto <= from + 1 {
        if pm.spec_lt(pm) {
            assert(!pm.spec_lt(pm));
        }
    } else {
        lemma_pivot_dominates(a, col, from, upto - 1);
        let q = pivot_row(a, col, from, upto - 1);
        let qm = a[q][col].spec_modulus();
        let last = a[upto - 1][col].spec_modulus();
        assert forall|i: int| from <= i < upto implies !pm.spec_lt(
            #[trigger] a[i][col].spec_modulus(),
        ) by {
            let im = a[i][col].spec_modulus();
            if qm.spec_lt(last) {
                assert(!last.spec_lt(qm));
                if i < upto - 1 {
                    assert(!qm.spec_lt(im));
                    assert(!last.spec_lt(im));
                } else {
                    if last.spec_lt(last) {
                        assert(!last.spec_lt(last));
                    }
                }
            } else {
                if i < upto - 1 {
                    assert(!qm.spec_lt(im));
                }
            }
        }
    }
}

/// The pivot is one of the rows it was chosen among.
pub proof fn lemma_pivot_in_range<T: ComplexField>(a: Seq<Seq<T>>, col: int, from: int, upto: int)
    requires
        from < upto,
    ensures
        from <= pivot_row(a, col, from, upto) < upto,
    decreases upto - from,
{
    if upto > from + 1 {
        lemma_pivot_in_range(a, col, from, upto - 1);
    }
}

/// The elimination keeps the shape of the matrix.
pub proof fn lemma_lu_run_shape<T: ComplexField>(a: Seq<Seq<T>>, rows: nat, cols: nat, k: nat)
    requires
        has_shape(a, rows, cols),
        k <= rows,
        k <= cols,
    ensures
        has_shape(lu_run(a, k).0, rows, cols),
    decreases k,
{
    if k > 0 {
        lemma_lu_run_shape(a, rows, cols, (k - 1) as nat);
        let b = lu_run(a, (k - 1) as nat).0;
        lemma_pivot_in_range(b, k - 1, k - 1, rows as int);
        let p = pivot_row(b, k - 1, k - 1, b.len() as int);
        let c = swap_rows(b, k - 1, p);
        assert(lu_run(a, k).0 == b || lu_run(a, k).0 == eliminate(c, k - 1));
        assert(has_shape(c, rows, cols));
    }
}

/// In a field where quotients by a dominating pivot are bounded, every
/// multiplier that partial pivoting leaves below the diagonal is at most one
/// in absolute value.
pub proof fn lemma_lu_multipliers_bounded<T: ComplexField>(
    a: Seq<Seq<T>>,
    rows: nat,
    cols: nat,
    k: nat,
)
    requires
        has_shape(a, rows, cols),
        k <= rows,
        k <= cols,
        strict_weak_order::<T::Real>(),
        dominated_quotients::<T>(),
    ensures
        multipliers_bounded(lu_run(a, k).0, k as int),
    decreases k,
{
    if k > 0 {
        let kk = k - 1;
        lemma_lu_multipliers_bounded(a, rows, cols, kk as nat);
        lemma_lu_run_shape(a, rows, cols, kk as nat);
        let b = lu_run(a, kk as nat).0;
        let p = pivot_row(b, kk, kk, rows as int);
        lemma_pivot_dominates(b, kk, kk, rows as int);
        let pivot = b[p][kk];
        let r = lu_run(a, k).0;
        assert forall|i: int, j: int| 0 <= j < k && j < i < r.len() implies (
        #[trigger] r[i][j]).spec_modulus().spec_le(T::Real::spec_one()) by {
            if pivot.spec_is_zero() {
                assert(r == b);
                if j == kk {
                    assert(!pivot.spec_modulus().spec_lt(b[i][kk].spec_modulus()));
                }
            } else {
                let c = swap_rows(b, kk, p);
                assert(r == eliminate(c, kk));
                let src = if i == kk {
                    p
                } else if i == p {
                    kk
                } else {
                    i
                };
                assert(c[i] == b[src]);
                assert(c[kk] == b[p]);
                if j == kk {
                    assert(r[i][j] == b[src][kk].spec_over(pivot));
                    assert(!pivot.spec_modulus().spec_lt(b[src][kk].spec_modulus()));
                } else {
                    assert(r[i][j] == b[src][j]);
                }
            }
        }
    }
}

/// A matrix that is upper triangular already is its own packed
/// decomposition, and no rows are exchanged: `L` is the identity and `U` the
/// matrix itself.
pub proof fn lemma_lu_of_upper_triangular<T: ComplexField>(
    a: Seq<Seq<T>>,
    rows: nat,
    cols: nat,
    k: nat,
)
    requires
        has_shape(a, rows, cols),
        k <= rows,
        k <= cols,
        is_upper_triangular(a),
        absorbing_zero::<T>(),
    ensures
        lu_run(a, k) == (a, Seq::<(usize, usize)>::empty()),
    decreases k,
{
    if k > 0 {
        let kk = k - 1;
        lemma_lu_of_upper_triangular(a, rows, cols, kk as nat);
        lemma_pivot_of_upper_triangular(a, rows, cols, kk, rows as int);
        let p = pivot_row(a, kk, kk, rows as int);
        assert(p == kk);
        if !a[kk][kk].spec_is_zero() {
            let c = swap_rows(a, kk, kk);
            assert(c =~= a);
            let e = eliminate(a, kk);
            assert forall|i: int| 0 <= i < rows implies #[trigger] e[i] =~= a[i] by {
                assert forall|j: int| 0 <= j < cols implies e[i][j] == a[i][j] by {
                    if i > kk && j >= kk {
                        assert(a[i][kk] == T::spec_zero());
                        let q = T::spec_zero().spec_over(a[kk][kk]);
                        assert(q == T::spec_zero());
                        if j > kk {
                            assert(a[kk][j].spec_times(T::spec_zero()) == T::spec_zero());
                            assert(a[i][j].spec_minus(T::spec_zero()) == a[i][j]);
                        }
                    }
                }
            }
            assert(e =~= a);
        }
    }
}

proof fn lemma_pivot_of_upper_triangular<T: ComplexField>(
    a: Seq<Seq<T>>,
    rows: nat,
    cols: nat,
    k: int,
    upto: int,
)
    requires
        has_shape(a, rows, cols),
        0 <= k < upto <= rows,
        k < cols,
        is_upper_triangular(a),
        absorbing_zero::<T>(),
    ensures
        pivot_row(a, k, k, upto) == k,
    decreases upto - k,
{
    if upto > k + 1 {
        lemma_pivot_of_upper_triangular(a, rows, cols, k, upto - 1);
        assert(a[upto - 1][k] == T::spec_zero());
        assert(!a[k][k].spec_modulus().spec_lt(T::spec_zero().spec_modulus()));
    }
}

pub(crate) fn find_pivot<T: ComplexField>(m: &Matrix<T>, col: usize, from: usize) -> (p: usize)
    requires
        from < m.rows(),
        col < m.cols(),
    ensures
        p == pivot_row(m@, col as int, from as int, m.rows() as int),
        from <= p < m.rows(),
{
    let n = m.nrows();
    let mut best = from;
    let mut best_mod = m.get(from, col).modulus();
    let mut i: usize = from + 1;
    while i < n
        invariant
            from < i <= n,
            n == m.rows(),
            col < m.cols(),
            from <= best < i,
            best == pivot_row(m@, col as int, from as int, i as int),
            best_mod == m.at(best as int, col as int).spec_modulus(),
        decreases n - i,
    {
        let v = m.get(i, col).modulus();
        assert(m@[i as int][col as int] == m.at(i as int, col as int));
        assert(m@[best as int][col as int] == m.at(best as int, col as int));
        if best_mod.lt(v) {
            best = i;
            best_mod = v;
        }
        i += 1;
    }
    best
}

pub(crate) fn gauss_step<T: ComplexField>(m: &mut Matrix<T>, k: usize)
    requires
        k < old(m).rows(),
        k < old(m).cols(),
    ensures
        final(m).rows() == old(m).rows(),
        final(m).cols() == old(m).cols(),
        final(m)@ == eliminate(old(m)@, k as int),
{
    let ghost before = *m;
    let nrows = m.nrows();
    let ncols = m.ncols();
    let diag = m.get(k, k);
    let mut i: usize = k + 1;
    while i < nrows
        invariant
            k < i <= nrows,
            k < ncols,
            nrows == before.rows(),
            ncols == before.cols(),
            m.rows() == nrows,
            m.cols() == ncols,
            diag == before.at(k as int, k as int),
            forall|r: int, c: int|
                before.has(r, c) ==> #[trigger] m.at(r, c) == (if r < i {
                    eliminated_entry(before@, k as int, r, c)
                } else {
                    before.at(r, c)
                }),
        decreases nrows - i,
    {
        let coeff = m.get(i, k).over(diag);
        m.set(i, k, coeff);
        let mut j: usize = k + 1;
        while j < ncols
            invariant
                k < i < nrows,
                k < j <= ncols,
                nrows == before.rows(),
                ncols == before.cols(),
                m.rows() == nrows,
                m.cols() == ncols,
                coeff == before.at(i as int, k as int).spec_over(before.at(k as int, k as int)),
                forall|r: int, c: int|
                    before.has(r, c) ==> #[trigger] m.at(r, c) == (if r < i || (r == i && c < j) {
                        eliminated_entry(before@, k as int, r, c)
                    } else {
                        before.at(r, c)
                    }),
            decreases ncols - j,
        {
            let v = m.get(i, j).minus(m.get(k, j).times(coeff));
            m.set(i, j, v);
            j += 1;
        }
        i += 1;
    }
    proof {
        let goal = eliminate(before@, k as int);
        assert forall|r: int| 0 <= r < m.rows() implies #[trigger] m@[r] =~= goal[r] by {
            assert forall|c: int| 0 <= c < m.cols() implies m@[r][c] == goal[r][c] by {
                assert(m@[r][c] == m.at(r, c));
            }
        }
        assert(m@ =~= goal);
    }
}

/// The LU decomposition of a matrix, with the row exchanges that the
/// pivoting made.
pub struct LU<T> {
    lu: Matrix<T>,
    p: PermutationSequence,
}

impl<T: ComplexField> LU<T> {
    /// The factors in one matrix: `U` on and above the diagonal, the
    /// multipliers of `L` below it.
    pub closed spec fn packed(&self) -> Seq<Seq<T>> {
        self.lu@
    }

    /// The row exchanges, in the order in which they were made.
    pub closed spec fn swaps(&self) -> Seq<(usize, usize)> {
        self.p@
    }

    pub closed spec fn rows(&self) -> nat {
        self.lu.rows()
    }

    pub closed spec fn cols(&self) -> nat {
        self.lu.cols()
    }

    pub open spec fn min_dim(&self) -> nat {
        if self.rows() <= self.cols() {
            self.rows()
        } else {
            self.cols()
        }
    }

    /// Decomposes `matrix` by Gaussian elimination with row pivoting.
    pub fn new(matrix: Matrix<T>) -> (r: Self)
        ensures
            r.rows() == matrix.rows(),
            r.cols() == matrix.cols(),
            has_shape(r.packed(), r.rows(), r.cols()),
            swaps_within(r.swaps(), r.rows()),
            (r.packed(), r.swaps()) == lu_run(matrix@, matrix.min_dim()),
            strict_weak_order::<T::Real>() && dominated_quotients::<T>() ==> multipliers_bounded(
                r.packed(),
                r.min_dim() as int,
            ),
            field_laws::<T>() && strict_weak_order::<T::Real>() && zero_is_least::<T>()
                ==> multiplies_to(
                r.packed(),
                permute_rows(matrix@, r.swaps()),
                r.rows(),
                r.cols(),
                r.min_dim(),
            ),
            absorbing_zero::<T>() && is_upper_triangular(matrix@) ==> r.packed() == matrix@
                && r.swaps().len() == 0,
    {
        let ghost orig = matrix@;
        let mut m = matrix;
        let nrows = m.nrows();
        let ncols = m.ncols();
        let min = if nrows <= ncols {
            nrows
        } else {
            ncols
        };
        let mut p = PermutationSequence::identity();
        let mut k: usize = 0;
        assert(p@ =~= Seq::empty());
        while k < min
            invariant
                k <= min,
                min <= nrows,
                min <= ncols,
                m.rows() == nrows,
                m.cols() == ncols,
                swaps_within(p@, nrows as nat),
                (m@, p@) == lu_run(orig, k as nat),
            decreases min - k,
        {
            let piv = find_pivot(&m, k, k);
            let diag = m.get(piv, k);
            assert(m@[piv as int][k as int] == diag);
            if !diag.is_zero() {
                p.append_permutation(k, piv);
                if piv != k {
                    m.swap_rows(k, piv);
                } else {
                    assert(swap_rows(m@, k as int, k as int) =~= m@);
                }
                gauss_step(&mut m, k);
            }
            k += 1;
        }
        proof {
            lemma_lu_run_shape(orig, nrows as nat, ncols as nat, min as nat);
            if strict_weak_order::<T::Real>() && dominated_quotients::<T>() {
                lemma_lu_multipliers_bounded(orig, nrows as nat, ncols as nat, min as nat);
            }
            if field_laws::<T>() && strict_weak_order::<T::Real>() && zero_is_least::<T>() {
                lemma_lu_reconstructs(orig, nrows as nat, ncols as nat, min as nat);
            }
            if absorbing_zero::<T>() && is_upper_triangular(orig) {
                lemma_lu_of_upper_triangular(orig, nrows as nat, ncols as nat, min as nat);
            }
        }
        LU { lu: m, p }
    }

    /// The lower-triangular factor: ones on the diagonal, the multipliers
    /// below it, zeros above it.
    pub fn l(&self) -> (l: Matrix<T>)
        ensures
            l.rows() == self.rows(),
            l.cols() == self.min_dim(),
            forall|i: int, j: int|
                l.has(i, j) ==> #[trigger] l.at(i, j) == unit_lower_entry(self.packed(), i, j),
    {
        self.lu.unit_lower_triangle()
    }

    /// The upper-triangular factor: the packed entries on and above the
    /// diagonal, zeros below it.
    pub fn u(&self) -> (u: Matrix<T>)
        ensures
            u.rows() == self.min_dim(),
            u.cols() == self.cols(),
            forall|i: int, j: int|
                u.has(i, j) ==> #[trigger] u.at(i, j) == upper_entry(self.packed(), i, j),
    {
        self.lu.upper_triangle()
    }

    /// The row exchanges that the pivoting made.
    pub fn p(&self) -> (p: &PermutationSequence)
        ensures
            p@ == self.swaps(),
    {
        &self.p
    }

    /// The packed factors.
    pub fn lu_internal(&self) -> (m: &Matrix<T>)
        ensures
            m@ == self.packed(),
            m.rows() == self.rows(),
            m.cols() == self.cols(),
    {
        &self.lu
    }
}

} // verus!
