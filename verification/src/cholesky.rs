//! Cholesky decomposition of a symmetric (Hermitian) positive-definite
//! matrix.

use crate::matrix::{lower_entry, Matrix};
use crate::scalar::{
    field_laws, lemma_minus_cancels, lemma_over_cancels, lemma_plus_associates,
    lemma_plus_commutes, lemma_plus_zero, lemma_times_zero, lemma_zero_test, real_roots,
    ComplexField,
};
use vstd::prelude::*;

verus! {

/// The entry of row `i` in column `j` once the contributions of the first
/// `k` columns, which hold their final values, were taken off it.
pub open spec fn reduced_entry<T: ComplexField>(a: Seq<Seq<T>>, i: int, j: int, k: nat) -> T
    decreases k,
{
    if k == 0 {
        a[i][j]
    } else {
        reduced_entry(a, i, j, (k - 1) as nat).spec_minus(
            a[i][k - 1].spec_times(a[j][k - 1].spec_conj()),
        )
    }
}

/// The pivot of column `j`: its diagonal entry, reduced by the columns
/// before it.
pub open spec fn pivot<T: ComplexField>(a: Seq<Seq<T>>, j: int) -> T {
    reduced_entry(a, j, j, j as nat)
}

/// Whether column `j` can be factored: its pivot is not zero and has a
/// square root.
pub open spec fn pivot_admissible<T: ComplexField>(a: Seq<Seq<T>>, j: int) -> bool {
    !pivot(a, j).spec_is_zero() && pivot(a, j).spec_try_sqrt().is_some()
}

/// Column `j` is given its final values on and below the diagonal; the rest
/// of the matrix stays.
pub open spec fn factor_column<T: ComplexField>(a: Seq<Seq<T>>, j: int) -> Seq<Seq<T>> {
    let root = pivot(a, j).spec_try_sqrt().unwrap();
    Seq::new(
        a.len(),
        |i: int|
            Seq::new(
                a[i].len(),
                |c: int|
                    if c != j || i < j {
                        a[i][c]
                    } else if i == j {
                        root
                    } else {
                        reduced_entry(a, i, j, j as nat).spec_over(root)
                    },
            ),
    )
}

/// The matrix after its first `k` columns were factored, or `None` if one of
/// them could not be.
pub open spec fn factor_columns<T: ComplexField>(a: Seq<Seq<T>>, k: nat) -> Option<Seq<Seq<T>>>
    decreases k,
{
    if k == 0 {
        Some(a)
    } else {
        match factor_columns(a, (k - 1) as nat) {
            None => None,
            Some(b) => if pivot_admissible(b, k - 1) {
                Some(factor_column(b, k - 1))
            } else {
                None
            },
        }
    }
}

/// Once a column could not be factored, no later stage has a result.
pub proof fn lemma_failure_persists<T: ComplexField>(a: Seq<Seq<T>>, j: nat, n: nat)
    requires
        j <= n,
        factor_columns(a, j).is_none(),
    ensures
        factor_columns(a, n).is_none(),
    decreases n - j,
{
    if j < n {
        lemma_failure_persists(a, j, (n - 1) as nat);
    }
}

/// The sum of `b[i][k] * conj(b[j][k])` over the first `m` columns.
pub open spec fn row_product<T: ComplexField>(b: Seq<Seq<T>>, i: int, j: int, m: nat) -> T
    decreases m,
{
    if m == 0 {
        T::spec_zero()
    } else {
        row_product(b, i, j, (m - 1) as nat).spec_plus(
            b[i][m - 1].spec_times(b[j][m - 1].spec_conj()),
        )
    }
}

/// The entry of row `i`, column `j` of the product `L * L^H`, summed over
/// the first `m` columns of `L`.
pub open spec fn cholesky_product<T: ComplexField>(b: Seq<Seq<T>>, i: int, j: int, m: nat) -> T
    decreases m,
{
    if m == 0 {
        T::spec_zero()
    } else {
        cholesky_product(b, i, j, (m - 1) as nat).spec_plus(
            lower_entry(b, i, m - 1).spec_times(lower_entry(b, j, m - 1).spec_conj()),
        )
    }
}

/// What holds of the packed matrix `b` once the first `s` columns of the
/// matrix `a` of dimension `n` are factored: the rest of `b` is that of
/// `a`, the diagonal of the factored columns is real and not zero, and
/// every entry of `a` on or below the diagonal in these columns is the
/// product of its row of `L` with the conjugate of the row of the diagonal
/// entry.
pub open spec fn factored<T: ComplexField>(a: Seq<Seq<T>>, b: Seq<Seq<T>>, n: nat, s: nat) -> bool {
    &&& b.len() == n
    &&& forall|r: int| 0 <= r < n ==> (#[trigger] b[r]).len() == a[r].len()
    &&& forall|r: int, c: int|
        0 <= r < n && 0 <= c < a[r].len() && (c >= s || r < c) ==> #[trigger] b[r][c] == a[r][c]
    &&& forall|j: int|
        0 <= j < s ==> !(#[trigger] b[j])[j].spec_is_zero() && b[j][j].spec_conj() == b[j][j]
    &&& forall|i: int, j: int|
        0 <= j < s && j <= i < n ==> #[trigger] a[i][j] == b[i][j].spec_times(b[j][j]).spec_plus(
            row_product(b, i, j, j as nat),
        )
}

proof fn lemma_reduced_plus_product<T: ComplexField>(b: Seq<Seq<T>>, i: int, j: int, k: nat)
    requires
        field_laws::<T>(),
    ensures
        reduced_entry(b, i, j, k).spec_plus(row_product(b, i, j, k)) == b[i][j],
    decreases k,
{
    if k > 0 {
        lemma_reduced_plus_product(b, i, j, (k - 1) as nat);
        let x = reduced_entry(b, i, j, (k - 1) as nat);
        let s = row_product(b, i, j, (k - 1) as nat);
        let t = b[i][k - 1].spec_times(b[j][k - 1].spec_conj());
        let xt = x.spec_minus(t);
        lemma_plus_commutes(s, t);
        lemma_plus_associates(xt, t, s);
        lemma_minus_cancels(x, t);
    } else {
        lemma_plus_zero(b[i][j]);
    }
}

proof fn lemma_row_product_frame<T: ComplexField>(
    b: Seq<Seq<T>>,
    c: Seq<Seq<T>>,
    i: int,
    j: int,
    m: nat,
)
    requires
        forall|k: int| 0 <= k < m ==> b[i][k] == c[i][k] && b[j][k] == c[j][k],
    ensures
        row_product(b, i, j, m) == row_product(c, i, j, m),
    decreases m,
{
    if m > 0 {
        lemma_row_product_frame(b, c, i, j, (m - 1) as nat);
    }
}

/// In a field with real roots, the packed matrix keeps `factored` as the
/// columns are factored.
pub proof fn lemma_cholesky_factored<T: ComplexField>(a: Seq<Seq<T>>, n: nat, s: nat)
    requires
        a.len() == n,
        forall|r: int| 0 <= r < n ==> (#[trigger] a[r]).len() == n,
        s <= n,
        field_laws::<T>(),
        real_roots::<T>(),
        factor_columns(a, s).is_some(),
    ensures
        factored(a, factor_columns(a, s).unwrap(), n, s),
    decreases s,
{
    if s > 0 {
        let j0 = s - 1;
        let prev = factor_columns(a, j0 as nat);
        assert(prev.is_some());
        lemma_cholesky_factored(a, n, j0 as nat);
        let b = prev.unwrap();
        let c = factor_columns(a, s).unwrap();
        assert(pivot_admissible(b, j0));
        assert(c == factor_column(b, j0));
        let piv = pivot(b, j0);
        let root = piv.spec_try_sqrt().unwrap();
        assert(root.spec_conj() == root && root.spec_times(root) == piv);
        assert(!root.spec_is_zero()) by {
            if root.spec_is_zero() {
                lemma_zero_test(root);
                lemma_times_zero(root);
                lemma_zero_test(piv);
            }
        }
        assert forall|r: int| 0 <= r < n implies (#[trigger] c[r]).len() == a[r].len() by {
            assert(b[r].len() == a[r].len());
        }
        assert forall|r: int, k: int|
            0 <= r < n && 0 <= k < a[r].len() && (k >= s || r < k) implies #[trigger] c[r][k]
            == a[r][k] by {
            assert(b[r][k] == a[r][k]);
        }
        assert forall|j: int| 0 <= j < s implies !(#[trigger] c[j])[j].spec_is_zero()
            && c[j][j].spec_conj() == c[j][j] by {
            if j < j0 {
                assert(!b[j][j].spec_is_zero());
                assert(c[j][j] == b[j][j]);
            }
        }
        assert forall|i: int, j: int| 0 <= j < s && j <= i < n implies #[trigger] a[i][j]
            == c[i][j].spec_times(c[j][j]).spec_plus(row_product(c, i, j, j as nat)) by {
            assert forall|k: int| 0 <= k < j implies c[i][k] == b[i][k] && c[j][k] == b[j][k] by {}
            lemma_row_product_frame(c, b, i, j, j as nat);
            if j < j0 {
                assert(a[i][j] == b[i][j].spec_times(b[j][j]).spec_plus(
                    row_product(b, i, j, j as nat),
                ));
                assert(c[i][j] == b[i][j]);
                assert(c[j][j] == b[j][j]);
            } else {
                let red = reduced_entry(b, i, j0, j0 as nat);
                lemma_reduced_plus_product(b, i, j0, j0 as nat);
                assert(b[i][j0] == a[i][j0]);
                lemma_plus_commutes(red, row_product(b, i, j0, j0 as nat));
                if i == j0 {
                    assert(c[j0][j0] == root);
                    assert(red == piv);
                } else {
                    assert(c[i][j0] == red.spec_over(root));
                    lemma_over_cancels(red, root);
                }
            }
        }
    }
}

proof fn lemma_cholesky_product_start<T: ComplexField>(b: Seq<Seq<T>>, i: int, j: int, m: nat)
    requires
        m <= j + 1,
        j <= i,
    ensures
        cholesky_product(b, i, j, m) == row_product(b, i, j, m),
    decreases m,
{
    if m > 0 {
        lemma_cholesky_product_start(b, i, j, (m - 1) as nat);
    }
}

proof fn lemma_cholesky_product_rest<T: ComplexField>(b: Seq<Seq<T>>, i: int, j: int, m: nat)
    requires
        field_laws::<T>(),
        real_roots::<T>(),
        0 <= j < m,
        j <= i,
    ensures
        cholesky_product(b, i, j, m) == row_product(b, i, j, (j + 1) as nat),
    decreases m,
{
    if m == j + 1 {
        lemma_cholesky_product_start(b, i, j, m);
    } else {
        lemma_cholesky_product_rest(b, i, j, (m - 1) as nat);
        let z = T::spec_zero();
        let x = lower_entry(b, i, m - 1);
        assert(lower_entry(b, j, m - 1) == z);
        assert(z.spec_conj() == z);
        lemma_times_zero(x);
        lemma_plus_zero(row_product(b, i, j, (j + 1) as nat));
    }
}

/// The factor that `packed` holds multiplies back to `a` on and below the
/// diagonal: every such entry of `a` is the product of its row of `L` with
/// the conjugate of the row of `L` of its column.
pub open spec fn multiplies_back<T: ComplexField>(a: Seq<Seq<T>>, packed: Seq<Seq<T>>, n: nat) -> bool {
    forall|i: int, j: int|
        0 <= j <= i < n ==> #[trigger] a[i][j] == cholesky_product(packed, i, j, n)
}

/// In a field with real roots, the factor multiplies back to the matrix on
/// and below its diagonal: `L * L^H = A`.
pub proof fn lemma_cholesky_reconstructs<T: ComplexField>(a: Seq<Seq<T>>, n: nat)
    requires
        a.len() == n,
        forall|r: int| 0 <= r < n ==> (#[trigger] a[r]).len() == n,
        field_laws::<T>(),
        real_roots::<T>(),
        factor_columns(a, n).is_some(),
    ensures
        multiplies_back(a, factor_columns(a, n).unwrap(), n),
{
    lemma_cholesky_factored(a, n, n);
    let b = factor_columns(a, n).unwrap();
    assert forall|i: int, j: int| 0 <= j <= i < n implies #[trigger] a[i][j] == cholesky_product(
        b,
        i,
        j,
        n,
    ) by {
        lemma_cholesky_product_rest(b, i, j, n);
        let s = row_product(b, i, j, j as nat);
        let t = b[i][j].spec_times(b[j][j]);
        assert(b[j][j].spec_conj() == b[j][j]);
        assert(a[i][j] == t.spec_plus(s));
        lemma_plus_commutes(t, s);
    }
}

/// The Cholesky decomposition of a matrix: a lower-triangular `L` with
/// `L * L^H` equal to the matrix.
pub struct Cholesky<T> {
    chol: Matrix<T>,
}

impl<T> Cholesky<T> {
    #[verifier::type_invariant]
    spec fn inv(self) -> bool {
        self.chol.is_square()
    }
}

impl<T: ComplexField> Cholesky<T> {
    /// The factor on and below the diagonal; above it, what the input held.
    pub closed spec fn packed(&self) -> Seq<Seq<T>> {
        self.chol@
    }

    /// The dimension of the factor.
    pub closed spec fn dim(&self) -> nat {
        self.chol.rows()
    }

    /// Factors `matrix`, of which only the part on and below the diagonal is
    /// read. There is no result if a pivot is zero or has no square root,
    /// as happens when the matrix is not positive-definite.
    pub fn new(matrix: Matrix<T>) -> (r: Option<Self>)
        requires
            matrix.is_square(),
        ensures
            r.is_some() == factor_columns(matrix@, matrix.rows()).is_some(),
            r.is_some() ==> r.unwrap().packed() == factor_columns(matrix@, matrix.rows()).unwrap()
                && r.unwrap().dim() == matrix.rows(),
            r.is_some() && field_laws::<T>() && real_roots::<T>() ==> multiplies_back(
                matrix@,
                r.unwrap().packed(),
                matrix.rows(),
            ),
    {
        let ghost orig = matrix@;
        let mut m = matrix;
        let n = m.nrows();
        let mut j: usize = 0;
        while j < n
            invariant
                j <= n,
                n == matrix.rows(),
                orig == matrix@,
                m.rows() == n,
                m.cols() == n,
                factor_columns(orig, j as nat) == Some(m@),
            decreases n - j,
        {
            let ghost before = m;
            let mut i: usize = j;
            while i < n
                invariant
                    j <= i <= n,
                    j < n,
                    m.rows() == n,
                    m.cols() == n,
                    before.rows() == n,
                    before.cols() == n,
                    forall|r: int, c: int|
                        before.has(r, c) ==> #[trigger] m.at(r, c) == (if c == j && j <= r < i {
                            reduced_entry(before@, r, j as int, j as nat)
                        } else {
                            before.at(r, c)
                        }),
                decreases n - i,
            {
                let mut acc = m.get(i, j);
                let mut k: usize = 0;
                assert(before@[i as int][j as int] == before.at(i as int, j as int));
                while k < j
                    invariant
                        k <= j,
                        j <= i < n,
                        m.rows() == n,
                        m.cols() == n,
                        before.rows() == n,
                        before.cols() == n,
                        acc == reduced_entry(before@, i as int, j as int, k as nat),
                        forall|c: int|
                            0 <= c < j ==> #[trigger] m.at(i as int, c) == before.at(i as int, c),
                        forall|c: int|
                            0 <= c < j ==> #[trigger] m.at(j as int, c) == before.at(j as int, c),
                    decreases j - k,
                {
                    assert(before@[i as int][k as int] == before.at(i as int, k as int));
                    assert(before@[j as int][k as int] == before.at(j as int, k as int));
                    acc = acc.minus(m.get(i, k).times(m.get(j, k).conj()));
                    k += 1;
                }
                m.set(i, j, acc);
                i += 1;
            }
            let diag = m.get(j, j);
            assert(diag == pivot(before@, j as int));
            if diag.is_zero() {
                proof {
                    lemma_failure_persists(orig, (j + 1) as nat, n as nat);
                }
                return None;
            }
            match diag.try_sqrt() {
                None => {
                    proof {
                        lemma_failure_persists(orig, (j + 1) as nat, n as nat);
                    }
                    return None;
                },
                Some(root) => {
                    m.set(j, j, root);
                    let mut i: usize = j + 1;
                    while i < n
                        invariant
                            j < i <= n,
                            m.rows() == n,
                            m.cols() == n,
                            before.rows() == n,
                            before.cols() == n,
                            root == pivot(before@, j as int).spec_try_sqrt().unwrap(),
                            forall|r: int, c: int|
                                before.has(r, c) ==> #[trigger] m.at(r, c) == (if c != j || r < j {
                                    before.at(r, c)
                                } else if r == j {
                                    root
                                } else if r < i {
                                    reduced_entry(before@, r, j as int, j as nat).spec_over(root)
                                } else {
                                    reduced_entry(before@, r, j as int, j as nat)
                                }),
                        decreases n - i,
                    {
                        let v = m.get(i, j).over(root);
                        m.set(i, j, v);
                        i += 1;
                    }
                    proof {
                        let goal = factor_column(before@, j as int);
                        assert forall|r: int| 0 <= r < n implies #[trigger] m@[r] =~= goal[r] by {
                            assert forall|c: int| 0 <= c < n implies m@[r][c] == goal[r][c] by {
                                assert(m@[r][c] == m.at(r, c));
                                assert(before@[r][c] == before.at(r, c));
                            }
                        }
                        assert(m@ =~= goal);
                    }
                },
            }
            j += 1;
        }
        proof {
            if field_laws::<T>() && real_roots::<T>() {
                lemma_cholesky_reconstructs(orig, n as nat);
            }
        }
        Some(Cholesky { chol: m })
    }

    /// The lower-triangular factor, with zeros above the diagonal.
    pub fn l(&self) -> (l: Matrix<T>)
        ensures
            l.rows() == self.dim(),
            l.cols() == self.dim(),
            forall|i: int, j: int|
                l.has(i, j) ==> #[trigger] l.at(i, j) == lower_entry(self.packed(), i, j),
    {
        proof {
            use_type_invariant(self);
        }
        self.chol.lower_triangle()
    }

    /// The factor as it is stored: above the diagonal it holds what the
    /// input held there.
    pub fn l_dirty(&self) -> (m: &Matrix<T>)
        ensures
            m@ == self.packed(),
            m.rows() == self.dim(),
    {
        &self.chol
    }
}

} // verus!
