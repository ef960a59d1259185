//! A dense matrix of runtime dimensions, stored row by row.

use crate::scalar::ComplexField;
use vstd::prelude::*;

verus! {

/// The rows of `a` with `value` in row `i`, column `j`.
pub open spec fn with_entry<T>(a: Seq<Seq<T>>, i: int, j: int, value: T) -> Seq<Seq<T>> {
    a.update(i, a[i].update(j, value))
}

/// The rows of `a` with rows `i` and `j` exchanged.
pub open spec fn swap_rows<T>(a: Seq<Seq<T>>, i: int, j: int) -> Seq<Seq<T>> {
    a.update(i, a[j]).update(j, a[i])
}

/// The rows of `a` with columns `i` and `j` exchanged in every row.
pub open spec fn swap_columns<T>(a: Seq<Seq<T>>, i: int, j: int) -> Seq<Seq<T>> {
    Seq::new(a.len(), |r: int| a[r].update(i, a[r][j]).update(j, a[r][i]))
}

/// The rows of the identity matrix of dimension `n`.
pub open spec fn identity<T: ComplexField>(n: nat) -> Seq<Seq<T>> {
    Seq::new(
        n,
        |i: int|
            Seq::new(
                n,
                |j: int|
                    if i == j {
                        T::spec_one()
                    } else {
                        T::spec_zero()
                    },
            ),
    )
}

/// The rows of the matrix of the given dimensions with ones on its diagonal
/// and zeros elsewhere.
pub open spec fn eye<T: ComplexField>(rows: nat, cols: nat) -> Seq<Seq<T>> {
    Seq::new(
        rows,
        |i: int|
            Seq::new(
                cols,
                |j: int|
                    if i == j {
                        T::spec_one()
                    } else {
                        T::spec_zero()
                    },
            ),
    )
}

/// The entry of row `i`, column `j` of the part of `a` on and below the
/// diagonal.
pub open spec fn lower_entry<T: ComplexField>(a: Seq<Seq<T>>, i: int, j: int) -> T {
    if j <= i {
        a[i][j]
    } else {
        T::spec_zero()
    }
}

/// The entry of row `i`, column `j` of the part of `a` below the diagonal,
/// with ones on the diagonal.
pub open spec fn unit_lower_entry<T: ComplexField>(a: Seq<Seq<T>>, i: int, j: int) -> T {
    if j < i {
        a[i][j]
    } else if j == i {
        T::spec_one()
    } else {
        T::spec_zero()
    }
}

/// The entry of row `i`, column `j` of the part of `a` on and above the
/// diagonal.
pub open spec fn upper_entry<T: ComplexField>(a: Seq<Seq<T>>, i: int, j: int) -> T {
    if i <= j {
        a[i][j]
    } else {
        T::spec_zero()
    }
}

/// `a` has `rows` rows of `cols` entries each.
pub open spec fn has_shape<T>(a: Seq<Seq<T>>, rows: nat, cols: nat) -> bool {
    &&& a.len() == rows
    &&& forall|i: int| 0 <= i < rows ==> (#[trigger] a[i]).len() == cols
}

pub struct Matrix<T> {
    nrows: usize,
    ncols: usize,
    data: Vec<T>,
}

proof fn lemma_cell(i: int, j: int, nrows: int, ncols: int)
    requires
        0 <= i < nrows,
        0 <= j < ncols,
    ensures
        0 <= i * ncols,
        0 <= i * ncols + j < nrows * ncols,
{
    assert(0 <= i * ncols && i * ncols + j < nrows * ncols) by (nonlinear_arith)
        requires
            0 <= i < nrows,
            0 <= j < ncols,
    {
        assert(i * ncols + ncols <= nrows * ncols) by {
            assert((i + 1) * ncols <= nrows * ncols);
            assert((i + 1) * ncols == i * ncols + ncols);
        }
    }
}

proof fn lemma_cell_distinct(i: int, j: int, i2: int, j2: int, ncols: int)
    requires
        0 <= j < ncols,
        0 <= j2 < ncols,
        i != i2 || j != j2,
    ensures
        i * ncols + j != i2 * ncols + j2,
{
    if i < i2 {
        assert(i * ncols + ncols <= i2 * ncols) by (nonlinear_arith)
            requires
                i < i2,
                0 < ncols,
        {
            assert((i + 1) * ncols <= i2 * ncols);
            assert((i + 1) * ncols == i * ncols + ncols);
        }
    } else if i2 < i {
        assert(i2 * ncols + ncols <= i * ncols) by (nonlinear_arith)
            requires
                i2 < i,
                0 < ncols,
        {
            assert((i2 + 1) * ncols <= i * ncols);
            assert((i2 + 1) * ncols == i2 * ncols + ncols);
        }
    }
}

impl<T> Matrix<T> {
    #[verifier::type_invariant]
    spec fn inv(self) -> bool {
        self.data.len() == self.nrows * self.ncols
    }

    /// The number of rows.
    pub closed spec fn rows(&self) -> nat {
        self.nrows as nat
    }

    /// The number of columns.
    pub closed spec fn cols(&self) -> nat {
        self.ncols as nat
    }

    /// The entry of row `i` and column `j`.
    pub closed spec fn at(&self, i: int, j: int) -> T {
        self.data@[i * self.ncols + j]
    }

    /// Whether `i`, `j` is the position of an entry.
    pub open spec fn has(&self, i: int, j: int) -> bool {
        0 <= i < self.rows() && 0 <= j < self.cols()
    }

    /// Whether the matrix has as many rows as columns.
    pub open spec fn is_square(&self) -> bool {
        self.rows() == self.cols()
    }

    /// The smaller of the two dimensions.
    pub open spec fn min_dim(&self) -> nat {
        if self.rows() <= self.cols() {
            self.rows()
        } else {
            self.cols()
        }
    }

}

impl<T> View for Matrix<T> {
    type V = Seq<Seq<T>>;

    /// The rows of the matrix.
    open spec fn view(&self) -> Seq<Seq<T>> {
        Seq::new(self.rows(), |i: int| Seq::new(self.cols(), |j: int| self.at(i, j)))
    }
}

impl<T: Copy> Matrix<T> {
    /// A matrix of the given dimensions with every entry equal to `value`.
    pub fn filled(nrows: usize, ncols: usize, value: T) -> (m: Self)
        requires
            nrows * ncols <= usize::MAX,
        ensures
            m.rows() == nrows,
            m.cols() == ncols,
            forall|i: int, j: int| m.has(i, j) ==> #[trigger] m.at(i, j) == value,
    {
        let len: usize = nrows * ncols;
        let mut data: Vec<T> = Vec::new();
        let mut k: usize = 0;
        while k < len
            invariant
                k <= len,
                data.len() == k,
                forall|x: int| 0 <= x < k ==> data@[x] == value,
            decreases len - k,
        {
            data.push(value);
            k += 1;
        }
        let m = Matrix { nrows, ncols, data };
        proof {
            assert forall|i: int, j: int| m.has(i, j) implies m.at(i, j) == value by {
                lemma_cell(i, j, nrows as int, ncols as int);
            }
        }
        m
    }

    /// The matrix whose rows, one after the other, are `data`.
    pub fn from_row_major(nrows: usize, ncols: usize, data: Vec<T>) -> (m: Self)
        requires
            data.len() == nrows * ncols,
        ensures
            m.rows() == nrows,
            m.cols() == ncols,
            forall|i: int, j: int| m.has(i, j) ==> #[trigger] m.at(i, j) == data@[i * ncols + j],
    {
        Matrix { nrows, ncols, data }
    }

    /// The number of rows. The number of entries fits the machine word.
    pub fn nrows(&self) -> (n: usize)
        ensures
            n == self.rows(),
            self.rows() * self.cols() <= usize::MAX,
    {
        proof {
            use_type_invariant(self);
        }
        self.nrows
    }

    /// The number of columns.
    pub fn ncols(&self) -> (n: usize)
        ensures
            n == self.cols(),
    {
        self.ncols
    }

    /// The entry of row `i` and column `j`.
    pub fn get(&self, i: usize, j: usize) -> (value: T)
        requires
            self.has(i as int, j as int),
        ensures
            value == self.at(i as int, j as int),
    {
        proof {
            use_type_invariant(self);
            lemma_cell(i as int, j as int, self.nrows as int, self.ncols as int);
        }
        self.data[i * self.ncols + j]
    }

    /// Writes `value` into row `i`, column `j`.
    pub fn set(&mut self, i: usize, j: usize, value: T)
        requires
            old(self).has(i as int, j as int),
        ensures
            final(self).rows() == old(self).rows(),
            final(self).cols() == old(self).cols(),
            final(self).at(i as int, j as int) == value,
            forall|i2: int, j2: int|
                old(self).has(i2, j2) && (i2 != i || j2 != j) ==> #[trigger] final(self).at(i2, j2)
                    == old(self).at(i2, j2),
            final(self)@ == with_entry(old(self)@, i as int, j as int, value),
    {
        proof {
            use_type_invariant(&*self);
            lemma_cell(i as int, j as int, self.nrows as int, self.ncols as int);
        }
        let k: usize = i * self.ncols + j;
        self.data[k] = value;
        proof {
            assert forall|i2: int, j2: int|
                old(self).has(i2, j2) && (i2 != i || j2 != j) implies self.at(i2, j2) == old(
                self,
            ).at(i2, j2) by {
                lemma_cell(i2, j2, self.nrows as int, self.ncols as int);
                lemma_cell_distinct(i as int, j as int, i2, j2, self.ncols as int);
            }
            let goal = with_entry(old(self)@, i as int, j as int, value);
            assert forall|r: int| 0 <= r < self.rows() implies #[trigger] self@[r] =~= goal[r] by {
                assert forall|c: int| 0 <= c < self.cols() implies self@[r][c] == goal[r][c] by {
                    assert(self@[r][c] == self.at(r, c));
                    assert(old(self)@[r][c] == old(self).at(r, c));
                }
            }
            assert(self@ =~= goal);
        }
    }
    /// Exchanges rows `i` and `j`.
    pub fn swap_rows(&mut self, i: usize, j: usize)
        requires
            i < old(self).rows(),
            j < old(self).rows(),
        ensures
            final(self).rows() == old(self).rows(),
            final(self).cols() == old(self).cols(),
            final(self)@ == swap_rows(old(self)@, i as int, j as int),
    {
        let ghost before = *self;
        let n = self.ncols;
        let mut c: usize = 0;
        while c < n
            invariant
                c <= n,
                n == before.cols(),
                i < before.rows(),
                j < before.rows(),
                self.rows() == before.rows(),
                self.cols() == before.cols(),
                forall|r: int, k: int|
                    before.has(r, k) ==> #[trigger] self.at(r, k) == (if k >= c {
                        before.at(r, k)
                    } else if r == j {
                        before.at(i as int, k)
                    } else if r == i {
                        before.at(j as int, k)
                    } else {
                        before.at(r, k)
                    }),
            decreases n - c,
        {
            let x = self.get(i, c);
            let y = self.get(j, c);
            self.set(i, c, y);
            self.set(j, c, x);
            c += 1;
        }
        proof {
            let goal = swap_rows(before@, i as int, j as int);
            assert forall|r: int| 0 <= r < self.rows() implies #[trigger] self@[r] =~= goal[r] by {
                assert forall|k: int| 0 <= k < self.cols() implies self@[r][k] == goal[r][k] by {
                    assert(self@[r][k] == self.at(r, k));
                    assert(before@[i as int][k] == before.at(i as int, k));
                    assert(before@[j as int][k] == before.at(j as int, k));
                    assert(before@[r][k] == before.at(r, k));
                }
            }
            assert(self@ =~= goal);
        }
    }

    /// Exchanges columns `i` and `j`.
    pub fn swap_columns(&mut self, i: usize, j: usize)
        requires
            i < old(self).cols(),
            j < old(self).cols(),
        ensures
            final(self).rows() == old(self).rows(),
            final(self).cols() == old(self).cols(),
            final(self)@ == swap_columns(old(self)@, i as int, j as int),
    {
        let ghost before = *self;
        let n = self.nrows;
        let mut r: usize = 0;
        while r < n
            invariant
                r <= n,
                n == before.rows(),
                i < before.cols(),
                j < before.cols(),
                self.rows() == before.rows(),
                self.cols() == before.cols(),
                forall|k: int, c: int|
                    before.has(k, c) ==> #[trigger] self.at(k, c) == (if k >= r {
                        before.at(k, c)
                    } else if c == j {
                        before.at(k, i as int)
                    } else if c == i {
                        before.at(k, j as int)
                    } else {
                        before.at(k, c)
                    }),
            decreases n - r,
        {
            let x = self.get(r, i);
            let y = self.get(r, j);
            self.set(r, i, y);
            self.set(r, j, x);
            r += 1;
        }
        proof {
            let goal = swap_columns(before@, i as int, j as int);
            assert forall|k: int| 0 <= k < self.rows() implies #[trigger] self@[k] =~= goal[k] by {
                assert forall|c: int| 0 <= c < self.cols() implies self@[k][c] == goal[k][c] by {
                    assert(self@[k][c] == self.at(k, c));
                    assert(before@[k][i as int] == before.at(k, i as int));
                    assert(before@[k][j as int] == before.at(k, j as int));
                    assert(before@[k][c] == before.at(k, c));
                }
            }
            assert(self@ =~= goal);
        }
    }

    /// A copy of the matrix.
    pub fn duplicate(&self) -> (m: Self)
        ensures
            m.rows() == self.rows(),
            m.cols() == self.cols(),
            m@ == self@,
    {
        proof {
            use_type_invariant(self);
        }
        let mut data: Vec<T> = Vec::new();
        let len = self.data.len();
        let mut k: usize = 0;
        while k < len
            invariant
                k <= len,
                len == self.data.len(),
                data.len() == k,
                forall|x: int| 0 <= x < k ==> data@[x] == self.data@[x],
            decreases len - k,
        {
            data.push(self.data[k]);
            k += 1;
        }
        let m = Matrix { nrows: self.nrows, ncols: self.ncols, data };
        proof {
            assert forall|i: int, j: int| m.has(i, j) implies m.at(i, j) == self.at(i, j) by {
                lemma_cell(i, j, self.nrows as int, self.ncols as int);
            }
            assert(m@ =~~= self@);
        }
        m
    }
}

impl<T: ComplexField> Matrix<T> {
    /// The matrix of the given dimensions with every entry zero.
    pub fn zeros(nrows: usize, ncols: usize) -> (m: Self)
        requires
            nrows * ncols <= usize::MAX,
        ensures
            m.rows() == nrows,
            m.cols() == ncols,
            forall|i: int, j: int| m.has(i, j) ==> #[trigger] m.at(i, j) == T::spec_zero(),
    {
        Matrix::filled(nrows, ncols, T::zero())
    }

    /// The identity matrix of dimension `n`.
    pub fn identity(n: usize) -> (m: Self)
        requires
            n * n <= usize::MAX,
        ensures
            m.rows() == n,
            m.cols() == n,
            m@ == identity::<T>(n as nat),
    {
        let mut m = Matrix::filled(n, n, T::zero());
        let mut i: usize = 0;
        while i < n
            invariant
                i <= n,
                m.rows() == n,
                m.cols() == n,
                forall|r: int, c: int|
                    m.has(r, c) ==> #[trigger] m.at(r, c) == (if r == c && r < i {
                        T::spec_one()
                    } else {
                        T::spec_zero()
                    }),
            decreases n - i,
        {
            m.set(i, i, T::one());
            i += 1;
        }
        assert(m@ =~~= identity::<T>(n as nat));
        m
    }
    /// The matrix of the given dimensions with ones on its diagonal and zeros
    /// elsewhere.
    pub fn eye(nrows: usize, ncols: usize) -> (m: Self)
        requires
            nrows * ncols <= usize::MAX,
        ensures
            m.rows() == nrows,
            m.cols() == ncols,
            m@ == eye::<T>(nrows as nat, ncols as nat),
    {
        let mut m = Matrix::filled(nrows, ncols, T::zero());
        let mut i: usize = 0;
        while i < nrows && i < ncols
            invariant
                i <= nrows,
                i <= ncols,
                m.rows() == nrows,
                m.cols() == ncols,
                forall|r: int, c: int|
                    m.has(r, c) ==> #[trigger] m.at(r, c) == (if r == c && r < i {
                        T::spec_one()
                    } else {
                        T::spec_zero()
                    }),
            decreases nrows - i,
        {
            m.set(i, i, T::one());
            i += 1;
        }
        assert(m@ =~~= eye::<T>(nrows as nat, ncols as nat));
        m
    }

    /// The part on and below the diagonal, with zeros above it.
    pub fn lower_triangle(&self) -> (l: Self)
        ensures
            l.rows() == self.rows(),
            l.cols() == self.cols(),
            forall|i: int, j: int| l.has(i, j) ==> #[trigger] l.at(i, j) == lower_entry(self@, i, j),
    {
        let nrows = self.nrows();
        let ncols = self.ncols();
        let mut l = Matrix::filled(nrows, ncols, T::zero());
        let mut i: usize = 0;
        while i < nrows
            invariant
                i <= nrows,
                nrows == self.rows(),
                ncols == self.cols(),
                l.rows() == nrows,
                l.cols() == ncols,
                forall|r: int, c: int|
                    l.has(r, c) ==> #[trigger] l.at(r, c) == (if r < i && r >= c {
                        self@[r][c]
                    } else {
                        T::spec_zero()
                    }),
            decreases nrows - i,
        {
            let mut j: usize = 0;
            while j < ncols && j <= i
                invariant
                    i < nrows,
                    j <= ncols,
                    j <= i + 1,
                    nrows == self.rows(),
                    ncols == self.cols(),
                    l.rows() == nrows,
                    l.cols() == ncols,
                    forall|r: int, c: int|
                        l.has(r, c) ==> #[trigger] l.at(r, c) == (if (r < i && r >= c) || (r == i
                            && c < j) {
                            self@[r][c]
                        } else {
                            T::spec_zero()
                        }),
                decreases ncols - j,
            {
                l.set(i, j, self.get(i, j));
                j += 1;
            }
            i += 1;
        }
        l
    }

    /// The part below the diagonal of the first `min_dim` columns, with
    /// ones on the diagonal and zeros above it.
    pub fn unit_lower_triangle(&self) -> (l: Self)
        ensures
            l.rows() == self.rows(),
            l.cols() == self.min_dim(),
            forall|i: int, j: int|
                l.has(i, j) ==> #[trigger] l.at(i, j) == unit_lower_entry(self@, i, j),
    {
        let nrows = self.nrows();
        let ncols = self.ncols();
        let min = if nrows <= ncols {
            nrows
        } else {
            ncols
        };
        assert(nrows * min <= nrows * ncols) by (nonlinear_arith)
            requires
                min <= ncols,
        ;
        let mut l = Matrix::filled(nrows, min, T::zero());
        let mut i: usize = 0;
        while i < nrows
            invariant
                i <= nrows,
                min <= ncols,
                nrows == self.rows(),
                ncols == self.cols(),
                l.rows() == nrows,
                l.cols() == min,
                forall|r: int, c: int|
                    l.has(r, c) ==> #[trigger] l.at(r, c) == (if r >= i {
                        T::spec_zero()
                    } else if r == c {
                        T::spec_one()
                    } else if r > c {
                        self@[r][c]
                    } else {
                        T::spec_zero()
                    }),
            decreases nrows - i,
        {
            let mut j: usize = 0;
            while j < min && j <= i
                invariant
                    i < nrows,
                    j <= min,
                    j <= i + 1,
                    min <= ncols,
                    nrows == self.rows(),
                    ncols == self.cols(),
                    l.rows() == nrows,
                    l.cols() == min,
                    forall|r: int, c: int|
                        l.has(r, c) ==> #[trigger] l.at(r, c) == (if r > i || (r == i && c >= j) {
                            T::spec_zero()
                        } else if r == c {
                            T::spec_one()
                        } else if r > c {
                            self@[r][c]
                        } else {
                            T::spec_zero()
                        }),
                decreases min - j,
            {
                if j == i {
                    l.set(i, j, T::one());
                } else {
                    l.set(i, j, self.get(i, j));
                }
                j += 1;
            }
            i += 1;
        }
        l
    }

    /// The part on and above the diagonal of the first `min_dim` rows, with
    /// zeros below it.
    pub fn upper_triangle(&self) -> (u: Self)
        ensures
            u.rows() == self.min_dim(),
            u.cols() == self.cols(),
            forall|i: int, j: int| u.has(i, j) ==> #[trigger] u.at(i, j) == upper_entry(self@, i, j),
    {
        let nrows = self.nrows();
        let ncols = self.ncols();
        let min = if nrows <= ncols {
            nrows
        } else {
            ncols
        };
        assert(min * ncols <= nrows * ncols) by (nonlinear_arith)
            requires
                min <= nrows,
        ;
        let mut u = Matrix::filled(min, ncols, T::zero());
        let mut i: usize = 0;
        while i < min
            invariant
                i <= min,
                min <= nrows,
                min <= ncols,
                nrows == self.rows(),
                ncols == self.cols(),
                u.rows() == min,
                u.cols() == ncols,
                forall|r: int, c: int|
                    u.has(r, c) ==> #[trigger] u.at(r, c) == (if r < i && r <= c {
                        self@[r][c]
                    } else {
                        T::spec_zero()
                    }),
            decreases min - i,
        {
            let mut j: usize = i;
            while j < ncols
                invariant
                    i < min,
                    i <= j <= ncols,
                    min <= nrows,
                    min <= ncols,
                    nrows == self.rows(),
                    ncols == self.cols(),
                    u.rows() == min,
                    u.cols() == ncols,
                    forall|r: int, c: int|
                        u.has(r, c) ==> #[trigger] u.at(r, c) == (if (r < i && r <= c) || (r == i
                            && i <= c < j) {
                            self@[r][c]
                        } else {
                            T::spec_zero()
                        }),
                decreases ncols - j,
            {
                u.set(i, j, self.get(i, j));
                j += 1;
            }
            i += 1;
        }
        u
    }
}

} // verus!
