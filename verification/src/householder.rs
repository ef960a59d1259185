//! Householder reflections: the elementary step of the orthogonal
//! reductions.

use crate::matrix::{identity, Matrix};
use crate::scalar::{signum, spec_signum, spec_two, two, ComplexField, RealField};
use vstd::prelude::*;

verus! {

/// The sum of `conj(a[i]) * b[i]` over the first `n` indices.
pub open spec fn dotc<T: ComplexField>(a: Seq<T>, b: Seq<T>, n: nat) -> T
    decreases n,
{
    if n == 0 {
        T::spec_zero()
    } else {
        dotc(a, b, (n - 1) as nat).spec_plus(a[n - 1].spec_conj().spec_times(b[n - 1]))
    }
}

/// The sum of `a[i] * b[i]` over the first `n` indices.
pub open spec fn dot<T: ComplexField>(a: Seq<T>, b: Seq<T>, n: nat) -> T
    decreases n,
{
    if n == 0 {
        T::spec_zero()
    } else {
        dot(a, b, (n - 1) as nat).spec_plus(a[n - 1].spec_times(b[n - 1]))
    }
}

/// The sum of the squared absolute values of the first `n` entries.
pub open spec fn norm_squared<T: ComplexField>(a: Seq<T>, n: nat) -> T::Real
    decreases n,
{
    if n == 0 {
        T::Real::spec_zero()
    } else {
        norm_squared(a, (n - 1) as nat).spec_plus(
            a[n - 1].spec_modulus().spec_times(a[n - 1].spec_modulus()),
        )
    }
}

/// The entries of column `col` from row `from` down.
pub open spec fn sub_column<T>(a: Seq<Seq<T>>, col: int, from: int) -> Seq<T> {
    Seq::new((a.len() - from) as nat, |i: int| a[from + i][col])
}

/// The entries of row `row` from column `from` on.
pub open spec fn sub_row<T>(a: Seq<Seq<T>>, row: int, from: int) -> Seq<T> {
    Seq::new((a[row].len() - from) as nat, |j: int| a[row][from + j])
}

/// `a` with `v` written into column `col` from row `from` down.
pub open spec fn with_column<T>(a: Seq<Seq<T>>, col: int, from: int, v: Seq<T>) -> Seq<Seq<T>> {
    Seq::new(
        a.len(),
        |i: int|
            Seq::new(
                a[i].len(),
                |j: int|
                    if j == col && i >= from {
                        v[i - from]
                    } else {
                        a[i][j]
                    },
            ),
    )
}

/// `a` with `v` written into row `row` from column `from` on.
pub open spec fn with_row<T>(a: Seq<Seq<T>>, row: int, from: int, v: Seq<T>) -> Seq<Seq<T>> {
    Seq::new(
        a.len(),
        |i: int|
            Seq::new(
                a[i].len(),
                |j: int|
                    if i == row && j >= from {
                        v[j - from]
                    } else {
                        a[i][j]
                    },
            ),
    )
}

/// The entrywise conjugate.
pub open spec fn conjugated<T: ComplexField>(v: Seq<T>) -> Seq<T> {
    Seq::new(v.len(), |i: int| v[i].spec_conj())
}

/// The axis of the reflection that maps `column` onto the first axis, the
/// signed length that the image has there, and whether there is anything to
/// reflect. The axis has unit length where there is; else it is `column`
/// with its first entry moved by the signed norm.
pub open spec fn reflection_axis<T: ComplexField>(column: Seq<T>) -> (Seq<T>, T, bool) {
    let sq_norm = norm_squared(column, column.len());
    let norm = sq_norm.spec_sqrt();
    let modulus = column[0].spec_modulus();
    let signed_norm = spec_signum(column[0]).spec_scale(norm);
    let factor = sq_norm.spec_plus(modulus.spec_times(norm)).spec_times(spec_two::<T::Real>());
    let moved = column.update(0, column[0].spec_plus(signed_norm));
    if !factor.spec_is_zero() {
        (
            Seq::new(column.len(), |i: int| moved[i].spec_unscale(factor.spec_sqrt())),
            signed_norm.spec_neg(),
            true,
        )
    } else {
        (moved, signed_norm, false)
    }
}

/// A copy of column `col` from row `from` down.
pub fn column_from<T: Copy>(m: &Matrix<T>, col: usize, from: usize) -> (v: Vec<T>)
    requires
        col < m.cols(),
        from <= m.rows(),
    ensures
        v@ == sub_column(m@, col as int, from as int),
        v@.len() == m.rows() - from,
{
    let n = m.nrows();
    let mut v: Vec<T> = Vec::new();
    let mut i: usize = from;
    while i < n
        invariant
            from <= i <= n,
            n == m.rows(),
            col < m.cols(),
            v@.len() == i - from,
            forall|k: int| 0 <= k < i - from ==> #[trigger] v@[k] == m.at(from + k, col as int),
        decreases n - i,
    {
        v.push(m.get(i, col));
        i += 1;
    }
    assert(v@ =~= sub_column(m@, col as int, from as int));
    v
}

/// A copy of row `row` from column `from` on.
pub fn row_from<T: Copy>(m: &Matrix<T>, row: usize, from: usize) -> (v: Vec<T>)
    requires
        row < m.rows(),
        from <= m.cols(),
    ensures
        v@ == sub_row(m@, row as int, from as int),
        v@.len() == m.cols() - from,
{
    let n = m.ncols();
    let mut v: Vec<T> = Vec::new();
    let mut j: usize = from;
    while j < n
        invariant
            from <= j <= n,
            n == m.cols(),
            row < m.rows(),
            v@.len() == j - from,
            forall|k: int| 0 <= k < j - from ==> #[trigger] v@[k] == m.at(row as int, from + k),
        decreases n - j,
    {
        v.push(m.get(row, j));
        j += 1;
    }
    assert(v@ =~= sub_row(m@, row as int, from as int));
    v
}

/// Writes `v` into column `col` from row `from` down.
pub fn write_column<T: Copy>(m: &mut Matrix<T>, col: usize, from: usize, v: &Vec<T>)
    requires
        col < old(m).cols(),
        from + v@.len() == old(m).rows(),
    ensures
        final(m).rows() == old(m).rows(),
        final(m).cols() == old(m).cols(),
        final(m)@ == with_column(old(m)@, col as int, from as int, v@),
{
    let ghost before = *m;
    let n = v.len();
    let nrows = m.nrows();
    let mut i: usize = 0;
    while i < n
        invariant
            i <= n,
            n == v@.len(),
            col < before.cols(),
            nrows == before.rows(),
            from + n == before.rows(),
            m.rows() == before.rows(),
            m.cols() == before.cols(),
            forall|r: int, c: int|
                before.has(r, c) ==> #[trigger] m.at(r, c) == (if c == col && from <= r < from + i {
                    v@[r - from]
                } else {
                    before.at(r, c)
                }),
        decreases n - i,
    {
        m.set(from + i, col, v[i]);
        i += 1;
    }
    proof {
        let goal = with_column(before@, col as int, from as int, v@);
        assert forall|r: int| 0 <= r < m.rows() implies #[trigger] m@[r] =~= goal[r] by {
            assert forall|c: int| 0 <= c < m.cols() implies m@[r][c] == goal[r][c] by {
                assert(m@[r][c] == m.at(r, c));
                assert(before@[r][c] == before.at(r, c));
            }
        }
        assert(m@ =~= goal);
    }
}

/// Writes `v` into row `row` from column `from` on.
pub fn write_row<T: Copy>(m: &mut Matrix<T>, row: usize, from: usize, v: &Vec<T>)
    requires
        row < old(m).rows(),
        from + v@.len() == old(m).cols(),
    ensures
        final(m).rows() == old(m).rows(),
        final(m).cols() == old(m).cols(),
        final(m)@ == with_row(old(m)@, row as int, from as int, v@),
{
    let ghost before = *m;
    let n = v.len();
    let ncols = m.ncols();
    let mut j: usize = 0;
    while j < n
        invariant
            j <= n,
            n == v@.len(),
            row < before.rows(),
            ncols == before.cols(),
            from + n == before.cols(),
            m.rows() == before.rows(),
            m.cols() == before.cols(),
            forall|r: int, c: int|
                before.has(r, c) ==> #[trigger] m.at(r, c) == (if r == row && from <= c < from + j {
                    v@[c - from]
                } else {
                    before.at(r, c)
                }),
        decreases n - j,
    {
        m.set(row, from + j, v[j]);
        j += 1;
    }
    proof {
        let goal = with_row(before@, row as int, from as int, v@);
        assert forall|r: int| 0 <= r < m.rows() implies #[trigger] m@[r] =~= goal[r] by {
            assert forall|c: int| 0 <= c < m.cols() implies m@[r][c] == goal[r][c] by {
                assert(m@[r][c] == m.at(r, c));
                assert(before@[r][c] == before.at(r, c));
            }
        }
        assert(m@ =~= goal);
    }
}

/// Conjugates every entry of `v`.
pub fn conjugate_mut<T: ComplexField>(v: &mut Vec<T>)
    ensures
        final(v)@ == conjugated(old(v)@),
{
    let ghost before = v@;
    let n = v.len();
    let mut i: usize = 0;
    while i < n
        invariant
            i <= n,
            n == before.len(),
            v@.len() == n,
            forall|k: int|
                0 <= k < n ==> #[trigger] v@[k] == (if k < i {
                    before[k].spec_conj()
                } else {
                    before[k]
                }),
        decreases n - i,
    {
        let x = v[i].conj();
        v.set(i, x);
        i += 1;
    }
    assert(v@ =~= conjugated(before));
}

/// Turns `column` into the axis of the reflection that maps it onto the
/// first axis. Returns the signed length of the image and whether there is
/// anything to reflect.
pub fn reflection_axis_mut<T: ComplexField>(column: &mut Vec<T>) -> (r: (T, bool))
    requires
        old(column)@.len() >= 1,
    ensures
        (final(column)@, r.0, r.1) == reflection_axis(old(column)@),
        final(column)@.len() == old(column)@.len(),
{
    let ghost before = column@;
    let n = column.len();
    let mut sq_norm = T::Real::zero();
    let mut i: usize = 0;
    while i < n
        invariant
            i <= n,
            n == column@.len(),
            column@ == before,
            sq_norm == norm_squared(before, i as nat),
        decreases n - i,
    {
        let m = column[i].modulus();
        sq_norm = sq_norm.plus(m.times(m));
        i += 1;
    }
    let norm = sq_norm.sqrt();
    let modulus = column[0].modulus();
    let signed_norm = signum(column[0]).scale(norm);
    let factor = sq_norm.plus(modulus.times(norm)).times(two::<T::Real>());
    let first = column[0].plus(signed_norm);
    column.set(0, first);
    let ghost moved = column@;
    if !factor.is_zero() {
        let root = factor.sqrt();
        let mut i: usize = 0;
        while i < n
            invariant
                i <= n,
                n == moved.len(),
                column@.len() == n,
                forall|k: int|
                    0 <= k < n ==> #[trigger] column@[k] == (if k < i {
                        moved[k].spec_unscale(root)
                    } else {
                        moved[k]
                    }),
            decreases n - i,
        {
            let x = column[i].unscale(root);
            column.set(i, x);
            i += 1;
        }
        assert(column@ =~= Seq::new(n as nat, |k: int| moved[k].spec_unscale(root)));
        (signed_norm.neg(), true)
    } else {
        (signed_norm, false)
    }
}

/// The `len` entries of column `col` from row `from` down.
pub open spec fn block_column<T>(a: Seq<Seq<T>>, col: int, from: int, len: nat) -> Seq<T> {
    Seq::new(len, |i: int| a[from + i][col])
}

/// The `len` entries of row `row` from column `from` on.
pub open spec fn block_row<T>(a: Seq<Seq<T>>, row: int, from: int, len: nat) -> Seq<T> {
    Seq::new(len, |j: int| a[row][from + j])
}

/// `a` with the reflection of axis `axis`, scaled by `sign`, applied to the
/// columns `from_col..to_col`, in the rows that the axis spans from
/// `from_row` down.
pub open spec fn reflected_columns<T: ComplexField>(
    a: Seq<Seq<T>>,
    axis: Seq<T>,
    sign: T,
    from_row: int,
    from_col: int,
    to_col: int,
) -> Seq<Seq<T>> {
    Seq::new(
        a.len(),
        |r: int|
            Seq::new(
                a[r].len(),
                |c: int|
                    if from_row <= r < from_row + axis.len() && from_col <= c < to_col {
                        dotc(axis, block_column(a, c, from_row, axis.len()), axis.len()).spec_times(
                            sign.spec_scale(spec_two::<T::Real>().spec_neg()),
                        ).spec_times(axis[r - from_row]).spec_plus(sign.spec_times(a[r][c]))
                    } else {
                        a[r][c]
                    },
            ),
    )
}

/// `a` with the reflection of axis `axis`, scaled by `sign`, applied to the
/// rows `from_row..to_row`, in the columns that the axis spans from
/// `from_col` on.
pub open spec fn reflected_rows<T: ComplexField>(
    a: Seq<Seq<T>>,
    axis: Seq<T>,
    sign: T,
    from_row: int,
    to_row: int,
    from_col: int,
) -> Seq<Seq<T>> {
    Seq::new(
        a.len(),
        |r: int|
            Seq::new(
                a[r].len(),
                |c: int|
                    if from_row <= r < to_row && from_col <= c < from_col + axis.len() {
                        sign.spec_scale(spec_two::<T::Real>().spec_neg()).spec_times(
                            axis[c - from_col].spec_conj(),
                        ).spec_times(
                            dot(block_row(a, r, from_col, axis.len()), axis, axis.len()),
                        ).spec_plus(sign.spec_times(a[r][c]))
                    } else {
                        a[r][c]
                    },
            ),
    )
}

/// Applies the reflection of axis `axis`, scaled by `sign`, to the columns
/// `from_col..to_col`, in the rows that the axis spans from `from_row`
/// down.
pub fn reflect_columns<T: ComplexField>(
    m: &mut Matrix<T>,
    axis: &Vec<T>,
    sign: T,
    from_row: usize,
    from_col: usize,
    to_col: usize,
)
    requires
        from_row + axis@.len() <= old(m).rows(),
        from_col <= to_col <= old(m).cols(),
    ensures
        final(m).rows() == old(m).rows(),
        final(m).cols() == old(m).cols(),
        final(m)@ == reflected_columns(
            old(m)@,
            axis@,
            sign,
            from_row as int,
            from_col as int,
            to_col as int,
        ),
{
    let ghost before = *m;
    let nrows = m.nrows();
    let len = axis.len();
    let m_two = sign.scale(two::<T::Real>().neg());
    let mut c: usize = from_col;
    while c < to_col
        invariant
            from_col <= c <= to_col,
            to_col <= before.cols(),
            len == axis@.len(),
            nrows == before.rows(),
            from_row + len <= nrows,
            m.rows() == before.rows(),
            m.cols() == before.cols(),
            m_two == sign.spec_scale(spec_two::<T::Real>().spec_neg()),
            forall|r: int, k: int|
                before.has(r, k) ==> #[trigger] m.at(r, k) == (if from_row <= r < from_row + len
                    && from_col <= k < c {
                    dotc(axis@, block_column(before@, k, from_row as int, len as nat), len as nat)
                        .spec_times(m_two).spec_times(axis@[r - from_row]).spec_plus(
                        sign.spec_times(before.at(r, k)),
                    )
                } else {
                    before.at(r, k)
                }),
        decreases to_col - c,
    {
        let ghost col = block_column(before@, c as int, from_row as int, len as nat);
        let mut acc = T::zero();
        let mut i: usize = 0;
        while i < len
            invariant
                i <= len,
                from_col <= c < to_col,
                to_col <= before.cols(),
                len == axis@.len(),
                nrows == before.rows(),
                from_row + len <= nrows,
                m.rows() == before.rows(),
                m.cols() == before.cols(),
                col == block_column(before@, c as int, from_row as int, len as nat),
                forall|r: int|
                    0 <= r < before.rows() ==> #[trigger] m.at(r, c as int) == before.at(
                        r,
                        c as int,
                    ),
                acc == dotc(axis@, col, i as nat),
            decreases len - i,
        {
            assert(col[i as int] == before@[from_row + i][c as int]);
            assert(before@[from_row + i][c as int] == before.at(from_row + i, c as int));
            acc = acc.plus(axis[i].conj().times(m.get(from_row + i, c)));
            i += 1;
        }
        let factor = acc.times(m_two);
        let mut i: usize = 0;
        while i < len
            invariant
                i <= len,
                from_col <= c < to_col,
                to_col <= before.cols(),
                len == axis@.len(),
                nrows == before.rows(),
                from_row + len <= nrows,
                m.rows() == before.rows(),
                m.cols() == before.cols(),
                factor == dotc(
                    axis@,
                    block_column(before@, c as int, from_row as int, len as nat),
                    len as nat,
                ).spec_times(m_two),
                forall|r: int, k: int|
                    before.has(r, k) ==> #[trigger] m.at(r, k) == (if from_row <= r < from_row
                        + len && (from_col <= k < c || (k == c && r < from_row + i)) {
                        dotc(
                            axis@,
                            block_column(before@, k, from_row as int, len as nat),
                            len as nat,
                        ).spec_times(m_two).spec_times(axis@[r - from_row]).spec_plus(
                            sign.spec_times(before.at(r, k)),
                        )
                    } else {
                        before.at(r, k)
                    }),
            decreases len - i,
        {
            let v = factor.times(axis[i]).plus(sign.times(m.get(from_row + i, c)));
            m.set(from_row + i, c, v);
            i += 1;
        }
        c += 1;
    }
    proof {
        let goal = reflected_columns(
            before@,
            axis@,
            sign,
            from_row as int,
            from_col as int,
            to_col as int,
        );
        assert forall|r: int| 0 <= r < m.rows() implies #[trigger] m@[r] =~= goal[r] by {
            assert forall|k: int| 0 <= k < m.cols() implies m@[r][k] == goal[r][k] by {
                assert(m@[r][k] == m.at(r, k));
                assert(before@[r][k] == before.at(r, k));
            }
        }
        assert(m@ =~= goal);
    }
}

/// Applies the reflection of axis `axis`, scaled by `sign`, to the rows
/// `from_row..to_row`, in the columns that the axis spans from `from_col`
/// on.
pub fn reflect_rows<T: ComplexField>(
    m: &mut Matrix<T>,
    axis: &Vec<T>,
    sign: T,
    from_row: usize,
    to_row: usize,
    from_col: usize,
)
    requires
        from_col + axis@.len() <= old(m).cols(),
        from_row <= to_row <= old(m).rows(),
    ensures
        final(m).rows() == old(m).rows(),
        final(m).cols() == old(m).cols(),
        final(m)@ == reflected_rows(
            old(m)@,
            axis@,
            sign,
            from_row as int,
            to_row as int,
            from_col as int,
        ),
{
    let ghost before = *m;
    let ncols = m.ncols();
    let len = axis.len();
    let m_two = sign.scale(two::<T::Real>().neg());
    let mut r: usize = from_row;
    while r < to_row
        invariant
            from_row <= r <= to_row,
            to_row <= before.rows(),
            len == axis@.len(),
            ncols == before.cols(),
            from_col + len <= ncols,
            m.rows() == before.rows(),
            m.cols() == before.cols(),
            m_two == sign.spec_scale(spec_two::<T::Real>().spec_neg()),
            forall|i: int, k: int|
                before.has(i, k) ==> #[trigger] m.at(i, k) == (if from_row <= i < r && from_col
                    <= k < from_col + len {
                    m_two.spec_times(axis@[k - from_col].spec_conj()).spec_times(
                        dot(block_row(before@, i, from_col as int, len as nat), axis@, len as nat),
                    ).spec_plus(sign.spec_times(before.at(i, k)))
                } else {
                    before.at(i, k)
                }),
        decreases to_row - r,
    {
        let ghost row = block_row(before@, r as int, from_col as int, len as nat);
        let mut work = T::zero();
        let mut j: usize = 0;
        while j < len
            invariant
                j <= len,
                from_row <= r < to_row,
                to_row <= before.rows(),
                len == axis@.len(),
                ncols == before.cols(),
                from_col + len <= ncols,
                m.rows() == before.rows(),
                m.cols() == before.cols(),
                row == block_row(before@, r as int, from_col as int, len as nat),
                forall|k: int|
                    0 <= k < before.cols() ==> #[trigger] m.at(r as int, k) == before.at(
                        r as int,
                        k,
                    ),
                work == dot(row, axis@, j as nat),
            decreases len - j,
        {
            assert(row[j as int] == before@[r as int][from_col + j]);
            assert(before@[r as int][from_col + j] == before.at(r as int, from_col + j));
            work = work.plus(m.get(r, from_col + j).times(axis[j]));
            j += 1;
        }
        let mut j: usize = 0;
        while j < len
            invariant
                j <= len,
                from_row <= r < to_row,
                to_row <= before.rows(),
                len == axis@.len(),
                ncols == before.cols(),
                from_col + len <= ncols,
                m.rows() == before.rows(),
                m.cols() == before.cols(),
                m_two == sign.spec_scale(spec_two::<T::Real>().spec_neg()),
                work == dot(
                    block_row(before@, r as int, from_col as int, len as nat),
                    axis@,
                    len as nat,
                ),
                forall|i: int, k: int|
                    before.has(i, k) ==> #[trigger] m.at(i, k) == (if from_col <= k < from_col
                        + len && (from_row <= i < r || (i == r && k < from_col + j)) {
                        m_two.spec_times(axis@[k - from_col].spec_conj()).spec_times(
                            dot(
                                block_row(before@, i, from_col as int, len as nat),
                                axis@,
                                len as nat,
                            ),
                        ).spec_plus(sign.spec_times(before.at(i, k)))
                    } else {
                        before.at(i, k)
                    }),
            decreases len - j,
        {
            let v = m_two.times(axis[j].conj()).times(work).plus(
                sign.times(m.get(r, from_col + j)),
            );
            m.set(r, from_col + j, v);
            j += 1;
        }
        r += 1;
    }
    proof {
        let goal = reflected_rows(
            before@,
            axis@,
            sign,
            from_row as int,
            to_row as int,
            from_col as int,
        );
        assert forall|i: int| 0 <= i < m.rows() implies #[trigger] m@[i] =~= goal[i] by {
            assert forall|k: int| 0 <= k < m.cols() implies m@[i][k] == goal[i][k] by {
                assert(m@[i][k] == m.at(i, k));
                assert(before@[i][k] == before.at(i, k));
            }
        }
        assert(m@ =~= goal);
    }
}

/// The outcome of clearing a column: the matrix, in which the column holds
/// the reflection axis from row `icol + shift` down and the columns to its
/// right were reflected, and the signed norm of the cleared part.
pub open spec fn cleared_column<T: ComplexField>(a: Seq<Seq<T>>, icol: int, shift: int) -> (
    Seq<Seq<T>>,
    T,
) {
    let from = icol + shift;
    let (axis, norm, active) = reflection_axis(sub_column(a, icol, from));
    let stored = with_column(a, icol, from, axis);
    if active {
        (
            reflected_columns(
                stored,
                axis,
                spec_signum(norm).spec_conj(),
                from,
                icol + 1,
                a[from].len() as int,
            ),
            norm,
        )
    } else {
        (stored, norm)
    }
}

/// Clears column `icol` below row `icol + shift` by a reflection from the
/// left, applied to the columns to its right as well.
pub fn clear_column<T: ComplexField>(m: &mut Matrix<T>, icol: usize, shift: usize) -> (norm: T)
    requires
        icol < old(m).cols(),
        icol + shift < old(m).rows(),
    ensures
        final(m).rows() == old(m).rows(),
        final(m).cols() == old(m).cols(),
        (final(m)@, norm) == cleared_column(old(m)@, icol as int, shift as int),
{
    let nrows = m.nrows();
    let ncols = m.ncols();
    let from = icol + shift;
    let mut axis = column_from(m, icol, from);
    let (norm, active) = reflection_axis_mut(&mut axis);
    write_column(m, icol, from, &axis);
    if active {
        let sign = signum(norm).conj();
        assert(m@[from as int].len() == ncols);
        reflect_columns(m, &axis, sign, from, icol + 1, ncols);
    }
    norm
}

/// The outcome of clearing a column of a square matrix from both sides: as
/// `cleared_column` with a shift of one, the reflection being applied from
/// the right to the columns after `icol` first.
pub open spec fn cleared_column_bilateral<T: ComplexField>(a: Seq<Seq<T>>, icol: int) -> (
    Seq<Seq<T>>,
    T,
) {
    let from = icol + 1;
    let (axis, norm, active) = reflection_axis(sub_column(a, icol, from));
    let stored = with_column(a, icol, from, axis);
    if active {
        let sign = spec_signum(norm);
        let right = reflected_rows(stored, axis, sign, 0, a.len() as int, from);
        (reflected_columns(right, axis, sign.spec_conj(), from, from, a.len() as int), norm)
    } else {
        (stored, norm)
    }
}

/// Clears column `icol` of a square matrix below the subdiagonal by a
/// reflection applied from both sides.
pub fn clear_column_bilateral<T: ComplexField>(m: &mut Matrix<T>, icol: usize) -> (norm: T)
    requires
        old(m).is_square(),
        icol + 1 < old(m).rows(),
    ensures
        final(m).rows() == old(m).rows(),
        final(m).cols() == old(m).cols(),
        (final(m)@, norm) == cleared_column_bilateral(old(m)@, icol as int),
{
    let nrows = m.nrows();
    let from = icol + 1;
    let mut axis = column_from(m, icol, from);
    let (norm, active) = reflection_axis_mut(&mut axis);
    write_column(m, icol, from, &axis);
    if active {
        let sign = signum(norm);
        assert(m@.len() == nrows);
        reflect_rows(m, &axis, sign, 0, nrows, from);
        reflect_columns(m, &axis, sign.conj(), from, from, nrows);
    }
    norm
}

/// The outcome of clearing a row: the matrix, in which the row holds the
/// conjugate of the reflection axis from column `irow + shift` on and the
/// rows below it were reflected, and the signed norm of the cleared part.
pub open spec fn cleared_row<T: ComplexField>(a: Seq<Seq<T>>, irow: int, shift: int) -> (
    Seq<Seq<T>>,
    T,
) {
    let from = irow + shift;
    let (axis, norm, active) = reflection_axis(sub_row(a, irow, from));
    let packed = conjugated(axis);
    let stored = with_row(a, irow, from, packed);
    if active {
        (
            reflected_rows(
                stored,
                packed,
                spec_signum(norm).spec_conj(),
                irow + 1,
                a.len() as int,
                from,
            ),
            norm,
        )
    } else {
        (stored, norm)
    }
}

/// Clears row `irow` right of column `irow + shift` by a reflection from
/// the right, applied to the rows below it as well.
pub fn clear_row<T: ComplexField>(m: &mut Matrix<T>, irow: usize, shift: usize) -> (norm: T)
    requires
        irow < old(m).rows(),
        irow + shift < old(m).cols(),
    ensures
        final(m).rows() == old(m).rows(),
        final(m).cols() == old(m).cols(),
        (final(m)@, norm) == cleared_row(old(m)@, irow as int, shift as int),
{
    let nrows = m.nrows();
    let ncols = m.ncols();
    let from = irow + shift;
    let mut axis = row_from(m, irow, from);
    let (norm, active) = reflection_axis_mut(&mut axis);
    conjugate_mut(&mut axis);
    write_row(m, irow, from, &axis);
    if active {
        let sign = signum(norm).conj();
        assert(m@.len() == nrows);
        reflect_rows(m, &axis, sign, irow + 1, nrows, from);
    }
    norm
}

/// The orthogonal factor of a two-sided reduction, after the last `t`
/// reflections were applied to the identity: the axis of reflection `i`
/// lies in column `i` of `m` below the diagonal, its sign comes from
/// `signs[i]`.
pub open spec fn assembled_q<T: ComplexField>(m: Seq<Seq<T>>, signs: Seq<T>, t: nat) -> Seq<Seq<T>>
    decreases t,
{
    if t == 0 {
        identity::<T>(m.len())
    } else {
        let i = m.len() - 1 - t;
        reflected_columns(
            assembled_q(m, signs, (t - 1) as nat),
            sub_column(m, i, i + 1),
            spec_signum(signs[i]),
            i + 1,
            i,
            m.len() as int,
        )
    }
}

/// Builds the orthogonal factor of a two-sided reduction from the packed
/// reflection axes.
pub fn assemble_q<T: ComplexField>(m: &Matrix<T>, signs: &Vec<T>) -> (q: Matrix<T>)
    requires
        m.is_square(),
        signs@.len() + 1 == m.rows() || (signs@.len() == 0 && m.rows() == 0),
    ensures
        q.rows() == m.rows(),
        q.cols() == m.rows(),
        q@ == assembled_q(m@, signs@, signs@.len()),
{
    let dim = m.nrows();
    let mut q = Matrix::identity(dim);
    let count = signs.len();
    let mut t: usize = 0;
    while t < count
        invariant
            t <= count,
            count == signs@.len(),
            dim == m.rows(),
            m.is_square(),
            count + 1 == dim || (count == 0 && dim == 0),
            q.rows() == dim,
            q.cols() == dim,
            q@ == assembled_q(m@, signs@, t as nat),
        decreases count - t,
    {
        let i = dim - 2 - t;
        let axis = column_from(m, i, i + 1);
        let sign = signum(signs[i]);
        assert(m@.len() == dim);
        reflect_columns(&mut q, &axis, sign, i + 1, i, dim);
        t += 1;
    }
    q
}

} // verus!
