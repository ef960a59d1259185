//! Scaling by the largest absolute value, which the iterative algorithms
//! apply before they start and undo when they are done.

use crate::matrix::Matrix;
use crate::scalar::{ComplexField, RealField};
use vstd::prelude::*;

verus! {

/// The larger of `acc` and the absolute values of the first `upto` entries
/// of `row`.
pub open spec fn row_amax<T: ComplexField>(row: Seq<T>, upto: nat, acc: T::Real) -> T::Real
    decreases upto,
{
    if upto == 0 {
        acc
    } else {
        let b = row_amax(row, (upto - 1) as nat, acc);
        let x = row[upto - 1].spec_modulus();
        if b.spec_lt(x) {
            x
        } else {
            b
        }
    }
}

/// The largest absolute value in the first `upto` rows, or zero. With
/// `lower`, only the entries on and below the diagonal count.
pub open spec fn amax<T: ComplexField>(a: Seq<Seq<T>>, lower: bool, upto: nat) -> T::Real
    decreases upto,
{
    if upto == 0 {
        T::Real::spec_zero()
    } else {
        let width = if lower {
            upto
        } else {
            a[upto - 1].len()
        };
        row_amax(a[upto - 1], width, amax(a, lower, (upto - 1) as nat))
    }
}

/// `a` with every entry divided by `divisor`; with `lower`, only the
/// entries on and below the diagonal.
pub open spec fn unscaled<T: ComplexField>(a: Seq<Seq<T>>, lower: bool, divisor: T::Real) -> Seq<
    Seq<T>,
> {
    Seq::new(
        a.len(),
        |i: int|
            Seq::new(
                a[i].len(),
                |j: int|
                    if lower && j > i {
                        a[i][j]
                    } else {
                        a[i][j].spec_unscale(divisor)
                    },
            ),
    )
}

/// `a` with every entry multiplied by `factor`.
pub open spec fn scaled<T: ComplexField>(a: Seq<Seq<T>>, factor: T::Real) -> Seq<Seq<T>> {
    Seq::new(a.len(), |i: int| Seq::new(a[i].len(), |j: int| a[i][j].spec_scale(factor)))
}

/// `v` with every entry multiplied by `factor`.
pub open spec fn scaled_reals<R: RealField>(v: Seq<R>, factor: R) -> Seq<R> {
    Seq::new(v.len(), |i: int| v[i].spec_times(factor))
}

/// The matrix that the iteration works on: `a` divided by its largest
/// absolute value, unless that is zero.
pub open spec fn normalized<T: ComplexField>(a: Seq<Seq<T>>, lower: bool) -> Seq<Seq<T>> {
    let top = amax(a, lower, a.len());
    if top.spec_is_zero() {
        a
    } else {
        unscaled(a, lower, top)
    }
}

/// The largest absolute value of the matrix.
pub fn amax_of<T: ComplexField>(m: &Matrix<T>, lower: bool) -> (r: T::Real)
    requires
        lower ==> m.is_square(),
    ensures
        r == amax(m@, lower, m.rows()),
{
    let nrows = m.nrows();
    let ncols = m.ncols();
    let mut acc = T::Real::zero();
    let mut i: usize = 0;
    while i < nrows
        invariant
            i <= nrows,
            nrows == m.rows(),
            ncols == m.cols(),
            lower ==> m.is_square(),
            acc == amax(m@, lower, i as nat),
        decreases nrows - i,
    {
        let width = if lower {
            i + 1
        } else {
            ncols
        };
        let ghost start = acc;
        let mut j: usize = 0;
        while j < width
            invariant
                j <= width,
                width <= ncols,
                i < nrows,
                nrows == m.rows(),
                ncols == m.cols(),
                acc == row_amax(m@[i as int], j as nat, start),
            decreases width - j,
        {
            let x = m.get(i, j).modulus();
            assert(m@[i as int][j as int] == m.at(i as int, j as int));
            if acc.lt(x) {
                acc = x;
            }
            j += 1;
        }
        assert(m@[i as int].len() == ncols);
        i += 1;
    }
    acc
}

/// Divides the entries by `divisor`; with `lower`, only those on and below
/// the diagonal.
pub fn unscale_mut<T: ComplexField>(m: &mut Matrix<T>, lower: bool, divisor: T::Real)
    ensures
        final(m).rows() == old(m).rows(),
        final(m).cols() == old(m).cols(),
        final(m)@ == unscaled(old(m)@, lower, divisor),
{
    let ghost before = *m;
    let nrows = m.nrows();
    let ncols = m.ncols();
    let mut i: usize = 0;
    while i < nrows
        invariant
            i <= nrows,
            nrows == before.rows(),
            ncols == before.cols(),
            m.rows() == nrows,
            m.cols() == ncols,
            forall|r: int, c: int|
                before.has(r, c) ==> #[trigger] m.at(r, c) == (if r < i && !(lower && c > r) {
                    before.at(r, c).spec_unscale(divisor)
                } else {
                    before.at(r, c)
                }),
        decreases nrows - i,
    {
        let mut j: usize = 0;
        while j < ncols && (!lower || j <= i)
            invariant
                j <= ncols,
                i < nrows,
                nrows == before.rows(),
                ncols == before.cols(),
                m.rows() == nrows,
                m.cols() == ncols,
                forall|r: int, c: int|
                    before.has(r, c) ==> #[trigger] m.at(r, c) == (if (r < i || (r == i && c < j))
                        && !(lower && c > r) {
                        before.at(r, c).spec_unscale(divisor)
                    } else {
                        before.at(r, c)
                    }),
            decreases ncols - j,
        {
            let x = m.get(i, j).unscale(divisor);
            m.set(i, j, x);
            j += 1;
        }
        i += 1;
    }
    proof {
        let goal = unscaled(before@, lower, divisor);
        assert forall|r: int| 0 <= r < m.rows() implies #[trigger] m@[r] =~= goal[r] by {
            assert forall|c: int| 0 <= c < m.cols() implies m@[r][c] == goal[r][c] by {
                assert(m@[r][c] == m.at(r, c));
                assert(before@[r][c] == before.at(r, c));
            }
        }
        assert(m@ =~= goal);
    }
}

/// Divides the matrix by its largest absolute value, unless that is zero,
/// and returns that value.
pub fn normalize<T: ComplexField>(m: &mut Matrix<T>, lower: bool) -> (top: T::Real)
    requires
        lower ==> old(m).is_square(),
    ensures
        final(m).rows() == old(m).rows(),
        final(m).cols() == old(m).cols(),
        top == amax(old(m)@, lower, old(m).rows()),
        final(m)@ == normalized(old(m)@, lower),
{
    let top = amax_of(m, lower);
    assert(m@.len() == m.rows());
    if !top.is_zero() {
        unscale_mut(m, lower, top);
    }
    top
}

/// Multiplies every entry by `factor`.
pub fn scale_mut<T: ComplexField>(m: &mut Matrix<T>, factor: T::Real)
    ensures
        final(m).rows() == old(m).rows(),
        final(m).cols() == old(m).cols(),
        final(m)@ == scaled(old(m)@, factor),
{
    let ghost before = *m;
    let nrows = m.nrows();
    let ncols = m.ncols();
    let mut i: usize = 0;
    while i < nrows
        invariant
            i <= nrows,
            nrows == before.rows(),
            ncols == before.cols(),
            m.rows() == nrows,
            m.cols() == ncols,
            forall|r: int, c: int|
                before.has(r, c) ==> #[trigger] m.at(r, c) == (if r < i {
                    before.at(r, c).spec_scale(factor)
                } else {
                    before.at(r, c)
                }),
        decreases nrows - i,
    {
        let mut j: usize = 0;
        while j < ncols
            invariant
                j <= ncols,
                i < nrows,
                nrows == before.rows(),
                ncols == before.cols(),
                m.rows() == nrows,
                m.cols() == ncols,
                forall|r: int, c: int|
                    before.has(r, c) ==> #[trigger] m.at(r, c) == (if r < i || (r == i && c < j) {
                        before.at(r, c).spec_scale(factor)
                    } else {
                        before.at(r, c)
                    }),
            decreases ncols - j,
        {
            let x = m.get(i, j).scale(factor);
            m.set(i, j, x);
            j += 1;
        }
        i += 1;
    }
    proof {
        let goal = scaled(before@, factor);
        assert forall|r: int| 0 <= r < m.rows() implies #[trigger] m@[r] =~= goal[r] by {
            assert forall|c: int| 0 <= c < m.cols() implies m@[r][c] == goal[r][c] by {
                assert(m@[r][c] == m.at(r, c));
                assert(before@[r][c] == before.at(r, c));
            }
        }
        assert(m@ =~= goal);
    }
}

/// Multiplies every entry by `factor`.
pub fn scale_reals<R: RealField>(v: &mut Vec<R>, factor: R)
    ensures
        final(v)@ == scaled_reals(old(v)@, factor),
{
    let ghost before = v@;
    let n = v.len();
    let mut i: usize = 0;
    while i < n
        invariant
            i <= n,
            n == before.len(),
            v@.len() == n,
            forall|k: int|
                0 <= k < n ==> #[trigger] v@[k] == (if k < i {
                    before[k].spec_times(factor)
                } else {
                    before[k]
                }),
        decreases n - i,
    {
        let x = v[i].times(factor);
        v.set(i, x);
        i += 1;
    }
    assert(v@ =~= scaled_reals(before, factor));
}

/// The number of iterations that a bound of `max_niter` allows: a bound of
/// zero stands for the largest count that the machine word holds.
pub open spec fn budget(max_niter: usize) -> nat {
    if max_niter == 0 {
        usize::MAX as nat
    } else {
        max_niter as nat
    }
}

} // verus!
