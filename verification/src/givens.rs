//! Givens rotations: plane rotations that cancel one entry of a pair.
//!
//! A rotation is a pair `(c, s)` with a real `c`. Applied to a column pair
//! `(a, b)` it gives `(c a - conj(s) b, s a + c b)`.

use crate::matrix::Matrix;
use crate::scalar::{signum, spec_signum, ComplexField, RealField};
use vstd::prelude::*;

verus! {

/// The unit real in the direction of `x`: `x` over its absolute value, or
/// one where that is zero.
pub open spec fn spec_real_signum<R: RealField>(x: R) -> R {
    if x.spec_abs().spec_is_zero() {
        R::spec_one()
    } else {
        x.spec_over(x.spec_abs())
    }
}

/// The unit real in the direction of `x`.
pub fn real_signum<R: RealField>(x: R) -> (s: R)
    ensures
        s == spec_real_signum(x),
{
    let m = x.abs();
    if m.is_zero() {
        R::one()
    } else {
        x.over(m)
    }
}

/// The length of the vector `(a, b)`.
pub open spec fn spec_hypot<R: RealField>(a: R, b: R) -> R {
    a.spec_times(a).spec_plus(b.spec_times(b)).spec_sqrt()
}

/// The length of the vector `(a, b)`.
pub fn hypot<R: RealField>(a: R, b: R) -> (h: R)
    ensures
        h == spec_hypot(a, b),
{
    a.times(a).plus(b.times(b)).sqrt()
}

/// Minus one for a negative `x`, one for any other.
pub open spec fn spec_sign<R: RealField>(x: R) -> R {
    if x.spec_lt(R::spec_zero()) {
        R::spec_one().spec_neg()
    } else {
        R::spec_one()
    }
}

/// Minus one for a negative `x`, one for any other.
pub fn sign<R: RealField>(x: R) -> (r: R)
    ensures
        r == spec_sign(x),
{
    if x.lt(R::zero()) {
        R::one().neg()
    } else {
        R::one()
    }
}

/// The cosine and the sine of the rotation `J = [[c, s], [-s, c]]` for
/// which `J^T A J` is diagonal, `A` being the symmetric matrix
/// `[[alpha, gamma], [gamma, beta]]`, and the tangent of its angle: the
/// diagonal that results is `(alpha - t gamma, beta + t gamma)`. Of the two
/// such rotations it is the one of the smaller angle; it is the identity if
/// `gamma` is zero.
pub open spec fn spec_jacobi<R: RealField>(alpha: R, beta: R, gamma: R) -> (R, R, R) {
    if gamma.spec_is_zero() {
        (R::spec_one(), R::spec_zero(), R::spec_zero())
    } else {
        let zeta = beta.spec_minus(alpha).spec_over(
            R::spec_one().spec_plus(R::spec_one()).spec_times(gamma),
        );
        let t = spec_sign(zeta).spec_over(
            zeta.spec_abs().spec_plus(spec_hypot(R::spec_one(), zeta)),
        );
        let c = R::spec_one().spec_over(spec_hypot(R::spec_one(), t));
        (c, t.spec_times(c), t)
    }
}

/// The rotation that diagonalizes a symmetric 2 by 2 matrix.
pub fn jacobi<R: RealField>(alpha: R, beta: R, gamma: R) -> (r: (R, R, R))
    ensures
        r == spec_jacobi(alpha, beta, gamma),
{
    if gamma.is_zero() {
        (R::one(), R::zero(), R::zero())
    } else {
        let zeta = beta.minus(alpha).over(R::one().plus(R::one()).times(gamma));
        let t = sign(zeta).over(zeta.abs().plus(hypot(R::one(), zeta)));
        let c = R::one().over(hypot(R::one(), t));
        (c, t.times(c), t)
    }
}

/// The rotation `(c, s)` that maps `(x, y)` onto the first axis, with the
/// signed length of the image; nothing if `y` is zero already.
pub open spec fn spec_cancel_y<R: RealField>(x: R, y: R) -> Option<(R, R, R)> {
    if !y.spec_is_zero() {
        let sign = spec_real_signum(x);
        let denom = spec_hypot(x.spec_abs(), y);
        Some(
            (
                x.spec_abs().spec_over(denom),
                y.spec_neg().spec_over(sign.spec_times(denom)),
                sign.spec_times(denom),
            ),
        )
    } else {
        None
    }
}

/// The rotation that maps `(x, y)` onto the first axis.
pub fn cancel_y<R: RealField>(x: R, y: R) -> (r: Option<(R, R, R)>)
    ensures
        r == spec_cancel_y(x, y),
{
    if !y.is_zero() {
        let sign = real_signum(x);
        let denom = hypot(x.abs(), y);
        Some((x.abs().over(denom), y.neg().over(sign.times(denom)), sign.times(denom)))
    } else {
        None
    }
}

/// The rotation `(c, s)` that maps `(x, y)` onto the second axis, with the
/// signed length of the image; nothing if `x` is zero already.
pub open spec fn spec_cancel_x<R: RealField>(x: R, y: R) -> Option<(R, R, R)> {
    if !x.spec_is_zero() {
        let sign = spec_real_signum(y);
        let denom = spec_hypot(y.spec_abs(), x);
        Some(
            (
                y.spec_abs().spec_over(denom),
                x.spec_times(sign).spec_over(denom),
                sign.spec_times(denom),
            ),
        )
    } else {
        None
    }
}

/// The rotation that maps `(x, y)` onto the second axis.
pub fn cancel_x<R: RealField>(x: R, y: R) -> (r: Option<(R, R, R)>)
    ensures
        r == spec_cancel_x(x, y),
{
    if !x.is_zero() {
        let sign = real_signum(y);
        let denom = hypot(y.abs(), x);
        Some((y.abs().over(denom), x.times(sign).over(denom), sign.times(denom)))
    } else {
        None
    }
}

/// The rotation with cosine and sine proportional to the scalars `c` and
/// `s`, and the signed length of `(c, s)`; nothing if that length is not
/// above `eps`.
pub open spec fn spec_try_rotation<T: ComplexField>(c: T, s: T, eps: T::Real) -> Option<
    (T::Real, T, T),
> {
    let sign = spec_signum(c);
    let denom = spec_hypot(c.spec_modulus(), s.spec_modulus());
    if eps.spec_lt(denom) {
        let norm = sign.spec_scale(denom);
        Some((c.spec_modulus().spec_over(denom), s.spec_over(norm), norm))
    } else {
        None
    }
}

/// The rotation with cosine and sine proportional to the scalars `c` and
/// `s`.
pub fn try_rotation<T: ComplexField>(c: T, s: T, eps: T::Real) -> (r: Option<(T::Real, T, T)>)
    ensures
        r == spec_try_rotation(c, s, eps),
{
    let sign = signum(c);
    let denom = hypot(c.modulus(), s.modulus());
    if eps.lt(denom) {
        let norm = sign.scale(denom);
        Some((c.modulus().over(denom), s.over(norm), norm))
    } else {
        None
    }
}

/// As `spec_try_rotation` with a zero tolerance; the identity where there
/// is none.
pub open spec fn spec_rotation<T: ComplexField>(c: T, s: T) -> (T::Real, T) {
    match spec_try_rotation(c, s, T::Real::spec_zero()) {
        Some(r) => (r.0, r.1),
        None => (T::Real::spec_one(), T::spec_zero()),
    }
}

/// The rotation with cosine and sine proportional to the scalars `c` and
/// `s`, or the identity.
pub fn rotation<T: ComplexField>(c: T, s: T) -> (r: (T::Real, T))
    ensures
        r == spec_rotation(c, s),
{
    match try_rotation(c, s, T::Real::zero()) {
        Some(r) => (r.0, r.1),
        None => (T::Real::one(), T::zero()),
    }
}

/// `a` with the rotation `(c, s)` applied, in the columns `c0..c1`, to the
/// pair of rows `ra`, `rb`.
pub open spec fn rotated<T: ComplexField>(
    a: Seq<Seq<T>>,
    c: T::Real,
    s: T,
    ra: int,
    rb: int,
    c0: int,
    c1: int,
) -> Seq<Seq<T>> {
    Seq::new(
        a.len(),
        |r: int|
            Seq::new(
                a[r].len(),
                |k: int|
                    if c0 <= k < c1 && r == ra {
                        a[ra][k].spec_scale(c).spec_minus(s.spec_conj().spec_times(a[rb][k]))
                    } else if c0 <= k < c1 && r == rb {
                        s.spec_times(a[ra][k]).spec_plus(a[rb][k].spec_scale(c))
                    } else {
                        a[r][k]
                    },
            ),
    )
}

/// `a` with the rotation `(c, s)` applied, in the rows `r0..r1`, to the
/// pair of columns `ca`, `cb`.
pub open spec fn rotated_rows<T: ComplexField>(
    a: Seq<Seq<T>>,
    c: T::Real,
    s: T,
    ca: int,
    cb: int,
    r0: int,
    r1: int,
) -> Seq<Seq<T>> {
    Seq::new(
        a.len(),
        |r: int|
            Seq::new(
                a[r].len(),
                |k: int|
                    if r0 <= r < r1 && k == ca {
                        a[r][ca].spec_scale(c).spec_plus(s.spec_times(a[r][cb]))
                    } else if r0 <= r < r1 && k == cb {
                        s.spec_conj().spec_neg().spec_times(a[r][ca]).spec_plus(
                            a[r][cb].spec_scale(c),
                        )
                    } else {
                        a[r][k]
                    },
            ),
    )
}

/// Applies the rotation `(c, s)` to rows `ra` and `rb`, in the columns
/// `c0..c1`.
pub fn rotate<T: ComplexField>(
    m: &mut Matrix<T>,
    c: T::Real,
    s: T,
    ra: usize,
    rb: usize,
    c0: usize,
    c1: usize,
)
    requires
        ra < old(m).rows(),
        rb < old(m).rows(),
        ra != rb,
        c0 <= c1 <= old(m).cols(),
    ensures
        final(m).rows() == old(m).rows(),
        final(m).cols() == old(m).cols(),
        final(m)@ == rotated(old(m)@, c, s, ra as int, rb as int, c0 as int, c1 as int),
{
    let ghost before = *m;
    let mut k: usize = c0;
    while k < c1
        invariant
            c0 <= k <= c1,
            c1 <= before.cols(),
            ra < before.rows(),
            rb < before.rows(),
            ra != rb,
            m.rows() == before.rows(),
            m.cols() == before.cols(),
            forall|r: int, j: int|
                before.has(r, j) ==> #[trigger] m.at(r, j) == (if c0 <= j < k && r == ra {
                    before.at(ra as int, j).spec_scale(c).spec_minus(
                        s.spec_conj().spec_times(before.at(rb as int, j)),
                    )
                } else if c0 <= j < k && r == rb {
                    s.spec_times(before.at(ra as int, j)).spec_plus(
                        before.at(rb as int, j).spec_scale(c),
                    )
                } else {
                    before.at(r, j)
                }),
        decreases c1 - k,
    {
        let a = m.get(ra, k);
        let b = m.get(rb, k);
        m.set(ra, k, a.scale(c).minus(s.conj().times(b)));
        m.set(rb, k, s.times(a).plus(b.scale(c)));
        k += 1;
    }
    proof {
        let goal = rotated(before@, c, s, ra as int, rb as int, c0 as int, c1 as int);
        assert forall|r: int| 0 <= r < m.rows() implies #[trigger] m@[r] =~= goal[r] by {
            assert forall|j: int| 0 <= j < m.cols() implies m@[r][j] == goal[r][j] by {
                assert(m@[r][j] == m.at(r, j));
                assert(before@[r][j] == before.at(r, j));
                assert(before@[ra as int][j] == before.at(ra as int, j));
                assert(before@[rb as int][j] == before.at(rb as int, j));
            }
        }
        assert(m@ =~= goal);
    }
}

/// Applies the rotation `(c, s)` to columns `ca` and `cb`, in the rows
/// `r0..r1`.
pub fn rotate_rows<T: ComplexField>(
    m: &mut Matrix<T>,
    c: T::Real,
    s: T,
    ca: usize,
    cb: usize,
    r0: usize,
    r1: usize,
)
    requires
        ca < old(m).cols(),
        cb < old(m).cols(),
        ca != cb,
        r0 <= r1 <= old(m).rows(),
    ensures
        final(m).rows() == old(m).rows(),
        final(m).cols() == old(m).cols(),
        final(m)@ == rotated_rows(old(m)@, c, s, ca as int, cb as int, r0 as int, r1 as int),
{
    let ghost before = *m;
    let mut r: usize = r0;
    while r < r1
        invariant
            r0 <= r <= r1,
            r1 <= before.rows(),
            ca < before.cols(),
            cb < before.cols(),
            ca != cb,
            m.rows() == before.rows(),
            m.cols() == before.cols(),
            forall|i: int, j: int|
                before.has(i, j) ==> #[trigger] m.at(i, j) == (if r0 <= i < r && j == ca {
                    before.at(i, ca as int).spec_scale(c).spec_plus(
                        s.spec_times(before.at(i, cb as int)),
                    )
                } else if r0 <= i < r && j == cb {
                    s.spec_conj().spec_neg().spec_times(before.at(i, ca as int)).spec_plus(
                        before.at(i, cb as int).spec_scale(c),
                    )
                } else {
                    before.at(i, j)
                }),
        decreases r1 - r,
    {
        let a = m.get(r, ca);
        let b = m.get(r, cb);
        m.set(r, ca, a.scale(c).plus(s.times(b)));
        m.set(r, cb, s.conj().neg().times(a).plus(b.scale(c)));
        r += 1;
    }
    proof {
        let goal = rotated_rows(before@, c, s, ca as int, cb as int, r0 as int, r1 as int);
        assert forall|i: int| 0 <= i < m.rows() implies #[trigger] m@[i] =~= goal[i] by {
            assert forall|j: int| 0 <= j < m.cols() implies m@[i][j] == goal[i][j] by {
                assert(m@[i][j] == m.at(i, j));
                assert(before@[i][j] == before.at(i, j));
                assert(before@[i][ca as int] == before.at(i, ca as int));
                assert(before@[i][cb as int] == before.at(i, cb as int));
            }
        }
        assert(m@ =~= goal);
    }
}

} // verus!
