//! Singular value decomposition.

use crate::bidiagonal::{bidiagonal_run, reflection_counts, u_run, v_t_run, Bidiagonal};
use crate::givens::{
    cancel_x, cancel_y, hypot, jacobi, rotate, rotate_rows, rotated, rotated_rows, spec_cancel_x,
    spec_cancel_y, spec_hypot, spec_jacobi,
};
use crate::matrix::{swap_columns, swap_rows, Matrix};
use crate::scalar::{
    negation_flips, spec_two, strict_weak_order, two, ComplexField, RealField,
};
use crate::scaling::{amax, budget, normalize, normalized, scale_reals, scaled_reals};
use crate::symmetric_eigen::{is_negligible, negligible, spec_wilkinson_shift, wilkinson_shift};
use crate::symmetric_tridiagonal::moduli;
use vstd::prelude::*;

verus! {

/// What the iteration holds between two steps: the bidiagonal matrix and
/// the accumulated factors. A factor that is not asked for stays empty.
pub struct SvdState<T: ComplexField> {
    /// The diagonal.
    pub diag: Seq<T::Real>,
    /// The off-diagonal.
    pub off: Seq<T::Real>,
    /// The rows of the left factor.
    pub u: Seq<Seq<T>>,
    /// The rows of the transposed right factor.
    pub v_t: Seq<Seq<T>>,
}

/// What the steps of the iteration depend on besides the state.
#[derive(Clone, Copy)]
pub struct Flags {
    /// Whether the bidiagonal matrix is upper bidiagonal.
    pub upper: bool,
    /// Whether the left factor is computed.
    pub compute_u: bool,
    /// Whether the right factor is computed.
    pub compute_v: bool,
}

/// The real rotation `(c, s)`, or its inverse, as a rotation of the field.
pub open spec fn lifted<T: ComplexField>(s: T::Real, inverse: bool) -> T {
    if inverse {
        T::spec_from_real(s).spec_neg()
    } else {
        T::spec_from_real(s)
    }
}

/// `u` with the rotation applied to its columns `ca` and `cb`, if `on`.
pub open spec fn turned_columns<T: ComplexField>(
    u: Seq<Seq<T>>,
    on: bool,
    c: T::Real,
    s: T::Real,
    inverse: bool,
    ca: int,
    cb: int,
) -> Seq<Seq<T>> {
    if on {
        rotated_rows(u, c, lifted::<T>(s, inverse), ca, cb, 0, u.len() as int)
    } else {
        u
    }
}

/// `v_t` with the rotation applied to its rows `ra` and `rb`, if `on`.
pub open spec fn turned_rows<T: ComplexField>(
    v_t: Seq<Seq<T>>,
    on: bool,
    c: T::Real,
    s: T::Real,
    inverse: bool,
    ra: int,
    rb: int,
) -> Seq<Seq<T>> {
    if on {
        rotated(v_t, c, lifted::<T>(s, inverse), ra, rb, 0, v_t[ra].len() as int)
    } else {
        v_t
    }
}

fn turn_columns<T: ComplexField>(
    u: &mut Matrix<T>,
    on: bool,
    c: T::Real,
    s: T::Real,
    inverse: bool,
    ca: usize,
    cb: usize,
)
    requires
        on ==> ca < old(u).cols() && cb < old(u).cols() && ca != cb,
    ensures
        final(u).rows() == old(u).rows(),
        final(u).cols() == old(u).cols(),
        final(u)@ == turned_columns(old(u)@, on, c, s, inverse, ca as int, cb as int),
{
    if on {
        let st = if inverse {
            T::from_real(s).neg()
        } else {
            T::from_real(s)
        };
        let n = u.nrows();
        assert(u@.len() == n);
        rotate_rows(u, c, st, ca, cb, 0, n);
    }
}

fn turn_rows<T: ComplexField>(
    v_t: &mut Matrix<T>,
    on: bool,
    c: T::Real,
    s: T::Real,
    inverse: bool,
    ra: usize,
    rb: usize,
)
    requires
        on ==> ra < old(v_t).rows() && rb < old(v_t).rows() && ra != rb,
    ensures
        final(v_t).rows() == old(v_t).rows(),
        final(v_t).cols() == old(v_t).cols(),
        final(v_t)@ == turned_rows(old(v_t)@, on, c, s, inverse, ra as int, rb as int),
{
    if on {
        let st = if inverse {
            T::from_real(s).neg()
        } else {
            T::from_real(s)
        };
        let n = v_t.ncols();
        assert(v_t@[ra as int].len() == n);
        rotate(v_t, c, st, ra, rb, 0, n);
    }
}

/// The rotations that move the entry `(x, y)` along row `i` from column
/// `k + 1` to column `end`, where it vanishes.
pub open spec fn horizontal_chase<T: ComplexField>(
    st: SvdState<T>,
    f: Flags,
    x: T::Real,
    y: T::Real,
    i: int,
    k: int,
    end: int,
) -> SvdState<T>
    decreases end - k,
{
    if k >= end {
        st
    } else {
        match spec_cancel_x(x, y) {
            None => st,
            Some((c, s, norm)) => {
                let diag = st.diag.update(k + 1, norm);
                let u = turned_columns(st.u, f.upper && f.compute_u, c, s, true, i, k + 1);
                let v_t = turned_rows(st.v_t, !f.upper && f.compute_v, c, s, false, i, k + 1);
                if k + 1 != end {
                    horizontal_chase(
                        SvdState {
                            diag,
                            off: st.off.update(k + 1, st.off[k + 1].spec_times(c)),
                            u,
                            v_t,
                        },
                        f,
                        s.spec_neg().spec_times(st.off[k + 1]),
                        diag[k + 2],
                        i,
                        k + 1,
                        end,
                    )
                } else {
                    SvdState { diag, off: st.off, u, v_t }
                }
            },
        }
    }
}

/// The state after off-diagonal entry `i` was cancelled by rotations along
/// its row, up to column `end`.
pub open spec fn cancel_horizontal<T: ComplexField>(
    st: SvdState<T>,
    f: Flags,
    i: int,
    end: int,
) -> SvdState<T> {
    horizontal_chase(
        SvdState { diag: st.diag, off: st.off.update(i, T::Real::spec_zero()), u: st.u, v_t: st.v_t },
        f,
        st.off[i],
        st.diag[i + 1],
        i,
        i,
        end,
    )
}

/// The rotations that move the entry `(x, y)` up column `i + 1` from row
/// `k` to row zero, where it vanishes.
pub open spec fn vertical_chase<T: ComplexField>(
    st: SvdState<T>,
    f: Flags,
    x: T::Real,
    y: T::Real,
    i: int,
    k: int,
) -> SvdState<T>
    decreases k + 1,
{
    if k < 0 {
        st
    } else {
        match spec_cancel_y(x, y) {
            None => st,
            Some((c, s, norm)) => {
                let diag = st.diag.update(k, norm);
                let v_t = turned_rows(st.v_t, f.upper && f.compute_v, c, s, false, k, i + 1);
                let u = turned_columns(st.u, !f.upper && f.compute_u, c, s, true, k, i + 1);
                if k > 0 {
                    vertical_chase(
                        SvdState {
                            diag,
                            off: st.off.update(k - 1, st.off[k - 1].spec_times(c)),
                            u,
                            v_t,
                        },
                        f,
                        diag[k - 1],
                        s.spec_times(st.off[k - 1]),
                        i,
                        k - 1,
                    )
                } else {
                    SvdState { diag, off: st.off, u, v_t }
                }
            },
        }
    }
}

/// The state after off-diagonal entry `i` was cancelled by rotations up
/// its column.
pub open spec fn cancel_vertical<T: ComplexField>(st: SvdState<T>, f: Flags, i: int) -> SvdState<T> {
    vertical_chase(
        SvdState { diag: st.diag, off: st.off.update(i, T::Real::spec_zero()), u: st.u, v_t: st.v_t },
        f,
        st.diag[i],
        st.off[i],
        i,
        i,
    )
}

/// The dimensions that the steps keep: `dim` diagonal entries, one
/// off-diagonal entry less, and factors with `dim` columns and `dim` rows
/// where they are computed.
pub open spec fn shaped<T: ComplexField>(
    diag: Seq<T::Real>,
    off: Seq<T::Real>,
    u: &Matrix<T>,
    v_t: &Matrix<T>,
    f: Flags,
    dim: nat,
) -> bool {
    &&& diag.len() == dim
    &&& off.len() + 1 == dim
    &&& f.compute_u ==> u.cols() == dim
    &&& f.compute_v ==> v_t.rows() == dim
}

fn run_cancel_horizontal<T: ComplexField>(
    diag: &mut Vec<T::Real>,
    off: &mut Vec<T::Real>,
    u: &mut Matrix<T>,
    v_t: &mut Matrix<T>,
    f: Flags,
    i: usize,
    end: usize,
)
    requires
        i < end < old(diag)@.len(),
        shaped(old(diag)@, old(off)@, old(u), old(v_t), f, old(diag)@.len()),
    ensures
        shaped(final(diag)@, final(off)@, final(u), final(v_t), f, old(diag)@.len()),
        final(u).rows() == old(u).rows(),
        final(u).cols() == old(u).cols(),
        final(v_t).rows() == old(v_t).rows(),
        final(v_t).cols() == old(v_t).cols(),
        cancel_horizontal(
            SvdState { diag: old(diag)@, off: old(off)@, u: old(u)@, v_t: old(v_t)@ },
            f,
            i as int,
            end as int,
        ) == (SvdState { diag: final(diag)@, off: final(off)@, u: final(u)@, v_t: final(v_t)@ }),
{
    let dim = diag.len();
    let ghost target = cancel_horizontal(
        SvdState::<T> { diag: diag@, off: off@, u: u@, v_t: v_t@ },
        f,
        i as int,
        end as int,
    );
    let mut x = off[i];
    let mut y = diag[i + 1];
    off.set(i, T::Real::zero());
    let mut k = i;
    let mut go = true;
    while k < end && go
        invariant
            i <= k <= end,
            end < dim,
            shaped(diag@, off@, u, v_t, f, dim as nat),
            u.rows() == old(u).rows(),
            u.cols() == old(u).cols(),
            v_t.rows() == old(v_t).rows(),
            v_t.cols() == old(v_t).cols(),
            go ==> horizontal_chase(
                SvdState::<T> { diag: diag@, off: off@, u: u@, v_t: v_t@ },
                f,
                x,
                y,
                i as int,
                k as int,
                end as int,
            ) == target,
            !go ==> target == (SvdState::<T> { diag: diag@, off: off@, u: u@, v_t: v_t@ }),
        decreases end - k + (if go { 1int } else { 0int }),
    {
        match cancel_x(x, y) {
            None => {
                go = false;
            },
            Some((c, s, norm)) => {
                diag.set(k + 1, norm);
                turn_columns(u, f.upper && f.compute_u, c, s, true, i, k + 1);
                turn_rows(v_t, !f.upper && f.compute_v, c, s, false, i, k + 1);
                if k + 1 != end {
                    x = s.neg().times(off[k + 1]);
                    y = diag[k + 2];
                    let v = off[k + 1].times(c);
                    off.set(k + 1, v);
                } else {
                    go = false;
                }
                k += 1;
            },
        }
    }
}

fn run_cancel_vertical<T: ComplexField>(
    diag: &mut Vec<T::Real>,
    off: &mut Vec<T::Real>,
    u: &mut Matrix<T>,
    v_t: &mut Matrix<T>,
    f: Flags,
    i: usize,
)
    requires
        i + 1 < old(diag)@.len(),
        shaped(old(diag)@, old(off)@, old(u), old(v_t), f, old(diag)@.len()),
    ensures
        shaped(final(diag)@, final(off)@, final(u), final(v_t), f, old(diag)@.len()),
        final(u).rows() == old(u).rows(),
        final(u).cols() == old(u).cols(),
        final(v_t).rows() == old(v_t).rows(),
        final(v_t).cols() == old(v_t).cols(),
        cancel_vertical(
            SvdState { diag: old(diag)@, off: old(off)@, u: old(u)@, v_t: old(v_t)@ },
            f,
            i as int,
        ) == (SvdState { diag: final(diag)@, off: final(off)@, u: final(u)@, v_t: final(v_t)@ }),
{
    let dim = diag.len();
    let ghost target = cancel_vertical(
        SvdState::<T> { diag: diag@, off: off@, u: u@, v_t: v_t@ },
        f,
        i as int,
    );
    let mut x = diag[i];
    let mut y = off[i];
    off.set(i, T::Real::zero());
    let mut t = i + 1;
    let mut go = true;
    while t > 0 && go
        invariant
            t <= i + 1,
            i + 1 < dim,
            shaped(diag@, off@, u, v_t, f, dim as nat),
            u.rows() == old(u).rows(),
            u.cols() == old(u).cols(),
            v_t.rows() == old(v_t).rows(),
            v_t.cols() == old(v_t).cols(),
            go ==> vertical_chase(
                SvdState::<T> { diag: diag@, off: off@, u: u@, v_t: v_t@ },
                f,
                x,
                y,
                i as int,
                t - 1,
            ) == target,
            !go ==> target == (SvdState::<T> { diag: diag@, off: off@, u: u@, v_t: v_t@ }),
        decreases t + (if go { 1int } else { 0int }),
    {
        let k = t - 1;
        match cancel_y(x, y) {
            None => {
                go = false;
            },
            Some((c, s, norm)) => {
                diag.set(k, norm);
                turn_rows(v_t, f.upper && f.compute_v, c, s, false, k, i + 1);
                turn_columns(u, !f.upper && f.compute_u, c, s, true, k, i + 1);
                if k > 0 {
                    x = diag[k - 1];
                    y = s.times(off[k - 1]);
                    let v = off[k - 1].times(c);
                    off.set(k - 1, v);
                } else {
                    go = false;
                }
                t -= 1;
            },
        }
    }
}

/// Whether `x` is not above `eps` in absolute value.
pub open spec fn small<R: RealField>(x: R, eps: R) -> bool {
    x.spec_abs().spec_le(eps)
}

/// Whether `x` is not above `eps` in absolute value.
pub fn is_small<R: RealField>(x: R, eps: R) -> (r: bool)
    ensures
        r == small(x, eps),
{
    x.abs().le(eps)
}

/// `st` with diagonal entry `i` set to zero.
pub open spec fn without_diag<T: ComplexField>(st: SvdState<T>, i: int) -> SvdState<T> {
    SvdState { diag: st.diag.update(i, T::Real::spec_zero()), off: st.off, u: st.u, v_t: st.v_t }
}

/// `st` with off-diagonal entry `i` set to zero.
pub open spec fn without_off<T: ComplexField>(st: SvdState<T>, i: int) -> SvdState<T> {
    SvdState { diag: st.diag, off: st.off.update(i, T::Real::spec_zero()), u: st.u, v_t: st.v_t }
}

/// `st` after diagonal entry `m` was found small: it is set to zero, and
/// the off-diagonal entries beside it are cancelled, along the row up to
/// column `end` and up the column.
pub open spec fn decouple_at<T: ComplexField>(st: SvdState<T>, f: Flags, m: int, end: int) -> SvdState<
    T,
> {
    let across = cancel_horizontal(without_diag(st, m), f, m, end);
    if m != 0 {
        cancel_vertical(across, f, m - 1)
    } else {
        across
    }
}

/// The end of the unreduced block, going up from `n`: entries that count
/// as zero are cleared on the way.
pub open spec fn svd_delimit_end<T: ComplexField>(
    st: SvdState<T>,
    f: Flags,
    n: nat,
    eps: T::Real,
) -> (nat, SvdState<T>)
    decreases n,
{
    if n == 0 {
        (0, st)
    } else {
        let m = n - 1;
        if st.off[m].spec_is_zero() || negligible(st.off[m], st.diag[n as int], st.diag[m], eps) {
            svd_delimit_end(without_off(st, m), f, m as nat, eps)
        } else if small(st.diag[m], eps) {
            svd_delimit_end(decouple_at(st, f, m, m + 1), f, m as nat, eps)
        } else if small(st.diag[n as int], eps) {
            svd_delimit_end(cancel_vertical(without_diag(st, n as int), f, m), f, m as nat, eps)
        } else {
            (n, st)
        }
    }
}

/// The start of the unreduced block that ends at `n`, going up from `s`.
pub open spec fn svd_delimit_start<T: ComplexField>(
    st: SvdState<T>,
    f: Flags,
    s: nat,
    n: nat,
    eps: T::Real,
) -> (nat, SvdState<T>)
    decreases s,
{
    if s == 0 {
        (0, st)
    } else {
        let m = s - 1;
        if negligible(st.off[m], st.diag[s as int], st.diag[m], eps) {
            (s, without_off(st, m))
        } else if small(st.diag[m], eps) {
            (s, decouple_at(st, f, m, n as int))
        } else {
            svd_delimit_start(st, f, m as nat, n, eps)
        }
    }
}

/// The block that is left to reduce, at or above `end`, and the state with
/// the entries cleared that count as zero.
pub open spec fn svd_delimit<T: ComplexField>(
    st: SvdState<T>,
    f: Flags,
    end: nat,
    eps: T::Real,
) -> (nat, nat, SvdState<T>) {
    let (n, cleared) = svd_delimit_end(st, f, end, eps);
    if n == 0 {
        (0, 0, cleared)
    } else {
        let (s, done) = svd_delimit_start(cleared, f, (n - 1) as nat, n, eps);
        (s, n, done)
    }
}

fn run_decouple_at<T: ComplexField>(
    diag: &mut Vec<T::Real>,
    off: &mut Vec<T::Real>,
    u: &mut Matrix<T>,
    v_t: &mut Matrix<T>,
    f: Flags,
    m: usize,
    end: usize,
)
    requires
        m < end < old(diag)@.len(),
        shaped(old(diag)@, old(off)@, old(u), old(v_t), f, old(diag)@.len()),
    ensures
        shaped(final(diag)@, final(off)@, final(u), final(v_t), f, old(diag)@.len()),
        final(u).rows() == old(u).rows(),
        final(u).cols() == old(u).cols(),
        final(v_t).rows() == old(v_t).rows(),
        final(v_t).cols() == old(v_t).cols(),
        decouple_at(
            SvdState { diag: old(diag)@, off: old(off)@, u: old(u)@, v_t: old(v_t)@ },
            f,
            m as int,
            end as int,
        ) == (SvdState { diag: final(diag)@, off: final(off)@, u: final(u)@, v_t: final(v_t)@ }),
{
    diag.set(m, T::Real::zero());
    run_cancel_horizontal(diag, off, u, v_t, f, m, end);
    if m != 0 {
        run_cancel_vertical(diag, off, u, v_t, f, m - 1);
    }
}

fn run_delimit<T: ComplexField>(
    diag: &mut Vec<T::Real>,
    off: &mut Vec<T::Real>,
    u: &mut Matrix<T>,
    v_t: &mut Matrix<T>,
    f: Flags,
    end: usize,
    eps: T::Real,
) -> (r: (usize, usize))
    requires
        end < old(diag)@.len(),
        shaped(old(diag)@, old(off)@, old(u), old(v_t), f, old(diag)@.len()),
    ensures
        shaped(final(diag)@, final(off)@, final(u), final(v_t), f, old(diag)@.len()),
        final(u).rows() == old(u).rows(),
        final(u).cols() == old(u).cols(),
        final(v_t).rows() == old(v_t).rows(),
        final(v_t).cols() == old(v_t).cols(),
        r.0 <= r.1 <= end,
        svd_delimit(
            SvdState { diag: old(diag)@, off: old(off)@, u: old(u)@, v_t: old(v_t)@ },
            f,
            end as nat,
            eps,
        ) == (
            r.0 as nat,
            r.1 as nat,
            SvdState { diag: final(diag)@, off: final(off)@, u: final(u)@, v_t: final(v_t)@ },
        ),
{
    let dim = diag.len();
    let ghost first = SvdState::<T> { diag: diag@, off: off@, u: u@, v_t: v_t@ };
    let mut n = end;
    let mut go = true;
    while n > 0 && go
        invariant
            n <= end,
            end < dim,
            shaped(diag@, off@, u, v_t, f, dim as nat),
            u.rows() == old(u).rows(),
            u.cols() == old(u).cols(),
            v_t.rows() == old(v_t).rows(),
            v_t.cols() == old(v_t).cols(),
            go ==> svd_delimit_end(
                SvdState::<T> { diag: diag@, off: off@, u: u@, v_t: v_t@ },
                f,
                n as nat,
                eps,
            ) == svd_delimit_end(first, f, end as nat, eps),
            !go ==> n > 0 && svd_delimit_end(first, f, end as nat, eps) == (
                n as nat,
                SvdState::<T> { diag: diag@, off: off@, u: u@, v_t: v_t@ },
            ),
        decreases n + (if go { 1int } else { 0int }),
    {
        let m = n - 1;
        if off[m].is_zero() || is_negligible(off[m], diag[n], diag[m], eps) {
            off.set(m, T::Real::zero());
            n -= 1;
        } else if is_small(diag[m], eps) {
            run_decouple_at(diag, off, u, v_t, f, m, m + 1);
            n -= 1;
        } else if is_small(diag[n], eps) {
            diag.set(n, T::Real::zero());
            run_cancel_vertical(diag, off, u, v_t, f, m);
            n -= 1;
        } else {
            go = false;
        }
    }
    if n == 0 {
        return (0, 0);
    }
    let ghost cleared = SvdState::<T> { diag: diag@, off: off@, u: u@, v_t: v_t@ };
    let mut s = n - 1;
    go = true;
    while s > 0 && go
        invariant
            s < n <= end,
            end < dim,
            shaped(diag@, off@, u, v_t, f, dim as nat),
            u.rows() == old(u).rows(),
            u.cols() == old(u).cols(),
            v_t.rows() == old(v_t).rows(),
            v_t.cols() == old(v_t).cols(),
            go ==> cleared == (SvdState::<T> { diag: diag@, off: off@, u: u@, v_t: v_t@ })
                && svd_delimit_start(cleared, f, s as nat, n as nat, eps) == svd_delimit_start(
                cleared,
                f,
                (n - 1) as nat,
                n as nat,
                eps,
            ),
            !go ==> svd_delimit_start(cleared, f, (n - 1) as nat, n as nat, eps) == (
                s as nat,
                SvdState::<T> { diag: diag@, off: off@, u: u@, v_t: v_t@ },
            ),
        decreases s + (if go { 1int } else { 0int }),
    {
        let m = s - 1;
        if is_negligible(off[m], diag[s], diag[m], eps) {
            off.set(m, T::Real::zero());
            go = false;
        } else if is_small(diag[m], eps) {
            run_decouple_at(diag, off, u, v_t, f, m, n);
            go = false;
        } else {
            s -= 1;
        }
    }
    (s, n)
}

/// The singular value decomposition of the upper triangular matrix
/// `B = [[m11, m12], [0, m22]]`: the rotation `(cu, su)` of the left
/// factor, the two singular values, of either sign, and the rotation
/// `(cv, sv)` of the right factor, with
/// `B = [[cu, -su], [su, cu]] * diag(s1, s2) * [[cv, -sv], [sv, cv]]^T`.
/// The right rotation makes the columns of `B` orthogonal; the left one is
/// read off the longer of the two columns that result.
pub open spec fn spec_svd_2x2<R: RealField>(m11: R, m12: R, m22: R) -> ((R, R), (R, R), (R, R)) {
    let (c, s, _) = spec_jacobi(
        m11.spec_times(m11),
        m12.spec_times(m12).spec_plus(m22.spec_times(m22)),
        m11.spec_times(m12),
    );
    let x1 = m11.spec_times(c).spec_minus(m12.spec_times(s));
    let y1 = m22.spec_times(s).spec_neg();
    let x2 = m11.spec_times(s).spec_plus(m12.spec_times(c));
    let y2 = m22.spec_times(c);
    let n1 = spec_hypot(x1, y1);
    let n2 = spec_hypot(x2, y2);
    if n1.spec_lt(n2) {
        let cu = y2.spec_over(n2);
        let su = x2.spec_over(n2).spec_neg();
        ((cu, su), (cu.spec_times(x1).spec_plus(su.spec_times(y1)), n2), (c, s.spec_neg()))
    } else if n1.spec_is_zero() {
        ((R::spec_one(), R::spec_zero()), (R::spec_zero(), R::spec_zero()), (c, s.spec_neg()))
    } else {
        let cu = x1.spec_over(n1);
        let su = y1.spec_over(n1);
        ((cu, su), (n1, cu.spec_times(y2).spec_minus(su.spec_times(x2))), (c, s.spec_neg()))
    }
}

/// The singular value decomposition of an upper triangular 2 by 2 matrix.
pub fn svd_2x2<R: RealField>(m11: R, m12: R, m22: R) -> (r: ((R, R), (R, R), (R, R)))
    ensures
        r == spec_svd_2x2(m11, m12, m22),
{
    let (c, s, _) = jacobi(m11.times(m11), m12.times(m12).plus(m22.times(m22)), m11.times(m12));
    let x1 = m11.times(c).minus(m12.times(s));
    let y1 = m22.times(s).neg();
    let x2 = m11.times(s).plus(m12.times(c));
    let y2 = m22.times(c);
    let n1 = hypot(x1, y1);
    let n2 = hypot(x2, y2);
    if n1.lt(n2) {
        let cu = y2.over(n2);
        let su = x2.over(n2).neg();
        ((cu, su), (cu.times(x1).plus(su.times(y1)), n2), (c, s.neg()))
    } else if n1.is_zero() {
        ((R::one(), R::zero()), (R::zero(), R::zero()), (c, s.neg()))
    } else {
        let cu = x1.over(n1);
        let su = y1.over(n1);
        ((cu, su), (n1, cu.times(y2).minus(su.times(x2))), (c, s.neg()))
    }
}

/// A block of two rows: its singular values are computed directly.
pub open spec fn solve_block<T: ComplexField>(st: SvdState<T>, f: Flags, start: int) -> SvdState<T> {
    let (ru, values, rv) = spec_svd_2x2(st.diag[start], st.off[start], st.diag[start + 1]);
    let left = if f.upper {
        ru
    } else {
        rv
    };
    let right = if f.upper {
        rv
    } else {
        ru
    };
    SvdState {
        diag: st.diag.update(start, values.0).update(start + 1, values.1),
        off: st.off.update(start, T::Real::spec_zero()),
        u: turned_columns(st.u, f.compute_u, left.0, left.1, false, start, start + 1),
        v_t: turned_rows(st.v_t, f.compute_v, right.0, right.1, true, start, start + 1),
    }
}

/// One pair of rotations of the sweep, at position `k`, chasing the bulge
/// `(x, y)`, and the pairs after it up to `n`. The sweep ends early if a
/// bulge has nothing to cancel.
pub open spec fn svd_sweep<T: ComplexField>(
    st: SvdState<T>,
    f: Flags,
    x: T::Real,
    y: T::Real,
    k: int,
    start: int,
    n: int,
) -> SvdState<T>
    decreases n - k,
{
    if k >= n {
        st
    } else {
        match spec_cancel_y(x, y) {
            None => st,
            Some((c1, s1, norm1)) => {
                let m12 = if k == n - 1 {
                    T::Real::spec_zero()
                } else {
                    st.off[k + 1]
                };
                let d0 = st.diag[k];
                let f0 = st.off[k];
                let d1 = st.diag[k + 1];
                let s00 = d0.spec_times(c1).spec_minus(s1.spec_times(f0));
                let s01 = s1.spec_times(d0).spec_plus(f0.spec_times(c1));
                let s10 = s1.spec_neg().spec_times(d1);
                let s11 = d1.spec_times(c1);
                let off1 = if k > start {
                    st.off.update(k - 1, norm1)
                } else {
                    st.off
                };
                let (c2, s2, norm2) = match spec_cancel_y(s00, s10) {
                    Some(r) => r,
                    None => (T::Real::spec_one(), T::Real::spec_zero(), s00),
                };
                let t01 = s01.spec_times(c2).spec_minus(s2.spec_times(s11));
                let t11 = s2.spec_times(s01).spec_plus(s11.spec_times(c2));
                let t02 = s2.spec_times(m12).spec_neg();
                let t12 = m12.spec_times(c2);
                let right = if f.upper {
                    (c1, s1)
                } else {
                    (c2, s2)
                };
                let left = if f.upper {
                    (c2, s2)
                } else {
                    (c1, s1)
                };
                let off2 = off1.update(k, t01);
                svd_sweep(
                    SvdState {
                        diag: st.diag.update(k, norm2).update(k + 1, t11),
                        off: if k != n - 1 {
                            off2.update(k + 1, t12)
                        } else {
                            off2
                        },
                        u: turned_columns(st.u, f.compute_u, left.0, left.1, true, k, k + 1),
                        v_t: turned_rows(st.v_t, f.compute_v, right.0, right.1, false, k, k + 1),
                    },
                    f,
                    t01,
                    t02,
                    k + 1,
                    start,
                    n,
                )
            },
        }
    }
}

/// A block of more than two rows: one implicitly shifted sweep.
pub open spec fn sweep_block<T: ComplexField>(
    st: SvdState<T>,
    f: Flags,
    start: int,
    end: int,
) -> SvdState<T> {
    let m = end - 1;
    let dm = st.diag[m];
    let dn = st.diag[end];
    let fm = st.off[m];
    let tmm = dm.spec_times(dm).spec_plus(st.off[m - 1].spec_times(st.off[m - 1]));
    let tmn = dm.spec_times(fm);
    let tnn = dn.spec_times(dn).spec_plus(fm.spec_times(fm));
    let shift = spec_wilkinson_shift(tmm, tnn, tmn);
    svd_sweep(
        st,
        f,
        st.diag[start].spec_times(st.diag[start]).spec_minus(shift),
        st.diag[start].spec_times(st.off[start]),
        start,
        start,
        end,
    )
}

/// One step of the iteration: the block is swept or solved, and the block
/// to reduce next is found.
pub open spec fn svd_step<T: ComplexField>(
    st: SvdState<T>,
    f: Flags,
    start: nat,
    end: nat,
    eps: T::Real,
) -> (nat, nat, SvdState<T>) {
    if end - start + 1 > 2 {
        svd_delimit(sweep_block(st, f, start as int, end as int), f, end, eps)
    } else {
        svd_delimit(solve_block(st, f, start as int), f, (end - 1) as nat, eps)
    }
}

/// The state in which the iteration ends when it may take `budget` steps,
/// or nothing if the last of them is taken before the block is empty.
pub open spec fn svd_iterate<T: ComplexField>(
    st: SvdState<T>,
    f: Flags,
    start: nat,
    end: nat,
    eps: T::Real,
    budget: nat,
) -> Option<SvdState<T>>
    decreases budget,
{
    if end == start {
        Some(st)
    } else if budget <= 1 {
        None
    } else {
        let (s, e, next) = svd_step(st, f, start, end, eps);
        svd_iterate(next, f, s, e, eps, (budget - 1) as nat)
    }
}

fn run_sweep<T: ComplexField>(
    diag: &mut Vec<T::Real>,
    off: &mut Vec<T::Real>,
    u: &mut Matrix<T>,
    v_t: &mut Matrix<T>,
    f: Flags,
    start: usize,
    end: usize,
)
    requires
        start + 1 < end < old(diag)@.len(),
        shaped(old(diag)@, old(off)@, old(u), old(v_t), f, old(diag)@.len()),
    ensures
        shaped(final(diag)@, final(off)@, final(u), final(v_t), f, old(diag)@.len()),
        final(u).rows() == old(u).rows(),
        final(u).cols() == old(u).cols(),
        final(v_t).rows() == old(v_t).rows(),
        final(v_t).cols() == old(v_t).cols(),
        sweep_block(
            SvdState { diag: old(diag)@, off: old(off)@, u: old(u)@, v_t: old(v_t)@ },
            f,
            start as int,
            end as int,
        ) == (SvdState { diag: final(diag)@, off: final(off)@, u: final(u)@, v_t: final(v_t)@ }),
{
    let dim = diag.len();
    let ghost target = sweep_block(
        SvdState::<T> { diag: diag@, off: off@, u: u@, v_t: v_t@ },
        f,
        start as int,
        end as int,
    );
    let n = end;
    let m = end - 1;
    let dm = diag[m];
    let dn = diag[n];
    let fm = off[m];
    let tmm = dm.times(dm).plus(off[m - 1].times(off[m - 1]));
    let tmn = dm.times(fm);
    let tnn = dn.times(dn).plus(fm.times(fm));
    let shift = wilkinson_shift(tmm, tnn, tmn);
    let mut x = diag[start].times(diag[start]).minus(shift);
    let mut y = diag[start].times(off[start]);
    let mut k = start;
    let mut go = true;
    while k < n && go
        invariant
            start <= k <= n,
            n == end,
            end < dim,
            shaped(diag@, off@, u, v_t, f, dim as nat),
            u.rows() == old(u).rows(),
            u.cols() == old(u).cols(),
            v_t.rows() == old(v_t).rows(),
            v_t.cols() == old(v_t).cols(),
            go ==> svd_sweep(
                SvdState::<T> { diag: diag@, off: off@, u: u@, v_t: v_t@ },
                f,
                x,
                y,
                k as int,
                start as int,
                n as int,
            ) == target,
            !go ==> target == (SvdState::<T> { diag: diag@, off: off@, u: u@, v_t: v_t@ }),
        decreases n - k + (if go { 1int } else { 0int }),
    {
        match cancel_y(x, y) {
            None => {
                go = false;
            },
            Some((c1, s1, norm1)) => {
                let m12 = if k == n - 1 {
                    T::Real::zero()
                } else {
                    off[k + 1]
                };
                let d0 = diag[k];
                let f0 = off[k];
                let d1 = diag[k + 1];
                let s00 = d0.times(c1).minus(s1.times(f0));
                let s01 = s1.times(d0).plus(f0.times(c1));
                let s10 = s1.neg().times(d1);
                let s11 = d1.times(c1);
                if k > start {
                    off.set(k - 1, norm1);
                }
                let (c2, s2, norm2) = match cancel_y(s00, s10) {
                    Some(r) => r,
                    None => (T::Real::one(), T::Real::zero(), s00),
                };
                let t01 = s01.times(c2).minus(s2.times(s11));
                let t11 = s2.times(s01).plus(s11.times(c2));
                let t02 = s2.times(m12).neg();
                let t12 = m12.times(c2);
                let right = if f.upper {
                    (c1, s1)
                } else {
                    (c2, s2)
                };
                let left = if f.upper {
                    (c2, s2)
                } else {
                    (c1, s1)
                };
                turn_rows(v_t, f.compute_v, right.0, right.1, false, k, k + 1);
                turn_columns(u, f.compute_u, left.0, left.1, true, k, k + 1);
                diag.set(k, norm2);
                diag.set(k + 1, t11);
                off.set(k, t01);
                if k != n - 1 {
                    off.set(k + 1, t12);
                }
                x = t01;
                y = t02;
                k += 1;
            },
        }
    }
}

fn run_solve_block<T: ComplexField>(
    diag: &mut Vec<T::Real>,
    off: &mut Vec<T::Real>,
    u: &mut Matrix<T>,
    v_t: &mut Matrix<T>,
    f: Flags,
    start: usize,
)
    requires
        start + 1 < old(diag)@.len(),
        shaped(old(diag)@, old(off)@, old(u), old(v_t), f, old(diag)@.len()),
    ensures
        shaped(final(diag)@, final(off)@, final(u), final(v_t), f, old(diag)@.len()),
        final(u).rows() == old(u).rows(),
        final(u).cols() == old(u).cols(),
        final(v_t).rows() == old(v_t).rows(),
        final(v_t).cols() == old(v_t).cols(),
        solve_block(
            SvdState { diag: old(diag)@, off: old(off)@, u: old(u)@, v_t: old(v_t)@ },
            f,
            start as int,
        ) == (SvdState { diag: final(diag)@, off: final(off)@, u: final(u)@, v_t: final(v_t)@ }),
{
    let dim = diag.len();
    let (ru, values, rv) = svd_2x2(diag[start], off[start], diag[start + 1]);
    let left = if f.upper {
        ru
    } else {
        rv
    };
    let right = if f.upper {
        rv
    } else {
        ru
    };
    diag.set(start, values.0);
    diag.set(start + 1, values.1);
    off.set(start, T::Real::zero());
    turn_columns(u, f.compute_u, left.0, left.1, false, start, start + 1);
    turn_rows(v_t, f.compute_v, right.0, right.1, true, start, start + 1);
}

/// `v` with every negative entry negated.
pub open spec fn absolute<R: RealField>(v: Seq<R>) -> Seq<R> {
    Seq::new(
        v.len(),
        |i: int|
            if v[i].spec_lt(R::spec_zero()) {
                v[i].spec_neg()
            } else {
                v[i]
            },
    )
}

/// `u` with column `c` negated wherever entry `c` of `v` is negative, if
/// `on`.
pub open spec fn flipped<T: ComplexField>(u: Seq<Seq<T>>, v: Seq<T::Real>, on: bool) -> Seq<Seq<T>> {
    if on {
        Seq::new(
            u.len(),
            |r: int|
                Seq::new(
                    u[r].len(),
                    |c: int|
                        if c < v.len() && v[c].spec_lt(T::Real::spec_zero()) {
                            u[r][c].spec_neg()
                        } else {
                            u[r][c]
                        },
                ),
        )
    } else {
        u
    }
}

/// No entry of `v` is negative.
pub open spec fn non_negative<R: RealField>(v: Seq<R>) -> bool {
    forall|i: int| 0 <= i < v.len() ==> !(#[trigger] v[i]).spec_lt(R::spec_zero())
}

/// No entry of `v` is below a later one.
pub open spec fn descending<R: RealField>(v: Seq<R>) -> bool {
    forall|i: int, j: int| 0 <= i < j < v.len() ==> !(#[trigger] v[i]).spec_lt(#[trigger] v[j])
}

fn make_non_negative<T: ComplexField>(values: &mut Vec<T::Real>, u: &mut Matrix<T>, on: bool)
    requires
        on ==> old(u).cols() == old(values)@.len(),
    ensures
        final(values)@ == absolute(old(values)@),
        final(u)@ == flipped(old(u)@, old(values)@, on),
        final(u).rows() == old(u).rows(),
        final(u).cols() == old(u).cols(),
        negation_flips::<T::Real>() ==> non_negative(final(values)@),
{
    let ghost v0 = values@;
    let ghost u0 = *u;
    let n = values.len();
    let nrows = u.nrows();
    let mut i: usize = 0;
    while i < n
        invariant
            i <= n,
            n == v0.len(),
            values@.len() == n,
            nrows == u0.rows(),
            u.rows() == u0.rows(),
            u.cols() == u0.cols(),
            on ==> u0.cols() == n,
            forall|k: int|
                0 <= k < n ==> #[trigger] values@[k] == (if k < i && v0[k].spec_lt(
                    T::Real::spec_zero(),
                ) {
                    v0[k].spec_neg()
                } else {
                    v0[k]
                }),
            forall|r: int, c: int|
                u0.has(r, c) ==> #[trigger] u.at(r, c) == (if on && c < i && v0[c].spec_lt(
                    T::Real::spec_zero(),
                ) {
                    u0.at(r, c).spec_neg()
                } else {
                    u0.at(r, c)
                }),
        decreases n - i,
    {
        let x = values[i];
        if x.lt(T::Real::zero()) {
            values.set(i, x.neg());
            if on {
                let mut r: usize = 0;
                while r < nrows
                    invariant
                        r <= nrows,
                        i < n,
                        n == v0.len(),
                        nrows == u0.rows(),
                        u.rows() == u0.rows(),
                        u.cols() == u0.cols(),
                        u0.cols() == n,
                        on,
                        v0[i as int].spec_lt(T::Real::spec_zero()),
                        forall|a: int, c: int|
                            u0.has(a, c) ==> #[trigger] u.at(a, c) == (if (c < i && v0[c].spec_lt(
                                T::Real::spec_zero(),
                            )) || (c == i && a < r) {
                                u0.at(a, c).spec_neg()
                            } else {
                                u0.at(a, c)
                            }),
                    decreases nrows - r,
                {
                    let e = u.get(r, i).neg();
                    u.set(r, i, e);
                    r += 1;
                }
            }
        }
        i += 1;
    }
    proof {
        assert(values@ =~= absolute(v0));
        if on {
            let goal = flipped(u0@, v0, on);
            assert forall|r: int| 0 <= r < u.rows() implies #[trigger] u@[r] =~= goal[r] by {
                assert forall|c: int| 0 <= c < u.cols() implies u@[r][c] == goal[r][c] by {
                    assert(u@[r][c] == u.at(r, c));
                    assert(u0@[r][c] == u0.at(r, c));
                }
            }
            assert(u@ =~= goal);
        } else {
            assert forall|r: int| 0 <= r < u.rows() implies #[trigger] u@[r] =~= u0@[r] by {
                assert forall|c: int| 0 <= c < u.cols() implies u@[r][c] == u0@[r][c] by {
                    assert(u@[r][c] == u.at(r, c));
                    assert(u0@[r][c] == u0.at(r, c));
                }
            }
            assert(u@ =~= u0@);
        }
    }
}

/// The first index among `from..upto` of a largest entry.
pub open spec fn max_index<R: RealField>(v: Seq<R>, from: int, upto: int) -> int
    decreases upto - from,
{
    if upto <= from + 1 {
        from
    } else {
        let p = max_index(v, from, upto - 1);
        if v[p].spec_lt(v[upto - 1]) {
            upto - 1
        } else {
            p
        }
    }
}

/// The largest entry is not below any entry it was chosen among.
pub proof fn lemma_max_index_dominates<R: RealField>(v: Seq<R>, from: int, upto: int)
    requires
        strict_weak_order::<R>(),
        from < upto,
    ensures
        from <= max_index(v, from, upto) < upto,
        forall|i: int| from <= i < upto ==> !v[max_index(v, from, upto)].spec_lt(#[trigger] v[i]),
    decreases upto - from,
{
    let p = max_index(v, from, upto);
    if upto <= from + 1 {
        if v[p].spec_lt(v[p]) {
            assert(!v[p].spec_lt(v[p]));
        }
    } else {
        lemma_max_index_dominates(v, from, upto - 1);
        let q = max_index(v, from, upto - 1);
        let last = v[upto - 1];
        assert forall|i: int| from <= i < upto implies !v[p].spec_lt(#[trigger] v[i]) by {
            if v[q].spec_lt(last) {
                assert(!last.spec_lt(v[q]));
                if i < upto - 1 {
                    assert(!v[q].spec_lt(v[i]));
                    assert(!last.spec_lt(v[i]));
                } else {
                    if last.spec_lt(last) {
                        assert(!last.spec_lt(last));
                    }
                }
            } else {
                if i < upto - 1 {
                    assert(!v[q].spec_lt(v[i]));
                }
            }
        }
    }
}

/// The values and the factors after the first `k` places were filled, each
/// with the largest value left, the columns of `u` and the rows of `v_t`
/// following their values.
pub open spec fn sorted_prefix<T: ComplexField>(
    values: Seq<T::Real>,
    u: Seq<Seq<T>>,
    v_t: Seq<Seq<T>>,
    f: Flags,
    k: nat,
) -> (Seq<T::Real>, Seq<Seq<T>>, Seq<Seq<T>>)
    decreases k,
{
    if k == 0 {
        (values, u, v_t)
    } else {
        let (v, a, b) = sorted_prefix(values, u, v_t, f, (k - 1) as nat);
        let p = max_index(v, k - 1, v.len() as int);
        (
            v.update(k - 1, v[p]).update(p, v[k - 1]),
            if f.compute_u {
                swap_columns(a, k - 1, p)
            } else {
                a
            },
            if f.compute_v {
                swap_rows(b, k - 1, p)
            } else {
                b
            },
        )
    }
}

fn find_max<R: RealField>(v: &Vec<R>, from: usize) -> (p: usize)
    requires
        from < v@.len(),
    ensures
        p == max_index(v@, from as int, v@.len() as int),
        from <= p < v@.len(),
{
    let n = v.len();
    let mut best = from;
    let mut i: usize = from + 1;
    while i < n
        invariant
            from < i <= n,
            n == v@.len(),
            from <= best < i,
            best == max_index(v@, from as int, i as int),
        decreases n - i,
    {
        if v[best].lt(v[i]) {
            best = i;
        }
        i += 1;
    }
    best
}

fn sort_descending<T: ComplexField>(
    values: &mut Vec<T::Real>,
    u: &mut Matrix<T>,
    v_t: &mut Matrix<T>,
    f: Flags,
)
    requires
        f.compute_u ==> old(u).cols() == old(values)@.len(),
        f.compute_v ==> old(v_t).rows() == old(values)@.len(),
    ensures
        (final(values)@, final(u)@, final(v_t)@) == sorted_prefix(
            old(values)@,
            old(u)@,
            old(v_t)@,
            f,
            old(values)@.len(),
        ),
        final(values)@.len() == old(values)@.len(),
        final(u).rows() == old(u).rows(),
        final(u).cols() == old(u).cols(),
        final(v_t).rows() == old(v_t).rows(),
        final(v_t).cols() == old(v_t).cols(),
        non_negative(old(values)@) ==> non_negative(final(values)@),
        strict_weak_order::<T::Real>() ==> descending(final(values)@),
{
    let ghost v0 = values@;
    let ghost u0 = u@;
    let ghost w0 = v_t@;
    let n = values.len();
    let mut i: usize = 0;
    while i < n
        invariant
            i <= n,
            n == v0.len(),
            values@.len() == n,
            f.compute_u ==> u.cols() == n,
            f.compute_v ==> v_t.rows() == n,
            u.rows() == old(u).rows(),
            u.cols() == old(u).cols(),
            v_t.rows() == old(v_t).rows(),
            v_t.cols() == old(v_t).cols(),
            (values@, u@, v_t@) == sorted_prefix(v0, u0, w0, f, i as nat),
            non_negative(v0) ==> non_negative(values@),
            strict_weak_order::<T::Real>() ==> forall|a: int, b: int|
                0 <= a < i && a < b < n ==> !(#[trigger] values@[a]).spec_lt(#[trigger] values@[b]),
        decreases n - i,
    {
        let p = find_max(values, i);
        let ghost before = values@;
        proof {
            if strict_weak_order::<T::Real>() {
                lemma_max_index_dominates(before, i as int, n as int);
            }
        }
        let a = values[i];
        let b = values[p];
        values.set(i, b);
        values.set(p, a);
        if f.compute_u {
            u.swap_columns(i, p);
        }
        if f.compute_v {
            v_t.swap_rows(i, p);
        }
        proof {
            if strict_weak_order::<T::Real>() {
                assert forall|x: int, y: int| 0 <= x < i + 1 && x < y < n implies !(
                #[trigger] values@[x]).spec_lt(#[trigger] values@[y]) by {
                    let src = if y == i {
                        p as int
                    } else if y == p {
                        i as int
                    } else {
                        y
                    };
                    assert(values@[y] == before[src]);
                    if x < i {
                        assert(values@[x] == before[x]);
                        assert(!before[x].spec_lt(before[src]));
                    } else {
                        assert(values@[x] == before[p as int]);
                        assert(!before[p as int].spec_lt(before[src]));
                    }
                }
            }
            if non_negative(v0) {
                assert forall|k: int| 0 <= k < n implies !(#[trigger] values@[k]).spec_lt(
                    T::Real::spec_zero(),
                ) by {
                    let src = if k == i {
                        p as int
                    } else if k == p {
                        i as int
                    } else {
                        k
                    };
                    assert(values@[k] == before[src]);
                }
            }
        }
        i += 1;
    }
}

/// The left factor, the singular values and the transposed right factor
/// that the decomposition of `m`, a matrix of `cols` columns, gives with
/// tolerance `eps` and at most `max_niter` iterations, if it gives any. A
/// factor that is not asked for is empty. `m` is normalized and reduced to
/// bidiagonal form, the iteration runs, the values are scaled back and made
/// non-negative, and they are sorted, the largest first.
pub open spec fn decomposed<T: ComplexField>(
    m: Seq<Seq<T>>,
    cols: nat,
    compute_u: bool,
    compute_v: bool,
    eps: T::Real,
    max_niter: usize,
) -> Option<(Seq<T::Real>, Seq<Seq<T>>, Seq<Seq<T>>)> {
    let rows = m.len();
    let dim = if rows <= cols {
        rows
    } else {
        cols
    };
    let f = Flags { upper: rows >= cols, compute_u, compute_v };
    let top = amax(m, false, rows);
    let b = bidiagonal_run(normalized(m, false), f.upper, dim);
    let left = if f.upper {
        b.diag
    } else {
        b.off
    };
    let right = if f.upper {
        b.off
    } else {
        b.diag
    };
    let first = SvdState {
        diag: moduli(b.diag),
        off: moduli(b.off),
        u: if compute_u {
            u_run(b.a, left, dim, f.upper, reflection_counts(dim, f.upper).0)
        } else {
            Seq::empty()
        },
        v_t: if compute_v {
            v_t_run(b.a, right, dim, cols, f.upper, reflection_counts(dim, f.upper).1)
        } else {
            Seq::empty()
        },
    };
    let last = if dim == 0 {
        Some(first)
    } else {
        let (s, e, cleared) = svd_delimit(first, f, (dim - 1) as nat, eps);
        svd_iterate(cleared, f, s, e, eps, budget(max_niter))
    };
    match last {
        None => None,
        Some(st) => {
            let values = scaled_reals(st.diag, top);
            Some(sorted_prefix(absolute(values), flipped(st.u, values, compute_u), st.v_t, f, dim))
        },
    }
}

/// The singular value decomposition of a matrix.
pub struct SVD<T: ComplexField> {
    /// The left-singular vectors, one in each column, if they were asked
    /// for.
    pub u: Option<Matrix<T>>,
    /// The right-singular vectors, one in each row, if they were asked for.
    pub v_t: Option<Matrix<T>>,
    /// The singular values, the largest first.
    pub singular_values: Vec<T::Real>,
}

impl<T: ComplexField> SVD<T> {
    /// Whether `self` holds what `expected` describes.
    pub open spec fn holds(
        &self,
        expected: (Seq<T::Real>, Seq<Seq<T>>, Seq<Seq<T>>),
        compute_u: bool,
        compute_v: bool,
    ) -> bool {
        &&& self.singular_values@ == expected.0
        &&& self.u.is_some() == compute_u
        &&& self.v_t.is_some() == compute_v
        &&& compute_u ==> self.u.unwrap()@ == expected.1
        &&& compute_v ==> self.v_t.unwrap()@ == expected.2
    }

    /// The dimensions of the decomposition of a matrix of `rows` rows and
    /// `cols` columns.
    pub open spec fn fits(&self, rows: nat, cols: nat) -> bool {
        let dim = if rows <= cols {
            rows
        } else {
            cols
        };
        &&& self.singular_values@.len() == dim
        &&& self.u.is_some() ==> self.u.unwrap().rows() == rows && self.u.unwrap().cols() == dim
        &&& self.v_t.is_some() ==> self.v_t.unwrap().rows() == dim && self.v_t.unwrap().cols()
            == cols
    }

    /// Computes the singular value decomposition of `matrix` with the
    /// default tolerance and no bound on the number of iterations.
    pub fn new(matrix: Matrix<T>, compute_u: bool, compute_v: bool) -> (r: Self)
        requires
            decomposed(
                matrix@,
                matrix.cols(),
                compute_u,
                compute_v,
                T::Real::spec_epsilon(),
                0,
            ).is_some(),
        ensures
            r.holds(
                decomposed(
                    matrix@,
                    matrix.cols(),
                    compute_u,
                    compute_v,
                    T::Real::spec_epsilon(),
                    0,
                ).unwrap(),
                compute_u,
                compute_v,
            ),
            r.fits(matrix.rows(), matrix.cols()),
            negation_flips::<T::Real>() ==> non_negative(r.singular_values@),
            strict_weak_order::<T::Real>() ==> descending(r.singular_values@),
    {
        let r = Self::try_new(matrix, compute_u, compute_v, T::Real::epsilon(), 0);
        r.unwrap()
    }

    /// Computes the singular value decomposition of `matrix`. An entry
    /// counts as zero when it is not above `eps` times its neighbours on
    /// the diagonal. There is no result if `max_niter` iterations did not
    /// suffice; a `max_niter` of zero sets no bound.
    pub fn try_new(
        matrix: Matrix<T>,
        compute_u: bool,
        compute_v: bool,
        eps: T::Real,
        max_niter: usize,
    ) -> (r: Option<Self>)
        ensures
            r.is_some() == decomposed(
                matrix@,
                matrix.cols(),
                compute_u,
                compute_v,
                eps,
                max_niter,
            ).is_some(),
            r.is_some() ==> {
                &&& r.unwrap().holds(
                    decomposed(matrix@, matrix.cols(), compute_u, compute_v, eps, max_niter).unwrap(),
                    compute_u,
                    compute_v,
                )
                &&& r.unwrap().fits(matrix.rows(), matrix.cols())
                &&& negation_flips::<T::Real>() ==> non_negative(r.unwrap().singular_values@)
                &&& strict_weak_order::<T::Real>() ==> descending(r.unwrap().singular_values@)
            },
    {
        let ghost orig = matrix@;
        let ghost expected = decomposed(orig, matrix.cols(), compute_u, compute_v, eps, max_niter);
        let mut work = matrix;
        let nrows = work.nrows();
        let ncols = work.ncols();
        let dim = if nrows <= ncols {
            nrows
        } else {
            ncols
        };
        assert(orig.len() == nrows);
        let top = normalize(&mut work, false);
        let b = Bidiagonal::new(work);
        let f = Flags { upper: b.is_upper_diagonal(), compute_u, compute_v };
        let mut u = if compute_u {
            b.u()
        } else {
            Matrix::filled(0, 0, T::zero())
        };
        let mut v_t = if compute_v {
            b.v_t()
        } else {
            Matrix::filled(0, 0, T::zero())
        };
        proof {
            if !compute_u {
                assert(u@ =~= Seq::empty());
            }
            if !compute_v {
                assert(v_t@ =~= Seq::empty());
            }
        }
        let mut diag = b.diagonal();
        let mut off = b.off_diagonal();
        if dim > 0 {
            let limit: usize = if max_niter == 0 {
                usize::MAX
            } else {
                max_niter
            };
            let ghost first = SvdState::<T> { diag: diag@, off: off@, u: u@, v_t: v_t@ };
            let (s0, e0) = run_delimit(&mut diag, &mut off, &mut u, &mut v_t, f, dim - 1, eps);
            let mut start = s0;
            let mut end = e0;
            let ghost cleared = SvdState::<T> { diag: diag@, off: off@, u: u@, v_t: v_t@ };
            let ghost s0g = s0 as nat;
            let ghost e0g = e0 as nat;
            let mut niter: usize = 0;
            while end != start
                invariant
                    dim >= 1,
                    shaped(diag@, off@, &u, &v_t, f, dim as nat),
                    compute_u ==> u.rows() == nrows && u.cols() == dim,
                    compute_v ==> v_t.rows() == dim && v_t.cols() == ncols,
                    f.compute_u == compute_u,
                    f.compute_v == compute_v,
                    start <= end < dim,
                    niter < limit,
                    limit == budget(max_niter),
                    svd_iterate(
                        SvdState::<T> { diag: diag@, off: off@, u: u@, v_t: v_t@ },
                        f,
                        start as nat,
                        end as nat,
                        eps,
                        (limit - niter) as nat,
                    ) == svd_iterate(cleared, f, s0g, e0g, eps, limit as nat),
                    expected == (match svd_iterate(cleared, f, s0g, e0g, eps, limit as nat) {
                        None => None,
                        Some(st) => {
                            let values = scaled_reals(st.diag, top);
                            Some(
                                sorted_prefix(
                                    absolute(values),
                                    flipped(st.u, values, compute_u),
                                    st.v_t,
                                    f,
                                    dim as nat,
                                ),
                            )
                        },
                    }),
                    expected == decomposed(
                        matrix@,
                        matrix.cols(),
                        compute_u,
                        compute_v,
                        eps,
                        max_niter,
                    ),
                decreases limit - niter,
            {
                let ghost here = SvdState::<T> { diag: diag@, off: off@, u: u@, v_t: v_t@ };
                let ghost end0 = end as nat;
                let subdim = end - start + 1;
                if subdim > 2 {
                    run_sweep(&mut diag, &mut off, &mut u, &mut v_t, f, start, end);
                } else {
                    run_solve_block(&mut diag, &mut off, &mut u, &mut v_t, f, start);
                    end -= 1;
                }
                let (s2, e2) = run_delimit(&mut diag, &mut off, &mut u, &mut v_t, f, end, eps);
                proof {
                    assert(svd_step(here, f, start as nat, end0, eps) == (
                        s2 as nat,
                        e2 as nat,
                        SvdState::<T> { diag: diag@, off: off@, u: u@, v_t: v_t@ },
                    ));
                }
                start = s2;
                end = e2;
                niter += 1;
                if niter == limit {
                    return None;
                }
            }
        }
        scale_reals(&mut diag, top);
        make_non_negative(&mut diag, &mut u, compute_u);
        sort_descending(&mut diag, &mut u, &mut v_t, f);
        Some(
            SVD {
                u: if compute_u {
                    Some(u)
                } else {
                    None
                },
                v_t: if compute_v {
                    Some(v_t)
                } else {
                    None
                },
                singular_values: diag,
            },
        )
    }
}

} // verus!
