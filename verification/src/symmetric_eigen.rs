//! Eigendecomposition of a symmetric (Hermitian) matrix.

use crate::givens::{
    cancel_y, jacobi, rotate_rows, rotated_rows, sign, spec_cancel_y, spec_jacobi, spec_sign,
};
use crate::hessenberg::reduction_steps;
use crate::householder::assembled_q;
use crate::matrix::Matrix;
use crate::scalar::{spec_two, two, ComplexField, RealField};
use crate::scaling::{amax, budget, normalize, normalized, scale_reals, scaled_reals};
use crate::symmetric_tridiagonal::{moduli, real_diagonal, tridiagonal_run, SymmetricTridiagonal};
use vstd::prelude::*;

verus! {

/// The real number one half.
pub open spec fn spec_half<R: RealField>() -> R {
    R::spec_one().spec_over(spec_two::<R>())
}

/// The real number one half.
pub fn half<R: RealField>() -> (r: R)
    ensures
        r == spec_half::<R>(),
{
    R::one().over(two::<R>())
}

/// The eigenvalue of the symmetric matrix `[[tmm, tmn], [tmn, tnn]]` that
/// is closest to `tnn`.
pub open spec fn spec_wilkinson_shift<R: RealField>(tmm: R, tnn: R, tmn: R) -> R {
    let sq = tmn.spec_times(tmn);
    if !sq.spec_is_zero() {
        let d = tmm.spec_minus(tnn).spec_times(spec_half::<R>());
        tnn.spec_minus(
            sq.spec_over(
                d.spec_plus(spec_sign(d).spec_times(d.spec_times(d).spec_plus(sq).spec_sqrt())),
            ),
        )
    } else {
        tnn
    }
}

/// The eigenvalue of the symmetric matrix `[[tmm, tmn], [tmn, tnn]]` that
/// is closest to `tnn`.
pub fn wilkinson_shift<R: RealField>(tmm: R, tnn: R, tmn: R) -> (r: R)
    ensures
        r == spec_wilkinson_shift(tmm, tnn, tmn),
{
    let sq = tmn.times(tmn);
    if !sq.is_zero() {
        let d = tmm.minus(tnn).times(half::<R>());
        tnn.minus(sq.over(d.plus(sign(d).times(d.times(d).plus(sq).sqrt()))))
    } else {
        tnn
    }
}

/// Whether `x` is not above `eps` times the sum of the absolute values of
/// `a` and `b`.
pub open spec fn negligible<R: RealField>(x: R, a: R, b: R, eps: R) -> bool {
    x.spec_abs().spec_le(eps.spec_times(a.spec_abs().spec_plus(b.spec_abs())))
}

/// Whether `x` is above `eps` times the sum of the absolute values of `a`
/// and `b`.
pub open spec fn exceeds<R: RealField>(x: R, a: R, b: R, eps: R) -> bool {
    eps.spec_times(a.spec_abs().spec_plus(b.spec_abs())).spec_lt(x.spec_abs())
}

/// Whether `x` is not above `eps` times the sum of the absolute values of
/// `a` and `b`.
pub fn is_negligible<R: RealField>(x: R, a: R, b: R, eps: R) -> (r: bool)
    ensures
        r == negligible(x, a, b, eps),
{
    x.abs().le(eps.times(a.abs().plus(b.abs())))
}

/// Whether `x` is above `eps` times the sum of the absolute values of `a`
/// and `b`.
pub fn is_exceeding<R: RealField>(x: R, a: R, b: R, eps: R) -> (r: bool)
    ensures
        r == exceeds(x, a, b, eps),
{
    eps.times(a.abs().plus(b.abs())).lt(x.abs())
}

/// The end of the unreduced block: going up from `n`, the first index whose
/// off-diagonal entry above it counts.
pub open spec fn delimit_end<R: RealField>(diag: Seq<R>, off: Seq<R>, n: nat, eps: R) -> nat
    decreases n,
{
    if n == 0 {
        0
    } else if exceeds(off[n - 1], diag[n as int], diag[n - 1], eps) {
        n
    } else {
        delimit_end(diag, off, (n - 1) as nat, eps)
    }
}

/// The start of the unreduced block: going up from `s`, the first index
/// whose off-diagonal entry above it is zero or negligible; that entry is
/// set to zero.
pub open spec fn delimit_start<R: RealField>(diag: Seq<R>, off: Seq<R>, s: nat, eps: R) -> (
    nat,
    Seq<R>,
)
    decreases s,
{
    if s == 0 {
        (0, off)
    } else if off[s - 1].spec_is_zero() || negligible(off[s - 1], diag[s as int], diag[s - 1], eps) {
        (s, off.update(s - 1, R::spec_zero()))
    } else {
        delimit_start(diag, off, (s - 1) as nat, eps)
    }
}

/// The block that is left to reduce, at or above `end`: its start, its end
/// and the off-diagonal with the decoupling entry cleared.
pub open spec fn delimit<R: RealField>(diag: Seq<R>, off: Seq<R>, end: nat, eps: R) -> (
    nat,
    nat,
    Seq<R>,
) {
    let n = delimit_end(diag, off, end, eps);
    if n == 0 {
        (0, 0, off)
    } else {
        let (s, cleared) = delimit_start(diag, off, (n - 1) as nat, eps);
        (s, n, cleared)
    }
}

/// Finds the block that is left to reduce, at or above `end`.
pub fn delimit_subproblem<R: RealField>(diag: &Vec<R>, off: &mut Vec<R>, end: usize, eps: R) -> (r:
    (usize, usize))
    requires
        end < diag@.len(),
        old(off)@.len() + 1 == diag@.len(),
    ensures
        (r.0 as nat, r.1 as nat, final(off)@) == delimit(diag@, old(off)@, end as nat, eps),
        r.0 <= r.1 <= end,
        final(off)@.len() == old(off)@.len(),
{
    let ghost off0 = off@;
    let mut n = end;
    let mut go = true;
    while n > 0 && go
        invariant
            n <= end,
            end < diag@.len(),
            off@ == off0,
            off0.len() + 1 == diag@.len(),
            delimit_end(diag@, off0, n as nat, eps) == delimit_end(diag@, off0, end as nat, eps),
            !go ==> n > 0 && exceeds(off0[n - 1], diag@[n as int], diag@[n - 1], eps),
        decreases n + (if go { 1usize } else { 0usize }),
    {
        if is_exceeding(off[n - 1], diag[n], diag[n - 1], eps) {
            go = false;
        } else {
            n -= 1;
        }
    }
    if n == 0 {
        return (0, 0);
    }
    let mut s = n - 1;
    go = true;
    while s > 0 && go
        invariant
            s < n <= end,
            end < diag@.len(),
            off@.len() == off0.len(),
            off0.len() + 1 == diag@.len(),
            go ==> off@ == off0 && delimit_start(diag@, off0, s as nat, eps) == delimit_start(
                diag@,
                off0,
                (n - 1) as nat,
                eps,
            ),
            !go ==> (s as nat, off@) == delimit_start(diag@, off0, (n - 1) as nat, eps),
        decreases s + (if go { 1usize } else { 0usize }),
    {
        let m = s - 1;
        if off[m].is_zero() || is_negligible(off[m], diag[s], diag[m], eps) {
            off.set(m, R::zero());
            go = false;
        } else {
            s -= 1;
        }
    }
    (s, n)
}

/// What the iteration holds between two steps: the tridiagonal matrix, the
/// accumulated eigenvectors and the block to reduce next.
pub struct EigenState<T: ComplexField> {
    /// The diagonal.
    pub diag: Seq<T::Real>,
    /// The off-diagonal.
    pub off: Seq<T::Real>,
    /// The rows of the eigenvector matrix.
    pub q: Seq<Seq<T>>,
    /// The first index of the block.
    pub start: int,
    /// The last index of the block.
    pub end: int,
}

/// One rotation of the sweep, at position `i`, chasing the bulge `(x, y)`,
/// and the rotations after it up to `n`. The sweep ends early if a bulge
/// has nothing to cancel.
pub open spec fn sweep<T: ComplexField>(
    st: EigenState<T>,
    x: T::Real,
    y: T::Real,
    i: int,
    n: int,
) -> EigenState<T>
    decreases n - i,
{
    if i >= n {
        st
    } else {
        match spec_cancel_y(x, y) {
            None => st,
            Some((c, s, norm)) => {
                let off1 = if i > st.start {
                    st.off.update(i - 1, norm)
                } else {
                    st.off
                };
                let mii = st.diag[i];
                let mjj = st.diag[i + 1];
                let mij = off1[i];
                let cc = c.spec_times(c);
                let ss = s.spec_times(s);
                let cs = c.spec_times(s);
                let b = cs.spec_times(spec_two::<T::Real>()).spec_times(mij);
                let diag2 = st.diag.update(
                    i,
                    cc.spec_times(mii).spec_plus(ss.spec_times(mjj)).spec_minus(b),
                ).update(i + 1, ss.spec_times(mii).spec_plus(cc.spec_times(mjj)).spec_plus(b));
                let off2 = off1.update(
                    i,
                    cs.spec_times(mii.spec_minus(mjj)).spec_plus(
                        mij.spec_times(cc.spec_minus(ss)),
                    ),
                );
                let q2 = rotated_rows(
                    st.q,
                    c,
                    T::spec_from_real(s).spec_neg(),
                    i,
                    i + 1,
                    0,
                    st.q.len() as int,
                );
                if i != n - 1 {
                    sweep(
                        EigenState {
                            diag: diag2,
                            off: off2.update(i + 1, off2[i + 1].spec_times(c)),
                            q: q2,
                            start: st.start,
                            end: st.end,
                        },
                        off2[i],
                        s.spec_neg().spec_times(off2[i + 1]),
                        i + 1,
                        n,
                    )
                } else {
                    sweep(
                        EigenState { diag: diag2, off: off2, q: q2, start: st.start, end: st.end },
                        x,
                        y,
                        i + 1,
                        n,
                    )
                }
            },
        }
    }
}

/// A block of more than two rows: one implicitly shifted sweep; the block
/// shrinks by one if its last off-diagonal entry has become negligible.
pub open spec fn sweep_block<T: ComplexField>(st: EigenState<T>, eps: T::Real) -> EigenState<T> {
    let m = st.end - 1;
    let n = st.end;
    let x = st.diag[st.start].spec_minus(
        spec_wilkinson_shift(st.diag[m], st.diag[n], st.off[m]),
    );
    let swept = sweep(st, x, st.off[st.start], st.start, n);
    EigenState {
        diag: swept.diag,
        off: swept.off,
        q: swept.q,
        start: st.start,
        end: if negligible(swept.off[m], swept.diag[m], swept.diag[n], eps) {
            st.end - 1
        } else {
            st.end
        },
    }
}

/// A block of two rows: it is diagonalized by one rotation.
pub open spec fn solve_block<T: ComplexField>(st: EigenState<T>) -> EigenState<T> {
    let s = st.start;
    let (c, sn, t) = spec_jacobi(st.diag[s], st.diag[s + 1], st.off[s]);
    let shift = t.spec_times(st.off[s]);
    EigenState {
        diag: st.diag.update(s, st.diag[s].spec_minus(shift)).update(
            s + 1,
            st.diag[s + 1].spec_plus(shift),
        ),
        off: st.off,
        q: rotated_rows(st.q, c, T::spec_from_real(sn).spec_neg(), s, s + 1, 0, st.q.len() as int),
        start: s,
        end: st.end - 1,
    }
}

/// One step of the iteration: the block is swept or solved, and the block
/// to reduce next is found.
pub open spec fn eigen_step<T: ComplexField>(st: EigenState<T>, eps: T::Real) -> EigenState<T> {
    let subdim = st.end - st.start + 1;
    let worked = if subdim > 2 {
        sweep_block(st, eps)
    } else {
        solve_block(st)
    };
    let (s, e, off) = delimit(worked.diag, worked.off, worked.end as nat, eps);
    EigenState { diag: worked.diag, off, q: worked.q, start: s as int, end: e as int }
}

/// The state in which the iteration ends when it may take `budget` steps,
/// or nothing if the last of them is taken before the block is empty.
pub open spec fn eigen_iterate<T: ComplexField>(
    st: EigenState<T>,
    eps: T::Real,
    budget: nat,
) -> Option<EigenState<T>>
    decreases budget,
{
    if st.end == st.start {
        Some(st)
    } else if budget <= 1 {
        None
    } else {
        eigen_iterate(eigen_step(st, eps), eps, (budget - 1) as nat)
    }
}

/// The eigenvectors and eigenvalues that the decomposition of `m` gives
/// with tolerance `eps` and at most `max_niter` iterations, if it gives
/// any: `m` is normalized and reduced to tridiagonal form, the iteration
/// runs, and the eigenvalues are scaled back.
pub open spec fn decomposed<T: ComplexField>(m: Seq<Seq<T>>, eps: T::Real, max_niter: usize) -> Option<
    (Seq<Seq<T>>, Seq<T::Real>),
> {
    let top = amax(m, true, m.len());
    let (packed, signed_off) = tridiagonal_run(normalized(m, true), reduction_steps(m.len()));
    let q = assembled_q(packed, signed_off, signed_off.len());
    let diag = real_diagonal(packed);
    if m.len() <= 1 {
        Some((q, scaled_reals(diag, top)))
    } else {
        let (s, e, off) = delimit(diag, moduli(signed_off), (m.len() - 1) as nat, eps);
        match eigen_iterate(
            EigenState { diag, off, q, start: s as int, end: e as int },
            eps,
            budget(max_niter),
        ) {
            None => None,
            Some(st) => Some((st.q, scaled_reals(st.diag, top))),
        }
    }
}

fn run_sweep<T: ComplexField>(
    diag: &mut Vec<T::Real>,
    off: &mut Vec<T::Real>,
    q: &mut Matrix<T>,
    start: usize,
    end: usize,
    x: T::Real,
    y: T::Real,
)
    requires
        start < end < old(diag)@.len(),
        old(off)@.len() + 1 == old(diag)@.len(),
        old(q).rows() == old(diag)@.len(),
        old(q).cols() == old(diag)@.len(),
    ensures
        final(diag)@.len() == old(diag)@.len(),
        final(off)@.len() == old(off)@.len(),
        final(q).rows() == old(q).rows(),
        final(q).cols() == old(q).cols(),
        sweep(
            EigenState {
                diag: old(diag)@,
                off: old(off)@,
                q: old(q)@,
                start: start as int,
                end: end as int,
            },
            x,
            y,
            start as int,
            end as int,
        ) == (EigenState {
            diag: final(diag)@,
            off: final(off)@,
            q: final(q)@,
            start: start as int,
            end: end as int,
        }),
{
    let dim = diag.len();
    let ghost target = sweep(
        EigenState::<T> { diag: diag@, off: off@, q: q@, start: start as int, end: end as int },
        x,
        y,
        start as int,
        end as int,
    );
    let n = end;
    let mut i = start;
    let mut x = x;
    let mut y = y;
    let mut go = true;
    while i < n && go
        invariant
            start <= i <= n,
            n == end,
            end < dim,
            diag@.len() == dim,
            off@.len() + 1 == dim,
            q.rows() == dim,
            q.cols() == dim,
            go ==> sweep(
                EigenState::<T> {
                    diag: diag@,
                    off: off@,
                    q: q@,
                    start: start as int,
                    end: end as int,
                },
                x,
                y,
                i as int,
                n as int,
            ) == target,
            !go ==> target == (EigenState::<T> {
                diag: diag@,
                off: off@,
                q: q@,
                start: start as int,
                end: end as int,
            }),
        decreases n - i + (if go { 1int } else { 0int }),
    {
        match cancel_y(x, y) {
            None => {
                go = false;
            },
            Some((c, s, norm)) => {
                if i > start {
                    off.set(i - 1, norm);
                }
                let mii = diag[i];
                let mjj = diag[i + 1];
                let mij = off[i];
                let cc = c.times(c);
                let ss = s.times(s);
                let cs = c.times(s);
                let b = cs.times(two::<T::Real>()).times(mij);
                diag.set(i, cc.times(mii).plus(ss.times(mjj)).minus(b));
                diag.set(i + 1, ss.times(mii).plus(cc.times(mjj)).plus(b));
                off.set(i, cs.times(mii.minus(mjj)).plus(mij.times(cc.minus(ss))));
                if i != n - 1 {
                    x = off[i];
                    y = s.neg().times(off[i + 1]);
                    let v = off[i + 1].times(c);
                    off.set(i + 1, v);
                }
                assert(q@.len() == dim);
                rotate_rows(q, c, T::from_real(s).neg(), i, i + 1, 0, dim);
                i += 1;
            },
        }
    }
}

/// The eigendecomposition of a symmetric matrix.
pub struct SymmetricEigen<T: ComplexField> {
    /// The eigenvectors, one in each column.
    pub eigenvectors: Matrix<T>,
    /// The eigenvalues, in no particular order.
    pub eigenvalues: Vec<T::Real>,
}

impl<T: ComplexField> SymmetricEigen<T> {
    /// Whether the decomposition of `m` ends with the default tolerance and
    /// no bound on the number of iterations.
    pub open spec fn converges(m: Seq<Seq<T>>) -> bool {
        decomposed(m, T::Real::spec_epsilon(), 0).is_some()
    }

    /// Computes the eigendecomposition of `m`, of which only the part on
    /// and below the diagonal is read, with the default tolerance and no
    /// bound on the number of iterations.
    pub fn new(m: Matrix<T>) -> (r: Self)
        requires
            m.is_square(),
            Self::converges(m@),
        ensures
            Some((r.eigenvectors@, r.eigenvalues@)) == decomposed(m@, T::Real::spec_epsilon(), 0),
            r.eigenvectors.rows() == m.rows(),
            r.eigenvectors.cols() == m.rows(),
            r.eigenvalues@.len() == m.rows(),
    {
        let r = Self::try_new(m, T::Real::epsilon(), 0);
        r.unwrap()
    }

    /// Computes the eigendecomposition of `m`, of which only the part on
    /// and below the diagonal is read. An entry counts as zero when it is
    /// not above `eps` times its neighbours on the diagonal. There is no
    /// result if `max_niter` iterations did not suffice; a `max_niter` of
    /// zero sets no bound.
    pub fn try_new(m: Matrix<T>, eps: T::Real, max_niter: usize) -> (r: Option<Self>)
        requires
            m.is_square(),
        ensures
            r.is_some() == decomposed(m@, eps, max_niter).is_some(),
            r.is_some() ==> {
                &&& Some((r.unwrap().eigenvectors@, r.unwrap().eigenvalues@)) == decomposed(
                    m@,
                    eps,
                    max_niter,
                )
                &&& r.unwrap().eigenvectors.rows() == m.rows()
                &&& r.unwrap().eigenvectors.cols() == m.rows()
                &&& r.unwrap().eigenvalues@.len() == m.rows()
            },
    {
        let ghost orig = m@;
        let mut work = m;
        let dim = work.nrows();
        assert(orig.len() == dim);
        let top = normalize(&mut work, true);
        let tri = SymmetricTridiagonal::new(work);
        let (q, diag, off) = tri.unpack();
        let mut q = q;
        let mut diag = diag;
        let mut off = off;
        if dim <= 1 {
            scale_reals(&mut diag, top);
            return Some(SymmetricEigen { eigenvectors: q, eigenvalues: diag });
        }
        let limit: usize = if max_niter == 0 {
            usize::MAX
        } else {
            max_niter
        };
        let (s0, e0) = delimit_subproblem(&diag, &mut off, dim - 1, eps);
        let mut start = s0;
        let mut end = e0;
        let ghost first = EigenState::<T> {
            diag: diag@,
            off: off@,
            q: q@,
            start: start as int,
            end: end as int,
        };
        let mut niter: usize = 0;
        while end != start
            invariant
                dim >= 2,
                diag@.len() == dim,
                off@.len() + 1 == dim,
                q.rows() == dim,
                q.cols() == dim,
                start <= end < dim,
                niter < limit,
                limit == budget(max_niter),
                eigen_iterate(
                    EigenState::<T> {
                        diag: diag@,
                        off: off@,
                        q: q@,
                        start: start as int,
                        end: end as int,
                    },
                    eps,
                    (limit - niter) as nat,
                ) == eigen_iterate(first, eps, limit as nat),
                decomposed(orig, eps, max_niter) == (match eigen_iterate(first, eps, limit as nat) {
                    None => None,
                    Some(st) => Some((st.q, scaled_reals(st.diag, top))),
                }),
                orig.len() == dim,
                orig == m@,
            decreases limit - niter,
        {
            let ghost here = EigenState::<T> {
                diag: diag@,
                off: off@,
                q: q@,
                start: start as int,
                end: end as int,
            };
            let subdim = end - start + 1;
            if subdim > 2 {
                let sm = end - 1;
                let n = end;
                let x = diag[start].minus(wilkinson_shift(diag[sm], diag[n], off[sm]));
                let y = off[start];
                run_sweep(&mut diag, &mut off, &mut q, start, end, x, y);
                if is_negligible(off[sm], diag[sm], diag[n], eps) {
                    end -= 1;
                }
            } else {
                let (c, sn, t) = jacobi(diag[start], diag[start + 1], off[start]);
                let shift = t.times(off[start]);
                let v0 = diag[start].minus(shift);
                let v1 = diag[start + 1].plus(shift);
                diag.set(start, v0);
                diag.set(start + 1, v1);
                assert(q@.len() == dim);
                rotate_rows(&mut q, c, T::from_real(sn).neg(), start, start + 1, 0, dim);
                end -= 1;
            }
            let (s2, e2) = delimit_subproblem(&diag, &mut off, end, eps);
            start = s2;
            end = e2;
            proof {
                assert(eigen_step(here, eps) == (EigenState::<T> {
                    diag: diag@,
                    off: off@,
                    q: q@,
                    start: start as int,
                    end: end as int,
                }));
            }
            niter += 1;
            if niter == limit {
                return None;
            }
        }
        scale_reals(&mut diag, top);
        Some(SymmetricEigen { eigenvectors: q, eigenvalues: diag })
    }
}

} // verus!
