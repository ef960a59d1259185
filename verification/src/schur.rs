//! Schur decomposition of a square matrix.

use crate::givens::{rotate, rotate_rows, rotated, rotated_rows, rotation, spec_rotation};
use crate::hessenberg::{h_entry, hessenberg_run, reduction_steps, Hessenberg};
use crate::householder::{
    assembled_q, reflect_columns, reflect_rows, reflected_columns, reflected_rows,
    reflection_axis, reflection_axis_mut,
};
use crate::matrix::{identity, with_entry, Matrix};
use crate::scalar::{ComplexField, RealField};
use crate::scaling::{amax, budget, normalize, normalized, scale_mut, scaled};
use crate::symmetric_eigen::{half, spec_half};
use vstd::prelude::*;

verus! {

/// Whether `x` is not above `eps` times the sum of the absolute values of
/// `a` and `b`.
pub open spec fn negligible_entry<T: ComplexField>(x: T, a: T, b: T, eps: T::Real) -> bool {
    x.spec_modulus().spec_le(eps.spec_times(a.spec_modulus().spec_plus(b.spec_modulus())))
}

/// Whether `x` is not above `eps` times the sum of the absolute values of
/// `a` and `b`.
pub fn is_negligible_entry<T: ComplexField>(x: T, a: T, b: T, eps: T::Real) -> (r: bool)
    ensures
        r == negligible_entry(x, a, b, eps),
{
    x.modulus().le(eps.times(a.modulus().plus(b.modulus())))
}

/// The end of the unreduced block, going up from `n`: subdiagonal entries
/// that count as zero are cleared on the way.
pub open spec fn schur_delimit_end<T: ComplexField>(t: Seq<Seq<T>>, n: nat, eps: T::Real) -> (
    nat,
    Seq<Seq<T>>,
)
    decreases n,
{
    if n == 0 {
        (0, t)
    } else {
        let m = n - 1;
        if negligible_entry(t[n as int][m], t[n as int][n as int], t[m][m], eps) {
            schur_delimit_end(with_entry(t, n as int, m, T::spec_zero()), m as nat, eps)
        } else {
            (n, t)
        }
    }
}

/// The start of the unreduced block, going up from `s`: the first
/// subdiagonal entry that counts as zero is cleared.
pub open spec fn schur_delimit_start<T: ComplexField>(t: Seq<Seq<T>>, s: nat, eps: T::Real) -> (
    nat,
    Seq<Seq<T>>,
)
    decreases s,
{
    if s == 0 {
        (0, t)
    } else {
        let m = s - 1;
        if t[s as int][m].spec_is_zero() || negligible_entry(
            t[s as int][m],
            t[s as int][s as int],
            t[m][m],
            eps,
        ) {
            (s, with_entry(t, s as int, m, T::spec_zero()))
        } else {
            schur_delimit_start(t, m as nat, eps)
        }
    }
}

/// The block that is left to reduce, at or above `end`, and the matrix with
/// the entries cleared that count as zero.
pub open spec fn schur_delimit<T: ComplexField>(t: Seq<Seq<T>>, end: nat, eps: T::Real) -> (
    nat,
    nat,
    Seq<Seq<T>>,
) {
    let (n, cleared) = schur_delimit_end(t, end, eps);
    if n == 0 {
        (0, 0, cleared)
    } else {
        let (s, done) = schur_delimit_start(cleared, (n - 1) as nat, eps);
        (s, n, done)
    }
}

fn run_delimit<T: ComplexField>(t: &mut Matrix<T>, end: usize, eps: T::Real) -> (r: (usize, usize))
    requires
        old(t).is_square(),
        end < old(t).rows(),
    ensures
        final(t).rows() == old(t).rows(),
        final(t).cols() == old(t).cols(),
        r.0 <= r.1 <= end,
        schur_delimit(old(t)@, end as nat, eps) == (r.0 as nat, r.1 as nat, final(t)@),
{
    let ghost first = t@;
    let dim = t.nrows();
    let mut n = end;
    let mut go = true;
    while n > 0 && go
        invariant
            n <= end,
            end < dim,
            t.rows() == dim,
            t.cols() == dim,
            go ==> schur_delimit_end(t@, n as nat, eps) == schur_delimit_end(
                first,
                end as nat,
                eps,
            ),
            !go ==> n > 0 && schur_delimit_end(first, end as nat, eps) == (n as nat, t@),
        decreases n + (if go { 1int } else { 0int }),
    {
        let m = n - 1;
        assert(t@[n as int][m as int] == t.at(n as int, m as int));
        assert(t@[n as int][n as int] == t.at(n as int, n as int));
        assert(t@[m as int][m as int] == t.at(m as int, m as int));
        if is_negligible_entry(t.get(n, m), t.get(n, n), t.get(m, m), eps) {
            t.set(n, m, T::zero());
            n -= 1;
        } else {
            go = false;
        }
    }
    if n == 0 {
        return (0, 0);
    }
    let ghost cleared = t@;
    let mut s = n - 1;
    go = true;
    while s > 0 && go
        invariant
            s < n <= end,
            end < dim,
            t.rows() == dim,
            t.cols() == dim,
            go ==> t@ == cleared && schur_delimit_start(cleared, s as nat, eps)
                == schur_delimit_start(cleared, (n - 1) as nat, eps),
            !go ==> schur_delimit_start(cleared, (n - 1) as nat, eps) == (s as nat, t@),
        decreases s + (if go { 1int } else { 0int }),
    {
        let m = s - 1;
        assert(t@[s as int][m as int] == t.at(s as int, m as int));
        assert(t@[s as int][s as int] == t.at(s as int, s as int));
        assert(t@[m as int][m as int] == t.at(m as int, m as int));
        let x = t.get(s, m);
        if x.is_zero() || is_negligible_entry(x, t.get(s, s), t.get(m, m), eps) {
            t.set(s, m, T::zero());
            go = false;
        } else {
            s -= 1;
        }
    }
    (s, n)
}

/// The two eigenvalues of the matrix `[[h00, h01], [h10, h11]]`, where the
/// field has them.
pub open spec fn spec_eigenvalues_2x2<T: ComplexField>(h00: T, h10: T, h01: T, h11: T) -> Option<
    (T, T),
> {
    let val = h00.spec_minus(h11).spec_scale(spec_half::<T::Real>());
    match h10.spec_times(h01).spec_plus(val.spec_times(val)).spec_try_sqrt() {
        None => None,
        Some(root) => {
            let half_tra = h00.spec_plus(h11).spec_scale(spec_half::<T::Real>());
            Some((half_tra.spec_plus(root), half_tra.spec_minus(root)))
        },
    }
}

/// The two eigenvalues of a 2 by 2 matrix, where the field has them.
pub fn eigenvalues_2x2<T: ComplexField>(h00: T, h10: T, h01: T, h11: T) -> (r: Option<(T, T)>)
    ensures
        r == spec_eigenvalues_2x2(h00, h10, h01, h11),
{
    let val = h00.minus(h11).scale(half::<T::Real>());
    match h10.times(h01).plus(val.times(val)).try_sqrt() {
        None => None,
        Some(root) => {
            let half_tra = h00.plus(h11).scale(half::<T::Real>());
            Some((half_tra.plus(root), half_tra.minus(root)))
        },
    }
}

/// The rotation that brings the matrix `[[h00, h01], [h10, h11]]` to upper
/// triangular form; nothing if it is upper triangular already or has no
/// eigenvalues in the field.
pub open spec fn spec_basis_2x2<T: ComplexField>(h00: T, h10: T, h01: T, h11: T) -> Option<
    (T::Real, T),
> {
    if h10.spec_is_zero() {
        None
    } else {
        match spec_eigenvalues_2x2(h00, h10, h01, h11) {
            None => None,
            Some((e1, e2)) => {
                let x1 = e1.spec_minus(h11);
                let x2 = e2.spec_minus(h11);
                if x2.spec_modulus().spec_lt(x1.spec_modulus()) {
                    Some(spec_rotation(x1, h10))
                } else {
                    Some(spec_rotation(x2, h10))
                }
            },
        }
    }
}

/// The rotation that brings a 2 by 2 matrix to upper triangular form.
pub fn basis_2x2<T: ComplexField>(h00: T, h10: T, h01: T, h11: T) -> (r: Option<(T::Real, T)>)
    ensures
        r == spec_basis_2x2(h00, h10, h01, h11),
{
    if h10.is_zero() {
        None
    } else {
        match eigenvalues_2x2(h00, h10, h01, h11) {
            None => None,
            Some((e1, e2)) => {
                let x1 = e1.minus(h11);
                let x2 = e2.minus(h11);
                if x2.modulus().lt(x1.modulus()) {
                    Some(rotation(x1, h10))
                } else {
                    Some(rotation(x2, h10))
                }
            },
        }
    }
}

/// What the iteration holds between two steps.
pub struct SchurState<T> {
    /// The rows of the matrix that becomes quasi-triangular.
    pub t: Seq<Seq<T>>,
    /// The rows of the accumulated orthogonal factor.
    pub q: Seq<Seq<T>>,
}

/// The vector of the given entries.
pub open spec fn triple<T>(x: T, y: T, z: T) -> Seq<T> {
    Seq::empty().push(x).push(y).push(z)
}

/// The vector of the given entries.
pub open spec fn pair<T>(x: T, y: T) -> Seq<T> {
    Seq::empty().push(x).push(y)
}

/// The smaller of `k + 4` and `end + 1`.
pub open spec fn reach(k: int, end: int) -> int {
    if k + 4 <= end + 1 {
        k + 4
    } else {
        end + 1
    }
}

/// The state after the reflection of three rows at position `k`: the
/// bulge `(x, y, z)` in column `k - 1` is replaced by its norm, and the
/// reflection is applied to the matrix from both sides and to the factor.
pub open spec fn bulge_reflected<T: ComplexField>(
    st: SchurState<T>,
    x: T,
    y: T,
    z: T,
    k: int,
    start: int,
    end: int,
) -> SchurState<T> {
    let (axis, norm, active) = reflection_axis(triple(x, y, z));
    if active {
        let dim = st.t.len() as int;
        let t0 = if k > start {
            with_entry(
                with_entry(with_entry(st.t, k, k - 1, norm), k + 1, k - 1, T::spec_zero()),
                k + 2,
                k - 1,
                T::spec_zero(),
            )
        } else {
            st.t
        };
        let t1 = reflected_columns(t0, axis, T::spec_one(), k, k, dim);
        SchurState {
            t: reflected_rows(t1, axis, T::spec_one(), 0, reach(k, end), k),
            q: reflected_rows(st.q, axis, T::spec_one(), 0, dim, k),
        }
    } else {
        st
    }
}

/// The reflections of three rows from position `k` to `end - 2`, chasing
/// the bulge `(x, y, z)` down the subdiagonal; with the state comes the
/// bulge of two entries that is left at the end.
pub open spec fn chase<T: ComplexField>(
    st: SchurState<T>,
    x: T,
    y: T,
    z: T,
    k: int,
    start: int,
    end: int,
) -> (SchurState<T>, T, T)
    decreases end - 1 - k,
{
    if k >= end - 1 {
        (st, x, y)
    } else {
        let next = bulge_reflected(st, x, y, z, k, start, end);
        chase(
            next,
            next.t[k + 1][k],
            next.t[k + 2][k],
            if k < end - 2 {
                next.t[k + 3][k]
            } else {
                z
            },
            k + 1,
            start,
            end,
        )
    }
}

/// The state after the last reflection of a sweep, of the two rows
/// `end - 1` and `end`.
pub open spec fn last_reflected<T: ComplexField>(
    st: SchurState<T>,
    x: T,
    y: T,
    end: int,
) -> SchurState<T> {
    let m = end - 1;
    let (axis, norm, active) = reflection_axis(pair(x, y));
    if active {
        let dim = st.t.len() as int;
        let t0 = with_entry(with_entry(st.t, m, m - 1, norm), end, m - 1, T::spec_zero());
        let t1 = reflected_columns(t0, axis, T::spec_one(), m, m, dim);
        SchurState {
            t: reflected_rows(t1, axis, T::spec_one(), 0, end + 1, m),
            q: reflected_rows(st.q, axis, T::spec_one(), 0, dim, m),
        }
    } else {
        st
    }
}

/// A block of more than two rows: one implicit double-shift sweep.
pub open spec fn sweep_block<T: ComplexField>(st: SchurState<T>, start: int, end: int) -> SchurState<
    T,
> {
    let t = st.t;
    let m = end - 1;
    let h11 = t[start][start];
    let h12 = t[start][start + 1];
    let h21 = t[start + 1][start];
    let h22 = t[start + 1][start + 1];
    let h32 = t[start + 2][start + 1];
    let tra = t[end][end].spec_plus(t[m][m]);
    let det = t[end][end].spec_times(t[m][m]).spec_minus(t[end][m].spec_times(t[m][end]));
    let (swept, x, y) = chase(
        st,
        h11.spec_times(h11).spec_plus(h12.spec_times(h21)).spec_minus(tra.spec_times(h11)).spec_plus(
            det,
        ),
        h21.spec_times(h11.spec_plus(h22).spec_minus(tra)),
        h21.spec_times(h32),
        start,
        start,
        end,
    );
    last_reflected(swept, x, y, end)
}

/// A block of two rows: it is brought to upper triangular form if its
/// eigenvalues lie in the field.
pub open spec fn solve_block<T: ComplexField>(st: SchurState<T>, start: int, end: int) -> SchurState<
    T,
> {
    let t = st.t;
    match spec_basis_2x2(
        t[start][start],
        t[start + 1][start],
        t[start][start + 1],
        t[start + 1][start + 1],
    ) {
        None => st,
        Some((c, s)) => {
            let dim = t.len() as int;
            let t1 = rotated(t, c, s.spec_neg(), start, start + 1, start, dim);
            let t2 = rotated_rows(t1, c, s, start, start + 1, 0, end + 1);
            SchurState {
                t: with_entry(t2, end, start, T::spec_zero()),
                q: rotated_rows(st.q, c, s, start, start + 1, 0, dim),
            }
        },
    }
}

/// What a step of the iteration leaves: the state, the block to reduce
/// next, and whether the iteration is over.
pub struct SchurProgress<T> {
    pub state: SchurState<T>,
    pub start: nat,
    pub end: nat,
    pub finished: bool,
}

/// One step of the iteration: the block is swept or solved, and the block
/// to reduce next is found. The iteration is over when a block of two rows
/// at the top of the matrix was solved.
pub open spec fn schur_step<T: ComplexField>(
    st: SchurState<T>,
    start: nat,
    end: nat,
    eps: T::Real,
) -> SchurProgress<T> {
    if end - start + 1 > 2 {
        let worked = sweep_block(st, start as int, end as int);
        let (s, e, t) = schur_delimit(worked.t, end, eps);
        SchurProgress { state: SchurState { t, q: worked.q }, start: s, end: e, finished: false }
    } else {
        let worked = solve_block(st, start as int, end as int);
        if end > 2 {
            let (s, e, t) = schur_delimit(worked.t, (end - 2) as nat, eps);
            SchurProgress {
                state: SchurState { t, q: worked.q },
                start: s,
                end: e,
                finished: false,
            }
        } else {
            SchurProgress { state: worked, start, end, finished: true }
        }
    }
}

/// The state in which the iteration ends when it may take `budget` steps,
/// or nothing if the last of them is taken before the iteration is over.
pub open spec fn schur_iterate<T: ComplexField>(
    st: SchurState<T>,
    start: nat,
    end: nat,
    eps: T::Real,
    budget: nat,
) -> Option<SchurState<T>>
    decreases budget,
{
    if end == start {
        Some(st)
    } else {
        let p = schur_step(st, start, end, eps);
        if p.finished {
            Some(p.state)
        } else if budget <= 1 {
            None
        } else {
            schur_iterate(p.state, p.start, p.end, eps, (budget - 1) as nat)
        }
    }
}

/// The rotation `(c, s)` as a matrix.
pub open spec fn rotation_matrix<T: ComplexField>(c: T::Real, s: T) -> Seq<Seq<T>> {
    with_entry(
        with_entry(
            Seq::new(2, |i: int| Seq::new(2, |j: int| T::spec_from_real(c))),
            0,
            1,
            s.spec_conj().spec_neg(),
        ),
        1,
        0,
        s,
    )
}

/// The Hessenberg matrix that `packed` and `sub` hold.
pub open spec fn h_matrix<T: ComplexField>(packed: Seq<Seq<T>>, sub: Seq<T>) -> Seq<Seq<T>> {
    Seq::new(
        packed.len(),
        |i: int| Seq::new(packed.len(), |j: int| h_entry(packed, sub, i, j)),
    )
}

/// The orthogonal factor and the quasi-triangular matrix that the
/// decomposition of `m` gives with tolerance `eps` and at most `max_niter`
/// iterations, if it gives any. A matrix of dimension two or less is
/// decomposed directly. A larger one is normalized and reduced to
/// Hessenberg form, the iteration runs, and the result is scaled back.
pub open spec fn decomposed<T: ComplexField>(m: Seq<Seq<T>>, eps: T::Real, max_niter: usize) -> Option<
    (Seq<Seq<T>>, Seq<Seq<T>>),
> {
    let dim = m.len();
    if dim == 0 {
        Some((Seq::empty(), m))
    } else if dim == 1 {
        Some((identity::<T>(1), m))
    } else if dim == 2 {
        match spec_basis_2x2(m[0][0], m[1][0], m[0][1], m[1][1]) {
            None => Some((identity::<T>(2), m)),
            Some((c, s)) => Some(
                (
                    rotation_matrix(c, s),
                    with_entry(
                        rotated_rows(rotated(m, c, s.spec_neg(), 0, 1, 0, 2), c, s, 0, 1, 0, 2),
                        1,
                        0,
                        T::spec_zero(),
                    ),
                ),
            ),
        }
    } else {
        let top = amax(m, false, dim);
        let (packed, sub) = hessenberg_run(normalized(m, false), reduction_steps(dim));
        let (s, e, t) = schur_delimit(h_matrix(packed, sub), (dim - 1) as nat, eps);
        match schur_iterate(
            SchurState { t, q: assembled_q(packed, sub, sub.len()) },
            s,
            e,
            eps,
            budget(max_niter),
        ) {
            None => None,
            Some(st) => Some((st.q, scaled(st.t, top))),
        }
    }
}

fn run_bulge_reflection<T: ComplexField>(
    t: &mut Matrix<T>,
    q: &mut Matrix<T>,
    x: T,
    y: T,
    z: T,
    k: usize,
    start: usize,
    end: usize,
)
    requires
        old(t).is_square(),
        old(q).rows() == old(t).rows(),
        old(q).cols() == old(t).rows(),
        start <= k,
        k + 2 <= end < old(t).rows(),
    ensures
        final(t).rows() == old(t).rows(),
        final(t).cols() == old(t).cols(),
        final(q).rows() == old(q).rows(),
        final(q).cols() == old(q).cols(),
        bulge_reflected(SchurState { t: old(t)@, q: old(q)@ }, x, y, z, k as int, start as int, end as int)
            == (SchurState { t: final(t)@, q: final(q)@ }),
{
    let dim = t.nrows();
    assert(t@.len() == dim);
    let mut axis: Vec<T> = Vec::new();
    axis.push(x);
    axis.push(y);
    axis.push(z);
    assert(axis@ =~= triple(x, y, z));
    let (norm, active) = reflection_axis_mut(&mut axis);
    if active {
        if k > start {
            t.set(k, k - 1, norm);
            t.set(k + 1, k - 1, T::zero());
            t.set(k + 2, k - 1, T::zero());
        }
        let krows = if end - k >= 3 {
            k + 4
        } else {
            end + 1
        };
        reflect_columns(t, &axis, T::one(), k, k, dim);
        reflect_rows(t, &axis, T::one(), 0, krows, k);
        reflect_rows(q, &axis, T::one(), 0, dim, k);
    }
}

fn run_sweep<T: ComplexField>(t: &mut Matrix<T>, q: &mut Matrix<T>, start: usize, end: usize)
    requires
        old(t).is_square(),
        old(q).rows() == old(t).rows(),
        old(q).cols() == old(t).rows(),
        start + 2 <= end < old(t).rows(),
    ensures
        final(t).rows() == old(t).rows(),
        final(t).cols() == old(t).cols(),
        final(q).rows() == old(q).rows(),
        final(q).cols() == old(q).cols(),
        sweep_block(SchurState { t: old(t)@, q: old(q)@ }, start as int, end as int) == (SchurState {
            t: final(t)@,
            q: final(q)@,
        }),
{
    let dim = t.nrows();
    let ghost first = SchurState::<T> { t: t@, q: q@ };
    let n = end;
    let m = end - 1;
    let h11 = t.get(start, start);
    let h12 = t.get(start, start + 1);
    let h21 = t.get(start + 1, start);
    let h22 = t.get(start + 1, start + 1);
    let h32 = t.get(start + 2, start + 1);
    let hnn = t.get(n, n);
    let hmm = t.get(m, m);
    let hnm = t.get(n, m);
    let hmn = t.get(m, n);
    proof {
        assert(t@[start as int][start as int] == h11);
        assert(t@[start as int][start + 1] == h12);
        assert(t@[start + 1][start as int] == h21);
        assert(t@[start + 1][start + 1] == h22);
        assert(t@[start + 2][start + 1] == h32);
        assert(t@[n as int][n as int] == hnn);
        assert(t@[m as int][m as int] == hmm);
        assert(t@[n as int][m as int] == hnm);
        assert(t@[m as int][n as int] == hmn);
    }
    let tra = hnn.plus(hmm);
    let det = hnn.times(hmm).minus(hnm.times(hmn));
    let mut x = h11.times(h11).plus(h12.times(h21)).minus(tra.times(h11)).plus(det);
    let mut y = h21.times(h11.plus(h22).minus(tra));
    let mut z = h21.times(h32);
    let ghost target = chase(first, x, y, z, start as int, start as int, end as int);
    let mut k = start;
    while k < n - 1
        invariant
            start <= k <= n - 1,
            n == end,
            start + 2 <= end < dim,
            t.rows() == dim,
            t.cols() == dim,
            q.rows() == dim,
            q.cols() == dim,
            chase(SchurState::<T> { t: t@, q: q@ }, x, y, z, k as int, start as int, end as int)
                == target,
        decreases n - 1 - k,
    {
        run_bulge_reflection(t, q, x, y, z, k, start, end);
        x = t.get(k + 1, k);
        y = t.get(k + 2, k);
        assert(t@[k + 1][k as int] == x);
        assert(t@[k + 2][k as int] == y);
        if k < n - 2 {
            z = t.get(k + 3, k);
            assert(t@[k + 3][k as int] == z);
        }
        k += 1;
    }
    assert(t@.len() == dim);
    let mut axis: Vec<T> = Vec::new();
    axis.push(x);
    axis.push(y);
    assert(axis@ =~= pair(x, y));
    let (norm, active) = reflection_axis_mut(&mut axis);
    if active {
        t.set(m, m - 1, norm);
        t.set(n, m - 1, T::zero());
        reflect_columns(t, &axis, T::one(), m, m, dim);
        reflect_rows(t, &axis, T::one(), 0, end + 1, m);
        reflect_rows(q, &axis, T::one(), 0, dim, m);
    }
}

fn run_solve_block<T: ComplexField>(t: &mut Matrix<T>, q: &mut Matrix<T>, start: usize, end: usize)
    requires
        old(t).is_square(),
        old(q).rows() == old(t).rows(),
        old(q).cols() == old(t).rows(),
        start + 1 == end,
        end < old(t).rows(),
    ensures
        final(t).rows() == old(t).rows(),
        final(t).cols() == old(t).cols(),
        final(q).rows() == old(q).rows(),
        final(q).cols() == old(q).cols(),
        solve_block(SchurState { t: old(t)@, q: old(q)@ }, start as int, end as int) == (SchurState {
            t: final(t)@,
            q: final(q)@,
        }),
{
    let dim = t.nrows();
    assert(t@.len() == dim);
    let h00 = t.get(start, start);
    let h10 = t.get(start + 1, start);
    let h01 = t.get(start, start + 1);
    let h11 = t.get(start + 1, start + 1);
    proof {
        assert(t@[start as int][start as int] == h00);
        assert(t@[start + 1][start as int] == h10);
        assert(t@[start as int][start + 1] == h01);
        assert(t@[start + 1][start + 1] == h11);
    }
    match basis_2x2(h00, h10, h01, h11) {
        None => {},
        Some((c, s)) => {
            rotate(t, c, s.neg(), start, start + 1, start, dim);
            rotate_rows(t, c, s, start, start + 1, 0, end + 1);
            t.set(end, start, T::zero());
            rotate_rows(q, c, s, start, start + 1, 0, dim);
        },
    }
}

/// The Schur decomposition of a square matrix.
pub struct Schur<T> {
    q: Matrix<T>,
    t: Matrix<T>,
}

impl<T> Schur<T> {
    #[verifier::type_invariant]
    spec fn inv(self) -> bool {
        &&& self.t.is_square()
        &&& self.q.rows() == self.t.rows()
        &&& self.q.cols() == self.t.rows()
    }
}

impl<T: ComplexField> Schur<T> {
    /// The rows of the orthogonal factor.
    pub closed spec fn vectors(&self) -> Seq<Seq<T>> {
        self.q@
    }

    /// The rows of the quasi-triangular factor.
    pub closed spec fn triangle(&self) -> Seq<Seq<T>> {
        self.t@
    }

    /// The dimension of the factors.
    pub closed spec fn dim(&self) -> nat {
        self.t.rows()
    }

    /// Whether the decomposition of `m` ends with the default tolerance and
    /// no bound on the number of iterations.
    pub open spec fn converges(m: Seq<Seq<T>>) -> bool {
        decomposed(m, T::Real::spec_epsilon(), 0).is_some()
    }

    /// Computes the Schur decomposition of `m` with the default tolerance
    /// and no bound on the number of iterations.
    pub fn new(m: Matrix<T>) -> (r: Self)
        requires
            m.is_square(),
            Self::converges(m@),
        ensures
            Some((r.vectors(), r.triangle())) == decomposed(m@, T::Real::spec_epsilon(), 0),
            r.dim() == m.rows(),
    {
        let r = Self::try_new(m, T::Real::epsilon(), 0);
        r.unwrap()
    }

    /// Computes the Schur decomposition of `m`. A subdiagonal entry counts
    /// as zero when it is not above `eps` times its neighbours on the
    /// diagonal. There is no result if `max_niter` iterations did not
    /// suffice; a `max_niter` of zero sets no bound.
    pub fn try_new(m: Matrix<T>, eps: T::Real, max_niter: usize) -> (r: Option<Self>)
        requires
            m.is_square(),
        ensures
            r.is_some() == decomposed(m@, eps, max_niter).is_some(),
            r.is_some() ==> {
                &&& Some((r.unwrap().vectors(), r.unwrap().triangle())) == decomposed(
                    m@,
                    eps,
                    max_niter,
                )
                &&& r.unwrap().dim() == m.rows()
            },
    {
        let ghost orig = m@;
        let mut work = m;
        let dim = work.nrows();
        assert(orig.len() == dim);
        if dim == 0 {
            let q = Matrix::filled(0, 0, T::zero());
            assert(q@ =~= Seq::empty());
            return Some(Schur { q, t: work });
        }
        if dim == 1 {
            let q = Matrix::identity(1);
            return Some(Schur { q, t: work });
        }
        if dim == 2 {
            let h00 = work.get(0, 0);
            let h10 = work.get(1, 0);
            let h01 = work.get(0, 1);
            let h11 = work.get(1, 1);
            proof {
                assert(orig[0][0] == h00);
                assert(orig[1][0] == h10);
                assert(orig[0][1] == h01);
                assert(orig[1][1] == h11);
            }
            match basis_2x2(h00, h10, h01, h11) {
                None => {
                    let q = Matrix::identity(2);
                    return Some(Schur { q, t: work });
                },
                Some((c, s)) => {
                    rotate(&mut work, c, s.neg(), 0, 1, 0, 2);
                    rotate_rows(&mut work, c, s, 0, 1, 0, 2);
                    work.set(1, 0, T::zero());
                    let mut q = Matrix::filled(2, 2, T::from_real(c));
                    assert(q@ =~~= Seq::new(
                        2,
                        |i: int| Seq::new(2, |j: int| T::spec_from_real(c)),
                    ));
                    q.set(0, 1, s.conj().neg());
                    q.set(1, 0, s);
                    return Some(Schur { q, t: work });
                },
            }
        }
        let top = normalize(&mut work, false);
        let hess = Hessenberg::new(work);
        let (q0, t0) = hess.unpack();
        let mut q = q0;
        let mut t = t0;
        proof {
            let (packed, sub) = hessenberg_run(normalized(orig, false), reduction_steps(dim as nat));
            let goal = h_matrix(packed, sub);
            assert forall|i: int| 0 <= i < dim implies #[trigger] t@[i] =~= goal[i] by {
                assert forall|j: int| 0 <= j < dim implies t@[i][j] == goal[i][j] by {
                    assert(t@[i][j] == t.at(i, j));
                }
            }
            assert(t@ =~= goal);
        }
        let limit: usize = if max_niter == 0 {
            usize::MAX
        } else {
            max_niter
        };
        let (s0, e0) = run_delimit(&mut t, dim - 1, eps);
        let mut start = s0;
        let mut end = e0;
        let ghost first = SchurState::<T> { t: t@, q: q@ };
        let ghost s0g = s0 as nat;
        let ghost e0g = e0 as nat;
        let mut niter: usize = 0;
        let mut finished = false;
        while end != start && !finished
            invariant
                dim >= 3,
                t.rows() == dim,
                t.cols() == dim,
                q.rows() == dim,
                q.cols() == dim,
                start <= end < dim,
                niter < limit,
                limit == budget(max_niter),
                orig.len() == dim,
                orig == m@,
                !finished ==> schur_iterate(
                    SchurState::<T> { t: t@, q: q@ },
                    start as nat,
                    end as nat,
                    eps,
                    (limit - niter) as nat,
                ) == schur_iterate(first, s0g, e0g, eps, limit as nat),
                finished ==> schur_iterate(first, s0g, e0g, eps, limit as nat) == Some(
                    SchurState::<T> { t: t@, q: q@ },
                ),
                decomposed(orig, eps, max_niter) == (match schur_iterate(
                    first,
                    s0g,
                    e0g,
                    eps,
                    limit as nat,
                ) {
                    None => None,
                    Some(st) => Some((st.q, scaled(st.t, top))),
                }),
            decreases limit - niter + (if finished { 0int } else { 1int }),
        {
            let ghost here = SchurState::<T> { t: t@, q: q@ };
            let ghost start0 = start as nat;
            let ghost end0 = end as nat;
            let subdim = end - start + 1;
            if subdim > 2 {
                run_sweep(&mut t, &mut q, start, end);
            } else {
                run_solve_block(&mut t, &mut q, start, end);
                if end > 2 {
                    end -= 2;
                } else {
                    finished = true;
                }
            }
            if !finished {
                let (s2, e2) = run_delimit(&mut t, end, eps);
                start = s2;
                end = e2;
                proof {
                    let p = schur_step(here, start0, end0, eps);
                    assert(!p.finished);
                    assert(p.state == (SchurState::<T> { t: t@, q: q@ }));
                    assert(p.start == start && p.end == end);
                }
                niter += 1;
                if niter == limit {
                    return None;
                }
            } else {
                proof {
                    let p = schur_step(here, start0, end0, eps);
                    assert(p.finished);
                    assert(p.state == (SchurState::<T> { t: t@, q: q@ }));
                }
            }
        }
        scale_mut(&mut t, top);
        Some(Schur { q, t })
    }

    /// The orthogonal factor and the quasi-triangular factor.
    pub fn unpack(self) -> (r: (Matrix<T>, Matrix<T>))
        ensures
            r.0@ == self.vectors(),
            r.1@ == self.triangle(),
            r.0.rows() == self.dim(),
            r.0.cols() == self.dim(),
            r.1.rows() == self.dim(),
            r.1.cols() == self.dim(),
    {
        proof {
            use_type_invariant(&self);
        }
        (self.q, self.t)
    }
}

} // verus!
