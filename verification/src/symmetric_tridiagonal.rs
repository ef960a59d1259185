//! Reduction of a symmetric (Hermitian) matrix to tridiagonal form.

use crate::hessenberg::reduction_steps;
use crate::householder::{
    assemble_q, assembled_q, column_from, dotc, reflection_axis, reflection_axis_mut, sub_column,
    with_column, write_column,
};
use crate::matrix::Matrix;
use crate::scalar::{spec_two, two, ComplexField, RealField};
use vstd::prelude::*;

verus! {

/// The entry of row `i`, column `j` of the Hermitian matrix whose part on
/// and below the diagonal `a` holds.
pub open spec fn hermitian_entry<T: ComplexField>(a: Seq<Seq<T>>, i: int, j: int) -> T {
    if j <= i {
        a[i][j]
    } else {
        a[j][i].spec_conj()
    }
}

/// The sum, over the first `n` entries of `axis`, of the entries of row
/// `from + r` of the trailing Hermitian block times the entries of `axis`.
pub open spec fn hermitian_row_dot<T: ComplexField>(
    a: Seq<Seq<T>>,
    axis: Seq<T>,
    from: int,
    r: int,
    n: nat,
) -> T
    decreases n,
{
    if n == 0 {
        T::spec_zero()
    } else {
        hermitian_row_dot(a, axis, from, r, (n - 1) as nat).spec_plus(
            hermitian_entry(a, from + r, from + n - 1).spec_times(axis[n - 1]),
        )
    }
}

/// Twice the product of the trailing Hermitian block with `axis`.
pub open spec fn doubled_product<T: ComplexField>(a: Seq<Seq<T>>, axis: Seq<T>, from: int) -> Seq<T> {
    Seq::new(
        axis.len(),
        |r: int|
            hermitian_row_dot(a, axis, from, r, axis.len()).spec_scale(spec_two::<T::Real>()),
    )
}

/// The entry of row `r`, column `c` of the trailing block, `r >= c`, after
/// the reflection of axis `axis` was applied from both sides; `p` is twice
/// the product of the block with the axis.
pub open spec fn similar_entry<T: ComplexField>(
    a: Seq<Seq<T>>,
    axis: Seq<T>,
    p: Seq<T>,
    from: int,
    r: int,
    c: int,
) -> T {
    let x = r - from;
    let y = c - from;
    a[r][c].spec_minus(p[x].spec_times(axis[y].spec_conj())).spec_minus(
        axis[x].spec_times(p[y].spec_conj()),
    ).spec_plus(
        dotc(axis, p, axis.len()).spec_scale(spec_two::<T::Real>()).spec_times(axis[x]).spec_times(
            axis[y].spec_conj(),
        ),
    )
}

/// One step of the reduction: column `i` is cleared below the subdiagonal
/// and the trailing block is transformed, on and below its diagonal.
pub open spec fn tridiagonal_step<T: ComplexField>(a: Seq<Seq<T>>, i: int) -> (Seq<Seq<T>>, T) {
    let from = i + 1;
    let (axis, norm, active) = reflection_axis(sub_column(a, i, from));
    let stored = with_column(a, i, from, axis);
    if active {
        let p = doubled_product(stored, axis, from);
        (
            Seq::new(
                stored.len(),
                |r: int|
                    Seq::new(
                        stored[r].len(),
                        |c: int|
                            if from <= c <= r {
                                similar_entry(stored, axis, p, from, r, c)
                            } else {
                                stored[r][c]
                            },
                    ),
            ),
            norm,
        )
    } else {
        (stored, norm)
    }
}

/// The packed matrix and the signed off-diagonal after the first `k` steps.
pub open spec fn tridiagonal_run<T: ComplexField>(a: Seq<Seq<T>>, k: nat) -> (Seq<Seq<T>>, Seq<T>)
    decreases k,
{
    if k == 0 {
        (a, Seq::empty())
    } else {
        let (b, off) = tridiagonal_run(a, (k - 1) as nat);
        let (c, norm) = tridiagonal_step(b, k - 1);
        (c, off.push(norm))
    }
}

/// The real parts of the diagonal of `a`.
pub open spec fn real_diagonal<T: ComplexField>(a: Seq<Seq<T>>) -> Seq<T::Real> {
    Seq::new(a.len(), |i: int| a[i][i].spec_re())
}

/// The absolute values of the entries of `v`.
pub open spec fn moduli<T: ComplexField>(v: Seq<T>) -> Seq<T::Real> {
    Seq::new(v.len(), |i: int| v[i].spec_modulus())
}

/// The absolute values of the entries of `v`.
pub fn moduli_of<T: ComplexField>(v: &Vec<T>) -> (r: Vec<T::Real>)
    ensures
        r@ == moduli(v@),
{
    let n = v.len();
    let mut r: Vec<T::Real> = Vec::new();
    let mut i: usize = 0;
    while i < n
        invariant
            i <= n,
            n == v@.len(),
            r@.len() == i,
            forall|k: int| 0 <= k < i ==> #[trigger] r@[k] == v@[k].spec_modulus(),
        decreases n - i,
    {
        r.push(v[i].modulus());
        i += 1;
    }
    assert(r@ =~= moduli(v@));
    r
}

fn apply_step<T: ComplexField>(m: &mut Matrix<T>, i: usize) -> (norm: T)
    requires
        old(m).is_square(),
        i + 1 < old(m).rows(),
    ensures
        final(m).rows() == old(m).rows(),
        final(m).cols() == old(m).cols(),
        (final(m)@, norm) == tridiagonal_step(old(m)@, i as int),
{
    let dim = m.nrows();
    let from = i + 1;
    let mut axis = column_from(m, i, from);
    let (norm, active) = reflection_axis_mut(&mut axis);
    write_column(m, i, from, &axis);
    if active {
        let ghost stored = *m;
        let len = axis.len();
        let mut p: Vec<T> = Vec::new();
        let mut r: usize = 0;
        while r < len
            invariant
                r <= len,
                len == axis@.len(),
                from + len == dim,
                m.rows() == dim,
                m.cols() == dim,
                *m == stored,
                p@.len() == r,
                forall|x: int|
                    0 <= x < r ==> #[trigger] p@[x] == hermitian_row_dot(
                        stored@,
                        axis@,
                        from as int,
                        x,
                        len as nat,
                    ).spec_scale(spec_two::<T::Real>()),
            decreases len - r,
        {
            let mut acc = T::zero();
            let mut c: usize = 0;
            while c < len
                invariant
                    c <= len,
                    r < len,
                    len == axis@.len(),
                    from + len == dim,
                    m.rows() == dim,
                    m.cols() == dim,
                    *m == stored,
                    acc == hermitian_row_dot(stored@, axis@, from as int, r as int, c as nat),
                decreases len - c,
            {
                let e = if c <= r {
                    m.get(from + r, from + c)
                } else {
                    m.get(from + c, from + r).conj()
                };
                assert(stored@[from + r][from + c] == stored.at(from + r, from + c));
                assert(stored@[from + c][from + r] == stored.at(from + c, from + r));
                acc = acc.plus(e.times(axis[c]));
                c += 1;
            }
            p.push(acc.scale(two::<T::Real>()));
            r += 1;
        }
        assert(p@ =~= doubled_product(stored@, axis@, from as int));
        let mut dot = T::zero();
        let mut k: usize = 0;
        while k < len
            invariant
                k <= len,
                len == axis@.len(),
                len == p@.len(),
                dot == dotc(axis@, p@, k as nat),
            decreases len - k,
        {
            dot = dot.plus(axis[k].conj().times(p[k]));
            k += 1;
        }
        let coeff = dot.scale(two::<T::Real>());
        let mut r: usize = 0;
        while r < len
            invariant
                r <= len,
                len == axis@.len(),
                len == p@.len(),
                from + len == dim,
                m.rows() == dim,
                m.cols() == dim,
                stored.rows() == dim,
                stored.cols() == dim,
                coeff == dotc(axis@, p@, len as nat).spec_scale(spec_two::<T::Real>()),
                forall|x: int, y: int|
                    stored.has(x, y) ==> #[trigger] m.at(x, y) == (if from <= y <= x && x < from
                        + r {
                        similar_entry(stored@, axis@, p@, from as int, x, y)
                    } else {
                        stored.at(x, y)
                    }),
            decreases len - r,
        {
            let mut c: usize = 0;
            while c <= r
                invariant
                    c <= r + 1,
                    r < len,
                    len == axis@.len(),
                    len == p@.len(),
                    from + len == dim,
                    m.rows() == dim,
                    m.cols() == dim,
                    stored.rows() == dim,
                    stored.cols() == dim,
                    coeff == dotc(axis@, p@, len as nat).spec_scale(spec_two::<T::Real>()),
                    forall|x: int, y: int|
                        stored.has(x, y) ==> #[trigger] m.at(x, y) == (if from <= y <= x && (x
                            < from + r || (x == from + r && y < from + c)) {
                            similar_entry(stored@, axis@, p@, from as int, x, y)
                        } else {
                            stored.at(x, y)
                        }),
                decreases r + 1 - c,
            {
                assert(stored@[from + r][from + c] == stored.at(from + r, from + c));
                let v = m.get(from + r, from + c).minus(p[r].times(axis[c].conj())).minus(
                    axis[r].times(p[c].conj()),
                ).plus(coeff.times(axis[r]).times(axis[c].conj()));
                m.set(from + r, from + c, v);
                c += 1;
            }
            r += 1;
        }
        proof {
            let goal = tridiagonal_step(old(m)@, i as int).0;
            assert forall|x: int| 0 <= x < dim implies #[trigger] m@[x] =~= goal[x] by {
                assert forall|y: int| 0 <= y < dim implies m@[x][y] == goal[x][y] by {
                    assert(m@[x][y] == m.at(x, y));
                    assert(stored@[x][y] == stored.at(x, y));
                }
            }
            assert(m@ =~= goal);
        }
    }
    norm
}

/// The tridiagonalization of a symmetric matrix.
pub struct SymmetricTridiagonal<T> {
    tri: Matrix<T>,
    off_diagonal: Vec<T>,
}

impl<T> SymmetricTridiagonal<T> {
    #[verifier::type_invariant]
    spec fn inv(self) -> bool {
        &&& self.tri.is_square()
        &&& self.off_diagonal.len() == reduction_steps(self.tri.rows())
    }
}

impl<T: ComplexField> SymmetricTridiagonal<T> {
    /// The reflection axes, below the subdiagonal, and the diagonal of the
    /// tridiagonal matrix.
    pub closed spec fn packed(&self) -> Seq<Seq<T>> {
        self.tri@
    }

    /// The signed off-diagonal of the tridiagonal matrix.
    pub closed spec fn signed_off_diagonal(&self) -> Seq<T> {
        self.off_diagonal@
    }

    /// The dimension of the matrix.
    pub closed spec fn dim(&self) -> nat {
        self.tri.rows()
    }

    /// Reduces `m`, of which only the part on and below the diagonal is
    /// read.
    pub fn new(m: Matrix<T>) -> (r: Self)
        requires
            m.is_square(),
        ensures
            r.dim() == m.rows(),
            r.signed_off_diagonal().len() == reduction_steps(m.rows()),
            (r.packed(), r.signed_off_diagonal()) == tridiagonal_run(
                m@,
                reduction_steps(m.rows()),
            ),
    {
        let ghost orig = m@;
        let mut m = m;
        let dim = m.nrows();
        let steps = if dim == 0 {
            0
        } else {
            dim - 1
        };
        let mut off_diagonal: Vec<T> = Vec::new();
        assert(off_diagonal@ =~= Seq::empty());
        let mut k: usize = 0;
        while k < steps
            invariant
                k <= steps,
                steps == reduction_steps(dim as nat),
                m.rows() == dim,
                m.cols() == dim,
                off_diagonal@.len() == k,
                (m@, off_diagonal@) == tridiagonal_run(orig, k as nat),
            decreases steps - k,
        {
            let norm = apply_step(&mut m, k);
            off_diagonal.push(norm);
            k += 1;
        }
        SymmetricTridiagonal { tri: m, off_diagonal }
    }

    /// The orthogonal factor.
    pub fn q(&self) -> (q: Matrix<T>)
        ensures
            q.rows() == self.dim(),
            q.cols() == self.dim(),
            q@ == assembled_q(
                self.packed(),
                self.signed_off_diagonal(),
                self.signed_off_diagonal().len(),
            ),
    {
        proof {
            use_type_invariant(self);
        }
        assemble_q(&self.tri, &self.off_diagonal)
    }

    /// The diagonal of the tridiagonal matrix.
    pub fn diagonal(&self) -> (d: Vec<T::Real>)
        ensures
            d@ == real_diagonal(self.packed()),
            d@.len() == self.dim(),
    {
        let n = self.tri.nrows();
        proof {
            use_type_invariant(self);
        }
        let mut d: Vec<T::Real> = Vec::new();
        let mut i: usize = 0;
        while i < n
            invariant
                i <= n,
                n == self.tri.rows(),
                self.tri.is_square(),
                d@.len() == i,
                forall|k: int| 0 <= k < i ==> #[trigger] d@[k] == self.tri@[k][k].spec_re(),
            decreases n - i,
        {
            d.push(self.tri.get(i, i).re());
            i += 1;
        }
        assert(d@ =~= real_diagonal(self.tri@));
        d
    }

    /// The off-diagonal of the tridiagonal matrix.
    pub fn off_diagonal(&self) -> (e: Vec<T::Real>)
        ensures
            e@ == moduli(self.signed_off_diagonal()),
            e@.len() == reduction_steps(self.dim()),
    {
        proof {
            use_type_invariant(self);
        }
        moduli_of(&self.off_diagonal)
    }

    /// The orthogonal factor, the diagonal and the off-diagonal.
    pub fn unpack(self) -> (r: (Matrix<T>, Vec<T::Real>, Vec<T::Real>))
        ensures
            r.0.rows() == self.dim(),
            r.0.cols() == self.dim(),
            r.0@ == assembled_q(
                self.packed(),
                self.signed_off_diagonal(),
                self.signed_off_diagonal().len(),
            ),
            r.1@ == real_diagonal(self.packed()),
            r.1@.len() == self.dim(),
            r.2@ == moduli(self.signed_off_diagonal()),
            r.2@.len() == reduction_steps(self.dim()),
    {
        (self.q(), self.diagonal(), self.off_diagonal())
    }

    /// The diagonal and the off-diagonal.
    pub fn unpack_tridiagonal(self) -> (r: (Vec<T::Real>, Vec<T::Real>))
        ensures
            r.0@ == real_diagonal(self.packed()),
            r.0@.len() == self.dim(),
            r.1@ == moduli(self.signed_off_diagonal()),
            r.1@.len() == reduction_steps(self.dim()),
    {
        (self.diagonal(), self.off_diagonal())
    }
}

} // verus!
