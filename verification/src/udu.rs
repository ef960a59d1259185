//! UDU decomposition of a symmetric matrix over an ordered field: no square
//! root is taken.

use crate::matrix::Matrix;
use crate::scalar::{
    lemma_real_minus_cancels, lemma_real_over_cancels, lemma_real_plus_associates,
    lemma_real_plus_zero, lemma_real_times_commutes, lemma_real_times_one,
    lemma_real_times_zero, real_field_laws, RealField,
};
use vstd::prelude::*;

verus! {

/// The sum, over the columns `k` with `j < k < upto`, of
/// `d[k] * u[j][k] * u[i][k]`.
pub open spec fn weighted_dot<R: RealField>(
    d: Seq<R>,
    u: Seq<Seq<R>>,
    i: int,
    j: int,
    upto: int,
) -> R
    decreases upto - j,
{
    if upto <= j + 1 {
        R::spec_zero()
    } else {
        weighted_dot(d, u, i, j, upto - 1).spec_plus(
            d[upto - 1].spec_times(u[j][upto - 1]).spec_times(u[i][upto - 1]),
        )
    }
}

/// The diagonal entry of column `j`, the columns to its right being done.
pub open spec fn diagonal_entry<R: RealField>(p: Seq<Seq<R>>, u: Seq<Seq<R>>, d: Seq<R>, j: int) -> R {
    p[j][j].spec_minus(weighted_dot(d, u, j, j, p.len() as int))
}

/// Column `j` of `U` and entry `j` of `D` are filled in, or there is no
/// result because that entry of `D` is zero.
pub open spec fn udu_step<R: RealField>(
    p: Seq<Seq<R>>,
    state: (Seq<Seq<R>>, Seq<R>),
    j: int,
) -> Option<(Seq<Seq<R>>, Seq<R>)> {
    let (u, d) = state;
    let dj = diagonal_entry(p, u, d, j);
    if dj.spec_is_zero() {
        None
    } else {
        Some(
            (
                Seq::new(
                    u.len(),
                    |i: int|
                        Seq::new(
                            u[i].len(),
                            |c: int|
                                if c != j || i > j {
                                    u[i][c]
                                } else if i == j {
                                    R::spec_one()
                                } else {
                                    p[i][j].spec_minus(
                                        weighted_dot(d, u, i, j, p.len() as int),
                                    ).spec_over(dj)
                                },
                        ),
                ),
                d.update(j, dj),
            ),
        )
    }
}

/// The factors after the last `t` columns were filled in, right to left,
/// starting from zeros.
pub open spec fn udu_run<R: RealField>(p: Seq<Seq<R>>, t: nat) -> Option<(Seq<Seq<R>>, Seq<R>)>
    decreases t,
{
    if t == 0 {
        Some(
            (
                Seq::new(p.len(), |i: int| Seq::new(p.len(), |c: int| R::spec_zero())),
                Seq::new(p.len(), |i: int| R::spec_zero()),
            ),
        )
    } else {
        match udu_run(p, (t - 1) as nat) {
            None => None,
            Some(s) => udu_step(p, s, p.len() - t),
        }
    }
}

/// Once a column could not be filled in, no later stage has a result.
pub proof fn lemma_udu_failure_persists<R: RealField>(p: Seq<Seq<R>>, t: nat, n: nat)
    requires
        t <= n,
        udu_run(p, t).is_none(),
    ensures
        udu_run(p, n).is_none(),
    decreases n - t,
{
    if t < n {
        lemma_udu_failure_persists(p, t, (n - 1) as nat);
    }
}

/// The entry of row `i`, column `j` of the product `U * D * U^T`, summed
/// over the first `m` columns of `U`.
pub open spec fn udu_product<R: RealField>(u: Seq<Seq<R>>, d: Seq<R>, i: int, j: int, m: nat) -> R
    decreases m,
{
    if m == 0 {
        R::spec_zero()
    } else {
        udu_product(u, d, i, j, (m - 1) as nat).spec_plus(
            d[m - 1].spec_times(u[j][m - 1]).spec_times(u[i][m - 1]),
        )
    }
}

/// What holds of the factors once the columns from `lo` on are filled in:
/// `U` is zero below the diagonal and has ones on it, no entry of `D` is
/// zero, and every entry of `p` on or above the diagonal in these columns
/// is the entry of `D` times that of `U` plus the products with the
/// columns to the right.
pub open spec fn udu_filled<R: RealField>(
    p: Seq<Seq<R>>,
    u: Seq<Seq<R>>,
    d: Seq<R>,
    n: nat,
    lo: int,
) -> bool {
    &&& u.len() == n
    &&& d.len() == n
    &&& forall|r: int| 0 <= r < n ==> (#[trigger] u[r]).len() == n
    &&& forall|r: int, c: int| 0 <= c < r < n ==> #[trigger] u[r][c] == R::spec_zero()
    &&& forall|c: int| lo <= c < n ==> (#[trigger] u[c])[c] == R::spec_one()
    &&& forall|j: int| lo <= j < n ==> !(#[trigger] d[j]).spec_is_zero()
    &&& forall|j: int|
        lo <= j < n ==> #[trigger] d[j] == p[j][j].spec_minus(
            weighted_dot(d, u, j, j, n as int),
        )
    &&& forall|i: int, j: int|
        lo <= j < n && 0 <= i < j ==> (#[trigger] u[i][j]).spec_times(d[j]) == p[i][j].spec_minus(
            weighted_dot(d, u, i, j, n as int),
        )
}

proof fn lemma_weighted_dot_frame<R: RealField>(
    d: Seq<R>,
    u: Seq<Seq<R>>,
    e: Seq<R>,
    v: Seq<Seq<R>>,
    i: int,
    j: int,
    upto: int,
)
    requires
        forall|k: int| j < k < upto ==> d[k] == e[k] && u[j][k] == v[j][k] && u[i][k] == v[i][k],
    ensures
        weighted_dot(d, u, i, j, upto) == weighted_dot(e, v, i, j, upto),
    decreases upto - j,
{
    if upto > j + 1 {
        lemma_weighted_dot_frame(d, u, e, v, i, j, upto - 1);
    }
}

/// In a field, the factors keep `udu_filled` as the columns are filled in,
/// right to left.
pub proof fn lemma_udu_filled<R: RealField>(p: Seq<Seq<R>>, n: nat, t: nat)
    requires
        p.len() == n,
        t <= n,
        real_field_laws::<R>(),
        udu_run(p, t).is_some(),
    ensures
        udu_filled(p, udu_run(p, t).unwrap().0, udu_run(p, t).unwrap().1, n, n - t),
    decreases t,
{
    if t > 0 {
        let prev = udu_run(p, (t - 1) as nat);
        assert(prev.is_some());
        lemma_udu_filled(p, n, (t - 1) as nat);
        let (u, d) = prev.unwrap();
        let j0 = n - t;
        let (v, e) = udu_run(p, t).unwrap();
        let dj = diagonal_entry(p, u, d, j0);
        assert(!dj.spec_is_zero());
        assert(e == d.update(j0, dj));
        assert forall|i: int, j: int| j0 <= j < n && 0 <= i <= j implies weighted_dot(
            e,
            v,
            i,
            j,
            n as int,
        ) == weighted_dot(d, u, i, j, n as int) by {
            assert forall|k: int| j < k < n implies e[k] == d[k] && v[j][k] == u[j][k] && v[i][k]
                == u[i][k] by {}
            lemma_weighted_dot_frame(e, v, d, u, i, j, n as int);
        }
        assert forall|r: int, c: int| 0 <= c < r < n implies #[trigger] v[r][c]
            == R::spec_zero() by {
            assert(u[r][c] == R::spec_zero());
        }
        assert forall|c: int| j0 <= c < n implies (#[trigger] v[c])[c] == R::spec_one() by {
            if c > j0 {
                assert(u[c][c] == R::spec_one());
            }
        }
        assert forall|j: int| j0 <= j < n implies !(#[trigger] e[j]).spec_is_zero() by {
            if j > j0 {
                assert(!d[j].spec_is_zero());
            }
        }
        assert forall|j: int| j0 <= j < n implies #[trigger] e[j] == p[j][j].spec_minus(
            weighted_dot(e, v, j, j, n as int),
        ) by {
            if j > j0 {
                assert(d[j] == p[j][j].spec_minus(weighted_dot(d, u, j, j, n as int)));
            }
        }
        assert forall|i: int, j: int| j0 <= j < n && 0 <= i < j implies (#[trigger] v[i][j])
            .spec_times(e[j]) == p[i][j].spec_minus(weighted_dot(e, v, i, j, n as int)) by {
            if j > j0 {
                assert(v[i][j] == u[i][j]);
                assert(u[i][j].spec_times(d[j]) == p[i][j].spec_minus(
                    weighted_dot(d, u, i, j, n as int),
                ));
            } else {
                let x = p[i][j0].spec_minus(weighted_dot(d, u, i, j0, n as int));
                assert(v[i][j0] == x.spec_over(dj));
                lemma_real_over_cancels(x, dj);
            }
        }
    }
}

proof fn lemma_udu_product_start<R: RealField>(u: Seq<Seq<R>>, d: Seq<R>, i: int, j: int, m: nat)
    requires
        real_field_laws::<R>(),
        m <= j,
        forall|c: int| 0 <= c < j ==> u[j][c] == R::spec_zero(),
    ensures
        udu_product(u, d, i, j, m) == R::spec_zero(),
    decreases m,
{
    if m > 0 {
        lemma_udu_product_start(u, d, i, j, (m - 1) as nat);
        let z = R::spec_zero();
        assert(u[j][m - 1] == z);
        lemma_real_times_zero(d[m - 1]);
        lemma_real_times_zero(u[i][m - 1]);
        lemma_real_plus_zero(z);
    }
}

proof fn lemma_udu_product_rest<R: RealField>(u: Seq<Seq<R>>, d: Seq<R>, i: int, j: int, m: nat)
    requires
        real_field_laws::<R>(),
        0 <= j < m,
        forall|c: int| 0 <= c < j ==> u[j][c] == R::spec_zero(),
    ensures
        udu_product(u, d, i, j, m) == d[j].spec_times(u[j][j]).spec_times(u[i][j]).spec_plus(
            weighted_dot(d, u, i, j, m as int),
        ),
    decreases m,
{
    let z = R::spec_zero();
    let t = d[j].spec_times(u[j][j]).spec_times(u[i][j]);
    if m == j + 1 {
        lemma_udu_product_start(u, d, i, j, j as nat);
        lemma_real_plus_zero(t);
    } else {
        lemma_udu_product_rest(u, d, i, j, (m - 1) as nat);
        let w = weighted_dot(d, u, i, j, m - 1);
        let x = d[m - 1].spec_times(u[j][m - 1]).spec_times(u[i][m - 1]);
        lemma_real_plus_associates(t, w, x);
    }
}

/// The factors multiply back to `p` on and above the diagonal: every such
/// entry of `p` is the product of its row of `U`, of `D` and of the row of
/// `U` of its column.
pub open spec fn multiplies_back<R: RealField>(
    p: Seq<Seq<R>>,
    u: Seq<Seq<R>>,
    d: Seq<R>,
    n: nat,
) -> bool {
    forall|i: int, j: int| 0 <= i <= j < n ==> #[trigger] p[i][j] == udu_product(u, d, i, j, n)
}

/// In a field, the factors multiply back to the matrix on and above its
/// diagonal: `U * D * U^T = P`.
pub proof fn lemma_udu_reconstructs<R: RealField>(p: Seq<Seq<R>>, n: nat)
    requires
        p.len() == n,
        real_field_laws::<R>(),
        udu_run(p, n).is_some(),
    ensures
        multiplies_back(p, udu_run(p, n).unwrap().0, udu_run(p, n).unwrap().1, n),
{
    lemma_udu_filled(p, n, n);
    let (u, d) = udu_run(p, n).unwrap();
    assert forall|i: int, j: int| 0 <= i <= j < n implies #[trigger] p[i][j] == udu_product(
        u,
        d,
        i,
        j,
        n,
    ) by {
        assert forall|c: int| 0 <= c < j implies u[j][c] == R::spec_zero() by {}
        lemma_udu_product_rest(u, d, i, j, n);
        let w = weighted_dot(d, u, i, j, n as int);
        let one = R::spec_one();
        assert(u[j][j] == one);
        lemma_real_times_one(d[j]);
        let x = p[i][j].spec_minus(w);
        if i < j {
            assert(u[i][j].spec_times(d[j]) == x);
            lemma_real_times_commutes(d[j], u[i][j]);
        } else {
            assert(d[j] == x);
        }
        lemma_real_minus_cancels(p[i][j], w);
    }
}

/// The UDU decomposition of a matrix: a unit upper-triangular `U` and a
/// diagonal `D` with `U * D * U^T` equal to the matrix.
pub struct UDU<R> {
    u: Matrix<R>,
    d: Vec<R>,
}

impl<R> UDU<R> {
    #[verifier::type_invariant]
    spec fn inv(self) -> bool {
        self.u.is_square() && self.d.len() == self.u.rows()
    }
}

impl<R: RealField> UDU<R> {
    /// The rows of the factor `U`.
    pub closed spec fn upper(&self) -> Seq<Seq<R>> {
        self.u@
    }

    /// The diagonal of the factor `D`.
    pub closed spec fn diagonal(&self) -> Seq<R> {
        self.d@
    }

    /// The dimension of the factors.
    pub closed spec fn dim(&self) -> nat {
        self.u.rows()
    }

    /// Factors `p`, of which only the part on and above the diagonal is
    /// read. There is no result if an entry of `D` comes out zero.
    pub fn new(p: Matrix<R>) -> (r: Option<Self>)
        requires
            p.is_square(),
        ensures
            r.is_some() == udu_run(p@, p.rows()).is_some(),
            r.is_some() ==> {
                &&& (r.unwrap().upper(), r.unwrap().diagonal()) == udu_run(p@, p.rows()).unwrap()
                &&& r.unwrap().dim() == p.rows()
                &&& r.unwrap().diagonal().len() == p.rows()
                &&& forall|i: int, j: int|
                    0 <= j < i < p.rows() ==> #[trigger] r.unwrap().upper()[i][j] == R::spec_zero()
                &&& forall|i: int|
                    0 <= i < p.rows() ==> #[trigger] r.unwrap().upper()[i][i] == R::spec_one()
                &&& real_field_laws::<R>() ==> multiplies_back(
                    p@,
                    r.unwrap().upper(),
                    r.unwrap().diagonal(),
                    p.rows(),
                )
            },
    {
        let n = p.nrows();
        let mut u = Matrix::filled(n, n, R::zero());
        let mut d: Vec<R> = Vec::new();
        let mut t: usize = 0;
        while t < n
            invariant
                t <= n,
                d.len() == t,
                forall|x: int| 0 <= x < t ==> d@[x] == R::spec_zero(),
            decreases n - t,
        {
            d.push(R::zero());
            t += 1;
        }
        assert(u@ =~~= Seq::new(n as nat, |i: int| Seq::new(n as nat, |c: int| R::spec_zero())));
        assert(d@ =~= Seq::new(n as nat, |i: int| R::spec_zero()));
        t = 0;
        while t < n
            invariant
                t <= n,
                n == p.rows(),
                n == p.cols(),
                u.rows() == n,
                u.cols() == n,
                d.len() == n,
                udu_run(p@, t as nat) == Some((u@, d@)),
                forall|r: int, c: int| 0 <= c < r < n ==> #[trigger] u.at(r, c) == R::spec_zero(),
                forall|r: int| n - t <= r < n ==> #[trigger] u.at(r, r) == R::spec_one(),
            decreases n - t,
        {
            let j: usize = n - 1 - t;
            let ghost u0 = u;
            let ghost d0 = d@;
            let mut acc = R::zero();
            let mut k: usize = j + 1;
            while k < n
                invariant
                    j < k <= n,
                    u.rows() == n,
                    u.cols() == n,
                    d.len() == n,
                    u == u0,
                    d@ == d0,
                    acc == weighted_dot(d0, u0@, j as int, j as int, k as int),
                decreases n - k,
            {
                assert(u0@[j as int][k as int] == u0.at(j as int, k as int));
                acc = acc.plus(d[k].times(u.get(j, k)).times(u.get(j, k)));
                k += 1;
            }
            assert(p@[j as int][j as int] == p.at(j as int, j as int));
            let dj = p.get(j, j).minus(acc);
            if dj.is_zero() {
                proof {
                    lemma_udu_failure_persists(p@, (t + 1) as nat, n as nat);
                }
                return None;
            }
            d[j] = dj;
            let mut i: usize = 0;
            while i < j
                invariant
                    i <= j < n,
                    n == p.rows(),
                    n == p.cols(),
                    u.rows() == n,
                    u.cols() == n,
                    u0.rows() == n,
                    u0.cols() == n,
                    d.len() == n,
                    d0.len() == n,
                    d@ == d0.update(j as int, dj),
                    forall|r: int, c: int|
                        u0.has(r, c) ==> #[trigger] u.at(r, c) == (if c == j && r < i {
                            p@[r][j as int].spec_minus(
                                weighted_dot(d0, u0@, r, j as int, n as int),
                            ).spec_over(dj)
                        } else {
                            u0.at(r, c)
                        }),
                decreases j - i,
            {
                let mut acc = R::zero();
                let mut k: usize = j + 1;
                while k < n
                    invariant
                        i < j < k <= n,
                        u.rows() == n,
                        u.cols() == n,
                        u0.rows() == n,
                        u0.cols() == n,
                        d.len() == n,
                        d@ == d0.update(j as int, dj),
                        d0.len() == n,
                        forall|c: int|
                            j < c < n ==> #[trigger] u.at(j as int, c) == u0.at(j as int, c),
                        forall|c: int|
                            j < c < n ==> #[trigger] u.at(i as int, c) == u0.at(i as int, c),
                        acc == weighted_dot(d0, u0@, i as int, j as int, k as int),
                    decreases n - k,
                {
                    assert(u0@[j as int][k as int] == u0.at(j as int, k as int));
                    assert(u0@[i as int][k as int] == u0.at(i as int, k as int));
                    acc = acc.plus(d[k].times(u.get(j, k)).times(u.get(i, k)));
                    k += 1;
                }
                assert(p@[i as int][j as int] == p.at(i as int, j as int));
                let v = p.get(i, j).minus(acc).over(dj);
                u.set(i, j, v);
                i += 1;
            }
            u.set(j, j, R::one());
            proof {
                let goal = udu_step(p@, (u0@, d0), j as int).unwrap();
                assert forall|r: int| 0 <= r < n implies #[trigger] u@[r] =~= goal.0[r] by {
                    assert forall|c: int| 0 <= c < n implies u@[r][c] == goal.0[r][c] by {
                        assert(u@[r][c] == u.at(r, c));
                        assert(u0@[r][c] == u0.at(r, c));
                    }
                }
                assert(u@ =~= goal.0);
                assert(d@ =~= goal.1);
                assert(n - (t + 1) == j);
            }
            t += 1;
        }
        proof {
            assert forall|i: int, j: int| 0 <= j < i < n implies #[trigger] u@[i][j]
                == R::spec_zero() by {
                assert(u@[i][j] == u.at(i, j));
            }
            assert forall|i: int| 0 <= i < n implies #[trigger] u@[i][i] == R::spec_one() by {
                assert(u@[i][i] == u.at(i, i));
            }
            if real_field_laws::<R>() {
                assert(p@.len() == n);
                lemma_udu_reconstructs(p@, n as nat);
            }
        }
        Some(UDU { u, d })
    }

    /// The unit upper-triangular factor.
    pub fn u(&self) -> (m: &Matrix<R>)
        ensures
            m@ == self.upper(),
            m.rows() == self.dim(),
            m.cols() == self.dim(),
    {
        proof {
            use_type_invariant(self);
        }
        &self.u
    }

    /// The diagonal of the factor `D`.
    pub fn d(&self) -> (v: &Vec<R>)
        ensures
            v@ == self.diagonal(),
            v@.len() == self.dim(),
    {
        proof {
            use_type_invariant(self);
        }
        &self.d
    }

    /// The factor `D` as a matrix: the diagonal, and `fill` elsewhere.
    pub fn d_matrix(&self, fill: R) -> (m: Matrix<R>)
        ensures
            m.rows() == self.dim(),
            m.cols() == self.dim(),
            forall|i: int, j: int|
                m.has(i, j) ==> #[trigger] m.at(i, j) == (if i == j {
                    self.diagonal()[i]
                } else {
                    fill
                }),
    {
        proof {
            use_type_invariant(self);
        }
        let n = self.u.nrows();
        let mut m = Matrix::filled(n, n, fill);
        let mut i: usize = 0;
        while i < n
            invariant
                i <= n,
                n == self.d.len(),
                m.rows() == n,
                m.cols() == n,
                forall|r: int, c: int|
                    m.has(r, c) ==> #[trigger] m.at(r, c) == (if r == c && r < i {
                        self.d@[r]
                    } else {
                        fill
                    }),
            decreases n - i,
        {
            m.set(i, i, self.d[i]);
            i += 1;
        }
        m
    }
}

} // verus!
