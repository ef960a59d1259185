//! In exact arithmetic the factors of the LU decompositions multiply back
//! to the matrix, with its rows and columns exchanged as the pivoting
//! exchanged them.

use crate::full_piv_lu::{full_piv_run, full_pivot, lemma_full_pivot_dominates, FullPivState};
use crate::lu::{
    eliminate, lemma_lu_run_shape, lemma_pivot_dominates, lemma_pivot_in_range, lu_run, pivot_row,
};
use crate::matrix::{has_shape, swap_columns, swap_rows, unit_lower_entry, upper_entry};
use crate::permutation::{permute_columns, permute_rows, swaps_within};
use crate::scalar::{
    field_laws, lemma_minus_cancels, lemma_over_cancels, lemma_plus_associates,
    lemma_plus_zero, lemma_times_commutes, lemma_times_one, lemma_times_zero, lemma_zero_test,
    strict_weak_order, zero_is_least, ComplexField, RealField,
};
use vstd::prelude::*;

verus! {

/// The entry of row `i`, column `j` of the product of the first `n` columns
/// of `L` with the first `n` rows of `U`.
pub open spec fn lu_product<T: ComplexField>(b: Seq<Seq<T>>, i: int, j: int, n: nat) -> T
    decreases n,
{
    if n == 0 {
        T::spec_zero()
    } else {
        lu_product(b, i, j, (n - 1) as nat).spec_plus(
            unit_lower_entry(b, i, n - 1).spec_times(upper_entry(b, n - 1, j)),
        )
    }
}

/// What is left to eliminate in row `i`, column `j` after `s` steps.
pub open spec fn remainder<T: ComplexField>(b: Seq<Seq<T>>, i: int, j: int, s: int) -> T {
    if i >= s && j >= s {
        b[i][j]
    } else {
        T::spec_zero()
    }
}

/// After `s` steps the product of the factors found so far, with what is
/// left to eliminate, is the matrix `pa`.
pub open spec fn factored<T: ComplexField>(
    b: Seq<Seq<T>>,
    pa: Seq<Seq<T>>,
    rows: nat,
    cols: nat,
    s: nat,
) -> bool {
    forall|i: int, j: int|
        0 <= i < rows && 0 <= j < cols ==> #[trigger] pa[i][j] == lu_product(b, i, j, s).spec_plus(
            remainder(b, i, j, s as int),
        )
}

proof fn lemma_product_frame<T: ComplexField>(
    b: Seq<Seq<T>>,
    i: int,
    j: int,
    c: Seq<Seq<T>>,
    k: int,
    l: int,
    n: nat,
)
    requires
        forall|t: int| 0 <= t < n ==> unit_lower_entry(b, i, t) == unit_lower_entry(c, k, t),
        forall|t: int| 0 <= t < n ==> upper_entry(b, t, j) == upper_entry(c, t, l),
    ensures
        lu_product(b, i, j, n) == lu_product(c, k, l, n),
    decreases n,
{
    if n > 0 {
        lemma_product_frame(b, i, j, c, k, l, (n - 1) as nat);
    }
}

proof fn lemma_skip<T: ComplexField>(x: T, u: T, r: T)
    requires
        field_laws::<T>(),
    ensures
        x.spec_plus(T::spec_zero().spec_times(u)).spec_plus(r) == x.spec_plus(r),
{
    lemma_times_zero(u);
    lemma_plus_zero(x);
}

proof fn lemma_unit<T: ComplexField>(x: T, u: T)
    requires
        field_laws::<T>(),
    ensures
        x.spec_plus(T::spec_one().spec_times(u)).spec_plus(T::spec_zero()) == x.spec_plus(u),
{
    lemma_times_one(u);
    lemma_plus_zero(x.spec_plus(u));
}

proof fn lemma_left_of_pivot<T: ComplexField>(x: T, m: T)
    requires
        field_laws::<T>(),
    ensures
        x.spec_plus(m.spec_times(T::spec_zero())).spec_plus(T::spec_zero()) == x.spec_plus(
            T::spec_zero(),
        ),
{
    lemma_times_zero(m);
    lemma_plus_zero(x.spec_plus(T::spec_zero()));
}

proof fn lemma_at_pivot<T: ComplexField>(x: T, e: T, d: T)
    requires
        field_laws::<T>(),
        !d.spec_is_zero(),
    ensures
        x.spec_plus(e.spec_over(d).spec_times(d)).spec_plus(T::spec_zero()) == x.spec_plus(e),
{
    lemma_over_cancels(e, d);
    lemma_plus_zero(x.spec_plus(e));
}

proof fn lemma_right_of_pivot<T: ComplexField>(x: T, m: T, c: T, e: T)
    requires
        field_laws::<T>(),
    ensures
        x.spec_plus(m.spec_times(c)).spec_plus(e.spec_minus(c.spec_times(m))) == x.spec_plus(e),
{
    let y = m.spec_times(c);
    lemma_times_commutes(m, c);
    lemma_plus_associates(x, y, e.spec_minus(y));
    lemma_minus_cancels(e, y);
}

/// Exchanging two rows that are still to be eliminated, in the packed
/// matrix and in the matrix that it factors, keeps the factorization.
pub proof fn lemma_swap_rows_factored<T: ComplexField>(
    b: Seq<Seq<T>>,
    pa: Seq<Seq<T>>,
    rows: nat,
    cols: nat,
    s: nat,
    p: int,
)
    requires
        has_shape(b, rows, cols),
        has_shape(pa, rows, cols),
        s <= p < rows,
        factored(b, pa, rows, cols, s),
    ensures
        factored(swap_rows(b, s as int, p), swap_rows(pa, s as int, p), rows, cols, s),
{
    let si = s as int;
    let c = swap_rows(b, si, p);
    let pb = swap_rows(pa, si, p);
    assert forall|i: int, j: int| 0 <= i < rows && 0 <= j < cols implies #[trigger] pb[i][j]
        == lu_product(c, i, j, s).spec_plus(remainder(c, i, j, si)) by {
        let src = if i == si {
            p
        } else if i == p {
            si
        } else {
            i
        };
        assert(c[i] == b[src]);
        assert(pb[i] == pa[src]);
        assert(pa[src][j] == lu_product(b, src, j, s).spec_plus(remainder(b, src, j, si)));
        assert forall|t: int| 0 <= t < s implies unit_lower_entry(c, i, t) == unit_lower_entry(b, src, t) by {}
        assert forall|t: int| 0 <= t < s implies upper_entry(c, t, j) == upper_entry(b, t, j) by {
            assert(c[t] == b[t]);
        }
        lemma_product_frame(c, i, j, b, src, j, s);
    }
}

/// Exchanging two columns that are still to be eliminated, in the packed
/// matrix and in the matrix that it factors, keeps the factorization.
pub proof fn lemma_swap_columns_factored<T: ComplexField>(
    b: Seq<Seq<T>>,
    pa: Seq<Seq<T>>,
    rows: nat,
    cols: nat,
    s: nat,
    q: int,
)
    requires
        has_shape(b, rows, cols),
        has_shape(pa, rows, cols),
        s <= rows,
        s <= q < cols,
        factored(b, pa, rows, cols, s),
    ensures
        factored(swap_columns(b, s as int, q), swap_columns(pa, s as int, q), rows, cols, s),
{
    let si = s as int;
    let c = swap_columns(b, si, q);
    let pb = swap_columns(pa, si, q);
    assert forall|i: int, j: int| 0 <= i < rows && 0 <= j < cols implies #[trigger] pb[i][j]
        == lu_product(c, i, j, s).spec_plus(remainder(c, i, j, si)) by {
        let src = if j == si {
            q
        } else if j == q {
            si
        } else {
            j
        };
        assert(c[i][j] == b[i][src]);
        assert(pb[i][j] == pa[i][src]);
        assert(pa[i][src] == lu_product(b, i, src, s).spec_plus(remainder(b, i, src, si)));
        assert forall|t: int| 0 <= t < s implies unit_lower_entry(c, i, t) == unit_lower_entry(b, i, t) by {
            if t < i {
                assert(c[i][t] == b[i][t]);
            }
        }
        assert forall|t: int| 0 <= t < s implies upper_entry(c, t, j) == upper_entry(b, t, src) by {
            assert(c[t][j] == b[t][src]);
        }
        lemma_product_frame(c, i, j, b, i, src, s);
    }
}

/// A step that finds nothing to eliminate in its column keeps the
/// factorization.
pub proof fn lemma_empty_column_factored<T: ComplexField>(
    b: Seq<Seq<T>>,
    pa: Seq<Seq<T>>,
    rows: nat,
    cols: nat,
    s: nat,
)
    requires
        has_shape(b, rows, cols),
        s < rows,
        s < cols,
        field_laws::<T>(),
        forall|i: int| s < i < rows ==> (#[trigger] b[i])[s as int] == T::spec_zero(),
        factored(b, pa, rows, cols, s),
    ensures
        factored(b, pa, rows, cols, s + 1),
{
    let si = s as int;
    let z = T::spec_zero();
    assert forall|i: int, j: int| 0 <= i < rows && 0 <= j < cols implies #[trigger] pa[i][j]
        == lu_product(b, i, j, s + 1).spec_plus(remainder(b, i, j, si + 1)) by {
        let x = lu_product(b, i, j, s);
        assert(pa[i][j] == x.spec_plus(remainder(b, i, j, si)));
        let u = upper_entry(b, si, j);
        if i < si {
            lemma_skip(x, u, z);
        } else if i == si {
            lemma_unit(x, u);
        } else {
            assert(b[i][si] == z);
            lemma_skip(x, u, remainder(b, i, j, si + 1));
        }
    }
}

/// Eliminating below a pivot that is not zero takes the factorization one
/// step further.
pub proof fn lemma_eliminate_factored<T: ComplexField>(
    c: Seq<Seq<T>>,
    pa: Seq<Seq<T>>,
    rows: nat,
    cols: nat,
    s: nat,
)
    requires
        has_shape(c, rows, cols),
        s < rows,
        s < cols,
        field_laws::<T>(),
        !c[s as int][s as int].spec_is_zero(),
        factored(c, pa, rows, cols, s),
    ensures
        factored(eliminate(c, s as int), pa, rows, cols, s + 1),
{
    let si = s as int;
    let z = T::spec_zero();
    let e = eliminate(c, si);
    let d = c[si][si];
    assert forall|i: int, j: int| 0 <= i < rows && 0 <= j < cols implies #[trigger] pa[i][j]
        == lu_product(e, i, j, s + 1).spec_plus(remainder(e, i, j, si + 1)) by {
        let x = lu_product(c, i, j, s);
        assert(pa[i][j] == x.spec_plus(remainder(c, i, j, si)));
        assert(lu_product(e, i, j, s) == x) by {
            assert forall|t: int| 0 <= t < s implies unit_lower_entry(e, i, t) == unit_lower_entry(c, i, t) by {
                assert(e[i][t] == c[i][t]);
            }
            assert forall|t: int| 0 <= t < s implies upper_entry(e, t, j) == upper_entry(c, t, j) by {
                assert(e[t][j] == c[t][j]);
            }
            lemma_product_frame(e, i, j, c, i, j, s);
        }
        assert(e[si][j] == c[si][j]);
        if i < si {
            lemma_skip(x, upper_entry(e, si, j), z);
        } else if i == si {
            lemma_unit(x, upper_entry(e, si, j));
        } else {
            let m = c[i][si].spec_over(d);
            assert(e[i][si] == m);
            if j < si {
                lemma_left_of_pivot(x, m);
            } else if j == si {
                lemma_at_pivot(x, c[i][si], d);
            } else {
                assert(e[i][j] == c[i][j].spec_minus(c[si][j].spec_times(m)));
                lemma_right_of_pivot(x, m, c[si][j], c[i][j]);
            }
        }
    }
}

proof fn lemma_step<T: ComplexField>(
    b: Seq<Seq<T>>,
    pa: Seq<Seq<T>>,
    rows: nat,
    cols: nat,
    s: nat,
)
    requires
        has_shape(b, rows, cols),
        has_shape(pa, rows, cols),
        s < rows,
        s < cols,
        field_laws::<T>(),
        strict_weak_order::<T::Real>(),
        zero_is_least::<T>(),
        factored(b, pa, rows, cols, s),
    ensures
        ({
            let p = pivot_row(b, s as int, s as int, rows as int);
            if b[p][s as int].spec_is_zero() {
                factored(b, pa, rows, cols, s + 1)
            } else {
                factored(
                    eliminate(swap_rows(b, s as int, p), s as int),
                    swap_rows(pa, s as int, p),
                    rows,
                    cols,
                    s + 1,
                )
            }
        }),
{
    let si = s as int;
    let p = pivot_row(b, si, si, rows as int);
    lemma_pivot_dominates(b, si, si, rows as int);
    if b[p][si].spec_is_zero() {
        lemma_zero_test(b[p][si]);
        assert forall|i: int| s < i < rows implies (#[trigger] b[i])[si] == T::spec_zero() by {
            assert(!b[p][si].spec_modulus().spec_lt(b[i][si].spec_modulus()));
        }
        lemma_empty_column_factored(b, pa, rows, cols, s);
    } else {
        lemma_swap_rows_factored(b, pa, rows, cols, s, p);
        let c = swap_rows(b, si, p);
        assert(c[si] == b[p]);
        lemma_eliminate_factored(c, swap_rows(pa, si, p), rows, cols, s);
    }
}

/// The exchanges recorded keep the shape of the matrix they are replayed
/// on.
pub proof fn lemma_permuted_shape<T>(
    a: Seq<Seq<T>>,
    rows: nat,
    cols: nat,
    swaps: Seq<(usize, usize)>,
)
    requires
        has_shape(a, rows, cols),
        swaps_within(swaps, rows),
    ensures
        has_shape(permute_rows(a, swaps), rows, cols),
    decreases swaps.len(),
{
    if swaps.len() > 0 {
        let rest = swaps.drop_last();
        assert forall|k: int| 0 <= k < rest.len() implies (#[trigger] rest[k]).0 < rows
            && rest[k].1 < rows by {
            assert(rest[k] == swaps[k]);
        }
        lemma_permuted_shape(a, rows, cols, rest);
        assert(swaps[swaps.len() - 1].0 < rows);
    }
}

/// Every exchange that the decomposition records names two rows of the
/// matrix.
pub proof fn lemma_lu_swaps_within<T: ComplexField>(a: Seq<Seq<T>>, rows: nat, cols: nat, k: nat)
    requires
        has_shape(a, rows, cols),
        k <= rows,
        k <= cols,
        rows <= usize::MAX,
    ensures
        swaps_within(lu_run(a, k).1, rows),
    decreases k,
{
    if k > 0 {
        lemma_lu_swaps_within(a, rows, cols, (k - 1) as nat);
        lemma_lu_run_shape(a, rows, cols, (k - 1) as nat);
        let b = lu_run(a, (k - 1) as nat).0;
        lemma_pivot_in_range(b, k - 1, k - 1, rows as int);
    }
}

/// In a field, after `k` steps of the elimination the product of the
/// factors found so far, with what is left to eliminate, is the matrix with
/// its rows exchanged as recorded.
pub proof fn lemma_lu_factored<T: ComplexField>(a: Seq<Seq<T>>, rows: nat, cols: nat, k: nat)
    requires
        has_shape(a, rows, cols),
        k <= rows,
        k <= cols,
        rows <= usize::MAX,
        field_laws::<T>(),
        strict_weak_order::<T::Real>(),
        zero_is_least::<T>(),
    ensures
        factored(lu_run(a, k).0, permute_rows(a, lu_run(a, k).1), rows, cols, k),
    decreases k,
{
    if k == 0 {
        assert(lu_run(a, 0).1.len() == 0);
        assert forall|i: int, j: int| 0 <= i < rows && 0 <= j < cols implies #[trigger] a[i][j]
            == lu_product(a, i, j, 0).spec_plus(remainder(a, i, j, 0)) by {
            lemma_plus_zero(a[i][j]);
        }
    } else {
        let s = (k - 1) as nat;
        lemma_lu_factored(a, rows, cols, s);
        lemma_lu_run_shape(a, rows, cols, s);
        lemma_lu_swaps_within(a, rows, cols, s);
        let (b, swaps) = lu_run(a, s);
        let pa = permute_rows(a, swaps);
        lemma_permuted_shape(a, rows, cols, swaps);
        lemma_step(b, pa, rows, cols, s);
        let p = pivot_row(b, s as int, s as int, rows as int);
        lemma_pivot_in_range(b, s as int, s as int, rows as int);
        if !b[p][s as int].spec_is_zero() {
            if p != s {
                let after = swaps.push((s as usize, p as usize));
                assert(after.drop_last() =~= swaps);
                assert(permute_rows(a, after) == swap_rows(pa, s as int, p));
            } else {
                assert(swap_rows(pa, s as int, s as int) =~= pa);
            }
        }
    }
}

/// The factors that `packed` holds multiply to `pa`: every entry of `pa` is
/// the product of its row of `L` with its column of `U`, summed over the
/// `k` columns of `L`.
pub open spec fn multiplies_to<T: ComplexField>(
    packed: Seq<Seq<T>>,
    pa: Seq<Seq<T>>,
    rows: nat,
    cols: nat,
    k: nat,
) -> bool {
    forall|i: int, j: int|
        0 <= i < rows && 0 <= j < cols ==> #[trigger] pa[i][j] == lu_product(packed, i, j, k)
}

/// In a field, the factors `L` and `U` of a matrix multiply to the matrix
/// with its rows exchanged as the decomposition recorded: `P * A = L * U`.
/// Here `k` is the smaller dimension of the matrix.
pub proof fn lemma_lu_reconstructs<T: ComplexField>(a: Seq<Seq<T>>, rows: nat, cols: nat, k: nat)
    requires
        has_shape(a, rows, cols),
        rows <= usize::MAX,
        k <= rows,
        k <= cols,
        k == rows || k == cols,
        field_laws::<T>(),
        strict_weak_order::<T::Real>(),
        zero_is_least::<T>(),
    ensures
        multiplies_to(lu_run(a, k).0, permute_rows(a, lu_run(a, k).1), rows, cols, k),
{
    lemma_lu_factored(a, rows, cols, k);
    let (packed, swaps) = lu_run(a, k);
    let pa = permute_rows(a, swaps);
    assert forall|i: int, j: int| 0 <= i < rows && 0 <= j < cols implies #[trigger] pa[i][j]
        == lu_product(packed, i, j, k) by {
        assert(remainder(packed, i, j, k as int) == T::spec_zero());
        lemma_plus_zero(lu_product(packed, i, j, k));
    }
}

/// Row exchanges and column exchanges may be made in either order.
pub proof fn lemma_exchanges_commute<T>(
    a: Seq<Seq<T>>,
    rows: nat,
    cols: nat,
    i: int,
    j: int,
    q: Seq<(usize, usize)>,
)
    requires
        has_shape(a, rows, cols),
        0 <= i < rows,
        0 <= j < rows,
        swaps_within(q, cols),
    ensures
        permute_columns(swap_rows(a, i, j), q) == swap_rows(permute_columns(a, q), i, j),
        has_shape(permute_columns(a, q), rows, cols),
    decreases q.len(),
{
    if q.len() > 0 {
        let rest = q.drop_last();
        assert forall|k: int| 0 <= k < rest.len() implies (#[trigger] rest[k]).0 < cols
            && rest[k].1 < cols by {
            assert(rest[k] == q[k]);
        }
        lemma_exchanges_commute(a, rows, cols, i, j, rest);
        let x = q.last().0 as int;
        let y = q.last().1 as int;
        assert(q[q.len() - 1].0 < cols);
        let inner = permute_columns(a, rest);
        assert(swap_columns(swap_rows(inner, i, j), x, y) =~~= swap_rows(
            swap_columns(inner, x, y),
            i,
            j,
        ));
    }
}

/// Recording one more row exchange and one more column exchange, where
/// they move anything, exchanges those rows and columns of the matrix with
/// the earlier exchanges replayed.
pub proof fn lemma_exchange_replayed<T>(
    a: Seq<Seq<T>>,
    rows: nat,
    cols: nat,
    p: Seq<(usize, usize)>,
    q: Seq<(usize, usize)>,
    s: nat,
    r: int,
    c: int,
)
    requires
        has_shape(a, rows, cols),
        swaps_within(p, rows),
        swaps_within(q, cols),
        s <= r < rows,
        s <= c < cols,
        rows <= usize::MAX,
        cols <= usize::MAX,
    ensures
        ({
            let p1 = if r != s {
                p.push((s as usize, r as usize))
            } else {
                p
            };
            let q1 = if c != s {
                q.push((s as usize, c as usize))
            } else {
                q
            };
            &&& swaps_within(p1, rows)
            &&& swaps_within(q1, cols)
            &&& permute_columns(permute_rows(a, p1), q1) == swap_rows(
                swap_columns(permute_columns(permute_rows(a, p), q), s as int, c),
                s as int,
                r,
            )
        }),
{
    let si = s as int;
    let p1 = if r != s {
        p.push((s as usize, r as usize))
    } else {
        p
    };
    let q1 = if c != s {
        q.push((s as usize, c as usize))
    } else {
        q
    };
    let rowed = permute_rows(a, p);
    let rowed1 = permute_rows(a, p1);
    let pa = permute_columns(rowed, q);
    lemma_permuted_shape(a, rows, cols, p);
    lemma_exchanges_commute(rowed, rows, cols, si, r, q);
    assert(rowed1 == swap_rows(rowed, si, r)) by {
        if r != si {
            assert(p1.drop_last() =~= p);
        } else {
            assert(swap_rows(rowed, si, si) =~= rowed);
        }
    }
    assert(permute_columns(rowed1, q) == swap_rows(pa, si, r));
    assert(permute_columns(rowed1, q1) == swap_columns(swap_rows(pa, si, r), si, c)) by {
        if c != si {
            assert(q1.drop_last() =~= q);
        } else {
            assert(swap_columns(swap_rows(pa, si, r), si, si) =~~= swap_rows(pa, si, r));
        }
    }
    assert(swap_columns(swap_rows(pa, si, r), si, c) =~~= swap_rows(
        swap_columns(pa, si, c),
        si,
        r,
    ));
}

/// Nothing is left to eliminate after `s` steps.
pub open spec fn exhausted<T: ComplexField>(b: Seq<Seq<T>>, rows: nat, cols: nat, s: int) -> bool {
    forall|i: int, j: int|
        s <= i < rows && s <= j < cols ==> #[trigger] b[i][j] == T::spec_zero()
}

/// What the elimination with full pivoting holds after `k` steps, for a
/// matrix of `rows` rows and `cols` columns: the packed matrix has the
/// shape of the matrix, the exchanges name rows and columns of it, and the
/// product of the factors found so far, with what is left to eliminate, is
/// the matrix with its rows and columns exchanged as recorded. Once the
/// elimination has ended, nothing is left to eliminate.
pub open spec fn full_piv_factored<T: ComplexField>(
    a: Seq<Seq<T>>,
    st: FullPivState<T>,
    rows: nat,
    cols: nat,
    k: nat,
) -> bool {
    &&& has_shape(st.a, rows, cols)
    &&& swaps_within(st.p, rows)
    &&& swaps_within(st.q, cols)
    &&& factored(st.a, permute_columns(permute_rows(a, st.p), st.q), rows, cols, k)
    &&& st.stopped ==> exhausted(st.a, rows, cols, k as int)
}

proof fn lemma_full_piv_stay<T: ComplexField>(
    b: Seq<Seq<T>>,
    pa: Seq<Seq<T>>,
    rows: nat,
    cols: nat,
    s: nat,
)
    requires
        has_shape(b, rows, cols),
        s < rows,
        s < cols,
        field_laws::<T>(),
        exhausted(b, rows, cols, s as int),
        factored(b, pa, rows, cols, s),
    ensures
        factored(b, pa, rows, cols, s + 1),
        exhausted(b, rows, cols, s as int + 1),
{
    assert forall|i: int| s < i < rows implies (#[trigger] b[i])[s as int] == T::spec_zero() by {
        assert(b[i][s as int] == T::spec_zero());
    }
    lemma_empty_column_factored(b, pa, rows, cols, s);
}

proof fn lemma_full_piv_advance<T: ComplexField>(
    b: Seq<Seq<T>>,
    pa: Seq<Seq<T>>,
    rows: nat,
    cols: nat,
    s: nat,
    r: int,
    c: int,
)
    requires
        has_shape(b, rows, cols),
        has_shape(pa, rows, cols),
        s <= r < rows,
        s <= c < cols,
        field_laws::<T>(),
        !b[r][c].spec_is_zero(),
        factored(b, pa, rows, cols, s),
    ensures
        factored(
            eliminate(swap_rows(swap_columns(b, s as int, c), s as int, r), s as int),
            swap_rows(swap_columns(pa, s as int, c), s as int, r),
            rows,
            cols,
            s + 1,
        ),
        has_shape(
            eliminate(swap_rows(swap_columns(b, s as int, c), s as int, r), s as int),
            rows,
            cols,
        ),
{
    let si = s as int;
    let b1 = swap_columns(b, si, c);
    let pa1 = swap_columns(pa, si, c);
    lemma_swap_columns_factored(b, pa, rows, cols, s, c);
    let b2 = swap_rows(b1, si, r);
    let pa2 = swap_rows(pa1, si, r);
    lemma_swap_rows_factored(b1, pa1, rows, cols, s, r);
    assert(b2[si] == b1[r]);
    assert(b1[r][si] == b[r][c]);
    lemma_eliminate_factored(b2, pa2, rows, cols, s);
}

proof fn lemma_zero_pivot_exhausts<T: ComplexField>(b: Seq<Seq<T>>, rows: nat, cols: nat, s: nat)
    requires
        has_shape(b, rows, cols),
        s < rows,
        s < cols,
        field_laws::<T>(),
        strict_weak_order::<T::Real>(),
        zero_is_least::<T>(),
        b[full_pivot(b, s as int, cols as int).0][full_pivot(b, s as int, cols as int).1]
            .spec_is_zero(),
    ensures
        exhausted(b, rows, cols, s as int),
{
    let si = s as int;
    lemma_full_pivot_dominates(b, si, rows as int, cols as int);
    let (r, c) = full_pivot(b, si, cols as int);
    lemma_zero_test(b[r][c]);
    assert forall|i: int, j: int| si <= i < rows && si <= j < cols implies #[trigger] b[i][j]
        == T::spec_zero() by {
        assert(!b[r][c].spec_modulus().spec_lt(b[i][j].spec_modulus()));
    }
}

/// In a field, the elimination with full pivoting keeps the matrix
/// factored at every step.
pub proof fn lemma_full_piv_factored<T: ComplexField>(a: Seq<Seq<T>>, rows: nat, cols: nat, k: nat)
    requires
        has_shape(a, rows, cols),
        k <= rows,
        k <= cols,
        rows <= usize::MAX,
        cols <= usize::MAX,
        field_laws::<T>(),
        strict_weak_order::<T::Real>(),
        zero_is_least::<T>(),
    ensures
        full_piv_factored(a, full_piv_run(a, k), rows, cols, k),
    decreases k,
{
    if k == 0 {
        let st = full_piv_run(a, 0);
        assert(st.p.len() == 0 && st.q.len() == 0);
        assert forall|i: int, j: int| 0 <= i < rows && 0 <= j < cols implies #[trigger] a[i][j]
            == lu_product(a, i, j, 0).spec_plus(remainder(a, i, j, 0)) by {
            lemma_plus_zero(a[i][j]);
        }
    } else {
        let s = (k - 1) as nat;
        let si = s as int;
        lemma_full_piv_factored(a, rows, cols, s);
        let st = full_piv_run(a, s);
        let pa = permute_columns(permute_rows(a, st.p), st.q);
        lemma_permuted_shape(a, rows, cols, st.p);
        lemma_exchanges_commute(permute_rows(a, st.p), rows, cols, 0, 0, st.q);
        if st.stopped {
            lemma_full_piv_stay(st.a, pa, rows, cols, s);
        } else {
            assert(st.a[si].len() == cols);
            lemma_full_pivot_dominates(st.a, si, rows as int, cols as int);
            let (r, c) = full_pivot(st.a, si, cols as int);
            if st.a[r][c].spec_is_zero() {
                lemma_zero_pivot_exhausts(st.a, rows, cols, s);
                lemma_full_piv_stay(st.a, pa, rows, cols, s);
            } else {
                lemma_full_piv_advance(st.a, pa, rows, cols, s, r, c);
                lemma_exchange_replayed(a, rows, cols, st.p, st.q, s, r, c);
            }
        }
    }
}

/// In a field, the factors `L` and `U` that full pivoting finds multiply to
/// the matrix with its rows and columns exchanged as the decomposition
/// recorded: `P * A * Q = L * U`. Here `k` is the smaller dimension of the
/// matrix.
pub proof fn lemma_full_piv_lu_reconstructs<T: ComplexField>(
    a: Seq<Seq<T>>,
    rows: nat,
    cols: nat,
    k: nat,
)
    requires
        has_shape(a, rows, cols),
        rows <= usize::MAX,
        cols <= usize::MAX,
        k <= rows,
        k <= cols,
        k == rows || k == cols,
        field_laws::<T>(),
        strict_weak_order::<T::Real>(),
        zero_is_least::<T>(),
    ensures
        multiplies_to(
            full_piv_run(a, k).a,
            permute_columns(permute_rows(a, full_piv_run(a, k).p), full_piv_run(a, k).q),
            rows,
            cols,
            k,
        ),
{
    lemma_full_piv_factored(a, rows, cols, k);
    let st = full_piv_run(a, k);
    let pa = permute_columns(permute_rows(a, st.p), st.q);
    assert forall|i: int, j: int| 0 <= i < rows && 0 <= j < cols implies #[trigger] pa[i][j]
        == lu_product(st.a, i, j, k) by {
        assert(!(i >= k && j >= k));
        assert(remainder(st.a, i, j, k as int) == T::spec_zero());
        lemma_plus_zero(lu_product(st.a, i, j, k));
    }
}

} // verus!
