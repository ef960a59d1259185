//! Permutations recorded as sequences of exchanges.

use crate::matrix::{identity, swap_columns, swap_rows, Matrix};
use crate::scalar::ComplexField;
use vstd::prelude::*;

verus! {

/// Every index that `swaps` names is below `n`.
pub open spec fn swaps_within(swaps: Seq<(usize, usize)>, n: nat) -> bool {
    forall|k: int| 0 <= k < swaps.len() ==> (#[trigger] swaps[k]).0 < n && swaps[k].1 < n
}

/// The rows of `a` after the row exchanges of `swaps`, first to last.
pub open spec fn permute_rows<T>(a: Seq<Seq<T>>, swaps: Seq<(usize, usize)>) -> Seq<Seq<T>>
    decreases swaps.len(),
{
    if swaps.len() == 0 {
        a
    } else {
        swap_rows(
            permute_rows(a, swaps.drop_last()),
            swaps.last().0 as int,
            swaps.last().1 as int,
        )
    }
}

/// The rows of `a` after the row exchanges of `swaps`, last to first.
pub open spec fn inv_permute_rows<T>(a: Seq<Seq<T>>, swaps: Seq<(usize, usize)>) -> Seq<Seq<T>>
    decreases swaps.len(),
{
    if swaps.len() == 0 {
        a
    } else {
        inv_permute_rows(
            swap_rows(a, swaps.last().0 as int, swaps.last().1 as int),
            swaps.drop_last(),
        )
    }
}

/// The rows of `a` after the column exchanges of `swaps`, first to last.
pub open spec fn permute_columns<T>(a: Seq<Seq<T>>, swaps: Seq<(usize, usize)>) -> Seq<Seq<T>>
    decreases swaps.len(),
{
    if swaps.len() == 0 {
        a
    } else {
        swap_columns(
            permute_columns(a, swaps.drop_last()),
            swaps.last().0 as int,
            swaps.last().1 as int,
        )
    }
}

/// The rows of `a` after the column exchanges of `swaps`, last to first.
pub open spec fn inv_permute_columns<T>(a: Seq<Seq<T>>, swaps: Seq<(usize, usize)>) -> Seq<
    Seq<T>,
>
    decreases swaps.len(),
{
    if swaps.len() == 0 {
        a
    } else {
        inv_permute_columns(
            swap_columns(a, swaps.last().0 as int, swaps.last().1 as int),
            swaps.drop_last(),
        )
    }
}

/// Where each index of `0..n` comes from after the exchanges of `swaps`,
/// first to last: position `i` holds the index that started at `result[i]`.
pub open spec fn permuted_indices(n: nat, swaps: Seq<(usize, usize)>) -> Seq<int>
    decreases swaps.len(),
{
    if swaps.len() == 0 {
        Seq::new(n, |i: int| i)
    } else {
        let p = permuted_indices(n, swaps.drop_last());
        let a = swaps.last().0 as int;
        let b = swaps.last().1 as int;
        p.update(a, p[b]).update(b, p[a])
    }
}

/// Some position of `p` holds `j`.
pub open spec fn reaches(p: Seq<int>, j: int) -> bool {
    exists|i: int| 0 <= i < p.len() && #[trigger] p[i] == j
}

/// `p` maps `0..p.len()` onto itself, one to one.
pub open spec fn is_bijection(p: Seq<int>) -> bool {
    &&& forall|i: int| 0 <= i < p.len() ==> 0 <= #[trigger] p[i] < p.len()
    &&& forall|i: int, j: int| 0 <= i < j < p.len() ==> p[i] != p[j]
    &&& forall|j: int| 0 <= j < p.len() ==> #[trigger] reaches(p, j)
}

/// The matrix whose row `i` has a one in column `p[i]` and zeros elsewhere.
pub open spec fn permutation_matrix<T: ComplexField>(p: Seq<int>) -> Seq<Seq<T>> {
    Seq::new(
        p.len(),
        |i: int|
            Seq::new(
                p.len(),
                |j: int|
                    if j == p[i] {
                        T::spec_one()
                    } else {
                        T::spec_zero()
                    },
            ),
    )
}

/// The exchanges of a recorded sequence keep `0..n` a one-to-one image of
/// itself.
pub proof fn lemma_permuted_indices_bijection(n: nat, swaps: Seq<(usize, usize)>)
    requires
        swaps_within(swaps, n),
    ensures
        permuted_indices(n, swaps).len() == n,
        is_bijection(permuted_indices(n, swaps)),
    decreases swaps.len(),
{
    let q = permuted_indices(n, swaps);
    if swaps.len() == 0 {
        assert forall|j: int| 0 <= j < q.len() implies #[trigger] reaches(q, j) by {
            assert(q[j] == j);
        }
    } else {
        let rest = swaps.drop_last();
        assert forall|k: int| 0 <= k < rest.len() implies (#[trigger] rest[k]).0 < n && rest[k].1
            < n by {
            assert(rest[k] == swaps[k]);
        }
        lemma_permuted_indices_bijection(n, rest);
        let p = permuted_indices(n, rest);
        let a = swaps.last().0 as int;
        let b = swaps.last().1 as int;
        assert(swaps[swaps.len() - 1].0 < n);
        assert(q =~= p.update(a, p[b]).update(b, p[a]));
        assert forall|j: int| 0 <= j < q.len() implies #[trigger] reaches(q, j) by {
            assert(reaches(p, j));
            let i0 = choose|i: int| 0 <= i < p.len() && #[trigger] p[i] == j;
            if i0 == a {
                assert(q[b] == j);
            } else if i0 == b {
                assert(q[a] == j);
            } else {
                assert(q[i0] == j);
            }
        }
    }
}

/// Replaying recorded row exchanges on the identity matrix gives a
/// permutation matrix: row `i` has its single one in column
/// `permuted_indices(n, swaps)[i]`, and these columns are a one-to-one image
/// of `0..n`, so every row and every column holds exactly one one.
pub proof fn lemma_permute_identity<T: ComplexField>(n: nat, swaps: Seq<(usize, usize)>)
    requires
        swaps_within(swaps, n),
    ensures
        permute_rows(identity::<T>(n), swaps) == permutation_matrix::<T>(
            permuted_indices(n, swaps),
        ),
        is_bijection(permuted_indices(n, swaps)),
        permuted_indices(n, swaps).len() == n,
    decreases swaps.len(),
{
    lemma_permuted_indices_bijection(n, swaps);
    let q = permuted_indices(n, swaps);
    let lhs = permute_rows(identity::<T>(n), swaps);
    let rhs = permutation_matrix::<T>(q);
    if swaps.len() == 0 {
        assert(lhs =~~= rhs);
    } else {
        let rest = swaps.drop_last();
        assert forall|k: int| 0 <= k < rest.len() implies (#[trigger] rest[k]).0 < n && rest[k].1
            < n by {
            assert(rest[k] == swaps[k]);
        }
        lemma_permute_identity::<T>(n, rest);
        let p = permuted_indices(n, rest);
        let a = swaps.last().0 as int;
        let b = swaps.last().1 as int;
        assert(swaps[swaps.len() - 1].0 < n);
        let prev = permutation_matrix::<T>(p);
        assert(lhs == swap_rows(prev, a, b));
        assert forall|i: int| 0 <= i < n implies #[trigger] lhs[i] =~= rhs[i] by {
            if i == b {
                assert(lhs[i] == prev[a]);
            } else if i == a {
                assert(lhs[i] == prev[b]);
            } else {
                assert(lhs[i] == prev[i]);
            }
        }
        assert(lhs =~= rhs);
    }
}

/// Undoing recorded row exchanges, last to first, gives back the matrix
/// they were made on.
pub proof fn lemma_permute_rows_round_trip<T>(a: Seq<Seq<T>>, swaps: Seq<(usize, usize)>)
    requires
        swaps_within(swaps, a.len()),
    ensures
        inv_permute_rows(permute_rows(a, swaps), swaps) == a,
        permute_rows(a, swaps).len() == a.len(),
    decreases swaps.len(),
{
    if swaps.len() > 0 {
        let rest = swaps.drop_last();
        assert forall|k: int| 0 <= k < rest.len() implies (#[trigger] rest[k]).0 < a.len()
            && rest[k].1 < a.len() by {
            assert(rest[k] == swaps[k]);
        }
        lemma_permute_rows_round_trip(a, rest);
        let i = swaps.last().0 as int;
        let j = swaps.last().1 as int;
        assert(swaps[swaps.len() - 1].0 < a.len());
        let b = permute_rows(a, rest);
        assert(swap_rows(swap_rows(b, i, j), i, j) =~= b);
    }
}

/// Undoing recorded column exchanges, last to first, gives back the matrix
/// they were made on.
pub proof fn lemma_permute_columns_round_trip<T>(
    a: Seq<Seq<T>>,
    cols: nat,
    swaps: Seq<(usize, usize)>,
)
    requires
        forall|r: int| 0 <= r < a.len() ==> (#[trigger] a[r]).len() == cols,
        swaps_within(swaps, cols),
    ensures
        inv_permute_columns(permute_columns(a, swaps), swaps) == a,
        permute_columns(a, swaps).len() == a.len(),
        forall|r: int| 0 <= r < a.len() ==> (#[trigger] permute_columns(a, swaps)[r]).len() == cols,
    decreases swaps.len(),
{
    if swaps.len() > 0 {
        let rest = swaps.drop_last();
        assert forall|k: int| 0 <= k < rest.len() implies (#[trigger] rest[k]).0 < cols
            && rest[k].1 < cols by {
            assert(rest[k] == swaps[k]);
        }
        lemma_permute_columns_round_trip(a, cols, rest);
        let i = swaps.last().0 as int;
        let j = swaps.last().1 as int;
        assert(swaps[swaps.len() - 1].0 < cols);
        let b = permute_columns(a, rest);
        assert(swap_columns(swap_columns(b, i, j), i, j) =~~= b);
    }
}

/// A permutation, held as the exchanges that produce it.
pub struct PermutationSequence {
    swaps: Vec<(usize, usize)>,
}

impl View for PermutationSequence {
    type V = Seq<(usize, usize)>;

    closed spec fn view(&self) -> Seq<(usize, usize)> {
        self.swaps@
    }
}

impl PermutationSequence {
    /// The permutation that moves nothing.
    pub fn identity() -> (p: Self)
        ensures
            p@.len() == 0,
    {
        PermutationSequence { swaps: Vec::new() }
    }

    /// Records the exchange of `i` and `j`; an exchange of an index with
    /// itself is not recorded.
    pub fn append_permutation(&mut self, i: usize, j: usize)
        ensures
            final(self)@ == (if i != j {
                old(self)@.push((i, j))
            } else {
                old(self)@
            }),
    {
        if i != j {
            self.swaps.push((i, j));
        }
    }

    /// The number of exchanges recorded.
    pub fn len(&self) -> (n: usize)
        ensures
            n == self@.len(),
    {
        self.swaps.len()
    }

    pub fn is_empty(&self) -> (b: bool)
        ensures
            b == (self@.len() == 0),
    {
        self.swaps.len() == 0
    }

    /// The `k`-th exchange recorded.
    pub fn get(&self, k: usize) -> (s: (usize, usize))
        requires
            k < self@.len(),
        ensures
            s == self@[k as int],
    {
        self.swaps[k]
    }

    /// Applies the row exchanges to `rhs`, first to last.
    pub fn permute_rows<T: Copy>(&self, rhs: &mut Matrix<T>)
        requires
            swaps_within(self@, old(rhs).rows()),
        ensures
            final(rhs).rows() == old(rhs).rows(),
            final(rhs).cols() == old(rhs).cols(),
            final(rhs)@ == permute_rows(old(rhs)@, self@),
    {
        let ghost before = rhs@;
        let n = self.swaps.len();
        let mut k: usize = 0;
        while k < n
            invariant
                k <= n,
                n == self@.len(),
                swaps_within(self@, rhs.rows()),
                rhs.rows() == old(rhs).rows(),
                rhs.cols() == old(rhs).cols(),
                rhs@ == permute_rows(before, self@.take(k as int)),
            decreases n - k,
        {
            let (i, j) = self.swaps[k];
            assert(self@[k as int].0 < rhs.rows());
            rhs.swap_rows(i, j);
            proof {
                let s = self@.take(k + 1);
                assert(s.drop_last() =~= self@.take(k as int));
                assert(s.last() == self@[k as int]);
            }
            k += 1;
        }
        assert(self@.take(n as int) =~= self@);
    }

    /// Applies the row exchanges to `rhs`, last to first.
    pub fn inv_permute_rows<T: Copy>(&self, rhs: &mut Matrix<T>)
        requires
            swaps_within(self@, old(rhs).rows()),
        ensures
            final(rhs).rows() == old(rhs).rows(),
            final(rhs).cols() == old(rhs).cols(),
            final(rhs)@ == inv_permute_rows(old(rhs)@, self@),
    {
        let ghost before = rhs@;
        let mut k: usize = self.swaps.len();
        assert(self@.take(k as int) =~= self@);
        while k > 0
            invariant
                k <= self@.len(),
                swaps_within(self@, rhs.rows()),
                rhs.rows() == old(rhs).rows(),
                rhs.cols() == old(rhs).cols(),
                inv_permute_rows(rhs@, self@.take(k as int)) == inv_permute_rows(before, self@),
            decreases k,
        {
            k -= 1;
            let (i, j) = self.swaps[k];
            assert(self@[k as int].0 < rhs.rows());
            proof {
                let s = self@.take(k + 1);
                assert(s.drop_last() =~= self@.take(k as int));
                assert(s.last() == self@[k as int]);
            }
            rhs.swap_rows(i, j);
        }
    }

    /// Applies the column exchanges to `rhs`, first to last.
    pub fn permute_columns<T: Copy>(&self, rhs: &mut Matrix<T>)
        requires
            swaps_within(self@, old(rhs).cols()),
        ensures
            final(rhs).rows() == old(rhs).rows(),
            final(rhs).cols() == old(rhs).cols(),
            final(rhs)@ == permute_columns(old(rhs)@, self@),
    {
        let ghost before = rhs@;
        let n = self.swaps.len();
        let mut k: usize = 0;
        while k < n
            invariant
                k <= n,
                n == self@.len(),
                swaps_within(self@, rhs.cols()),
                rhs.rows() == old(rhs).rows(),
                rhs.cols() == old(rhs).cols(),
                rhs@ == permute_columns(before, self@.take(k as int)),
            decreases n - k,
        {
            let (i, j) = self.swaps[k];
            assert(self@[k as int].0 < rhs.cols());
            rhs.swap_columns(i, j);
            proof {
                let s = self@.take(k + 1);
                assert(s.drop_last() =~= self@.take(k as int));
                assert(s.last() == self@[k as int]);
            }
            k += 1;
        }
        assert(self@.take(n as int) =~= self@);
    }

    /// Applies the column exchanges to `rhs`, last to first.
    pub fn inv_permute_columns<T: Copy>(&self, rhs: &mut Matrix<T>)
        requires
            swaps_within(self@, old(rhs).cols()),
        ensures
            final(rhs).rows() == old(rhs).rows(),
            final(rhs).cols() == old(rhs).cols(),
            final(rhs)@ == inv_permute_columns(old(rhs)@, self@),
    {
        let ghost before = rhs@;
        let mut k: usize = self.swaps.len();
        assert(self@.take(k as int) =~= self@);
        while k > 0
            invariant
                k <= self@.len(),
                swaps_within(self@, rhs.cols()),
                rhs.rows() == old(rhs).rows(),
                rhs.cols() == old(rhs).cols(),
                inv_permute_columns(rhs@, self@.take(k as int)) == inv_permute_columns(
                    before,
                    self@,
                ),
            decreases k,
        {
            k -= 1;
            let (i, j) = self.swaps[k];
            assert(self@[k as int].0 < rhs.cols());
            proof {
                let s = self@.take(k + 1);
                assert(s.drop_last() =~= self@.take(k as int));
                assert(s.last() == self@[k as int]);
            }
            rhs.swap_columns(i, j);
        }
    }
}

} // verus!
