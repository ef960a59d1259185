//! The scalar interface that the factorizations are generic over.
//!
//! Every operation comes as a pair: a `spec` function that names the value
//! and an executable function that returns exactly that value. Nothing else
//! is promised here, so a rounding implementation satisfies the interface as
//! well as an exact one. The algebraic laws, at the end of this file, are
//! predicates that theorems take as hypotheses.

use vstd::prelude::*;

verus! {

/// An ordered scalar: the type of magnitudes, tolerances, eigenvalues of
/// symmetric matrices and singular values.
pub trait RealField: Copy {
    spec fn spec_zero() -> Self;

    spec fn spec_one() -> Self;

    /// The default tolerance of the iterative algorithms.
    spec fn spec_epsilon() -> Self;

    spec fn spec_plus(self, rhs: Self) -> Self;

    spec fn spec_minus(self, rhs: Self) -> Self;

    spec fn spec_times(self, rhs: Self) -> Self;

    spec fn spec_over(self, rhs: Self) -> Self;

    spec fn spec_neg(self) -> Self;

    spec fn spec_abs(self) -> Self;

    spec fn spec_sqrt(self) -> Self;

    spec fn spec_is_zero(self) -> bool;

    spec fn spec_lt(self, rhs: Self) -> bool;

    spec fn spec_le(self, rhs: Self) -> bool;

    fn zero() -> (r: Self)
        ensures
            r == Self::spec_zero(),
    ;

    fn one() -> (r: Self)
        ensures
            r == Self::spec_one(),
    ;

    fn epsilon() -> (r: Self)
        ensures
            r == Self::spec_epsilon(),
    ;

    fn plus(self, rhs: Self) -> (r: Self)
        ensures
            r == self.spec_plus(rhs),
    ;

    fn minus(self, rhs: Self) -> (r: Self)
        ensures
            r == self.spec_minus(rhs),
    ;

    fn times(self, rhs: Self) -> (r: Self)
        ensures
            r == self.spec_times(rhs),
    ;

    fn over(self, rhs: Self) -> (r: Self)
        ensures
            r == self.spec_over(rhs),
    ;

    fn neg(self) -> (r: Self)
        ensures
            r == self.spec_neg(),
    ;

    fn abs(self) -> (r: Self)
        ensures
            r == self.spec_abs(),
    ;

    fn sqrt(self) -> (r: Self)
        ensures
            r == self.spec_sqrt(),
    ;

    fn is_zero(self) -> (b: bool)
        ensures
            b == self.spec_is_zero(),
    ;

    fn lt(self, rhs: Self) -> (b: bool)
        ensures
            b == self.spec_lt(rhs),
    ;

    fn le(self, rhs: Self) -> (b: bool)
        ensures
            b == self.spec_le(rhs),
    ;
}

/// A scalar of the field that matrices hold: real or complex.
pub trait ComplexField: Copy {
    /// The type of magnitudes of this field.
    type Real: RealField;

    spec fn spec_zero() -> Self;

    spec fn spec_one() -> Self;

    spec fn spec_plus(self, rhs: Self) -> Self;

    spec fn spec_minus(self, rhs: Self) -> Self;

    spec fn spec_times(self, rhs: Self) -> Self;

    spec fn spec_over(self, rhs: Self) -> Self;

    spec fn spec_neg(self) -> Self;

    spec fn spec_conj(self) -> Self;

    spec fn spec_from_real(r: Self::Real) -> Self;

    spec fn spec_re(self) -> Self::Real;

    spec fn spec_modulus(self) -> Self::Real;

    spec fn spec_scale(self, factor: Self::Real) -> Self;

    spec fn spec_unscale(self, divisor: Self::Real) -> Self;

    /// The principal square root, where the field has one for `self`.
    spec fn spec_try_sqrt(self) -> Option<Self>;

    spec fn spec_is_zero(self) -> bool;

    fn zero() -> (r: Self)
        ensures
            r == Self::spec_zero(),
    ;

    fn one() -> (r: Self)
        ensures
            r == Self::spec_one(),
    ;

    fn plus(self, rhs: Self) -> (r: Self)
        ensures
            r == self.spec_plus(rhs),
    ;

    fn minus(self, rhs: Self) -> (r: Self)
        ensures
            r == self.spec_minus(rhs),
    ;

    fn times(self, rhs: Self) -> (r: Self)
        ensures
            r == self.spec_times(rhs),
    ;

    fn over(self, rhs: Self) -> (r: Self)
        ensures
            r == self.spec_over(rhs),
    ;

    fn neg(self) -> (r: Self)
        ensures
            r == self.spec_neg(),
    ;

    /// The complex conjugate; the identity on a real field.
    fn conj(self) -> (r: Self)
        ensures
            r == self.spec_conj(),
    ;

    fn from_real(r: Self::Real) -> (z: Self)
        ensures
            z == Self::spec_from_real(r),
    ;

    /// The real part.
    fn re(self) -> (r: Self::Real)
        ensures
            r == self.spec_re(),
    ;

    /// The absolute value.
    fn modulus(self) -> (r: Self::Real)
        ensures
            r == self.spec_modulus(),
    ;

    /// The product with a real factor.
    fn scale(self, factor: Self::Real) -> (r: Self)
        ensures
            r == self.spec_scale(factor),
    ;

    /// The quotient by a real divisor.
    fn unscale(self, divisor: Self::Real) -> (r: Self)
        ensures
            r == self.spec_unscale(divisor),
    ;

    fn try_sqrt(self) -> (r: Option<Self>)
        ensures
            r == self.spec_try_sqrt(),
    ;

    fn is_zero(self) -> (b: bool)
        ensures
            b == self.spec_is_zero(),
    ;
}

/// The unit scalar in the direction of `z`: `z` over its absolute value, or
/// one where that is zero.
pub open spec fn spec_signum<T: ComplexField>(z: T) -> T {
    if z.spec_modulus().spec_is_zero() {
        T::spec_one()
    } else {
        z.spec_unscale(z.spec_modulus())
    }
}

/// The unit scalar in the direction of `z`.
pub fn signum<T: ComplexField>(z: T) -> (s: T)
    ensures
        s == spec_signum(z),
{
    let m = z.modulus();
    if m.is_zero() {
        T::one()
    } else {
        z.unscale(m)
    }
}

/// The real number two.
pub open spec fn spec_two<R: RealField>() -> R {
    R::spec_one().spec_plus(R::spec_one())
}

/// The real number two.
pub fn two<R: RealField>() -> (r: R)
    ensures
        r == spec_two::<R>(),
{
    R::one().plus(R::one())
}

/// `lt` is a strict weak order: it is asymmetric, and being not below is
/// transitive.
pub open spec fn strict_weak_order<R: RealField>() -> bool {
    &&& forall|a: R, b: R| #[trigger] a.spec_lt(b) ==> !b.spec_lt(a)
    &&& forall|a: R, b: R, c: R|
        !#[trigger] a.spec_lt(b) && !#[trigger] b.spec_lt(c) ==> !a.spec_lt(c)
}

/// Where `a` is not larger than `b` in absolute value, the quotient of `a`
/// by a nonzero `b` is at most one in absolute value, and so is `a` itself
/// if `b` is zero.
pub open spec fn dominated_quotients<T: ComplexField>() -> bool {
    forall|a: T, b: T|
        !#[trigger] b.spec_modulus().spec_lt(a.spec_modulus()) ==> (if b.spec_is_zero() {
            a.spec_modulus().spec_le(T::Real::spec_one())
        } else {
            a.spec_over(b).spec_modulus().spec_le(T::Real::spec_one())
        })
}

/// The zero of the field behaves as a zero: nothing is smaller in absolute
/// value, it is absorbed by products and quotients, and subtracting it
/// changes nothing.
pub open spec fn absorbing_zero<T: ComplexField>() -> bool {
    &&& forall|x: T| !#[trigger] x.spec_modulus().spec_lt(T::spec_zero().spec_modulus())
    &&& forall|x: T| #[trigger] x.spec_times(T::spec_zero()) == T::spec_zero()
    &&& forall|x: T| #[trigger] x.spec_minus(T::spec_zero()) == x
    &&& forall|x: T| !x.spec_is_zero() ==> #[trigger] T::spec_zero().spec_over(x) == T::spec_zero()
}

/// The operations obey the laws of a field as far as the elimination
/// algorithms need them: addition and multiplication are commutative,
/// addition is associative, zero and one are neutral, zero absorbs
/// products, subtraction and division undo addition and multiplication, and
/// only the zero of the field tests as zero.
#[verifier::opaque]
pub open spec fn field_laws<T: ComplexField>() -> bool {
    &&& forall|a: T, b: T| #[trigger] a.spec_plus(b) == b.spec_plus(a)
    &&& forall|a: T, b: T, c: T| #[trigger]
        a.spec_plus(b).spec_plus(c) == a.spec_plus(b.spec_plus(c))
    &&& forall|a: T| #[trigger] a.spec_plus(T::spec_zero()) == a
    &&& forall|a: T, b: T| #[trigger] a.spec_times(b) == b.spec_times(a)
    &&& forall|a: T| #[trigger] T::spec_one().spec_times(a) == a
    &&& forall|a: T| #[trigger] a.spec_times(T::spec_zero()) == T::spec_zero()
    &&& forall|a: T, b: T| b.spec_plus(#[trigger] a.spec_minus(b)) == a
    &&& forall|a: T, d: T| !d.spec_is_zero() ==> (#[trigger] a.spec_over(d)).spec_times(d) == a
    &&& forall|a: T| #[trigger] a.spec_is_zero() <==> a == T::spec_zero()
}

/// The laws of `field_laws`, for the operations of an ordered scalar.
#[verifier::opaque]
pub open spec fn real_field_laws<R: RealField>() -> bool {
    &&& forall|a: R, b: R| #[trigger] a.spec_plus(b) == b.spec_plus(a)
    &&& forall|a: R, b: R, c: R| #[trigger]
        a.spec_plus(b).spec_plus(c) == a.spec_plus(b.spec_plus(c))
    &&& forall|a: R| #[trigger] a.spec_plus(R::spec_zero()) == a
    &&& forall|a: R, b: R| #[trigger] a.spec_times(b) == b.spec_times(a)
    &&& forall|a: R| #[trigger] R::spec_one().spec_times(a) == a
    &&& forall|a: R| #[trigger] a.spec_times(R::spec_zero()) == R::spec_zero()
    &&& forall|a: R, b: R| b.spec_plus(#[trigger] a.spec_minus(b)) == a
    &&& forall|a: R, d: R| !d.spec_is_zero() ==> (#[trigger] a.spec_over(d)).spec_times(d) == a
    &&& forall|a: R| #[trigger] a.spec_is_zero() <==> a == R::spec_zero()
}

/// Square roots are real: a root that the field gives is its own
/// conjugate and squares to what it was taken of; and zero is its own
/// conjugate.
pub open spec fn real_roots<T: ComplexField>() -> bool {
    &&& forall|x: T|
        (#[trigger] x.spec_try_sqrt()).is_some() ==> x.spec_try_sqrt().unwrap().spec_conj()
            == x.spec_try_sqrt().unwrap() && x.spec_try_sqrt().unwrap().spec_times(
            x.spec_try_sqrt().unwrap(),
        ) == x
    &&& T::spec_zero().spec_conj() == T::spec_zero()
}

/// The negation of a negative real is not negative.
pub open spec fn negation_flips<R: RealField>() -> bool {
    forall|x: R| #[trigger] x.spec_lt(R::spec_zero()) ==> !x.spec_neg().spec_lt(R::spec_zero())
}

/// Nothing but zero is dominated by zero: an element that is not larger in
/// absolute value than the zero of the field is that zero.
pub open spec fn zero_is_least<T: ComplexField>() -> bool {
    forall|x: T|
        !#[trigger] T::spec_zero().spec_modulus().spec_lt(x.spec_modulus()) ==> x == T::spec_zero()
}

/// Addition commutes.
pub proof fn lemma_plus_commutes<T: ComplexField>(a: T, b: T)
    requires
        field_laws::<T>(),
    ensures
        a.spec_plus(b) == b.spec_plus(a),
{
    reveal(field_laws);
}

/// Addition associates.
pub proof fn lemma_plus_associates<T: ComplexField>(a: T, b: T, c: T)
    requires
        field_laws::<T>(),
    ensures
        a.spec_plus(b).spec_plus(c) == a.spec_plus(b.spec_plus(c)),
{
    reveal(field_laws);
}

/// Adding zero changes nothing.
pub proof fn lemma_plus_zero<T: ComplexField>(a: T)
    requires
        field_laws::<T>(),
    ensures
        a.spec_plus(T::spec_zero()) == a,
        T::spec_zero().spec_plus(a) == a,
{
    reveal(field_laws);
}

/// Multiplication commutes.
pub proof fn lemma_times_commutes<T: ComplexField>(a: T, b: T)
    requires
        field_laws::<T>(),
    ensures
        a.spec_times(b) == b.spec_times(a),
{
    reveal(field_laws);
}

/// Multiplying by one changes nothing.
pub proof fn lemma_times_one<T: ComplexField>(a: T)
    requires
        field_laws::<T>(),
    ensures
        T::spec_one().spec_times(a) == a,
        a.spec_times(T::spec_one()) == a,
{
    reveal(field_laws);
}

/// Multiplying by zero gives zero.
pub proof fn lemma_times_zero<T: ComplexField>(a: T)
    requires
        field_laws::<T>(),
    ensures
        a.spec_times(T::spec_zero()) == T::spec_zero(),
        T::spec_zero().spec_times(a) == T::spec_zero(),
{
    reveal(field_laws);
}

/// Adding back what was subtracted gives the first term.
pub proof fn lemma_minus_cancels<T: ComplexField>(a: T, b: T)
    requires
        field_laws::<T>(),
    ensures
        b.spec_plus(a.spec_minus(b)) == a,
        a.spec_minus(b).spec_plus(b) == a,
{
    reveal(field_laws);
}

/// Multiplying a quotient by its divisor gives the dividend.
pub proof fn lemma_over_cancels<T: ComplexField>(a: T, d: T)
    requires
        field_laws::<T>(),
        !d.spec_is_zero(),
    ensures
        a.spec_over(d).spec_times(d) == a,
{
    reveal(field_laws);
}

/// Only zero tests as zero.
pub proof fn lemma_zero_test<T: ComplexField>(a: T)
    requires
        field_laws::<T>(),
    ensures
        a.spec_is_zero() <==> a == T::spec_zero(),
{
    reveal(field_laws);
}

/// Addition associates.
pub proof fn lemma_real_plus_associates<R: RealField>(a: R, b: R, c: R)
    requires
        real_field_laws::<R>(),
    ensures
        a.spec_plus(b).spec_plus(c) == a.spec_plus(b.spec_plus(c)),
{
    reveal(real_field_laws);
}

/// Adding zero changes nothing.
pub proof fn lemma_real_plus_zero<R: RealField>(a: R)
    requires
        real_field_laws::<R>(),
    ensures
        a.spec_plus(R::spec_zero()) == a,
        R::spec_zero().spec_plus(a) == a,
{
    reveal(real_field_laws);
}

/// Multiplication commutes.
pub proof fn lemma_real_times_commutes<R: RealField>(a: R, b: R)
    requires
        real_field_laws::<R>(),
    ensures
        a.spec_times(b) == b.spec_times(a),
{
    reveal(real_field_laws);
}

/// Multiplying by one changes nothing.
pub proof fn lemma_real_times_one<R: RealField>(a: R)
    requires
        real_field_laws::<R>(),
    ensures
        R::spec_one().spec_times(a) == a,
        a.spec_times(R::spec_one()) == a,
{
    reveal(real_field_laws);
}

/// Multiplying by zero gives zero.
pub proof fn lemma_real_times_zero<R: RealField>(a: R)
    requires
        real_field_laws::<R>(),
    ensures
        a.spec_times(R::spec_zero()) == R::spec_zero(),
        R::spec_zero().spec_times(a) == R::spec_zero(),
{
    reveal(real_field_laws);
}

/// Adding back what was subtracted gives the first term.
pub proof fn lemma_real_minus_cancels<R: RealField>(a: R, b: R)
    requires
        real_field_laws::<R>(),
    ensures
        b.spec_plus(a.spec_minus(b)) == a,
        a.spec_minus(b).spec_plus(b) == a,
{
    reveal(real_field_laws);
}

/// Multiplying a quotient by its divisor gives the dividend.
pub proof fn lemma_real_over_cancels<R: RealField>(a: R, d: R)
    requires
        real_field_laws::<R>(),
        !d.spec_is_zero(),
    ensures
        a.spec_over(d).spec_times(d) == a,
{
    reveal(real_field_laws);
}

} // verus!
