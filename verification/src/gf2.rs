//! The field of two elements: arithmetic modulo two. It is exact, and it
//! obeys every law that the theorems of this library take as a hypothesis.

use crate::scalar::{
    absorbing_zero, dominated_quotients, field_laws, negation_flips, real_field_laws,
    real_roots, strict_weak_order, zero_is_least, ComplexField, RealField,
};
use vstd::prelude::*;

verus! {

/// An element of the field of two elements: zero is `false`, one is
/// `true`.
#[derive(Clone, Copy, Debug, PartialEq, Eq, Structural)]
pub struct Gf2(pub bool);

impl RealField for Gf2 {
    open spec fn spec_zero() -> Self {
        Gf2(false)
    }

    open spec fn spec_one() -> Self {
        Gf2(true)
    }

    open spec fn spec_epsilon() -> Self {
        Gf2(false)
    }

    open spec fn spec_plus(self, rhs: Self) -> Self {
        Gf2(self.0 != rhs.0)
    }

    open spec fn spec_minus(self, rhs: Self) -> Self {
        Gf2(self.0 != rhs.0)
    }

    open spec fn spec_times(self, rhs: Self) -> Self {
        Gf2(self.0 && rhs.0)
    }

    open spec fn spec_over(self, rhs: Self) -> Self {
        Gf2(self.0 && rhs.0)
    }

    open spec fn spec_neg(self) -> Self {
        self
    }

    open spec fn spec_abs(self) -> Self {
        self
    }

    open spec fn spec_sqrt(self) -> Self {
        self
    }

    open spec fn spec_is_zero(self) -> bool {
        !self.0
    }

    open spec fn spec_lt(self, rhs: Self) -> bool {
        !self.0 && rhs.0
    }

    open spec fn spec_le(self, rhs: Self) -> bool {
        !self.0 || rhs.0
    }

    fn zero() -> (r: Self) {
        Gf2(false)
    }

    fn one() -> (r: Self) {
        Gf2(true)
    }

    fn epsilon() -> (r: Self) {
        Gf2(false)
    }

    fn plus(self, rhs: Self) -> (r: Self) {
        Gf2(self.0 != rhs.0)
    }

    fn minus(self, rhs: Self) -> (r: Self) {
        Gf2(self.0 != rhs.0)
    }

    fn times(self, rhs: Self) -> (r: Self) {
        Gf2(self.0 && rhs.0)
    }

    fn over(self, rhs: Self) -> (r: Self) {
        Gf2(self.0 && rhs.0)
    }

    fn neg(self) -> (r: Self) {
        self
    }

    fn abs(self) -> (r: Self) {
        self
    }

    fn sqrt(self) -> (r: Self) {
        self
    }

    fn is_zero(self) -> (b: bool) {
        !self.0
    }

    fn lt(self, rhs: Self) -> (b: bool) {
        !self.0 && rhs.0
    }

    fn le(self, rhs: Self) -> (b: bool) {
        !self.0 || rhs.0
    }
}

impl ComplexField for Gf2 {
    type Real = Gf2;

    open spec fn spec_zero() -> Self {
        Gf2(false)
    }

    open spec fn spec_one() -> Self {
        Gf2(true)
    }

    open spec fn spec_plus(self, rhs: Self) -> Self {
        Gf2(self.0 != rhs.0)
    }

    open spec fn spec_minus(self, rhs: Self) -> Self {
        Gf2(self.0 != rhs.0)
    }

    open spec fn spec_times(self, rhs: Self) -> Self {
        Gf2(self.0 && rhs.0)
    }

    open spec fn spec_over(self, rhs: Self) -> Self {
        Gf2(self.0 && rhs.0)
    }

    open spec fn spec_neg(self) -> Self {
        self
    }

    open spec fn spec_conj(self) -> Self {
        self
    }

    open spec fn spec_from_real(r: Gf2) -> Self {
        r
    }

    open spec fn spec_re(self) -> Gf2 {
        self
    }

    open spec fn spec_modulus(self) -> Gf2 {
        self
    }

    open spec fn spec_scale(self, factor: Gf2) -> Self {
        Gf2(self.0 && factor.0)
    }

    open spec fn spec_unscale(self, divisor: Gf2) -> Self {
        Gf2(self.0 && divisor.0)
    }

    open spec fn spec_try_sqrt(self) -> Option<Self> {
        Some(self)
    }

    open spec fn spec_is_zero(self) -> bool {
        !self.0
    }

    fn zero() -> (r: Self) {
        Gf2(false)
    }

    fn one() -> (r: Self) {
        Gf2(true)
    }

    fn plus(self, rhs: Self) -> (r: Self) {
        Gf2(self.0 != rhs.0)
    }

    fn minus(self, rhs: Self) -> (r: Self) {
        Gf2(self.0 != rhs.0)
    }

    fn times(self, rhs: Self) -> (r: Self) {
        Gf2(self.0 && rhs.0)
    }

    fn over(self, rhs: Self) -> (r: Self) {
        Gf2(self.0 && rhs.0)
    }

    fn neg(self) -> (r: Self) {
        self
    }

    fn conj(self) -> (r: Self) {
        self
    }

    fn from_real(r: Gf2) -> (z: Self) {
        r
    }

    fn re(self) -> (r: Gf2) {
        self
    }

    fn modulus(self) -> (r: Gf2) {
        self
    }

    fn scale(self, factor: Gf2) -> (r: Self) {
        Gf2(self.0 && factor.0)
    }

    fn unscale(self, divisor: Gf2) -> (r: Self) {
        Gf2(self.0 && divisor.0)
    }

    fn try_sqrt(self) -> (r: Option<Self>) {
        Some(self)
    }

    fn is_zero(self) -> (b: bool) {
        !self.0
    }
}

/// The field of two elements obeys the laws that the theorems of this
/// library assume: those of a field, of an order on the absolute values,
/// and of bounded quotients.
pub proof fn lemma_gf2_obeys_laws()
    ensures
        field_laws::<Gf2>(),
        strict_weak_order::<Gf2>(),
        dominated_quotients::<Gf2>(),
        absorbing_zero::<Gf2>(),
        zero_is_least::<Gf2>(),
        negation_flips::<Gf2>(),
        real_field_laws::<Gf2>(),
        real_roots::<Gf2>(),
{
    reveal(field_laws);
    reveal(real_field_laws);
    assert forall|a: Gf2| #[trigger]
        <Gf2 as RealField>::spec_plus(a, <Gf2 as RealField>::spec_zero()) == a by {
        assert(a.0 == (a.0 != false));
    }
    assert forall|a: Gf2| #[trigger]
        <Gf2 as RealField>::spec_times(<Gf2 as RealField>::spec_one(), a) == a by {
        assert(a.0 == (true && a.0));
    }
    assert forall|a: Gf2, b: Gf2|
        <Gf2 as RealField>::spec_plus(b, #[trigger] <Gf2 as RealField>::spec_minus(a, b))
            == a by {
        assert(a.0 == (b.0 != (a.0 != b.0)));
    }
    assert forall|a: Gf2, d: Gf2|
        !<Gf2 as RealField>::spec_is_zero(d) implies <Gf2 as RealField>::spec_times(
        #[trigger] <Gf2 as RealField>::spec_over(a, d),
        d,
    ) == a by {
        assert(a.0 == ((a.0 && d.0) && d.0));
    }
    assert forall|a: Gf2| #[trigger]
        <Gf2 as RealField>::spec_is_zero(a) <==> a == <Gf2 as RealField>::spec_zero() by {
        assert(a == Gf2(a.0));
    }
    assert forall|x: Gf2|
        (#[trigger] <Gf2 as ComplexField>::spec_try_sqrt(x)).is_some() implies {
        let r = <Gf2 as ComplexField>::spec_try_sqrt(x).unwrap();
        <Gf2 as ComplexField>::spec_conj(r) == r && <Gf2 as ComplexField>::spec_times(r, r) == x
    } by {
        assert(x.0 == (x.0 && x.0));
    }
    assert forall|a: Gf2| #[trigger]
        <Gf2 as ComplexField>::spec_plus(a, <Gf2 as ComplexField>::spec_zero()) == a by {
        assert(a.0 == (a.0 != false));
    }
    assert forall|a: Gf2| #[trigger]
        <Gf2 as ComplexField>::spec_times(<Gf2 as ComplexField>::spec_one(), a) == a by {
        assert(a.0 == (true && a.0));
    }
    assert forall|a: Gf2, b: Gf2|
        <Gf2 as ComplexField>::spec_plus(
            b,
            #[trigger] <Gf2 as ComplexField>::spec_minus(a, b),
        ) == a by {
        assert(a.0 == (b.0 != (a.0 != b.0)));
    }
    assert forall|a: Gf2, d: Gf2|
        !<Gf2 as ComplexField>::spec_is_zero(d) implies <Gf2 as ComplexField>::spec_times(
        #[trigger] <Gf2 as ComplexField>::spec_over(a, d),
        d,
    ) == a by {
        assert(a.0 == ((a.0 && d.0) && d.0));
    }
    assert forall|a: Gf2| #[trigger]
        <Gf2 as ComplexField>::spec_is_zero(a) <==> a == <Gf2 as ComplexField>::spec_zero() by {
        assert(a == Gf2(a.0));
    }
    assert forall|x: Gf2|
        !#[trigger] <Gf2 as RealField>::spec_lt(
            <Gf2 as ComplexField>::spec_modulus(<Gf2 as ComplexField>::spec_zero()),
            <Gf2 as ComplexField>::spec_modulus(x),
        ) implies x == <Gf2 as ComplexField>::spec_zero() by {
        assert(x == Gf2(x.0));
    }
    assert forall|x: Gf2| #[trigger]
        <Gf2 as ComplexField>::spec_minus(x, <Gf2 as ComplexField>::spec_zero()) == x by {
        assert(x.0 == (x.0 != false));
    }
}

} // verus!
