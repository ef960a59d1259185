//! Complex numbers over an ordered scalar.

use crate::scalar::{spec_two, two, ComplexField, RealField};
use vstd::prelude::*;

verus! {

/// The complex number `re + i im`.
#[derive(Debug)]
pub struct Complex<R> {
    /// The real part.
    pub re: R,
    /// The imaginary part.
    pub im: R,
}

impl<R: Copy> Clone for Complex<R> {
    fn clone(&self) -> (r: Self)
        ensures
            r == *self,
    {
        *self
    }
}

impl<R: Copy> Copy for Complex<R> {

}

/// The square of the absolute value of `z`.
pub open spec fn spec_norm_sqr<R: RealField>(z: Complex<R>) -> R {
    z.re.spec_times(z.re).spec_plus(z.im.spec_times(z.im))
}

/// The square of the absolute value of `z`.
pub fn norm_sqr<R: RealField>(z: Complex<R>) -> (r: R)
    ensures
        r == spec_norm_sqr(z),
{
    z.re.times(z.re).plus(z.im.times(z.im))
}

/// The principal square root of `z`: the one with a non-negative real
/// part, its imaginary part having the sign of that of `z`.
pub open spec fn spec_principal_sqrt<R: RealField>(z: Complex<R>) -> Complex<R> {
    let m = spec_norm_sqr(z).spec_sqrt();
    if m.spec_is_zero() {
        Complex { re: R::spec_zero(), im: R::spec_zero() }
    } else {
        let re = m.spec_plus(z.re).spec_over(spec_two::<R>()).spec_sqrt();
        let im = m.spec_minus(z.re).spec_over(spec_two::<R>()).spec_sqrt();
        Complex {
            re,
            im: if z.im.spec_lt(R::spec_zero()) {
                im.spec_neg()
            } else {
                im
            },
        }
    }
}

/// The principal square root of `z`.
pub fn principal_sqrt<R: RealField>(z: Complex<R>) -> (r: Complex<R>)
    ensures
        r == spec_principal_sqrt(z),
{
    let m = norm_sqr(z).sqrt();
    if m.is_zero() {
        Complex { re: R::zero(), im: R::zero() }
    } else {
        let re = m.plus(z.re).over(two::<R>()).sqrt();
        let im = m.minus(z.re).over(two::<R>()).sqrt();
        Complex {
            re,
            im: if z.im.lt(R::zero()) {
                im.neg()
            } else {
                im
            },
        }
    }
}

impl<R: RealField> ComplexField for Complex<R> {
    type Real = R;

    open spec fn spec_zero() -> Self {
        Complex { re: R::spec_zero(), im: R::spec_zero() }
    }

    open spec fn spec_one() -> Self {
        Complex { re: R::spec_one(), im: R::spec_zero() }
    }

    open spec fn spec_plus(self, rhs: Self) -> Self {
        Complex { re: self.re.spec_plus(rhs.re), im: self.im.spec_plus(rhs.im) }
    }

    open spec fn spec_minus(self, rhs: Self) -> Self {
        Complex { re: self.re.spec_minus(rhs.re), im: self.im.spec_minus(rhs.im) }
    }

    open spec fn spec_times(self, rhs: Self) -> Self {
        Complex {
            re: self.re.spec_times(rhs.re).spec_minus(self.im.spec_times(rhs.im)),
            im: self.re.spec_times(rhs.im).spec_plus(self.im.spec_times(rhs.re)),
        }
    }

    open spec fn spec_over(self, rhs: Self) -> Self {
        let d = spec_norm_sqr(rhs);
        Complex {
            re: self.re.spec_times(rhs.re).spec_plus(self.im.spec_times(rhs.im)).spec_over(d),
            im: self.im.spec_times(rhs.re).spec_minus(self.re.spec_times(rhs.im)).spec_over(d),
        }
    }

    open spec fn spec_neg(self) -> Self {
        Complex { re: self.re.spec_neg(), im: self.im.spec_neg() }
    }

    open spec fn spec_conj(self) -> Self {
        Complex { re: self.re, im: self.im.spec_neg() }
    }

    open spec fn spec_from_real(r: R) -> Self {
        Complex { re: r, im: R::spec_zero() }
    }

    open spec fn spec_re(self) -> R {
        self.re
    }

    open spec fn spec_modulus(self) -> R {
        spec_norm_sqr(self).spec_sqrt()
    }

    open spec fn spec_scale(self, factor: R) -> Self {
        Complex { re: self.re.spec_times(factor), im: self.im.spec_times(factor) }
    }

    open spec fn spec_unscale(self, divisor: R) -> Self {
        Complex { re: self.re.spec_over(divisor), im: self.im.spec_over(divisor) }
    }

    open spec fn spec_try_sqrt(self) -> Option<Self> {
        Some(spec_principal_sqrt(self))
    }

    open spec fn spec_is_zero(self) -> bool {
        self.re.spec_is_zero() && self.im.spec_is_zero()
    }

    fn zero() -> (r: Self) {
        Complex { re: R::zero(), im: R::zero() }
    }

    fn one() -> (r: Self) {
        Complex { re: R::one(), im: R::zero() }
    }

    fn plus(self, rhs: Self) -> (r: Self) {
        Complex { re: self.re.plus(rhs.re), im: self.im.plus(rhs.im) }
    }

    fn minus(self, rhs: Self) -> (r: Self) {
        Complex { re: self.re.minus(rhs.re), im: self.im.minus(rhs.im) }
    }

    fn times(self, rhs: Self) -> (r: Self) {
        Complex {
            re: self.re.times(rhs.re).minus(self.im.times(rhs.im)),
            im: self.re.times(rhs.im).plus(self.im.times(rhs.re)),
        }
    }

    fn over(self, rhs: Self) -> (r: Self) {
        let d = norm_sqr(rhs);
        Complex {
            re: self.re.times(rhs.re).plus(self.im.times(rhs.im)).over(d),
            im: self.im.times(rhs.re).minus(self.re.times(rhs.im)).over(d),
        }
    }

    fn neg(self) -> (r: Self) {
        Complex { re: self.re.neg(), im: self.im.neg() }
    }

    fn conj(self) -> (r: Self) {
        Complex { re: self.re, im: self.im.neg() }
    }

    fn from_real(r: R) -> (z: Self) {
        Complex { re: r, im: R::zero() }
    }

    fn re(self) -> (r: R) {
        self.re
    }

    fn modulus(self) -> (r: R) {
        norm_sqr(self).sqrt()
    }

    fn scale(self, factor: R) -> (r: Self) {
        Complex { re: self.re.times(factor), im: self.im.times(factor) }
    }

    fn unscale(self, divisor: R) -> (r: Self) {
        Complex { re: self.re.over(divisor), im: self.im.over(divisor) }
    }

    fn try_sqrt(self) -> (r: Option<Self>) {
        Some(principal_sqrt(self))
    }

    fn is_zero(self) -> (b: bool) {
        self.re.is_zero() && self.im.is_zero()
    }
}

} // verus!
