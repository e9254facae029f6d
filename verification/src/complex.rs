//! Complex numbers with binary64 parts, and the steps of the iterations on them.
use vstd::prelude::*;
use crate::double::{num, Double, TWO, ZERO};

verus! {

/// A complex number.
#[derive(Clone, Copy, PartialEq, Eq, Structural, Debug)]
pub struct Complex {
    /// The real part.
    pub re: Double,
    /// The imaginary part.
    pub im: Double,
}

impl Complex {
    /// The sum, part by part.
    pub open spec fn plus(self, other: Complex) -> Complex {
        Complex { re: self.re.plus(other.re), im: self.im.plus(other.im) }
    }

    /// The product.
    pub open spec fn product(self, other: Complex) -> Complex {
        Complex {
            re: self.re.times(other.re).minus(self.im.times(other.im)),
            im: self.re.times(other.im).plus(self.im.times(other.re)),
        }
    }

    /// The squared absolute value `re*re + im*im`.
    pub open spec fn norm_sq(self) -> Double {
        self.re.times(self.re).plus(self.im.times(self.im))
    }

    /// One step of the iteration: `z*z + c`.
    pub open spec fn step(self, c: Complex) -> Complex {
        Complex {
            re: self.re.times(self.re).minus(self.im.times(self.im)).plus(c.re),
            im: num(TWO).times(self.re).times(self.im).plus(c.im),
        }
    }

    /// One step of the perturbed iteration about the reference value `z`:
    /// `2*z*eps + eps*eps + delta`, where `self` is `eps`.
    pub open spec fn perturbed(self, z: Complex, delta: Complex) -> Complex {
        Complex {
            re: num(TWO).times(z.re.times(self.re).minus(z.im.times(self.im))).plus(
                self.re.times(self.re).minus(self.im.times(self.im)),
            ).plus(delta.re),
            im: num(TWO).times(z.re.times(self.im).plus(z.im.times(self.re))).plus(
                num(TWO).times(self.re).times(self.im),
            ).plus(delta.im),
        }
    }

    /// The complex number with the given parts.
    pub fn new(re: Double, im: Double) -> (r: Complex)
        ensures
            r == (Complex { re, im }),
    {
        Complex { re, im }
    }

    /// The complex zero.
    pub fn zero() -> (r: Complex)
        ensures
            r == (Complex { re: num(ZERO), im: num(ZERO) }),
    {
        Complex { re: Double::new(ZERO), im: Double::new(ZERO) }
    }

    /// The sum.
    pub fn add(self, other: Complex) -> (r: Complex)
        ensures
            r == self.plus(other),
    {
        Complex { re: self.re.add(other.re), im: self.im.add(other.im) }
    }

    /// The product.
    pub fn mul(self, other: Complex) -> (r: Complex)
        ensures
            r == self.product(other),
    {
        Complex {
            re: self.re.mul(other.re).sub(self.im.mul(other.im)),
            im: self.re.mul(other.im).add(self.im.mul(other.re)),
        }
    }

    /// The squared absolute value.
    pub fn abs_sq(self) -> (r: Double)
        ensures
            r == self.norm_sq(),
    {
        self.re.mul(self.re).add(self.im.mul(self.im))
    }

    /// One step of the iteration: `z*z + c`.
    pub fn square_add(self, c: Complex) -> (r: Complex)
        ensures
            r == self.step(c),
    {
        Complex {
            re: self.re.mul(self.re).sub(self.im.mul(self.im)).add(c.re),
            im: Double::new(TWO).mul(self.re).mul(self.im).add(c.im),
        }
    }

    /// One step of the perturbed iteration: `2*z*eps + eps*eps + delta`.
    pub fn perturb(self, z: Complex, delta: Complex) -> (r: Complex)
        ensures
            r == self.perturbed(z, delta),
    {
        let two: Double = Double::new(TWO);
        let two_z_eps_re: Double = two.mul(z.re.mul(self.re).sub(z.im.mul(self.im)));
        let two_z_eps_im: Double = two.mul(z.re.mul(self.im).add(z.im.mul(self.re)));
        let eps_sq_re: Double = self.re.mul(self.re).sub(self.im.mul(self.im));
        let eps_sq_im: Double = two.mul(self.re).mul(self.im);
        Complex {
            re: two_z_eps_re.add(eps_sq_re).add(delta.re),
            im: two_z_eps_im.add(eps_sq_im).add(delta.im),
        }
    }
}

}
