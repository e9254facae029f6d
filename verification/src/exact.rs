//! The perturbed iteration against the plain one: where no operation rounds, they agree.
use vstd::prelude::*;
use vstd::arithmetic::power2::{lemma_pow2_pos, pow2};
use crate::complex::Complex;
use crate::double::{num, Double, TWO};
use crate::naive::iterate_of;
use crate::orbit::{zero_point, ReferenceOrbit};
use crate::perturbation::Pixel;
use crate::rounding::UNIT_EXP;

verus! {

/// Whether a sum is exact: its value is the sum of the values.
pub open spec fn sum_is_exact(a: Double, b: Double) -> bool {
    a.plus(b).value() == a.value() + b.value()
}

/// Whether a product is exact: its value is the product of the values.
pub open spec fn product_is_exact(a: Double, b: Double) -> bool {
    a.times(b).value() * pow2(UNIT_EXP as nat) == a.value() * b.value()
}

/// Whether a difference is exact: its value is the difference of the values.
pub open spec fn difference_is_exact(a: Double, b: Double) -> bool {
    a.minus(b).value() == a.value() - b.value()
}

/// Whether a sum of complex numbers is exact in both parts.
pub open spec fn plus_is_exact(a: Complex, b: Complex) -> bool {
    sum_is_exact(a.re, b.re) && sum_is_exact(a.im, b.im)
}

/// Whether the parts of a square are exact: `re*re - im*im` and `2*re*im`.
pub open spec fn square_is_exact(z: Complex) -> bool {
    &&& product_is_exact(z.re, z.re)
    &&& product_is_exact(z.im, z.im)
    &&& difference_is_exact(z.re.times(z.re), z.im.times(z.im))
    &&& product_is_exact(num(TWO), z.re)
    &&& product_is_exact(num(TWO).times(z.re), z.im)
}

/// Whether a step of the iteration is exact.
pub open spec fn step_is_exact(z: Complex, c: Complex) -> bool {
    &&& square_is_exact(z)
    &&& sum_is_exact(z.re.times(z.re).minus(z.im.times(z.im)), c.re)
    &&& sum_is_exact(num(TWO).times(z.re).times(z.im), c.im)
}

/// Whether a step of the perturbed iteration is exact.
pub open spec fn perturbed_is_exact(eps: Complex, z: Complex, delta: Complex) -> bool {
    let two = num(TWO);
    let re = z.re.times(eps.re).minus(z.im.times(eps.im));
    let im = z.re.times(eps.im).plus(z.im.times(eps.re));
    let sq_re = eps.re.times(eps.re).minus(eps.im.times(eps.im));
    let sq_im = two.times(eps.re).times(eps.im);
    &&& product_is_exact(z.re, eps.re)
    &&& product_is_exact(z.im, eps.im)
    &&& product_is_exact(z.re, eps.im)
    &&& product_is_exact(z.im, eps.re)
    &&& difference_is_exact(z.re.times(eps.re), z.im.times(eps.im))
    &&& sum_is_exact(z.re.times(eps.im), z.im.times(eps.re))
    &&& square_is_exact(eps)
    &&& product_is_exact(two, re)
    &&& product_is_exact(two, im)
    &&& sum_is_exact(two.times(re), sq_re)
    &&& sum_is_exact(two.times(im), sq_im)
    &&& sum_is_exact(two.times(re).plus(sq_re), delta.re)
    &&& sum_is_exact(two.times(im).plus(sq_im), delta.im)
}

/// Whether two complex numbers have the same values.
pub open spec fn same_value(a: Complex, b: Complex) -> bool {
    a.re.value() == b.re.value() && a.im.value() == b.im.value()
}

/// Two is twice one.
pub proof fn lemma_two()
    ensures
        num(TWO).value() == 2 * pow2(UNIT_EXP as nat),
{
    crate::laws::lemma_units_of_one();
    crate::rounding::lemma_parts_unique(
        0x4000_0000_0000_0000,
        1023,
        crate::rounding::P52 as nat,
    );
    crate::rounding::lemma_p52_p53();
    vstd::arithmetic::power2::lemma_pow2_adds(52, 1023);
    vstd::arithmetic::power2::lemma_pow2_unfold(1075);
}

/// Where twice a number is exact, its value is twice the number's.
pub proof fn lemma_twice(a: Double)
    requires
        product_is_exact(num(TWO), a),
    ensures
        num(TWO).times(a).value() == 2 * a.value(),
{
    lemma_two();
    lemma_pow2_pos(UNIT_EXP as nat);
    let u = pow2(UNIT_EXP as nat) as int;
    let v = a.value();
    let r = num(TWO).times(a).value();
    assert(r == 2 * v) by (nonlinear_arith)
        requires
            r * u == (2 * u) * v,
            u > 0,
    ;
}

/// Where no operation rounds, a step of the perturbed iteration is a step of the pixel's own: the
/// iterate `z + eps` of the point `c + delta` goes over into `z*z + c`, departed from by
/// `2*z*eps + eps*eps + delta`.
pub proof fn perturbed_step_is_the_pixels_own(z: Complex, eps: Complex, c: Complex, delta: Complex)
    requires
        plus_is_exact(z, eps),
        plus_is_exact(c, delta),
        step_is_exact(z.plus(eps), c.plus(delta)),
        step_is_exact(z, c),
        perturbed_is_exact(eps, z, delta),
        plus_is_exact(z.step(c), eps.perturbed(z, delta)),
    ensures
        same_value(
            z.plus(eps).step(c.plus(delta)),
            z.step(c).plus(eps.perturbed(z, delta)),
        ),
{
    let u = pow2(UNIT_EXP as nat) as int;
    lemma_pow2_pos(UNIT_EXP as nat);
    let p = z.plus(eps);
    let (a, b) = (z.re.value(), z.im.value());
    let (x, y) = (eps.re.value(), eps.im.value());
    let re = z.re.times(eps.re).minus(z.im.times(eps.im));
    let im = z.re.times(eps.im).plus(z.im.times(eps.re));
    lemma_twice(re);
    lemma_twice(im);
    lemma_twice(z.re);
    lemma_twice(eps.re);
    lemma_twice(p.re);
    // The products, each of them scaled by a unit.
    let aa = z.re.times(z.re).value();
    let bb = z.im.times(z.im).value();
    let ab2 = num(TWO).times(z.re).times(z.im).value();
    let xx = eps.re.times(eps.re).value();
    let yy = eps.im.times(eps.im).value();
    let xy2 = num(TWO).times(eps.re).times(eps.im).value();
    let ax = z.re.times(eps.re).value();
    let by = z.im.times(eps.im).value();
    let ay = z.re.times(eps.im).value();
    let bx = z.im.times(eps.re).value();
    let pp = p.re.times(p.re).value();
    let qq = p.im.times(p.im).value();
    let pq2 = num(TWO).times(p.re).times(p.im).value();
    assert(pp == aa + 2 * ax + xx) by (nonlinear_arith)
        requires
            pp * u == (a + x) * (a + x),
            aa * u == a * a,
            ax * u == a * x,
            xx * u == x * x,
            u > 0,
    ;
    assert(qq == bb + 2 * by + yy) by (nonlinear_arith)
        requires
            qq * u == (b + y) * (b + y),
            bb * u == b * b,
            by * u == b * y,
            yy * u == y * y,
            u > 0,
    ;
    assert((2 * (a + x)) * (b + y) == (2 * a) * b + 2 * (a * y) + 2 * (b * x) + (2 * x) * y)
        by (nonlinear_arith);
    let sum = ab2 + 2 * (ay + bx) + xy2;
    assert(sum * u == ab2 * u + 2 * (ay * u) + 2 * (bx * u) + xy2 * u) by (nonlinear_arith)
        requires
            sum == ab2 + 2 * (ay + bx) + xy2,
    ;
    assert(pq2 == sum) by (nonlinear_arith)
        requires
            pq2 * u == sum * u,
            u > 0,
    ;
}

/// Exact steps from numbers of the same values lead to numbers of the same values.
pub proof fn lemma_steps_from_same_values(w: Complex, p: Complex, c: Complex)
    requires
        same_value(w, p),
        step_is_exact(w, c),
        step_is_exact(p, c),
    ensures
        same_value(w.step(c), p.step(c)),
{
    let u = pow2(UNIT_EXP as nat) as int;
    lemma_pow2_pos(UNIT_EXP as nat);
    lemma_twice(w.re);
    lemma_twice(p.re);
    lemma_cancel(w.re.times(w.re).value(), p.re.times(p.re).value(), u);
    lemma_cancel(w.im.times(w.im).value(), p.im.times(p.im).value(), u);
    lemma_cancel(
        num(TWO).times(w.re).times(w.im).value(),
        num(TWO).times(p.re).times(p.im).value(),
        u,
    );
}

/// Equal multiples are multiples of equals.
proof fn lemma_cancel(a: int, b: int, u: int)
    requires
        u > 0,
        a * u == b * u,
    ensures
        a == b,
{
    assert(a == b) by (nonlinear_arith)
        requires
            u > 0,
            a * u == b * u,
    ;
}

/// The pixel at the offset `delta` from the reference point, iterated from the start.
pub open spec fn pixel_at(delta: Complex) -> Pixel {
    Pixel { delta, eps: zero_point(), start: 0 }
}

/// Whether iteration `k` is exact, of the orbit, of the pixel's departure from it and of the
/// pixel itself.
pub open spec fn iteration_is_exact(orbit: ReferenceOrbit, delta: Complex, k: nat) -> bool {
    let c = orbit.c().plus(delta);
    let z = orbit.at(k as int);
    let eps = pixel_at(delta).eps_at(orbit, k);
    &&& orbit.at(k as int + 1) == z.step(orbit.c())
    &&& plus_is_exact(z, eps)
    &&& step_is_exact(z.plus(eps), c)
    &&& step_is_exact(z, orbit.c())
    &&& perturbed_is_exact(eps, z, delta)
    &&& plus_is_exact(z.step(orbit.c()), eps.perturbed(z, delta))
    &&& step_is_exact(iterate_of(c, k), c)
}

/// Where no operation rounds, the perturbed iteration is the pixel's own: after `n` iterations
/// the orbit and the departure from it add up to the iterate of the pixel's point.
pub proof fn perturbed_iteration_is_the_pixels_own(orbit: ReferenceOrbit, delta: Complex, n: nat)
    requires
        orbit.at(0) == zero_point(),
        plus_is_exact(orbit.c(), delta),
        forall|k: nat| k < n ==> #[trigger] iteration_is_exact(orbit, delta, k),
    ensures
        same_value(
            iterate_of(orbit.c().plus(delta), n),
            orbit.at(n as int).plus(pixel_at(delta).eps_at(orbit, n)),
        ),
    decreases n,
{
    let c = orbit.c().plus(delta);
    if n == 0 {
        assert(zero_point().plus(zero_point()) == zero_point()) by {
            reveal(Double::plus);
            crate::laws::lemma_zero_units();
        }
    } else {
        let k = (n - 1) as nat;
        perturbed_iteration_is_the_pixels_own(orbit, delta, k);
        assert(iteration_is_exact(orbit, delta, k));
        let z = orbit.at(k as int);
        let eps = pixel_at(delta).eps_at(orbit, k);
        perturbed_step_is_the_pixels_own(z, eps, orbit.c(), delta);
        lemma_steps_from_same_values(iterate_of(c, k), z.plus(eps), c);
    }
}

}
