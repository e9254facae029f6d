//! What the outcome of a pixel means: the iteration that it stands for, in exact arithmetic.
use vstd::prelude::*;
use crate::complex::Complex;
use crate::deep::{delta_max, offset_outcome, series_for};
use crate::double::{num, Double, ONE, QUARTER, TWO, ZERO};
use crate::exact::{
    difference_is_exact,
    lemma_steps_from_same_values,
    perturbed_is_exact,
    perturbed_step_is_the_pixels_own,
    pixel_at,
    plus_is_exact,
    product_is_exact,
    same_value,
    step_is_exact,
    sum_is_exact,
};
use crate::exact_color::{above_sixteen, lemma_same_number, lemma_sixteen};
use crate::exact_series::{
    exact_of,
    lemma_product_value,
    lemma_sum_value,
    lemma_twice_value,
    real_of,
    real_pow2,
};
use crate::exact_view::{lemma_order_of_values, lemma_power_pattern, lemma_small_powers};
use crate::laws::{alike, comparisons_are_alike, products_are_alike, sums_are_alike};
use crate::naive::{
    in_cardioid,
    in_disc,
    iterate_of,
    iteration,
    lane_point,
    naive_hp,
    naive_outcome,
    naive_scalar,
    naive_simd,
    HpStep,
};
use crate::orbit::{
    escape_excludes_glitch,
    escapes,
    glitch_limit,
    zero_point,
    OrbitBuilder,
    OrbitStep,
    ReferenceOrbit,
};
use crate::perturbation::{
    alike_points,
    lane_pixel,
    later_start_changes_nothing,
    lemma_alike_outcomes,
    perturb_iterate,
    perturb_iterate_simd,
    Pixel,
};
use crate::series::{scan, SeriesApproximation};
use crate::sums::Exact;
use crate::view;

verus! {

/// A step of the iteration squares the iterate and adds the point.
pub proof fn step_squares_and_adds(z: Complex, c: Complex)
    requires
        step_is_exact(z, c),
    ensures
        exact_of(z.step(c)) == exact_of(z).times(exact_of(z)).plus(exact_of(c)),
{
    reveal(Exact::times);
    let re = z.re.times(z.re).minus(z.im.times(z.im));
    let im = num(TWO).times(z.re).times(z.im);
    lemma_product_value(z.re, z.re);
    lemma_product_value(z.im, z.im);
    lemma_sum_value(z.re.times(z.re), z.im.times(z.im));
    lemma_twice_value(z.re);
    lemma_product_value(num(TWO).times(z.re), z.im);
    lemma_sum_value(re, c.re);
    lemma_sum_value(im, c.im);
    let (x, y) = (real_of(z.re), real_of(z.im));
    crate::scaled_value::lemma_factor(x, x, y);
    crate::sums::lemma_commutes(x, y);
}

/// A squared magnitude is the sum of the squares of the parts.
pub proof fn squared_magnitude_is_the_sum_of_squares(z: Complex)
    requires
        product_is_exact(z.re, z.re),
        product_is_exact(z.im, z.im),
        sum_is_exact(z.re.times(z.re), z.im.times(z.im)),
    ensures
        real_of(z.norm_sq()) == real_of(z.re) * real_of(z.re) + real_of(z.im) * real_of(z.im),
{
    lemma_product_value(z.re, z.re);
    lemma_product_value(z.im, z.im);
    lemma_sum_value(z.re.times(z.re), z.im.times(z.im));
}

/// A point escapes with a squared magnitude above sixteen, that is at a distance above four.
pub proof fn escape_is_above_sixteen(mag_sq: Double)
    requires
        mag_sq.is_finite(),
    ensures
        escapes(mag_sq) <==> real_of(mag_sq) > 16 as real,
{
    lemma_power_pattern(crate::orbit::BAILOUT, 4);
    lemma_small_powers();
    lemma_order_of_values(num(crate::orbit::BAILOUT), mag_sq);
}

/// The direct iteration of a point gives the first iteration below the limit at which it has
/// escaped, and the squared magnitude there; or the limit and zero, where there is none or where
/// the point is known to stay.
pub proof fn direct_iteration_gives_the_first_escape(
    c: Complex,
    max_iter: u32,
    r: (u32, Double),
)
    requires
        call_ensures(naive_scalar, (c.re, c.im, max_iter), r),
    ensures
        iterate_of(c, 0) == zero_point(),
        r.0 <= max_iter,
        r.0 < max_iter ==> {
            &&& r.1 == iterate_of(c, r.0 as nat).norm_sq()
            &&& escapes(r.1)
            &&& !in_cardioid(c) && !in_disc(c)
            &&& forall|n: nat| n < r.0 ==> !escapes(#[trigger] iterate_of(c, n).norm_sq())
        },
        r.0 == max_iter ==> {
            &&& r.1 == num(ZERO)
            &&& in_cardioid(c) || in_disc(c) || forall|n: nat|
                n < max_iter ==> !escapes(#[trigger] iterate_of(c, n).norm_sq())
        },
{
    crate::naive::lemma_first_beyond(c, 0, max_iter as nat);
}

/// Whether the tests for the cardioid and the disc are exact.
pub open spec fn tests_are_exact(c: Complex) -> bool {
    let x = c.re.minus(num(QUARTER));
    let yy = c.im.times(c.im);
    let q = x.times(x).plus(yy);
    let x1 = c.re.plus(num(ONE));
    &&& difference_is_exact(c.re, num(QUARTER))
    &&& product_is_exact(c.im, c.im)
    &&& product_is_exact(x, x)
    &&& sum_is_exact(x.times(x), yy)
    &&& sum_is_exact(q, x)
    &&& product_is_exact(q, q.plus(x))
    &&& product_is_exact(num(QUARTER), yy)
    &&& sum_is_exact(c.re, num(ONE))
    &&& product_is_exact(x1, x1)
    &&& sum_is_exact(x1.times(x1), yy)
    &&& q.times(q.plus(x)).is_finite()
    &&& num(QUARTER).times(yy).is_finite()
    &&& x1.times(x1).plus(yy).is_finite()
}

/// The points that are not iterated are those of the main cardioid, with
/// `q*(q + x - 1/4) <= y*y/4` where `q` is `(x - 1/4)^2 + y^2`, and those of the disc of radius
/// one quarter about minus one.
pub proof fn points_known_to_stay(c: Complex)
    requires
        tests_are_exact(c),
    ensures
        ({
            let x = real_of(c.re) - real_pow2(-2);
            let y = real_of(c.im);
            let q = x * x + y * y;
            let x1 = real_of(c.re) + 1 as real;
            &&& in_cardioid(c) <==> q * (q + x) <= real_pow2(-2) * (y * y)
            &&& in_disc(c) <==> x1 * x1 + y * y <= real_pow2(-4)
        }),
{
    let x = c.re.minus(num(QUARTER));
    let yy = c.im.times(c.im);
    let q = x.times(x).plus(yy);
    let x1 = c.re.plus(num(ONE));
    lemma_power_pattern(QUARTER, -2);
    lemma_power_pattern(ONE, 0);
    lemma_power_pattern(crate::naive::DISC_RADIUS_SQ, -4);
    lemma_small_powers();
    lemma_sum_value(c.re, num(QUARTER));
    lemma_product_value(c.im, c.im);
    lemma_product_value(x, x);
    lemma_sum_value(x.times(x), yy);
    lemma_sum_value(q, x);
    lemma_product_value(q, q.plus(x));
    lemma_product_value(num(QUARTER), yy);
    lemma_sum_value(c.re, num(ONE));
    lemma_product_value(x1, x1);
    lemma_sum_value(x1.times(x1), yy);
    lemma_order_of_values(q.times(q.plus(x)), num(QUARTER).times(yy));
    lemma_order_of_values(x1.times(x1).plus(yy), num(crate::naive::DISC_RADIUS_SQ));
}

/// Whether both parts are finite.
pub open spec fn is_finite(z: Complex) -> bool {
    z.re.is_finite() && z.im.is_finite()
}

/// Numbers of one value have squared magnitudes that escape alike.
proof fn lemma_alike_magnitudes(a: Complex, b: Complex)
    requires
        same_value(a, b),
        is_finite(a),
        is_finite(b),
    ensures
        alike(a.norm_sq(), b.norm_sq()),
        escapes(a.norm_sq()) == escapes(b.norm_sq()),
        forall|m: Double| a.norm_sq().is_lt(m) == #[trigger] b.norm_sq().is_lt(m),
{
    lemma_same_number(a.re, b.re);
    lemma_same_number(a.im, b.im);
    products_are_alike(a.re, a.re, b.re, b.re);
    products_are_alike(a.im, a.im, b.im, b.im);
    sums_are_alike(a.re.times(a.re), a.im.times(a.im), b.re.times(b.re), b.im.times(b.im));
    comparisons_are_alike(a.norm_sq(), b.norm_sq(), num(crate::orbit::BAILOUT));
    assert forall|m: Double| a.norm_sq().is_lt(m) == #[trigger] b.norm_sq().is_lt(m) by {
        comparisons_are_alike(a.norm_sq(), b.norm_sq(), m);
    }
}

/// The reference value and the departure from it at iteration `n`, along the orbit and beyond its
/// escape.
pub open spec fn followed(
    orbit: ReferenceOrbit,
    delta: Complex,
    max_iter: u32,
    n: nat,
) -> (Complex, Complex) {
    match orbit.escaped_at {
        Some(esc) => if n <= esc {
            (orbit.at(n as int), pixel_at(delta).eps_at(orbit, n))
        } else {
            pixel_at(delta).tail_at(orbit, max_iter, (n - esc) as nat)
        },
        None => (orbit.at(n as int), pixel_at(delta).eps_at(orbit, n)),
    }
}

/// Whether all that is compared at iteration `k` is finite.
pub open spec fn followed_finitely(
    orbit: ReferenceOrbit,
    delta: Complex,
    max_iter: u32,
    k: nat,
) -> bool {
    let (z, eps) = followed(orbit, delta, max_iter, k);
    is_finite(iterate_of(orbit.c().plus(delta), k)) && is_finite(z.plus(eps))
}

/// Whether the step from iteration `k` to the next is exact.
pub open spec fn followed_exactly(
    orbit: ReferenceOrbit,
    delta: Complex,
    max_iter: u32,
    k: nat,
) -> bool {
    let c = orbit.c().plus(delta);
    let (z, eps) = followed(orbit, delta, max_iter, k);
    &&& plus_is_exact(z, eps)
    &&& step_is_exact(z.plus(eps), c)
    &&& step_is_exact(z, orbit.c())
    &&& perturbed_is_exact(eps, z, delta)
    &&& plus_is_exact(z.step(orbit.c()), eps.perturbed(z, delta))
    &&& step_is_exact(iterate_of(c, k), c)
}

/// Whether an orbit is that of its point: it starts at zero, and each iterate is the step from the
/// one before.
pub open spec fn is_orbit_of_its_point(orbit: ReferenceOrbit) -> bool {
    &&& orbit.at(0) == zero_point()
    &&& forall|k: int|
        0 <= k < orbit.count() - 1 ==> #[trigger] orbit.at(k + 1) == orbit.at(k).step(orbit.c())
}

/// Where no operation rounds, the reference value and the departure add up to the iterate of the
/// pixel's own point.
proof fn lemma_followed(orbit: ReferenceOrbit, delta: Complex, max_iter: u32, n: nat)
    requires
        orbit.wf(),
        is_orbit_of_its_point(orbit),
        orbit.escaped_at is None ==> n < orbit.count(),
        n <= max_iter,
        plus_is_exact(orbit.c(), delta),
        forall|k: nat| k < n ==> #[trigger] followed_exactly(orbit, delta, max_iter, k),
    ensures
        ({
            let (z, eps) = followed(orbit, delta, max_iter, n);
            same_value(iterate_of(orbit.c().plus(delta), n), z.plus(eps))
        }),
    decreases n,
{
    let c = orbit.c().plus(delta);
    if n == 0 {
        assert(zero_point().plus(zero_point()) == zero_point()) by {
            reveal(Double::plus);
            crate::laws::lemma_zero_units();
        }
    } else {
        let k = (n - 1) as nat;
        lemma_followed(orbit, delta, max_iter, k);
        assert(followed_exactly(orbit, delta, max_iter, k));
        let (z, eps) = followed(orbit, delta, max_iter, k);
        lemma_next(orbit, delta, max_iter, k);
        perturbed_step_is_the_pixels_own(z, eps, orbit.c(), delta);
        lemma_steps_from_same_values(iterate_of(c, k), z.plus(eps), c);
    }
}

/// The next reference value is the step from the last, and the next departure the perturbed step.
proof fn lemma_next(orbit: ReferenceOrbit, delta: Complex, max_iter: u32, k: nat)
    requires
        orbit.wf(),
        is_orbit_of_its_point(orbit),
        orbit.escaped_at is None ==> k + 1 < orbit.count(),
        k < max_iter,
    ensures
        ({
            let (z, eps) = followed(orbit, delta, max_iter, k);
            followed(orbit, delta, max_iter, k + 1) == (
                z.step(orbit.c()),
                eps.perturbed(z, delta),
            )
        }),
{
    let p = pixel_at(delta);
    assert(k < orbit.count() - 1 ==> orbit.at(k as int + 1) == orbit.at(k as int).step(orbit.c()));
    match orbit.escaped_at {
        Some(esc) => {
            if k >= esc {
                reveal_with_fuel(Pixel::tail_at, 2);
                assert(p.tail_at(orbit, max_iter, 0) == (
                    orbit.at(esc as int),
                    p.eps_at(orbit, esc as nat),
                ));
            }
        },
        None => {},
    }
}

/// The squared magnitude at which a pixel is looked at in iteration `n`.
proof fn lemma_looked_at(orbit: ReferenceOrbit, delta: Complex, max_iter: u32, n: nat)
    requires
        orbit.wf(),
        is_orbit_of_its_point(orbit),
        orbit.escaped_at is None ==> n < orbit.count(),
        n < max_iter,
        plus_is_exact(orbit.c(), delta),
        followed_finitely(orbit, delta, max_iter, n),
        forall|k: nat| k < n ==> #[trigger] followed_exactly(orbit, delta, max_iter, k),
    ensures
        ({
            let (z, eps) = followed(orbit, delta, max_iter, n);
            let own = iterate_of(orbit.c().plus(delta), n).norm_sq();
            &&& alike(z.plus(eps).norm_sq(), own)
            &&& escapes(z.plus(eps).norm_sq()) == escapes(own)
        }),
{
    lemma_followed(orbit, delta, max_iter, n);
    let (z, eps) = followed(orbit, delta, max_iter, n);
    lemma_alike_magnitudes(iterate_of(orbit.c().plus(delta), n), z.plus(eps));
    assert(alike(z.plus(eps).norm_sq(), iterate_of(orbit.c().plus(delta), n).norm_sq()));
}

/// Whether the iteration of a pixel about an orbit is exact as long as its own point has not
/// escaped, and the orbit long enough.
pub open spec fn outcome_is_exact(orbit: ReferenceOrbit, delta: Complex, max_iter: u32) -> bool {
    let own = iteration(orbit.c().plus(delta), max_iter).0;
    &&& orbit.wf()
    &&& is_orbit_of_its_point(orbit)
    &&& orbit.escaped_at is None ==> max_iter < orbit.count()
    &&& plus_is_exact(orbit.c(), delta)
    &&& forall|k: nat| k < own ==> #[trigger] followed_exactly(orbit, delta, max_iter, k)
    &&& forall|k: nat|
        k < max_iter && k <= own ==> #[trigger] followed_finitely(orbit, delta, max_iter, k)
}

/// As far as the orbit is followed, the pixel escapes where its own point does, unless it is a
/// glitch before.
proof fn lemma_along_the_orbit(orbit: ReferenceOrbit, delta: Complex, max_iter: u32, n: nat)
    requires
        outcome_is_exact(orbit, delta, max_iter),
        n <= orbit.bound(max_iter),
        n <= iteration(orbit.c().plus(delta), max_iter).0,
    ensures
        ({
            let p = pixel_at(delta);
            let c = orbit.c().plus(delta);
            let own = iteration(c, max_iter).0;
            let end = orbit.bound(max_iter);
            let k = p.first_settled(orbit, n, end);
            &&& n <= k <= end <= max_iter
            &&& k <= own
            &&& k < end && escapes(p.mag_at(orbit, k)) ==> own == k
            &&& k < end && !escapes(p.mag_at(orbit, k)) ==> p.glitched(orbit, k)
            &&& forall|i: nat| n <= i < k ==> !#[trigger] p.glitched(orbit, i)
        }),
    decreases orbit.bound(max_iter) - n,
{
    let p = pixel_at(delta);
    let c = orbit.c().plus(delta);
    let end = orbit.bound(max_iter);
    crate::naive::lemma_first_beyond(c, 0, max_iter as nat);
    if n < end {
        assert(followed_finitely(orbit, delta, max_iter, n));
        lemma_looked_at(orbit, delta, max_iter, n);
        assert(followed(orbit, delta, max_iter, n) == (orbit.at(n as int), p.eps_at(orbit, n)));
        assert(n < iteration(c, max_iter).0 ==> !escapes(iterate_of(c, n).norm_sq()));
        if !(escapes(p.mag_at(orbit, n)) || p.glitched(orbit, n)) {
            lemma_along_the_orbit(orbit, delta, max_iter, n + 1);
        }
    }
}

/// Beyond the escape of the orbit, the pixel escapes where its own point does.
proof fn lemma_along_the_tail(orbit: ReferenceOrbit, delta: Complex, max_iter: u32, n: nat)
    requires
        outcome_is_exact(orbit, delta, max_iter),
        orbit.escaped_at is Some,
        orbit.escaped_at->0 <= n <= max_iter,
        n <= iteration(orbit.c().plus(delta), max_iter).0,
    ensures
        pixel_at(delta).first_tail_escape(orbit, max_iter, n) == iteration(
            orbit.c().plus(delta),
            max_iter,
        ).0,
    decreases max_iter - n,
{
    let c = orbit.c().plus(delta);
    crate::naive::lemma_first_beyond(c, 0, max_iter as nat);
    if n < max_iter {
        assert(followed_finitely(orbit, delta, max_iter, n));
        lemma_looked_at(orbit, delta, max_iter, n);
        lemma_tail_is_followed(orbit, delta, max_iter, n);
        assert(n < iteration(c, max_iter).0 ==> !escapes(iterate_of(c, n).norm_sq()));
        if n < iteration(c, max_iter).0 {
            lemma_along_the_tail(orbit, delta, max_iter, n + 1);
        }
    }
}

/// Beyond the escape of the orbit, the reference value and the departure are those of the tail.
proof fn lemma_tail_is_followed(orbit: ReferenceOrbit, delta: Complex, max_iter: u32, n: nat)
    requires
        orbit.wf(),
        orbit.escaped_at is Some,
        orbit.escaped_at->0 <= n < max_iter,
    ensures
        ({
            let p = pixel_at(delta);
            &&& p.tail_start(orbit) == orbit.escaped_at->0
            &&& p.tail_at(orbit, max_iter, (n - orbit.escaped_at->0) as nat) == followed(
                orbit,
                delta,
                max_iter,
                n,
            )
        }),
{
}

/// Where no operation rounds, a pixel about a reference point comes to what its own point comes
/// to: it escapes at the same iteration, with the same squared magnitude, or reaches the limit
/// with it. The exception is a glitch: it is one exactly where, at an iteration that follows the
/// orbit and that the point reaches, its squared magnitude is below the limit that goes with the
/// reference iterate.
pub proof fn pixel_comes_to_what_its_point_comes_to(
    orbit: ReferenceOrbit,
    delta: Complex,
    max_iter: u32,
)
    requires
        outcome_is_exact(orbit, delta, max_iter),
        max_iter != 0xffff_ffff,
    ensures
        ({
            let r = offset_outcome(orbit, None, delta, max_iter);
            let c = orbit.c().plus(delta);
            let own = iteration(c, max_iter);
            &&& r.0 != 0xffff_ffff ==> r.0 == own.0 && alike(r.1, own.1)
            &&& r.0 == 0xffff_ffff <==> exists|k: nat|
                k < orbit.bound(max_iter) && k <= own.0 && (#[trigger] iterate_of(
                    c,
                    k,
                )).norm_sq().is_lt(glitch_limit(orbit.at(k as int)))
        }),
{
    let p = pixel_at(delta);
    let c = orbit.c().plus(delta);
    let own = iteration(c, max_iter);
    let end = orbit.bound(max_iter);
    let r = offset_outcome(orbit, None, delta, max_iter);
    assert(r == p.outcome(orbit, max_iter));
    crate::naive::lemma_first_beyond(c, 0, max_iter as nat);
    lemma_along_the_orbit(orbit, delta, max_iter, 0);
    let k = p.first_settled(orbit, 0, end);
    if k < end {
        lemma_small(orbit, delta, max_iter, k);
        if escapes(p.mag_at(orbit, k)) {
            escape_excludes_glitch(orbit.at(k as int), p.mag_at(orbit, k));
        } else {
            assert(iterate_of(c, k).norm_sq().is_lt(glitch_limit(orbit.at(k as int))));
        }
    } else if orbit.escaped_at is Some {
        let esc = orbit.escaped_at->0;
        if esc < max_iter {
            lemma_along_the_tail(orbit, delta, max_iter, esc as nat);
            let m = own.0 as nat;
            if m < max_iter {
                assert(followed_finitely(orbit, delta, max_iter, m));
                lemma_looked_at(orbit, delta, max_iter, m);
                lemma_tail_is_followed(orbit, delta, max_iter, m);
            }
        }
    }
    if exists|i: nat|
        i < end && i <= own.0 && (#[trigger] iterate_of(c, i)).norm_sq().is_lt(
            glitch_limit(orbit.at(i as int)),
        ) {
        let i = choose|i: nat|
            i < end && i <= own.0 && (#[trigger] iterate_of(c, i)).norm_sq().is_lt(
                glitch_limit(orbit.at(i as int)),
            );
        lemma_small(orbit, delta, max_iter, i);
        assert(p.glitched(orbit, i));
        assert(k <= i);
        if escapes(p.mag_at(orbit, k)) {
            assert(k == i);
            escape_excludes_glitch(orbit.at(k as int), p.mag_at(orbit, k));
            assert(false);
        }
    }
}

/// A pixel that follows the orbit is a glitch where its own point's magnitude is below the limit.
proof fn lemma_small(orbit: ReferenceOrbit, delta: Complex, max_iter: u32, k: nat)
    requires
        outcome_is_exact(orbit, delta, max_iter),
        k < orbit.bound(max_iter),
        k <= iteration(orbit.c().plus(delta), max_iter).0,
    ensures
        ({
            let own = iterate_of(orbit.c().plus(delta), k).norm_sq();
            &&& !escapes(orbit.at(k as int).norm_sq())
            &&& alike(pixel_at(delta).mag_at(orbit, k), own)
            &&& escapes(pixel_at(delta).mag_at(orbit, k)) == escapes(own)
            &&& pixel_at(delta).glitched(orbit, k) == own.is_lt(glitch_limit(orbit.at(k as int)))
            &&& pixel_at(delta).mag_at(orbit, k).is_lt(glitch_limit(orbit.at(k as int)))
                == pixel_at(delta).glitched(orbit, k)
        }),
{
    let p = pixel_at(delta);
    let c = orbit.c().plus(delta);
    crate::naive::lemma_first_beyond(c, 0, max_iter as nat);
    assert(followed_finitely(orbit, delta, max_iter, k));
    lemma_looked_at(orbit, delta, max_iter, k);
    assert(followed(orbit, delta, max_iter, k) == (orbit.at(k as int), p.eps_at(orbit, k)));
    comparisons_are_alike(
        p.mag_at(orbit, k),
        iterate_of(c, k).norm_sq(),
        glitch_limit(orbit.at(k as int)),
    );
    assert(orbit.tolerance_check@[k as int] == glitch_limit(orbit.at(k as int)));
}

/// One pixel iterated alone, from the start, is the pixel of a pass without a series.
pub proof fn single_pixel_is_that_of_a_pass(
    orbit: ReferenceOrbit,
    delta: Complex,
    max_iter: u32,
    r: (u32, Double),
)
    requires
        orbit.wf(),
        call_ensures(
            perturb_iterate,
            (&orbit, delta.re, delta.im, max_iter, num(ZERO), num(ZERO), 0u32),
            r,
        ),
    ensures
        r == offset_outcome(orbit, None, delta, max_iter),
{
}

/// Where the series gives the departure that the pixel comes to by the iteration it skips to, and
/// the pixel has not settled before, the series changes nothing.
pub proof fn series_changes_no_outcome(
    orbit: ReferenceOrbit,
    s: SeriesApproximation,
    delta: Complex,
    max_iter: u32,
)
    requires
        orbit.wf(),
        alike_points(s.departure(delta), pixel_at(delta).eps_at(orbit, s.skip as nat)),
        s.skip <= pixel_at(delta).first_settled(orbit, 0, orbit.bound(max_iter)),
    ensures
        offset_outcome(orbit, Some(s), delta, max_iter) == offset_outcome(
            orbit,
            None,
            delta,
            max_iter,
        ),
{
    let p = pixel_at(delta);
    let m = s.skip as nat;
    let q = Pixel { delta, eps: p.eps_at(orbit, m), start: m };
    let e = s.departure(delta);
    let t = Pixel { delta, eps: e, start: m };
    later_start_changes_nothing(p, orbit, max_iter, m);
    lemma_alike_outcomes(t, q, orbit, max_iter);
    assert(offset_outcome(orbit, Some(s), delta, max_iter) == t.outcome(orbit, max_iter));
    assert(offset_outcome(orbit, None, delta, max_iter) == p.outcome(orbit, max_iter));
}

/// Each of four points iterated in step comes to what it comes to alone.
pub proof fn points_in_step_come_to_what_each_comes_to(
    c_re: [Double; 4],
    c_im: [Double; 4],
    max_iter: u32,
    r: ([u32; 4], [Double; 4]),
    lane: int,
    s: (u32, Double),
)
    requires
        0 <= lane < 4,
        call_ensures(naive_simd, (c_re, c_im, max_iter), r),
        call_ensures(naive_scalar, (c_re@[lane], c_im@[lane], max_iter), s),
    ensures
        s == (r.0@[lane], r.1@[lane]),
{
    assert((r.0@[lane], r.1@[lane]) == naive_outcome(lane_point(c_re, c_im, lane), max_iter));
}

/// Each of four pixels iterated in step comes to what it comes to alone.
pub proof fn pixels_in_step_come_to_what_each_comes_to(
    orbit: ReferenceOrbit,
    delta_re: [Double; 4],
    delta_im: [Double; 4],
    max_iter: u32,
    eps_re: [Double; 4],
    eps_im: [Double; 4],
    start_n: u32,
    r: ([u32; 4], [Double; 4]),
    lane: int,
    s: (u32, Double),
)
    requires
        orbit.wf(),
        0 <= lane < 4,
        call_ensures(
            perturb_iterate_simd,
            (&orbit, delta_re, delta_im, max_iter, eps_re, eps_im, start_n),
            r,
        ),
        call_ensures(
            perturb_iterate,
            (
                &orbit,
                delta_re@[lane],
                delta_im@[lane],
                max_iter,
                eps_re@[lane],
                eps_im@[lane],
                start_n,
            ),
            s,
        ),
    ensures
        s == (r.0@[lane], r.1@[lane]),
{
    assert((r.0@[lane], r.1@[lane]) == lane_pixel(
        delta_re,
        delta_im,
        eps_re,
        eps_im,
        start_n,
        lane,
    ).outcome(orbit, max_iter));
}

/// Each of four departures by the series is the one that its offset gives alone.
pub proof fn departures_in_step_are_those_of_each(
    series: SeriesApproximation,
    delta_re: [Double; 4],
    delta_im: [Double; 4],
    r: ([Double; 4], [Double; 4]),
    lane: int,
    s: (Double, Double),
)
    requires
        series.wf(),
        0 <= lane < 4,
        call_ensures(SeriesApproximation::evaluate_simd, (&series, delta_re, delta_im), r),
        call_ensures(
            SeriesApproximation::evaluate,
            (&series, delta_re@[lane], delta_im@[lane]),
            s,
        ),
    ensures
        s == (r.0@[lane], r.1@[lane]),
{
    let e = series.departure(lane_point(delta_re, delta_im, lane));
    assert(r.0@[lane] == e.re && r.1@[lane] == e.im);
}

/// An iterate at high precision ends the iteration at the limit, with zero, or beyond the escape
/// radius, with its squared magnitude; else the next one is wanted.
pub proof fn exact_iteration_ends_at_the_limit_or_beyond(
    i: u32,
    max_iter: u32,
    z: Complex,
    r: HpStep,
)
    requires
        call_ensures(naive_hp, (i, max_iter, z.re, z.im), r),
    ensures
        i >= max_iter ==> r == HpStep::Done(max_iter, num(ZERO)),
        i < max_iter && above_sixteen(z.norm_sq()) && !z.norm_sq().is_nan() ==> r == HpStep::Done(
            i,
            z.norm_sq(),
        ),
        i < max_iter && !(above_sixteen(z.norm_sq()) && !z.norm_sq().is_nan()) ==> r
            == HpStep::Next,
{
    lemma_sixteen(z.norm_sq());
}

/// An orbit starts at zero, for the point that it is asked for, and goes on as long as the limit
/// allows.
pub proof fn orbit_starts_at_zero(c: Complex, max_iter: u32, r: OrbitStep)
    requires
        call_ensures(ReferenceOrbit::begin_hp, (c.re, c.im, max_iter), r),
    ensures
        r.c() == c,
        r.model().points == seq![zero_point()],
        r is Done <==> max_iter == 0,
{
    assert(r.model().done == (max_iter == 0));
}

/// An orbit takes in each iterate, for the same point, and is complete with the first one beyond
/// the escape radius or with the one at the limit.
pub proof fn orbit_takes_in_each_iterate(building: OrbitBuilder, z: Complex, r: OrbitStep)
    requires
        building.wf(),
        building.orbit.count() < u32::MAX,
        call_ensures(ReferenceOrbit::compute_hp, (building, z.re, z.im), r),
    ensures
        r.c() == building.orbit.c(),
        r.model().points == building.orbit.points().push(z),
        r is Done <==> escapes(z.norm_sq()) || building.orbit.count() == building.max_iter,
        r matches OrbitStep::Done(o) ==> (o.escaped_at is Some <==> escapes(z.norm_sq())) && (
        o.escaped_at matches Some(esc) ==> esc + 1 == building.orbit.count()),
        r matches OrbitStep::More(b) ==> b.max_iter == building.max_iter,
{
    let m = building.model().advance(z, building.max_iter as nat);
    assert(r.model() == m);
    assert(building.model().points.len() == building.orbit.count());
}

/// The series for a view has eight terms, and is made for offsets up to half the diagonal.
pub proof fn series_of_a_view(
    enabled: bool,
    orbit: ReferenceOrbit,
    view: view::View,
    max_iter: u32,
    r: Option<SeriesApproximation>,
    d: Double,
)
    requires
        orbit.wf(),
        call_ensures(series_for, (enabled, &orbit, &view, max_iter), r),
        call_ensures(delta_max, (&view,), d),
    ensures
        r is Some <==> enabled,
        r matches Some(s) ==> s.num_terms == 8 && s.skip == scan(orbit, d, 8, max_iter, 1, 0).skip,
{
}

}
