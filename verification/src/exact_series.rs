//! The series against the iteration that it stands for: where no operation rounds and no term is
//! cut off, it gives the departure from the orbit.
use vstd::prelude::*;
use vstd::arithmetic::power2::{lemma_pow2_unfold, pow2};
use crate::complex::Complex;
use crate::double::{num, Double, HALF, ONE, TWO, ZERO};
use crate::exact::{
    difference_is_exact,
    lemma_twice,
    perturbed_is_exact,
    pixel_at,
    plus_is_exact,
    product_is_exact,
    same_value,
    sum_is_exact,
};
use crate::orbit::{zero_point, ReferenceOrbit};
use crate::rounding::UNIT_EXP;
use crate::scaled::{scaled, scaled_zero, Mcx};
use crate::series::{
    carried,
    coefficient,
    cross_sum,
    horner,
    is_row,
    next_coefficient,
    SeriesApproximation,
};
use crate::sums::{
    convolved,
    convolved_vanishes,
    exact_one,
    exact_times_associates,
    exact_times_commutes,
    exact_times_distributes,
    exact_units,
    exact_zero,
    lemma_associates,
    lemma_commutes,
    lemma_distributes,
    power,
    powers_add,
    square_of_a_sum,
    sum,
    sum_of_products,
    sum_of_sums,
    sum_of_zeros,
    Exact,
};

verus! {

/// The real number `2^e`.
pub open spec fn real_pow2(e: int) -> real
    decreases (if e < 0 {
            -e
        } else {
            e
        }),
{
    if e == 0 {
        1 as real
    } else if e > 0 {
        real_pow2(e - 1) + real_pow2(e - 1)
    } else {
        real_pow2(e + 1) / (2 as real)
    }
}

/// The real number that a finite number stands for.
pub open spec fn real_of(v: Double) -> real {
    (v.value() as real) * real_pow2(-(UNIT_EXP as int))
}

/// The complex number that a pair of finite numbers stands for.
pub open spec fn exact_of(z: Complex) -> Exact {
    Exact { re: real_of(z.re), im: real_of(z.im) }
}

/// The complex number that a scaled one stands for.
#[verifier::opaque]
pub open spec fn exact_of_scaled(m: Mcx) -> Exact {
    Exact {
        re: real_of(m.re) * real_pow2(m.exp as int),
        im: real_of(m.im) * real_pow2(m.exp as int),
    }
}

/// A power of two and its inverse.
pub proof fn lemma_real_pow2(n: nat)
    ensures
        (pow2(n) as real) * real_pow2(-(n as int)) == 1 as real,
    decreases n,
{
    if n == 0 {
        vstd::arithmetic::power2::lemma2_to64();
    } else {
        let k = (n - 1) as nat;
        lemma_real_pow2(k);
        lemma_pow2_unfold(n);
        let a = pow2(k) as real;
        let h = real_pow2(-(n as int));
        assert(real_pow2(-(k as int)) == h + h);
        assert(pow2(n) as real == a + a);
        lemma_distributes(a, h, h);
        lemma_commutes(a + a, h);
        lemma_distributes(h, a, a);
        lemma_commutes(h, a);
    }
}

/// The product of integers as real numbers.
pub proof fn lemma_int_product(a: int, b: int)
    ensures
        (a * b) as real == (a as real) * (b as real),
    decreases (if b < 0 {
            -b
        } else {
            b
        }),
{
    let (p, q, one) = (a as real, b as real, 1 as real);
    assert(p * one == p) by (nonlinear_arith)
        requires
            one == 1 as real,
    ;
    if b > 0 {
        lemma_int_product(a, b - 1);
        assert(a * b == a * (b - 1) + a) by (nonlinear_arith);
        let k = (b - 1) as real;
        lemma_distributes(p, k, one);
        assert(k + one == q);
    } else if b < 0 {
        lemma_int_product(a, b + 1);
        assert(a * b == a * (b + 1) - a) by (nonlinear_arith);
        let k = (b + 1) as real;
        lemma_distributes(p, q, one);
        assert(q + one == k);
    } else {
        assert(a * b == 0) by (nonlinear_arith)
            requires
                b == 0,
        ;
        assert(p * q == 0 as real) by (nonlinear_arith)
            requires
                q == 0 as real,
        ;
    }
}

/// An exact product stands for the product.
pub proof fn lemma_product_value(a: Double, b: Double)
    requires
        product_is_exact(a, b),
    ensures
        real_of(a.times(b)) == real_of(a) * real_of(b),
{
    let u = pow2(UNIT_EXP as nat) as real;
    let w = real_pow2(-(UNIT_EXP as int));
    let r = a.times(b).value();
    lemma_real_pow2(UNIT_EXP as nat);
    lemma_int_product(r, pow2(UNIT_EXP as nat) as int);
    lemma_int_product(a.value(), b.value());
    let (x, p, q) = (r as real, a.value() as real, b.value() as real);
    assert(x * u == p * q);
    // x*w is x*w*(u*w), which is (x*u)*(w*w), that is (p*q)*(w*w).
    lemma_associates(x, w, u * w);
    lemma_swap(x, w, u, w);
    lemma_swap(p, w, q, w);
}

/// Four factors in another order.
pub proof fn lemma_swap(a: real, b: real, c: real, d: real)
    ensures
        (a * b) * (c * d) == (a * c) * (b * d),
{
    lemma_associates(a, b, c * d);
    lemma_associates(b, c, d);
    lemma_commutes(b, c);
    lemma_associates(c, b, d);
    lemma_associates(a, c, b * d);
}

/// An exact sum stands for the sum.
pub proof fn lemma_sum_value(a: Double, b: Double)
    ensures
        sum_is_exact(a, b) ==> real_of(a.plus(b)) == real_of(a) + real_of(b),
        difference_is_exact(a, b) ==> real_of(a.minus(b)) == real_of(a) - real_of(b),
{
    let w = real_pow2(-(UNIT_EXP as int));
    let (p, q) = (a.value() as real, b.value() as real);
    lemma_commutes(p, w);
    lemma_commutes(q, w);
    lemma_commutes(p + q, w);
    lemma_commutes(p - q, w);
    lemma_distributes(w, p, q);
    lemma_distributes(w, p - q, q);
}

/// An exact double stands for the double.
pub proof fn lemma_twice_value(a: Double)
    requires
        product_is_exact(num(TWO), a),
    ensures
        real_of(num(TWO).times(a)) == real_of(a) + real_of(a),
{
    lemma_twice(a);
    let w = real_pow2(-(UNIT_EXP as int));
    let p = a.value() as real;
    assert(num(TWO).times(a).value() as real == p + p);
    lemma_commutes(p + p, w);
    lemma_distributes(w, p, p);
    lemma_commutes(w, p);
}

/// Whether a product of complex numbers is exact in all its operations.
pub open spec fn complex_product_is_exact(a: Complex, b: Complex) -> bool {
    &&& product_is_exact(a.re, b.re)
    &&& product_is_exact(a.im, b.im)
    &&& product_is_exact(a.re, b.im)
    &&& product_is_exact(a.im, b.re)
    &&& difference_is_exact(a.re.times(b.re), a.im.times(b.im))
    &&& sum_is_exact(a.re.times(b.im), a.im.times(b.re))
}

/// An exact product of complex numbers stands for the product.
pub proof fn lemma_complex_product_value(a: Complex, b: Complex)
    requires
        complex_product_is_exact(a, b),
    ensures
        exact_of(a.product(b)) == exact_of(a).times(exact_of(b)),
{
    reveal(Exact::times);
    lemma_product_value(a.re, b.re);
    lemma_product_value(a.im, b.im);
    lemma_product_value(a.re, b.im);
    lemma_product_value(a.im, b.re);
    lemma_sum_value(a.re.times(b.re), a.im.times(b.im));
    lemma_sum_value(a.re.times(b.im), a.im.times(b.re));
}

/// An exact sum of complex numbers stands for the sum.
pub proof fn lemma_complex_sum_value(a: Complex, b: Complex)
    requires
        plus_is_exact(a, b),
    ensures
        exact_of(a.plus(b)) == exact_of(a).plus(exact_of(b)),
{
    lemma_sum_value(a.re, b.re);
    lemma_sum_value(a.im, b.im);
}

/// `2*z*e + e*e + d`.
pub open spec fn exact_step(e: Exact, z: Exact, d: Exact) -> Exact {
    z.times(e).plus(z.times(e)).plus(e.times(e)).plus(d)
}

/// An exact step of the perturbed iteration stands for the step.
proof fn lemma_perturbed_value(eps: Complex, z: Complex, delta: Complex)
    requires
        perturbed_is_exact(eps, z, delta),
    ensures
        exact_of(eps.perturbed(z, delta)) == exact_step(
            exact_of(eps),
            exact_of(z),
            exact_of(delta),
        ),
{
    reveal(Exact::times);
    let two = num(TWO);
    let re = z.re.times(eps.re).minus(z.im.times(eps.im));
    let im = z.re.times(eps.im).plus(z.im.times(eps.re));
    let sq_re = eps.re.times(eps.re).minus(eps.im.times(eps.im));
    let sq_im = two.times(eps.re).times(eps.im);
    lemma_product_value(z.re, eps.re);
    lemma_product_value(z.im, eps.im);
    lemma_product_value(z.re, eps.im);
    lemma_product_value(z.im, eps.re);
    lemma_product_value(eps.re, eps.re);
    lemma_product_value(eps.im, eps.im);
    lemma_product_value(two.times(eps.re), eps.im);
    lemma_twice_value(eps.re);
    lemma_twice_value(re);
    lemma_twice_value(im);
    lemma_sum_value(z.re.times(eps.re), z.im.times(eps.im));
    lemma_sum_value(z.re.times(eps.im), z.im.times(eps.re));
    lemma_sum_value(eps.re.times(eps.re), eps.im.times(eps.im));
    lemma_sum_value(two.times(re), sq_re);
    lemma_sum_value(two.times(im), sq_im);
    lemma_sum_value(two.times(re).plus(sq_re), delta.re);
    lemma_sum_value(two.times(im).plus(sq_im), delta.im);
    let (x, y) = (real_of(eps.re), real_of(eps.im));
    lemma_commutes(x + x, y);
    lemma_distributes(y, x, x);
    lemma_commutes(y, x);
}

/// Whether the product of scaled numbers stands for their product.
pub open spec fn scaled_product_is_exact(a: Mcx, b: Mcx) -> bool {
    exact_of_scaled(a.product(b)) == exact_of_scaled(a).times(exact_of_scaled(b))
}

/// Whether the square of a scaled number stands for its square.
pub open spec fn scaled_square_is_exact(a: Mcx) -> bool {
    exact_of_scaled(a.squared()) == exact_of_scaled(a).times(exact_of_scaled(a))
}

/// Whether twice a scaled number stands for its double.
pub open spec fn scaled_double_is_exact(a: Mcx) -> bool {
    exact_of_scaled(a.product_real(num(TWO))) == exact_of_scaled(a).plus(exact_of_scaled(a))
}

/// Whether the sum of scaled numbers stands for their sum.
pub open spec fn scaled_sum_is_exact(a: Mcx, b: Mcx) -> bool {
    exact_of_scaled(a.plus(b)) == exact_of_scaled(a).plus(exact_of_scaled(b))
}

/// Whether a product and its double are exact.
pub open spec fn double_product_is_exact(a: Mcx, b: Mcx) -> bool {
    scaled_product_is_exact(a, b) && scaled_double_is_exact(a.product(b))
}

/// Whether no operation rounds that leads to the coefficient of term `t` at iteration `n + 1`.
pub open spec fn coefficient_is_exact(orbit: ReferenceOrbit, t: nat, n: nat) -> bool {
    let z = orbit.at(n as int);
    let first = coefficient(orbit, 0, n);
    let second = coefficient(orbit, 1, n);
    let third = coefficient(orbit, 2, n);
    let kept = carried(orbit, t, n);
    &&& exact_of_scaled(scaled(z.re, z.im)) == exact_of(z)
    &&& double_product_is_exact(coefficient(orbit, t, n), scaled(z.re, z.im))
    &&& if t == 0 {
        scaled_sum_is_exact(kept, scaled(num(ONE), num(ZERO)))
    } else if t == 1 {
        scaled_square_is_exact(first) && scaled_sum_is_exact(kept, first.squared())
    } else if t == 2 {
        double_product_is_exact(first, second) && scaled_sum_is_exact(
            kept,
            first.product(second).product_real(num(TWO)),
        )
    } else if t == 3 {
        let ac = first.product(third).product_real(num(TWO));
        double_product_is_exact(first, third) && scaled_square_is_exact(second)
            && scaled_sum_is_exact(kept, ac) && scaled_sum_is_exact(kept.plus(ac), second.squared())
    } else {
        cross_sum_is_exact(orbit, t, n) && scaled_sum_is_exact(kept, cross_sum(orbit, t, n, t))
    }
    &&& exact_of_scaled(next_coefficient(orbit, t, n).reduced()) == exact_of_scaled(
        next_coefficient(orbit, t, n),
    )
}

/// Whether no operation rounds in the sum of products for term `t`.
pub open spec fn cross_sum_is_exact(orbit: ReferenceOrbit, t: nat, n: nat) -> bool {
    forall|p: nat|
        1 <= p <= t ==> #[trigger] cross_term_is_exact(orbit, t, n, p)
}

/// Whether the last product of the first `p` and its addition are exact.
pub open spec fn cross_term_is_exact(orbit: ReferenceOrbit, t: nat, n: nat, p: nat) -> bool {
    let a = coefficient(orbit, (p - 1) as nat, n);
    let b = coefficient(orbit, (t - p) as nat, n);
    scaled_product_is_exact(a, b) && scaled_sum_is_exact(
        cross_sum(orbit, t, n, (p - 1) as nat),
        a.product(b),
    )
}

/// The numbers that the coefficients at iteration `n` stand for.
pub open spec fn values(orbit: ReferenceOrbit, n: nat) -> spec_fn(nat) -> Exact {
    |t: nat| exact_of_scaled(coefficient(orbit, t, n))
}

/// The scaled zero stands for zero.
proof fn lemma_zero_value()
    ensures
        exact_of_scaled(scaled_zero()) == exact_zero(),
        exact_of(zero_point()) == exact_zero(),
{
    reveal(exact_of_scaled);
    crate::laws::lemma_zero_units();
}

/// The scaled one stands for one.
proof fn lemma_one_value()
    ensures
        exact_of_scaled(scaled(num(ONE), num(ZERO))) == exact_one(),
{
    reveal(exact_of_scaled);
    crate::scaled::scaled_one();
    crate::laws::lemma_zero_units();
    crate::offsets::lemma_half();
    lemma_real_pow2(1073);
    let h = pow2(1073) as real;
    let w = real_pow2(-(UNIT_EXP as int));
    assert(real_pow2(-1073) == w + w);
    assert(real_pow2(1) == 2 as real) by {
        reveal_with_fuel(real_pow2, 3);
    }
    lemma_distributes(h, w, w);
    let half = real_of(num(HALF));
    let two = real_pow2(1);
    assert(half * two == half + half) by (nonlinear_arith)
        requires
            two == 2 as real,
    ;
    let none = real_of(num(ZERO));
    let nothing = num(ZERO).value() as real;
    assert(nothing * w == 0 as real) by (nonlinear_arith)
        requires
            nothing == 0 as real,
    ;
    assert(none * two == none) by (nonlinear_arith)
        requires
            none == 0 as real,
    ;
}

/// The sum of the products for term `t`, as far as the first `p` of them.
proof fn lemma_cross_sum_value(orbit: ReferenceOrbit, t: nat, n: nat, p: nat)
    requires
        p <= t,
        cross_sum_is_exact(orbit, t, n),
    ensures
        exact_of_scaled(cross_sum(orbit, t, n, p)) == sum(
            |q: nat| values(orbit, n)(q).times(values(orbit, n)((t - 1 - q) as nat)),
            p,
        ),
    decreases p,
{
    let g = |q: nat| values(orbit, n)(q).times(values(orbit, n)((t - 1 - q) as nat));
    if p == 0 {
        lemma_zero_value();
    } else {
        let k = (p - 1) as nat;
        lemma_cross_sum_value(orbit, t, n, k);
        assert(cross_term_is_exact(orbit, t, n, p));
        assert((t - 1 - k) as nat == (t - p) as nat);
        assert(sum(g, p) == sum(g, k).plus(g(k)));
    }
}

/// What the coefficient of term `t` gets from the products of others.
proof fn lemma_products_value(orbit: ReferenceOrbit, t: nat, n: nat)
    requires
        coefficient_is_exact(orbit, t, n),
        t > 0,
    ensures
        exact_of_scaled(next_coefficient(orbit, t, n)) == exact_of_scaled(
            carried(orbit, t, n),
        ).plus(convolved(values(orbit, n), t)),
{
    let v = values(orbit, n);
    if t == 1 {
        lemma_convolved_one(v);
    } else if t == 2 {
        lemma_convolved_two(v);
    } else if t == 3 {
        lemma_convolved_three(v);
    } else {
        lemma_cross_sum_value(orbit, t, n, t);
    }
}

/// The only product for the second term.
proof fn lemma_convolved_one(v: spec_fn(nat) -> Exact)
    ensures
        convolved(v, 1) == v(0).times(v(0)),
{
    let g = |q: nat| v(q).times(v((1 - 1 - q) as nat));
    assert(sum(g, 1) == sum(g, 0).plus(g(0)));
}

/// The two products for the third term.
proof fn lemma_convolved_two(v: spec_fn(nat) -> Exact)
    ensures
        convolved(v, 2) == v(0).times(v(1)).plus(v(0).times(v(1))),
{
    let g = |q: nat| v(q).times(v((2 - 1 - q) as nat));
    assert(sum(g, 1) == sum(g, 0).plus(g(0)));
    assert(sum(g, 2) == sum(g, 1).plus(g(1)));
    exact_times_commutes(v(0), v(1));
}

/// The three products for the fourth term.
proof fn lemma_convolved_three(v: spec_fn(nat) -> Exact)
    ensures
        convolved(v, 3) == v(0).times(v(2)).plus(v(0).times(v(2))).plus(v(1).times(v(1))),
{
    let g = |q: nat| v(q).times(v((3 - 1 - q) as nat));
    assert(sum(g, 1) == sum(g, 0).plus(g(0)));
    assert(sum(g, 2) == sum(g, 1).plus(g(1)));
    assert(sum(g, 3) == sum(g, 2).plus(g(2)));
    exact_times_commutes(v(0), v(2));
}

/// Exact coefficients follow their recurrence.
proof fn lemma_coefficient_value(orbit: ReferenceOrbit, t: nat, n: nat)
    requires
        coefficient_is_exact(orbit, t, n),
    ensures
        ({
            let v = values(orbit, n);
            let zv = exact_of(orbit.at(n as int)).times(v(t));
            values(orbit, n + 1)(t) == zv.plus(zv).plus(convolved(v, t)).plus(
                if t == 0 {
                    exact_one()
                } else {
                    exact_zero()
                },
            )
        }),
{
    let z = orbit.at(n as int);
    let a = coefficient(orbit, t, n);
    exact_times_commutes(exact_of_scaled(a), exact_of(z));
    if t == 0 {
        lemma_one_value();
        assert(convolved(values(orbit, n), 0) == exact_zero());
    } else {
        lemma_products_value(orbit, t, n);
    }
}

/// The terms of the series at iteration `n`, for the offset `x`.
pub open spec fn series_terms(orbit: ReferenceOrbit, n: nat, x: Exact) -> spec_fn(nat) -> Exact {
    |t: nat| values(orbit, n)(t).times(power(x, t + 1))
}

/// A number of terms beyond which there are none at iteration `n`.
pub open spec fn degree(n: nat) -> nat
    decreases n,
{
    if n == 0 {
        0
    } else {
        2 * degree((n - 1) as nat) + 1
    }
}

/// Whether no operation rounds that leads to the coefficients at iteration `n + 1`.
pub open spec fn row_is_exact(orbit: ReferenceOrbit, n: nat) -> bool {
    forall|t: nat| #[trigger] coefficient_is_exact(orbit, t, n)
}

/// Beyond the degree there are no terms.
proof fn lemma_degree(orbit: ReferenceOrbit, n: nat)
    requires
        forall|m: nat| m < n ==> #[trigger] row_is_exact(orbit, m),
    ensures
        forall|t: nat| t >= degree(n) ==> #[trigger] values(orbit, n)(t) == exact_zero(),
    decreases n,
{
    if n == 0 {
        lemma_zero_value();
    } else {
        let m = (n - 1) as nat;
        lemma_degree(orbit, m);
        let v = values(orbit, m);
        let d = degree(m);
        assert(row_is_exact(orbit, m));
        assert forall|t: nat| t >= degree(n) implies #[trigger] values(orbit, n)(t)
            == exact_zero() by {
            assert(coefficient_is_exact(orbit, t, m));
            lemma_coefficient_value(orbit, t, m);
            assert(v(t) == exact_zero());
            exact_units(exact_of(orbit.at(m as int)));
            convolved_vanishes(v, d, t);
        }
    }
}

/// Products of terms are terms of the products.
proof fn lemma_convolved_terms(orbit: ReferenceOrbit, n: nat, x: Exact, t: nat)
    ensures
        convolved(series_terms(orbit, n, x), t) == convolved(values(orbit, n), t).times(
            power(x, t + 1),
        ),
{
    let v = values(orbit, n);
    let b = series_terms(orbit, n, x);
    let w = power(x, t + 1);
    let g = |p: nat| v(p).times(v((t - 1 - p) as nat));
    let h = |p: nat| b(p).times(b((t - 1 - p) as nat));
    assert forall|p: nat| p < t implies #[trigger] h(p) == w.times(g(p)) by {
        let q = (t - 1 - p) as nat;
        let (xp, xq) = (power(x, p + 1), power(x, q + 1));
        powers_add(x, p + 1, q + 1);
        // (a*xp)*(c*xq) is (a*c)*(xp*xq).
        let (a, c) = (v(p), v(q));
        exact_times_associates(a, xp, c.times(xq));
        exact_times_associates(xp, c, xq);
        exact_times_commutes(xp, c);
        exact_times_associates(c, xp, xq);
        exact_times_associates(a, c, xp.times(xq));
        exact_times_commutes(a.times(c), w);
    }
    sum_of_products(w, g, h, t);
    exact_times_commutes(w, sum(g, t));
}

/// The terms follow the recurrence of the coefficients.
proof fn lemma_next_term(orbit: ReferenceOrbit, n: nat, x: Exact, t: nat)
    requires
        coefficient_is_exact(orbit, t, n),
    ensures
        ({
            let b = series_terms(orbit, n, x);
            let zb = exact_of(orbit.at(n as int)).times(b(t));
            series_terms(orbit, n + 1, x)(t) == zb.plus(zb).plus(convolved(b, t)).plus(
                if t == 0 {
                    x
                } else {
                    exact_zero()
                },
            )
        }),
{
    let v = values(orbit, n);
    let z = exact_of(orbit.at(n as int));
    let w = power(x, t + 1);
    let zv = z.times(v(t));
    let c = convolved(v, t);
    let e = if t == 0 {
        exact_one()
    } else {
        exact_zero()
    };
    lemma_coefficient_value(orbit, t, n);
    lemma_convolved_terms(orbit, n, x, t);
    exact_times_distributes(w, zv.plus(zv).plus(c), e);
    exact_times_distributes(w, zv.plus(zv), c);
    exact_times_distributes(w, zv, zv);
    exact_times_associates(z, v(t), w);
    exact_units(w);
    if t == 0 {
        assert(power(x, 1) == power(x, 0).times(x));
        exact_units(x);
    }
}

/// The sum of the terms at the next iteration is the perturbed step of their sum.
proof fn lemma_sum_steps(orbit: ReferenceOrbit, n: nat, x: Exact)
    requires
        forall|m: nat| m <= n ==> #[trigger] row_is_exact(orbit, m),
    ensures
        sum(series_terms(orbit, n + 1, x), degree(n + 1)) == exact_step(
            sum(series_terms(orbit, n, x), degree(n)),
            exact_of(orbit.at(n as int)),
            x,
        ),
{
    let z = exact_of(orbit.at(n as int));
    let b = series_terms(orbit, n, x);
    let next = series_terms(orbit, n + 1, x);
    let d = degree(n);
    let k = 2 * d + 1;
    assert(degree(n + 1) == k);
    lemma_degree(orbit, n);
    assert forall|t: nat| t >= d implies #[trigger] b(t) == exact_zero() by {
        assert(values(orbit, n)(t) == exact_zero());
        exact_units(power(x, t + 1));
    }
    let zb = |t: nat| z.times(b(t));
    let c = |t: nat| convolved(b, t);
    let e = |t: nat|
        if t == 0 {
            x
        } else {
            exact_zero()
        };
    let two = |t: nat| zb(t).plus(zb(t));
    let three = |t: nat| two(t).plus(c(t));
    assert(row_is_exact(orbit, n));
    assert forall|t: nat| t < k implies #[trigger] next(t) == three(t).plus(e(t)) by {
        assert(coefficient_is_exact(orbit, t, n));
        lemma_next_term(orbit, n, x, t);
    }
    sum_of_sums(three, e, next, k);
    sum_of_sums(two, c, three, k);
    sum_of_sums(zb, zb, two, k);
    sum_of_products(z, b, zb, k);
    sum_of_zeros(b, d, k);
    square_of_a_sum(b, d);
    sum_of_zeros(e, 1, k);
    assert(sum(e, 1) == sum(e, 0).plus(e(0)));
}

/// Whether iteration `m` is exact, of the series and of the departure that it stands for.
pub open spec fn series_step_is_exact(orbit: ReferenceOrbit, delta: Complex, m: nat) -> bool {
    row_is_exact(orbit, m) && perturbed_is_exact(
        pixel_at(delta).eps_at(orbit, m),
        orbit.at(m as int),
        delta,
    )
}

/// Where no operation rounds, the departure from the orbit is the sum of all terms of the series.
pub proof fn departure_is_the_sum_of_the_terms(orbit: ReferenceOrbit, delta: Complex, n: nat)
    requires
        forall|m: nat| m < n ==> #[trigger] series_step_is_exact(orbit, delta, m),
    ensures
        exact_of(pixel_at(delta).eps_at(orbit, n)) == sum(
            series_terms(orbit, n, exact_of(delta)),
            degree(n),
        ),
    decreases n,
{
    if n == 0 {
        lemma_zero_value();
    } else {
        let m = (n - 1) as nat;
        departure_is_the_sum_of_the_terms(orbit, delta, m);
        assert(series_step_is_exact(orbit, delta, m));
        assert forall|i: nat| i <= m implies #[trigger] row_is_exact(orbit, i) by {
            assert(series_step_is_exact(orbit, delta, i));
        }
        lemma_sum_steps(orbit, m, exact_of(delta));
        lemma_perturbed_value(
            pixel_at(delta).eps_at(orbit, m),
            orbit.at(m as int),
            delta,
        );
    }
}

/// Whether no operation rounds in the evaluation of a series.
pub open spec fn evaluation_is_exact(s: SeriesApproximation, delta: Complex) -> bool {
    let a = s.terms();
    &&& forall|t: int|
        0 <= t < a.len() ==> exact_of(#[trigger] a[t]) == exact_of_scaled(
            s.rows@[s.skip as int]@[t],
        )
    &&& forall|t: nat| t + 1 < a.len() ==> #[trigger] horner_step_is_exact(a, delta, t)
    &&& complex_product_is_exact(delta, horner(a, delta, 0))
}

/// Whether the step of the nested sum from place `t + 1` to place `t` is exact.
pub open spec fn horner_step_is_exact(a: Seq<Complex>, delta: Complex, t: nat) -> bool {
    let inner = horner(a, delta, t + 1);
    complex_product_is_exact(delta, inner) && plus_is_exact(a[t as int], delta.product(inner))
}

/// The nested sum from place `t` on, and the terms before it, make up the sum of all terms.
proof fn lemma_horner_value(a: Seq<Complex>, delta: Complex, f: spec_fn(nat) -> Exact, t: nat)
    requires
        t < a.len(),
        forall|i: nat|
            i < a.len() ==> #[trigger] f(i) == exact_of(a[i as int]).times(
                power(exact_of(delta), i + 1),
            ),
        forall|i: nat| i + 1 < a.len() ==> #[trigger] horner_step_is_exact(a, delta, i),
    ensures
        sum(f, a.len()) == sum(f, t).plus(
            exact_of(horner(a, delta, t)).times(power(exact_of(delta), t + 1)),
        ),
    decreases a.len() - t,
{
    let x = exact_of(delta);
    let w = power(x, t + 1);
    assert(f(t) == exact_of(a[t as int]).times(w));
    if t + 1 < a.len() {
        lemma_horner_value(a, delta, f, t + 1);
        assert(horner_step_is_exact(a, delta, t));
        let inner = horner(a, delta, t + 1);
        let h = exact_of(inner);
        lemma_complex_product_value(delta, inner);
        lemma_complex_sum_value(a[t as int], delta.product(inner));
        exact_times_distributes(w, exact_of(a[t as int]), x.times(h));
        // (x*h)*w is h*(w*x).
        exact_times_commutes(x, h);
        exact_times_associates(h, x, w);
        exact_times_commutes(x, w);
        assert(power(x, t + 2) == w.times(x));
        assert(sum(f, t + 1) == sum(f, t).plus(f(t)));
    } else {
        assert(sum(f, a.len()) == sum(f, t).plus(f(t)));
    }
}

/// A scaled number without mantissas stands for zero.
proof fn lemma_vanishing_value(m: Mcx)
    requires
        m.is_zero(),
    ensures
        exact_of_scaled(m) == exact_zero(),
{
    reveal(exact_of_scaled);
    crate::laws::lemma_zero_units();
    let w = real_pow2(-(UNIT_EXP as int));
    let e = real_pow2(m.exp as int);
    let (p, q) = (m.re.value() as real, m.im.value() as real);
    assert(p * w == 0 as real && q * w == 0 as real) by (nonlinear_arith)
        requires
            p == 0 as real,
            q == 0 as real,
    ;
    let (a, b) = (real_of(m.re), real_of(m.im));
    assert(a * e == 0 as real && b * e == 0 as real) by (nonlinear_arith)
        requires
            a == 0 as real,
            b == 0 as real,
    ;
}

/// Numbers that stand for the same real number have the same value.
proof fn lemma_same_value(a: Double, b: Double)
    requires
        real_of(a) == real_of(b),
    ensures
        a.value() == b.value(),
{
    let u = pow2(UNIT_EXP as nat) as real;
    let w = real_pow2(-(UNIT_EXP as int));
    lemma_real_pow2(UNIT_EXP as nat);
    let (p, q) = (a.value() as real, b.value() as real);
    lemma_commutes(u, w);
    lemma_associates(p, w, u);
    lemma_associates(q, w, u);
    let one = 1 as real;
    assert(p * one == p && q * one == q) by (nonlinear_arith)
        requires
            one == 1 as real,
    ;
}

/// Neither the degree nor a number of terms beyond which there are none leaves one out.
proof fn lemma_all_terms(orbit: ReferenceOrbit, delta: Complex, n: nat, k: nat)
    requires
        forall|m: nat| m < n ==> #[trigger] series_step_is_exact(orbit, delta, m),
        forall|t: nat| t >= k ==> (#[trigger] coefficient(orbit, t, n)).is_zero(),
    ensures
        sum(series_terms(orbit, n, exact_of(delta)), k) == sum(
            series_terms(orbit, n, exact_of(delta)),
            degree(n),
        ),
{
    let x = exact_of(delta);
    let f = series_terms(orbit, n, x);
    let d = degree(n);
    if k < d {
        assert forall|t: nat| k <= t < d implies #[trigger] f(t) == exact_zero() by {
            lemma_vanishing_value(coefficient(orbit, t, n));
            exact_units(power(x, t + 1));
        }
        sum_of_zeros(f, k, d);
    } else {
        assert forall|m: nat| m < n implies #[trigger] row_is_exact(orbit, m) by {
            assert(series_step_is_exact(orbit, delta, m));
        }
        lemma_degree(orbit, n);
        assert forall|t: nat| d <= t < k implies #[trigger] f(t) == exact_zero() by {
            assert(values(orbit, n)(t) == exact_zero());
            exact_units(power(x, t + 1));
        }
        sum_of_zeros(f, d, k);
    }
}

/// An exact evaluation gives the sum of the terms of the series.
proof fn lemma_evaluation(s: SeriesApproximation, orbit: ReferenceOrbit, delta: Complex)
    requires
        s.wf(),
        0 < s.skip < s.rows@.len(),
        is_row(s.rows@[s.skip as int]@, orbit, s.num_terms as nat, s.skip as nat),
        evaluation_is_exact(s, delta),
    ensures
        exact_of(s.departure(delta)) == sum(
            series_terms(orbit, s.skip as nat, exact_of(delta)),
            s.num_terms as nat,
        ),
{
    let n = s.skip as nat;
    let x = exact_of(delta);
    let f = series_terms(orbit, n, x);
    let a = s.terms();
    assert forall|i: nat| i < a.len() implies #[trigger] f(i) == exact_of(a[i as int]).times(
        power(x, i + 1),
    ) by {
        assert(s.rows@[n as int]@[i as int] == coefficient(orbit, i, n));
        assert(exact_of(a[i as int]) == exact_of_scaled(s.rows@[n as int]@[i as int]));
    }
    lemma_horner_value(a, delta, f, 0);
    let h = horner(a, delta, 0);
    lemma_complex_product_value(delta, h);
    assert(power(x, 1) == power(x, 0).times(x));
    exact_units(x);
    exact_times_commutes(x, exact_of(h));
    assert(sum(f, 0) == exact_zero());
}

/// Where no operation rounds and no term is cut off, the series gives the departure from the
/// orbit at the iteration that it skips to.
pub proof fn series_gives_the_departure(
    s: SeriesApproximation,
    orbit: ReferenceOrbit,
    delta: Complex,
)
    requires
        s.wf(),
        0 < s.skip < s.rows@.len(),
        is_row(s.rows@[s.skip as int]@, orbit, s.num_terms as nat, s.skip as nat),
        forall|m: nat| m < s.skip ==> #[trigger] series_step_is_exact(orbit, delta, m),
        forall|t: nat|
            t >= s.num_terms ==> (#[trigger] coefficient(orbit, t, s.skip as nat)).is_zero(),
        evaluation_is_exact(s, delta),
    ensures
        same_value(s.departure(delta), pixel_at(delta).eps_at(orbit, s.skip as nat)),
{
    let n = s.skip as nat;
    let k = s.num_terms as nat;
    departure_is_the_sum_of_the_terms(orbit, delta, n);
    lemma_evaluation(s, orbit, delta);
    lemma_all_terms(orbit, delta, n, k);
    let e = pixel_at(delta).eps_at(orbit, n);
    lemma_same_value(s.departure(delta).re, e.re);
    lemma_same_value(s.departure(delta).im, e.im);
}

}
