//! Laws of the number arithmetic: rounding is monotone and goes to the nearest number, the order
//! of numbers is the order of their values, and sums and products commute.
use vstd::prelude::*;
use vstd::arithmetic::power2::{lemma_pow2_pos, lemma_pow2_unfold, lemma_pow2_adds, pow2};
use vstd::arithmetic::div_mod::{lemma_fundamental_div_mod, lemma_mod_bound};
use crate::bits::{lemma_pow2_le, lemma_pow2_unfold_zero};
use crate::double::{num, signed, Double, ZERO};
use crate::rounding::{
    binade,
    exp_of,
    lemma_binade_bounds,
    lemma_p52_p53,
    lemma_parts,
    lemma_parts_unique,
    lemma_rne_exact,
    lemma_round_cross,
    lemma_round_exact,
    lemma_units_monotone,
    rne_div,
    round_ratio,
    sig_of,
    units_of,
    INF_MAG,
    P52,
    P53,
    UNIT_EXP,
};

verus! {

/// A larger dividend does not give a smaller rounded quotient.
pub proof fn rne_div_is_monotone(a1: nat, a2: nat, b: nat)
    requires
        b > 0,
        a1 <= a2,
    ensures
        rne_div(a1, b) <= rne_div(a2, b),
{
    lemma_fundamental_div_mod(a1 as int, b as int);
    lemma_fundamental_div_mod(a2 as int, b as int);
    lemma_mod_bound(a1 as int, b as int);
    lemma_mod_bound(a2 as int, b as int);
    let q1 = a1 / b;
    let q2 = a2 / b;
    let r1 = a1 % b;
    let r2 = a2 % b;
    assert(q1 <= q2) by (nonlinear_arith)
        requires
            a1 == b * q1 + r1,
            a2 == b * q2 + r2,
            r1 >= 0,
            r2 < b,
            a1 <= a2,
            b > 0,
    ;
    if q1 == q2 {
        assert(r1 <= r2);
    }
}

/// The quotient that is rounded is at most `2^53`, and at least `2^52` above the first binade.
pub proof fn lemma_quotient_bounds(num: nat, den: nat)
    requires
        den > 0,
    ensures
        rne_div(num, den * pow2(binade(num, den))) <= P53,
        binade(num, den) > 0 ==> rne_div(num, den * pow2(binade(num, den))) >= P52,
{
    let e = binade(num, den);
    lemma_binade_bounds(num, den);
    lemma_p52_p53();
    lemma_pow2_pos(e);
    lemma_pow2_adds(53, e);
    lemma_pow2_adds(52, e);
    let d = den * pow2(e);
    assert(d > 0) by (nonlinear_arith)
        requires
            d == den * pow2(e),
            den > 0,
            pow2(e) > 0,
    ;
    assert(den * pow2(e + 53) == P53 * d) by (nonlinear_arith)
        requires
            d == den * pow2(e),
            pow2(e + 53) == pow2(53) * pow2(e),
            pow2(53) == P53,
    ;
    assert(den * pow2((e + 52) as nat) == P52 * d) by (nonlinear_arith)
        requires
            d == den * pow2(e),
            pow2((e + 52) as nat) == pow2(52) * pow2(e),
            pow2(52) == P52,
    ;
    rne_div_is_monotone(num, P53 as nat * d, d);
    lemma_rne_exact(P53 as nat, d);
    if e > 0 {
        rne_div_is_monotone(P52 as nat * d, num, d);
        lemma_rne_exact(P52 as nat, d);
    }
}

/// Rounding keeps the order: of two quotients with one denominator, the larger is not rounded to
/// the smaller number.
pub proof fn rounding_is_monotone(n1: nat, n2: nat, den: nat)
    requires
        den > 0,
        n1 <= n2,
    ensures
        round_ratio(n1, den) <= round_ratio(n2, den),
{
    let e1 = binade(n1, den);
    let e2 = binade(n2, den);
    lemma_binade_bounds(n1, den);
    lemma_binade_bounds(n2, den);
    lemma_quotient_bounds(n1, den);
    lemma_quotient_bounds(n2, den);
    if e2 < e1 {
        lemma_pow2_le(e2 + 53, (e1 + 52) as nat);
        assert(den * pow2(e2 + 53) <= den * pow2((e1 + 52) as nat)) by (nonlinear_arith)
            requires
                pow2(e2 + 53) <= pow2((e1 + 52) as nat),
        ;
        assert(false);
    }
    lemma_pow2_pos(e1);
    let d = den * pow2(e1);
    assert(d > 0) by (nonlinear_arith)
        requires
            d == den * pow2(e1),
            den > 0,
            pow2(e1) > 0,
    ;
    if e1 == e2 {
        rne_div_is_monotone(n1, n2, d);
    } else {
        assert((e1 + 1) * P52 <= e2 * P52) by (nonlinear_arith)
            requires
                e1 + 1 <= e2,
        ;
        assert((e1 + 1) * P52 == e1 * P52 + P52) by (nonlinear_arith);
    }
}

/// The distance of two naturals.
pub open spec fn distance(a: nat, b: nat) -> nat {
    if a <= b {
        (b - a) as nat
    } else {
        (a - b) as nat
    }
}

/// A rounded quotient is as near to the quotient as any other integer.
pub proof fn rne_div_is_nearest(a: nat, b: nat, k: nat)
    requires
        b > 0,
    ensures
        distance(rne_div(a, b) * b, a) <= distance(k * b, a),
{
    lemma_fundamental_div_mod(a as int, b as int);
    lemma_mod_bound(a as int, b as int);
    let q = a / b;
    let r = a % b;
    assert(a == q * b + r) by (nonlinear_arith)
        requires
            a == b * q + r,
    ;
    assert((q + 1) * b == q * b + b) by (nonlinear_arith);
    if k <= q {
        assert(k * b <= q * b) by (nonlinear_arith)
            requires
                k <= q,
        ;
    } else {
        assert(k * b >= q * b + b) by (nonlinear_arith)
            requires
                k >= q + 1,
        ;
    }
}

/// Rounding goes to the nearest number: where `num / den` units round to a finite magnitude, no
/// finite magnitude lies nearer to `num / den`.
pub proof fn rounding_is_to_nearest(num: nat, den: nat, m: nat)
    requires
        den > 0,
        m < INF_MAG,
        round_ratio(num, den) < INF_MAG,
    ensures
        distance(units_of(round_ratio(num, den)) * den, num) <= distance(units_of(m) * den, num),
{
    let e = binade(num, den);
    let p = pow2(e);
    let d = den * p;
    lemma_pow2_pos(e);
    assert(d > 0) by (nonlinear_arith)
        requires
            d == den * p,
            den > 0,
            p > 0,
    ;
    let q = rne_div(num, d);
    let r = round_ratio(num, den);
    lemma_binade_bounds(num, den);
    lemma_quotient_bounds(num, den);
    // what the rounded pattern stands for
    assert(units_of(r) == q * p) by {
        if q < P53 {
            lemma_parts_unique(r, e, q);
        } else {
            assert(r == (e + 1) * P52 + P52) by (nonlinear_arith)
                requires
                    r == e * P52 + 2 * P52,
            ;
            lemma_parts_unique(r, e + 1, P52 as nat);
            lemma_pow2_unfold(e + 1);
            assert(P52 * pow2(e + 1) == q * p) by (nonlinear_arith)
                requires
                    q == P53,
                    pow2(e + 1) == 2 * p,
            ;
        }
    }
    assert(units_of(r) * den == q * d) by (nonlinear_arith)
        requires
            units_of(r) == q * p,
            d == den * p,
    ;
    lemma_parts(m);
    let f = exp_of(m);
    let g = sig_of(m);
    if f >= e {
        // a multiple of the same step
        lemma_pow2_adds((f - e) as nat, e);
        let k = g * pow2((f - e) as nat);
        assert(units_of(m) * den == k * d) by (nonlinear_arith)
            requires
                units_of(m) == g * (pow2((f - e) as nat) * p),
                k == g * pow2((f - e) as nat),
                d == den * p,
        ;
        rne_div_is_nearest(num, d, k);
    } else {
        // a smaller binade: the lower end of this one lies between
        lemma_p52_p53();
        lemma_pow2_adds(52, e);
        lemma_pow2_unfold(f + 1);
        lemma_pow2_le(f + 1, e);
        lemma_pow2_pos(f);
        let low = P52 as nat;
        assert(units_of(m) <= low * p) by (nonlinear_arith)
            requires
                units_of(m) == g * pow2(f),
                g < P53,
                low == P52,
                2 * pow2(f) <= p,
        ;
        assert(units_of(m) * den <= low * d) by (nonlinear_arith)
            requires
                units_of(m) <= low * p,
                d == den * p,
        ;
        assert(low * d <= num) by (nonlinear_arith)
            requires
                num >= den * pow2((e + 52) as nat),
                pow2((e + 52) as nat) == pow2(52) * p,
                pow2(52) == low,
                d == den * p,
        ;
        rne_div_is_nearest(num, d, low);
    }
}

/// The order of finite numbers is the order of their values.
pub proof fn order_is_by_value(a: Double, b: Double)
    requires
        a.is_finite(),
        b.is_finite(),
    ensures
        a.is_lt(b) <==> a.value() < b.value(),
        a.is_le(b) <==> a.value() <= b.value(),
        a.is_eq(b) <==> a.value() == b.value(),
{
    if a.mag() < b.mag() {
        lemma_units_monotone(a.mag(), b.mag());
    }
    if b.mag() < a.mag() {
        lemma_units_monotone(b.mag(), a.mag());
    }
    lemma_zero_units();
    if a.mag() > 0 {
        lemma_units_monotone(0, a.mag());
    }
    if b.mag() > 0 {
        lemma_units_monotone(0, b.mag());
    }
}

/// The zero pattern stands for zero.
pub proof fn lemma_zero_units()
    ensures
        units_of(0) == 0,
{
    lemma_parts(0);
    lemma_pow2_unfold_zero();
}

/// A sum does not depend on the order of its terms.
pub proof fn addition_commutes(a: Double, b: Double)
    ensures
        a.plus(b) == b.plus(a),
{
    reveal(Double::plus);
}

/// A product does not depend on the order of its factors.
pub proof fn multiplication_commutes(a: Double, b: Double)
    ensures
        a.times(b) == b.times(a),
{
    reveal(Double::times);
    assert(a.units() * b.units() == b.units() * a.units()) by (nonlinear_arith);
}

/// The magnitude of one in units.
pub proof fn lemma_units_of_one()
    ensures
        units_of(0x3ff0_0000_0000_0000) == pow2(UNIT_EXP as nat),
{
    lemma_parts_unique(0x3ff0_0000_0000_0000, 1022, P52 as nat);
    lemma_p52_p53();
    lemma_pow2_adds(52, 1022);
}

/// A finite number times a factor of at most one in magnitude is not larger in magnitude.
pub proof fn shrinking_factor(a: Double, t: Double)
    requires
        a.is_finite(),
        t.mag() <= 0x3ff0_0000_0000_0000,
    ensures
        !a.times(t).is_nan(),
        a.times(t).mag() <= a.mag(),
{
    reveal(Double::times);
    let u = pow2(UNIT_EXP as nat);
    lemma_pow2_pos(UNIT_EXP as nat);
    lemma_units_of_one();
    if t.mag() < 0x3ff0_0000_0000_0000 {
        lemma_units_monotone(t.mag(), 0x3ff0_0000_0000_0000);
    }
    assert(a.units() * t.units() <= a.units() * u) by (nonlinear_arith)
        requires
            t.units() <= u,
    ;
    rounding_is_monotone(a.units() * t.units(), a.units() * u, u);
    assert((a.units() * u) * 1 == a.units() * u);
    lemma_round_cross(a.units() * u, u, a.units(), 1);
    lemma_round_exact(a.mag());
}

/// A square is not negative.
pub proof fn square_is_not_negative(a: Double)
    ensures
        !a.times(a).negative(),
{
    reveal(Double::times);
}

/// A sum of numbers that are not negative is not negative.
pub proof fn sum_is_not_negative(a: Double, b: Double)
    requires
        !a.negative(),
        !b.negative(),
    ensures
        !a.plus(b).negative(),
{
    reveal(Double::plus);
}

/// Zero added to a finite number leaves it as it is, but for a negative zero.
pub proof fn zero_adds_nothing(a: Double)
    requires
        a.is_finite(),
    ensures
        a.plus(num(ZERO)) == if a.is_zero() {
            num(ZERO)
        } else {
            a
        },
{
    reveal(Double::plus);
    lemma_zero_units();
    if a.mag() > 0 {
        lemma_units_monotone(0, a.mag());
    }
    lemma_round_exact(a.mag());
}

/// A finite number times zero is zero.
pub proof fn zero_takes_all(a: Double)
    requires
        a.is_finite(),
    ensures
        a.times(num(ZERO)) == signed(a.negative(), 0),
        num(ZERO).times(a) == signed(a.negative(), 0),
{
    reveal(Double::times);
    lemma_zero_units();
    lemma_pow2_pos(UNIT_EXP as nat);
    let u = pow2(UNIT_EXP as nat);
    let n = a.units();
    assert(n * 0 == 0 && 0 * n == 0 && 0 * u == 0 * 1) by (nonlinear_arith);
    lemma_round_cross(0, u, 0, 1);
    lemma_round_exact(0);
}

/// Whether two numbers are the same up to the sign of zero and the pattern of what is not a
/// number.
pub open spec fn alike(a: Double, b: Double) -> bool {
    a == b || (a.is_zero() && b.is_zero()) || (a.is_nan() && b.is_nan())
}

/// Sums of numbers that are alike are alike.
pub proof fn sums_are_alike(a: Double, b: Double, c: Double, d: Double)
    requires
        alike(a, c),
        alike(b, d),
    ensures
        alike(a.plus(b), c.plus(d)),
{
    reveal(Double::plus);
    lemma_zero_units();
}

/// Differences of numbers that are alike are alike.
pub proof fn differences_are_alike(a: Double, b: Double, c: Double, d: Double)
    requires
        alike(a, c),
        alike(b, d),
    ensures
        alike(a.minus(b), c.minus(d)),
{
    sums_are_alike(a, b.negated(), c, d.negated());
}

/// Products of numbers that are alike are alike.
pub proof fn products_are_alike(a: Double, b: Double, c: Double, d: Double)
    requires
        alike(a, c),
        alike(b, d),
    ensures
        alike(a.times(b), c.times(d)),
{
    reveal(Double::times);
    lemma_zero_units();
    lemma_pow2_pos(UNIT_EXP as nat);
    let u = pow2(UNIT_EXP as nat);
    let (m, n) = (a.units(), b.units());
    assert(0 * n == 0 && m * 0 == 0 && 0 * u == 0 * 1) by (nonlinear_arith);
    lemma_round_cross(0, u, 0, 1);
    lemma_round_exact(0);
}

/// Numbers that are alike compare alike.
pub proof fn comparisons_are_alike(a: Double, b: Double, c: Double)
    requires
        alike(a, b),
    ensures
        a.is_lt(c) == b.is_lt(c),
        c.is_lt(a) == c.is_lt(b),
{
}

/// A finite number times one is the number.
pub proof fn one_changes_nothing(a: Double)
    requires
        a.is_finite(),
    ensures
        a.times(num(0x3ff0_0000_0000_0000)) == a,
{
    reveal(Double::times);
    let u = pow2(UNIT_EXP as nat);
    lemma_pow2_pos(UNIT_EXP as nat);
    lemma_units_of_one();
    assert((a.units() * u) * 1 == a.units() * u);
    lemma_round_cross(a.units() * u, u, a.units(), 1);
    lemma_round_exact(a.mag());
}

}
