//! What scaled numbers stand for: `(re + i*im) * 2^exp`, through every operation.
use vstd::prelude::*;
use vstd::arithmetic::power2::{lemma_pow2_adds, lemma_pow2_unfold, pow2};
use crate::bits::lemma_pow2_unfold_zero;
use crate::complex::Complex;
use crate::convert::power_of_two;
use crate::double::{num, signed, Double, TWO, ZERO};
use crate::exact::{lemma_two, plus_is_exact, product_is_exact, square_is_exact};
use crate::exact_series::{
    complex_product_is_exact,
    exact_of,
    exact_of_scaled,
    lemma_complex_product_value,
    lemma_complex_sum_value,
    lemma_int_product,
    lemma_product_value,
    lemma_real_pow2,
    lemma_sum_value,
    lemma_swap,
    lemma_twice_value,
    real_of,
    real_pow2,
    scaled_double_is_exact,
    scaled_product_is_exact,
    scaled_square_is_exact,
    scaled_sum_is_exact,
};
use crate::rounding::{
    exp_of,
    lemma_parts,
    lemma_parts_unique,
    lemma_round_representable,
    round_ratio,
    sig_of,
    units_of,
    INF_MAG,
    P52,
    P53,
    UNIT_EXP,
};
use crate::scaled::{
    half_exponent,
    larger,
    lemma_mantissa_parts,
    lemma_scale_half,
    lemma_times_power,
    mantissa_and_exponent,
    scale_up,
    scaled,
    smaller,
    Mcx,
};
use crate::sums::{lemma_associates, lemma_commutes, lemma_distributes, Exact};

verus! {

/// The next power of two is twice the last.
proof fn lemma_next_power(e: int)
    ensures
        real_pow2(e + 1) == real_pow2(e) + real_pow2(e),
{
    if e < 0 {
        assert(real_pow2(e) == real_pow2(e + 1) / (2 as real));
    }
}

/// Powers of two multiply by adding their exponents.
pub proof fn lemma_real_pow2_adds(e: int, f: int)
    ensures
        real_pow2(e) * real_pow2(f) == real_pow2(e + f),
    decreases (if f < 0 {
            -f
        } else {
            f
        }),
{
    let a = real_pow2(e);
    if f == 0 {
        let one = real_pow2(0);
        assert(a * one == a) by (nonlinear_arith)
            requires
                one == 1 as real,
        ;
    } else if f > 0 {
        lemma_real_pow2_adds(e, f - 1);
        lemma_next_power(f - 1);
        lemma_next_power(e + f - 1);
        lemma_distributes(a, real_pow2(f - 1), real_pow2(f - 1));
    } else {
        lemma_real_pow2_adds(e, f + 1);
        lemma_next_power(f);
        lemma_next_power(e + f);
        lemma_distributes(a, real_pow2(f), real_pow2(f));
    }
}

/// A natural power of two as a real number.
pub proof fn lemma_pow2_as_real(n: nat)
    ensures
        pow2(n) as real == real_pow2(n as int),
    decreases n,
{
    if n == 0 {
        lemma_pow2_unfold_zero();
    } else {
        lemma_pow2_as_real((n - 1) as nat);
        lemma_pow2_unfold(n);
    }
}

/// A significand scaled by a power of two, as a real number.
proof fn lemma_units_as_real(x: nat, q: nat, k: int)
    requires
        k >= -1074,
        x * pow2(UNIT_EXP as nat) == q * pow2((k + 1074) as nat),
    ensures
        x as real == (q as real) * real_pow2(k),
{
    let u = pow2(UNIT_EXP as nat) as real;
    let w = real_pow2(-(UNIT_EXP as int));
    lemma_real_pow2(UNIT_EXP as nat);
    lemma_int_product(x as int, pow2(UNIT_EXP as nat) as int);
    lemma_int_product(q as int, pow2((k + 1074) as nat) as int);
    lemma_pow2_as_real((k + 1074) as nat);
    let (a, b) = (x as real, q as real);
    let p = real_pow2(k + 1074);
    assert(a * u == b * p);
    lemma_real_pow2_adds(k + 1074, -1074);
    assert(p * w == real_pow2(k));
    lemma_associates(a, u, w);
    lemma_associates(b, p, w);
    let one = u * w;
    assert(a * one == a) by (nonlinear_arith)
        requires
            one == 1 as real,
    ;
}

/// Magnitudes that differ by a power of two, with one sign, stand for numbers that do.
proof fn lemma_scaled_values(a: Double, b: Double, d: int)
    requires
        a.negative() == b.negative(),
        a.units() as real == (b.units() as real) * real_pow2(d),
    ensures
        real_of(a) == real_of(b) * real_pow2(d),
{
    let w = real_pow2(-(UNIT_EXP as int));
    let p = real_pow2(d);
    let (x, y) = (a.units() as real, b.units() as real);
    // (y*p)*w is (y*w)*p.
    lemma_associates(y, p, w);
    lemma_commutes(p, w);
    lemma_associates(y, w, p);
    if a.negative() {
        let (nx, ny) = (a.value() as real, b.value() as real);
        assert(nx == -x && ny == -y);
        lemma_negative(x, w);
        lemma_negative(y, w);
        lemma_negative(y * w, p);
    }
}

/// The sign can be taken out of a product.
pub proof fn lemma_negative(a: real, b: real)
    ensures
        (-a) * b == -(a * b),
{
    lemma_commutes(-a, b);
    lemma_distributes(b, -a, a);
    lemma_commutes(a, b);
    let o = (-a) + a;
    assert(b * o == 0 as real) by (nonlinear_arith)
        requires
            o == 0 as real,
    ;
}

/// The mantissa and the exponent of a number stand for it.
pub proof fn mantissa_and_exponent_stand_for_the_number(v: Double)
    requires
        v.is_finite(),
        !v.is_zero(),
    ensures
        real_of(v) == real_of(mantissa_and_exponent(v).0) * real_pow2(
            mantissa_and_exponent(v).1,
        ),
{
    let (m, e) = mantissa_and_exponent(v);
    let q = lemma_mantissa_parts(v);
    lemma_units_as_real(v.units(), q, 1021 + e);
    lemma_half_units(m, q);
    lemma_real_pow2_adds(1021, e);
    lemma_associates(q as real, real_pow2(1021), real_pow2(e));
    lemma_scaled_values(v, m, e);
}

/// The magnitude of a mantissa in `[0.5, 1)`.
proof fn lemma_half_units(m: Double, q: nat)
    requires
        P52 <= q < P53,
        m.mag() == 1021 * P52 + q,
    ensures
        m.units() as real == (q as real) * real_pow2(1021),
{
    lemma_parts_unique(m.mag(), 1021, q);
    lemma_int_product(q as int, pow2(1021) as int);
    lemma_pow2_as_real(1021);
}

/// A mantissa in `[0.5, 1)` scaled down within the normal range is scaled exactly.
proof fn lemma_scaled_down_value(m: Double, q: nat, d: int)
    requires
        P52 <= q < P53,
        m.mag() == 1021 * P52 + q,
        -1021 <= d <= 0,
    ensures
        real_of(scale_up(m, d)) == real_of(m) * real_pow2(d),
{
    let e = (1021 + d) as nat;
    let t = e * (P52 as nat) + q;
    assert(t < INF_MAG) by (nonlinear_arith)
        requires
            t == e * P52 + q,
            e <= 1021,
            q < P53,
            P53 == 2 * P52,
            INF_MAG == 2047 * P52,
            P52 > 0,
    ;
    lemma_parts_unique(t, e, q);
    lemma_pow2_adds(e, 1074);
    assert((q * pow2(e)) * pow2(1074) == q * pow2(e + 1074)) by (nonlinear_arith)
        requires
            pow2(e) * pow2(1074) == pow2(e + 1074),
    ;
    lemma_scale_half(m, q, d, t);
    let r = signed(m.negative(), t);
    assert(r.mag() == t && r.negative() == m.negative());
    lemma_units_as_real(units_of(t), q, e as int);
    lemma_half_units(m, q);
    lemma_real_pow2_adds(1021, d);
    lemma_associates(q as real, real_pow2(1021), real_pow2(d));
    lemma_scaled_values(r, m, d);
}

/// Whether a part keeps its value when the mantissas are balanced: it is not so much smaller than
/// the other one that it leaves the normal range.
pub open spec fn part_is_kept(m: Mcx, part: Double) -> bool {
    part.is_zero() || m.top_exponent() - m.total_exponent(part) <= 1021
}

/// Whether both parts keep their values when the mantissas are balanced.
pub open spec fn is_kept(m: Mcx) -> bool {
    part_is_kept(m, m.re) && part_is_kept(m, m.im)
}

/// Whether `r` stands for the same number as `m` in every part that balancing keeps.
pub open spec fn stands_for(r: Mcx, m: Mcx) -> bool {
    &&& part_is_kept(m, m.re) ==> exact_of_scaled(r).re == exact_of_scaled(m).re
    &&& part_is_kept(m, m.im) ==> exact_of_scaled(r).im == exact_of_scaled(m).im
}

/// Whether the mantissas can be balanced: they are finite, and the exponents do not wrap around.
pub open spec fn can_be_balanced(m: Mcx) -> bool {
    m.is_finite() && m.exponents_fit()
}

/// One part of a number whose mantissas are balanced.
proof fn lemma_balanced_part(m: Mcx, part: Double)
    requires
        part.is_finite(),
        !part.is_zero(),
        i32::MIN <= mantissa_and_exponent(part).1 + m.exp <= i32::MAX,
        0 <= m.top_exponent() - m.total_exponent(part) <= 1021,
    ensures
        ({
            let d = m.total_exponent(part) - m.top_exponent();
            real_of(scale_up(mantissa_and_exponent(part).0, d)) * real_pow2(
                m.top_exponent() as int,
            ) == real_of(part) * real_pow2(m.exp as int)
        }),
{
    let (mant, e) = mantissa_and_exponent(part);
    let q = lemma_mantissa_parts(part);
    let top = m.top_exponent() as int;
    let tot = m.total_exponent(part) as int;
    assert(tot == e + m.exp);
    let d = tot - top;
    lemma_scaled_down_value(mant, q, d);
    mantissa_and_exponent_stand_for_the_number(part);
    let x = real_of(mant);
    lemma_associates(x, real_pow2(d), real_pow2(top));
    lemma_real_pow2_adds(d, top);
    lemma_associates(x, real_pow2(e), real_pow2(m.exp as int));
    lemma_real_pow2_adds(e, m.exp as int);
}

/// Balancing the mantissas keeps the number: the part with the larger exponent always, and the
/// other one unless it is so much smaller that it leaves the normal range.
pub proof fn reduced_keeps_the_value(m: Mcx)
    requires
        can_be_balanced(m),
    ensures
        stands_for(m.reduced(), m),
        part_is_kept(m, m.re) || part_is_kept(m, m.im),
{
    reveal(Mcx::reduced);
    reveal(exact_of_scaled);
    if !m.is_zero() && m.unbalanced() {
        lemma_nothing(num(ZERO), m.top_exponent() as int);
        if m.re.is_zero() {
            lemma_nothing(m.re, m.exp as int);
        } else if part_is_kept(m, m.re) {
            lemma_balanced_part(m, m.re);
        }
        if m.im.is_zero() {
            lemma_nothing(m.im, m.exp as int);
        } else if part_is_kept(m, m.im) {
            lemma_balanced_part(m, m.im);
        }
    }
}

/// A zero stands for zero at every exponent.
pub proof fn lemma_nothing(v: Double, exp: int)
    requires
        v.is_zero(),
    ensures
        real_of(v) == 0 as real,
        real_of(v) * real_pow2(exp) == 0 as real,
{
    crate::laws::lemma_zero_units();
    let (w, p) = (real_pow2(-(UNIT_EXP as int)), real_pow2(exp));
    let o = v.value() as real;
    assert(o * w == o && o * p == o) by (nonlinear_arith)
        requires
            o == 0 as real,
    ;
}

/// A product with a power of two is exact within the range.
proof fn lemma_times_up(a: Double, q: nat, e: nat, k: int)
    requires
        a.is_finite(),
        a.units() == q * pow2(e),
        q < P53,
        -1074 <= k <= 1023,
        0 <= e + k <= 2045,
    ensures
        a.times(power_of_two(k)).is_finite(),
        a.times(power_of_two(k)).negative() == a.negative(),
        a.times(power_of_two(k)).units() == q * pow2((e + k) as nat),
{
    let n = (e + k) as nat;
    let t = round_ratio(q * pow2(n), 1);
    lemma_round_representable(q, n);
    lemma_pow2_adds(n, 1074);
    lemma_pow2_adds(e, (k + 1074) as nat);
    assert((q * pow2(n)) * pow2(1074) == (q * pow2(e)) * pow2((k + 1074) as nat))
        by (nonlinear_arith)
        requires
            pow2(n) * pow2(1074) == pow2(e) * pow2((k + 1074) as nat),
    ;
    lemma_times_power(a, k, t);
    assert(signed(a.negative(), t).mag() == t);
}

/// A number scaled within the normal range is scaled exactly.
pub proof fn scaling_is_exact(v: Double, shift: int)
    requires
        v.is_finite(),
        -2000 <= shift <= 2000,
        v.is_zero() || 0 <= exp_of(v.mag()) + shift <= 2045,
    ensures
        scale_up(v, shift).is_finite(),
        real_of(scale_up(v, shift)) == real_of(v) * real_pow2(shift),
{
    reveal(scale_up);
    if v.is_zero() {
        lemma_nothing(v, shift);
        lemma_nothing(num(ZERO), shift);
    } else {
        lemma_parts(v.mag());
        let (q, e) = (sig_of(v.mag()), exp_of(v.mag()));
        let h = half_exponent(shift);
        lemma_times_up(v, q, e, h);
        lemma_times_up(v.times(power_of_two(h)), q, (e + h) as nat, shift - h);
        let n = (e + shift) as nat;
        lemma_int_product(q as int, pow2(e) as int);
        lemma_int_product(q as int, pow2(n) as int);
        lemma_pow2_as_real(e);
        lemma_pow2_as_real(n);
        lemma_real_pow2_adds(e as int, shift);
        lemma_associates(q as real, real_pow2(e as int), real_pow2(shift));
        lemma_scaled_values(scale_up(v, shift), v, shift);
    }
}

/// A number below two scaled up is scaled exactly, as far as the range goes.
pub proof fn scaling_up_is_exact(v: Double, shift: int)
    requires
        v.magnitude().is_lt(num(TWO)),
        0 <= shift <= 1023,
    ensures
        scale_up(v, shift).is_finite(),
        real_of(scale_up(v, shift)) == real_of(v) * real_pow2(shift),
{
    lemma_parts(v.mag());
    let (q, e) = (sig_of(v.mag()), exp_of(v.mag()));
    assert(e <= 1022) by (nonlinear_arith)
        requires
            e > 0 ==> q >= P52,
            e * P52 + q < 1024 * P52,
            P52 > 0,
    ;
    scaling_is_exact(v, shift);
}

/// A scaled number taken back to plain parts stands for the same number, where both parts lie
/// within the normal range.
pub proof fn plain_number_stands_for_the_scaled_one(m: Mcx, r: Complex)
    requires
        call_ensures(Mcx::to_complex, (m,), r),
        m.is_finite(),
        -2000 <= m.exp <= 2000,
        m.re.is_zero() || 0 <= exp_of(m.re.mag()) + m.exp <= 2045,
        m.im.is_zero() || 0 <= exp_of(m.im.mag()) + m.exp <= 2045,
    ensures
        exact_of(r) == exact_of_scaled(m),
{
    reveal(exact_of_scaled);
    scaling_is_exact(m.re, m.exp as int);
    scaling_is_exact(m.im, m.exp as int);
}

/// A pair of numbers times `2^exp`, as it stands.
pub open spec fn times_pow2(z: Exact, exp: int) -> Exact {
    Exact { re: z.re * real_pow2(exp), im: z.im * real_pow2(exp) }
}

/// Powers of two can be taken out of a product.
proof fn lemma_times_scales(x: Exact, y: Exact, e: int, f: int)
    ensures
        times_pow2(x, e).times(times_pow2(y, f)) == times_pow2(x.times(y), e + f),
{
    reveal(Exact::times);
    let (s, t) = (real_pow2(e), real_pow2(f));
    lemma_real_pow2_adds(e, f);
    let r = s * t;
    lemma_swap(x.re, s, y.re, t);
    lemma_swap(x.im, s, y.im, t);
    lemma_swap(x.re, s, y.im, t);
    lemma_swap(x.im, s, y.re, t);
    let (a, b, c, d) = (x.re * y.re, x.im * y.im, x.re * y.im, x.im * y.re);
    lemma_factor(a - b, b, r);
    lemma_factor(c, d, r);
}

/// A common factor can be taken out of a sum.
pub proof fn lemma_factor(a: real, b: real, r: real)
    ensures
        (a + b) * r == a * r + b * r,
{
    lemma_commutes(a + b, r);
    lemma_commutes(a, r);
    lemma_commutes(b, r);
    lemma_distributes(r, a, b);
}

/// The product before its mantissas are balanced.
pub open spec fn mantissa_product(a: Mcx, b: Mcx) -> Mcx {
    let m = a.mantissa().product(b.mantissa());
    Mcx { re: m.re, im: m.im, exp: (a.exp + b.exp) as i32 }
}

/// A product stands for the product of the mantissas, as it is rounded, times the power of two
/// with the sum of the exponents; where no operation on the mantissas rounds, for the product of
/// the numbers.
pub proof fn product_stands_for_the_product(a: Mcx, b: Mcx)
    requires
        i32::MIN <= a.exp + b.exp <= i32::MAX,
        can_be_balanced(mantissa_product(a, b)),
    ensures
        stands_for(a.product(b), mantissa_product(a, b)),
        is_kept(mantissa_product(a, b)) && complex_product_is_exact(a.mantissa(), b.mantissa())
            ==> scaled_product_is_exact(a, b),
{
    reveal(Mcx::product);
    reduced_keeps_the_value(mantissa_product(a, b));
    reveal(exact_of_scaled);
    if complex_product_is_exact(a.mantissa(), b.mantissa()) {
        lemma_complex_product_value(a.mantissa(), b.mantissa());
        lemma_times_scales(
            exact_of(a.mantissa()),
            exact_of(b.mantissa()),
            a.exp as int,
            b.exp as int,
        );
    }
}

/// The square before its mantissas are balanced.
pub open spec fn mantissa_square(a: Mcx) -> Mcx {
    Mcx {
        re: a.re.times(a.re).minus(a.im.times(a.im)),
        im: num(TWO).times(a.re).times(a.im),
        exp: (2 * a.exp) as i32,
    }
}

/// A square stands for the square of the mantissas, as it is rounded, times the power of two with
/// twice the exponent; where no operation on the mantissas rounds, for the square of the number.
pub proof fn square_stands_for_the_square(a: Mcx)
    requires
        i32::MIN <= 2 * a.exp <= i32::MAX,
        can_be_balanced(mantissa_square(a)),
    ensures
        stands_for(a.squared(), mantissa_square(a)),
        is_kept(mantissa_square(a)) && square_is_exact(a.mantissa()) ==> scaled_square_is_exact(a),
{
    reveal(Mcx::squared);
    let m = mantissa_square(a);
    assert(a.exp * 2 == 2 * a.exp);
    reduced_keeps_the_value(m);
    reveal(exact_of_scaled);
    if square_is_exact(a.mantissa()) {
        let z = exact_of(a.mantissa());
        lemma_product_value(a.re, a.re);
        lemma_product_value(a.im, a.im);
        lemma_sum_value(a.re.times(a.re), a.im.times(a.im));
        lemma_twice_value(a.re);
        lemma_product_value(num(TWO).times(a.re), a.im);
        lemma_factor(z.re, z.re, z.im);
        lemma_commutes(z.re, z.im);
        assert(exact_of(m.mantissa()) == z.times(z)) by {
            reveal(Exact::times);
        }
        lemma_times_scales(z, z, a.exp as int, a.exp as int);
    }
}

/// The product with a number before its mantissas are balanced.
pub open spec fn mantissa_multiple(a: Mcx, f: Double) -> Mcx {
    Mcx { re: a.re.times(f), im: a.im.times(f), exp: a.exp }
}

/// A product with a number stands for the mantissas times the number, as they are rounded, times
/// the power of two; where neither product rounds, for the scaled number times the other. Twice a
/// number is its double.
pub proof fn product_with_a_number_stands_for_the_product(a: Mcx, f: Double)
    requires
        can_be_balanced(mantissa_multiple(a, f)),
    ensures
        stands_for(a.product_real(f), mantissa_multiple(a, f)),
        is_kept(mantissa_multiple(a, f)) && product_is_exact(a.re, f) && product_is_exact(a.im, f)
            ==> exact_of_scaled(a.product_real(f)) == (Exact {
            re: exact_of_scaled(a).re * real_of(f),
            im: exact_of_scaled(a).im * real_of(f),
        }),
        is_kept(mantissa_multiple(a, f)) && product_is_exact(a.re, f) && product_is_exact(a.im, f)
            && f == num(TWO) ==> scaled_double_is_exact(a),
{
    reveal(Mcx::product_real);
    reduced_keeps_the_value(mantissa_multiple(a, f));
    if product_is_exact(a.re, f) && product_is_exact(a.im, f) {
        reveal(exact_of_scaled);
        lemma_product_value(a.re, f);
        lemma_product_value(a.im, f);
        let (x, y, r, p) = (real_of(a.re), real_of(a.im), real_of(f), real_pow2(a.exp as int));
        lemma_associates(x, r, p);
        lemma_associates(y, r, p);
        lemma_commutes(r, p);
        lemma_associates(x, p, r);
        lemma_associates(y, p, r);
        if f == num(TWO) {
            lemma_two_value();
            let (u, v) = (x * p, y * p);
            assert(u * r == u + u && v * r == v + v) by (nonlinear_arith)
                requires
                    r == 2 as real,
            ;
        }
    }
}

/// The number two stands for two.
pub proof fn lemma_two_value()
    ensures
        real_of(num(TWO)) == 2 as real,
{
    lemma_two();
    let u = pow2(UNIT_EXP as nat) as real;
    let w = real_pow2(-(UNIT_EXP as int));
    lemma_real_pow2(UNIT_EXP as nat);
    assert(num(TWO).value() as real == u + u);
    lemma_factor(u, u, w);
}

/// Whether both mantissas lie below two.
pub open spec fn below_two(m: Mcx) -> bool {
    m.re.magnitude().is_lt(num(TWO)) && m.im.magnitude().is_lt(num(TWO))
}

/// Mantissas below two moved to a smaller exponent, as far as the range goes, stand for the same
/// number.
pub proof fn moving_down_keeps_the_value(m: Mcx, exp: i32)
    requires
        below_two(m),
        exp <= m.exp <= exp + 1023,
    ensures
        times_pow2(exact_of(m.at_exponent(exp)), exp as int) == exact_of_scaled(m),
{
    reveal(exact_of_scaled);
    if m.exp != exp {
        let shift = m.exp - exp;
        scaling_up_is_exact(m.re, shift);
        scaling_up_is_exact(m.im, shift);
        lemma_real_pow2_adds(shift, exp as int);
        lemma_associates(real_of(m.re), real_pow2(shift), real_pow2(exp as int));
        lemma_associates(real_of(m.im), real_pow2(shift), real_pow2(exp as int));
    }
}

/// The exponent at which a sum is formed: the smaller one, or the larger one where the mantissas
/// scaled up leave the range.
pub open spec fn exponent_of_sum(a: Mcx, b: Mcx) -> i32 {
    let (low, high) = (smaller(a.exp, b.exp), larger(a.exp, b.exp));
    if !a.sum_at(b, low).is_finite() && a.sum_at(b, high).is_finite() {
        high
    } else {
        low
    }
}

/// The sum before its mantissas are balanced.
pub open spec fn mantissa_sum(a: Mcx, b: Mcx) -> Mcx {
    a.sum_at(b, exponent_of_sum(a, b))
}

/// A sum stands for the sum of the mantissas at one exponent, as it is rounded, times the power of
/// two with that exponent; where mantissas below two are added at the smaller exponent and neither
/// addition rounds, for the sum of the numbers.
pub proof fn sum_stands_for_the_sum(a: Mcx, b: Mcx)
    requires
        !a.is_zero(),
        !b.is_zero(),
        can_be_balanced(mantissa_sum(a, b)),
    ensures
        stands_for(a.plus(b), mantissa_sum(a, b)),
        ({
            let exp = smaller(a.exp, b.exp);
            &&& is_kept(mantissa_sum(a, b))
            &&& exponent_of_sum(a, b) == exp && larger(a.exp, b.exp) - exp <= 1023
            &&& below_two(a) && below_two(b)
            &&& plus_is_exact(a.at_exponent(exp), b.at_exponent(exp))
        }) ==> scaled_sum_is_exact(a, b),
{
    reveal(Mcx::plus);
    let exp = exponent_of_sum(a, b);
    let (x, y) = (a.at_exponent(exp), b.at_exponent(exp));
    reduced_keeps_the_value(mantissa_sum(a, b));
    if exp == smaller(a.exp, b.exp) && plus_is_exact(x, y) && larger(a.exp, b.exp) - exp <= 1023
        && below_two(a) && below_two(b) {
        lemma_complex_sum_value(x, y);
        moving_down_keeps_the_value(a, exp);
        moving_down_keeps_the_value(b, exp);
        reveal(exact_of_scaled);
        let p = real_pow2(exp as int);
        lemma_factor(real_of(x.re), real_of(y.re), p);
        lemma_factor(real_of(x.im), real_of(y.im), p);
    }
}

/// A sum with zero stands for the other number.
pub proof fn sum_with_zero_stands_for_the_other(a: Mcx, b: Mcx)
    requires
        a.is_zero() || b.is_zero(),
    ensures
        scaled_sum_is_exact(a, b),
{
    reveal(Mcx::plus);
    reveal(exact_of_scaled);
    if a.is_zero() {
        lemma_nothing(a.re, a.exp as int);
        lemma_nothing(a.im, a.exp as int);
    }
    if b.is_zero() {
        lemma_nothing(b.re, b.exp as int);
        lemma_nothing(b.im, b.exp as int);
    }
}

/// A complex number taken apart stands for itself: a part that is not so much smaller than the
/// other one that it leaves the normal range, and a zero without a sign.
pub proof fn scaled_stands_for_the_number(re: Double, im: Double)
    requires
        re.is_finite(),
        im.is_finite(),
        re.is_zero() ==> re == num(ZERO),
        im.is_zero() ==> im == num(ZERO),
        re.is_zero() || scaled(re, im).exp - mantissa_and_exponent(re).1 <= 1021,
        im.is_zero() || scaled(re, im).exp - mantissa_and_exponent(im).1 <= 1021,
    ensures
        exact_of_scaled(scaled(re, im)) == exact_of(Complex { re, im }),
{
    reveal(scaled);
    reveal(exact_of_scaled);
    lemma_taken_apart(re, scaled(re, im).exp as int);
    lemma_taken_apart(im, scaled(re, im).exp as int);
}

/// One part of a number taken apart.
proof fn lemma_taken_apart(v: Double, exp: int)
    requires
        v.is_finite(),
        v.is_zero() ==> v == num(ZERO),
        v.is_zero() || 0 <= exp - mantissa_and_exponent(v).1 <= 1021,
    ensures
        real_of(
            scale_up(mantissa_and_exponent(v).0, mantissa_and_exponent(v).1 - exp),
        ) * real_pow2(exp) == real_of(v),
{
    let (m, e) = mantissa_and_exponent(v);
    if v.is_zero() {
        reveal(scale_up);
        lemma_nothing(v, exp);
    } else {
        let q = lemma_mantissa_parts(v);
        lemma_scaled_down_value(m, q, e - exp);
        mantissa_and_exponent_stand_for_the_number(v);
        lemma_associates(real_of(m), real_pow2(e - exp), real_pow2(exp));
        lemma_real_pow2_adds(e - exp, exp);
    }
}

/// A product with a plain complex number is the product with that number scaled, and a sum with a
/// plain real number the sum with that number scaled.
pub proof fn plain_operands_are_scaled_first(
    a: Mcx,
    re: Double,
    im: Double,
    z: Mcx,
    by_plain: Mcx,
    by_scaled: Mcx,
    v: Double,
    x: Mcx,
    plus_plain: Mcx,
    plus_scaled: Mcx,
)
    requires
        call_ensures(Mcx::from_complex, (re, im), z),
        call_ensures(Mcx::mul_z, (&a, re, im), by_plain),
        call_ensures(Mcx::mul_mcx, (&a, &z), by_scaled),
        call_ensures(Mcx::from_complex, (v, num(ZERO)), x),
        call_ensures(Mcx::add_real, (&a, v), plus_plain),
        call_ensures(Mcx::add_mcx, (&a, &x), plus_scaled),
    ensures
        by_plain == by_scaled,
        plus_plain == plus_scaled,
{
}

}
