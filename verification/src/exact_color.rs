//! What the colours mean: where a pixel stands on the palette, and which pixels are black.
use vstd::prelude::*;
use vstd::arithmetic::div_mod::{
    lemma_fundamental_div_mod,
    lemma_fundamental_div_mod_converse,
    lemma_mod_bound,
};
use vstd::arithmetic::power2::{lemma_pow2_adds, lemma_pow2_pos, pow2};
use crate::color::{
    blend_lies_between,
    blended,
    build_palette,
    channel_shift,
    channel_value,
    color_field,
    colours,
    cosine_colours,
    lemma_byte_difference,
    lemma_whole,
    palette_phases,
    phase,
    sample_palette,
    sampled,
    smooth_nu,
    turned,
    CHANNEL_MAX,
    TAU,
};
use crate::config::Config;
use crate::convert::of_nat;
use crate::double::{num, signed, Double, HALF, ZERO};
use crate::exact::{difference_is_exact, product_is_exact, sum_is_exact};
use crate::exact_series::{
    lemma_product_value,
    lemma_real_pow2,
    lemma_sum_value,
    real_of,
    real_pow2,
};
use crate::exact_view::{
    lemma_order_of_values,
    lemma_power_pattern,
    lemma_quotient_value,
    lemma_small_powers,
    lemma_whole_value,
    quotient_is_exact,
};
use crate::field::IterField;
use crate::render::{render, Image, RenderError};
use crate::rounding::{
    exp_of,
    lemma_parts,
    lemma_round_representable,
    round_ratio,
    sig_of,
    units_of,
    INF_MAG,
    P52,
    P53,
    UNIT_EXP,
};
use crate::sums::lemma_associates;

verus! {

/// What is left of a multiple of `2^e` is a multiple of it, where the divisor is one.
proof fn lemma_rest_of_multiple(q: nat, e: nat, d: nat) -> (k: nat)
    requires
        q < P53,
        d > 0,
    ensures
        e <= UNIT_EXP ==> (q * pow2(e)) % (d * pow2(UNIT_EXP as nat)) == k * pow2(e) && k <= q,
        e > UNIT_EXP ==> (q * pow2(e)) % (d * pow2(UNIT_EXP as nat)) == k * pow2(UNIT_EXP as nat)
            && k < d,
{
    let u = pow2(UNIT_EXP as nat) as int;
    let x = (q * pow2(e)) as int;
    let m = (d * pow2(UNIT_EXP as nat)) as int;
    lemma_pow2_pos(e);
    lemma_pow2_pos(UNIT_EXP as nat);
    assert(m > 0) by (nonlinear_arith)
        requires
            m == d * u,
            d > 0,
            u > 0,
    ;
    assert(x >= 0) by (nonlinear_arith)
        requires
            x == q * pow2(e),
    ;
    lemma_fundamental_div_mod(x, m);
    lemma_mod_bound(x, m);
    let t = x / m;
    let r = x % m;
    assert(t >= 0) by (nonlinear_arith)
        requires
            x == m * t + r,
            0 <= r < m,
            x >= 0,
    ;
    if e <= UNIT_EXP {
        let s = pow2((UNIT_EXP - e) as nat) as int;
        let p = pow2(e) as int;
        lemma_pow2_adds((UNIT_EXP - e) as nat, e);
        let k = q - (d * s) * t;
        assert(r == k * p) by (nonlinear_arith)
            requires
                x == m * t + r,
                x == q * p,
                m == d * u,
                u == s * p,
                k == q - (d * s) * t,
        ;
        assert(k >= 0) by (nonlinear_arith)
            requires
                r == k * p,
                r >= 0,
                p > 0,
        ;
        lemma_pow2_pos((UNIT_EXP - e) as nat);
        assert(k <= q) by (nonlinear_arith)
            requires
                k == q - (d * s) * t,
                d >= 0,
                s >= 0,
                t >= 0,
        ;
        k as nat
    } else {
        let s = pow2((e - UNIT_EXP) as nat) as int;
        lemma_pow2_adds((e - UNIT_EXP) as nat, UNIT_EXP as nat);
        let k = q * s - d * t;
        assert(r == k * u) by (nonlinear_arith)
            requires
                x == m * t + r,
                x == q * (s * u),
                m == d * u,
                k == q * s - d * t,
        ;
        assert(0 <= k < d) by (nonlinear_arith)
            requires
                r == k * u,
                0 <= r < m,
                m == d * u,
                u > 0,
        ;
        k as nat
    }
}

/// What is left of a number after division by a whole number of units is a number.
proof fn lemma_rest_is_a_number(m: nat, d: nat)
    requires
        m < INF_MAG,
        0 < d < P53,
    ensures
        ({
            let rest = units_of(m) % (d * pow2(UNIT_EXP as nat));
            &&& round_ratio(rest, 1) < INF_MAG
            &&& units_of(round_ratio(rest, 1)) == rest
        }),
{
    lemma_parts(m);
    let k = lemma_rest_of_multiple(sig_of(m), exp_of(m), d);
    if exp_of(m) <= UNIT_EXP {
        lemma_round_representable(k, exp_of(m));
    } else {
        lemma_round_representable(k, UNIT_EXP as nat);
    }
}

/// A position brought into one turn of a palette is the position less a whole number of turns.
pub proof fn turned_is_within_one_turn(pos: Double, len: nat)
    requires
        pos.is_finite(),
        0 < len < P53,
        pos.negative() ==> sum_is_exact(pos.remainder(of_nat(len)), of_nat(len)),
    ensures
        turned(pos, len).is_finite(),
        turned(pos, len).negative() ==> turned(pos, len).is_zero(),
        turned(pos, len).value() == pos.value() % ((len * pow2(UNIT_EXP as nat)) as int),
{
    let u = pow2(UNIT_EXP as nat);
    let l = (len * u) as int;
    lemma_pow2_pos(UNIT_EXP as nat);
    lemma_whole(len);
    lemma_rest_is_a_number(pos.mag(), len);
    assert(l > 0) by (nonlinear_arith)
        requires
            l == len * u,
            len > 0,
            u > 0,
    ;
    let n = pos.units() as int;
    let rest = n % l;
    lemma_fundamental_div_mod(n, l);
    lemma_mod_bound(n, l);
    crate::laws::lemma_zero_units();
    let t = round_ratio(rest as nat, 1);
    let p = pos.remainder(of_nat(len));
    assert(p == signed(pos.negative(), t));
    assert(p.mag() == t && p.negative() == pos.negative());
    crate::laws::order_is_by_value(p, num(ZERO));
    if pos.negative() {
        let q = n / l;
        if rest == 0 {
            assert(-n == l * (-q)) by (nonlinear_arith)
                requires
                    n == l * q,
            ;
            lemma_fundamental_div_mod_converse(-n, l, -q, 0);
            if t > 0 {
                crate::rounding::lemma_units_monotone(0, t);
            }
        } else {
            assert(-n == l * (-q - 1) + (l - rest)) by (nonlinear_arith)
                requires
                    n == l * q + rest,
            ;
            lemma_fundamental_div_mod_converse(-n, l, -q - 1, l - rest);
            let s = p.plus(of_nat(len));
            assert(s.value() == l - rest);
            assert(s.is_finite()) by {
                reveal(Double::plus);
                lemma_small_sum_is_finite((l - rest) as nat, len);
            }
        }
    }
}

/// A number of at most `n` is finite when rounded.
proof fn lemma_small_sum_is_finite(x: nat, n: nat)
    requires
        n < P53,
        x <= n * pow2(UNIT_EXP as nat),
    ensures
        round_ratio(x, 1) < INF_MAG,
{
    lemma_round_representable(n, UNIT_EXP as nat);
    crate::laws::rounding_is_monotone(x, n * pow2(UNIT_EXP as nat), 1);
}

/// The whole part and the fraction of a number that is not negative.
proof fn lemma_fraction(p: Double, j: nat, r: nat)
    requires
        p.is_finite(),
        p.negative() ==> p.is_zero(),
        p.value() == j * pow2(UNIT_EXP as nat) + r,
        r < pow2(UNIT_EXP as nat),
        j < P53,
        j <= usize::MAX,
    ensures
        p.saturated(usize::MAX as nat) == j,
        p.minus(p.floored()).is_finite(),
        !p.minus(p.floored()).negative(),
        p.minus(p.floored()).value() == r,
{
    reveal(Double::plus);
    let u = pow2(UNIT_EXP as nat);
    lemma_pow2_pos(UNIT_EXP as nat);
    crate::laws::lemma_zero_units();
    lemma_fundamental_div_mod_converse(p.value(), u as int, j as int, r as int);
    lemma_round_representable(j, UNIT_EXP as nat);
    let f = p.floored();
    assert(f.units() == j * u);
    if p.negative() {
        assert(j * u == 0 && r == 0) by (nonlinear_arith)
            requires
                j * u + r == 0,
                u > 0,
        ;
        if f.mag() > 0 {
            crate::rounding::lemma_units_monotone(0, f.mag());
        }
    }
    assert(p.value() + f.negated().value() == r);
    lemma_rest_is_a_number(p.mag(), 1);
    assert(p.units() % u == r);
    assert(1 * u == u);
}

/// Whether the place of a pixel on a palette of `len` colours is exact: the iteration less the
/// logarithm, times the density, and brought into one turn.
pub open spec fn position_is_exact(
    count: u32,
    log_ratio: Double,
    density: Double,
    len: nat,
) -> bool {
    let nu = of_nat(count as nat).minus(log_ratio);
    let pos = nu.times(density);
    &&& difference_is_exact(of_nat(count as nat), log_ratio)
    &&& product_is_exact(nu, density)
    &&& pos.is_finite()
    &&& pos.negative() ==> sum_is_exact(pos.remainder(of_nat(len)), of_nat(len))
}

/// Whether `c` lies between `a` and `b`.
pub open spec fn lies_between(a: u8, b: u8, c: u8) -> bool {
    a <= c <= b || b <= c <= a
}

/// Whether `c` is the blend of `a` and `b` at a fraction of the way: it lies between them, is `a`
/// at the fraction zero, and is `a + (b - a)*fraction`, rounded down, where that is exact.
pub open spec fn is_blend(a: u8, b: u8, fraction: Double, c: u8) -> bool {
    let d = of_nat(b as nat).minus(of_nat(a as nat));
    &&& lies_between(a, b, c)
    &&& real_of(fraction) == 0 as real ==> c == a
    &&& product_is_exact(d, fraction) && sum_is_exact(of_nat(a as nat), d.times(fraction)) ==> (
    c as real) <= (a as real) + ((b - a) as real) * real_of(fraction) < ((c + 1) as real)
}

/// Whether a squared magnitude is one beyond the escape radius: above sixteen.
pub open spec fn above_sixteen(mag_sq: Double) -> bool {
    &&& mag_sq.is_finite() ==> real_of(mag_sq) > 16 as real
    &&& mag_sq.is_infinite() ==> !mag_sq.negative()
}

/// Every pixel that was settled, and escaped within the limit, has the colour at its place on the
/// palette: with the iteration less the logarithm, times the density, at `turns` whole turns, the
/// `j`-th colour and a fraction, it has the blend of that colour and the next one.
pub proof fn escaped_pixel_has_the_colour_at_its_place(
    field: IterField,
    i: int,
    max_iter: u32,
    log_ratio: Double,
    density: Double,
    palette: Seq<Seq<u8>>,
    turns: int,
    j: int,
    fraction: Double,
    k: int,
)
    requires
        field.iters@[i] != 0xffff_ffff,
        field.iters@[i] < max_iter,
        above_sixteen(field.mag_sq@[i]),
        0 <= j < palette.len() < P53,
        palette.len() <= usize::MAX,
        0 <= k < 3,
        position_is_exact(field.iters@[i], log_ratio, density, palette.len()),
        fraction.is_finite(),
        0 as real <= real_of(fraction) < 1 as real,
        ((field.iters@[i] as real) - real_of(log_ratio)) * real_of(density) == ((turns
            * palette.len() + j) as real) + real_of(fraction),
    ensures
        field.colour(i, max_iter, log_ratio, density, palette).len() == 3,
        is_blend(
            palette[j][k],
            palette[(j + 1) % palette.len() as int][k],
            fraction,
            field.colour(i, max_iter, log_ratio, density, palette)[k],
        ),
{
    let count = field.iters@[i];
    let nu = of_nat(count as nat).minus(log_ratio);
    let pos = nu.times(density);
    lemma_sixteen(field.mag_sq@[i]);
    lemma_whole_value(count as nat);
    lemma_sum_value(of_nat(count as nat), log_ratio);
    lemma_product_value(nu, density);
    sample_is_the_blend_at_its_place(palette, pos, turns, j, fraction, k);
}

/// The colour at a position of a palette, at `turns` whole turns, the `j`-th colour and a fraction,
/// is the blend of that colour and the next one.
pub proof fn sample_is_the_blend_at_its_place(
    palette: Seq<Seq<u8>>,
    pos: Double,
    turns: int,
    j: int,
    fraction: Double,
    k: int,
)
    requires
        0 <= j < palette.len() < P53,
        palette.len() <= usize::MAX,
        0 <= k < 3,
        pos.is_finite(),
        pos.negative() ==> sum_is_exact(pos.remainder(of_nat(palette.len())), of_nat(palette.len())),
        fraction.is_finite(),
        0 as real <= real_of(fraction) < 1 as real,
        real_of(pos) == ((turns * palette.len() + j) as real) + real_of(fraction),
    ensures
        sampled(palette, pos).len() == 3,
        is_blend(
            palette[j][k],
            palette[(j + 1) % palette.len() as int][k],
            fraction,
            sampled(palette, pos)[k],
        ),
{
    let len = palette.len();
    let u = pow2(UNIT_EXP as nat);
    lemma_pow2_pos(UNIT_EXP as nat);
    let whole = turns * len + j;
    lemma_in_units(pos, whole, fraction);
    let r = fraction.value();
    lemma_fraction_in_units(fraction);
    turned_is_within_one_turn(pos, len);
    let p = turned(pos, len);
    // The position is a whole number of turns and the place in one turn.
    let l = (len * u) as int;
    let place = j * u + r;
    assert(pos.value() == turns * l + place) by (nonlinear_arith)
        requires
            pos.value() == (turns * len + j) * u + r,
            l == len * u,
            place == j * u + r,
    ;
    assert(0 <= place < l) by (nonlinear_arith)
        requires
            place == j * u + r,
            0 <= r < u,
            0 <= j < len,
            l == len * u,
    ;
    assert(turns * l == l * turns) by (nonlinear_arith);
    lemma_fundamental_div_mod_converse(pos.value(), l, turns, place);
    lemma_fraction(p, j as nat, r as nat);
    vstd::arithmetic::div_mod::lemma_small_mod(j as nat, len);
    let f = p.minus(p.floored());
    lemma_same_number(f, fraction);
    let (a, b) = (palette[j][k], palette[(j + 1) % len as int][k]);
    lemma_at_most_one(f);
    blend_lies_between(a, b, f);
    lemma_blend_value(a, b, f, fraction);
}

/// What is above sixteen is above the squared escape radius.
pub proof fn lemma_sixteen(mag_sq: Double)
    ensures
        above_sixteen(mag_sq) <==> !mag_sq.is_le(num(crate::orbit::BAILOUT)),
{
    lemma_power_pattern(crate::orbit::BAILOUT, 4);
    lemma_small_powers();
    if mag_sq.is_finite() {
        lemma_order_of_values(mag_sq, num(crate::orbit::BAILOUT));
    }
}

/// A value as a whole number and a fraction, in units.
proof fn lemma_in_units(v: Double, whole: int, fraction: Double)
    ensures
        real_of(v) == (whole as real) + real_of(fraction) ==> v.value() == whole * pow2(
            UNIT_EXP as nat,
        ) + fraction.value(),
{
    let u = pow2(UNIT_EXP as nat) as real;
    let w = real_pow2(-(UNIT_EXP as int));
    lemma_real_pow2(UNIT_EXP as nat);
    crate::exact_series::lemma_int_product(whole, pow2(UNIT_EXP as nat) as int);
    let (x, n, f) = (v.value() as real, whole as real, fraction.value() as real);
    if x * w == n + f * w {
        crate::sums::lemma_commutes(w, u);
        lemma_associates(x, w, u);
        lemma_associates(f, w, u);
        crate::scaled_value::lemma_factor(n, f * w, u);
        let one = w * u;
        assert(x * one == x && f * one == f) by (nonlinear_arith)
            requires
                one == 1 as real,
        ;
        assert(x == n * u + f);
    }
}

/// A fraction from zero to below one, in units.
proof fn lemma_fraction_in_units(f: Double)
    requires
        f.is_finite(),
        0 as real <= real_of(f) < 1 as real,
    ensures
        0 <= f.value() < pow2(UNIT_EXP as nat),
        real_of(f) == 0 as real <==> f.is_zero(),
{
    lemma_power_pattern(crate::double::ONE, 0);
    lemma_small_powers();
    crate::scaled_value::lemma_nothing(num(ZERO), 0);
    crate::laws::lemma_zero_units();
    crate::laws::lemma_units_of_one();
    lemma_order_of_values(f, num(crate::double::ONE));
    lemma_order_of_values(num(ZERO), f);
    lemma_order_of_values(f, num(ZERO));
    crate::laws::order_is_by_value(f, num(crate::double::ONE));
    crate::laws::order_is_by_value(num(ZERO), f);
}

/// Numbers of one value are one number, but for the sign of zero.
pub proof fn lemma_same_number(a: Double, b: Double)
    requires
        a.is_finite(),
        b.is_finite(),
        a.value() == b.value(),
    ensures
        a.mag() == b.mag(),
        a.mag() > 0 ==> a == b,
        crate::laws::alike(a, b),
        real_of(a) == real_of(b),
{
    crate::laws::order_is_by_value(a, b);
}

/// A fraction is not larger than one.
proof fn lemma_at_most_one(f: Double)
    requires
        f.is_finite(),
        f.value() < pow2(UNIT_EXP as nat),
    ensures
        f.is_le(num(crate::double::ONE)),
{
    crate::laws::lemma_units_of_one();
    crate::laws::order_is_by_value(f, num(crate::double::ONE));
}

/// The whole part of a number from zero to 255, and what it stands for.
proof fn lemma_whole_part(r: Double)
    requires
        r.is_finite(),
        0 <= r.value() <= 255 * pow2(UNIT_EXP as nat),
    ensures
        r.saturated(255) <= 255,
        (r.saturated(255) as real) <= real_of(r) < ((r.saturated(255) + 1) as real),
{
    let u = pow2(UNIT_EXP as nat) as int;
    lemma_pow2_pos(UNIT_EXP as nat);
    lemma_fundamental_div_mod(r.value(), u);
    lemma_mod_bound(r.value(), u);
    let v = r.value();
    let c = v / u;
    assert(0 <= c <= 255) by (nonlinear_arith)
        requires
            v == u * c + v % u,
            0 <= v % u < u,
            0 <= v <= 255 * u,
    ;
    if r.negative() {
        assert(c == 0) by (nonlinear_arith)
            requires
                v == u * c + v % u,
                0 <= v % u < u,
                v == 0,
        ;
    }
    assert(c * u <= v < (c + 1) * u) by (nonlinear_arith)
        requires
            v == u * c + v % u,
            0 <= v % u < u,
    ;
    lemma_real_pow2(UNIT_EXP as nat);
    crate::exact_view::lemma_unit_is_positive(UNIT_EXP as nat);
    crate::exact_series::lemma_int_product(c, u);
    crate::exact_series::lemma_int_product(c + 1, u);
    let w = real_pow2(-(UNIT_EXP as int));
    let (x, lo, hi, ur) = (v as real, (c * u) as real, ((c + 1) * u) as real, u as real);
    assert(lo * w <= x * w && x * w < hi * w) by (nonlinear_arith)
        requires
            lo <= x,
            x < hi,
            w > 0 as real,
    ;
    let (a, b) = (c as real, (c + 1) as real);
    lemma_associates(a, ur, w);
    lemma_associates(b, ur, w);
    let one = ur * w;
    assert(a * one == a && b * one == b) by (nonlinear_arith)
        requires
            one == 1 as real,
    ;
}

/// A sum with a zero of either sign has the value of the other term.
proof fn lemma_plus_zero(x: Double, z: Double)
    requires
        x.is_finite(),
        !x.negative(),
        z.is_zero(),
    ensures
        x.plus(z).is_finite(),
        x.plus(z).value() == x.value(),
{
    reveal(Double::plus);
    crate::laws::lemma_zero_units();
    crate::rounding::lemma_round_exact(x.mag());
}

/// The value of a blend.
proof fn lemma_blend_value(a: u8, b: u8, f: Double, g: Double)
    requires
        f.is_finite(),
        g.is_finite(),
        !f.negative(),
        f.value() == g.value(),
        f.is_le(num(crate::double::ONE)),
    ensures
        f.is_zero() ==> blended(a, b, f) == a,
        ({
            let d = of_nat(b as nat).minus(of_nat(a as nat));
            let c = blended(a, b, f);
            product_is_exact(d, g) && sum_is_exact(of_nat(a as nat), d.times(g)) ==> (c as real)
                <= (a as real) + ((b - a) as real) * real_of(g) < ((c + 1) as real)
        }),
{
    let u = pow2(UNIT_EXP as nat) as int;
    lemma_pow2_pos(UNIT_EXP as nat);
    let x = of_nat(a as nat);
    let d = of_nat(b as nat).minus(x);
    let r = x.plus(d.times(f));
    let (ar, br, t, e) = (a as real, b as real, real_of(g), (b - a) as real);
    lemma_whole(a as nat);
    lemma_whole_value(a as nat);
    lemma_whole_value(b as nat);
    lemma_byte_difference(a, b);
    lemma_same_number(f, g);
    crate::laws::lemma_zero_units();
    if f.is_zero() {
        crate::laws::zero_takes_all(d);
        lemma_plus_zero(x, d.times(f));
        vstd::arithmetic::div_mod::lemma_div_by_multiple(a as int, u);
        assert(r.value() == a * u);
        assert(r.saturated(255) == a) by {
            if r.negative() {
                assert(a == 0) by (nonlinear_arith)
                    requires
                        a * u <= 0,
                        u > 0,
                        a >= 0,
                ;
            }
        }
        crate::scaled_value::lemma_nothing(g, 0);
        assert(e * t == 0 as real) by (nonlinear_arith)
            requires
                t == 0 as real,
        ;
    } else if product_is_exact(d, g) && sum_is_exact(x, d.times(g)) {
        assert((b - a) * u == b * u - a * u) by (nonlinear_arith);
        lemma_whole(b as nat);
        lemma_sum_value(of_nat(b as nat), x);
        lemma_product_value(d, g);
        lemma_sum_value(x, d.times(g));
        crate::scaled_value::lemma_nothing(num(ZERO), 0);
        lemma_power_pattern(crate::double::ONE, 0);
        lemma_small_powers();
        lemma_order_of_values(f, num(crate::double::ONE));
        lemma_order_of_values(num(ZERO), f);
        crate::laws::order_is_by_value(num(ZERO), f);
        let s = ar + e * t;
        assert(0 as real <= s <= 255 as real) by (nonlinear_arith)
            requires
                s == ar + e * t,
                e == br - ar,
                0 as real <= t <= 1 as real,
                0 as real <= ar <= 255 as real,
                0 as real <= br <= 255 as real,
        ;
        assert(real_of(r) == s);
        lemma_from_zero_to_255(r);
        assert(r.is_finite()) by {
            reveal(Double::plus);
            crate::laws::shrinking_factor(d, f);
            lemma_small_sum_is_finite(crate::double::abs_int(r.value()), 255);
        }
        lemma_whole_part(r);
    }
}

/// The value of a number that stands for one from zero to 255, in units.
proof fn lemma_from_zero_to_255(r: Double)
    requires
        0 as real <= real_of(r) <= 255 as real,
    ensures
        0 <= r.value() <= 255 * pow2(UNIT_EXP as nat),
{
    let u = pow2(UNIT_EXP as nat) as real;
    let w = real_pow2(-(UNIT_EXP as int));
    lemma_real_pow2(UNIT_EXP as nat);
    lemma_pow2_pos(UNIT_EXP as nat);
    let x = r.value() as real;
    let y = x * w;
    assert(0 as real <= y * u && y * u <= (255 as real) * u) by (nonlinear_arith)
        requires
            0 as real <= y <= 255 as real,
            u > 0 as real,
    ;
    crate::sums::lemma_commutes(w, u);
    lemma_associates(x, w, u);
    let one = w * u;
    assert(x * one == x) by (nonlinear_arith)
        requires
            one == 1 as real,
    ;
    crate::exact_series::lemma_int_product(255, pow2(UNIT_EXP as nat) as int);
}

/// Only pixels that were settled and escaped within the limit are coloured: the others, inside
/// the set or left as glitches, are black.
pub proof fn other_pixels_are_black(
    field: IterField,
    i: int,
    max_iter: u32,
    log_ratio: Double,
    density: Double,
    palette: Seq<Seq<u8>>,
)
    requires
        field.iters@[i] == 0xffff_ffff || field.iters@[i] >= max_iter || !above_sixteen(
            field.mag_sq@[i],
        ),
    ensures
        field.colour(i, max_iter, log_ratio, density, palette) == seq![0u8, 0u8, 0u8],
{
    lemma_sixteen(field.mag_sq@[i]);
}

/// The bytes of a coloured field are the colours of its pixels, three for each of them in their
/// order.
pub proof fn bytes_are_the_colours_in_order(
    field: IterField,
    max_iter: u32,
    log_ratios: Vec<Double>,
    density: Double,
    palette: Vec<[u8; 3]>,
    r: Vec<u8>,
    i: int,
    k: int,
)
    requires
        call_ensures(color_field, (&field, max_iter, &log_ratios, density, &palette), r),
        field.wf(),
        log_ratios@.len() == field.iters@.len(),
        palette@.len() > 0,
        0 <= i < field.iters@.len(),
        0 <= k < 3,
    ensures
        r@.len() == 3 * field.iters@.len(),
        r@[3 * i + k] == field.colour(
            i,
            max_iter,
            log_ratios@[i],
            density,
            Seq::new(palette@.len(), |j: int| palette@[j]@),
        )[k],
{
    let p = colours(palette@);
    assert(p =~= Seq::new(palette@.len(), |j: int| palette@[j]@));
    assert(r@.subrange(3 * i, 3 * i + 3) == field.colour(i, max_iter, log_ratios@[i], density, p));
    assert(r@.subrange(3 * i, 3 * i + 3)[k] == r@[3 * i + k]);
}

/// The image shows the field: the three bytes of column `x` of row `y` are the colour of that
/// pixel, at the density that the configuration gives, or one, in a palette of 2048 colours.
pub proof fn image_shows_the_field(
    config: Config,
    field: IterField,
    log_ratios: Vec<Double>,
    cosines: Vec<[Double; 3]>,
    image: Image,
    x: int,
    y: int,
    k: int,
    density: Double,
)
    requires
        call_ensures(
            render,
            (&config, &field, &log_ratios, &cosines),
            Ok::<Image, RenderError>(image),
        ),
        config.color_density matches Some(d) ==> density == d,
        config.color_density is None ==> density == num(0x3ff0_0000_0000_0000),
        0 <= x < config.width,
        0 <= y < config.height,
        field.iters@.len() == config.width * config.height,
        0 <= k < 3,
    ensures
        image.width == config.width,
        image.height == config.height,
        image.rgb@.len() == 3 * (config.width * config.height),
        crate::render::PALETTE_SIZE == 2048,
        image.rgb@[3 * (y * config.width + x) + k] == field.colour(
            y * config.width + x,
            config.max_iter,
            log_ratios@[y * config.width + x],
            density,
            cosine_colours(cosines@),
        )[k],
{
    let i = y * config.width + x;
    let (w, h) = (config.width as int, config.height as int);
    assert(0 <= i < w * h) by (nonlinear_arith)
        requires
            i == y * w + x,
            0 <= x < w,
            0 <= y < h,
    ;
    let rgb = image.rgb@;
    assert(rgb.subrange(3 * i, 3 * i + 3) == field.colour(
        i,
        config.max_iter,
        log_ratios@[i],
        density,
        cosine_colours(cosines@),
    ));
    assert(rgb.subrange(3 * i, 3 * i + 3)[k] == rgb[3 * i + k]);
}

/// A pattern stands for its significand times its power of two.
pub proof fn lemma_pattern_value(bits: u64, e: nat, q: nat)
    requires
        bits == e * P52 + q,
        P52 <= q < P53,
        e <= 2045,
    ensures
        num(bits).is_finite(),
        !num(bits).negative(),
        real_of(num(bits)) == (q as real) * real_pow2(e - 1074),
{
    crate::rounding::lemma_parts_unique(bits as nat, e, q);
    crate::exact_series::lemma_int_product(q as int, pow2(e) as int);
    crate::scaled_value::lemma_pow2_as_real(e);
    crate::scaled_value::lemma_real_pow2_adds(e as int, -1074);
    lemma_associates(q as real, real_pow2(e as int), real_pow2(-1074));
}

/// The largest value of a channel stands for 255.
proof fn lemma_channel_max()
    ensures
        num(CHANNEL_MAX).is_finite(),
        num(CHANNEL_MAX) == of_nat(255),
{
    lemma_whole(255);
    let u = pow2(UNIT_EXP as nat);
    crate::rounding::lemma_parts_unique(CHANNEL_MAX as nat, 1029, 0x1f_e000_0000_0000);
    vstd::arithmetic::power2::lemma2_to64_rest();
    lemma_pow2_adds(45, 1029);
    assert(0x1f_e000_0000_0000 * pow2(1029) == 255 * u) by (nonlinear_arith)
        requires
            u == pow2(45) * pow2(1029),
            pow2(45) == 0x2000_0000_0000,
    ;
    lemma_same_number(num(CHANNEL_MAX), of_nat(255));
}

/// Whether the channel value for a cosine is exact before it is rounded down.
pub open spec fn channel_is_exact(cosine: Double) -> bool {
    let half = num(HALF).times(cosine);
    let v = num(HALF).plus(half);
    &&& product_is_exact(num(HALF), cosine)
    &&& sum_is_exact(num(HALF), half)
    &&& v.is_finite()
    &&& product_is_exact(v, of_nat(255))
}

/// A channel of the palette goes with the cosine from 0 at minus one to 255 at one: it is
/// `(1 + cosine) * 255/2`, rounded down.
pub proof fn channel_goes_with_the_cosine(cosine: Double)
    requires
        channel_is_exact(cosine),
    ensures
        ({
            let r = channel_value(cosine);
            let twice = (real_of(cosine) + (1 as real)) * (255 as real);
            &&& -1 as real <= real_of(cosine) <= 1 as real ==> ((r + r) as real) <= twice < ((r + r
                + 2) as real)
            &&& real_of(cosine) < -1 as real ==> r == 0
            &&& real_of(cosine) > 1 as real ==> r == 255
        }),
{
    let h = num(HALF);
    let half = h.times(cosine);
    let v = h.plus(half);
    lemma_channel_max();
    lemma_whole_value(255);
    lemma_product_value(h, cosine);
    lemma_sum_value(h, half);
    lemma_product_value(v, of_nat(255));
    lemma_power_pattern(HALF, -1);
    lemma_power_pattern(crate::double::ONE, 0);
    lemma_small_powers();
    crate::scaled_value::lemma_nothing(num(ZERO), 0);
    lemma_order_of_values(v, num(ZERO));
    lemma_order_of_values(num(crate::double::ONE), v);
    let (t, c) = (real_pow2(-1), real_of(cosine));
    let s = real_of(v);
    // Twice the number is one and the cosine.
    crate::scaled_value::lemma_factor(t, t, c);
    let one = t + t;
    assert(one * c == c) by (nonlinear_arith)
        requires
            one == 1 as real,
    ;
    assert(s + s == (1 as real) + c);
    let m = crate::color::clamped(v);
    let r = m.times(num(CHANNEL_MAX));
    if s < 0 as real {
        crate::laws::zero_takes_all(of_nat(255));
        crate::laws::lemma_zero_units();
        lemma_channel_floor(r, 0);
    } else if s > 1 as real {
        crate::laws::multiplication_commutes(num(crate::double::ONE), of_nat(255));
        crate::laws::one_changes_nothing(of_nat(255));
        lemma_whole(255);
        lemma_channel_floor(r, 255);
    } else {
        let x = s * (255 as real);
        assert(real_of(r) == x);
        assert(0 as real <= x <= 255 as real) by (nonlinear_arith)
            requires
                x == s * (255 as real),
                0 as real <= s <= 1 as real,
        ;
        lemma_from_zero_to_255(r);
        assert(r.is_finite()) by {
            reveal(Double::times);
            lemma_whole(255);
            crate::laws::multiplication_commutes(v, of_nat(255));
            crate::laws::shrinking_factor(of_nat(255), v);
        }
        lemma_whole_part(r);
    }
}

/// The whole part of a whole number of at most 255.
proof fn lemma_channel_floor(r: Double, n: nat)
    requires
        r.value() == n * pow2(UNIT_EXP as nat),
        r.is_finite(),
        n <= 255,
    ensures
        r.saturated(255) == n,
{
    let u = pow2(UNIT_EXP as nat) as int;
    lemma_pow2_pos(UNIT_EXP as nat);
    vstd::arithmetic::div_mod::lemma_div_by_multiple(n as int, u);
    if r.negative() {
        assert(n == 0) by (nonlinear_arith)
            requires
                n * u <= 0,
                u > 0,
                n >= 0,
        ;
    }
}

/// The angle of the palette's `i`-th colour is its share of one turn, shifted by three twentieths
/// of a turn from channel to channel, times a full turn.
pub proof fn phase_is_a_share_of_the_turn(i: nat, n: nat, channel: int, t: Double)
    requires
        i < n < P53,
        0 <= channel < 3,
        quotient_is_exact(of_nat(i), of_nat(n)),
        of_nat(i).over(of_nat(n)).is_finite(),
        sum_is_exact(of_nat(i).over(of_nat(n)), channel_shift(channel)),
        t == of_nat(i).over(of_nat(n)).plus(channel_shift(channel)),
    ensures
        phase(i, n, channel) == num(TAU).times(t),
        (real_of(t) - real_of(channel_shift(channel))) * (n as real) == i as real,
        -1 as real <= (real_of(channel_shift(channel)) * (20 as real) - ((3 * channel) as real)) * (
        0x1_0000_0000_0000 as real) <= 1 as real,
        -1 as real <= real_of(num(TAU)) * (1_000_000_000_000_000 as real) - (
        6_283_185_307_179_586 as real) <= 1 as real,
{
    let q = of_nat(i).over(of_nat(n));
    crate::laws::multiplication_commutes(num(crate::double::ONE), q);
    crate::laws::one_changes_nothing(q);
    lemma_whole_value(i);
    lemma_whole_value(n);
    lemma_quotient_value(of_nat(i), of_nat(n));
    lemma_sum_value(q, channel_shift(channel));
    lemma_shift(channel);
    lemma_turn();
}

/// The shift of a channel is three twentieths for each channel before it, as nearly as a number
/// can be.
proof fn lemma_shift(channel: int)
    requires
        0 <= channel < 3,
    ensures
        -1 as real <= (real_of(channel_shift(channel)) * (20 as real) - ((3 * channel) as real)) * (
        0x1_0000_0000_0000 as real) <= 1 as real,
{
    crate::scaled_value::lemma_nothing(num(crate::color::RED_SHIFT), 0);
    lemma_pattern_value(crate::color::GREEN_SHIFT, 1019, 0x13_3333_3333_3333);
    lemma_pattern_value(crate::color::BLUE_SHIFT, 1020, 0x13_3333_3333_3333);
    lemma_halves();
    assert(real_pow2(-54) == real_pow2(-55) + real_pow2(-55));
}

/// The full turn is `2*pi`, as nearly as a number can be.
proof fn lemma_turn()
    ensures
        -1 as real <= real_of(num(TAU)) * (1_000_000_000_000_000 as real) - (
        6_283_185_307_179_586 as real) <= 1 as real,
{
    lemma_pattern_value(TAU, 1024, 0x19_21fb_5444_2d18);
    lemma_halves();
}

/// Small powers of one half.
proof fn lemma_halves()
    ensures
        real_pow2(-50) * (0x4_0000_0000_0000 as real) == 1 as real,
        real_pow2(-55) * (0x80_0000_0000_0000 as real) == 1 as real,
{
    lemma_real_pow2(50);
    lemma_real_pow2(55);
    vstd::arithmetic::power2::lemma2_to64_rest();
    crate::sums::lemma_commutes(pow2(50) as real, real_pow2(-50));
    crate::sums::lemma_commutes(pow2(55) as real, real_pow2(-55));
}

/// The palette's `i`-th colour comes of the cosines of the `i`-th angles, channel by channel, and
/// the `i`-th angles are those of the share `i/size` of one turn.
pub proof fn palette_follows_its_angles(
    size: usize,
    angles: Vec<[Double; 3]>,
    cosines: Vec<[Double; 3]>,
    palette: Vec<[u8; 3]>,
    i: int,
    k: int,
)
    requires
        call_ensures(palette_phases, (size,), angles),
        call_ensures(build_palette, (size, &cosines), palette),
        cosines@.len() == size,
        0 <= i < size < P53,
        0 <= k < 3,
    ensures
        angles@.len() == size,
        palette@.len() == size,
        palette@[i]@[k] == channel_value(cosines@[i]@[k]),
        ({
            let share = of_nat(i as nat).over(of_nat(size as nat));
            share.is_finite() ==> angles@[i]@[k] == num(TAU).times(share.plus(channel_shift(k)))
        }),
{
    assert(angles@[i]@[k] == phase(i as nat, size as nat, k));
    let share = of_nat(i as nat).over(of_nat(size as nat));
    if share.is_finite() {
        crate::laws::multiplication_commutes(num(crate::double::ONE), share);
        crate::laws::one_changes_nothing(share);
    }
    assert(colours(palette@).len() == cosine_colours(cosines@).len());
    assert(colours(palette@)[i] == cosine_colours(cosines@)[i]);
    assert(colours(palette@)[i][k] == cosine_colours(cosines@)[i][k]);
}

/// The continuous iteration number and the logarithm add up to the iteration.
pub proof fn smooth_number_is_the_iteration_less_the_logarithm(
    iter: u32,
    log_ratio: Double,
    r: Double,
)
    requires
        call_ensures(smooth_nu, (iter, log_ratio), r),
        difference_is_exact(of_nat(iter as nat), log_ratio),
    ensures
        real_of(r) + real_of(log_ratio) == iter as real,
{
    lemma_whole_value(iter as nat);
    lemma_sum_value(of_nat(iter as nat), log_ratio);
}

/// A sample of a palette has the colour at its position.
pub proof fn sample_of_a_palette(
    palette: Vec<[u8; 3]>,
    pos: Double,
    r: [u8; 3],
    turns: int,
    j: int,
    fraction: Double,
    k: int,
)
    requires
        call_ensures(sample_palette, (&palette, pos), r),
        0 <= j < palette@.len() < P53,
        palette@.len() <= usize::MAX,
        0 <= k < 3,
        pos.is_finite(),
        pos.negative() ==> sum_is_exact(
            pos.remainder(of_nat(palette@.len())),
            of_nat(palette@.len()),
        ),
        fraction.is_finite(),
        0 as real <= real_of(fraction) < 1 as real,
        real_of(pos) == ((turns * palette@.len() + j) as real) + real_of(fraction),
    ensures
        is_blend(
            palette@[j]@[k],
            palette@[(j + 1) % palette@.len() as int]@[k],
            fraction,
            r@[k],
        ),
{
    let p = colours(palette@);
    assert(p.len() == palette@.len());
    sample_is_the_blend_at_its_place(p, pos, turns, j, fraction, k);
    vstd::arithmetic::div_mod::lemma_mod_bound(j + 1, p.len() as int);
    assert(p[j] == palette@[j]@);
    assert(r@ == sampled(p, pos));
}

/// There is an image exactly where there is a pixel for each of its places.
pub proof fn image_needs_a_pixel_for_each_place(
    config: Config,
    field: IterField,
    log_ratios: Vec<Double>,
    cosines: Vec<[Double; 3]>,
    r: Result<Image, RenderError>,
)
    requires
        call_ensures(render, (&config, &field, &log_ratios, &cosines), r),
        3 * config.width <= usize::MAX,
    ensures
        r is Ok <==> config.width * config.height <= field.iters@.len(),
        r is Err ==> r == Err::<Image, RenderError>(RenderError::BufferTooSmall),
{
    let (w, h, n) = (config.width as int, config.height as int, field.iters@.len() as int);
    assert(3 * w * h <= 3 * n <==> w * h <= n) by (nonlinear_arith);
}

}
