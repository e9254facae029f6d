//! What the measures of a deep rendering stand for: how far its pixels lie from the centre, when a
//! pixel is a glitch, and how many glitches are tolerated.
use vstd::prelude::*;
use vstd::arithmetic::div_mod::{lemma_fundamental_div_mod, lemma_fundamental_div_mod_converse};
use vstd::arithmetic::power2::{lemma_pow2_adds, lemma_pow2_pos, pow2};
use crate::color::lemma_whole;
use crate::complex::Complex;
use crate::convert::of_nat;
use crate::deep::{delta_max, GLITCH_SHARE};
use crate::double::{num, signed, Double, HALF};
use crate::exact::{product_is_exact, sum_is_exact};
use crate::exact_color::lemma_pattern_value;
use crate::exact_series::{
    lemma_product_value,
    lemma_real_pow2,
    lemma_sum_value,
    real_of,
    real_pow2,
};
use crate::exact_view::{lemma_power_pattern, lemma_small_powers};
use crate::field::IterField;
use crate::laws::{rounding_is_monotone, rounding_is_to_nearest};
use crate::orbit::{glitch_limit, GLITCH_TOL_SQ};
use crate::rebase::{tolerated, DeepRender};
use crate::rounding::{
    exp_of,
    lemma_parts,
    lemma_parts_unique,
    lemma_round_cross,
    lemma_round_representable,
    round_ratio,
    sig_of,
    units_of,
    INF_MAG,
    P52,
    P53,
    UNIT_EXP,
};
use crate::sums::lemma_commutes;
use crate::view;

verus! {

/// The next number lies at least one place of the significand above.
proof fn lemma_next_number(m: nat)
    requires
        m + 1 < INF_MAG,
    ensures
        units_of(m + 1) == units_of(m) + pow2(exp_of(m)),
{
    lemma_parts(m);
    let (e, q) = (exp_of(m), sig_of(m));
    assert((q + 1) * pow2(e) == q * pow2(e) + pow2(e)) by (nonlinear_arith);
    if q + 1 < P53 {
        lemma_parts_unique(m + 1, e, q + 1);
    } else {
        assert(m + 1 == (e + 1) * P52 + P52) by (nonlinear_arith)
            requires
                m == e * P52 + q,
                q + 1 == P53,
                P53 == 2 * P52,
        ;
        lemma_parts_unique(m + 1, e + 1, P52 as nat);
        vstd::arithmetic::power2::lemma_pow2_unfold(e + 1);
        assert(P52 * pow2(e + 1) == (q + 1) * pow2(e)) by (nonlinear_arith)
            requires
                q + 1 == 2 * P52,
                pow2(e + 1) == 2 * pow2(e),
        ;
    }
}

/// What lies but a little above a whole number is rounded to it.
proof fn lemma_rounds_to_whole(k: nat, x: nat)
    requires
        0 < k < P53,
        k * pow2(UNIT_EXP as nat) <= x,
        x <= k * pow2(UNIT_EXP as nat) + 192 * k * pow2(1011),
    ensures
        round_ratio(x, 1) == round_ratio(k * pow2(UNIT_EXP as nat), 1),
{
    let u = pow2(UNIT_EXP as nat);
    let p = pow2(1011);
    let m = round_ratio(k * u, 1);
    let y = round_ratio(x, 1);
    lemma_pow2_pos(1011);
    lemma_whole(k);
    lemma_round_representable(k, UNIT_EXP as nat);
    rounding_is_monotone(k * u, x, 1);
    lemma_pow2_adds(63, 1011);
    vstd::arithmetic::power2::lemma2_to64_rest();
    // The next number above is farther away.
    lemma_parts(m);
    let (e, q) = (exp_of(m), sig_of(m));
    let s = pow2(e);
    lemma_pow2_pos(e);
    lemma_twice_is_finite(k);
    assert(x <= (k + k) * u) by (nonlinear_arith)
        requires
            x <= k * u + 192 * k * p,
            u == 0x8000_0000_0000_0000 * p,
            k >= 0,
            p >= 0,
    ;
    rounding_is_monotone(x, (k + k) * u, 1);
    if y > m {
        rounding_is_to_nearest(x, 1, m);
        lemma_next_number(m);
        if y > m + 1 {
            crate::rounding::lemma_units_monotone(m + 1, y);
        }
        assert(1024 * k * p < s) by (nonlinear_arith)
            requires
                q * s == k * u,
                q < P53,
                P53 == 0x20_0000_0000_0000,
                u == 0x8000_0000_0000_0000 * p,
                k > 0,
                p > 0,
                s > 0,
        ;
        assert(384 * k * p <= 1024 * k * p) by (nonlinear_arith)
            requires
                k >= 0,
                p >= 0,
        ;
        assert(192 * k * p + 192 * k * p == 384 * k * p) by (nonlinear_arith);
    }
}

/// Twice a whole number of at most 53 bits is finite.
proof fn lemma_twice_is_finite(k: nat)
    requires
        k < P53,
    ensures
        round_ratio((k + k) * pow2(UNIT_EXP as nat), 1) < INF_MAG,
{
    lemma_round_representable(k, (UNIT_EXP + 1) as nat);
    vstd::arithmetic::power2::lemma_pow2_unfold((UNIT_EXP + 1) as nat);
    assert((k + k) * pow2(UNIT_EXP as nat) == k * pow2((UNIT_EXP + 1) as nat)) by (nonlinear_arith)
        requires
            pow2((UNIT_EXP + 1) as nat) == 2 * pow2(UNIT_EXP as nat),
    ;
}

/// A number rounded up to the next whole number.
proof fn lemma_ceiling(y: Double, n: nat)
    requires
        y.is_finite(),
        !y.negative(),
        n < P53,
        n <= usize::MAX,
        y.value() <= n * pow2(UNIT_EXP as nat),
        n > 0 ==> y.value() > (n - 1) * pow2(UNIT_EXP as nat),
        n == 0 ==> y.is_zero(),
    ensures
        y.ceiled().saturated(usize::MAX as nat) == n,
{
    let u = pow2(UNIT_EXP as nat) as int;
    lemma_pow2_pos(UNIT_EXP as nat);
    crate::laws::lemma_zero_units();
    let v = y.value();
    let rest = n * u - v;
    assert(0 <= rest < u) by (nonlinear_arith)
        requires
            rest == n * u - v,
            v <= n * u,
            n > 0 ==> v > (n - 1) * u,
            n == 0 ==> v == 0,
            u > 0,
    ;
    assert(-v == u * (-n) + rest) by (nonlinear_arith)
        requires
            rest == n * u - v,
    ;
    lemma_fundamental_div_mod_converse(-v, u, -n, rest);
    assert(y.negated().mag() == y.mag());
    lemma_round_representable(n, UNIT_EXP as nat);
    let c = y.ceiled();
    assert(c.mag() == round_ratio(n * pow2(UNIT_EXP as nat), 1));
    assert(c.value() == n * u);
    vstd::arithmetic::div_mod::lemma_div_by_multiple(n as int, u);
}

/// The number of glitches for which no new reference point is sought is a two-thousandth of the
/// pixels, 0.05 percent, rounded up.
pub proof fn tolerated_glitches_are_one_in_two_thousand(total: nat)
    requires
        total < 0x4_0000_0000_0000,
        total <= usize::MAX,
    ensures
        total <= 2000 * tolerated(total) < total + 2000,
{
    let u = pow2(UNIT_EXP as nat);
    let p = pow2(1011);
    let s = 0x10_624d_d2f1_a9fcnat;
    lemma_pow2_pos(1011);
    lemma_pow2_pos(UNIT_EXP as nat);
    lemma_pow2_adds(63, 1011);
    vstd::arithmetic::power2::lemma2_to64_rest();
    lemma_whole(total);
    lemma_parts_unique(GLITCH_SHARE as nat, 1011, s);
    let x = total * (s * p);
    let y = of_nat(total).times(num(GLITCH_SHARE));
    assert(y == signed(false, round_ratio(x, 1))) by {
        reveal(Double::times);
        assert((total * u) * (s * p) * 1 == x * u) by (nonlinear_arith)
            requires
                x == total * (s * p),
        ;
        lemma_round_cross((total * u) * (s * p), u, x, 1);
    }
    lemma_fundamental_div_mod(total as int, 2000);
    let (k, r) = (total / 2000, total % 2000);
    assert(x == k * u + 192 * k * p + r * (s * p)) by (nonlinear_arith)
        requires
            x == total * (s * p),
            total == 2000 * k + r,
            u == 0x8000_0000_0000_0000 * p,
            s == 0x10_624d_d2f1_a9fc,
    ;
    if r == 0 {
        if k == 0 {
            crate::laws::lemma_zero_units();
            crate::rounding::lemma_round_exact(0);
            assert(x == 0) by (nonlinear_arith)
                requires
                    x == k * u + 192 * k * p + r * (s * p),
                    k == 0,
                    r == 0,
            ;
            lemma_ceiling(y, 0);
        } else {
            assert(r * (s * p) == 0) by (nonlinear_arith)
                requires
                    r == 0,
            ;
            lemma_rounds_to_whole(k, x);
            lemma_round_representable(k, UNIT_EXP as nat);
            assert(k * u > (k - 1) * u) by (nonlinear_arith)
                requires
                    u > 0,
            ;
            lemma_ceiling(y, k);
        }
    } else {
        // Above the whole number by a four-thousand-and-ninety-sixth at least, and not above the
        // next one.
        let low = (4096 * k + 1) * pow2(1062);
        lemma_pow2_adds(51, 1011);
        lemma_pow2_pos(1062);
        lemma_pow2_adds(12, 1062);
        assert(low == k * u + pow2(1062)) by (nonlinear_arith)
            requires
                low == (4096 * k + 1) * pow2(1062),
                u == 4096 * pow2(1062),
        ;
        assert(low <= x) by (nonlinear_arith)
            requires
                low == k * u + pow2(1062),
                pow2(1062) == 0x8_0000_0000_0000 * p,
                x == k * u + 192 * k * p + r * (s * p),
                s == 0x10_624d_d2f1_a9fc,
                r >= 1,
                k >= 0,
                p > 0,
        ;
        assert(x <= (k + 1) * u) by (nonlinear_arith)
            requires
                x == k * u + 192 * k * p + r * (s * p),
                u == 0x8000_0000_0000_0000 * p,
                s == 0x10_624d_d2f1_a9fc,
                1 <= r <= 1999,
                0 <= k < 0x1_0000_0000_00,
                p > 0,
        ;
        lemma_round_representable(4096 * k + 1, 1062);
        lemma_round_representable(k + 1, UNIT_EXP as nat);
        rounding_is_monotone(low, x, 1);
        rounding_is_monotone(x, (k + 1) * u, 1);
        let (a, b, c) = (round_ratio(low, 1), round_ratio(x, 1), round_ratio((k + 1) * u, 1));
        if a < b {
            crate::rounding::lemma_units_monotone(a, b);
        }
        if b < c {
            crate::rounding::lemma_units_monotone(b, c);
        }
        lemma_ceiling(y, k + 1);
    }
}

/// A deep rendering starts from the pixels of the main pass, with one reference point, and
/// tolerates one glitch in two thousand pixels.
pub proof fn rendering_starts_from_the_main_pass(
    field: IterField,
    w: usize,
    h: usize,
    max_refs: usize,
    r: DeepRender,
)
    requires
        call_ensures(DeepRender::new, (field, w, h, max_refs), r),
        field.wf(),
        w > 0,
        field.iters@.len() == h * w,
        field.iters@.len() < 0x4_0000_0000_0000,
        field.iters@.len() <= usize::MAX,
    ensures
        r.field == field,
        r.max_refs == max_refs,
        r.refs_used == 1,
        r.settled == 0,
        field.iters@.len() <= 2000 * r.tol_count < field.iters@.len() + 2000,
{
    assert(h as nat * w as nat == field.iters@.len());
    tolerated_glitches_are_one_in_two_thousand(field.iters@.len());
}

/// A pixel is a glitch below a millionth of the squared magnitude of the reference iterate, as
/// nearly as a number can be.
pub proof fn glitch_limit_is_a_millionth(z: Complex)
    requires
        product_is_exact(z.norm_sq(), num(GLITCH_TOL_SQ)),
    ensures
        real_of(glitch_limit(z)) == real_of(z.norm_sq()) * real_of(num(GLITCH_TOL_SQ)),
        -1 as real <= (real_of(num(GLITCH_TOL_SQ)) * (1_000_000 as real) - (1 as real)) * (
        0x1_0000_0000_0000 as real) <= 1 as real,
{
    lemma_product_value(z.norm_sq(), num(GLITCH_TOL_SQ));
    lemma_pattern_value(GLITCH_TOL_SQ, 1002, 0x10_c6f7_a0b5_ed8d);
    lemma_real_pow2(72);
    lemma_pow2_adds(10, 62);
    vstd::arithmetic::power2::lemma2_to64();
    vstd::arithmetic::power2::lemma2_to64_rest();
    lemma_commutes(pow2(72) as real, real_pow2(-72));
    let p = real_pow2(-72);
    assert(pow2(72) == 0x100_0000_0000_0000_0000);
    assert(p * (0x100_0000_0000_0000_0000 as real) == 1 as real);
    assert(real_of(num(GLITCH_TOL_SQ)) == (0x10_c6f7_a0b5_ed8d as real) * p);
}

/// Whether half the diagonal of a view is exact.
pub open spec fn diagonal_is_exact(v: view::View) -> bool {
    let sum = v.width.times(v.width).plus(v.height.times(v.height));
    &&& product_is_exact(v.width, v.width)
    &&& product_is_exact(v.height, v.height)
    &&& sum_is_exact(v.width.times(v.width), v.height.times(v.height))
    &&& sum.root().value() * sum.root().value() == sum.value() * pow2(UNIT_EXP as nat)
    &&& product_is_exact(num(HALF), sum.root())
}

/// The largest offset that the series is made for is half the diagonal of the view: four times its
/// square is the sum of the squares of the width and of the height.
pub proof fn largest_offset_is_half_the_diagonal(v: view::View, r: Double)
    requires
        call_ensures(delta_max, (&v,), r),
        diagonal_is_exact(v),
    ensures
        (real_of(r) + real_of(r)) * (real_of(r) + real_of(r)) == real_of(v.width) * real_of(v.width)
            + real_of(v.height) * real_of(v.height),
{
    let sum = v.width.times(v.width).plus(v.height.times(v.height));
    lemma_product_value(v.width, v.width);
    lemma_product_value(v.height, v.height);
    lemma_sum_value(v.width.times(v.width), v.height.times(v.height));
    lemma_product_value(num(HALF), sum.root());
    lemma_power_pattern(HALF, -1);
    lemma_small_powers();
    let (t, d) = (real_pow2(-1), real_of(sum.root()));
    crate::scaled_value::lemma_factor(t, t, d);
    let one = t + t;
    assert(one * d == d) by (nonlinear_arith)
        requires
            one == 1 as real,
    ;
    lemma_root_value(sum);
}

/// An exact root stands for the root.
proof fn lemma_root_value(x: Double)
    requires
        x.root().value() * x.root().value() == x.value() * pow2(UNIT_EXP as nat),
    ensures
        real_of(x.root()) * real_of(x.root()) == real_of(x),
{
    let u = pow2(UNIT_EXP as nat) as real;
    let w = real_pow2(-(UNIT_EXP as int));
    lemma_real_pow2(UNIT_EXP as nat);
    crate::exact_series::lemma_int_product(x.root().value(), x.root().value());
    crate::exact_series::lemma_int_product(x.value(), pow2(UNIT_EXP as nat) as int);
    let (q, n) = (x.root().value() as real, x.value() as real);
    assert(q * q == n * u);
    crate::exact_series::lemma_swap(q, w, q, w);
    crate::exact_series::lemma_swap(n, w, u, w);
    let (nw, one) = (n * w, u * w);
    assert(nw * one == nw) by (nonlinear_arith)
        requires
            one == 1 as real,
    ;
}

}
