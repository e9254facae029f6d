//! The precision that a reference orbit needs at a given zoom.
use vstd::prelude::*;
use vstd::arithmetic::power2::{lemma_pow2_adds, lemma_pow2_pos, pow2};
use crate::bits::{bit_len, lemma_pow2_le, lemma_pow2_unfold_zero};
use crate::double::{num, Double, ONE};
use crate::rounding::{
    exp_of,
    lemma_p52_p53,
    lemma_parts,
    lemma_units_monotone,
    sig_of,
    INF_MAG,
    P52,
    UNIT_EXP,
};

verus! {

/// The least precision, in bits.
pub const MIN_PRECISION: u32 = 64;

/// The bits of a binary64 significand.
pub const SIGNIFICAND_BITS: u32 = 53;

/// The bits that absorb the rounding errors of the iteration.
pub const GUARD_BITS: u32 = 16;

/// Whether `k` is the least exponent with `n / d <= 2^k`.
pub open spec fn is_ceil_log2(n: nat, d: nat, k: nat) -> bool {
    n <= d * pow2(k) && (k > 0 ==> n > d * pow2((k - 1) as nat))
}

/// The least exponent `k` with `n / d <= 2^k`.
pub open spec fn ceil_log2(n: nat, d: nat) -> nat {
    choose|k: nat| is_ceil_log2(n, d, k)
}

/// The binary logarithm of a zoom above one, rounded up.
pub open spec fn zoom_bits(zoom: Double) -> u32 {
    if zoom.is_nan() {
        0
    } else if zoom.is_infinite() {
        u32::MAX
    } else {
        ceil_log2(zoom.units(), pow2(UNIT_EXP as nat)) as u32
    }
}

/// The precision for a zoom, in bits: enough for the zoom, a significand, the guard bits and the
/// larger side of the image; the sum wraps around at an infinite zoom.
pub open spec fn precision_for(zoom: Double, max_dim: u32) -> u32 {
    if zoom.is_le(num(ONE)) {
        MIN_PRECISION
    } else {
        let sum = u32::wrapping_add(
            u32::wrapping_add(u32::wrapping_add(zoom_bits(zoom), SIGNIFICAND_BITS), GUARD_BITS),
            ceil_log2(max_dim as nat, 1) as u32,
        );
        if sum < MIN_PRECISION {
            MIN_PRECISION
        } else {
            sum
        }
    }
}

/// There is at most one such exponent.
pub proof fn lemma_ceil_log2(n: nat, d: nat, k: nat)
    requires
        is_ceil_log2(n, d, k),
    ensures
        ceil_log2(n, d) == k,
{
    let l = ceil_log2(n, d);
    assert(is_ceil_log2(n, d, l));
    if l < k {
        lemma_pow2_le(l, (k - 1) as nat);
        assert(d * pow2(l) <= d * pow2((k - 1) as nat)) by (nonlinear_arith)
            requires
                pow2(l) <= pow2((k - 1) as nat),
        ;
    } else if k < l {
        lemma_pow2_le(k, (l - 1) as nat);
        assert(d * pow2(k) <= d * pow2((l - 1) as nat)) by (nonlinear_arith)
            requires
                pow2(k) <= pow2((l - 1) as nat),
        ;
    }
}

/// The binary logarithm of a side length, rounded up; zero for zero.
fn dim_bits(max_dim: u32) -> (r: u32)
    ensures
        r == ceil_log2(max_dim as nat, 1),
        is_ceil_log2(max_dim as nat, 1, r as nat),
        r <= 32,
{
    proof {
        lemma_pow2_unfold_zero();
    }
    if max_dim <= 1 {
        proof {
            lemma_ceil_log2(max_dim as nat, 1, 0);
        }
        return 0;
    }
    let r: u32 = bit_len((max_dim - 1) as u128);
    proof {
        assert(r <= 32) by {
            vstd::arithmetic::power2::lemma2_to64();
            if r > 32 {
                lemma_pow2_le(32, (r - 1) as nat);
            }
        }
        lemma_ceil_log2(max_dim as nat, 1, r as nat);
    }
    r
}

/// The binary logarithm of a zoom above one, rounded up.
fn zoom_log2(zoom: Double) -> (r: u32)
    requires
        !zoom.is_le(num(ONE)),
    ensures
        r == zoom_bits(zoom),
        zoom.is_finite() ==> r <= 1024 && is_ceil_log2(zoom.units(), pow2(UNIT_EXP as nat), r as nat),
{
    if zoom.not_a_number() {
        return 0;
    }
    let m: u64 = zoom.mag_bits();
    if m == INF_MAG {
        return u32::MAX;
    }
    let field: u64 = m / P52;
    let rest: u64 = m % P52;
    let r: u32 = if rest == 0 {
        (field - 1023) as u32
    } else {
        (field - 1022) as u32
    };
    proof {
        lemma_zoom_log2(zoom, r);
    }
    r
}

/// The exponent field of a number above one tells its binary logarithm.
proof fn lemma_zoom_log2(zoom: Double, r: u32)
    requires
        zoom.is_finite(),
        !zoom.is_le(num(ONE)),
        r == zoom.mag() / (P52 as nat) - (if zoom.mag() % (P52 as nat) == 0 {
            1023int
        } else {
            1022
        }),
    ensures
        r <= 1024,
        is_ceil_log2(zoom.units(), pow2(UNIT_EXP as nat), r as nat),
        zoom_bits(zoom) == r,
{
    let m = zoom.mag();
    let e = exp_of(m);
    let q = sig_of(m);
    lemma_parts(m);
    lemma_p52_p53();
    vstd::arithmetic::div_mod::lemma_fundamental_div_mod(m as int, P52 as int);
    vstd::arithmetic::div_mod::lemma_mod_bound(m as int, P52 as int);
    assert(ONE == 1023 * P52);
    let f = m / (P52 as nat);
    let rest = m % (P52 as nat);
    assert(m == f * P52 + rest) by (nonlinear_arith)
        requires
            m == P52 * f + rest,
    ;
    assert(m > 1023 * P52);
    assert(f >= 1023) by (nonlinear_arith)
        requires
            m == f * P52 + rest,
            m > 1023 * P52,
            rest < P52,
            P52 > 0,
    ;
    assert(e == f - 1 && q == P52 + rest) by {
        assert((f - 1) * P52 + P52 == f * P52) by (nonlinear_arith);
    }
    let u = pow2(UNIT_EXP as nat);
    lemma_pow2_adds(52, e);
    lemma_pow2_adds(53, e);
    lemma_pow2_pos(e);
    if rest == 0 {
        assert(zoom.units() == pow2(52 + e)) by (nonlinear_arith)
            requires
                zoom.units() == q * pow2(e),
                q == pow2(52),
                pow2(52) * pow2(e) == pow2(52 + e),
        ;
        lemma_pow2_adds(UNIT_EXP as nat, r as nat);
        assert(UNIT_EXP + r == 52 + e);
        if r > 0 {
            lemma_pow2_adds(UNIT_EXP as nat, (r - 1) as nat);
            vstd::arithmetic::power2::lemma_pow2_strictly_increases(
                (UNIT_EXP + r - 1) as nat,
                52 + e,
            );
        }
    } else {
        assert(pow2(52 + e) < zoom.units() <= pow2(53 + e)) by (nonlinear_arith)
            requires
                zoom.units() == q * pow2(e),
                pow2(52) < q < pow2(53),
                pow2(e) > 0,
                pow2(52) * pow2(e) == pow2(52 + e),
                pow2(53) * pow2(e) == pow2(53 + e),
        ;
        lemma_pow2_adds(UNIT_EXP as nat, r as nat);
        assert(UNIT_EXP + r == 53 + e);
        lemma_pow2_adds(UNIT_EXP as nat, (r - 1) as nat);
    }
    lemma_ceil_log2(zoom.units(), u, r as nat);
}

/// The precision that a reference orbit needs, in bits:
/// `ceil(log2(zoom)) + 53 + 16 + ceil(log2(max_dim))`, and at least 64.
pub fn suggested_precision(zoom: Double, max_dim: u32) -> (r: u32)
    ensures
        r == precision_for(zoom, max_dim),
{
    if zoom.le(Double::new(ONE)) {
        return MIN_PRECISION;
    }
    let sum: u32 = zoom_log2(zoom).wrapping_add(SIGNIFICAND_BITS).wrapping_add(
        GUARD_BITS,
    ).wrapping_add(dim_bits(max_dim));
    if sum < MIN_PRECISION {
        MIN_PRECISION
    } else {
        sum
    }
}

/// There is such an exponent, from `k` on where `n / d` is above `2^(k - 1)`.
pub proof fn lemma_ceil_log2_exists(n: nat, d: nat, k: nat)
    requires
        d > 0,
        k > 0 ==> n > d * pow2((k - 1) as nat),
    ensures
        is_ceil_log2(n, d, ceil_log2(n, d)),
    decreases
            if n > d * pow2(k) {
                n - d * pow2(k)
            } else {
                0
            },
{
    if n <= d * pow2(k) {
        assert(is_ceil_log2(n, d, k));
    } else {
        vstd::arithmetic::power2::lemma_pow2_strictly_increases(k, k + 1);
        assert(d * pow2(k) < d * pow2(k + 1)) by (nonlinear_arith)
            requires
                d > 0,
                pow2(k) < pow2(k + 1),
        ;
        lemma_ceil_log2_exists(n, d, k + 1);
    }
}

/// The rounded logarithm grows with the number.
pub proof fn ceil_log2_is_monotone(n1: nat, n2: nat, d: nat)
    requires
        d > 0,
        n1 <= n2,
    ensures
        ceil_log2(n1, d) <= ceil_log2(n2, d),
{
    lemma_ceil_log2_exists(n1, d, 0);
    lemma_ceil_log2_exists(n2, d, 0);
    let a = ceil_log2(n1, d);
    let b = ceil_log2(n2, d);
    if b < a {
        lemma_pow2_le(b, (a - 1) as nat);
        assert(d * pow2(b) <= d * pow2((a - 1) as nat)) by (nonlinear_arith)
            requires
                pow2(b) <= pow2((a - 1) as nat),
        ;
    }
}

/// The bounds of the two logarithms at a finite zoom above one, and the sum that they give.
proof fn lemma_finite_precision(zoom: Double, max_dim: u32)
    requires
        zoom.is_finite(),
        num(ONE).is_lt(zoom),
    ensures
        is_ceil_log2(zoom.units(), pow2(UNIT_EXP as nat), zoom_bits(zoom) as nat),
        is_ceil_log2(max_dim as nat, 1, ceil_log2(max_dim as nat, 1)),
        zoom_bits(zoom) == ceil_log2(zoom.units(), pow2(UNIT_EXP as nat)),
        zoom_bits(zoom) <= 1024,
        ceil_log2(max_dim as nat, 1) <= 32,
        precision_for(zoom, max_dim) == zoom_bits(zoom) + 69 + ceil_log2(max_dim as nat, 1),
{
    let m = zoom.mag();
    lemma_parts(m);
    vstd::arithmetic::div_mod::lemma_fundamental_div_mod(m as int, P52 as int);
    vstd::arithmetic::div_mod::lemma_mod_bound(m as int, P52 as int);
    let f = m / (P52 as nat);
    let rest = m % (P52 as nat);
    assert(ONE == 1023 * P52);
    assert(1023 <= f <= 2046) by (nonlinear_arith)
        requires
            m == P52 * f + rest,
            1023 * P52 < m < 2047 * P52,
            0 <= rest < P52,
            P52 > 0,
    ;
    let r: u32 = if rest == 0 {
        (f - 1023) as u32
    } else {
        (f - 1022) as u32
    };
    lemma_zoom_log2(zoom, r);
    lemma_pow2_pos(UNIT_EXP as nat);
    lemma_ceil_log2(zoom.units(), pow2(UNIT_EXP as nat), r as nat);
    let b = ceil_log2(max_dim as nat, 1);
    lemma_ceil_log2_exists(max_dim as nat, 1, 0);
    vstd::arithmetic::power2::lemma2_to64();
    if b > 32 {
        lemma_pow2_le(32, (b - 1) as nat);
    }
}

/// The precision never falls as the zoom grows.
pub proof fn precision_grows_with_zoom(zoom1: Double, zoom2: Double, max_dim: u32)
    requires
        zoom1.is_finite(),
        zoom2.is_finite(),
        zoom1.is_le(zoom2),
    ensures
        MIN_PRECISION <= precision_for(zoom1, max_dim) <= precision_for(zoom2, max_dim),
{
    if !zoom1.is_le(num(ONE)) {
        lemma_finite_precision(zoom1, max_dim);
        lemma_finite_precision(zoom2, max_dim);
        if zoom1.mag() < zoom2.mag() {
            lemma_units_monotone(zoom1.mag(), zoom2.mag());
        }
        lemma_pow2_pos(UNIT_EXP as nat);
        ceil_log2_is_monotone(zoom1.units(), zoom2.units(), pow2(UNIT_EXP as nat));
    } else if !zoom2.is_le(num(ONE)) {
        lemma_finite_precision(zoom2, max_dim);
    }
}

/// The precision never falls as the image grows.
pub proof fn precision_grows_with_image(zoom: Double, dim1: u32, dim2: u32)
    requires
        zoom.is_finite(),
        dim1 <= dim2,
    ensures
        precision_for(zoom, dim1) <= precision_for(zoom, dim2),
{
    if !zoom.is_le(num(ONE)) {
        lemma_finite_precision(zoom, dim1);
        lemma_finite_precision(zoom, dim2);
        ceil_log2_is_monotone(dim1 as nat, dim2 as nat, 1);
    }
}

/// Beside a significand and the guard bits, the precision has bits enough to tell the pixels
/// apart: `zoom * max_dim` is at most two to the number of those bits.
pub proof fn precision_resolves_a_pixel(zoom: Double, max_dim: u32)
    requires
        zoom.is_finite(),
        num(ONE).is_lt(zoom),
    ensures
        precision_for(zoom, max_dim) >= SIGNIFICAND_BITS + GUARD_BITS,
        zoom.units() * max_dim <= pow2(UNIT_EXP as nat) * pow2(
            (precision_for(zoom, max_dim) - SIGNIFICAND_BITS - GUARD_BITS) as nat,
        ),
{
    lemma_finite_precision(zoom, max_dim);
    let a = zoom_bits(zoom) as nat;
    let b = ceil_log2(max_dim as nat, 1);
    let u = pow2(UNIT_EXP as nat);
    lemma_pow2_adds(a, b);
    let pa = pow2(a);
    let pb = pow2(b);
    let n = zoom.units();
    assert(n * max_dim <= u * (pa * pb)) by (nonlinear_arith)
        requires
            n <= u * pa,
            max_dim <= 1 * pb,
            0 <= n,
            0 <= max_dim,
    ;
}

/// The precision is no larger than that takes, up to two bits: one for each of the two logarithms
/// that are rounded up.
pub proof fn precision_is_not_wasted(zoom: Double, max_dim: u32)
    requires
        zoom.is_finite(),
        num(ONE).is_lt(zoom),
        max_dim > 0,
    ensures
        precision_for(zoom, max_dim) >= 69,
        pow2(UNIT_EXP as nat) * pow2((precision_for(zoom, max_dim) - 69) as nat) < 4 * (zoom.units()
            * max_dim),
{
    lemma_finite_precision(zoom, max_dim);
    let a = zoom_bits(zoom) as nat;
    let b = ceil_log2(max_dim as nat, 1);
    let u = pow2(UNIT_EXP as nat);
    let n = zoom.units();
    lemma_pow2_adds(a, b);
    lemma_pow2_pos(a);
    lemma_pow2_pos(b);
    lemma_pow2_unfold_zero();
    crate::laws::lemma_units_of_one();
    lemma_units_monotone(ONE as nat, zoom.mag());
    if a > 0 {
        vstd::arithmetic::power2::lemma_pow2_unfold(a);
    }
    if b > 0 {
        vstd::arithmetic::power2::lemma_pow2_unfold(b);
    }
    let (pa, pb) = (pow2(a), pow2(b));
    assert(u * pa < 2 * n) by (nonlinear_arith)
        requires
            u < n,
            a > 0 ==> pa == 2 * pow2((a - 1) as nat) && n > u * pow2((a - 1) as nat),
            a == 0 ==> pa == 1,
    ;
    assert(pb <= 2 * max_dim) by (nonlinear_arith)
        requires
            max_dim > 0,
            b > 0 ==> pb == 2 * pow2((b - 1) as nat) && max_dim > 1 * pow2((b - 1) as nat),
            b == 0 ==> pb == 1,
    ;
    assert(u * (pa * pb) < 4 * (n * max_dim)) by (nonlinear_arith)
        requires
            u * pa < 2 * n,
            0 < pb <= 2 * max_dim,
            max_dim > 0,
            n > 0,
    ;
}

}
