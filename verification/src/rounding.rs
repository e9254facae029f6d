//! Rounding of exact rationals to binary64 magnitudes.
//!
//! Every finite binary64 number is an integer multiple of the unit `2^-1074`, so the magnitude of
//! a number is a natural number of units. The bit pattern of a magnitude (the number's bits
//! without the sign) is `e * 2^52 + q` for a magnitude of `q * 2^e` units, where `q < 2^53` and
//! `q >= 2^52` unless `e` is zero.
use vstd::prelude::*;
use vstd::arithmetic::power2::{lemma_pow2_pos, lemma_pow2_unfold, lemma_pow2_adds, pow2};
use vstd::arithmetic::div_mod::{
    lemma_fundamental_div_mod,
    lemma_fundamental_div_mod_converse,
    lemma_mod_bound,
};
use crate::bits::{bit_len, lemma_pow2_le, lemma_pow2_unfold_zero, lemma_shl, lemma_shr};

verus! {

/// `2^52`, the weight of the exponent field.
pub const P52: u64 = 0x10_0000_0000_0000;

/// `2^53`, the bound of a significand.
pub const P53: u64 = 0x20_0000_0000_0000;

/// The magnitude pattern of the infinities.
pub const INF_MAG: u64 = 0x7ff0_0000_0000_0000;

/// The number of units of `2^-1074` in one, as an exponent of two.
pub const UNIT_EXP: u64 = 1074;

/// The quotient `a / b` rounded to the nearest integer, a tie to the even one.
pub open spec fn rne_div(a: nat, b: nat) -> nat {
    let q = a / b;
    let r = a % b;
    if 2 * r < b || (2 * r == b && q % 2 == 0) {
        q
    } else {
        q + 1
    }
}

/// The least exponent `e` for which `num / den` is below `2^(e + 53)`.
pub open spec fn binade(num: nat, den: nat) -> nat
    decreases num - den,
{
    if den == 0 || num < den * P53 {
        0
    } else {
        1 + binade(num, 2 * den)
    }
}

/// The magnitude pattern of the binary64 number nearest to `num / den` units, a tie to the even
/// significand; what is too large for a finite number is infinite.
pub open spec fn round_ratio(num: nat, den: nat) -> nat {
    let e = binade(num, den);
    let bits = e * (P52 as nat) + rne_div(num, den * pow2(e));
    if bits < INF_MAG {
        bits
    } else {
        INF_MAG as nat
    }
}

/// The numerator of `n * 2^x` over [`scale_den`].
pub open spec fn scale_num(n: nat, x: int) -> nat {
    if x >= 0 {
        n * pow2(x as nat)
    } else {
        n
    }
}

/// The denominator of `n * 2^x`.
pub open spec fn scale_den(x: int) -> nat {
    if x >= 0 {
        1
    } else {
        pow2((-x) as nat)
    }
}

/// What the division with remainder says, from a quotient and a remainder at hand.
pub proof fn lemma_div_from(a: nat, b: nat, q: nat, r: nat)
    requires
        a == q * b + r,
        r < b,
    ensures
        a / b == q,
        a % b == r,
{
    lemma_fundamental_div_mod_converse(a as int, b as int, q as int, r as int);
}

/// Scaling numerator and denominator alike leaves the rounded quotient as it is.
pub proof fn lemma_rne_scale(a: nat, b: nat, k: nat)
    requires
        b > 0,
        k > 0,
    ensures
        rne_div(a * k, b * k) == rne_div(a, b),
{
    let q = a / b;
    let r = a % b;
    lemma_fundamental_div_mod(a as int, b as int);
    lemma_mod_bound(a as int, b as int);
    assert(a * k == q * (b * k) + r * k) by (nonlinear_arith)
        requires
            a == b * q + r,
    ;
    assert(r * k < b * k) by (nonlinear_arith)
        requires
            r < b,
            k > 0,
    ;
    lemma_div_from(a * k, b * k, q, r * k);
    assert((2 * (r * k) < b * k) == (2 * r < b)) by (nonlinear_arith)
        requires
            k > 0,
    ;
    assert((2 * (r * k) == b * k) == (2 * r == b)) by (nonlinear_arith)
        requires
            k > 0,
    ;
}

/// An exact quotient is its own rounding.
pub proof fn lemma_rne_exact(q: nat, b: nat)
    requires
        b > 0,
    ensures
        rne_div(q * b, b) == q,
{
    lemma_div_from(q * b, b, q, 0);
}

/// The binade is the exponent that brings the quotient below `2^53` and, unless it is zero, not
/// below `2^52`.
pub proof fn lemma_binade(num: nat, den: nat, e: nat)
    requires
        den > 0,
        num < den * pow2(e + 53),
        e > 0 ==> num >= den * pow2((e + 52) as nat),
    ensures
        binade(num, den) == e,
    decreases e,
{
    lemma_p52_p53();
    if e > 0 {
        lemma_pow2_le(53, (e + 52) as nat);
        assert(den * pow2(53) <= den * pow2((e + 52) as nat)) by (nonlinear_arith)
            requires
                pow2(53) <= pow2((e + 52) as nat),
        ;
        lemma_pow2_unfold(e + 53);
        lemma_pow2_unfold((e + 52) as nat);
        assert(den * pow2(e + 53) == (2 * den) * pow2((e + 52) as nat)) by (nonlinear_arith)
            requires
                pow2(e + 53) == 2 * pow2((e + 52) as nat),
        ;
        assert(den * pow2((e + 52) as nat) == (2 * den) * pow2((e + 51) as nat)) by (nonlinear_arith)
            requires
                pow2((e + 52) as nat) == 2 * pow2((e + 51) as nat),
        ;
        lemma_binade(num, 2 * den, (e - 1) as nat);
    }
}

/// The binade satisfies the bounds that determine it.
pub proof fn lemma_binade_bounds(num: nat, den: nat)
    requires
        den > 0,
    ensures
        num < den * pow2(binade(num, den) + 53),
        binade(num, den) > 0 ==> num >= den * pow2((binade(num, den) + 52) as nat),
    decreases num - den,
{
    lemma_p52_p53();
    if num >= den * P53 {
        let e = binade(num, 2 * den);
        lemma_binade_bounds(num, 2 * den);
        lemma_pow2_unfold(e + 54);
        lemma_pow2_unfold((e + 53) as nat);
        assert(den * pow2(e + 54) == (2 * den) * pow2(e + 53)) by (nonlinear_arith)
            requires
                pow2(e + 54) == 2 * pow2(e + 53),
        ;
        assert(den * pow2((e + 53) as nat) == (2 * den) * pow2((e + 52) as nat)) by (nonlinear_arith)
            requires
                pow2((e + 53) as nat) == 2 * pow2((e + 52) as nat),
        ;
    }
}

/// The named powers of two.
pub proof fn lemma_p52_p53()
    ensures
        pow2(52) == P52,
        pow2(53) == P53,
{
    vstd::arithmetic::power2::lemma2_to64_rest();
}

/// Scaling numerator and denominator alike leaves the rounded magnitude as it is.
pub proof fn lemma_round_scale(num: nat, den: nat, k: nat)
    requires
        den > 0,
        k > 0,
    ensures
        round_ratio(num * k, den * k) == round_ratio(num, den),
{
    let e = binade(num, den);
    lemma_binade_bounds(num, den);
    let hi = pow2(e + 53);
    assert(num * k < (den * k) * hi && den * k > 0) by (nonlinear_arith)
        requires
            num < den * hi,
            k > 0,
            den > 0,
    ;
    if e > 0 {
        let lo = pow2((e + 52) as nat);
        assert(num * k >= (den * k) * lo) by (nonlinear_arith)
            requires
                num >= den * lo,
                k > 0,
        ;
    }
    lemma_binade(num * k, den * k, e);
    lemma_pow2_pos(e);
    let d = den * pow2(e);
    assert(d > 0 && (den * k) * pow2(e) == d * k) by (nonlinear_arith)
        requires
            d == den * pow2(e),
            den > 0,
            pow2(e) > 0,
    ;
    lemma_rne_scale(num, d, k);
}

/// The quotient that [`round_ratio`] takes of `n * 2^x`, at exponent `e`.
pub open spec fn scaled_quotient(n: nat, x: int, e: nat) -> nat {
    if e <= x {
        n * pow2((x - e) as nat)
    } else {
        rne_div(n, pow2((e - x) as nat))
    }
}

/// The rounding of `n * 2^x` for an `n` of `l` bits.
pub proof fn lemma_round_scaled(n: nat, x: int, l: nat, e: nat)
    requires
        n > 0,
        l > 0,
        pow2((l - 1) as nat) <= n < pow2(l),
        e == (if l + x - 53 > 0 {
            l + x - 53
        } else {
            0
        }),
    ensures
        binade(scale_num(n, x), scale_den(x)) == e,
        rne_div(scale_num(n, x), scale_den(x) * pow2(e)) == scaled_quotient(n, x, e),
        scaled_quotient(n, x, e) <= P53,
        e > 0 ==> scaled_quotient(n, x, e) >= P52,
        e <= x ==> scaled_quotient(n, x, e) < P53,
{
    lemma_p52_p53();
    let num = scale_num(n, x);
    let den = scale_den(x);
    if x >= 0 {
        lemma_pow2_pos(x as nat);
    } else {
        lemma_pow2_pos((-x) as nat);
    }
    // num < den * 2^(e + 53)
    assert(num < den * pow2(e + 53)) by {
        if x >= 0 {
            lemma_pow2_adds(l, x as nat);
            lemma_pow2_le((l + x) as nat, e + 53);
            assert(n * pow2(x as nat) < pow2(l) * pow2(x as nat)) by (nonlinear_arith)
                requires
                    n < pow2(l),
                    pow2(x as nat) > 0,
            ;
        } else {
            lemma_pow2_adds((-x) as nat, e + 53);
            lemma_pow2_le(l, (-x) as nat + (e + 53));
        }
    }
    assert(e > 0 ==> num >= den * pow2((e + 52) as nat)) by {
        if e > 0 {
            if x >= 0 {
                lemma_pow2_adds((l - 1) as nat, x as nat);
                assert(n * pow2(x as nat) >= pow2((l - 1) as nat) * pow2(x as nat)) by (nonlinear_arith)
                    requires
                        n >= pow2((l - 1) as nat),
                ;
            } else {
                lemma_pow2_adds((-x) as nat, (e + 52) as nat);
            }
        }
    }
    lemma_binade(num, den, e);
    lemma_pow2_pos(e);
    let d = den * pow2(e);
    if e <= x {
        lemma_pow2_adds((x - e) as nat, e);
        let q = n * pow2((x - e) as nat);
        assert(num == q * pow2(e)) by (nonlinear_arith)
            requires
                num == n * pow2(x as nat),
                pow2(x as nat) == pow2((x - e) as nat) * pow2(e),
                q == n * pow2((x - e) as nat),
        ;
        assert(d == pow2(e));
        lemma_rne_exact(q, pow2(e));
        lemma_pow2_adds(e, 53);
        assert(q < pow2(53)) by (nonlinear_arith)
            requires
                q * pow2(e) < pow2(e) * pow2(53),
                pow2(e) > 0,
        ;
        if e > 0 {
            lemma_pow2_adds(e, 52);
            assert(q >= pow2(52)) by (nonlinear_arith)
                requires
                    q * pow2(e) >= pow2(e) * pow2(52),
                    pow2(e) > 0,
            ;
        }
    } else {
        let t = (e - x) as nat;
        lemma_pow2_pos(t);
        if x >= 0 {
            lemma_pow2_adds(t, x as nat);
            lemma_rne_scale(n, pow2(t), pow2(x as nat));
        } else {
            lemma_pow2_adds((-x) as nat, e);
        }
        let q = rne_div(n, pow2(t));
        // n < 2^(t + 53), and n >= 2^(t + 52) unless e is zero
        lemma_pow2_le(l, (t + 53) as nat);
        lemma_pow2_adds(53, t);
        lemma_fundamental_div_mod(n as int, pow2(t) as int);
        lemma_mod_bound(n as int, pow2(t) as int);
        let q0 = n / pow2(t);
        let r = n % pow2(t);
        assert(q0 < pow2(53)) by (nonlinear_arith)
            requires
                n == pow2(t) * q0 + r,
                r >= 0,
                n < pow2(53) * pow2(t),
                pow2(t) > 0,
        ;
        if e > 0 {
            assert(l == t + 53);
            lemma_pow2_adds(52, t);
            assert(q0 >= pow2(52)) by (nonlinear_arith)
                requires
                    n == pow2(t) * q0 + r,
                    r < pow2(t),
                    n >= pow2(52) * pow2(t),
                    pow2(t) > 0,
            ;
        }
    }
}

/// The magnitude pattern nearest to `n * 2^x` units.
pub fn round_scaled(n: u128, x: i32) -> (bits: u64)
    requires
        n < 0x8000_0000_0000_0000_0000_0000_0000_0000,
        -4000 <= x <= 4000,
    ensures
        bits == round_ratio(scale_num(n as nat, x as int), scale_den(x as int)),
        bits <= INF_MAG,
{
    if n == 0 {
        proof {
            lemma_round_zero(scale_num(0, x as int), scale_den(x as int), x as int);
        }
        return 0;
    }
    let l: i32 = bit_len(n) as i32;
    proof {
        lemma_pow2_127();
        if l == 128 {
            assert(false);
        }
    }
    let e: i32 = if l + x - 53 > 0 {
        l + x - 53
    } else {
        0
    };
    proof {
        lemma_round_scaled(n as nat, x as int, l as nat, e as nat);
    }
    if e >= 2046 {
        proof {
            assert(e * P52 >= 2046 * P52) by (nonlinear_arith)
                requires
                    e >= 2046,
            ;
        }
        return INF_MAG;
    }
    let t: i32 = e - x;
    let q: u64 = if t <= 0 {
        let s: u32 = (-t) as u32;
        proof {
            lemma_p52_p53();
            lemma_small_shift(n as nat, s as nat);
            lemma_shl(n, s);
        }
        (n << s) as u64
    } else if t >= 128 {
        proof {
            lemma_pow2_le(127, (t - 1) as nat);
            lemma_pow2_unfold(t as nat);
            lemma_div_from(n as nat, pow2(t as nat), 0, n as nat);
        }
        0
    } else {
        let s: u32 = t as u32;
        let q0: u128 = n >> s;
        proof {
            lemma_shr(n, s);
            lemma_pow2_pos(s as nat);
            lemma_fundamental_div_mod(n as int, pow2(s as nat) as int);
            lemma_mod_bound(n as int, pow2(s as nat) as int);
            assert(q0 * pow2(s as nat) == pow2(s as nat) * q0) by (nonlinear_arith);
            lemma_shl(q0, s);
            lemma_pow2_unfold(s as nat);
            lemma_pow2_le((s - 1) as nat, 127);
            assert(1 * pow2((s - 1) as nat) == pow2((s - 1) as nat));
            lemma_shl(1, (s - 1) as u32);
        }
        let r: u128 = n - (q0 << s);
        let half: u128 = 1u128 << (s - 1);
        if r < half || (r == half && q0 % 2 == 0) {
            q0 as u64
        } else {
            (q0 + 1) as u64
        }
    };
    proof {
        assert(e * P52 <= 2045 * P52) by (nonlinear_arith)
            requires
                0 <= e <= 2045,
        ;
    }
    (e as u64) * P52 + q
}

/// Zero rounds to zero.
pub proof fn lemma_round_zero(num: nat, den: nat, x: int)
    requires
        num == 0 || num == 0 * pow2(x as nat),
        den == scale_den(x),
    ensures
        num == 0,
        round_ratio(num, den) == 0,
{
    assert(0 * pow2(x as nat) == 0) by (nonlinear_arith);
    if x < 0 {
        lemma_pow2_pos((-x) as nat);
    }
    assert(binade(0, den) == 0) by {
        assert(den * P53 > 0);
    }
    lemma_pow2_unfold_zero();
    assert(den * pow2(0) == den) by (nonlinear_arith)
        requires
            pow2(0) == 1,
    ;
    lemma_div_from(0, den, 0, 0);
}

/// `2^127` in digits.
proof fn lemma_pow2_127()
    ensures
        pow2(127) == 0x8000_0000_0000_0000_0000_0000_0000_0000,
{
    vstd::arithmetic::power2::lemma2_to64();
    vstd::arithmetic::power2::lemma2_to64_rest();
    lemma_pow2_adds(64, 63);
}

/// A shift that keeps a nonzero word below `2^53` is by at most 53 places.
proof fn lemma_small_shift(n: nat, s: nat)
    requires
        n > 0,
        n * pow2(s) < P53,
    ensures
        s < 53,
{
    lemma_p52_p53();
    if s >= 53 {
        lemma_pow2_le(53, s);
        assert(n * pow2(s) >= pow2(s)) by (nonlinear_arith)
            requires
                n > 0,
        ;
    }
}

/// The exponent of a magnitude pattern: the pattern stands for `sig_of * 2^exp_of` units.
pub open spec fn exp_of(m: nat) -> nat {
    if m < P52 {
        0
    } else {
        (m / (P52 as nat) - 1) as nat
    }
}

/// The significand of a magnitude pattern.
pub open spec fn sig_of(m: nat) -> nat {
    (m - exp_of(m) * P52) as nat
}

/// The number of units of `2^-1074` that a finite magnitude pattern stands for.
pub open spec fn units_of(m: nat) -> nat {
    sig_of(m) * pow2(exp_of(m))
}

/// The significand and the exponent put the pattern together again.
pub proof fn lemma_parts(m: nat)
    ensures
        m == exp_of(m) * P52 + sig_of(m),
        sig_of(m) < P53,
        exp_of(m) > 0 ==> sig_of(m) >= P52,
        m < INF_MAG ==> exp_of(m) <= 2045,
{
    lemma_fundamental_div_mod(m as int, P52 as int);
    lemma_mod_bound(m as int, P52 as int);
    let k = m / (P52 as nat);
    assert(P52 * k == k * P52) by (nonlinear_arith);
    if m >= P52 {
        assert(k >= 1) by (nonlinear_arith)
            requires
                m == k * P52 + m % (P52 as nat),
                m % (P52 as nat) < P52,
                m >= P52,
        ;
        assert((k - 1) * P52 == k * P52 - P52) by (nonlinear_arith);
        if m < INF_MAG {
            assert(k <= 2046) by (nonlinear_arith)
                requires
                    k * P52 <= m,
                    m < 2047 * P52,
            ;
        }
    } else {
        assert(0 * P52 == 0);
    }
}

/// A pattern is determined by an exponent and a significand in range.
pub proof fn lemma_parts_unique(m: nat, e: nat, q: nat)
    requires
        m == e * P52 + q,
        q < P53,
        e > 0 ==> q >= P52,
    ensures
        exp_of(m) == e,
        sig_of(m) == q,
{
    lemma_parts(m);
    let e1 = exp_of(m);
    let q1 = sig_of(m);
    if e1 < e {
        assert(e * P52 >= (e1 + 1) * P52) by (nonlinear_arith)
            requires
                e >= e1 + 1,
        ;
        assert((e1 + 1) * P52 == e1 * P52 + P52) by (nonlinear_arith);
        assert(false);
    }
    if e < e1 {
        assert(e1 * P52 >= (e + 1) * P52) by (nonlinear_arith)
            requires
                e1 >= e + 1,
        ;
        assert((e + 1) * P52 == e * P52 + P52) by (nonlinear_arith);
        assert(false);
    }
}

/// Larger patterns stand for larger magnitudes.
pub proof fn lemma_units_monotone(m1: nat, m2: nat)
    requires
        m1 < m2,
    ensures
        units_of(m1) < units_of(m2),
{
    lemma_parts(m1);
    lemma_parts(m2);
    let e1 = exp_of(m1);
    let e2 = exp_of(m2);
    let q1 = sig_of(m1);
    let q2 = sig_of(m2);
    lemma_pow2_pos(e1);
    lemma_pow2_pos(e2);
    if e2 < e1 {
        assert(e1 * P52 >= (e2 + 1) * P52) by (nonlinear_arith)
            requires
                e1 >= e2 + 1,
        ;
        assert((e2 + 1) * P52 == e2 * P52 + P52) by (nonlinear_arith);
        assert(false);
    }
    if e1 == e2 {
        assert(q1 * pow2(e1) < q2 * pow2(e1)) by (nonlinear_arith)
            requires
                q1 < q2,
                pow2(e1) > 0,
        ;
    } else {
        lemma_pow2_le(e1 + 1, e2);
        lemma_pow2_unfold(e1 + 1);
        assert(q1 * pow2(e1) < P52 * pow2(e1 + 1)) by (nonlinear_arith)
            requires
                q1 < P53,
                pow2(e1 + 1) == 2 * pow2(e1),
                pow2(e1) > 0,
        ;
        assert(P52 * pow2(e1 + 1) <= q2 * pow2(e2)) by (nonlinear_arith)
            requires
                q2 >= P52,
                pow2(e1 + 1) <= pow2(e2),
        ;
    }
}

/// What a finite pattern stands for is rounded to that pattern.
pub proof fn lemma_round_exact(m: nat)
    requires
        m < INF_MAG,
    ensures
        round_ratio(units_of(m), 1) == m,
{
    lemma_parts(m);
    lemma_p52_p53();
    let e = exp_of(m);
    let q = sig_of(m);
    lemma_pow2_pos(e);
    lemma_pow2_adds(53, e);
    assert(q * pow2(e) < pow2(53) * pow2(e)) by (nonlinear_arith)
        requires
            q < pow2(53),
            pow2(e) > 0,
    ;
    if e > 0 {
        lemma_pow2_adds(52, e);
        assert(q * pow2(e) >= pow2(52) * pow2(e)) by (nonlinear_arith)
            requires
                q >= pow2(52),
        ;
    }
    lemma_binade(q * pow2(e), 1, e);
    lemma_rne_exact(q, pow2(e));
}

/// A second term far below the first leaves the rounded sum or difference at the first.
pub proof fn lemma_round_far(m: nat, small: nat)
    requires
        m < INF_MAG,
        exp_of(m) >= 2,
        small < pow2((exp_of(m) - 2) as nat),
    ensures
        round_ratio(units_of(m) + small, 1) == m,
        round_ratio((units_of(m) - small) as nat, 1) == m,
        units_of(m) > small,
{
    lemma_parts(m);
    lemma_p52_p53();
    let e = exp_of(m);
    let q = sig_of(m);
    let u = pow2(e);
    lemma_pow2_pos(e);
    lemma_pow2_unfold(e);
    lemma_pow2_unfold((e - 1) as nat);
    lemma_pow2_adds(53, e);
    lemma_pow2_adds(52, e);
    assert(q * u <= (P53 - 1) * u) by (nonlinear_arith)
        requires
            q <= P53 - 1,
    ;
    assert((P53 - 1) * u == P53 * u - u) by (nonlinear_arith);
    assert(q * u >= P52 * u) by (nonlinear_arith)
        requires
            q >= P52,
    ;
    assert(P52 * u >= u) by (nonlinear_arith);
    // the sum
    lemma_binade(q * u + small, 1, e);
    lemma_div_from(q * u + small, u, q, small);
    // the difference
    if small == 0 {
    } else if q > P52 {
        assert(q * u - small == (q - 1) * u + (u - small)) by (nonlinear_arith);
        assert((q - 1) * u >= P52 * u) by (nonlinear_arith)
            requires
                q - 1 >= P52,
        ;
        lemma_binade((q * u - small) as nat, 1, e);
        lemma_div_from((q * u - small) as nat, u, (q - 1) as nat, (u - small) as nat);
    } else {
        let h = pow2((e - 1) as nat);
        let f = (e - 1) as nat;
        lemma_pow2_adds(53, f);
        lemma_pow2_adds(52, f);
        assert(q * u - small == (P53 - 1) * h + (h - small)) by (nonlinear_arith)
            requires
                q == P52,
                u == 2 * h,
        ;
        assert((P53 - 1) * h == P53 * h - h) by (nonlinear_arith);
        assert(P53 * h == 2 * (P52 * h)) by (nonlinear_arith);
        assert(P52 * h >= h) by (nonlinear_arith);
        lemma_binade((q * u - small) as nat, 1, f);
        lemma_div_from((q * u - small) as nat, h, (P53 - 1) as nat, (h - small) as nat);
        assert(f * P52 + P52 == e * P52) by (nonlinear_arith)
            requires
                f == e - 1,
        ;
    }
}

/// Equal quotients are rounded alike.
pub proof fn lemma_round_cross(n1: nat, d1: nat, n2: nat, d2: nat)
    requires
        d1 > 0,
        d2 > 0,
        n1 * d2 == n2 * d1,
    ensures
        round_ratio(n1, d1) == round_ratio(n2, d2),
{
    lemma_round_scale(n1, d1, d2);
    lemma_round_scale(n2, d2, d1);
    assert(d1 * d2 == d2 * d1) by (nonlinear_arith);
}

/// A quotient with many bits is rounded by its integer part and by whether there is a rest.
pub proof fn lemma_rne_sticky(a: nat, b: nat, k: nat, r: nat, h: nat)
    requires
        a == k * b + r,
        r < b,
        h > 0,
    ensures
        rne_div(a, b * (2 * h)) == rne_div(
            2 * k + if r > 0 {
                1nat
            } else {
                0
            },
            2 * (2 * h),
        ),
{
    let g = 2 * h;
    let s: nat = if r > 0 {
        1
    } else {
        0
    };
    let q = k / g;
    let m = k % g;
    lemma_fundamental_div_mod(k as int, g as int);
    lemma_mod_bound(k as int, g as int);
    assert(a == q * (b * g) + (m * b + r)) by (nonlinear_arith)
        requires
            a == k * b + r,
            k == g * q + m,
    ;
    assert(m * b + r < b * g) by (nonlinear_arith)
        requires
            m <= g - 1,
            r < b,
    ;
    lemma_div_from(a, b * g, q, m * b + r);
    assert(2 * k + s == q * (2 * g) + (2 * m + s)) by (nonlinear_arith)
        requires
            k == g * q + m,
    ;
    lemma_div_from(2 * k + s, 2 * g, q, 2 * m + s);
    assert(b * g == 2 * (b * h)) by (nonlinear_arith)
        requires
            g == 2 * h,
    ;
    if m < h {
        assert(m * b + r < b * h) by (nonlinear_arith)
            requires
                m <= h - 1,
                r < b,
        ;
    } else if m > h {
        assert(m * b >= b * h + b) by (nonlinear_arith)
            requires
                m >= h + 1,
        ;
    } else {
        assert(m * b == b * h) by (nonlinear_arith)
            requires
                m == h,
        ;
    }
}

/// A quotient of at least 55 bits is rounded by its integer part and by whether there is a rest,
/// at every power-of-two scale.
pub proof fn lemma_round_sticky(a: nat, b: nat, k: nat, r: nat, i: nat, j: nat)
    requires
        a == k * b + r,
        r < b,
        k >= pow2(54),
    ensures
        round_ratio(a * pow2(i), b * pow2(j)) == round_ratio(
            (2 * k + if r > 0 {
                1nat
            } else {
                0
            }) * pow2(i),
            2 * pow2(j),
        ),
{
    let s: nat = if r > 0 {
        1
    } else {
        0
    };
    let num = a * pow2(i);
    let den = b * pow2(j);
    let n = 2 * k + s;
    lemma_pow2_pos(i);
    lemma_pow2_pos(j);
    assert(den > 0) by (nonlinear_arith)
        requires
            den == b * pow2(j),
            b > 0,
            pow2(j) > 0,
    ;
    let e = binade(num, den);
    lemma_binade_bounds(num, den);
    // the threshold 2^(j + e + 53 - i) is an integer above 2^54
    if j + e + 53 <= i + 54 {
        lemma_pow2_le(j + e + 53, i + 54);
        lemma_pow2_adds(j, e + 53);
        lemma_pow2_adds(i, 54);
        assert(k * b * pow2(i) <= num) by (nonlinear_arith)
            requires
                num == (k * b + r) * pow2(i),
                r >= 0,
        ;
        assert(k * b * pow2(i) >= b * (pow2(i) * pow2(54))) by (nonlinear_arith)
            requires
                k >= pow2(54),
        ;
        assert(den * pow2(e + 53) == b * (pow2(j) * pow2(e + 53))) by (nonlinear_arith)
            requires
                den == b * pow2(j),
        ;
        assert(b * (pow2(j) * pow2(e + 53)) <= b * (pow2(i) * pow2(54))) by (nonlinear_arith)
            requires
                pow2(j) * pow2(e + 53) <= pow2(i) * pow2(54),
        ;
        assert(false);
    }
    let w = (j + e + 53 - i) as nat;
    lemma_sticky_side(a, b, k, r, i, j, e + 53, w);
    if e > 0 {
        lemma_sticky_side(a, b, k, r, i, j, (e + 52) as nat, (w - 1) as nat);
    }
    lemma_binade(n * pow2(i), 2 * pow2(j), e);
    // the quotients at exponent e
    let g = (w - 53) as nat;
    lemma_pow2_unfold(g);
    let h = pow2((g - 1) as nat);
    lemma_pow2_pos((g - 1) as nat);
    lemma_rne_sticky(a, b, k, r, h);
    lemma_pow2_pos(e);
    lemma_pow2_adds(j, e);
    lemma_pow2_adds(g, i);
    assert(den * pow2(e) == (b * pow2(g)) * pow2(i)) by (nonlinear_arith)
        requires
            den == b * pow2(j),
            pow2(j) * pow2(e) == pow2(g) * pow2(i),
    ;
    assert(2 * pow2(j) * pow2(e) == (2 * pow2(g)) * pow2(i)) by (nonlinear_arith)
        requires
            pow2(j) * pow2(e) == pow2(g) * pow2(i),
    ;
    lemma_pow2_pos(g);
    assert(b * pow2(g) > 0) by (nonlinear_arith)
        requires
            b > 0,
            pow2(g) > 0,
    ;
    lemma_rne_scale(a, b * pow2(g), pow2(i));
    lemma_rne_scale(n, 2 * pow2(g), pow2(i));
}

/// A quotient and its integer part with a sticky bit lie on the same side of a power of two.
proof fn lemma_sticky_side(a: nat, b: nat, k: nat, r: nat, i: nat, j: nat, f: nat, w: nat)
    requires
        a == k * b + r,
        r < b,
        j + f == w + i,
    ensures
        (a * pow2(i) < b * pow2(j) * pow2(f)) == ((2 * k + if r > 0 {
            1nat
        } else {
            0
        }) * pow2(i) < 2 * pow2(j) * pow2(f)),
{
    let s: nat = if r > 0 {
        1
    } else {
        0
    };
    let n = 2 * k + s;
    let t = pow2(w);
    let p = pow2(i);
    lemma_pow2_adds(j, f);
    lemma_pow2_adds(w, i);
    lemma_pow2_pos(i);
    let c = pow2(j) * pow2(f);
    assert(b * pow2(j) * pow2(f) == (b * t) * p) by (nonlinear_arith)
        requires
            pow2(j) * pow2(f) == t * p,
    ;
    assert(2 * pow2(j) * pow2(f) == (2 * t) * p) by (nonlinear_arith)
        requires
            pow2(j) * pow2(f) == t * p,
    ;
    assert((a * p < (b * t) * p) == (a < b * t)) by (nonlinear_arith)
        requires
            p > 0,
    ;
    assert((n * p < (2 * t) * p) == (n < 2 * t)) by (nonlinear_arith)
        requires
            p > 0,
    ;
    if k < t {
        assert(k * b + r < b * t) by (nonlinear_arith)
            requires
                k <= t - 1,
                r < b,
        ;
    } else {
        assert(k * b >= b * t) by (nonlinear_arith)
            requires
                k >= t,
        ;
    }
}

/// A significand of at most 53 bits at an exponent in range is a number: it is rounded to itself.
pub proof fn lemma_round_representable(q: nat, e: nat)
    requires
        q < P53,
        e <= 2045,
    ensures
        round_ratio(q * pow2(e), 1) < INF_MAG,
        units_of(round_ratio(q * pow2(e), 1)) == q * pow2(e),
{
    let x = q * pow2(e);
    let b = binade(x, 1);
    lemma_p52_p53();
    lemma_binade_bounds(x, 1);
    lemma_pow2_pos(e);
    if b > e {
        lemma_pow2_le(53 + e, (b + 52) as nat);
        lemma_pow2_adds(53, e);
        assert(x < pow2(53) * pow2(e)) by (nonlinear_arith)
            requires
                x == q * pow2(e),
                q < pow2(53),
                pow2(e) > 0,
        ;
    }
    let k = (e - b) as nat;
    let s = q * pow2(k);
    lemma_pow2_adds(k, b);
    lemma_pow2_pos(b);
    assert(x == s * pow2(b)) by (nonlinear_arith)
        requires
            x == q * pow2(e),
            s == q * pow2(k),
            pow2(k) * pow2(b) == pow2(e),
    ;
    lemma_rne_exact(s, pow2(b));
    lemma_pow2_adds(53, b);
    assert(s < P53) by (nonlinear_arith)
        requires
            s * pow2(b) < pow2(53) * pow2(b),
            pow2(b) > 0,
            P53 == pow2(53),
    ;
    if b > 0 {
        lemma_pow2_adds(52, b);
        assert(s >= P52) by (nonlinear_arith)
            requires
                s * pow2(b) >= pow2(52) * pow2(b),
                pow2(b) > 0,
                P52 == pow2(52),
        ;
    }
    let m = b * (P52 as nat) + s;
    lemma_parts_unique(m, b, s);
    assert(m < INF_MAG) by (nonlinear_arith)
        requires
            m == b * P52 + s,
            b <= 2045,
            s < P53,
            P53 == 2 * P52,
            INF_MAG == 2047 * P52,
            P52 > 0,
    ;
}

}
