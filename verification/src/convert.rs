//! Conversions between binary64 numbers and integers, and the operations that go through them.
use vstd::prelude::*;
use vstd::arithmetic::power2::{lemma_pow2_pos, lemma_pow2_unfold, lemma_pow2_adds, pow2};
use vstd::arithmetic::div_mod::{lemma_fundamental_div_mod, lemma_mod_bound};
use crate::bits::{lemma_pow2_le, lemma_pow2_unfold_zero, lemma_shl, lemma_shr};
use crate::double::{lemma_signed_parts, nan, signed, split, Double, NAN_BITS};
use crate::rounding::{
    exp_of,
    lemma_div_from,
    lemma_p52_p53,
    lemma_parts,
    lemma_round_exact,
    lemma_units_monotone,
    round_ratio,
    round_scaled,
    sig_of,
    units_of,
    INF_MAG,
    P52,
    P53,
    UNIT_EXP,
};

verus! {

/// The number nearest to the natural number `n`.
pub open spec fn of_nat(n: nat) -> Double {
    signed(false, round_ratio(n * pow2(UNIT_EXP as nat), 1))
}

/// The number `2^n`: zero below the smallest number, infinite above the largest.
pub open spec fn power_of_two(n: int) -> Double {
    if n < -1074 {
        signed(false, 0)
    } else {
        signed(false, round_ratio(pow2((n + 1074) as nat), 1))
    }
}

/// The integer quotient that lies next below (or at) `v` units.
pub open spec fn floor_units(v: int) -> int {
    v / (pow2(UNIT_EXP as nat) as int)
}

impl Double {
    /// The integer part, cut to the range `0..=max`; zero for what is not a number.
    pub open spec fn saturated(self, max: nat) -> nat {
        if self.is_nan() || self.negative() {
            0
        } else if self.is_infinite() || floor_units(self.value()) > max {
            max
        } else {
            floor_units(self.value()) as nat
        }
    }

    /// The largest integer not above the number.
    pub open spec fn floored(self) -> Double {
        if self.is_nan() {
            nan()
        } else if self.is_infinite() {
            self
        } else {
            signed(
                self.negative(),
                round_ratio(
                    crate::double::abs_int(floor_units(self.value())) * pow2(UNIT_EXP as nat),
                    1,
                ),
            )
        }
    }

    /// The smallest integer not below the number.
    pub open spec fn ceiled(self) -> Double {
        self.negated().floored().negated()
    }

    /// The rest of the division of `self` by `other`, with the sign of `self`.
    pub open spec fn remainder(self, other: Double) -> Double {
        if self.is_nan() || other.is_nan() || self.is_infinite() || other.is_zero() {
            nan()
        } else if other.is_infinite() {
            self
        } else {
            signed(self.negative(), round_ratio(self.units() % other.units(), 1))
        }
    }

    /// The number nearest to `n`.
    pub fn from_u64(n: u64) -> (r: Double)
        ensures
            r == of_nat(n as nat),
    {
        Double::with_sign(false, round_scaled(n as u128, 1074))
    }

    /// The number `2^n`.
    pub fn pow2(n: i32) -> (r: Double)
        ensures
            r == power_of_two(n as int),
    {
        if n < -1074 {
            return Double { bits: 0 };
        }
        let m: i32 = if n > 1024 {
            1024
        } else {
            n
        };
        let bits: u64 = round_scaled(1, m + 1074);
        proof {
            assert(1 * pow2((m + 1074) as nat) == pow2((m + 1074) as nat));
            if n > 1024 {
                lemma_huge_power((n + 1074) as nat);
                lemma_huge_power(2098);
            }
        }
        Double::with_sign(false, bits)
    }

    /// The integer part, cut to the range `0..=max`.
    pub fn to_int(self, max: u64) -> (r: u64)
        ensures
            r == self.saturated(max as nat),
            r <= max,
    {
        let m: u64 = self.mag_bits();
        if m > INF_MAG || self.sign_bit() {
            return 0;
        }
        if m == INF_MAG {
            return max;
        }
        let (k, _exact): (u128, bool) = int_part(m);
        if k > max as u128 {
            max
        } else {
            k as u64
        }
    }

    /// The largest integer not above the number.
    pub fn floor(self) -> (r: Double)
        ensures
            r == self.floored(),
    {
        let m: u64 = self.mag_bits();
        let negative: bool = self.sign_bit();
        if m > INF_MAG {
            return Double { bits: NAN_BITS };
        }
        if m == INF_MAG {
            return self;
        }
        let (e, _q): (u64, u64) = split(m);
        let ghost u = pow2(UNIT_EXP as nat);
        proof {
            lemma_pow2_pos(UNIT_EXP as nat);
        }
        if e >= 1074 {
            proof {
                // the number is an integer already
                let f = (e - 1074) as nat;
                lemma_pow2_adds(f, UNIT_EXP as nat);
                let k = sig_of(m as nat) * pow2(f);
                assert(units_of(m as nat) == k * u) by (nonlinear_arith)
                    requires
                        units_of(m as nat) == sig_of(m as nat) * (pow2(f) * u),
                        k == sig_of(m as nat) * pow2(f),
                ;
                lemma_floor_exact(k as int, negative);
                lemma_round_exact(m as nat);
                lemma_signed_parts(self);
            }
            return self;
        }
        let (k, exact): (u128, bool) = int_part(m);
        proof {
            lemma_int_part_small(m as nat, units_of(m as nat) / u);
            lemma_floor_signed(units_of(m as nat), k as nat, exact, negative);
        }
        let n: u128 = if negative && !exact {
            k + 1
        } else {
            k
        };
        let bits: u64 = round_scaled(n, 1074);
        Double::with_sign(negative, bits)
    }

    /// The smallest integer not below the number.
    pub fn ceil(self) -> (r: Double)
        ensures
            r == self.ceiled(),
    {
        self.neg().floor().neg()
    }

    /// The rest of the division of `self` by `other`, with the sign of `self`.
    pub fn rem(self, other: Double) -> (r: Double)
        ensures
            r == self.remainder(other),
    {
        let a: u64 = self.mag_bits();
        let b: u64 = other.mag_bits();
        if a >= INF_MAG || b > INF_MAG || b == 0 {
            return Double { bits: NAN_BITS };
        }
        if b == INF_MAG {
            return self;
        }
        let bits: u64 = rem_finite(a, b);
        Double::with_sign(self.sign_bit(), bits)
    }
}

/// The integer part of a finite magnitude and whether nothing is left over; a magnitude of
/// `2^64` or more gives some integer of that size.
fn int_part(m: u64) -> (r: (u128, bool))
    requires
        m < INF_MAG,
    ensures
        r.0 <= u64::MAX ==> r.0 == units_of(m as nat) / pow2(UNIT_EXP as nat) && r.1 == (units_of(
            m as nat,
        ) % pow2(UNIT_EXP as nat) == 0),
        r.0 > u64::MAX ==> units_of(m as nat) / pow2(UNIT_EXP as nat) > u64::MAX,
{
    let (e, q): (u64, u64) = split(m);
    let ghost u = pow2(UNIT_EXP as nat);
    proof {
        lemma_pow2_pos(UNIT_EXP as nat);
        lemma_p52_p53();
    }
    if e >= 1074 {
        let s: u64 = e - 1074;
        proof {
            lemma_pow2_adds(s as nat, UNIT_EXP as nat);
            lemma_pow2_pos(s as nat);
            let k = q * pow2(s as nat);
            assert(units_of(m as nat) == k * u) by (nonlinear_arith)
                requires
                    units_of(m as nat) == q * (pow2(s as nat) * u),
                    k == q * pow2(s as nat),
            ;
            lemma_div_from(units_of(m as nat), u, k as nat, 0);
        }
        if s >= 64 {
            proof {
                vstd::arithmetic::power2::lemma2_to64_rest();
                lemma_pow2_le(64, s as nat);
                assert(q * pow2(s as nat) >= pow2(64)) by (nonlinear_arith)
                    requires
                        q >= 1,
                        pow2(s as nat) >= pow2(64),
                ;
            }
            (0x1_0000_0000_0000_0000u128, true)
        } else {
            proof {
                vstd::arithmetic::power2::lemma2_to64_rest();
                lemma_pow2_le(s as nat, 64);
                assert(q * pow2(s as nat) <= P53 * 0x1_0000_0000_0000_0000) by (nonlinear_arith)
                    requires
                        q <= P53,
                        pow2(s as nat) <= 0x1_0000_0000_0000_0000,
                ;
                lemma_shl(q as u128, s as u32);
            }
            ((q as u128) << (s as u32), true)
        }
    } else {
        let s: u64 = 1074 - e;
        proof {
            lemma_pow2_adds(s as nat, e as nat);
            lemma_pow2_pos(s as nat);
            lemma_pow2_pos(e as nat);
            lemma_fundamental_div_mod(q as int, pow2(s as nat) as int);
            lemma_mod_bound(q as int, pow2(s as nat) as int);
            let k = q as nat / pow2(s as nat);
            let r = q as nat % pow2(s as nat);
            assert(q * pow2(e as nat) == k * u + r * pow2(e as nat)) by (nonlinear_arith)
                requires
                    q == pow2(s as nat) * k + r,
                    u == pow2(s as nat) * pow2(e as nat),
            ;
            assert(r * pow2(e as nat) < u) by (nonlinear_arith)
                requires
                    r < pow2(s as nat),
                    u == pow2(s as nat) * pow2(e as nat),
                    pow2(e as nat) > 0,
            ;
            lemma_div_from(units_of(m as nat), u, k, r * pow2(e as nat));
            assert((r * pow2(e as nat) == 0) == (r == 0)) by (nonlinear_arith)
                requires
                    pow2(e as nat) > 0,
            ;
        }
        if s >= 64 {
            proof {
                lemma_pow2_le(64, s as nat);
                lemma_pow2_le(53, 64);
                lemma_div_from(q as nat, pow2(s as nat), 0, q as nat);
            }
            (0, q == 0)
        } else {
            let w: u128 = q as u128;
            let k: u128 = w >> (s as u32);
            proof {
                lemma_shr(w, s as u32);
                assert(pow2(s as nat) * k <= q) by {
                    lemma_fundamental_div_mod(q as int, pow2(s as nat) as int);
                }
                assert(k * pow2(s as nat) == pow2(s as nat) * k) by (nonlinear_arith);
                assert(k <= q) by (nonlinear_arith)
                    requires
                        pow2(s as nat) * k <= q,
                        pow2(s as nat) >= 1,
                ;
                lemma_shl(k, s as u32);
            }
            (k, (k << (s as u32)) == w)
        }
    }
}

/// A magnitude below `2^53` has an integer part below `2^53`.
proof fn lemma_int_part_small(m: nat, k: nat)
    requires
        m < INF_MAG,
        exp_of(m) < 1074,
        k == units_of(m) / pow2(UNIT_EXP as nat),
    ensures
        k < P53,
{
    lemma_parts(m);
    let u = pow2(UNIT_EXP as nat);
    let e = exp_of(m);
    lemma_pow2_pos(UNIT_EXP as nat);
    lemma_pow2_le(e, UNIT_EXP as nat);
    lemma_fundamental_div_mod(units_of(m) as int, u as int);
    lemma_mod_bound(units_of(m) as int, u as int);
    assert(k < P53) by (nonlinear_arith)
        requires
            sig_of(m) * pow2(e) == u * k + units_of(m) % u,
            units_of(m) % u >= 0,
            sig_of(m) < P53,
            pow2(e) <= u,
            u > 0,
    ;
}

/// The floor of an integer number of ones.
proof fn lemma_floor_exact(k: int, negative: bool)
    requires
        k >= 0,
    ensures
        floor_units(k * pow2(UNIT_EXP as nat)) == k,
        floor_units(-(k * pow2(UNIT_EXP as nat))) == -k,
{
    let u = pow2(UNIT_EXP as nat) as int;
    lemma_pow2_pos(UNIT_EXP as nat);
    vstd::arithmetic::div_mod::lemma_div_by_multiple(k, u);
    assert(-(k * u) == (-k) * u + 0) by (nonlinear_arith);
    vstd::arithmetic::div_mod::lemma_fundamental_div_mod_converse(-(k * u), u, -k, 0);
}

/// The floor of a signed magnitude, from the integer part of the magnitude.
proof fn lemma_floor_signed(n: nat, k: nat, exact: bool, negative: bool)
    requires
        k == n / pow2(UNIT_EXP as nat),
        exact == (n % pow2(UNIT_EXP as nat) == 0),
    ensures
        !negative ==> floor_units(n as int) == k,
        negative && exact ==> floor_units(-(n as int)) == -k,
        negative && !exact ==> floor_units(-(n as int)) == -(k + 1),
{
    let u = pow2(UNIT_EXP as nat) as int;
    let r = n as int % u;
    lemma_pow2_pos(UNIT_EXP as nat);
    lemma_fundamental_div_mod(n as int, u);
    lemma_mod_bound(n as int, u);
    if exact {
        assert(-(n as int) == (-k) * u + 0) by (nonlinear_arith)
            requires
                n == u * k + r,
                r == 0,
        ;
        vstd::arithmetic::div_mod::lemma_fundamental_div_mod_converse(-(n as int), u, -k, 0);
    } else {
        assert(-(n as int) == (-(k + 1)) * u + (u - r)) by (nonlinear_arith)
            requires
                n == u * k + r,
        ;
        vstd::arithmetic::div_mod::lemma_fundamental_div_mod_converse(-(n as int), u, -(k + 1), u - r);
    }
}

/// A power of two of `2^2098` units or more is above every finite number.
pub proof fn lemma_huge_power(n: nat)
    requires
        n >= 2098,
    ensures
        round_ratio(pow2(n), 1) == INF_MAG,
{
    vstd::arithmetic::power2::lemma2_to64();
    lemma_pow2_pos(n);
    assert(1 * pow2(n) == pow2(n)) by (nonlinear_arith);
    crate::rounding::lemma_round_scaled(1, n as int, 1, (n - 52) as nat);
    assert((n - 52) * P52 >= 2046 * P52) by (nonlinear_arith)
        requires
            n - 52 >= 2046,
    ;
}

/// The magnitude pattern of the rest of a division of finite magnitudes.
fn rem_finite(a: u64, b: u64) -> (bits: u64)
    requires
        a < INF_MAG,
        0 < b < INF_MAG,
    ensures
        bits <= INF_MAG,
        bits == round_ratio(units_of(a as nat) % units_of(b as nat), 1),
{
    let ghost ua = units_of(a as nat);
    let ghost ub = units_of(b as nat);
    if a < b {
        proof {
            lemma_units_monotone(a as nat, b as nat);
            lemma_div_from(ua, ub, 0, ua);
            lemma_round_exact(a as nat);
        }
        return a;
    }
    let (ea, qa): (u64, u64) = split(a);
    let (eb, qb): (u64, u64) = split(b);
    proof {
        lemma_parts(a as nat);
        lemma_parts(b as nat);
        if qb == 0 {
            assert(eb * P52 == 0);
        }
        if ea < eb {
            assert((ea + 1) * P52 <= eb * P52) by (nonlinear_arith)
                requires
                    ea + 1 <= eb,
            ;
            assert((ea + 1) * P52 == ea * P52 + P52) by (nonlinear_arith);
            assert(false);
        }
    }
    let mut r: u64 = qa % qb;
    let mut i: u64 = eb;
    proof {
        lemma_pow2_unfold_zero();
        assert(qa * pow2(0) == qa) by (nonlinear_arith)
            requires
                pow2(0) == 1,
        ;
    }
    while i < ea
        invariant
            eb <= i <= ea,
            ea <= 2045,
            0 < qb < P53,
            r < qb,
            r == (qa * pow2((i - eb) as nat)) as nat % (qb as nat),
        decreases ea - i,
    {
        proof {
            let n = (qa * pow2((i - eb) as nat)) as nat;
            lemma_pow2_unfold((i + 1 - eb) as nat);
            assert(qa * pow2((i + 1 - eb) as nat) == 2 * n) by (nonlinear_arith)
                requires
                    pow2((i + 1 - eb) as nat) == 2 * pow2((i - eb) as nat),
                    n == qa * pow2((i - eb) as nat),
            ;
            vstd::arithmetic::div_mod::lemma_mul_mod_noop_right(2, n as int, qb as int);
        }
        r = (2 * r) % qb;
        i = i + 1;
    }
    let bits: u64 = round_scaled(r as u128, eb as i32);
    proof {
        let d = (ea - eb) as nat;
        let n = (qa * pow2(d)) as nat;
        let p = pow2(eb as nat);
        lemma_pow2_pos(eb as nat);
        lemma_pow2_adds(d, eb as nat);
        assert(ua == n * p) by (nonlinear_arith)
            requires
                ua == qa * (pow2(d) * p),
                n == qa * pow2(d),
        ;
        lemma_fundamental_div_mod(n as int, qb as int);
        let k = n / (qb as nat);
        assert(ua == k * ub + r * p) by (nonlinear_arith)
            requires
                ua == n * p,
                n == qb * k + r,
                ub == qb * p,
        ;
        assert(r * p < ub) by (nonlinear_arith)
            requires
                r < qb,
                ub == qb * p,
                p > 0,
        ;
        lemma_div_from(ua, ub, k, (r * p) as nat);
    }
    bits
}

}
