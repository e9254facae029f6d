//! The square root of a binary64 number.
use vstd::prelude::*;
use vstd::arithmetic::power2::{lemma_pow2_pos, lemma_pow2_unfold, lemma_pow2_adds, pow2};
use crate::bits::{bit_len, lemma_pow2_le, lemma_pow2_unfold_zero, lemma_shl};
use crate::double::{nan, signed, split, Double, NAN_BITS};
use crate::rounding::{
    lemma_p52_p53,
    lemma_parts,
    lemma_round_cross,
    lemma_round_sticky,
    round_ratio,
    round_scaled,
    units_of,
    INF_MAG,
    P52,
    UNIT_EXP,
};

verus! {

/// Whether `s` is the integer part of the square root of `n`.
pub open spec fn is_int_root(s: nat, n: nat) -> bool {
    s * s <= n < (s + 1) * (s + 1)
}

/// The integer part of the square root of `n`.
pub open spec fn int_root(n: nat) -> nat {
    choose|s: nat| is_int_root(s, n)
}

/// The magnitude pattern nearest to the square root of `n` units: the root has so many bits that
/// its integer part, and whether there is a rest, decide the rounding.
pub open spec fn round_root(n: nat) -> nat {
    let s = int_root(n);
    round_ratio(
        2 * s + if s * s < n {
            1nat
        } else {
            0
        },
        2,
    )
}

impl Double {
    /// The square root.
    pub open spec fn root(self) -> Double {
        if self.is_nan() || (self.negative() && !self.is_zero()) {
            nan()
        } else if self.is_zero() || self.is_infinite() {
            self
        } else {
            signed(false, round_root(self.units() * pow2(UNIT_EXP as nat)))
        }
    }

    /// The square root, rounded to nearest.
    pub fn sqrt(self) -> (r: Double)
        ensures
            r == self.root(),
    {
        let m: u64 = self.mag_bits();
        if m > INF_MAG {
            return Double { bits: NAN_BITS };
        }
        if m == 0 {
            return self;
        }
        if self.sign_bit() {
            return Double { bits: NAN_BITS };
        }
        if m == INF_MAG {
            return self;
        }
        let bits: u64 = sqrt_finite(m);
        Double::with_sign(false, bits)
    }
}

/// There is one integer part only.
pub proof fn lemma_int_root_unique(s: nat, t: nat, n: nat)
    requires
        is_int_root(s, n),
        is_int_root(t, n),
    ensures
        s == t,
{
    if s < t {
        assert((s + 1) * (s + 1) <= t * t) by (nonlinear_arith)
            requires
                s + 1 <= t,
        ;
    }
    if t < s {
        assert((t + 1) * (t + 1) <= s * s) by (nonlinear_arith)
            requires
                t + 1 <= s,
        ;
    }
}

/// Every natural number has an integer root.
pub proof fn lemma_int_root_exists(n: nat) -> (s: nat)
    ensures
        is_int_root(s, n),
        int_root(n) == s,
    decreases n,
{
    let s = lemma_some_root(n);
    lemma_int_root_unique(s, int_root(n), n);
    s
}

/// Some integer root of a natural number.
proof fn lemma_some_root(n: nat) -> (s: nat)
    ensures
        is_int_root(s, n),
    decreases n,
{
    if n == 0 {
        assert(is_int_root(0, 0)) by (nonlinear_arith);
        0
    } else {
        let s = lemma_some_root((n - 1) as nat);
        if n < (s + 1) * (s + 1) {
            s
        } else {
            let c = s + 1;
            assert(c * c <= n && n < (c + 1) * (c + 1)) by (nonlinear_arith)
                requires
                    c == s + 1,
                    n - 1 < (s + 1) * (s + 1),
                    n >= (s + 1) * (s + 1),
            ;
            c
        }
    }
}

/// The integer part of the square root of a word below `2^126`.
fn root_u128(w: u128) -> (r: u64)
    requires
        w < 0x4000_0000_0000_0000_0000_0000_0000_0000,
    ensures
        is_int_root(r as nat, w as nat),
        r < 0x8000_0000_0000_0000,
{
    let mut r: u64 = 0;
    let mut k: u32 = 63;
    let mut p: u64 = 0x8000_0000_0000_0000;
    proof {
        vstd::arithmetic::power2::lemma2_to64();
        vstd::arithmetic::power2::lemma2_to64_rest();
    }
    while k > 0
        invariant
            k <= 63,
            p == pow2(k as nat),
            r + p <= 0x8000_0000_0000_0000,
            r * r <= w,
            w < (r + p) * (r + p),
        decreases k,
    {
        proof {
            lemma_pow2_unfold(k as nat);
        }
        p = p / 2;
        k = k - 1;
        let c: u64 = r + p;
        proof {
            assert(c * c <= 0x4000_0000_0000_0000_0000_0000_0000_0000) by (nonlinear_arith)
                requires
                    c <= 0x8000_0000_0000_0000,
            ;
        }
        if (c as u128) * (c as u128) <= w {
            r = c;
        }
    }
    proof {
        lemma_pow2_unfold_zero();
    }
    r
}

/// The magnitude pattern of the square root of a finite magnitude.
fn sqrt_finite(m: u64) -> (bits: u64)
    requires
        0 < m < INF_MAG,
    ensures
        bits <= INF_MAG,
        bits == round_root(units_of(m as nat) * pow2(UNIT_EXP as nat)),
{
    let (e, q): (u64, u64) = split(m);
    let l: u32 = bit_len(q as u128);
    proof {
        lemma_parts(m as nat);
        if q == 0 {
            assert(e * P52 == 0);
        }
        lemma_p52_p53();
        if l > 53 {
            lemma_pow2_le(53, (l - 1) as nat);
        }
    }
    // an even exponent is left over
    let up: u32 = if (e + 1074 + l as u64) % 2 == 0 {
        126 - l
    } else {
        125 - l
    };
    proof {
        lemma_pow2_adds(up as nat, l as nat);
        lemma_pow2_adds(up as nat, (l - 1) as nat);
        lemma_pow2_pos(up as nat);
        lemma_pow2_le((up + l) as nat, 126);
        lemma_pow2_le(124, (up + l - 1) as nat);
        vstd::arithmetic::power2::lemma2_to64();
        vstd::arithmetic::power2::lemma2_to64_rest();
        lemma_pow2_adds(63, 63);
        lemma_pow2_adds(62, 62);
        assert(q * pow2(up as nat) < pow2(126)) by (nonlinear_arith)
            requires
                q < pow2(l as nat),
                pow2(up as nat) > 0,
                pow2(126) >= pow2(up as nat) * pow2(l as nat),
        ;
        assert(q * pow2(up as nat) >= pow2(124)) by (nonlinear_arith)
            requires
                q >= pow2((l - 1) as nat),
                pow2(124) <= pow2(up as nat) * pow2((l - 1) as nat),
        ;
        lemma_shl(q as u128, up);
    }
    let wide: u128 = (q as u128) << up;
    let s: u64 = root_u128(wide);
    proof {
        assert(s * s <= 0x4000_0000_0000_0000_0000_0000_0000_0000) by (nonlinear_arith)
            requires
                s < 0x8000_0000_0000_0000,
        ;
        assert(s >= pow2(62)) by (nonlinear_arith)
            requires
                wide < (s + 1) * (s + 1),
                wide >= pow2(62) * pow2(62),
        ;
        lemma_pow2_le(54, 62);
    }
    let rest: bool = (s as u128) * (s as u128) < wide;
    let n: u128 = if rest {
        2 * (s as u128) + 1
    } else {
        2 * (s as u128)
    };
    let h: i32 = (e as i32 + 1074 - up as i32) / 2;
    let bits: u64 = round_scaled(n, h - 1);
    proof {
        let p = pow2(h as nat);
        lemma_pow2_pos(h as nat);
        lemma_pow2_adds(h as nat, h as nat);
        let full = units_of(m as nat) * pow2(UNIT_EXP as nat);
        lemma_pow2_adds(e as nat, UNIT_EXP as nat);
        lemma_pow2_adds(up as nat, (h + h) as nat);
        assert(full == wide * (p * p)) by (nonlinear_arith)
            requires
                full == q * pow2(e as nat) * pow2(UNIT_EXP as nat),
                wide == q * pow2(up as nat),
                pow2(e as nat) * pow2(UNIT_EXP as nat) == pow2(up as nat) * (p * p),
        ;
        let t = lemma_int_root_exists(full);
        lemma_root_scale(wide as nat, s as nat, full, t, p);
        let extra: nat = if t * t < full {
            1
        } else {
            0
        };
        let a = 2 * t + extra;
        assert(s * (2 * p) == 2 * (s * p) && (s + 1) * p == s * p + p) by (nonlinear_arith);
        let r = (a - s * (2 * p)) as nat;
        assert(r > 0 <==> rest);
        lemma_pow2_unfold_zero();
        lemma_round_sticky(a, 2 * p, s as nat, r, h as nat, 0);
        assert((a * p) * 2 == a * (2 * p * 1)) by (nonlinear_arith);
        lemma_round_cross((a * p) as nat, (2 * p * 1) as nat, a, 2);
        lemma_pow2_unfold(h as nat);
        let w = pow2((h - 1) as nat);
        assert((n * p) * 1 == (n * w) * (2 * 1)) by (nonlinear_arith)
            requires
                p == 2 * w,
        ;
        lemma_round_cross((n * p) as nat, 2 * 1, (n * w) as nat, 1);
    }
    bits
}

/// The integer root of `wide * p^2` lies next above `p` times the integer root of `wide`, and is
/// exact where that one is.
proof fn lemma_root_scale(wide: nat, s: nat, full: nat, t: nat, p: nat)
    requires
        p > 0,
        is_int_root(s, wide),
        is_int_root(t, full),
        full == wide * (p * p),
    ensures
        s * p <= t < (s + 1) * p,
        (t == s * p && t * t == full) <==> s * s == wide,
{
    assert((s * p) * (s * p) == (s * s) * (p * p)) by (nonlinear_arith);
    assert((s * s) * (p * p) <= wide * (p * p)) by (nonlinear_arith)
        requires
            s * s <= wide,
    ;
    let c = s + 1;
    assert((c * p) * (c * p) == (c * c) * (p * p)) by (nonlinear_arith);
    assert((c * c) * (p * p) > wide * (p * p)) by (nonlinear_arith)
        requires
            c * c > wide,
            p > 0,
    ;
    if t < s * p {
        assert((t + 1) * (t + 1) <= (s * p) * (s * p)) by (nonlinear_arith)
            requires
                t + 1 <= s * p,
        ;
        assert(false);
    }
    if t >= c * p {
        assert(t * t >= (c * p) * (c * p)) by (nonlinear_arith)
            requires
                t >= c * p,
        ;
        assert(false);
    }
    if s * s == wide {
        if t > s * p {
            assert(t * t > (s * p) * (s * p)) by (nonlinear_arith)
                requires
                    t > s * p,
            ;
        }
    }
    if t == s * p && t * t == full {
        assert(s * s == wide) by (nonlinear_arith)
            requires
                (s * s) * (p * p) == wide * (p * p),
                p > 0,
        ;
    }
}

}
