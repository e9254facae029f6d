//! IEEE 754 binary64 numbers as bit patterns, with correctly rounded arithmetic.
//!
//! The specification of an operation is the exact result, rounded to the nearest number with ties
//! to the even significand (see [`crate::rounding`]). An operation whose result is not a number
//! returns the quiet pattern [`NAN_BITS`].
use vstd::prelude::*;
use vstd::arithmetic::power2::{lemma_pow2_pos, lemma_pow2_unfold, lemma_pow2_adds, pow2};
use vstd::arithmetic::div_mod::lemma_fundamental_div_mod;
use crate::bits::{bit_len, lemma_pow2_le, lemma_pow2_unfold_zero, lemma_shl};
use crate::rounding::{
    exp_of,
    lemma_p52_p53,
    lemma_parts,
    lemma_round_cross,
    lemma_round_far,
    lemma_round_scale,
    lemma_round_sticky,
    lemma_units_monotone,
    round_ratio,
    round_scaled,
    sig_of,
    units_of,
    INF_MAG,
    P52,
    P53,
    UNIT_EXP,
};

verus! {

/// The weight of the sign bit.
pub const SIGN: u64 = 0x8000_0000_0000_0000;

/// The quiet pattern that stands for a result that is not a number.
pub const NAN_BITS: u64 = 0x7ff8_0000_0000_0000;

/// The pattern of `0.0`.
pub const ZERO: u64 = 0;

/// The pattern of `0.25`.
pub const QUARTER: u64 = 0x3fd0_0000_0000_0000;

/// The pattern of `0.5`.
pub const HALF: u64 = 0x3fe0_0000_0000_0000;

/// The pattern of `1.0`.
pub const ONE: u64 = 0x3ff0_0000_0000_0000;

/// The pattern of `2.0`.
pub const TWO: u64 = 0x4000_0000_0000_0000;

/// The pattern of `4.0`.
pub const FOUR: u64 = 0x4010_0000_0000_0000;

/// A binary64 number, by its bit pattern.
#[derive(Clone, Copy, PartialEq, Eq, Structural, Debug)]
pub struct Double {
    /// The sign bit, the exponent field and the fraction, from the top.
    pub bits: u64,
}

/// The number with the given bit pattern.
pub open spec fn num(bits: u64) -> Double {
    Double { bits }
}

/// The number with the given sign and magnitude pattern.
pub open spec fn signed(negative: bool, mag: nat) -> Double {
    Double {
        bits: (mag + if negative {
            SIGN as nat
        } else {
            0
        }) as u64,
    }
}

/// What is returned where there is no number to return.
pub open spec fn nan() -> Double {
    Double { bits: NAN_BITS }
}

/// The absolute value of an integer.
pub open spec fn abs_int(v: int) -> nat {
    if v < 0 {
        (-v) as nat
    } else {
        v as nat
    }
}

impl Double {
    /// Whether the sign bit is set.
    pub open spec fn negative(self) -> bool {
        self.bits >= SIGN
    }

    /// The magnitude pattern: the bits without the sign.
    pub open spec fn mag(self) -> nat {
        if self.bits >= SIGN {
            (self.bits - SIGN) as nat
        } else {
            self.bits as nat
        }
    }

    /// Whether the pattern stands for no number.
    pub open spec fn is_nan(self) -> bool {
        self.mag() > INF_MAG
    }

    /// Whether the number is infinite.
    pub open spec fn is_infinite(self) -> bool {
        self.mag() == INF_MAG
    }

    /// Whether the number is finite.
    pub open spec fn is_finite(self) -> bool {
        self.mag() < INF_MAG
    }

    /// Whether the number is a zero of either sign.
    pub open spec fn is_zero(self) -> bool {
        self.mag() == 0
    }

    /// The magnitude of a finite number, in units of `2^-1074`.
    pub open spec fn units(self) -> nat {
        units_of(self.mag())
    }

    /// The value of a finite number, in units of `2^-1074`.
    pub open spec fn value(self) -> int {
        if self.negative() {
            -(self.units() as int)
        } else {
            self.units() as int
        }
    }

    /// The place of a number in the order of all numbers, infinities included.
    pub open spec fn rank(self) -> int {
        if self.negative() {
            -(self.mag() as int)
        } else {
            self.mag() as int
        }
    }

    /// The number with the other sign.
    pub open spec fn negated(self) -> Double {
        signed(!self.negative(), self.mag())
    }

    /// The number without its sign.
    pub open spec fn magnitude(self) -> Double {
        signed(false, self.mag())
    }

    /// `self + other`.
    #[verifier::opaque]
    pub open spec fn plus(self, other: Double) -> Double {
        if self.is_nan() || other.is_nan() {
            nan()
        } else if self.is_infinite() {
            if other.is_infinite() && self.negative() != other.negative() {
                nan()
            } else {
                self
            }
        } else if other.is_infinite() {
            other
        } else {
            let v = self.value() + other.value();
            if v == 0 {
                signed(self.negative() && other.negative(), 0)
            } else {
                signed(v < 0, round_ratio(abs_int(v), 1))
            }
        }
    }

    /// `self - other`.
    pub open spec fn minus(self, other: Double) -> Double {
        self.plus(other.negated())
    }

    /// `self * other`.
    #[verifier::opaque]
    pub open spec fn times(self, other: Double) -> Double {
        let negative = self.negative() != other.negative();
        if self.is_nan() || other.is_nan() {
            nan()
        } else if self.is_infinite() || other.is_infinite() {
            if self.is_zero() || other.is_zero() {
                nan()
            } else {
                signed(negative, INF_MAG as nat)
            }
        } else {
            signed(negative, round_ratio(self.units() * other.units(), pow2(UNIT_EXP as nat)))
        }
    }

    /// `self / other`.
    #[verifier::opaque]
    pub open spec fn over(self, other: Double) -> Double {
        let negative = self.negative() != other.negative();
        if self.is_nan() || other.is_nan() {
            nan()
        } else if self.is_infinite() {
            if other.is_infinite() {
                nan()
            } else {
                signed(negative, INF_MAG as nat)
            }
        } else if other.is_infinite() {
            signed(negative, 0)
        } else if other.is_zero() {
            if self.is_zero() {
                nan()
            } else {
                signed(negative, INF_MAG as nat)
            }
        } else {
            signed(negative, round_ratio(self.units() * pow2(UNIT_EXP as nat), other.units()))
        }
    }

    /// `self < other`; false where either is not a number.
    pub open spec fn is_lt(self, other: Double) -> bool {
        !self.is_nan() && !other.is_nan() && self.rank() < other.rank()
    }

    /// `self <= other`; false where either is not a number.
    pub open spec fn is_le(self, other: Double) -> bool {
        !self.is_nan() && !other.is_nan() && self.rank() <= other.rank()
    }

    /// `self == other` as numbers: zeros of either sign are equal, and what is not a number
    /// equals nothing.
    pub open spec fn is_eq(self, other: Double) -> bool {
        !self.is_nan() && !other.is_nan() && self.rank() == other.rank()
    }

    /// The number with the given bit pattern.
    pub fn new(bits: u64) -> (r: Double)
        ensures
            r == num(bits),
    {
        Double { bits }
    }

    /// The sign bit.
    pub(crate) fn sign_bit(self) -> (r: bool)
        ensures
            r == self.negative(),
    {
        self.bits >= SIGN
    }

    /// The bits without the sign.
    pub(crate) fn mag_bits(self) -> (r: u64)
        ensures
            r == self.mag(),
            r < SIGN,
    {
        if self.bits >= SIGN {
            self.bits - SIGN
        } else {
            self.bits
        }
    }

    /// The place of the number in the order of all numbers.
    fn place(self) -> (r: i64)
        ensures
            r == self.rank(),
    {
        if self.bits >= SIGN {
            -((self.bits - SIGN) as i64)
        } else {
            self.bits as i64
        }
    }

    /// Puts a sign to a magnitude pattern.
    pub(crate) fn with_sign(negative: bool, mag: u64) -> (r: Double)
        requires
            mag < SIGN,
        ensures
            r == signed(negative, mag as nat),
    {
        if negative {
            Double { bits: mag + SIGN }
        } else {
            Double { bits: mag }
        }
    }

    /// Whether the pattern stands for no number.
    pub fn not_a_number(self) -> (r: bool)
        ensures
            r == self.is_nan(),
    {
        self.mag_bits() > INF_MAG
    }

    /// Whether the number is a zero of either sign.
    pub fn zero(self) -> (r: bool)
        ensures
            r == self.is_zero(),
    {
        self.mag_bits() == 0
    }

    /// The number with the other sign.
    pub fn neg(self) -> (r: Double)
        ensures
            r == self.negated(),
    {
        Double::with_sign(!self.sign_bit(), self.mag_bits())
    }

    /// The number without its sign.
    pub fn abs(self) -> (r: Double)
        ensures
            r == self.magnitude(),
    {
        Double::with_sign(false, self.mag_bits())
    }

    /// Whether `self < other`.
    pub fn lt(self, other: Double) -> (r: bool)
        ensures
            r == self.is_lt(other),
    {
        !self.not_a_number() && !other.not_a_number() && self.place() < other.place()
    }

    /// Whether `self <= other`.
    pub fn le(self, other: Double) -> (r: bool)
        ensures
            r == self.is_le(other),
    {
        !self.not_a_number() && !other.not_a_number() && self.place() <= other.place()
    }

    /// Whether `self == other` as numbers.
    pub fn equals(self, other: Double) -> (r: bool)
        ensures
            r == self.is_eq(other),
    {
        !self.not_a_number() && !other.not_a_number() && self.place() == other.place()
    }

    /// The sum of two numbers of which one is not finite.
    fn add_special(self, other: Double) -> (r: Double)
        requires
            !self.is_finite() || !other.is_finite(),
        ensures
            r == self.plus(other),
    {
        reveal(Double::plus);
        if self.not_a_number() || other.not_a_number() {
            Double { bits: NAN_BITS }
        } else if self.mag_bits() == INF_MAG {
            if other.mag_bits() == INF_MAG && self.sign_bit() != other.sign_bit() {
                Double { bits: NAN_BITS }
            } else {
                self
            }
        } else {
            other
        }
    }

    /// The sum of two finite numbers, the first of which is not the smaller in magnitude.
    fn add_ordered(self, other: Double) -> (r: Double)
        requires
            self.is_finite(),
            other.is_finite(),
            self.mag() >= other.mag(),
        ensures
            r == self.plus(other),
    {
        let (eh, qh): (u64, u64) = split(self.mag_bits());
        let (el, ql): (u64, u64) = split(other.mag_bits());
        let ghost mh = self.mag();
        let ghost ml = other.mag();
        proof {
            reveal(Double::plus);
            lemma_parts(mh);
            lemma_parts(ml);
            if ml < mh {
                lemma_units_monotone(ml, mh);
            }
            if eh < el {
                assert((eh + 1) * P52 <= el * P52) by (nonlinear_arith)
                    requires
                        eh + 1 <= el,
                ;
                assert((eh + 1) * P52 == eh * P52 + P52) by (nonlinear_arith);
                assert(false);
            }
        }
        let d: u64 = eh - el;
        if d >= 64 {
            proof {
                lemma_p52_p53();
                lemma_pow2_adds(53, el as nat);
                lemma_pow2_pos(el as nat);
                lemma_pow2_le(53 + el as nat, (eh - 2) as nat);
                assert(ql * pow2(el as nat) < pow2(53) * pow2(el as nat)) by (nonlinear_arith)
                    requires
                        ql < pow2(53),
                        pow2(el as nat) > 0,
                ;
                lemma_round_far(mh, other.units());
                lemma_signed_parts(self);
            }
            return self;
        }
        proof {
            lemma_p52_p53();
            lemma_pow2_adds(d as nat, el as nat);
            lemma_pow2_pos(el as nat);
            lemma_pow2_pos(d as nat);
            lemma_pow2_le(d as nat, 63);
            vstd::arithmetic::power2::lemma2_to64_rest();
            assert(qh * pow2(d as nat) <= P53 * 0x8000_0000_0000_0000) by (nonlinear_arith)
                requires
                    qh <= P53,
                    pow2(d as nat) <= 0x8000_0000_0000_0000,
            ;
            lemma_shl(qh as u128, d as u32);
            assert(qh * pow2(eh as nat) == (qh * pow2(d as nat)) * pow2(el as nat)) by (nonlinear_arith)
                requires
                    pow2(eh as nat) == pow2(d as nat) * pow2(el as nat),
            ;
        }
        let wide: u128 = (qh as u128) << (d as u32);
        let negative: bool = self.sign_bit();
        if negative == other.sign_bit() {
            let n: u128 = wide + ql as u128;
            proof {
                assert((wide + ql) * pow2(el as nat) == wide * pow2(el as nat) + ql * pow2(el as nat))
                    by (nonlinear_arith);
                assert(abs_int(self.value() + other.value()) == n * pow2(el as nat));
                lemma_nonzero_scale(n as nat, el as nat);
            }
            let bits: u64 = round_scaled(n, el as i32);
            proof {
                if n == 0 {
                    crate::rounding::lemma_round_zero(0, 1, 0);
                }
            }
            Double::with_sign(negative, bits)
        } else {
            proof {
                assert(wide >= ql) by (nonlinear_arith)
                    requires
                        wide * pow2(el as nat) >= ql * pow2(el as nat),
                        pow2(el as nat) > 0,
                ;
            }
            let n: u128 = wide - ql as u128;
            proof {
                assert((wide - ql) * pow2(el as nat) == wide * pow2(el as nat) - ql * pow2(el as nat))
                    by (nonlinear_arith);
                assert(abs_int(self.value() + other.value()) == n * pow2(el as nat));
                lemma_nonzero_scale(n as nat, el as nat);
            }
            if n == 0 {
                Double { bits: 0 }
            } else {
                let bits: u64 = round_scaled(n, el as i32);
                Double::with_sign(negative, bits)
            }
        }
    }

    /// `self + other`, rounded to nearest.
    pub fn add(self, other: Double) -> (r: Double)
        ensures
            r == self.plus(other),
    {
        let a: u64 = self.mag_bits();
        let b: u64 = other.mag_bits();
        if a >= INF_MAG || b >= INF_MAG {
            self.add_special(other)
        } else if a >= b {
            self.add_ordered(other)
        } else {
            proof {
                reveal(Double::plus);
            }
            other.add_ordered(self)
        }
    }

    /// `self - other`, rounded to nearest.
    pub fn sub(self, other: Double) -> (r: Double)
        ensures
            r == self.minus(other),
    {
        self.add(other.neg())
    }

    /// `self * other`, rounded to nearest.
    pub fn mul(self, other: Double) -> (r: Double)
        ensures
            r == self.times(other),
    {
        let a: u64 = self.mag_bits();
        let b: u64 = other.mag_bits();
        let negative: bool = self.sign_bit() != other.sign_bit();
        proof {
            reveal(Double::times);
        }
        if a >= INF_MAG || b >= INF_MAG {
            if a > INF_MAG || b > INF_MAG || a == 0 || b == 0 {
                return Double { bits: NAN_BITS };
            }
            return Double::with_sign(negative, INF_MAG);
        }
        let (ea, qa): (u64, u64) = split(a);
        let (eb, qb): (u64, u64) = split(b);
        proof {
            assert(qa * qb < 0x8000_0000_0000_0000_0000_0000_0000_0000) by (nonlinear_arith)
                requires
                    qa < P53,
                    qb < P53,
            ;
        }
        let n: u128 = (qa as u128) * (qb as u128);
        let x: i32 = (ea + eb) as i32 - 1074;
        let bits: u64 = round_scaled(n, x);
        proof {
            let k = pow2((ea + eb) as nat);
            lemma_pow2_pos((ea + eb) as nat);
            lemma_pow2_pos(UNIT_EXP as nat);
            lemma_pow2_adds(ea as nat, eb as nat);
            assert(self.units() * other.units() == n * k) by (nonlinear_arith)
                requires
                    self.units() == qa * pow2(ea as nat),
                    other.units() == qb * pow2(eb as nat),
                    n == qa * qb,
                    k == pow2(ea as nat) * pow2(eb as nat),
            ;
            if x >= 0 {
                lemma_pow2_adds(x as nat, UNIT_EXP as nat);
                lemma_pow2_pos(x as nat);
                assert(n * k == (n * pow2(x as nat)) * pow2(UNIT_EXP as nat)) by (nonlinear_arith)
                    requires
                        k == pow2(x as nat) * pow2(UNIT_EXP as nat),
                ;
                assert(1 * pow2(UNIT_EXP as nat) == pow2(UNIT_EXP as nat));
                lemma_round_scale((n * pow2(x as nat)) as nat, 1, pow2(UNIT_EXP as nat));
            } else {
                lemma_pow2_adds((-x) as nat, (ea + eb) as nat);
                lemma_pow2_pos((-x) as nat);
                lemma_round_scale(n as nat, pow2((-x) as nat), k);
            }
        }
        Double::with_sign(negative, bits)
    }

    /// `self / other`, rounded to nearest.
    pub fn div(self, other: Double) -> (r: Double)
        ensures
            r == self.over(other),
    {
        let a: u64 = self.mag_bits();
        let b: u64 = other.mag_bits();
        let negative: bool = self.sign_bit() != other.sign_bit();
        proof {
            reveal(Double::over);
        }
        if a > INF_MAG || b > INF_MAG {
            return Double { bits: NAN_BITS };
        }
        if a == INF_MAG {
            if b == INF_MAG {
                return Double { bits: NAN_BITS };
            }
            return Double::with_sign(negative, INF_MAG);
        }
        if b == INF_MAG {
            return Double::with_sign(negative, 0);
        }
        if b == 0 {
            if a == 0 {
                return Double { bits: NAN_BITS };
            }
            return Double::with_sign(negative, INF_MAG);
        }
        let bits: u64 = div_finite(a, b);
        Double::with_sign(negative, bits)
    }
}

/// The magnitude pattern of a quotient of finite magnitudes.
fn div_finite(a: u64, b: u64) -> (bits: u64)
    requires
        a < INF_MAG,
        0 < b < INF_MAG,
    ensures
        bits <= INF_MAG,
        bits == round_ratio(units_of(a as nat) * pow2(UNIT_EXP as nat), units_of(b as nat)),
{
    let (ea, qa): (u64, u64) = split(a);
    let (eb, qb): (u64, u64) = split(b);
    let ghost num = units_of(a as nat) * pow2(UNIT_EXP as nat);
    let ghost den = units_of(b as nat);
    proof {
        lemma_parts(b as nat);
        lemma_pow2_pos(eb as nat);
        assert(qb > 0) by {
            if qb == 0 {
                assert(eb * P52 == 0);
            }
        }
        assert(den > 0) by (nonlinear_arith)
            requires
                den == qb * pow2(eb as nat),
                qb > 0,
                pow2(eb as nat) > 0,
        ;
    }
    if qa == 0 {
        proof {
            assert(0 * pow2(ea as nat) == 0) by (nonlinear_arith);
            assert(0 * pow2(UNIT_EXP as nat) == 0) by (nonlinear_arith);
            crate::rounding::lemma_round_zero(0, 1, 0);
            assert(0 * den == 0 * 1) by (nonlinear_arith);
            lemma_round_cross(0, den, 0, 1);
        }
        return 0;
    }
    // bring the dividend to 126 bits, so that the quotient has at least 73
    let la: u32 = bit_len(qa as u128);
    proof {
        lemma_p52_p53();
        if la > 53 {
            lemma_pow2_le(53, (la - 1) as nat);
        }
    }
    let up: u32 = 126 - la;
    proof {
        lemma_pow2_adds(up as nat, la as nat);
        lemma_pow2_adds(up as nat, (la - 1) as nat);
        lemma_pow2_pos(up as nat);
        vstd::arithmetic::power2::lemma2_to64();
        vstd::arithmetic::power2::lemma2_to64_rest();
        lemma_pow2_adds(63, 63);
        lemma_pow2_adds(63, 62);
        assert(qa * pow2(up as nat) < pow2(126)) by (nonlinear_arith)
            requires
                qa < pow2(la as nat),
                pow2(up as nat) > 0,
                pow2(126) == pow2(up as nat) * pow2(la as nat),
        ;
        assert(qa * pow2(up as nat) >= pow2(125)) by (nonlinear_arith)
            requires
                qa >= pow2((la - 1) as nat),
                pow2(125) == pow2(up as nat) * pow2((la - 1) as nat),
        ;
        lemma_shl(qa as u128, up);
    }
    let wide: u128 = (qa as u128) << up;
    let k: u128 = wide / (qb as u128);
    let rest: u128 = wide % (qb as u128);
    proof {
        lemma_fundamental_div_mod(wide as int, qb as int);
        assert(qb * k == k * qb) by (nonlinear_arith);
        lemma_pow2_adds(54, 71);
        lemma_pow2_le(53, 71);
        assert(k >= pow2(54)) by (nonlinear_arith)
            requires
                wide == k * qb + rest,
                rest < qb,
                wide >= pow2(54) * pow2(71),
                qb <= pow2(71),
                pow2(54) > 0,
        ;
        assert(k < pow2(126)) by (nonlinear_arith)
            requires
                wide == k * qb + rest,
                rest >= 0,
                qb >= 1,
                wide < pow2(126),
        ;
    }
    let n: u128 = if rest > 0 {
        2 * k + 1
    } else {
        2 * k
    };
    let y: i32 = ea as i32 - eb as i32 + 1074 - up as i32;
    let bits: u64 = round_scaled(n, y - 1);
    proof {
        let i: nat = if y >= 0 {
            y as nat
        } else {
            0
        };
        let j: nat = if y >= 0 {
            0
        } else {
            (-y) as nat
        };
        lemma_pow2_unfold_zero();
        lemma_round_sticky(wide as nat, qb as nat, k as nat, rest as nat, i, j);
        lemma_pow2_pos(i);
        lemma_pow2_pos(j);
        let u = pow2(UNIT_EXP as nat);
        let pa = pow2(ea as nat);
        let pb = pow2(eb as nat);
        let pu = pow2(up as nat);
        // ea + 1074 + j == up + eb + i
        lemma_pow2_adds(ea as nat, UNIT_EXP as nat);
        lemma_pow2_adds((ea + 1074) as nat, j);
        lemma_pow2_adds(up as nat, eb as nat);
        lemma_pow2_adds((up + eb) as nat, i);
        assert((qa * pa * u) * (qb * pow2(j)) == (wide * pow2(i)) * (qb * pb)) by (nonlinear_arith)
            requires
                wide == qa * pu,
                pa * u * pow2(j) == pu * pb * pow2(i),
        ;
        assert(qb * pow2(j) > 0) by (nonlinear_arith)
            requires
                qb > 0,
                pow2(j) > 0,
        ;
        lemma_round_cross(num, den, (wide * pow2(i)) as nat, (qb * pow2(j)) as nat);
        if y >= 1 {
            lemma_pow2_unfold(y as nat);
            assert((n * pow2(i)) * 1 == (n * pow2((y - 1) as nat)) * 2) by (nonlinear_arith)
                requires
                    pow2(i) == 2 * pow2((y - 1) as nat),
            ;
            lemma_round_cross((n * pow2(i)) as nat, 2 * pow2(j), (n * pow2((y - 1) as nat)) as nat, 1);
        } else {
            lemma_pow2_unfold((1 - y) as nat);
            assert(n * pow2(0) == n) by (nonlinear_arith)
                requires
                    pow2(0) == 1,
            ;
        }
    }
    bits
}

/// The exponent and the significand of a finite magnitude pattern.
pub(crate) fn split(m: u64) -> (r: (u64, u64))
    requires
        m < INF_MAG,
    ensures
        r.0 == exp_of(m as nat),
        r.1 == sig_of(m as nat),
        r.0 <= 2045,
        r.1 < P53,
        r.0 > 0 ==> r.1 >= P52,
{
    proof {
        lemma_parts(m as nat);
    }
    if m < P52 {
        (0, m)
    } else {
        let e: u64 = m / P52 - 1;
        (e, m - e * P52)
    }
}

/// A number is its sign and its magnitude pattern.
pub proof fn lemma_signed_parts(a: Double)
    ensures
        signed(a.negative(), a.mag()) == a,
{
}

/// A scaled word is zero only where the word is.
proof fn lemma_nonzero_scale(n: nat, e: nat)
    ensures
        n * pow2(e) == 0 <==> n == 0,
{
    lemma_pow2_pos(e);
    assert(n * pow2(e) == 0 <==> n == 0) by (nonlinear_arith)
        requires
            pow2(e) > 0,
    ;
}

}
