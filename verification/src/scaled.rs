//! Complex numbers with a shared exponent, for coefficients that outgrow binary64.
//!
//! The exponents are 32-bit integers, and sums of them wrap around where they outgrow that range.
use vstd::prelude::*;
use vstd::arithmetic::div_mod::{lemma_fundamental_div_mod, lemma_mod_bound};
use vstd::arithmetic::power2::{
    lemma_pow2_adds,
    lemma_pow2_pos,
    lemma_pow2_strictly_increases,
    pow2,
};
use crate::bits::{lemma_pow2_le, lemma_pow2_unfold_zero};
use crate::complex::Complex;
use crate::convert::{lemma_huge_power, power_of_two};
use crate::double::{abs_int, num, signed, Double, FOUR, HALF, ONE, QUARTER, TWO, ZERO};
use crate::laws::{addition_commutes, rounding_is_monotone, shrinking_factor};
use crate::rounding::{
    lemma_p52_p53,
    lemma_parts_unique,
    lemma_round_cross,
    lemma_round_exact,
    lemma_round_representable,
    lemma_units_monotone,
    round_ratio,
    units_of,
    INF_MAG,
    P52,
    P53,
    UNIT_EXP,
};

verus! {

/// The pattern of `2^52`.
pub const TWO_POW_52: u64 = 0x4330_0000_0000_0000;

/// The exponent field of the numbers in `[0.5, 1)`.
pub const HALF_FIELD: u64 = 1022;

/// The sign and the fraction of a number, with the exponent field of the numbers in `[0.5, 1)`.
pub open spec fn half_scaled(v: Double) -> Double {
    signed(v.negative(), (HALF_FIELD * P52 + v.mag() % (P52 as nat)) as nat)
}

/// A number as a mantissa of magnitude in `[0.5, 1)` and an exponent of two; zero (with a clear
/// sign), infinities and what is not a number keep their pattern, with exponent zero.
pub open spec fn mantissa_and_exponent(v: Double) -> (Double, int) {
    let field = v.mag() / (P52 as nat);
    if v.bits == 0 {
        (num(ZERO), 0)
    } else if field == 0 {
        let n = v.times(num(TWO_POW_52));
        (half_scaled(n), n.mag() / (P52 as nat) - 52 - HALF_FIELD)
    } else if field == 2047 {
        (v, 0)
    } else {
        (half_scaled(v), field - HALF_FIELD)
    }
}

/// Half of an exponent, rounded towards zero.
pub open spec fn half_exponent(exp: int) -> int {
    if exp >= 0 {
        exp / 2
    } else {
        -((-exp) / 2)
    }
}

/// `m * 2^exp`, in two steps so that neither factor leaves the range too early.
#[verifier::opaque]
pub open spec fn scale_up(m: Double, exp: int) -> Double {
    if m.is_zero() {
        num(ZERO)
    } else {
        m.times(power_of_two(half_exponent(exp))).times(power_of_two(exp - half_exponent(exp)))
    }
}

/// The sign and the fraction of a number, with the exponent field of the numbers in `[0.5, 1)`.
fn to_half(v: Double) -> (r: Double)
    ensures
        r == half_scaled(v),
{
    Double::with_sign(v.sign_bit(), HALF_FIELD * P52 + v.mag_bits() % P52)
}

/// The mantissa and the exponent of a number.
pub fn frexp(v: Double) -> (r: (Double, i32))
    ensures
        r.0 == mantissa_and_exponent(v).0,
        r.1 == mantissa_and_exponent(v).1,
        -2000 <= r.1 <= 2000,
{
    if v.bits == 0 {
        return (Double::new(ZERO), 0);
    }
    let field: u64 = v.mag_bits() / P52;
    if field == 0 {
        let n: Double = v.mul(Double::new(TWO_POW_52));
        let nf: u64 = n.mag_bits() / P52;
        (to_half(n), nf as i32 - 52 - 1022)
    } else if field == 2047 {
        (v, 0)
    } else {
        (to_half(v), field as i32 - 1022)
    }
}

/// `m * 2^exp`.
pub fn ldexp(m: Double, exp: i32) -> (r: Double)
    ensures
        r == scale_up(m, exp as int),
{
    shifted(m, exp as i64)
}

/// `m * 2^exp`, for the difference of two exponents.
fn shifted(m: Double, exp: i64) -> (r: Double)
    requires
        -0x1_0000_0000 < exp < 0x1_0000_0000,
    ensures
        r == scale_up(m, exp as int),
{
    proof {
        reveal(scale_up);
    }
    if m.zero() {
        return Double::new(ZERO);
    }
    let half: i64 = if exp >= 0 {
        exp / 2
    } else {
        -((-exp) / 2)
    };
    let rest: i64 = exp - half;
    // Beyond the range of the exponents every power is infinite.
    let top: i32 = if rest > i32::MAX as i64 {
        i32::MAX
    } else {
        rest as i32
    };
    proof {
        if rest > i32::MAX {
            lemma_huge_power((rest + 1074) as nat);
            lemma_huge_power((top + 1074) as nat);
        }
    }
    m.mul(Double::pow2(half as i32)).mul(Double::pow2(top))
}

/// The complex number `(re + i*im) * 2^exp`; that the operations keep to this meaning is proved in
/// [`crate::scaled_value`].
#[derive(Clone, Copy, PartialEq, Eq, Structural, Debug)]
pub struct Mcx {
    /// The mantissa of the real part.
    pub re: Double,
    /// The mantissa of the imaginary part.
    pub im: Double,
    /// The shared exponent.
    pub exp: i32,
}

/// The larger of two exponents.
pub open spec fn larger(a: i32, b: i32) -> i32 {
    if a < b {
        b
    } else {
        a
    }
}

/// The smaller of two exponents.
pub open spec fn smaller(a: i32, b: i32) -> i32 {
    if a < b {
        a
    } else {
        b
    }
}

/// The larger of two exponents.
fn max_exp(a: i32, b: i32) -> (r: i32)
    ensures
        r == larger(a, b),
{
    if a < b {
        b
    } else {
        a
    }
}

/// The scaled zero.
pub open spec fn scaled_zero() -> Mcx {
    Mcx { re: num(ZERO), im: num(ZERO), exp: 0 }
}

/// A complex number with the larger of its parts' exponents.
#[verifier::opaque]
pub open spec fn scaled(re: Double, im: Double) -> Mcx {
    if re.is_zero() && im.is_zero() {
        scaled_zero()
    } else {
        let (re_m, re_exp) = mantissa_and_exponent(re);
        let (im_m, im_exp) = mantissa_and_exponent(im);
        let exp = larger(re_exp as i32, im_exp as i32);
        Mcx { re: scale_up(re_m, re_exp - exp), im: scale_up(im_m, im_exp - exp), exp }
    }
}

impl Mcx {
    /// Whether both parts are zero.
    pub open spec fn is_zero(self) -> bool {
        self.re.is_zero() && self.im.is_zero()
    }

    /// The mantissas.
    pub open spec fn mantissa(self) -> Complex {
        Complex { re: self.re, im: self.im }
    }

    /// Whether a nonzero mantissa lies outside `[0.25, 2)`.
    pub open spec fn unbalanced(self) -> bool {
        ||| num(TWO).is_le(self.re.magnitude())
        ||| num(TWO).is_le(self.im.magnitude())
        ||| !self.re.is_zero() && self.re.magnitude().is_lt(num(QUARTER))
        ||| !self.im.is_zero() && self.im.magnitude().is_lt(num(QUARTER))
    }

    /// The exponent of one part, counted from the shared one; the least there is for zero.
    pub open spec fn total_exponent(self, part: Double) -> i32 {
        if part.is_zero() {
            i32::MIN
        } else {
            i32::wrapping_add(mantissa_and_exponent(part).1 as i32, self.exp)
        }
    }

    /// The same number with its mantissas brought back to the range of `[0.5, 1)`, where one of
    /// them had left `[0.25, 2)`.
    #[verifier::opaque]
    pub open spec fn reduced(self) -> Mcx {
        if self.is_zero() || !self.unbalanced() {
            self
        } else {
            let re_tot = self.total_exponent(self.re);
            let im_tot = self.total_exponent(self.im);
            let exp = larger(re_tot, im_tot);
            Mcx {
                re: if self.re.is_zero() {
                    num(ZERO)
                } else {
                    scale_up(mantissa_and_exponent(self.re).0, re_tot - exp)
                },
                im: if self.im.is_zero() {
                    num(ZERO)
                } else {
                    scale_up(mantissa_and_exponent(self.im).0, im_tot - exp)
                },
                exp,
            }
        }
    }

    /// The product.
    #[verifier::opaque]
    pub open spec fn product(self, other: Mcx) -> Mcx {
        let m = self.mantissa().product(other.mantissa());
        (Mcx { re: m.re, im: m.im, exp: i32::wrapping_add(self.exp, other.exp) }).reduced()
    }

    /// The product with a number.
    #[verifier::opaque]
    pub open spec fn product_real(self, f: Double) -> Mcx {
        (Mcx { re: self.re.times(f), im: self.im.times(f), exp: self.exp }).reduced()
    }

    /// The square.
    #[verifier::opaque]
    pub open spec fn squared(self) -> Mcx {
        (Mcx {
            re: self.re.times(self.re).minus(self.im.times(self.im)),
            im: num(TWO).times(self.re).times(self.im),
            exp: i32::wrapping_mul(self.exp, 2),
        }).reduced()
    }

    /// The mantissas at the exponent `exp`.
    pub open spec fn at_exponent(self, exp: i32) -> Complex {
        if self.exp == exp {
            self.mantissa()
        } else {
            let shift = self.exp - exp;
            Complex { re: scale_up(self.re, shift), im: scale_up(self.im, shift) }
        }
    }

    /// The sum of the mantissas at the exponent `exp`.
    pub open spec fn sum_at(self, other: Mcx, exp: i32) -> Mcx {
        let m = self.at_exponent(exp).plus(other.at_exponent(exp));
        Mcx { re: m.re, im: m.im, exp }
    }

    /// Whether both mantissas are finite.
    pub open spec fn is_finite(self) -> bool {
        self.re.is_finite() && self.im.is_finite()
    }

    /// The sum: the mantissas are added at the smaller of the two exponents, or, where those
    /// scaled up leave the range, at the larger one.
    #[verifier::opaque]
    pub open spec fn plus(self, other: Mcx) -> Mcx {
        if self.is_zero() {
            other
        } else if other.is_zero() {
            self
        } else {
            let low = self.sum_at(other, smaller(self.exp, other.exp));
            let high = self.sum_at(other, larger(self.exp, other.exp));
            if !low.is_finite() && high.is_finite() {
                high.reduced()
            } else {
                low.reduced()
            }
        }
    }

    /// The number in binary64 parts.
    pub open spec fn unscaled(self) -> Complex {
        Complex { re: scale_up(self.re, self.exp as int), im: scale_up(self.im, self.exp as int) }
    }

    /// The squared absolute value, as a mantissa and an exponent.
    pub open spec fn norm_of(self) -> (Double, i32) {
        (self.mantissa().norm_sq(), i32::wrapping_mul(self.exp, 2))
    }

    /// The scaled zero.
    pub fn zero() -> (r: Mcx)
        ensures
            r == scaled_zero(),
    {
        Mcx { re: Double::new(ZERO), im: Double::new(ZERO), exp: 0 }
    }

    /// A complex number, scaled.
    pub fn from_complex(re: Double, im: Double) -> (r: Mcx)
        ensures
            r == scaled(re, im),
    {
        proof {
            reveal(scaled);
        }
        if re.zero() && im.zero() {
            return Mcx::zero();
        }
        let (re_m, re_exp): (Double, i32) = frexp(re);
        let (im_m, im_exp): (Double, i32) = frexp(im);
        let exp: i32 = max_exp(re_exp, im_exp);
        Mcx { re: ldexp(re_m, re_exp - exp), im: ldexp(im_m, im_exp - exp), exp }
    }

    /// The number in binary64 parts.
    pub fn to_complex(self) -> (r: Complex)
        ensures
            r == self.unscaled(),
    {
        Complex::new(ldexp(self.re, self.exp), ldexp(self.im, self.exp))
    }

    /// Whether both parts are zero.
    pub fn vanishes(&self) -> (r: bool)
        ensures
            r == self.is_zero(),
    {
        self.re.zero() && self.im.zero()
    }

    /// Brings the mantissas back into range.
    pub fn reduce(self) -> (r: Mcx)
        ensures
            r == self.reduced(),
    {
        proof {
            reveal(Mcx::reduced);
        }
        if self.vanishes() {
            return self;
        }
        let two: Double = Double::new(TWO);
        let quarter: Double = Double::new(QUARTER);
        let re_zero: bool = self.re.zero();
        let im_zero: bool = self.im.zero();
        let need: bool = two.le(self.re.abs()) || two.le(self.im.abs()) || (!re_zero
            && self.re.abs().lt(quarter)) || (!im_zero && self.im.abs().lt(quarter));
        if !need {
            return self;
        }
        let (re_m, re_exp): (Double, i32) = frexp(self.re);
        let (im_m, im_exp): (Double, i32) = frexp(self.im);
        let re_tot: i32 = if re_zero {
            i32::MIN
        } else {
            re_exp.wrapping_add(self.exp)
        };
        let im_tot: i32 = if im_zero {
            i32::MIN
        } else {
            im_exp.wrapping_add(self.exp)
        };
        let exp: i32 = max_exp(re_tot, im_tot);
        Mcx {
            re: if re_zero {
                Double::new(ZERO)
            } else {
                shifted(re_m, re_tot as i64 - exp as i64)
            },
            im: if im_zero {
                Double::new(ZERO)
            } else {
                shifted(im_m, im_tot as i64 - exp as i64)
            },
            exp,
        }
    }

    /// The product.
    pub fn mul_mcx(&self, other: &Mcx) -> (r: Mcx)
        ensures
            r == self.product(*other),
    {
        proof {
            reveal(Mcx::product);
        }
        let m: Complex = Complex::new(self.re, self.im).mul(Complex::new(other.re, other.im));
        Mcx { re: m.re, im: m.im, exp: self.exp.wrapping_add(other.exp) }.reduce()
    }

    /// The product with a complex number in binary64 parts.
    pub fn mul_z(&self, z_re: Double, z_im: Double) -> (r: Mcx)
        ensures
            r == self.product(scaled(z_re, z_im)),
    {
        let f: Mcx = Mcx::from_complex(z_re, z_im);
        self.mul_mcx(&f)
    }

    /// The product with a number.
    pub fn mul_real(&self, f: Double) -> (r: Mcx)
        ensures
            r == self.product_real(f),
    {
        proof {
            reveal(Mcx::product_real);
        }
        Mcx { re: self.re.mul(f), im: self.im.mul(f), exp: self.exp }.reduce()
    }

    /// The square.
    pub fn square(&self) -> (r: Mcx)
        ensures
            r == self.squared(),
    {
        proof {
            reveal(Mcx::squared);
        }
        let re: Double = self.re.mul(self.re).sub(self.im.mul(self.im));
        let im: Double = Double::new(TWO).mul(self.re).mul(self.im);
        Mcx { re, im, exp: self.exp.wrapping_mul(2) }.reduce()
    }

    /// The sum.
    pub fn add_mcx(&self, other: &Mcx) -> (r: Mcx)
        ensures
            r == self.plus(*other),
    {
        proof {
            reveal(Mcx::plus);
        }
        if self.vanishes() {
            return *other;
        }
        if other.vanishes() {
            return *self;
        }
        let (low_exp, high_exp): (i32, i32) = if self.exp < other.exp {
            (self.exp, other.exp)
        } else {
            (other.exp, self.exp)
        };
        let low: Mcx = self.added_at(other, low_exp);
        if low.has_range() {
            return low.reduce();
        }
        let high: Mcx = self.added_at(other, high_exp);
        if high.has_range() {
            high.reduce()
        } else {
            low.reduce()
        }
    }

    /// Whether both mantissas are finite.
    fn has_range(&self) -> (r: bool)
        ensures
            r == self.is_finite(),
    {
        self.re.mag_bits() < INF_MAG && self.im.mag_bits() < INF_MAG
    }

    /// The sum of the mantissas at an exponent.
    fn added_at(&self, other: &Mcx, exp: i32) -> (r: Mcx)
        ensures
            r == self.sum_at(*other, exp),
    {
        let m: Complex = self.moved_to(exp).add(other.moved_to(exp));
        Mcx { re: m.re, im: m.im, exp }
    }

    /// The mantissas at an exponent.
    fn moved_to(&self, exp: i32) -> (r: Complex)
        ensures
            r == self.at_exponent(exp),
    {
        if self.exp == exp {
            Complex::new(self.re, self.im)
        } else {
            let shift: i64 = self.exp as i64 - exp as i64;
            Complex::new(shifted(self.re, shift), shifted(self.im, shift))
        }
    }

    /// The sum with a number.
    pub fn add_real(&self, v: Double) -> (r: Mcx)
        ensures
            r == self.plus(scaled(v, num(ZERO))),
    {
        self.add_mcx(&Mcx::from_complex(v, Double::new(ZERO)))
    }

    /// The squared absolute value, as a mantissa and an exponent.
    pub fn norm(&self) -> (r: (Double, i32))
        ensures
            r == self.norm_of(),
    {
        (Complex::new(self.re, self.im).abs_sq(), self.exp.wrapping_mul(2))
    }
}

/// A sum does not depend on the order of its terms, unless both are zero.
pub proof fn scaled_addition_commutes(a: Mcx, b: Mcx)
    requires
        !a.is_zero() || !b.is_zero(),
    ensures
        a.plus(b) == b.plus(a),
{
    reveal(Mcx::plus);
    let (low, high) = (smaller(a.exp, b.exp), larger(a.exp, b.exp));
    addition_commutes(a.at_exponent(low).re, b.at_exponent(low).re);
    addition_commutes(a.at_exponent(low).im, b.at_exponent(low).im);
    addition_commutes(a.at_exponent(high).re, b.at_exponent(high).re);
    addition_commutes(a.at_exponent(high).im, b.at_exponent(high).im);
}

/// A power of two within the range is exact.
proof fn lemma_power(k: int)
    requires
        -1074 <= k <= 1023,
    ensures
        power_of_two(k).is_finite(),
        !power_of_two(k).negative(),
        power_of_two(k).units() == pow2((k + 1074) as nat),
{
    let j = (k + 1074) as nat;
    lemma_p52_p53();
    lemma_pow2_unfold_zero();
    if j < 52 {
        lemma_pow2_strictly_increases(j, 52);
        lemma_round_representable(pow2(j), 0);
        assert(pow2(j) * pow2(0) == pow2(j)) by (nonlinear_arith)
            requires
                pow2(0) == 1,
        ;
    } else {
        lemma_pow2_adds(52, (j - 52) as nat);
        lemma_round_representable(P52 as nat, (j - 52) as nat);
    }
}

/// A product with a power of two is exact where its value is that of a number.
pub proof fn lemma_times_power(a: Double, k: int, t: nat)
    requires
        a.is_finite(),
        -1074 <= k <= 1023,
        t < INF_MAG,
        units_of(t) * pow2(UNIT_EXP as nat) == a.units() * pow2((k + 1074) as nat),
    ensures
        a.times(power_of_two(k)) == signed(a.negative(), t),
{
    reveal(Double::times);
    lemma_power(k);
    lemma_pow2_pos(UNIT_EXP as nat);
    let u = pow2(UNIT_EXP as nat);
    let n = a.units() * pow2((k + 1074) as nat);
    assert(n * 1 == units_of(t) * u);
    lemma_round_cross(n, u, units_of(t), 1);
    lemma_round_exact(t);
}

/// A mantissa in `[0.5, 1)` scaled by a fitting exponent gives the number `t`.
pub proof fn lemma_scale_half(m: Double, q: nat, exp: int, t: nat)
    requires
        P52 <= q < P53,
        m.mag() == 1021 * P52 + q,
        -1074 <= exp <= 1024,
        t < INF_MAG,
        units_of(t) * pow2(UNIT_EXP as nat) == q * pow2((1021 + exp + 1074) as nat),
    ensures
        scale_up(m, exp) == signed(m.negative(), t),
{
    reveal(scale_up);
    let h = half_exponent(exp);
    let r = exp - h;
    assert(-537 <= h <= 512 && -537 <= r <= 512);
    lemma_parts_unique(m.mag(), 1021, q);
    let e1 = (1021 + h) as nat;
    let t1 = e1 * (P52 as nat) + q;
    lemma_parts_unique(t1, e1, q);
    assert(t1 < INF_MAG) by (nonlinear_arith)
        requires
            t1 == e1 * P52 + q,
            e1 <= 1533,
            q < P53,
            P53 == 2 * P52,
            INF_MAG == 2047 * P52,
            P52 > 0,
    ;
    lemma_pow2_adds(e1, 1074);
    lemma_pow2_adds(1021, (h + 1074) as nat);
    assert((q * pow2(e1)) * pow2(1074) == (q * pow2(1021)) * pow2((h + 1074) as nat))
        by (nonlinear_arith)
        requires
            pow2(e1) * pow2(1074) == pow2(1021) * pow2((h + 1074) as nat),
    ;
    lemma_times_power(m, h, t1);
    let a = signed(m.negative(), t1);
    assert(a.mag() == t1 && a.negative() == m.negative());
    lemma_pow2_adds(e1, (r + 1074) as nat);
    assert(e1 + (r + 1074) == 1021 + exp + 1074);
    assert((q * pow2(e1)) * pow2((r + 1074) as nat) == q * pow2((1021 + exp + 1074) as nat))
        by (nonlinear_arith)
        requires
            pow2(e1) * pow2((r + 1074) as nat) == pow2((1021 + exp + 1074) as nat),
    ;
    lemma_times_power(a, r, t);
}

/// The magnitude of a number with a nonzero exponent field.
proof fn lemma_normal(v: Double)
    requires
        v.is_finite(),
        v.mag() >= P52,
    ensures
        1 <= v.mag() / (P52 as nat) <= 2046,
        v.units() == (P52 + v.mag() % (P52 as nat)) as nat * pow2(
            (v.mag() / (P52 as nat) - 1) as nat,
        ),
{
    let m = v.mag();
    let f = m / (P52 as nat);
    let rest = m % (P52 as nat);
    lemma_fundamental_div_mod(m as int, P52 as int);
    lemma_mod_bound(m as int, P52 as int);
    assert(1 <= f <= 2046) by (nonlinear_arith)
        requires
            m == P52 * f + rest,
            0 <= rest < P52,
            P52 <= m < 2047 * P52,
            P52 > 0,
    ;
    let e = (f - 1) as nat;
    assert(m == e * P52 + (P52 + rest)) by (nonlinear_arith)
        requires
            m == P52 * f + rest,
            e == f - 1,
    ;
    lemma_parts_unique(m, e, (P52 + rest) as nat);
}

/// The mantissa of a number has the sign and the significand of the number, and the exponent says
/// how far the significand is scaled.
pub proof fn lemma_mantissa_parts(v: Double) -> (q: nat)
    requires
        v.is_finite(),
        !v.is_zero(),
    ensures
        P52 <= q < P53,
        mantissa_and_exponent(v).0.mag() == 1021 * P52 + q,
        mantissa_and_exponent(v).0.negative() == v.negative(),
        -1074 <= mantissa_and_exponent(v).1 <= 1024,
        v.units() * pow2(UNIT_EXP as nat) == q * pow2(
            (1021 + mantissa_and_exponent(v).1 + 1074) as nat,
        ),
{
    let m = v.mag();
    let field = m / (P52 as nat);
    lemma_fundamental_div_mod(m as int, P52 as int);
    lemma_mod_bound(m as int, P52 as int);
    let (mant, exp) = mantissa_and_exponent(v);
    if m >= P52 {
        lemma_normal(v);
        let rest = m % (P52 as nat);
        let q = (P52 + rest) as nat;
        assert(mant.mag() == 1021 * P52 + q);
        lemma_pow2_adds((field - 1) as nat, UNIT_EXP as nat);
        assert((q * pow2((field - 1) as nat)) * pow2(1074) == q * pow2((field - 1 + 1074) as nat))
            by (nonlinear_arith)
            requires
                pow2((field - 1) as nat) * pow2(1074) == pow2((field - 1 + 1074) as nat),
        ;
        q
    } else {
        assert(field == 0) by {
            vstd::arithmetic::div_mod::lemma_basic_div(m as int, P52 as int);
        }
        lemma_small(v);
        let n = v.times(num(TWO_POW_52));
        lemma_normal(n);
        let nf = n.mag() / (P52 as nat);
        let rest = n.mag() % (P52 as nat);
        let q = (P52 + rest) as nat;
        lemma_mod_bound(n.mag() as int, P52 as int);
        assert(mant.mag() == 1021 * P52 + q);
        lemma_parts_unique(m, 0, m);
        lemma_pow2_unfold_zero();
        assert(v.units() == m) by (nonlinear_arith)
            requires
                v.units() == m * pow2(0),
                pow2(0) == 1,
        ;
        lemma_pow2_adds(52, 1022);
        lemma_pow2_adds((nf - 1) as nat, 1022);
        assert(m * pow2(1074) == q * pow2((nf - 1 + 1022) as nat)) by (nonlinear_arith)
            requires
                m * pow2(52) == q * pow2((nf - 1) as nat),
                pow2(52) * pow2(1022) == pow2(1074),
                pow2((nf - 1) as nat) * pow2(1022) == pow2((nf - 1 + 1022) as nat),
        ;
        lemma_small_field(n, m);
        q
    }
}

/// The mantissa and the exponent of a number give it back.
pub proof fn mantissa_and_exponent_give_the_number_back(v: Double)
    requires
        v.is_finite(),
        !v.is_zero(),
    ensures
        scale_up(mantissa_and_exponent(v).0, mantissa_and_exponent(v).1) == v,
{
    let q = lemma_mantissa_parts(v);
    let (mant, exp) = mantissa_and_exponent(v);
    lemma_scale_half(mant, q, exp, v.mag());
}

/// A number below the normal range, scaled by `2^52`, is a normal one of the same sign.
proof fn lemma_small(v: Double)
    requires
        0 < v.mag() < P52,
    ensures
        ({
            let n = v.times(num(TWO_POW_52));
            &&& n.is_finite()
            &&& n.mag() >= P52
            &&& n.negative() == v.negative()
            &&& n.units() == v.mag() * pow2(52)
        }),
{
    reveal(Double::times);
    let s = v.mag();
    lemma_parts_unique(s, 0, s);
    lemma_pow2_unfold_zero();
    assert(v.units() == s) by (nonlinear_arith)
        requires
            v.units() == s * pow2(0),
            pow2(0) == 1,
    ;
    lemma_p52_p53();
    lemma_parts_unique(TWO_POW_52 as nat, 1074, P52 as nat);
    lemma_pow2_adds(52, 1074);
    lemma_pow2_pos(1074);
    lemma_round_representable(s, 52);
    let x = s * pow2(52);
    assert((s * pow2(1126)) * 1 == x * pow2(1074)) by (nonlinear_arith)
        requires
            x == s * pow2(52),
            pow2(52) * pow2(1074) == pow2(1126),
    ;
    lemma_round_cross(s * pow2(1126), pow2(1074), x, 1);
    let t = round_ratio(x, 1);
    assert(x >= pow2(52)) by (nonlinear_arith)
        requires
            x == s * pow2(52),
            s >= 1,
    ;
    if t < P52 {
        lemma_parts_unique(t, 0, t);
        assert(units_of(t) == t) by (nonlinear_arith)
            requires
                units_of(t) == t * pow2(0),
                pow2(0) == 1,
        ;
    }
}

/// The exponent field of a number below `2^52` units, scaled by `2^52`.
proof fn lemma_small_field(n: Double, s: nat)
    requires
        n.is_finite(),
        n.mag() >= P52,
        s < P52,
        n.units() == s * pow2(52),
    ensures
        1 <= n.mag() / (P52 as nat) <= 53,
{
    lemma_normal(n);
    lemma_p52_p53();
    let f = n.mag() / (P52 as nat);
    if f > 53 {
        lemma_pow2_le(53, (f - 1) as nat);
        lemma_mod_bound(n.mag() as int, P52 as int);
        let rest = n.mag() % (P52 as nat);
        assert(n.units() >= pow2(52) * pow2(53)) by (nonlinear_arith)
            requires
                n.units() == (P52 + rest) as nat * pow2((f - 1) as nat),
                pow2((f - 1) as nat) >= pow2(53),
                rest >= 0,
                P52 == pow2(52),
        ;
        assert(s * pow2(52) < pow2(52) * pow2(53)) by (nonlinear_arith)
            requires
                s < pow2(52),
                pow2(52) < pow2(53),
        ;
    }
}

/// The scaled one: half of two.
pub proof fn scaled_one()
    ensures
        scaled(num(ONE), num(ZERO)) == (Mcx { re: num(HALF), im: num(ZERO), exp: 1 }),
        scaled(num(ONE), num(ZERO)).reduced() == scaled(num(ONE), num(ZERO)),
{
    reveal(scaled);
    reveal(scale_up);
    reveal(Mcx::reduced);
    assert(ONE as nat / (P52 as nat) == 1023 && ONE as nat % (P52 as nat) == 0);
    let m = num(HALF);
    assert(half_scaled(num(ONE)) == m);
    lemma_parts_unique(HALF as nat, 1021, P52 as nat);
    lemma_pow2_adds(1021, 1074);
    assert((P52 * pow2(1021)) * pow2(1074) == P52 * pow2(2095)) by (nonlinear_arith)
        requires
            pow2(1021) * pow2(1074) == pow2(2095),
    ;
    lemma_scale_half(m, P52 as nat, 0, HALF as nat);
}

/// The scaled one is one.
pub proof fn scaled_one_is_one()
    ensures
        scaled(num(ONE), num(ZERO)).unscaled() == (Complex { re: num(ONE), im: num(ZERO) }),
{
    scaled_one();
    lemma_parts_unique(ONE as nat, 1022, P52 as nat);
    lemma_pow2_adds(1022, 1074);
    assert((P52 * pow2(1022)) * pow2(1074) == P52 * pow2(2096)) by (nonlinear_arith)
        requires
            pow2(1022) * pow2(1074) == pow2(2096),
    ;
    lemma_scale_half(num(HALF), P52 as nat, 1, ONE as nat);
    reveal(scale_up);
}

/// A power of two with an exponent that is not positive is at most one.
proof fn lemma_small_power(k: int)
    requires
        k <= 0,
    ensures
        power_of_two(k).mag() <= ONE,
{
    if k >= -1074 {
        lemma_power(k);
        crate::laws::lemma_units_of_one();
        lemma_pow2_le((k + 1074) as nat, UNIT_EXP as nat);
        if power_of_two(k).mag() > ONE {
            lemma_units_monotone(ONE as nat, power_of_two(k).mag());
        }
    }
}

/// A number scaled down stays finite.
proof fn lemma_scaled_down(m: Double, exp: int)
    requires
        m.is_finite(),
        exp <= 0,
    ensures
        scale_up(m, exp).is_finite(),
        scale_up(m, exp).mag() <= m.mag(),
{
    reveal(scale_up);
    let h = half_exponent(exp);
    lemma_small_power(h);
    lemma_small_power(exp - h);
    shrinking_factor(m, power_of_two(h));
    shrinking_factor(m.times(power_of_two(h)), power_of_two(exp - h));
}

/// The sum of two numbers below two is finite.
proof fn lemma_small_sum(a: Double, b: Double)
    requires
        a.mag() < TWO,
        b.mag() < TWO,
    ensures
        a.plus(b).is_finite(),
{
    reveal(Double::plus);
    lemma_units_monotone(a.mag(), TWO as nat);
    lemma_units_monotone(b.mag(), TWO as nat);
    lemma_parts_unique(TWO as nat, 1023, P52 as nat);
    lemma_parts_unique(FOUR as nat, 1024, P52 as nat);
    vstd::arithmetic::power2::lemma_pow2_unfold(1024);
    assert(P52 * pow2(1024) == 2 * (P52 * pow2(1023))) by (nonlinear_arith)
        requires
            pow2(1024) == 2 * pow2(1023),
    ;
    let v = a.value() + b.value();
    rounding_is_monotone(abs_int(v), units_of(FOUR as nat), 1);
    lemma_round_exact(FOUR as nat);
}

/// The mantissas of a number with finite ones stay finite when they are balanced.
proof fn lemma_reduced_finite(m: Mcx)
    requires
        m.re.is_finite(),
        m.im.is_finite(),
    ensures
        m.reduced().re.is_finite(),
        m.reduced().im.is_finite(),
{
    reveal(Mcx::reduced);
    let exp = larger(m.total_exponent(m.re), m.total_exponent(m.im));
    lemma_finite_mantissa(m.re);
    lemma_finite_mantissa(m.im);
    lemma_scaled_down(mantissa_and_exponent(m.re).0, m.total_exponent(m.re) - exp);
    lemma_scaled_down(mantissa_and_exponent(m.im).0, m.total_exponent(m.im) - exp);
}

/// The mantissa of a finite number is finite.
proof fn lemma_finite_mantissa(v: Double)
    requires
        v.is_finite(),
    ensures
        mantissa_and_exponent(v).0.is_finite(),
{
    lemma_mod_bound(v.mag() as int, P52 as int);
    lemma_mod_bound(v.times(num(TWO_POW_52)).mag() as int, P52 as int);
    lemma_fundamental_div_mod(v.mag() as int, P52 as int);
}

/// A sum does not overflow, however far apart the exponents are: mantissas below two add up to
/// finite ones.
pub proof fn scaled_sum_does_not_overflow(a: Mcx, b: Mcx)
    requires
        a.re.magnitude().is_lt(num(TWO)),
        a.im.magnitude().is_lt(num(TWO)),
        b.re.magnitude().is_lt(num(TWO)),
        b.im.magnitude().is_lt(num(TWO)),
    ensures
        a.plus(b).re.is_finite(),
        a.plus(b).im.is_finite(),
{
    reveal(Mcx::plus);
    let exp = larger(a.exp, b.exp);
    lemma_scaled_down(a.re, a.exp - exp);
    lemma_scaled_down(a.im, a.exp - exp);
    lemma_scaled_down(b.re, b.exp - exp);
    lemma_scaled_down(b.im, b.exp - exp);
    let (p, q) = (a.at_exponent(exp), b.at_exponent(exp));
    lemma_small_sum(p.re, q.re);
    lemma_small_sum(p.im, q.im);
    lemma_reduced_finite(a.sum_at(b, exp));
    let low = a.sum_at(b, smaller(a.exp, b.exp));
    if low.is_finite() {
        lemma_reduced_finite(low);
    }
}

impl Mcx {
    /// Whether the exponents of the parts, counted from the shared one, do not wrap around.
    pub open spec fn exponents_fit(self) -> bool {
        &&& self.re.is_zero() || i32::MIN <= mantissa_and_exponent(self.re).1 + self.exp
            <= i32::MAX
        &&& self.im.is_zero() || i32::MIN <= mantissa_and_exponent(self.im).1 + self.exp
            <= i32::MAX
    }

    /// The larger of the exponents of the parts.
    pub open spec fn top_exponent(self) -> i32 {
        larger(self.total_exponent(self.re), self.total_exponent(self.im))
    }
}

/// The mantissa of a number lies in `[0.5, 1)`.
proof fn lemma_mantissa_range(v: Double)
    requires
        v.is_finite(),
        !v.is_zero(),
    ensures
        HALF <= mantissa_and_exponent(v).0.mag() < ONE,
        scale_up(mantissa_and_exponent(v).0, 0) == mantissa_and_exponent(v).0,
{
    let q = lemma_mantissa_parts(v);
    let m = mantissa_and_exponent(v).0;
    lemma_parts_unique(m.mag(), 1021, q);
    lemma_pow2_adds(1021, 1074);
    assert((q * pow2(1021)) * pow2(1074) == q * pow2(2095)) by (nonlinear_arith)
        requires
            pow2(1021) * pow2(1074) == pow2(2095),
    ;
    lemma_scale_half(m, q, 0, m.mag());
}

/// Balancing brings the larger of the mantissas into `[0.25, 2)`: both end up below two, and not
/// both below one quarter.
pub proof fn reduced_is_balanced(m: Mcx)
    requires
        m.is_finite(),
        !m.is_zero(),
    ensures
        m.reduced().is_finite(),
        m.reduced().re.magnitude().is_lt(num(TWO)),
        m.reduced().im.magnitude().is_lt(num(TWO)),
        num(QUARTER).is_le(m.reduced().re.magnitude()) || num(QUARTER).is_le(
            m.reduced().im.magnitude(),
        ),
{
    reveal(Mcx::reduced);
    lemma_reduced_finite(m);
    if m.unbalanced() {
        let top = m.top_exponent();
        if !m.re.is_zero() {
            lemma_mantissa_range(m.re);
            lemma_scaled_down(mantissa_and_exponent(m.re).0, m.total_exponent(m.re) - top);
        }
        if !m.im.is_zero() {
            lemma_mantissa_range(m.im);
            lemma_scaled_down(mantissa_and_exponent(m.im).0, m.total_exponent(m.im) - top);
        }
    }
}

/// A number whose nonzero mantissas all lie in `[0.25, 2)` is left as it is.
pub proof fn balanced_number_is_left_as_it_is(m: Mcx)
    requires
        m.re.is_zero() || num(0x3fd0_0000_0000_0000).is_le(m.re.magnitude())
            && m.re.magnitude().is_lt(num(0x4000_0000_0000_0000)),
        m.im.is_zero() || num(0x3fd0_0000_0000_0000).is_le(m.im.magnitude())
            && m.im.magnitude().is_lt(num(0x4000_0000_0000_0000)),
    ensures
        m.reduced() == m,
{
    reveal(Mcx::reduced);
}

/// A number with a mantissa outside `[0.25, 2)` is brought back to mantissas below one, of which
/// one is at least one half.
pub proof fn unbalanced_number_is_brought_back(m: Mcx, part: Double)
    requires
        m.is_finite(),
        part == m.re || part == m.im,
        !part.is_zero(),
        part.magnitude().is_lt(num(0x3fd0_0000_0000_0000)) || num(0x4000_0000_0000_0000).is_le(
            part.magnitude(),
        ),
    ensures
        m.reduced().re.magnitude().is_lt(num(0x3ff0_0000_0000_0000)),
        m.reduced().im.magnitude().is_lt(num(0x3ff0_0000_0000_0000)),
        num(0x3fe0_0000_0000_0000).is_le(m.reduced().re.magnitude()) || num(
            0x3fe0_0000_0000_0000,
        ).is_le(m.reduced().im.magnitude()),
{
    reveal(Mcx::reduced);
    assert(m.unbalanced());
    let top = m.top_exponent();
    if !m.re.is_zero() {
        lemma_mantissa_range(m.re);
        lemma_scaled_down(mantissa_and_exponent(m.re).0, m.total_exponent(m.re) - top);
    }
    if !m.im.is_zero() {
        lemma_mantissa_range(m.im);
        lemma_scaled_down(mantissa_and_exponent(m.im).0, m.total_exponent(m.im) - top);
    }
}

}
