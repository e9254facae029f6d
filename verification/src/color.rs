//! Colouring: a cyclic cosine palette and the smooth colouring of an iteration field.
//!
//! The cosines and logarithms come in as arguments; everything around them is computed here.
use vstd::prelude::*;
use vstd::arithmetic::power2::{lemma_pow2_pos, pow2};
use crate::convert::of_nat;
use crate::double::{num, Double, HALF, ONE, ZERO};
use crate::field::{IterField, GLITCH_MARKER};
use crate::laws::rounding_is_monotone;
use crate::rounding::{
    lemma_round_representable,
    lemma_units_monotone,
    round_ratio,
    P53,
    UNIT_EXP,
};

verus! {

/// Twice pi.
pub const TAU: u64 = 0x4019_21fb_5444_2d18;

/// `255.0`.
pub const CHANNEL_MAX: u64 = 0x406f_e000_0000_0000;

/// The phase shift of the red channel, `0.0`.
pub const RED_SHIFT: u64 = 0;

/// The phase shift of the green channel, `0.15`.
pub const GREEN_SHIFT: u64 = 0x3fc3_3333_3333_3333;

/// The phase shift of the blue channel, `0.30`.
pub const BLUE_SHIFT: u64 = 0x3fd3_3333_3333_3333;

/// The phase shift of a channel.
pub open spec fn channel_shift(channel: int) -> Double {
    if channel == 0 {
        num(RED_SHIFT)
    } else if channel == 1 {
        num(GREEN_SHIFT)
    } else {
        num(BLUE_SHIFT)
    }
}

/// The angle whose cosine gives a channel of the palette's `i`-th colour: one turn over the
/// whole palette, shifted by channel.
pub open spec fn phase(i: nat, size: nat, channel: int) -> Double {
    num(TAU).times(num(ONE).times(of_nat(i).over(of_nat(size))).plus(channel_shift(channel)))
}

/// A number held to the range from zero to one; what is not a number stays.
pub open spec fn clamped(v: Double) -> Double {
    if v.is_lt(num(ZERO)) {
        num(ZERO)
    } else if num(ONE).is_lt(v) {
        num(ONE)
    } else {
        v
    }
}

/// The channel value for a cosine: `0.5 + 0.5*cosine` as a fraction of 255, rounded down.
pub open spec fn channel_value(cosine: Double) -> u8 {
    clamped(num(HALF).plus(num(HALF).times(cosine))).times(num(CHANNEL_MAX)).saturated(255) as u8
}

/// A number held to the range from zero to one.
fn clamp(v: Double) -> (r: Double)
    ensures
        r == clamped(v),
{
    let zero: Double = Double::new(ZERO);
    let one: Double = Double::new(ONE);
    if v.lt(zero) {
        zero
    } else if one.lt(v) {
        one
    } else {
        v
    }
}

/// A channel value for a cosine.
fn to_channel(cosine: Double) -> (r: u8)
    ensures
        r == channel_value(cosine),
{
    let half: Double = Double::new(HALF);
    let v: Double = half.add(half.mul(cosine));
    clamp(v).mul(Double::new(CHANNEL_MAX)).to_int(255) as u8
}

/// Whether angles are those of a palette's colours, in their order.
pub open spec fn are_phases(angles: Seq<[Double; 3]>) -> bool {
    forall|i: int, k: int|
        0 <= i < angles.len() && 0 <= k < 3 ==> #[trigger] angles[i]@[k] == phase(
            i as nat,
            angles.len(),
            k,
        )
}

/// The angles whose cosines give the palette of `size` colours.
pub fn palette_phases(size: usize) -> (r: Vec<[Double; 3]>)
    ensures
        r@.len() == size,
        forall|i: int, k: int|
            0 <= i < size && 0 <= k < 3 ==> #[trigger] r@[i]@[k] == phase(i as nat, size as nat, k),
        are_phases(r@),
{
    let tau: Double = Double::new(TAU);
    let one: Double = Double::new(ONE);
    let whole: Double = Double::from_u64(size as u64);
    let mut out: Vec<[Double; 3]> = Vec::new();
    let mut i: usize = 0;
    while i < size
        invariant
            i <= size,
            out@.len() == i,
            tau == num(TAU),
            one == num(ONE),
            whole == of_nat(size as nat),
            forall|j: int, k: int|
                0 <= j < i && 0 <= k < 3 ==> #[trigger] out@[j]@[k] == phase(
                    j as nat,
                    size as nat,
                    k,
                ),
        decreases size - i,
    {
        let t: Double = one.mul(Double::from_u64(i as u64).div(whole));
        let row: [Double; 3] = [
            tau.mul(t.add(Double::new(RED_SHIFT))),
            tau.mul(t.add(Double::new(GREEN_SHIFT))),
            tau.mul(t.add(Double::new(BLUE_SHIFT))),
        ];
        out.push(row);
        i = i + 1;
    }
    out
}

/// The colours of a palette, channel by channel.
pub open spec fn colours(palette: Seq<[u8; 3]>) -> Seq<Seq<u8>> {
    Seq::new(palette.len(), |i: int| palette[i]@)
}

/// The colours that come of the cosines of a palette's phases.
pub open spec fn cosine_colours(cosines: Seq<[Double; 3]>) -> Seq<Seq<u8>> {
    Seq::new(
        cosines.len(),
        |i: int| Seq::new(3, |k: int| channel_value(cosines[i]@[k])),
    )
}

/// The palette of `size` colours, from the cosines of its phases.
pub fn build_palette(size: usize, cosines: &Vec<[Double; 3]>) -> (r: Vec<[u8; 3]>)
    requires
        cosines@.len() == size,
    ensures
        colours(r@) == cosine_colours(cosines@),
{
    let mut out: Vec<[u8; 3]> = Vec::new();
    let mut i: usize = 0;
    while i < size
        invariant
            i <= size,
            cosines@.len() == size,
            out@.len() == i,
            forall|j: int, k: int|
                0 <= j < i && 0 <= k < 3 ==> #[trigger] out@[j]@[k] == channel_value(
                    cosines@[j]@[k],
                ),
        decreases size - i,
    {
        let row: [Double; 3] = cosines[i];
        out.push([to_channel(row[0]), to_channel(row[1]), to_channel(row[2])]);
        i = i + 1;
    }
    proof {
        assert forall|j: int| 0 <= j < size implies #[trigger] colours(out@)[j]
            =~= cosine_colours(cosines@)[j] by {
            assert(out@[j]@.len() == 3);
        }
        assert(colours(out@) =~= cosine_colours(cosines@));
    }
    out
}

/// The continuous iteration number: the iteration less the binary logarithm of
/// `ln(|z|^2) / ln(16)`, which removes the bands of whole iteration numbers.
pub fn smooth_nu(iter: u32, log_ratio: Double) -> (r: Double)
    ensures
        r == of_nat(iter as nat).minus(log_ratio),
{
    Double::from_u64(iter as u64).sub(log_ratio)
}

/// A position brought into one turn of a palette of `len` colours.
pub open spec fn turned(pos: Double, len: nat) -> Double {
    let p = pos.remainder(of_nat(len));
    if p.is_lt(num(ZERO)) {
        p.plus(of_nat(len))
    } else {
        p
    }
}

/// One channel between two colours, at the fraction `f` of the way, rounded down.
pub open spec fn blended(a: u8, b: u8, f: Double) -> u8 {
    of_nat(a as nat).plus(of_nat(b as nat).minus(of_nat(a as nat)).times(f)).saturated(255) as u8
}

/// The colour at a position of a cyclic palette: a blend of the two colours next to it.
pub open spec fn sampled(palette: Seq<Seq<u8>>, pos: Double) -> Seq<u8> {
    let p = turned(pos, palette.len());
    let i = p.saturated(usize::MAX as nat) as int % palette.len() as int;
    let j = (i + 1) % palette.len() as int;
    let f = p.minus(p.floored());
    Seq::new(3, |k: int| blended(palette[i][k], palette[j][k], f))
}

/// One channel between two colours.
fn blend(a: u8, b: u8, f: Double) -> (r: u8)
    ensures
        r == blended(a, b, f),
{
    let x: Double = Double::from_u64(a as u64);
    let y: Double = Double::from_u64(b as u64);
    x.add(y.sub(x).mul(f)).to_int(255) as u8
}

/// The colour at a position of a cyclic palette.
pub fn sample_palette(palette: &Vec<[u8; 3]>, pos: Double) -> (r: [u8; 3])
    requires
        palette@.len() > 0,
    ensures
        r@ == sampled(colours(palette@), pos),
{
    let len: usize = palette.len();
    let turn: Double = Double::from_u64(len as u64);
    let mut p: Double = pos.rem(turn);
    if p.lt(Double::new(ZERO)) {
        p = p.add(turn);
    }
    let i: usize = p.to_int(usize::MAX as u64) as usize % len;
    let j: usize = if i + 1 < len {
        i + 1
    } else {
        0
    };
    proof {
        if i + 1 < len {
            vstd::arithmetic::div_mod::lemma_small_mod((i + 1) as nat, len as nat);
        } else {
            vstd::arithmetic::div_mod::lemma_mod_self_0(len as int);
        }
    }
    let f: Double = p.sub(p.floor());
    let a: [u8; 3] = palette[i];
    let b: [u8; 3] = palette[j];
    let out: [u8; 3] = [blend(a[0], b[0], f), blend(a[1], b[1], f), blend(a[2], b[2], f)];
    assert(out@ =~= sampled(colours(palette@), pos));
    out
}

impl IterField {
    /// Whether a pixel is coloured: it has escaped, within the iteration limit, and was settled.
    pub open spec fn shaded(self, i: int, max_iter: u32) -> bool {
        &&& self.iters@[i] != GLITCH_MARKER
        &&& self.iters@[i] < max_iter
        &&& !self.mag_sq@[i].is_le(num(crate::orbit::BAILOUT))
    }

    /// The colour of a pixel: black inside the set and where a glitch is left.
    pub open spec fn colour(
        self,
        i: int,
        max_iter: u32,
        log_ratio: Double,
        density: Double,
        palette: Seq<Seq<u8>>,
    ) -> Seq<u8> {
        if self.shaded(i, max_iter) {
            sampled(palette, of_nat(self.iters@[i] as nat).minus(log_ratio).times(density))
        } else {
            seq![0u8, 0u8, 0u8]
        }
    }

    /// Whether bytes are the colours of the pixels, three for each of them.
    pub open spec fn paints(
        self,
        rgb: Seq<u8>,
        max_iter: u32,
        log_ratios: Seq<Double>,
        density: Double,
        palette: Seq<Seq<u8>>,
    ) -> bool {
        forall|i: int|
            0 <= i < self.iters@.len() ==> rgb.subrange(3 * i, 3 * i + 3) == #[trigger] self.colour(
                i,
                max_iter,
                log_ratios[i],
                density,
                palette,
            )
    }
}

/// Colours an iteration field: three bytes for each pixel.
///
/// `log_ratios` holds, for each pixel, the binary logarithm of `ln(|z|^2) / ln(16)`.
pub fn color_field(
    field: &IterField,
    max_iter: u32,
    log_ratios: &Vec<Double>,
    density: Double,
    palette: &Vec<[u8; 3]>,
) -> (r: Vec<u8>)
    requires
        field.wf(),
        log_ratios@.len() == field.iters@.len(),
        field.iters@.len() * 3 <= usize::MAX,
        palette@.len() > 0 || forall|i: int|
            0 <= i < field.iters@.len() ==> !#[trigger] field.shaded(i, max_iter),
    ensures
        r@.len() == field.iters@.len() * 3,
        forall|i: int|
            0 <= i < field.iters@.len() ==> r@.subrange(3 * i, 3 * i + 3) == #[trigger] field.colour(
                i,
                max_iter,
                log_ratios@[i],
                density,
                colours(palette@),
            ),
        field.paints(r@, max_iter, log_ratios@, density, colours(palette@)),
{
    let n: usize = field.iters.len();
    let limit: Double = Double::new(crate::orbit::BAILOUT);
    let mut rgb: Vec<u8> = Vec::new();
    let mut i: usize = 0;
    while i < n
        invariant
            i <= n,
            n == field.iters@.len(),
            n * 3 <= usize::MAX,
            field.wf(),
            limit == num(crate::orbit::BAILOUT),
            log_ratios@.len() == n,
            palette@.len() > 0 || forall|j: int|
                0 <= j < n ==> !#[trigger] field.shaded(j, max_iter),
            rgb@.len() == i * 3,
            forall|j: int|
                0 <= j < i ==> rgb@.subrange(3 * j, 3 * j + 3) == #[trigger] field.colour(
                    j,
                    max_iter,
                    log_ratios@[j],
                    density,
                    colours(palette@),
                ),
        decreases n - i,
    {
        let it: u32 = field.iters[i];
        let mag_sq: Double = field.mag_sq[i];
        let black: bool = it == GLITCH_MARKER || it >= max_iter || mag_sq.le(limit);
        let color: [u8; 3] = if black {
            [0, 0, 0]
        } else {
            assert(field.shaded(i as int, max_iter));
            sample_palette(palette, smooth_nu(it, log_ratios[i]).mul(density))
        };
        let ghost before = rgb@;
        rgb.push(color[0]);
        rgb.push(color[1]);
        rgb.push(color[2]);
        proof {
            assert(color@ =~= field.colour(
                i as int,
                max_iter,
                log_ratios@[i as int],
                density,
                colours(palette@),
            ));
            assert(rgb@.subrange(3 * i as int, 3 * i + 3) =~= color@);
            assert forall|j: int| 0 <= j < i implies rgb@.subrange(3 * j, 3 * j + 3)
                == #[trigger] field.colour(
                j,
                max_iter,
                log_ratios@[j],
                density,
                colours(palette@),
            ) by {
                assert(rgb@.subrange(3 * j, 3 * j + 3) =~= before.subrange(3 * j, 3 * j + 3));
            }
        }
        i = i + 1;
    }
    rgb
}

/// Pixels inside the set, and glitches that are left, are black.
pub proof fn unescaped_pixels_are_black(
    field: IterField,
    i: int,
    max_iter: u32,
    log_ratio: Double,
    density: Double,
    palette: Seq<Seq<u8>>,
)
    requires
        field.iters@[i] == GLITCH_MARKER || field.iters@[i] >= max_iter,
    ensures
        field.colour(i, max_iter, log_ratio, density, palette) == seq![0u8, 0u8, 0u8],
{
}

/// The palette is cyclic: behind its last colour comes the first one.
pub proof fn last_colour_blends_into_the_first(palette: Seq<Seq<u8>>, pos: Double)
    requires
        palette.len() > 0,
        turned(pos, palette.len()).saturated(usize::MAX as nat) == palette.len() - 1,
    ensures
        ({
            let p = turned(pos, palette.len());
            let f = p.minus(p.floored());
            sampled(palette, pos) == Seq::new(
                3,
                |k: int| blended(palette[palette.len() - 1][k], palette[0][k], f),
            )
        }),
{
    let n = palette.len() as int;
    vstd::arithmetic::div_mod::lemma_small_mod((n - 1) as nat, n as nat);
    vstd::arithmetic::div_mod::lemma_mod_self_0(n);
}

/// A natural number of at most 53 bits is exact.
pub proof fn lemma_whole(n: nat)
    requires
        n < P53,
    ensures
        of_nat(n).is_finite(),
        !of_nat(n).negative(),
        of_nat(n).mag() == round_ratio(n * pow2(UNIT_EXP as nat), 1),
        of_nat(n).units() == n * pow2(UNIT_EXP as nat),
        n > 0 ==> !of_nat(n).is_zero(),
{
    lemma_round_representable(n, UNIT_EXP as nat);
    lemma_pow2_pos(UNIT_EXP as nat);
    crate::laws::lemma_zero_units();
    assert(n > 0 ==> n * pow2(UNIT_EXP as nat) > 0) by (nonlinear_arith)
        requires
            pow2(UNIT_EXP as nat) > 0,
    ;
}

/// The angle of a colour depends only on its place in relation to the palette's size.
pub proof fn phase_goes_by_the_ratio(i: nat, n: nat, channel: int)
    requires
        i < n,
        n < 0x8_0000_0000_0000,
    ensures
        phase(2 * i, 2 * n, channel) == phase(i, n, channel),
{
    let u = pow2(UNIT_EXP as nat);
    lemma_whole(i);
    lemma_whole(n);
    lemma_whole(2 * i);
    lemma_whole(2 * n);
    lemma_pow2_pos(UNIT_EXP as nat);
    let (a, b) = ((i * u) * u, n * u);
    let (c, d) = (((2 * i) * u) * u, (2 * n) * u);
    assert(c * b == a * d) by (nonlinear_arith)
        requires
            a == (i * u) * u,
            b == n * u,
            c == ((2 * i) * u) * u,
            d == (2 * n) * u,
    ;
    assert(b > 0 && d > 0) by (nonlinear_arith)
        requires
            b == n * u,
            d == (2 * n) * u,
            n > 0,
            u > 0,
    ;
    crate::rounding::lemma_round_cross(c, d, a, b);
    assert(of_nat(2 * i).over(of_nat(2 * n)) == of_nat(i).over(of_nat(n))) by {
        reveal(Double::over);
    }
}

/// A colour depends only on its place in relation to the palette's size: in a palette of twice
/// the size it stands at twice the place, where the cosines are those of the phases.
pub proof fn colour_goes_by_the_ratio(
    cosine: spec_fn(Double) -> Double,
    small: Seq<[Double; 3]>,
    large: Seq<[Double; 3]>,
    i: int,
)
    requires
        0 <= i < small.len(),
        small.len() < 0x8_0000_0000_0000,
        large.len() == 2 * small.len(),
        forall|j: int, k: int|
            0 <= j < small.len() && 0 <= k < 3 ==> #[trigger] small[j]@[k] == cosine(
                phase(j as nat, small.len(), k),
            ),
        forall|j: int, k: int|
            0 <= j < large.len() && 0 <= k < 3 ==> #[trigger] large[j]@[k] == cosine(
                phase(j as nat, large.len(), k),
            ),
    ensures
        cosine_colours(large)[2 * i] == cosine_colours(small)[i],
{
    assert forall|k: int| 0 <= k < 3 implies #[trigger] large[2 * i]@[k] == small[i]@[k] by {
        phase_goes_by_the_ratio(i as nat, small.len(), k);
    }
    assert(cosine_colours(large)[2 * i] =~= cosine_colours(small)[i]);
}

/// The difference of two bytes is exact.
pub proof fn lemma_byte_difference(a: u8, b: u8)
    ensures
        ({
            let d = of_nat(b as nat).minus(of_nat(a as nat));
            &&& d.is_finite()
            &&& d.value() == (b - a) * pow2(UNIT_EXP as nat)
            &&& d.units() <= 255 * pow2(UNIT_EXP as nat)
            &&& d.negative() == (b < a)
        }),
{
    reveal(Double::plus);
    lemma_whole(a as nat);
    lemma_whole(b as nat);
    crate::laws::lemma_zero_units();
    let u = pow2(UNIT_EXP as nat);
    lemma_pow2_pos(UNIT_EXP as nat);
    let x = of_nat(a as nat);
    let y = of_nat(b as nat);
    let v = y.value() + x.negated().value();
    let n = crate::double::abs_int(b - a);
    assert(v == (b - a) * u) by (nonlinear_arith)
        requires
            v == b * u - a * u,
    ;
    lemma_round_representable(n, UNIT_EXP as nat);
    assert(n * u <= 255 * u) by (nonlinear_arith)
        requires
            n <= 255,
    ;
    assert(crate::double::abs_int(v) == n * u) by (nonlinear_arith)
        requires
            v == (b - a) * u,
            n == if b - a < 0 {
                a - b
            } else {
                b - a
            },
            crate::double::abs_int(v) == if v < 0 {
                -v
            } else {
                v
            },
            u > 0,
    ;
    assert((v < 0) == (b < a) && (v == 0) == (b == a)) by (nonlinear_arith)
        requires
            v == (b - a) * u,
            u > 0,
    ;
}

/// A blend of two channel values lies between them.
pub proof fn blend_lies_between(a: u8, b: u8, f: Double)
    requires
        !f.negative(),
        f.is_le(num(ONE)),
    ensures
        a <= b ==> a <= blended(a, b, f) <= b,
        b <= a ==> b <= blended(a, b, f) <= a,
{
    let u = pow2(UNIT_EXP as nat);
    lemma_pow2_pos(UNIT_EXP as nat);
    let x = of_nat(a as nat);
    let d = of_nat(b as nat).minus(x);
    let g = d.times(f);
    lemma_whole(a as nat);
    lemma_whole(b as nat);
    lemma_byte_difference(a, b);
    crate::laws::shrinking_factor(d, f);
    assert(g.negative() == d.negative()) by {
        reveal(Double::times);
    }
    if g.mag() < d.mag() {
        lemma_units_monotone(g.mag(), d.mag());
    }
    let v = x.value() + g.value();
    let low = if a <= b {
        a as nat
    } else {
        b as nat
    };
    let high = if a <= b {
        b as nat
    } else {
        a as nat
    };
    assert((b - a) * u == b * u - a * u) by (nonlinear_arith);
    assert(low * u <= v <= high * u);
    let r = x.plus(g);
    lemma_whole(low);
    lemma_whole(high);
    assert(!r.negative() && r.is_finite() && low * u <= r.units() <= high * u) by {
        reveal(Double::plus);
        crate::laws::lemma_zero_units();
        if v != 0 {
            rounding_is_monotone(low * u, v as nat, 1);
            rounding_is_monotone(v as nat, high * u, 1);
            if of_nat(low).mag() < r.mag() {
                lemma_units_monotone(of_nat(low).mag(), r.mag());
            }
            if r.mag() < of_nat(high).mag() {
                lemma_units_monotone(r.mag(), of_nat(high).mag());
            }
        }
    }
    let k = r.value() / (u as int);
    assert(low <= k <= high) by (nonlinear_arith)
        requires
            low * u <= r.value() <= high * u,
            k == r.value() / (u as int),
            u > 0,
    ;
}

}
