//! Direct iterations of `z' = z*z + c`: one point, four points in step, and one point whose
//! iterates are computed at high precision outside.
use vstd::prelude::*;
use crate::complex::Complex;
use crate::double::{num, Double, ONE, QUARTER, ZERO};
use crate::field::GLITCH_MARKER;
use crate::orbit::{beyond_bailout, escapes, zero_point};

verus! {

/// The pattern of `0.0625`, the squared radius of the period-2 disc.
pub const DISC_RADIUS_SQ: u64 = 0x3fb0_0000_0000_0000;

/// The `n`-th iterate of the point `c`.
pub open spec fn iterate_of(c: Complex, n: nat) -> Complex
    decreases n,
{
    if n == 0 {
        zero_point()
    } else {
        iterate_of(c, (n - 1) as nat).step(c)
    }
}

/// The first iteration from `n` on, below the limit, at which the point has escaped; the limit
/// where there is none.
pub open spec fn first_beyond(c: Complex, n: nat, max_iter: nat) -> nat
    decreases max_iter - n,
{
    if n >= max_iter {
        max_iter
    } else if escapes(iterate_of(c, n).norm_sq()) {
        n
    } else {
        first_beyond(c, n + 1, max_iter)
    }
}

/// The iteration at which the point escapes and the squared magnitude there; the limit and zero
/// for a point that does not.
pub open spec fn iteration(c: Complex, max_iter: u32) -> (u32, Double) {
    let k = first_beyond(c, 0, max_iter as nat);
    if k < max_iter {
        (k as u32, iterate_of(c, k).norm_sq())
    } else {
        (max_iter, num(ZERO))
    }
}

/// The squared distance of `c` from the cusp at one quarter.
pub open spec fn cusp_distance_sq(c: Complex) -> Double {
    let x = c.re.minus(num(QUARTER));
    x.times(x).plus(c.im.times(c.im))
}

/// Whether a point is taken to lie in the main cardioid: `q*(q + x - 1/4) <= y*y/4`.
pub open spec fn in_cardioid(c: Complex) -> bool {
    let q = cusp_distance_sq(c);
    q.times(q.plus(c.re.minus(num(QUARTER)))).is_le(num(QUARTER).times(c.im.times(c.im)))
}

/// Whether a point is taken to lie in the disc of period 2.
pub open spec fn in_disc(c: Complex) -> bool {
    let x = c.re.plus(num(ONE));
    x.times(x).plus(c.im.times(c.im)).is_le(num(DISC_RADIUS_SQ))
}

/// Whether a point is not iterated, since it is known to stay.
pub open spec fn skipped(c: Complex) -> bool {
    in_cardioid(c) || in_disc(c)
}

/// What comes of a point.
pub open spec fn naive_outcome(c: Complex, max_iter: u32) -> (u32, Double) {
    if skipped(c) {
        (max_iter, num(ZERO))
    } else {
        iteration(c, max_iter)
    }
}

/// Whether a point lies in the main cardioid or the disc of period 2.
fn known_to_stay(c: Complex) -> (r: bool)
    ensures
        r == skipped(c),
{
    let quarter: Double = Double::new(QUARTER);
    let x: Double = c.re.sub(quarter);
    let y_sq: Double = c.im.mul(c.im);
    let q: Double = x.mul(x).add(y_sq);
    let x1: Double = c.re.add(Double::new(ONE));
    q.mul(q.add(x)).le(quarter.mul(y_sq)) || x1.mul(x1).add(y_sq).le(Double::new(DISC_RADIUS_SQ))
}

/// Iterates one point, unless it lies in the main cardioid or the disc of period 2.
pub fn naive_scalar(c_re: Double, c_im: Double, max_iter: u32) -> (r: (u32, Double))
    ensures
        r == naive_outcome(Complex { re: c_re, im: c_im }, max_iter),
{
    let c: Complex = Complex::new(c_re, c_im);
    if known_to_stay(c) {
        return (max_iter, Double::new(ZERO));
    }
    let mut z: Complex = Complex::zero();
    let mut i: u32 = 0;
    while i < max_iter
        invariant
            i <= max_iter,
            c == (Complex { re: c_re, im: c_im }),
            !skipped(c),
            z == iterate_of(c, i as nat),
            first_beyond(c, 0, max_iter as nat) == first_beyond(c, i as nat, max_iter as nat),
        decreases max_iter - i,
    {
        let mag: Double = z.abs_sq();
        if beyond_bailout(mag) {
            return (i, mag);
        }
        z = z.square_add(c);
        i = i + 1;
    }
    (max_iter, Double::new(ZERO))
}

/// What holds of a lane before iteration `i`: it is still iterating, or its outcome is known.
pub open spec fn lane_state(
    c: Complex,
    max_iter: u32,
    i: u32,
    active: bool,
    z: Complex,
    iters: u32,
    mag: Double,
) -> bool {
    if active {
        &&& !skipped(c)
        &&& z == iterate_of(c, i as nat)
        &&& iters == max_iter
        &&& mag == num(ZERO)
        &&& first_beyond(c, 0, max_iter as nat) == first_beyond(c, i as nat, max_iter as nat)
    } else {
        (iters, mag) == naive_outcome(c, max_iter)
    }
}

/// The point of one of four lanes.
pub open spec fn lane_point(c_re: [Double; 4], c_im: [Double; 4], lane: int) -> Complex {
    Complex { re: c_re@[lane], im: c_im@[lane] }
}

/// Iterates four points in step.
pub fn naive_simd(c_re: [Double; 4], c_im: [Double; 4], max_iter: u32) -> (r: (
    [u32; 4],
    [Double; 4],
))
    ensures
        forall|lane: int|
            0 <= lane < 4 ==> (#[trigger] r.0@[lane], r.1@[lane]) == naive_outcome(
                lane_point(c_re, c_im, lane),
                max_iter,
            ),
{
    let c: [Complex; 4] = [
        Complex::new(c_re[0], c_im[0]),
        Complex::new(c_re[1], c_im[1]),
        Complex::new(c_re[2], c_im[2]),
        Complex::new(c_re[3], c_im[3]),
    ];
    let mut active: [bool; 4] = [
        !known_to_stay(c[0]),
        !known_to_stay(c[1]),
        !known_to_stay(c[2]),
        !known_to_stay(c[3]),
    ];
    let zero: Double = Double::new(ZERO);
    let mut z: [Complex; 4] = [Complex::zero(), Complex::zero(), Complex::zero(), Complex::zero()];
    let mut iters: [u32; 4] = [max_iter, max_iter, max_iter, max_iter];
    let mut mags: [Double; 4] = [zero, zero, zero, zero];
    let mut any: bool = active[0] || active[1] || active[2] || active[3];
    let mut i: u32 = 0;
    while i < max_iter && any
        invariant
            i <= max_iter,
            forall|l: int| 0 <= l < 4 ==> #[trigger] c@[l] == lane_point(c_re, c_im, l),
            any || (forall|l: int| 0 <= l < 4 ==> !#[trigger] active@[l]),
            forall|l: int|
                0 <= l < 4 ==> lane_state(
                    c@[l],
                    max_iter,
                    i,
                    #[trigger] active@[l],
                    z@[l],
                    iters@[l],
                    mags@[l],
                ),
        decreases max_iter - i,
    {
        any = false;
        let mut lane: usize = 0;
        while lane < 4
            invariant
                lane <= 4,
                i < max_iter,
                any || (forall|l: int| 0 <= l < lane ==> !#[trigger] active@[l]),
                forall|l: int|
                    0 <= l < 4 ==> lane_state(
                        c@[l],
                        max_iter,
                        (if l < lane {
                            i + 1
                        } else {
                            i as int
                        }) as u32,
                        #[trigger] active@[l],
                        z@[l],
                        iters@[l],
                        mags@[l],
                    ),
            decreases 4 - lane,
        {
            if active[lane] {
                let m: Double = z[lane].abs_sq();
                if beyond_bailout(m) {
                    iters[lane] = i;
                    mags[lane] = m;
                    active[lane] = false;
                } else {
                    any = true;
                    let next: Complex = z[lane].square_add(c[lane]);
                    z[lane] = next;
                }
            }
            lane = lane + 1;
        }
        i = i + 1;
    }
    proof {
        assert forall|l: int| 0 <= l < 4 implies (#[trigger] iters@[l], mags@[l]) == naive_outcome(
            lane_point(c_re, c_im, l),
            max_iter,
        ) by {
            assert(c@[l] == lane_point(c_re, c_im, l));
            assert(lane_state(c@[l], max_iter, i, active@[l], z@[l], iters@[l], mags@[l]));
        }
    }
    (iters, mags)
}

/// What the lanes hold for four points is what each of them comes to alone.
pub proof fn lanes_match_single_points(
    c_re: [Double; 4],
    c_im: [Double; 4],
    max_iter: u32,
    lane: int,
)
    requires
        0 <= lane < 4,
    ensures
        naive_outcome(lane_point(c_re, c_im, lane), max_iter) == naive_outcome(
            Complex { re: c_re[lane], im: c_im[lane] },
            max_iter,
        ),
{
}

/// A point that comes to anything but the limit escapes there, and one that is not known to stay
/// comes to the limit only where it does not escape before.
pub proof fn limit_is_for_points_that_stay(c: Complex, max_iter: u32)
    ensures
        naive_outcome(c, max_iter).0 < max_iter ==> escapes(naive_outcome(c, max_iter).1),
        naive_outcome(c, max_iter).0 == max_iter ==> skipped(c) || (forall|n: nat|
            n < max_iter ==> !escapes(#[trigger] iterate_of(c, n).norm_sq())),
{
    lemma_first_beyond(c, 0, max_iter as nat);
}

/// A point either escapes before the limit, at a magnitude beyond the escape radius, or reaches
/// the limit.
pub proof fn iteration_is_escape_or_limit(c: Complex, max_iter: u32)
    ensures
        ({
            let (iters, mag) = iteration(c, max_iter);
            ||| iters < max_iter && escapes(mag)
            ||| iters == max_iter && mag == num(ZERO)
        }),
{
    lemma_first_beyond(c, 0, max_iter as nat);
}

/// The iteration found is one at which the point has escaped.
pub proof fn lemma_first_beyond(c: Complex, n: nat, max_iter: nat)
    requires
        n <= max_iter,
    ensures
        n <= first_beyond(c, n, max_iter) <= max_iter,
        first_beyond(c, n, max_iter) < max_iter ==> escapes(
            iterate_of(c, first_beyond(c, n, max_iter)).norm_sq(),
        ),
        forall|i: nat|
            n <= i < first_beyond(c, n, max_iter) ==> !escapes(
                #[trigger] iterate_of(c, i).norm_sq(),
            ),
    decreases max_iter - n,
{
    if n < max_iter && !escapes(iterate_of(c, n).norm_sq()) {
        lemma_first_beyond(c, n + 1, max_iter);
    }
}

/// What comes of an iterate of a high-precision iteration.
#[derive(Clone, Copy, PartialEq, Eq, Structural, Debug)]
pub enum HpStep {
    /// The iteration goes on: the next iterate is wanted.
    Next,
    /// The iteration is over, with this escape count and squared magnitude.
    Done(u32, Double),
}

/// What comes of the `i`-th iterate `z`.
pub open spec fn hp_step(i: nat, max_iter: u32, z: Complex) -> HpStep {
    if i >= max_iter {
        HpStep::Done(max_iter, num(ZERO))
    } else if escapes(z.norm_sq()) {
        HpStep::Done(i as u32, z.norm_sq())
    } else {
        HpStep::Next
    }
}

/// Takes in the `i`-th iterate of a high-precision iteration, rounded, and decides whether the
/// iteration is over.
pub fn naive_hp(i: u32, max_iter: u32, z_re: Double, z_im: Double) -> (r: HpStep)
    ensures
        r == hp_step(i as nat, max_iter, Complex { re: z_re, im: z_im }),
{
    if i >= max_iter {
        return HpStep::Done(max_iter, Double::new(ZERO));
    }
    let mag: Double = Complex::new(z_re, z_im).abs_sq();
    if beyond_bailout(mag) {
        HpStep::Done(i, mag)
    } else {
        HpStep::Next
    }
}

/// What comes of the iterates `zs` from the `i`-th on.
pub open spec fn run_hp(zs: Seq<Complex>, i: nat, max_iter: u32) -> HpStep
    decreases max_iter - i,
{
    match hp_step(i, max_iter, zs[i as int]) {
        HpStep::Next => run_hp(zs, i + 1, max_iter),
        HpStep::Done(iters, mag) => HpStep::Done(iters, mag),
    }
}

/// A high-precision iteration ends with its first iterate beyond the escape radius, or at the
/// limit.
pub proof fn hp_run_ends_at_first_escape(zs: Seq<Complex>, i: nat, max_iter: u32)
    requires
        i <= max_iter,
    ensures
        ({
            let k = crate::orbit::first_escape(zs, i, max_iter as nat);
            run_hp(zs, i, max_iter) == if k < max_iter {
                HpStep::Done(k as u32, zs[k as int].norm_sq())
            } else {
                HpStep::Done(max_iter, num(ZERO))
            }
        }),
    decreases max_iter - i,
{
    if i < max_iter && !escapes(zs[i as int].norm_sq()) {
        hp_run_ends_at_first_escape(zs, i + 1, max_iter);
    }
}

/// Where the limit is not the glitch mark, no iteration at high precision gives a glitch.
pub proof fn hp_step_is_no_glitch(i: nat, max_iter: u32, z: Complex)
    requires
        max_iter != GLITCH_MARKER,
    ensures
        hp_step(i, max_iter, z) matches HpStep::Done(iters, _) ==> iters != GLITCH_MARKER,
{
}

}
