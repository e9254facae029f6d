//! Perturbed iterations: the escape of a pixel computed as a small departure from a reference
//! orbit.
//!
//! With the reference iterates `Z_n` of a point `C`, the iterates of a pixel `c = C + delta` are
//! `Z_n + eps_n`, where `eps_{n+1} = 2*Z_n*eps_n + eps_n^2 + delta`.
use vstd::prelude::*;
use crate::complex::Complex;
use crate::double::{num, Double, TWO, ZERO};
use crate::field::GLITCH_MARKER;
use crate::laws::{
    alike,
    comparisons_are_alike,
    differences_are_alike,
    products_are_alike,
    sums_are_alike,
};
use crate::orbit::{
    beyond_bailout,
    escape_excludes_glitch,
    escapes,
    glitch_limit,
    zero_point,
    ReferenceOrbit,
};
use crate::rounding::INF_MAG;

verus! {

/// A pixel to iterate: its offset from the reference point, and the departure from the reference
/// orbit at the iteration where its own iteration starts.
pub struct Pixel {
    /// The offset of the pixel from the reference point.
    pub delta: Complex,
    /// The departure from the orbit at the start.
    pub eps: Complex,
    /// The iteration to start from.
    pub start: nat,
}

impl Pixel {
    /// The departure from the reference orbit at iteration `n`.
    pub open spec fn eps_at(self, orbit: ReferenceOrbit, n: nat) -> Complex
        decreases n,
    {
        if n <= self.start {
            self.eps
        } else {
            self.eps_at(orbit, (n - 1) as nat).perturbed(orbit.at(n - 1), self.delta)
        }
    }

    /// The squared magnitude of the pixel's iterate at iteration `n`.
    pub open spec fn mag_at(self, orbit: ReferenceOrbit, n: nat) -> Double {
        orbit.at(n as int).plus(self.eps_at(orbit, n)).norm_sq()
    }

    /// Whether the pixel is a glitch at iteration `n`: its iterate is so much smaller than the
    /// reference iterate that the departure has lost its accuracy.
    pub open spec fn glitched(self, orbit: ReferenceOrbit, n: nat) -> bool {
        self.mag_at(orbit, n).is_lt(orbit.tolerance_check@[n as int])
    }

    /// The first iteration from `n` on, below `end`, at which the pixel escapes or is a glitch;
    /// `end` where there is none.
    pub open spec fn first_settled(self, orbit: ReferenceOrbit, n: nat, end: nat) -> nat
        decreases end - n,
    {
        if n >= end {
            end
        } else if escapes(self.mag_at(orbit, n)) || self.glitched(orbit, n) {
            n
        } else {
            self.first_settled(orbit, n + 1, end)
        }
    }

    /// The iteration from which the orbit is continued in binary64 once it has escaped.
    pub open spec fn tail_start(self, orbit: ReferenceOrbit) -> nat {
        match orbit.escaped_at {
            Some(esc) => if esc < self.start {
                self.start
            } else {
                esc as nat
            },
            None => self.start,
        }
    }

    /// The continued orbit and the departure from it, `k` iterations after the tail's start.
    pub open spec fn tail_at(self, orbit: ReferenceOrbit, max_iter: u32, k: nat) -> (Complex, Complex)
        decreases k,
    {
        if k == 0 {
            let from = self.tail_start(orbit);
            let last = (orbit.count() - 1) as nat;
            (
                orbit.at(if from < last {
                    from as int
                } else {
                    last as int
                }),
                self.eps_at(orbit, orbit.bound(max_iter)),
            )
        } else {
            let (z, eps) = self.tail_at(orbit, max_iter, (k - 1) as nat);
            (z.step(orbit.c()), eps.perturbed(z, self.delta))
        }
    }

    /// The squared magnitude of the pixel's iterate, `k` iterations after the tail's start.
    pub open spec fn tail_mag(self, orbit: ReferenceOrbit, max_iter: u32, k: nat) -> Double {
        let (z, eps) = self.tail_at(orbit, max_iter, k);
        z.plus(eps).norm_sq()
    }

    /// The first iteration from `n` on, below the limit, at which the pixel escapes along the
    /// continued orbit; the limit where there is none.
    pub open spec fn first_tail_escape(self, orbit: ReferenceOrbit, max_iter: u32, n: nat) -> nat
        decreases max_iter - n,
    {
        if n >= max_iter {
            max_iter as nat
        } else if escapes(self.tail_mag(orbit, max_iter, (n - self.tail_start(orbit)) as nat)) {
            n
        } else {
            self.first_tail_escape(orbit, max_iter, n + 1)
        }
    }

    /// What comes of the continued orbit.
    pub open spec fn tail_outcome(self, orbit: ReferenceOrbit, max_iter: u32) -> (u32, Double) {
        let from = self.tail_start(orbit);
        let k = self.first_tail_escape(orbit, max_iter, from);
        if orbit.escaped_at is Some && k < max_iter {
            (k as u32, self.tail_mag(orbit, max_iter, (k - from) as nat))
        } else {
            (max_iter, num(ZERO))
        }
    }

    /// What comes of the pixel: the iteration of its escape and the squared magnitude there;
    /// [`GLITCH_MARKER`] and zero for a glitch; the limit and zero for neither.
    pub open spec fn outcome(self, orbit: ReferenceOrbit, max_iter: u32) -> (u32, Double) {
        let end = orbit.bound(max_iter);
        let k = self.first_settled(orbit, self.start, end);
        if k < end {
            if escapes(self.mag_at(orbit, k)) {
                (k as u32, self.mag_at(orbit, k))
            } else {
                (GLITCH_MARKER, num(ZERO))
            }
        } else {
            self.tail_outcome(orbit, max_iter)
        }
    }
}

/// The pixel that an iteration is asked for.
pub open spec fn pixel(
    delta_re: Double,
    delta_im: Double,
    eps_re: Double,
    eps_im: Double,
    start_n: u32,
) -> Pixel {
    Pixel {
        delta: Complex { re: delta_re, im: delta_im },
        eps: Complex { re: eps_re, im: eps_im },
        start: start_n as nat,
    }
}

/// Iterates one pixel from iteration `start_n` on, where its departure from the orbit is `eps`.
pub fn perturb_iterate(
    orbit: &ReferenceOrbit,
    delta_re: Double,
    delta_im: Double,
    max_iter: u32,
    eps_re: Double,
    eps_im: Double,
    start_n: u32,
) -> (r: (u32, Double))
    requires
        orbit.wf(),
    ensures
        r == pixel(delta_re, delta_im, eps_re, eps_im, start_n).outcome(*orbit, max_iter),
{
    let ghost p = pixel(delta_re, delta_im, eps_re, eps_im, start_n);
    let end: u32 = orbit.len_bound(max_iter);
    let delta: Complex = Complex::new(delta_re, delta_im);
    let mut eps: Complex = Complex::new(eps_re, eps_im);
    let mut n: u32 = start_n;
    while n < end
        invariant
            orbit.wf(),
            end == orbit.bound(max_iter),
            p == pixel(delta_re, delta_im, eps_re, eps_im, start_n),
            delta == p.delta,
            start_n <= n,
            n <= end || n == start_n,
            eps == p.eps_at(*orbit, n as nat),
            p.first_settled(*orbit, p.start, end as nat) == p.first_settled(
                *orbit,
                n as nat,
                end as nat,
            ),
        decreases end - n,
    {
        let z: Complex = Complex::new(orbit.z_re[n as usize], orbit.z_im[n as usize]);
        let mag_sq: Double = z.add(eps).abs_sq();
        if beyond_bailout(mag_sq) {
            return (n, mag_sq);
        }
        if mag_sq.lt(orbit.tolerance_check[n as usize]) {
            return (GLITCH_MARKER, Double::new(ZERO));
        }
        eps = eps.perturb(z, delta);
        n = n + 1;
    }
    proof {
        if start_n > end {
            assert(p.eps_at(*orbit, end as nat) == p.eps);
        }
    }
    iterate_tail(orbit, delta, max_iter, eps, start_n, Ghost(p))
}

/// Follows the orbit in binary64 from where it has escaped, for a pixel that has not.
fn iterate_tail(
    orbit: &ReferenceOrbit,
    delta: Complex,
    max_iter: u32,
    eps: Complex,
    start_n: u32,
    Ghost(p): Ghost<Pixel>,
) -> (r: (u32, Double))
    requires
        orbit.wf(),
        p.delta == delta,
        p.start == start_n,
        eps == p.eps_at(*orbit, orbit.bound(max_iter)),
    ensures
        r == p.tail_outcome(*orbit, max_iter),
{
    match orbit.escaped_at {
        Some(esc) => {
            let from: u32 = if esc < start_n {
                start_n
            } else {
                esc
            };
            let last: u32 = orbit.len() - 1;
            let at: u32 = if from < last {
                from
            } else {
                last
            };
            let c: Complex = Complex::new(orbit.c_re, orbit.c_im);
            let mut z: Complex = Complex::new(orbit.z_re[at as usize], orbit.z_im[at as usize]);
            let mut eps: Complex = eps;
            let mut n: u32 = from;
            while n < max_iter
                invariant
                    orbit.wf(),
                    orbit.escaped_at is Some,
                    c == orbit.c(),
                    p.delta == delta,
                    from == p.tail_start(*orbit),
                    from <= n,
                    n <= max_iter || n == from,
                    (z, eps) == p.tail_at(*orbit, max_iter, (n - from) as nat),
                    p.first_tail_escape(*orbit, max_iter, from as nat) == p.first_tail_escape(
                        *orbit,
                        max_iter,
                        n as nat,
                    ),
                decreases max_iter - n,
            {
                let mag_sq: Double = z.add(eps).abs_sq();
                if beyond_bailout(mag_sq) {
                    return (n, mag_sq);
                }
                eps = eps.perturb(z, delta);
                z = z.square_add(c);
                n = n + 1;
            }
            (max_iter, Double::new(ZERO))
        },
        None => (max_iter, Double::new(ZERO)),
    }
}

/// The pixel of one of four lanes.
pub open spec fn lane_pixel(
    delta_re: [Double; 4],
    delta_im: [Double; 4],
    eps_re: [Double; 4],
    eps_im: [Double; 4],
    start_n: u32,
    lane: int,
) -> Pixel {
    pixel(delta_re@[lane], delta_im@[lane], eps_re@[lane], eps_im@[lane], start_n)
}

/// Iterates four pixels in step.
pub fn perturb_iterate_simd(
    orbit: &ReferenceOrbit,
    delta_re: [Double; 4],
    delta_im: [Double; 4],
    max_iter: u32,
    eps_re: [Double; 4],
    eps_im: [Double; 4],
    start_n: u32,
) -> (r: ([u32; 4], [Double; 4]))
    requires
        orbit.wf(),
    ensures
        forall|lane: int|
            0 <= lane < 4 ==> (#[trigger] r.0@[lane], r.1@[lane]) == lane_pixel(
                delta_re,
                delta_im,
                eps_re,
                eps_im,
                start_n,
                lane,
            ).outcome(*orbit, max_iter),
{
    let ghost p = |lane: int| lane_pixel(delta_re, delta_im, eps_re, eps_im, start_n, lane);
    let end: u32 = orbit.len_bound(max_iter);
    let mut iters: [u32; 4] = [max_iter, max_iter, max_iter, max_iter];
    let mut mags: [Double; 4] = [Double::new(ZERO), Double::new(ZERO), Double::new(ZERO), Double::new(
        ZERO,
    )];
    let mut active: [bool; 4] = [true, true, true, true];
    let mut eps: [Complex; 4] = [
        Complex::new(eps_re[0], eps_im[0]),
        Complex::new(eps_re[1], eps_im[1]),
        Complex::new(eps_re[2], eps_im[2]),
        Complex::new(eps_re[3], eps_im[3]),
    ];
    let mut any: bool = true;
    let mut n: u32 = start_n;
    while n < end && any
        invariant
            orbit.wf(),
            end == orbit.bound(max_iter),
            start_n <= n,
            n <= end || n == start_n,
            p == (|lane: int| lane_pixel(delta_re, delta_im, eps_re, eps_im, start_n, lane)),
            any || (forall|l: int| 0 <= l < 4 ==> !#[trigger] active@[l]),
            forall|l: int|
                0 <= l < 4 ==> lane_state(
                    p(l),
                    *orbit,
                    max_iter,
                    n,
                    #[trigger] active@[l],
                    eps@[l],
                    iters@[l],
                    mags@[l],
                ),
        decreases end - n,
    {
        let z: Complex = Complex::new(orbit.z_re[n as usize], orbit.z_im[n as usize]);
        let tolerance: Double = orbit.tolerance_check[n as usize];
        any = false;
        let mut lane: usize = 0;
        while lane < 4
            invariant
                orbit.wf(),
                lane <= 4,
                n < end,
                end == orbit.bound(max_iter),
                start_n <= n,
                z == orbit.at(n as int),
                tolerance == orbit.tolerance_check@[n as int],
                p == (|lane: int| lane_pixel(delta_re, delta_im, eps_re, eps_im, start_n, lane)),
                any || (forall|l: int| 0 <= l < lane ==> !#[trigger] active@[l]),
                forall|l: int|
                    0 <= l < 4 ==> lane_state(
                        p(l),
                        *orbit,
                        max_iter,
                        (if l < lane {
                            n + 1
                        } else {
                            n as int
                        }) as u32,
                        #[trigger] active@[l],
                        eps@[l],
                        iters@[l],
                        mags@[l],
                    ),
            decreases 4 - lane,
        {
            let mag_sq: Double = z.add(eps[lane]).abs_sq();
            let escaped: bool = beyond_bailout(mag_sq);
            let glitched: bool = mag_sq.lt(tolerance);
            proof {
                escape_excludes_glitch(orbit.at(n as int), mag_sq);
            }
            if active[lane] {
                if escaped {
                    iters[lane] = n;
                    mags[lane] = mag_sq;
                }
                if glitched {
                    iters[lane] = GLITCH_MARKER;
                }
                if escaped || glitched {
                    active[lane] = false;
                } else {
                    any = true;
                    let delta: Complex = Complex::new(delta_re[lane], delta_im[lane]);
                    let next: Complex = eps[lane].perturb(z, delta);
                    eps[lane] = next;
                }
            }
            lane = lane + 1;
        }
        n = n + 1;
    }
    let mut lane: usize = 0;
    while lane < 4
        invariant
            orbit.wf(),
            lane <= 4,
            end == orbit.bound(max_iter),
            start_n <= n,
            n >= end || (forall|l: int| 0 <= l < 4 ==> !#[trigger] active@[l]),
            n <= end || n == start_n,
            p == (|lane: int| lane_pixel(delta_re, delta_im, eps_re, eps_im, start_n, lane)),
            forall|l: int|
                lane <= l < 4 ==> lane_state(
                    p(l),
                    *orbit,
                    max_iter,
                    n,
                    #[trigger] active@[l],
                    eps@[l],
                    iters@[l],
                    mags@[l],
                ),
            forall|l: int|
                0 <= l < lane ==> (#[trigger] iters@[l], mags@[l]) == p(l).outcome(*orbit, max_iter),
        decreases 4 - lane,
    {
        if active[lane] {
            let delta: Complex = Complex::new(delta_re[lane], delta_im[lane]);
            proof {
                if start_n > end {
                    assert(p(lane as int).eps_at(*orbit, end as nat) == p(lane as int).eps);
                }
            }
            let (i, m): (u32, Double) = iterate_tail(
                orbit,
                delta,
                max_iter,
                eps[lane],
                start_n,
                Ghost(p(lane as int)),
            );
            iters[lane] = i;
            mags[lane] = m;
        }
        lane = lane + 1;
    }
    (iters, mags)
}

/// What holds of a lane before iteration `n`: it is still iterating, or its outcome is known.
pub open spec fn lane_state(
    p: Pixel,
    orbit: ReferenceOrbit,
    max_iter: u32,
    n: u32,
    active: bool,
    eps: Complex,
    iters: u32,
    mag_sq: Double,
) -> bool {
    let end = orbit.bound(max_iter);
    if active {
        &&& eps == p.eps_at(orbit, n as nat)
        &&& iters == max_iter
        &&& mag_sq == num(ZERO)
        &&& p.first_settled(orbit, p.start, end) == p.first_settled(orbit, n as nat, end)
    } else {
        (iters, mag_sq) == p.outcome(orbit, max_iter)
    }
}

/// A lane iterates its pixel as that pixel would be iterated alone.
pub proof fn lanes_match_single_pixels(
    orbit: ReferenceOrbit,
    delta_re: [Double; 4],
    delta_im: [Double; 4],
    eps_re: [Double; 4],
    eps_im: [Double; 4],
    start_n: u32,
    max_iter: u32,
    lane: int,
)
    requires
        0 <= lane < 4,
    ensures
        lane_pixel(delta_re, delta_im, eps_re, eps_im, start_n, lane).outcome(orbit, max_iter) == pixel(
            delta_re[lane],
            delta_im[lane],
            eps_re[lane],
            eps_im[lane],
            start_n,
        ).outcome(orbit, max_iter),
{
}

/// A pixel either escapes, not before it starts and before the limit, at a magnitude beyond the
/// escape radius; or is a glitch; or reaches the limit. Only an escape records a magnitude.
pub proof fn outcome_is_escape_glitch_or_limit(p: Pixel, orbit: ReferenceOrbit, max_iter: u32)
    requires
        orbit.wf(),
    ensures
        ({
            let (iters, mag_sq) = p.outcome(orbit, max_iter);
            ||| p.start <= iters < max_iter && escapes(mag_sq)
            ||| iters == GLITCH_MARKER && mag_sq == num(ZERO)
            ||| iters == max_iter && mag_sq == num(ZERO)
        }),
{
    lemma_first_settled(p, orbit, p.start, orbit.bound(max_iter));
    lemma_first_tail_escape(p, orbit, max_iter, p.tail_start(orbit));
}

/// The iteration found is one at which the pixel settles.
proof fn lemma_first_settled(p: Pixel, orbit: ReferenceOrbit, n: nat, end: nat)
    ensures
        p.first_settled(orbit, n, end) <= end,
        n <= end ==> n <= p.first_settled(orbit, n, end),
        ({
            let k = p.first_settled(orbit, n, end);
            k < end ==> n <= k && (escapes(p.mag_at(orbit, k)) || p.glitched(orbit, k))
        }),
    decreases end - n,
{
    if n < end && !(escapes(p.mag_at(orbit, n)) || p.glitched(orbit, n)) {
        lemma_first_settled(p, orbit, n + 1, end);
    }
}

/// The iteration found is one at which the pixel escapes along the continued orbit.
proof fn lemma_first_tail_escape(p: Pixel, orbit: ReferenceOrbit, max_iter: u32, n: nat)
    ensures
        p.first_tail_escape(orbit, max_iter, n) <= max_iter,
        ({
            let k = p.first_tail_escape(orbit, max_iter, n);
            k < max_iter ==> n <= k && escapes(
                p.tail_mag(orbit, max_iter, (k - p.tail_start(orbit)) as nat),
            )
        }),
    decreases max_iter - n,
{
    if n < max_iter && !escapes(
        p.tail_mag(orbit, max_iter, (n - p.tail_start(orbit)) as nat),
    ) {
        lemma_first_tail_escape(p, orbit, max_iter, n + 1);
    }
}

/// Whether one of the parts is not a number.
pub open spec fn lost(z: Complex) -> bool {
    z.re.is_nan() || z.im.is_nan()
}

/// Without a departure and without an offset there is none after a step either, unless the
/// reference iterate is not finite.
proof fn lemma_no_departure(z: Complex)
    ensures
        ({
            let e = zero_point().perturbed(z, zero_point());
            e == zero_point() || lost(e)
        }),
{
    let o = num(ZERO);
    let two = num(TWO);
    let e = zero_point().perturbed(z, zero_point());
    crate::laws::zero_takes_all(o);
    crate::laws::zero_takes_all(two);
    if z.re.is_finite() && z.im.is_finite() {
        crate::laws::zero_takes_all(z.re);
        crate::laws::zero_takes_all(z.im);
        let a = z.re.times(o);
        let b = z.im.times(o);
        assert(a.is_zero() && b.is_zero());
        assert(a.minus(b).is_zero() && a.plus(b).is_zero()) by {
            reveal(Double::plus);
            crate::laws::lemma_zero_units();
        }
        lemma_twice_zero(a.minus(b));
        lemma_twice_zero(a.plus(b));
        assert(e == zero_point()) by {
            reveal(Double::plus);
            crate::laws::lemma_zero_units();
        }
    } else {
        assert(lost(e)) by {
            reveal(Double::plus);
            reveal(Double::times);
        }
    }
}

/// Twice a zero is a zero.
proof fn lemma_twice_zero(a: Double)
    requires
        a.is_zero(),
    ensures
        num(TWO).times(a).is_zero(),
{
    reveal(Double::times);
    crate::laws::zero_takes_all(num(TWO));
    crate::laws::lemma_zero_units();
    assert(num(TWO).times(num(ZERO)).is_zero());
}

/// A lost departure stays lost, and so does the iterate.
proof fn lemma_lost(eps: Complex, z: Complex, delta: Complex)
    requires
        lost(eps),
    ensures
        lost(eps.perturbed(z, delta)),
        z.plus(eps).norm_sq().is_nan(),
{
    reveal(Double::plus);
    reveal(Double::times);
}

/// The iterate of a pixel that does not depart from the orbit is not a glitch.
proof fn lemma_no_glitch_without_departure(z: Complex)
    ensures
        !z.plus(zero_point()).norm_sq().is_lt(glitch_limit(z)),
{
    let p = z.plus(zero_point());
    let m = z.norm_sq();
    let t = num(crate::orbit::GLITCH_TOL_SQ);
    lemma_same_square(z.re);
    lemma_same_square(z.im);
    assert(p.norm_sq() == m);
    crate::laws::square_is_not_negative(z.re);
    crate::laws::square_is_not_negative(z.im);
    crate::laws::sum_is_not_negative(z.re.times(z.re), z.im.times(z.im));
    if m.is_finite() {
        crate::laws::shrinking_factor(m, t);
        assert(!m.times(t).negative()) by {
            reveal(Double::times);
        }
    } else if m.is_infinite() {
        assert(m.rank() >= INF_MAG);
        assert(m.times(t).is_nan() || m.times(t).rank() <= INF_MAG);
    }
}

/// The square is that of the number, with zero added or not.
proof fn lemma_same_square(a: Double)
    ensures
        a.plus(num(ZERO)).times(a.plus(num(ZERO))) == a.times(a),
{
    if a.is_finite() {
        crate::laws::zero_adds_nothing(a);
        if a.is_zero() {
            reveal(Double::times);
        }
    } else {
        reveal(Double::plus);
        reveal(Double::times);
    }
}

/// The pixel at the reference point does not depart from the orbit, as long as the orbit is
/// finite.
proof fn lemma_reference_departure(orbit: ReferenceOrbit, n: nat)
    ensures
        ({
            let p = Pixel { delta: zero_point(), eps: zero_point(), start: 0 };
            p.eps_at(orbit, n) == zero_point() || lost(p.eps_at(orbit, n))
        }),
    decreases n,
{
    if n > 0 {
        let p = Pixel { delta: zero_point(), eps: zero_point(), start: 0 };
        lemma_reference_departure(orbit, (n - 1) as nat);
        let e = p.eps_at(orbit, (n - 1) as nat);
        if lost(e) {
            lemma_lost(e, orbit.at(n - 1), zero_point());
        } else {
            lemma_no_departure(orbit.at(n - 1));
        }
    }
}

/// The pixel at the reference point is never a glitch: it follows the orbit.
pub proof fn reference_pixel_is_no_glitch(orbit: ReferenceOrbit, max_iter: u32)
    requires
        orbit.wf(),
        max_iter != GLITCH_MARKER,
    ensures
        pixel(num(ZERO), num(ZERO), num(ZERO), num(ZERO), 0).outcome(orbit, max_iter).0
            != GLITCH_MARKER,
{
    let p = pixel(num(ZERO), num(ZERO), num(ZERO), num(ZERO), 0);
    let end = orbit.bound(max_iter);
    lemma_first_settled(p, orbit, p.start, end);
    lemma_first_tail_escape(p, orbit, max_iter, p.tail_start(orbit));
    let k = p.first_settled(orbit, p.start, end);
    if k < end {
        lemma_reference_departure(orbit, k);
        let e = p.eps_at(orbit, k);
        let z = orbit.at(k as int);
        if lost(e) {
            lemma_lost(e, z, zero_point());
        } else {
            lemma_no_glitch_without_departure(z);
        }
        assert(orbit.tolerance_check@[k as int] == glitch_limit(z));
        assert(!p.glitched(orbit, k));
    }
}

/// Whether two complex numbers are the same up to the signs of zeros and the patterns of what is
/// not a number.
pub open spec fn alike_points(a: Complex, b: Complex) -> bool {
    alike(a.re, b.re) && alike(a.im, b.im)
}

/// Departures that are alike lead to departures, and to magnitudes, that are alike.
proof fn lemma_alike_step(e: Complex, f: Complex, z: Complex, y: Complex, delta: Complex)
    requires
        alike_points(e, f),
        alike_points(z, y),
    ensures
        alike_points(e.perturbed(z, delta), f.perturbed(y, delta)),
        alike(z.plus(e).norm_sq(), y.plus(f).norm_sq()),
{
    let two = num(TWO);
    products_are_alike(z.re, e.re, y.re, f.re);
    products_are_alike(z.im, e.im, y.im, f.im);
    products_are_alike(z.re, e.im, y.re, f.im);
    products_are_alike(z.im, e.re, y.im, f.re);
    products_are_alike(e.re, e.re, f.re, f.re);
    products_are_alike(e.im, e.im, f.im, f.im);
    products_are_alike(two, e.re, two, f.re);
    products_are_alike(two.times(e.re), e.im, two.times(f.re), f.im);
    let (re, re2) = (
        z.re.times(e.re).minus(z.im.times(e.im)),
        y.re.times(f.re).minus(y.im.times(f.im)),
    );
    let (im, im2) = (
        z.re.times(e.im).plus(z.im.times(e.re)),
        y.re.times(f.im).plus(y.im.times(f.re)),
    );
    let (sq, sq2) = (
        e.re.times(e.re).minus(e.im.times(e.im)),
        f.re.times(f.re).minus(f.im.times(f.im)),
    );
    let (xy, xy2) = (two.times(e.re).times(e.im), two.times(f.re).times(f.im));
    differences_are_alike(z.re.times(e.re), z.im.times(e.im), y.re.times(f.re), y.im.times(f.im));
    sums_are_alike(z.re.times(e.im), z.im.times(e.re), y.re.times(f.im), y.im.times(f.re));
    differences_are_alike(e.re.times(e.re), e.im.times(e.im), f.re.times(f.re), f.im.times(f.im));
    products_are_alike(two, re, two, re2);
    products_are_alike(two, im, two, im2);
    sums_are_alike(two.times(re), sq, two.times(re2), sq2);
    sums_are_alike(two.times(im), xy, two.times(im2), xy2);
    sums_are_alike(two.times(re).plus(sq), delta.re, two.times(re2).plus(sq2), delta.re);
    sums_are_alike(two.times(im).plus(xy), delta.im, two.times(im2).plus(xy2), delta.im);
    let p = z.plus(e);
    let q = y.plus(f);
    sums_are_alike(z.re, e.re, y.re, f.re);
    sums_are_alike(z.im, e.im, y.im, f.im);
    products_are_alike(p.re, p.re, q.re, q.re);
    products_are_alike(p.im, p.im, q.im, q.im);
    sums_are_alike(p.re.times(p.re), p.im.times(p.im), q.re.times(q.re), q.im.times(q.im));
}

/// Steps from points that are alike lead to points that are alike.
proof fn lemma_alike_iterate(z: Complex, y: Complex, c: Complex)
    requires
        alike_points(z, y),
    ensures
        alike_points(z.step(c), y.step(c)),
{
    let two = num(TWO);
    products_are_alike(z.re, z.re, y.re, y.re);
    products_are_alike(z.im, z.im, y.im, y.im);
    products_are_alike(two, z.re, two, y.re);
    products_are_alike(two.times(z.re), z.im, two.times(y.re), y.im);
    differences_are_alike(z.re.times(z.re), z.im.times(z.im), y.re.times(y.re), y.im.times(y.im));
    sums_are_alike(
        z.re.times(z.re).minus(z.im.times(z.im)),
        c.re,
        y.re.times(y.re).minus(y.im.times(y.im)),
        c.re,
    );
    sums_are_alike(
        two.times(z.re).times(z.im),
        c.im,
        two.times(y.re).times(y.im),
        c.im,
    );
}

/// Pixels whose departures are alike at the start have departures that are alike.
proof fn lemma_alike_departures(p: Pixel, q: Pixel, orbit: ReferenceOrbit, n: nat)
    requires
        p.delta == q.delta,
        p.start == q.start,
        alike_points(p.eps, q.eps),
    ensures
        alike_points(p.eps_at(orbit, n), q.eps_at(orbit, n)),
        alike(p.mag_at(orbit, n), q.mag_at(orbit, n)),
    decreases n,
{
    if n > p.start {
        let k = (n - 1) as nat;
        lemma_alike_departures(p, q, orbit, k);
        let z = orbit.at(k as int);
        lemma_alike_step(p.eps_at(orbit, k), q.eps_at(orbit, k), z, z, p.delta);
    }
    let z = orbit.at(n as int);
    lemma_alike_step(p.eps_at(orbit, n), q.eps_at(orbit, n), z, z, p.delta);
}

/// Such pixels settle at the same iteration.
proof fn lemma_alike_settling(p: Pixel, q: Pixel, orbit: ReferenceOrbit, n: nat, end: nat)
    requires
        p.delta == q.delta,
        p.start == q.start,
        alike_points(p.eps, q.eps),
    ensures
        p.first_settled(orbit, n, end) == q.first_settled(orbit, n, end),
    decreases end - n,
{
    if n < end {
        lemma_alike_departures(p, q, orbit, n);
        let (a, b) = (p.mag_at(orbit, n), q.mag_at(orbit, n));
        comparisons_are_alike(a, b, num(crate::orbit::BAILOUT));
        comparisons_are_alike(a, b, orbit.tolerance_check@[n as int]);
        lemma_alike_settling(p, q, orbit, n + 1, end);
    }
}

/// Two tails that start alike, `skip` iterations apart, go on alike.
proof fn lemma_alike_tails(
    p: Pixel,
    q: Pixel,
    orbit: ReferenceOrbit,
    max_iter: u32,
    skip: nat,
    k: nat,
)
    requires
        p.delta == q.delta,
        ({
            let (z, e) = p.tail_at(orbit, max_iter, skip);
            let (y, f) = q.tail_at(orbit, max_iter, 0);
            alike_points(z, y) && alike_points(e, f)
        }),
    ensures
        ({
            let (z, e) = p.tail_at(orbit, max_iter, skip + k);
            let (y, f) = q.tail_at(orbit, max_iter, k);
            alike_points(z, y) && alike_points(e, f)
        }),
        alike(p.tail_mag(orbit, max_iter, skip + k), q.tail_mag(orbit, max_iter, k)),
    decreases k,
{
    if k > 0 {
        let j = (k - 1) as nat;
        lemma_alike_tails(p, q, orbit, max_iter, skip, j);
        let (z, e) = p.tail_at(orbit, max_iter, skip + j);
        let (y, f) = q.tail_at(orbit, max_iter, j);
        lemma_alike_step(e, f, z, y, p.delta);
        lemma_alike_iterate(z, y, orbit.c());
        assert(skip + k - 1 == skip + j);
    }
    let (z, e) = p.tail_at(orbit, max_iter, skip + k);
    let (y, f) = q.tail_at(orbit, max_iter, k);
    lemma_alike_step(e, f, z, y, p.delta);
}

/// Two tails that go on alike escape at the same iteration.
proof fn lemma_alike_escapes(
    p: Pixel,
    q: Pixel,
    orbit: ReferenceOrbit,
    max_iter: u32,
    skip: nat,
    n: nat,
)
    requires
        p.delta == q.delta,
        q.tail_start(orbit) == p.tail_start(orbit) + skip,
        n >= q.tail_start(orbit),
        ({
            let (z, e) = p.tail_at(orbit, max_iter, skip);
            let (y, f) = q.tail_at(orbit, max_iter, 0);
            alike_points(z, y) && alike_points(e, f)
        }),
    ensures
        p.first_tail_escape(orbit, max_iter, n) == q.first_tail_escape(orbit, max_iter, n),
        ({
            let k = q.first_tail_escape(orbit, max_iter, n);
            n <= k && k < max_iter ==> p.tail_mag(
                orbit,
                max_iter,
                (k - p.tail_start(orbit)) as nat,
            ) == q.tail_mag(orbit, max_iter, (k - q.tail_start(orbit)) as nat)
        }),
    decreases max_iter - n,
{
    if n < max_iter {
        let k = (n - q.tail_start(orbit)) as nat;
        lemma_alike_tails(p, q, orbit, max_iter, skip, k);
        assert((n - p.tail_start(orbit)) as nat == skip + k);
        let (a, b) = (p.tail_mag(orbit, max_iter, skip + k), q.tail_mag(orbit, max_iter, k));
        comparisons_are_alike(a, b, num(crate::orbit::BAILOUT));
        if escapes(a) {
            assert(a == b);
        } else {
            lemma_alike_escapes(p, q, orbit, max_iter, skip, n + 1);
            lemma_first_tail_escape(q, orbit, max_iter, n + 1);
        }
    }
}

/// Pixels that start alike come to the same.
pub proof fn lemma_alike_outcomes(p: Pixel, q: Pixel, orbit: ReferenceOrbit, max_iter: u32)
    requires
        p.delta == q.delta,
        p.start == q.start,
        alike_points(p.eps, q.eps),
    ensures
        p.outcome(orbit, max_iter) == q.outcome(orbit, max_iter),
{
    let end = orbit.bound(max_iter);
    lemma_alike_settling(p, q, orbit, p.start, end);
    let k = p.first_settled(orbit, p.start, end);
    lemma_alike_departures(p, q, orbit, k);
    let (a, b) = (p.mag_at(orbit, k), q.mag_at(orbit, k));
    comparisons_are_alike(a, b, num(crate::orbit::BAILOUT));
    lemma_alike_departures(p, q, orbit, end);
    lemma_alike_escapes(p, q, orbit, max_iter, 0, p.tail_start(orbit));
    lemma_first_tail_escape(p, orbit, max_iter, p.tail_start(orbit));
}

/// A pixel with the departure that another one has come to goes on as that one.
proof fn lemma_same_departures(p: Pixel, q: Pixel, orbit: ReferenceOrbit, n: nat)
    requires
        p.delta == q.delta,
        p.start <= q.start <= n,
        q.eps == p.eps_at(orbit, q.start),
    ensures
        q.eps_at(orbit, n) == p.eps_at(orbit, n),
    decreases n,
{
    if n > q.start {
        lemma_same_departures(p, q, orbit, (n - 1) as nat);
    }
}

/// Such pixels settle at the same iteration.
proof fn lemma_same_settling(p: Pixel, q: Pixel, orbit: ReferenceOrbit, n: nat, end: nat)
    requires
        p.delta == q.delta,
        p.start <= q.start <= n,
        q.eps == p.eps_at(orbit, q.start),
    ensures
        q.first_settled(orbit, n, end) == p.first_settled(orbit, n, end),
    decreases end - n,
{
    if n < end {
        lemma_same_departures(p, q, orbit, n);
        lemma_same_settling(p, q, orbit, n + 1, end);
    }
}

/// Up to the iteration at which it settles, a pixel is iterated on.
proof fn lemma_settles_later(p: Pixel, orbit: ReferenceOrbit, n: nat, m: nat, end: nat)
    requires
        n <= m <= p.first_settled(orbit, n, end),
    ensures
        p.first_settled(orbit, m, end) == p.first_settled(orbit, n, end),
    decreases m - n,
{
    if n < m {
        lemma_first_settled(p, orbit, n, end);
        lemma_settles_later(p, orbit, n + 1, m, end);
    }
}

/// Starting later, with the departure that the pixel has come to by then, changes nothing, as
/// long as the pixel has not settled before.
pub proof fn later_start_changes_nothing(p: Pixel, orbit: ReferenceOrbit, max_iter: u32, m: nat)
    requires
        orbit.wf(),
        p.start <= m <= p.first_settled(orbit, p.start, orbit.bound(max_iter)),
    ensures
        (Pixel { delta: p.delta, eps: p.eps_at(orbit, m), start: m }).outcome(orbit, max_iter)
            == p.outcome(orbit, max_iter),
{
    let q = Pixel { delta: p.delta, eps: p.eps_at(orbit, m), start: m };
    let end = orbit.bound(max_iter);
    lemma_first_settled(p, orbit, p.start, end);
    lemma_settles_later(p, orbit, p.start, m, end);
    lemma_same_settling(p, q, orbit, m, end);
    let k = p.first_settled(orbit, p.start, end);
    lemma_same_departures(p, q, orbit, k);
    lemma_same_departures(p, q, orbit, end);
    if orbit.escaped_at is Some {
        lemma_alike_escapes(p, q, orbit, max_iter, 0, p.tail_start(orbit));
        lemma_first_tail_escape(p, orbit, max_iter, p.tail_start(orbit));
    }
}

/// From a reference iterate that is zero, a pixel that has not departed comes to depart by its
/// offset.
proof fn lemma_first_departure(delta: Complex)
    ensures
        alike_points(zero_point().perturbed(zero_point(), delta), delta),
        !escapes(zero_point().plus(zero_point()).norm_sq()),
        !zero_point().plus(zero_point()).norm_sq().is_lt(glitch_limit(zero_point())),
{
    let o = num(ZERO);
    crate::laws::zero_takes_all(o);
    crate::laws::zero_takes_all(num(TWO));
    assert(o.plus(o) == o && o.minus(o) == o) by {
        reveal(Double::plus);
        crate::laws::lemma_zero_units();
    }
    lemma_zero_plus(delta.re);
    lemma_zero_plus(delta.im);
    lemma_no_glitch_without_departure(zero_point());
    crate::orbit::lemma_zero_stays(zero_point());
}

/// A number added to zero is that number, but for the sign of zero.
proof fn lemma_zero_plus(a: Double)
    ensures
        alike(num(ZERO).plus(a), a),
{
    if a.is_finite() {
        crate::laws::zero_adds_nothing(a);
        crate::laws::addition_commutes(num(ZERO), a);
    } else {
        reveal(Double::plus);
    }
}

/// Starting at the first iteration with the offset as the departure gives the same as starting
/// from nothing: there the orbit is at the reference point, and the pixel at its own.
pub proof fn first_iteration_departs_by_the_offset(
    orbit: ReferenceOrbit,
    dr: Double,
    di: Double,
    max_iter: u32,
)
    requires
        orbit.wf(),
        orbit.at(0) == zero_point(),
        orbit.count() > 1 ==> alike_points(orbit.at(1), orbit.c()),
    ensures
        pixel(dr, di, num(ZERO), num(ZERO), 0).outcome(orbit, max_iter) == pixel(
            dr,
            di,
            dr,
            di,
            1,
        ).outcome(orbit, max_iter),
{
    let p = pixel(dr, di, num(ZERO), num(ZERO), 0);
    let q = pixel(dr, di, dr, di, 1);
    let end = orbit.bound(max_iter);
    lemma_first_departure(p.delta);
    assert(p.eps_at(orbit, 0) == zero_point());
    if end > 0 {
        assert(p.eps_at(orbit, 1) == zero_point().perturbed(zero_point(), p.delta));
        assert(orbit.tolerance_check@[0] == glitch_limit(orbit.at(0)));
        assert(!p.glitched(orbit, 0) && !escapes(p.mag_at(orbit, 0)));
        assert(p.first_settled(orbit, 0, end) == p.first_settled(orbit, 1, end));
        lemma_first_settled(p, orbit, 1, end);
        later_start_changes_nothing(p, orbit, max_iter, 1);
        let r = Pixel { delta: p.delta, eps: p.eps_at(orbit, 1), start: 1 };
        lemma_alike_outcomes(r, q, orbit, max_iter);
    } else if orbit.escaped_at is Some && max_iter > 0 {
        lemma_escape_at_once(orbit, dr, di, max_iter);
    }
}

/// The same where the reference point itself lies beyond the escape radius, so that the pixel is
/// followed in binary64 from the start.
proof fn lemma_escape_at_once(orbit: ReferenceOrbit, dr: Double, di: Double, max_iter: u32)
    requires
        orbit.wf(),
        orbit.at(0) == zero_point(),
        alike_points(orbit.at(1), orbit.c()),
        orbit.escaped_at == Some(0u32),
        max_iter > 0,
    ensures
        pixel(dr, di, num(ZERO), num(ZERO), 0).outcome(orbit, max_iter) == pixel(
            dr,
            di,
            dr,
            di,
            1,
        ).outcome(orbit, max_iter),
{
    let p = pixel(dr, di, num(ZERO), num(ZERO), 0);
    let q = pixel(dr, di, dr, di, 1);
    lemma_first_departure(p.delta);
    assert(orbit.bound(max_iter) == 0);
    assert(p.tail_start(orbit) == 0 && q.tail_start(orbit) == 1);
    assert(p.tail_at(orbit, max_iter, 0) == (zero_point(), zero_point()));
    assert(q.tail_at(orbit, max_iter, 0) == (orbit.at(1), q.delta));
    let c = orbit.c();
    let o = num(ZERO);
    crate::laws::zero_takes_all(o);
    crate::laws::zero_takes_all(num(TWO));
    assert(o.minus(o) == o) by {
        reveal(Double::plus);
        crate::laws::lemma_zero_units();
    }
    lemma_zero_plus(c.re);
    lemma_zero_plus(c.im);
    assert(alike_points(zero_point().step(c), c));
    assert(p.tail_at(orbit, max_iter, 1) == (
        zero_point().step(c),
        zero_point().perturbed(zero_point(), p.delta),
    ));
    assert(!escapes(p.tail_mag(orbit, max_iter, 0)));
    assert(p.first_tail_escape(orbit, max_iter, 0) == p.first_tail_escape(orbit, max_iter, 1));
    lemma_alike_escapes(p, q, orbit, max_iter, 1, 1);
    lemma_first_tail_escape(q, orbit, max_iter, 1);
}

}
