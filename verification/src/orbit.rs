//! The reference orbit: the iterates of one point, computed at high precision and rounded.
//!
//! The high-precision iteration `Z' = Z*Z + C` runs outside. What comes in here, one by one, are
//! its iterates rounded to binary64; what is decided here is how long the orbit goes on, where it
//! escapes, and below which magnitude a nearby pixel is a glitch.
use vstd::prelude::*;
use crate::complex::Complex;
use crate::double::{num, Double, ZERO};
use crate::laws::shrinking_factor;

verus! {

/// The squared escape radius, `16.0`.
pub const BAILOUT: u64 = 0x4030_0000_0000_0000;

/// The square of the glitch tolerance `1e-3`.
pub const GLITCH_TOL_SQ: u64 = 0x3eb0_c6f7_a0b5_ed8d;

/// Whether a squared magnitude is above the squared escape radius.
pub open spec fn escapes(mag_sq: Double) -> bool {
    num(BAILOUT).is_lt(mag_sq)
}

/// Whether a squared magnitude is above the squared escape radius.
pub fn beyond_bailout(mag_sq: Double) -> (r: bool)
    ensures
        r == escapes(mag_sq),
{
    Double::new(BAILOUT).lt(mag_sq)
}

/// The squared magnitude below which a pixel is a glitch at a reference value `z`.
pub open spec fn glitch_limit(z: Complex) -> Double {
    z.norm_sq().times(num(GLITCH_TOL_SQ))
}

/// The iterates of a reference point up to its escape or up to the iteration limit.
pub struct ReferenceOrbit {
    /// The real parts of the iterates.
    pub z_re: Vec<Double>,
    /// The imaginary parts of the iterates.
    pub z_im: Vec<Double>,
    /// The glitch limit at each iterate.
    pub tolerance_check: Vec<Double>,
    /// The real part of the reference point.
    pub c_re: Double,
    /// The imaginary part of the reference point.
    pub c_im: Double,
    /// The iteration whose step led beyond the escape radius, if one did.
    pub escaped_at: Option<u32>,
}

impl ReferenceOrbit {
    /// The number of iterates.
    pub open spec fn count(self) -> nat {
        self.z_re@.len()
    }

    /// The `n`-th iterate.
    pub open spec fn at(self, n: int) -> Complex {
        Complex { re: self.z_re@[n], im: self.z_im@[n] }
    }

    /// The reference point.
    pub open spec fn c(self) -> Complex {
        Complex { re: self.c_re, im: self.c_im }
    }

    /// What holds of the arrays at every stage: one length, every glitch limit in place.
    pub open spec fn arrays_fit(self) -> bool {
        &&& self.z_im@.len() == self.z_re@.len()
        &&& self.tolerance_check@.len() == self.z_re@.len()
        &&& 1 <= self.z_re@.len() <= u32::MAX
        &&& forall|n: int|
            0 <= n < self.count() ==> #[trigger] self.tolerance_check@[n] == glitch_limit(self.at(n))
    }

    /// The invariant of a complete orbit: no iterate but the last lies beyond the escape radius,
    /// and the last one does where an escape is recorded.
    pub open spec fn wf(self) -> bool {
        &&& self.arrays_fit()
        &&& forall|n: int| 0 <= n < self.count() - 1 ==> !escapes(#[trigger] self.at(n).norm_sq())
        &&& match self.escaped_at {
            Some(esc) => self.count() == esc + 2 && escapes(self.at(esc + 1).norm_sq()),
            None => !escapes(self.at(self.count() - 1).norm_sq()),
        }
    }

    /// The end of the iterations that use the orbit, under the limit `max_iter`.
    pub open spec fn bound(self, max_iter: u32) -> nat {
        match self.escaped_at {
            Some(esc) => if esc < max_iter {
                esc as nat
            } else {
                max_iter as nat
            },
            None => if max_iter < self.count() - 1 {
                max_iter as nat
            } else {
                (self.count() - 1) as nat
            },
        }
    }

    /// The number of iterates.
    pub fn len(&self) -> (r: u32)
        requires
            self.wf(),
        ensures
            r == self.count(),
    {
        self.z_re.len() as u32
    }

    /// The `n`-th iterate.
    pub fn z(&self, n: u32) -> (r: (Double, Double))
        requires
            self.wf(),
            n < self.count(),
        ensures
            r == (self.at(n as int).re, self.at(n as int).im),
    {
        (self.z_re[n as usize], self.z_im[n as usize])
    }

    /// The end of the iterations that use the orbit, under the limit `max_iter`.
    pub fn len_bound(&self, max_iter: u32) -> (r: u32)
        requires
            self.wf(),
        ensures
            r == self.bound(max_iter),
    {
        match self.escaped_at {
            Some(esc) => if esc < max_iter {
                esc
            } else {
                max_iter
            },
            None => {
                let last: u32 = self.len() - 1;
                if max_iter < last {
                    max_iter
                } else {
                    last
                }
            },
        }
    }

    /// The iterates.
    pub open spec fn points(self) -> Seq<Complex> {
        Seq::new(self.count(), |n: int| self.at(n))
    }

    /// Starts the orbit of the point `c` with its first iterate, zero.
    pub fn begin_hp(c_re: Double, c_im: Double, max_iter: u32) -> (r: OrbitStep)
        ensures
            r.wf(max_iter),
            r.model() == start_orbit(max_iter as nat),
            r.c() == (Complex { re: c_re, im: c_im }),
    {
        let zero: Double = Double::new(ZERO);
        let limit: Double = Complex::zero().abs_sq().mul(Double::new(GLITCH_TOL_SQ));
        let mut z_re: Vec<Double> = Vec::new();
        let mut z_im: Vec<Double> = Vec::new();
        let mut tolerance_check: Vec<Double> = Vec::new();
        z_re.push(zero);
        z_im.push(zero);
        tolerance_check.push(limit);
        let orbit: ReferenceOrbit = ReferenceOrbit {
            z_re,
            z_im,
            tolerance_check,
            c_re,
            c_im,
            escaped_at: None,
        };
        proof {
            lemma_zero_stays(orbit.at(0));
            assert(orbit.points() =~= seq![zero_point()]);
        }
        if max_iter == 0 {
            OrbitStep::Done(orbit)
        } else {
            OrbitStep::More(OrbitBuilder { orbit, max_iter })
        }
    }

    /// Takes in the next iterate of the high-precision iteration, rounded, and decides whether
    /// the orbit is complete.
    pub fn compute_hp(building: OrbitBuilder, z_re: Double, z_im: Double) -> (r: OrbitStep)
        requires
            building.wf(),
            building.orbit.count() < u32::MAX,
        ensures
            r.wf(building.max_iter),
            r.model() == building.model().advance(
                Complex { re: z_re, im: z_im },
                building.max_iter as nat,
            ),
            r.c() == building.orbit.c(),
    {
        let max_iter: u32 = building.max_iter;
        let mut orbit: ReferenceOrbit = building.orbit;
        let ghost before = orbit;
        let n: u32 = orbit.z_re.len() as u32;
        let mag_sq: Double = Complex::new(z_re, z_im).abs_sq();
        let escaped: bool = beyond_bailout(mag_sq);
        orbit.z_re.push(z_re);
        orbit.z_im.push(z_im);
        orbit.tolerance_check.push(mag_sq.mul(Double::new(GLITCH_TOL_SQ)));
        if escaped {
            orbit.escaped_at = Some(n - 1);
        }
        proof {
            let z = Complex { re: z_re, im: z_im };
            assert(orbit.at(n as int) == z);
            assert forall|k: int| 0 <= k < orbit.count() implies #[trigger] orbit.tolerance_check@[k]
                == glitch_limit(orbit.at(k)) by {
                if k < before.count() {
                    assert(before.tolerance_check@[k] == glitch_limit(before.at(k)));
                    assert(orbit.at(k) == before.at(k));
                }
            }
            assert forall|k: int| 0 <= k < before.count() implies !escapes(
                #[trigger] orbit.at(k).norm_sq(),
            ) by {
                assert(orbit.at(k) == before.at(k));
                assert(!escapes(before.at(k).norm_sq()));
            }
            assert(orbit.points() =~= before.points().push(z));
        }
        if escaped || n == max_iter {
            OrbitStep::Done(orbit)
        } else {
            OrbitStep::More(OrbitBuilder { orbit, max_iter })
        }
    }
}

/// An orbit that is not complete yet.
pub struct OrbitBuilder {
    /// The iterates so far; no escape is recorded.
    pub orbit: ReferenceOrbit,
    /// The iteration limit.
    pub max_iter: u32,
}

/// What comes of an iterate.
pub enum OrbitStep {
    /// The orbit goes on: the next iterate is wanted.
    More(OrbitBuilder),
    /// The orbit is complete.
    Done(ReferenceOrbit),
}

/// What an orbit under construction has come to.
pub struct OrbitModel {
    /// The iterates taken in.
    pub points: Seq<Complex>,
    /// The iteration whose step led beyond the escape radius, if one did.
    pub escaped_at: Option<int>,
    /// Whether no further iterate is wanted.
    pub done: bool,
}

/// The complex zero, where every orbit starts.
pub open spec fn zero_point() -> Complex {
    Complex { re: num(ZERO), im: num(ZERO) }
}

/// The orbit of which only the first iterate is known.
pub open spec fn start_orbit(max_iter: nat) -> OrbitModel {
    OrbitModel { points: seq![zero_point()], escaped_at: None, done: max_iter == 0 }
}

impl OrbitModel {
    /// The orbit after one more iterate: it is complete where the iterate lies beyond the escape
    /// radius or is the last within the limit.
    pub open spec fn advance(self, z: Complex, max_iter: nat) -> OrbitModel {
        OrbitModel {
            points: self.points.push(z),
            escaped_at: if escapes(z.norm_sq()) {
                Some(self.points.len() - 1)
            } else {
                None
            },
            done: escapes(z.norm_sq()) || self.points.len() == max_iter,
        }
    }
}

impl OrbitBuilder {
    /// The invariant of an incomplete orbit.
    pub open spec fn wf(self) -> bool {
        &&& self.orbit.arrays_fit()
        &&& self.orbit.escaped_at is None
        &&& self.orbit.count() <= self.max_iter
        &&& forall|n: int|
            0 <= n < self.orbit.count() ==> !escapes(#[trigger] self.orbit.at(n).norm_sq())
    }

    /// The iterates taken in.
    pub open spec fn model(self) -> OrbitModel {
        OrbitModel { points: self.orbit.points(), escaped_at: None, done: false }
    }
}

impl OrbitStep {
    /// The invariant of either outcome, under the iteration limit `max_iter`.
    pub open spec fn wf(self, max_iter: u32) -> bool {
        match self {
            OrbitStep::More(b) => b.wf() && b.max_iter == max_iter,
            OrbitStep::Done(o) => o.wf() && o.count() <= max_iter + 1 && (o.escaped_at is None
                ==> o.count() == max_iter + 1),
        }
    }

    /// The iterates taken in, and whether more are wanted.
    pub open spec fn model(self) -> OrbitModel {
        match self {
            OrbitStep::More(b) => b.model(),
            OrbitStep::Done(o) => OrbitModel {
                points: o.points(),
                escaped_at: match o.escaped_at {
                    Some(esc) => Some(esc as int),
                    None => None,
                },
                done: true,
            },
        }
    }

    /// The reference point.
    pub open spec fn c(self) -> Complex {
        match self {
            OrbitStep::More(b) => b.orbit.c(),
            OrbitStep::Done(o) => o.c(),
        }
    }
}

/// Zero does not lie beyond the escape radius.
pub proof fn lemma_zero_stays(z: Complex)
    requires
        z == zero_point(),
    ensures
        !escapes(z.norm_sq()),
{
    let zero = num(ZERO);
    crate::laws::lemma_zero_units();
    assert(zero.times(zero) == zero) by {
        reveal(Double::times);
        vstd::arithmetic::power2::lemma_pow2_pos(crate::rounding::UNIT_EXP as nat);
        let u = vstd::arithmetic::power2::pow2(crate::rounding::UNIT_EXP as nat);
        assert(0 * u == 0 * 1) by (nonlinear_arith);
        assert(zero.units() * zero.units() == 0) by (nonlinear_arith)
            requires
                zero.units() == 0,
        ;
        crate::rounding::lemma_round_cross(0, u, 0, 1);
        crate::rounding::lemma_round_exact(0);
    }
    assert(zero.plus(zero) == zero) by {
        reveal(Double::plus);
    }
}

/// The orbit that comes of taking in `zs[1]`, `zs[2]`, up to `zs[n]`; once it is complete,
/// nothing more is taken in.
pub open spec fn run_orbit(zs: Seq<Complex>, n: nat, max_iter: nat) -> OrbitModel
    decreases n,
{
    if n == 0 {
        start_orbit(max_iter)
    } else {
        let before = run_orbit(zs, (n - 1) as nat, max_iter);
        if before.done {
            before
        } else {
            before.advance(zs[n as int], max_iter)
        }
    }
}

/// The first index from `k` on, below `end`, whose iterate lies beyond the escape radius; `end`
/// where there is none.
pub open spec fn first_escape(zs: Seq<Complex>, k: nat, end: nat) -> nat
    decreases end - k,
{
    if k >= end {
        end
    } else if escapes(zs[k as int].norm_sq()) {
        k
    } else {
        first_escape(zs, k + 1, end)
    }
}

/// An orbit runs up to and including the first iterate beyond the escape radius, or up to the
/// iteration limit, and records the iteration before that iterate as its escape.
pub proof fn orbit_ends_at_first_escape(zs: Seq<Complex>, max_iter: nat)
    requires
        zs.len() == max_iter + 1,
        zs[0] == zero_point(),
    ensures
        ({
            let k = first_escape(zs, 1, max_iter + 1);
            let o = run_orbit(zs, max_iter, max_iter);
            &&& o.done
            &&& k <= max_iter ==> o.points == zs.take(k as int + 1) && o.escaped_at == Some(k - 1)
            &&& k > max_iter ==> o.points == zs && o.escaped_at is None
        }),
{
    lemma_run_orbit(zs, max_iter, max_iter);
    assert(zs.take(max_iter as int + 1) =~= zs);
    lemma_first_escape(zs, 1, max_iter + 1);
}

/// What has been taken in after `n` iterates.
proof fn lemma_run_orbit(zs: Seq<Complex>, n: nat, max_iter: nat)
    requires
        zs.len() == max_iter + 1,
        n <= max_iter,
        zs[0] == zero_point(),
    ensures
        ({
            let k = first_escape(zs, 1, n + 1);
            let o = run_orbit(zs, n, max_iter);
            &&& k <= n ==> o.done && o.points == zs.take(k as int + 1) && o.escaped_at == Some(k - 1)
            &&& k > n ==> o.points == zs.take(n as int + 1) && o.escaped_at is None && o.done == (n
                == max_iter)
        }),
    decreases n,
{
    lemma_first_escape(zs, 1, n + 1);
    if n == 0 {
        assert(zs.take(1) =~= seq![zero_point()]);
    } else {
        lemma_run_orbit(zs, (n - 1) as nat, max_iter);
        lemma_first_escape(zs, 1, n);
        let k = first_escape(zs, 1, n);
        let l = first_escape(zs, 1, n + 1);
        if k < n {
            assert(k == l) by {
                if l < k {
                    assert(!escapes(zs[l as int].norm_sq()));
                }
                if k < l {
                    assert(!escapes(zs[k as int].norm_sq()));
                }
            }
        } else {
            if l < n {
                assert(!escapes(zs[l as int].norm_sq()));
            }
            if l == n + 1 {
                assert(!escapes(zs[n as int].norm_sq()));
            }
            assert(zs.take(n as int).push(zs[n as int]) =~= zs.take(n as int + 1));
        }
    }
}

/// What determines the first escape.
pub proof fn lemma_first_escape(zs: Seq<Complex>, k: nat, end: nat)
    requires
        k <= end,
    ensures
        k <= first_escape(zs, k, end) <= end,
        first_escape(zs, k, end) < end ==> escapes(zs[first_escape(zs, k, end) as int].norm_sq()),
        forall|i: int|
            k <= i < first_escape(zs, k, end) ==> !escapes(#[trigger] zs[i].norm_sq()),
    decreases end - k,
{
    if k < end && !escapes(zs[k as int].norm_sq()) {
        lemma_first_escape(zs, k + 1, end);
    }
}

/// At an iterate within the escape radius the glitch limit is within it too: no pixel is beyond
/// the escape radius and below the glitch limit at once.
pub proof fn escape_excludes_glitch(z: Complex, mag_sq: Double)
    requires
        !escapes(z.norm_sq()),
    ensures
        !(escapes(mag_sq) && mag_sq.is_lt(glitch_limit(z))),
{
    let m = z.norm_sq();
    let t = num(GLITCH_TOL_SQ);
    if m.is_nan() {
        assert(m.times(t).is_nan()) by {
            reveal(Double::times);
        }
    } else if m.is_infinite() {
        assert(m.negative());
        assert(m.times(t).negative()) by {
            reveal(Double::times);
        }
    } else {
        shrinking_factor(m, t);
        if m.negative() {
            assert(m.times(t).negative()) by {
                reveal(Double::times);
                lemma_sign_of_finite_product(m, t);
            }
        }
    }
}

/// The product of finite numbers with different signs is negative.
proof fn lemma_sign_of_finite_product(a: Double, b: Double)
    requires
        a.is_finite(),
        b.is_finite(),
        a.negative() != b.negative(),
    ensures
        a.times(b).negative(),
{
    reveal(Double::times);
}

/// The iterations that use an orbit end with the limit, with the iteration of the orbit's escape,
/// or with its last iterate, whichever comes first.
pub proof fn orbit_is_used_as_far_as_it_goes(orbit: ReferenceOrbit, max_iter: u32, r: u32)
    requires
        orbit.wf(),
        call_ensures(ReferenceOrbit::len_bound, (&orbit, max_iter), r),
    ensures
        r <= max_iter,
        r < orbit.count(),
        orbit.escaped_at matches Some(esc) ==> r <= esc,
        r == max_iter || orbit.escaped_at == Some(r) || (orbit.escaped_at is None && r + 1
            == orbit.count()),
{
}

}
