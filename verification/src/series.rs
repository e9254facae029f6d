//! The series approximation: the departure from the reference orbit as a power series in the
//! pixel's offset, with which the first iterations can be skipped.
//!
//! With `eps_n = a_1(n)*d + a_2(n)*d^2 + ...`, the coefficients follow from the orbit alone: since
//! `eps_0 = 0` they start from zero, and they go on by `a_1(n+1) = 2*Z_n*a_1(n) + 1` and
//! `a_t(n+1) = 2*Z_n*a_t(n) + sum of a_i(n)*a_j(n)` over `i + j = t`. The term with index `t` here
//! is `a_{t+1}`.
use vstd::prelude::*;
use crate::complex::Complex;
use crate::double::{num, Double, HALF, ONE, TWO, ZERO};
use crate::laws::{alike, products_are_alike, sums_are_alike};
use crate::naive::lane_point;
use crate::orbit::{zero_point, ReferenceOrbit};
use crate::scaled::{scaled, scaled_zero, Mcx};

verus! {

/// The exponent of the convergence tolerance: the tolerance is `0.5 * 2^-63`.
pub const TOL_EXP: i32 = -63;

/// The coefficient of term `t` at iteration `n`.
pub open spec fn coefficient(orbit: ReferenceOrbit, t: nat, n: nat) -> Mcx
    decreases n, 3nat, 0nat,
{
    if n == 0 {
        scaled_zero()
    } else {
        next_coefficient(orbit, t, (n - 1) as nat).reduced()
    }
}

/// The part `2*Z_n*a(n)` of the coefficient of term `t` at iteration `n + 1`.
pub open spec fn carried(orbit: ReferenceOrbit, t: nat, n: nat) -> Mcx
    decreases n + 1, 1nat, 0nat,
{
    let z = orbit.at(n as int);
    coefficient(orbit, t, n).product(scaled(z.re, z.im)).product_real(num(TWO))
}

/// The sum of the products `a_{p+1}(n) * a_{t-p}(n)` over the first `p` places.
pub open spec fn cross_sum(orbit: ReferenceOrbit, t: nat, n: nat, p: nat) -> Mcx
    decreases n + 1, 1nat, p,
{
    if p == 0 || p > t {
        scaled_zero()
    } else {
        cross_sum(orbit, t, n, (p - 1) as nat).plus(
            coefficient(orbit, (p - 1) as nat, n).product(coefficient(orbit, (t - p) as nat, n)),
        )
    }
}

/// The coefficient of term `t` at iteration `n + 1`, before its mantissas are balanced.
pub open spec fn next_coefficient(orbit: ReferenceOrbit, t: nat, n: nat) -> Mcx
    decreases n + 1, 2nat, 0nat,
{
    let first = coefficient(orbit, 0, n);
    let second = coefficient(orbit, 1, n);
    let kept = carried(orbit, t, n);
    if t == 0 {
        kept.plus(scaled(num(ONE), num(ZERO)))
    } else if t == 1 {
        kept.plus(first.squared())
    } else if t == 2 {
        kept.plus(first.product(second).product_real(num(TWO)))
    } else if t == 3 {
        kept.plus(first.product(coefficient(orbit, 2, n)).product_real(num(TWO))).plus(
            second.squared(),
        )
    } else {
        kept.plus(cross_sum(orbit, t, n, t))
    }
}

/// The number of terms that are used where `num_terms` are asked for.
pub open spec fn terms_used(num_terms: usize) -> nat {
    if num_terms < 2 {
        2
    } else if num_terms > 16 {
        16
    } else {
        num_terms as nat
    }
}

/// The `i`-th power of the largest offset, as a mantissa and an exponent.
pub open spec fn offset_power(delta_max: Double, i: nat) -> (Double, i32)
    decreases i,
{
    let d = scaled(delta_max, num(ZERO));
    if i == 0 {
        (num(ONE), 0i32)
    } else if i == 1 {
        (d.re, d.exp)
    } else {
        let (m, e) = offset_power(delta_max, (i - 1) as nat);
        (m.times(d.re), i32::wrapping_add(e, d.exp))
    }
}

/// Whether the last of `k` terms and the one before it can be compared at iteration `n`.
pub open spec fn comparable(orbit: ReferenceOrbit, k: nat, n: nat) -> bool {
    !coefficient(orbit, (k - 1) as nat, n).is_zero() && !coefficient(
        orbit,
        (k - 2) as nat,
        n,
    ).is_zero()
}

/// Whether the last term's norm times `dk` is above the tolerance times that of the term before
/// it, times `dp`: the exponents decide, or the mantissas where the exponents agree.
pub open spec fn exceeds(last: Mcx, prev: Mcx, dp: (Double, i32), dk: (Double, i32)) -> bool {
    let (lm, le) = last.norm_of();
    let (pm, pe) = prev.norm_of();
    let last_exp = i32::wrapping_add(le, dk.1);
    let lhs_exp = i32::wrapping_add(i32::wrapping_add(pe, dp.1), TOL_EXP);
    if lhs_exp != last_exp {
        lhs_exp < last_exp
    } else {
        pm.times(dp.0).times(num(HALF)).is_lt(lm.times(dk.0))
    }
}

/// Whether the last of `k` terms is not negligible against the one before it at iteration `n`.
pub open spec fn not_converged(orbit: ReferenceOrbit, delta_max: Double, k: nat, n: nat) -> bool {
    exceeds(
        coefficient(orbit, (k - 1) as nat, n),
        coefficient(orbit, (k - 2) as nat, n),
        offset_power(delta_max, (k - 1) as nat),
        offset_power(delta_max, k),
    )
}

/// The largest iteration that may be skipped to.
pub open spec fn skip_limit(max_iter: u32) -> nat {
    if max_iter < 10 {
        0
    } else {
        (max_iter - 10) as nat
    }
}

/// What the scan over the iterations has come to.
pub struct Scan {
    /// The iteration to skip to.
    pub skip: nat,
    /// The number of iterations whose coefficients are kept.
    pub rows: nat,
}

/// What the scan of the iterations from `n` on comes to, where `skip` is the last iteration known
/// to be in order: it ends at the first iteration that has not converged, and keeps a distance of
/// three from it.
pub open spec fn scan(
    orbit: ReferenceOrbit,
    delta_max: Double,
    k: nat,
    max_iter: u32,
    n: nat,
    skip: nat,
) -> Scan
    decreases orbit.count() - n,
{
    if n >= orbit.count() {
        Scan { skip, rows: orbit.count() }
    } else if n > skip_limit(max_iter) || !comparable(orbit, k, n) {
        scan(orbit, delta_max, k, max_iter, n + 1, skip)
    } else if not_converged(orbit, delta_max, k, n) {
        if n <= 3 {
            Scan { skip: 0, rows: 0 }
        } else {
            Scan { skip: (n - 3) as nat, rows: (n - 2) as nat }
        }
    } else {
        scan(orbit, delta_max, k, max_iter, n + 1, n)
    }
}

/// The coefficients of the series at every iteration up to the one that can be skipped to.
pub struct SeriesApproximation {
    /// `rows[n][t]` is the coefficient of term `t` at iteration `n`.
    pub rows: Vec<Vec<Mcx>>,
    /// The number of terms.
    pub num_terms: usize,
    /// The iteration to skip to.
    pub skip: u32,
}

/// Whether a row holds the coefficients of iteration `n`.
pub open spec fn is_row(row: Seq<Mcx>, orbit: ReferenceOrbit, k: nat, n: nat) -> bool {
    row.len() == k && forall|t: int| 0 <= t < k ==> #[trigger] row[t] == coefficient(orbit, t as nat, n)
}

impl SeriesApproximation {
    /// Every row has an entry for every term.
    pub open spec fn wf(self) -> bool {
        &&& self.num_terms >= 2
        &&& forall|n: int| 0 <= n < self.rows@.len() ==> (#[trigger] self.rows@[n])@.len() == self.num_terms
    }

    /// Computes the coefficients along an orbit, and how far the series can be trusted for
    /// offsets up to `delta_max`.
    pub fn compute(
        orbit: &ReferenceOrbit,
        delta_max: Double,
        num_terms: usize,
        max_iter: u32,
    ) -> (r: SeriesApproximation)
        requires
            orbit.wf(),
        ensures
            r.wf(),
            r.num_terms == terms_used(num_terms),
            ({
                let s = scan(*orbit, delta_max, r.num_terms as nat, max_iter, 1, 0);
                r.skip == s.skip && r.rows@.len() == s.rows
            }),
            forall|n: int|
                0 <= n < r.rows@.len() ==> is_row(
                    (#[trigger] r.rows@[n])@,
                    *orbit,
                    r.num_terms as nat,
                    n as nat,
                ),
    {
        let k: usize = if num_terms < 2 {
            2
        } else if num_terms > 16 {
            16
        } else {
            num_terms
        };
        let (dp, dk): ((Double, i32), (Double, i32)) = offset_powers(delta_max, k);
        let limit: u32 = if max_iter < 10 {
            0
        } else {
            max_iter - 10
        };
        let count: u32 = orbit.len();
        let mut rows: Vec<Vec<Mcx>> = Vec::new();
        rows.push(first_row(k, Ghost(*orbit)));
        let mut skip: u32 = 0;
        let mut n: u32 = 1;
        while n < count
            invariant
                orbit.wf(),
                count == orbit.count(),
                1 <= n <= count,
                2 <= k <= 16,
                k == terms_used(num_terms),
                limit == skip_limit(max_iter),
                dp == offset_power(delta_max, (k - 1) as nat),
                dk == offset_power(delta_max, k as nat),
                skip < n,
                rows@.len() == n,
                forall|i: int|
                    0 <= i < n ==> is_row((#[trigger] rows@[i])@, *orbit, k as nat, i as nat),
                scan(*orbit, delta_max, k as nat, max_iter, 1, 0) == scan(
                    *orbit,
                    delta_max,
                    k as nat,
                    max_iter,
                    n as nat,
                    skip as nat,
                ),
            decreases count - n,
        {
            let row: Vec<Mcx> = next_row(orbit, &rows[n as usize - 1], n - 1, k);
            let last: Mcx = row[k - 1];
            let prev: Mcx = row[k - 2];
            rows.push(row);
            if n <= limit && !last.vanishes() && !prev.vanishes() {
                if falls_short(&last, &prev, dp, dk) {
                    skip = if n <= 3 {
                        0
                    } else {
                        n - 3
                    };
                    let valid: usize = if skip > 0 {
                        skip as usize + 1
                    } else {
                        0
                    };
                    rows.truncate(valid);
                    return SeriesApproximation { rows, num_terms: k, skip };
                } else {
                    skip = n;
                }
            }
            n = n + 1;
        }
        SeriesApproximation { rows, num_terms: k, skip }
    }

    /// The iteration to skip to.
    pub fn skip_iterations(&self) -> (r: u32)
        ensures
            r == self.skip,
    {
        self.skip
    }

    /// The coefficients that the series is evaluated with, in binary64; none where nothing can be
    /// skipped.
    pub open spec fn terms(self) -> Seq<Complex> {
        if self.skip == 0 || self.skip >= self.rows@.len() {
            Seq::empty()
        } else {
            Seq::new(
                self.num_terms as nat,
                |t: int| self.rows@[self.skip as int]@[t].unscaled(),
            )
        }
    }

    /// The departure from the orbit at the iteration to skip to, for the offset `delta`.
    pub open spec fn departure(self, delta: Complex) -> Complex {
        if self.terms().len() == 0 {
            zero_point()
        } else {
            delta.product(horner(self.terms(), delta, 0))
        }
    }

    /// The coefficients that the series is evaluated with.
    fn current_terms(&self) -> (r: Vec<Complex>)
        requires
            self.wf(),
        ensures
            r@ == self.terms(),
    {
        let mut out: Vec<Complex> = Vec::new();
        let n: usize = self.skip as usize;
        if n == 0 || n >= self.rows.len() {
            return out;
        }
        let row: &Vec<Mcx> = &self.rows[n];
        let mut t: usize = 0;
        while t < self.num_terms
            invariant
                t <= self.num_terms,
                row@.len() == self.num_terms,
                out@.len() == t,
                forall|i: int| 0 <= i < t ==> #[trigger] out@[i] == row@[i].unscaled(),
            decreases self.num_terms - t,
        {
            out.push(row[t].to_complex());
            t = t + 1;
        }
        assert(out@ =~= self.terms());
        out
    }

    /// The departure from the orbit at the iteration to skip to, for one offset.
    pub fn evaluate(&self, delta_re: Double, delta_im: Double) -> (r: (Double, Double))
        requires
            self.wf(),
        ensures
            ({
                let e = self.departure(Complex { re: delta_re, im: delta_im });
                r == (e.re, e.im)
            }),
    {
        let a: Vec<Complex> = self.current_terms();
        let e: Complex = self.departure_with(&a, Complex::new(delta_re, delta_im));
        (e.re, e.im)
    }

    /// The departures from the orbit at the iteration to skip to, for four offsets.
    pub fn evaluate_simd(&self, delta_re: [Double; 4], delta_im: [Double; 4]) -> (r: (
        [Double; 4],
        [Double; 4],
    ))
        requires
            self.wf(),
        ensures
            forall|lane: int|
                0 <= lane < 4 ==> (#[trigger] r.0@[lane]) == self.departure(
                    lane_point(delta_re, delta_im, lane),
                ).re && r.1@[lane] == self.departure(lane_point(delta_re, delta_im, lane)).im,
    {
        let a: Vec<Complex> = self.current_terms();
        let e0: Complex = self.departure_with(&a, Complex::new(delta_re[0], delta_im[0]));
        let e1: Complex = self.departure_with(&a, Complex::new(delta_re[1], delta_im[1]));
        let e2: Complex = self.departure_with(&a, Complex::new(delta_re[2], delta_im[2]));
        let e3: Complex = self.departure_with(&a, Complex::new(delta_re[3], delta_im[3]));
        proof {
            assert(e0 == self.departure(lane_point(delta_re, delta_im, 0)));
            assert(e1 == self.departure(lane_point(delta_re, delta_im, 1)));
            assert(e2 == self.departure(lane_point(delta_re, delta_im, 2)));
            assert(e3 == self.departure(lane_point(delta_re, delta_im, 3)));
        }
        ([e0.re, e1.re, e2.re, e3.re], [e0.im, e1.im, e2.im, e3.im])
    }

    /// The departure for one offset, with the coefficients at hand.
    fn departure_with(&self, a: &Vec<Complex>, delta: Complex) -> (r: Complex)
        requires
            a@ == self.terms(),
        ensures
            r == self.departure(delta),
    {
        if a.len() == 0 {
            return Complex::zero();
        }
        delta.mul(evaluate_terms(a, delta))
    }
}

/// `a[t] + d*(a[t+1] + d*(... + d*a[k-1]))`, from the inside out.
pub open spec fn horner(a: Seq<Complex>, delta: Complex, t: nat) -> Complex
    decreases a.len() - t,
{
    if t + 1 >= a.len() {
        a[t as int]
    } else {
        a[t as int].plus(delta.product(horner(a, delta, t + 1)))
    }
}

/// The value of the nested sum of all terms.
fn evaluate_terms(a: &Vec<Complex>, delta: Complex) -> (r: Complex)
    requires
        a@.len() > 0,
    ensures
        r == horner(a@, delta, 0),
{
    let mut t: usize = a.len() - 1;
    let mut r: Complex = a[t];
    while t > 0
        invariant
            t < a@.len(),
            r == horner(a@, delta, t as nat),
        decreases t,
    {
        t = t - 1;
        r = a[t].add(delta.mul(r));
    }
    r
}

/// The powers of the largest offset for the last of `k` terms and the one before it.
fn offset_powers(delta_max: Double, k: usize) -> (r: ((Double, i32), (Double, i32)))
    requires
        k >= 2,
    ensures
        r.0 == offset_power(delta_max, (k - 1) as nat),
        r.1 == offset_power(delta_max, k as nat),
{
    let d: Mcx = Mcx::from_complex(delta_max, Double::new(ZERO));
    let mut last: (Double, i32) = (Double::new(ONE), 0);
    let mut next: (Double, i32) = (d.re, d.exp);
    let mut i: usize = 1;
    while i < k
        invariant
            1 <= i <= k,
            d == scaled(delta_max, num(ZERO)),
            last == offset_power(delta_max, (i - 1) as nat),
            next == offset_power(delta_max, i as nat),
        decreases k - i,
    {
        last = next;
        next = (last.0.mul(d.re), last.1.wrapping_add(d.exp));
        i = i + 1;
    }
    (last, next)
}

/// The coefficients before the first iteration: there is no departure yet.
fn first_row(k: usize, Ghost(orbit): Ghost<ReferenceOrbit>) -> (r: Vec<Mcx>)
    requires
        k >= 2,
    ensures
        is_row(r@, orbit, k as nat, 0),
{
    let mut row: Vec<Mcx> = Vec::new();
    while row.len() < k
        invariant
            row@.len() <= k,
            forall|t: int|
                0 <= t < row@.len() ==> #[trigger] row@[t] == coefficient(orbit, t as nat, 0),
        decreases k - row@.len(),
    {
        row.push(Mcx::zero());
    }
    row
}

/// The sum of products in the coefficient of term `t` at the iteration after that of `row`.
fn cross_products(
    row: &Vec<Mcx>,
    t: usize,
    Ghost(orbit): Ghost<ReferenceOrbit>,
    Ghost(n): Ghost<nat>,
) -> (r: Mcx)
    requires
        t < row@.len(),
        is_row(row@, orbit, row@.len(), n),
    ensures
        r == cross_sum(orbit, t as nat, n, t as nat),
{
    let mut sum: Mcx = Mcx::zero();
    let mut p: usize = 0;
    while p < t
        invariant
            p <= t < row@.len(),
            is_row(row@, orbit, row@.len(), n),
            sum == cross_sum(orbit, t as nat, n, p as nat),
        decreases t - p,
    {
        sum = sum.add_mcx(&row[p].mul_mcx(&row[t - 1 - p]));
        p = p + 1;
    }
    sum
}

/// The coefficients at the iteration after `n`.
fn next_row(orbit: &ReferenceOrbit, row: &Vec<Mcx>, n: u32, k: usize) -> (r: Vec<Mcx>)
    requires
        orbit.wf(),
        n < orbit.count(),
        k >= 2,
        is_row(row@, *orbit, k as nat, n as nat),
    ensures
        is_row(r@, *orbit, k as nat, n as nat + 1),
{
    let two: Double = Double::new(TWO);
    let (z_re, z_im): (Double, Double) = orbit.z(n);
    let mut out: Vec<Mcx> = Vec::new();
    let mut t: usize = 0;
    while t < k
        invariant
            t <= k,
            k >= 2,
            two == num(TWO),
            z_re == orbit.at(n as int).re,
            z_im == orbit.at(n as int).im,
            is_row(row@, *orbit, k as nat, n as nat),
            is_row(out@, *orbit, t as nat, n as nat + 1),
        decreases k - t,
    {
        let kept: Mcx = row[t].mul_z(z_re, z_im).mul_real(two);
        let next: Mcx = if t == 0 {
            kept.add_real(Double::new(ONE))
        } else if t == 1 {
            kept.add_mcx(&row[0].square())
        } else if t == 2 {
            kept.add_mcx(&row[0].mul_mcx(&row[1]).mul_real(two))
        } else if t == 3 {
            kept.add_mcx(&row[0].mul_mcx(&row[2]).mul_real(two)).add_mcx(&row[1].square())
        } else {
            kept.add_mcx(&cross_products(row, t, Ghost(*orbit), Ghost(n as nat)))
        };
        assert(next == next_coefficient(*orbit, t as nat, n as nat));
        out.push(next.reduce());
        t = t + 1;
    }
    out
}

/// Whether the last term is not negligible against the one before it.
fn falls_short(last: &Mcx, prev: &Mcx, dp: (Double, i32), dk: (Double, i32)) -> (r: bool)
    ensures
        r == exceeds(*last, *prev, dp, dk),
{
    let (lm, le): (Double, i32) = last.norm();
    let (pm, pe): (Double, i32) = prev.norm();
    let last_exp: i32 = le.wrapping_add(dk.1);
    let lhs_exp: i32 = pe.wrapping_add(dp.1).wrapping_add(TOL_EXP);
    if lhs_exp != last_exp {
        lhs_exp < last_exp
    } else {
        pm.mul(dp.0).mul(Double::new(HALF)).lt(lm.mul(dk.0))
    }
}

/// Four offsets evaluated together come out as each of them would alone.
pub proof fn lanes_match_single_offsets(
    s: SeriesApproximation,
    delta_re: [Double; 4],
    delta_im: [Double; 4],
    lane: int,
)
    requires
        0 <= lane < 4,
    ensures
        s.departure(lane_point(delta_re, delta_im, lane)) == s.departure(
            Complex { re: delta_re[lane], im: delta_im[lane] },
        ),
{
}

/// What the scan from iteration `n` on comes to lies within its bounds, and no iteration from
/// `n` up to the one skipped to fell short.
proof fn lemma_scan(
    orbit: ReferenceOrbit,
    delta_max: Double,
    k: nat,
    max_iter: u32,
    n: nat,
    skip: nat,
)
    requires
        1 <= n <= orbit.count(),
        skip < n,
        skip <= skip_limit(max_iter),
    ensures
        ({
            let s = scan(orbit, delta_max, k, max_iter, n, skip);
            &&& s.skip <= skip_limit(max_iter)
            &&& s.skip < orbit.count()
            &&& s.rows <= orbit.count()
            &&& s.skip > 0 ==> s.skip < s.rows
            &&& forall|m: nat|
                n <= m <= s.skip && #[trigger] comparable(orbit, k, m) ==> !not_converged(
                    orbit,
                    delta_max,
                    k,
                    m,
                )
        }),
    decreases orbit.count() - n,
{
    if n < orbit.count() {
        if n > skip_limit(max_iter) || !comparable(orbit, k, n) {
            lemma_scan(orbit, delta_max, k, max_iter, n + 1, skip);
        } else if !not_converged(orbit, delta_max, k, n) {
            lemma_scan(orbit, delta_max, k, max_iter, n + 1, n);
        }
        let s = scan(orbit, delta_max, k, max_iter, n, skip);
        assert forall|m: nat|
            n <= m <= s.skip && #[trigger] comparable(orbit, k, m) implies !not_converged(
            orbit,
            delta_max,
            k,
            m,
        ) by {
            if m == n {
                assert(n <= skip_limit(max_iter));
            }
        }
    }
}

/// The iteration skipped to is one of the orbit's, at least ten below the iteration limit, its
/// coefficients are kept, and at no iteration up to it did the last term fall short of being
/// negligible.
pub proof fn skip_stays_where_the_series_holds(
    orbit: ReferenceOrbit,
    delta_max: Double,
    k: nat,
    max_iter: u32,
)
    requires
        orbit.wf(),
    ensures
        ({
            let s = scan(orbit, delta_max, k, max_iter, 1, 0);
            &&& s.skip == 0 || s.skip + 10 <= max_iter
            &&& s.skip < orbit.count()
            &&& s.skip > 0 ==> s.skip < s.rows
            &&& forall|m: nat|
                1 <= m <= s.skip && #[trigger] comparable(orbit, k, m) ==> !not_converged(
                    orbit,
                    delta_max,
                    k,
                    m,
                )
        }),
{
    lemma_scan(orbit, delta_max, k, max_iter, 1, 0);
}

/// The coefficients at iteration `n` depend on the iterates of the orbit before `n` and on
/// nothing else.
pub proof fn coefficients_depend_on_the_orbit_alone(
    o1: ReferenceOrbit,
    o2: ReferenceOrbit,
    t: nat,
    n: nat,
)
    requires
        forall|i: int| 0 <= i < n ==> #[trigger] o1.at(i) == o2.at(i),
    ensures
        coefficient(o1, t, n) == coefficient(o2, t, n),
    decreases n,
{
    if n > 0 {
        let m = (n - 1) as nat;
        assert(o1.at(m as int) == o2.at(m as int));
        assert forall|s: nat| coefficient(o1, s, m) == #[trigger] coefficient(o2, s, m) by {
            coefficients_depend_on_the_orbit_alone(o1, o2, s, m);
        }
        lemma_next_from_coefficients(o1, o2, t, m);
    }
}

/// Equal coefficients at one iteration give equal coefficients at the next.
proof fn lemma_next_from_coefficients(o1: ReferenceOrbit, o2: ReferenceOrbit, t: nat, n: nat)
    requires
        o1.at(n as int) == o2.at(n as int),
        forall|s: nat| coefficient(o1, s, n) == #[trigger] coefficient(o2, s, n),
    ensures
        next_coefficient(o1, t, n) == next_coefficient(o2, t, n),
{
    assert(coefficient(o1, t, n) == coefficient(o2, t, n));
    assert(carried(o1, t, n) == carried(o2, t, n));
    assert(coefficient(o1, 0, n) == coefficient(o2, 0, n));
    assert(coefficient(o1, 1, n) == coefficient(o2, 1, n));
    assert(coefficient(o1, 2, n) == coefficient(o2, 2, n));
    lemma_cross_sum_from_coefficients(o1, o2, t, n, t);
}

/// Equal coefficients give equal sums of products.
proof fn lemma_cross_sum_from_coefficients(
    o1: ReferenceOrbit,
    o2: ReferenceOrbit,
    t: nat,
    n: nat,
    p: nat,
)
    requires
        forall|s: nat| coefficient(o1, s, n) == #[trigger] coefficient(o2, s, n),
    ensures
        cross_sum(o1, t, n, p) == cross_sum(o2, t, n, p),
    decreases p,
{
    if p > 0 && p <= t {
        lemma_cross_sum_from_coefficients(o1, o2, t, n, (p - 1) as nat);
        assert(coefficient(o1, (p - 1) as nat, n) == coefficient(o2, (p - 1) as nat, n));
        assert(coefficient(o1, (t - p) as nat, n) == coefficient(o2, (t - p) as nat, n));
    }
}

/// Whether both parts are zeros.
pub open spec fn vanishing(z: Complex) -> bool {
    z.re.is_zero() && z.im.is_zero()
}

/// Zeros multiply and add up to zeros.
proof fn lemma_zeros(a: Double, b: Double)
    requires
        a.is_zero(),
        b.is_zero(),
    ensures
        a.times(b).is_zero(),
        a.plus(b).is_zero(),
        a.minus(b).is_zero(),
{
    reveal(Double::plus);
    crate::laws::lemma_zero_units();
    crate::laws::zero_takes_all(a);
    crate::laws::products_are_alike(a, b, a, num(ZERO));
}

/// A finite number times a zero is a zero.
proof fn lemma_times_zero(a: Double, b: Double)
    requires
        a.is_finite(),
        b.is_zero(),
    ensures
        a.times(b).is_zero(),
{
    crate::laws::zero_takes_all(a);
    crate::laws::products_are_alike(a, b, a, num(ZERO));
}

/// The product of scaled zeros is a scaled zero, and so are the double and the square of one.
proof fn lemma_scaled_zeros(a: Mcx, b: Mcx)
    requires
        a.is_zero(),
        b.is_zero(),
    ensures
        a.product(b).is_zero(),
        a.product_real(num(TWO)).is_zero(),
        a.squared().is_zero(),
        a.plus(b).is_zero(),
{
    reveal(Mcx::product);
    reveal(Mcx::product_real);
    reveal(Mcx::squared);
    reveal(Mcx::plus);
    reveal(Mcx::reduced);
    let two = num(TWO);
    lemma_zeros(a.re, b.re);
    lemma_zeros(a.im, b.im);
    lemma_zeros(a.re, b.im);
    lemma_zeros(a.im, b.re);
    lemma_zeros(a.re.times(b.re), a.im.times(b.im));
    lemma_zeros(a.re.times(b.im), a.im.times(b.re));
    lemma_times_zero(two, a.re);
    lemma_times_zero(two, a.im);
    crate::laws::multiplication_commutes(a.re, two);
    crate::laws::multiplication_commutes(a.im, two);
    lemma_zeros(a.re, a.re);
    lemma_zeros(a.im, a.im);
    lemma_zeros(a.re.times(a.re), a.im.times(a.im));
    lemma_zeros(two.times(a.re), a.im);
}

/// From coefficients that are all zero, no products arise.
proof fn lemma_no_products(orbit: ReferenceOrbit, t: nat, p: nat)
    requires
        p <= t,
    ensures
        cross_sum(orbit, t, 0, p).is_zero(),
    decreases p,
{
    if p > 0 {
        lemma_no_products(orbit, t, (p - 1) as nat);
        let a = coefficient(orbit, (p - 1) as nat, 0);
        let b = coefficient(orbit, (t - p) as nat, 0);
        lemma_scaled_zeros(a, b);
        lemma_scaled_zeros(cross_sum(orbit, t, 0, (p - 1) as nat), a.product(b));
    }
}

/// After the first iteration of an orbit from zero the series is the offset itself: its first
/// coefficient is one, and all others are zero.
pub proof fn first_coefficients(orbit: ReferenceOrbit, t: nat)
    requires
        orbit.at(0) == zero_point(),
    ensures
        t == 0 ==> coefficient(orbit, t, 1) == scaled(num(ONE), num(ZERO)),
        t > 0 ==> coefficient(orbit, t, 1).is_zero(),
{
    let zero = scaled_zero();
    let z = scaled(num(ZERO), num(ZERO));
    assert(z == zero) by {
        reveal(scaled);
    }
    lemma_scaled_zeros(zero, zero);
    lemma_scaled_zeros(zero.product(zero), zero);
    let kept = carried(orbit, t, 0);
    assert(kept == zero.product(z).product_real(num(TWO)));
    assert(kept.is_zero());
    crate::scaled::scaled_one();
    let next = next_coefficient(orbit, t, 0);
    assert(coefficient(orbit, t, 1) == next.reduced());
    if t == 0 {
        assert(next == scaled(num(ONE), num(ZERO))) by {
            reveal(Mcx::plus);
        }
    } else {
        let twice = zero.product(zero).product_real(num(TWO));
        let square = zero.squared();
        lemma_scaled_zeros(kept, square);
        lemma_scaled_zeros(kept, twice);
        lemma_scaled_zeros(kept.plus(twice), square);
        lemma_no_products(orbit, t, t);
        lemma_scaled_zeros(kept, cross_sum(orbit, t, 0, t));
        assert(next.is_zero());
        assert(next.reduced() == next) by {
            reveal(Mcx::reduced);
        }
    }
}

/// A nested sum of nothing but zeros is zero.
proof fn lemma_horner_of_zeros(a: Seq<Complex>, delta: Complex, t: nat)
    requires
        t < a.len(),
        delta.re.is_finite(),
        delta.im.is_finite(),
        forall|i: int| t <= i < a.len() ==> vanishing(#[trigger] a[i]),
    ensures
        vanishing(horner(a, delta, t)),
    decreases a.len() - t,
{
    assert(vanishing(a[t as int]));
    if t + 1 < a.len() {
        lemma_horner_of_zeros(a, delta, t + 1);
        let h = horner(a, delta, t + 1);
        lemma_product_with_zeros(delta, h);
        lemma_zeros(a[t as int].re, delta.product(h).re);
        lemma_zeros(a[t as int].im, delta.product(h).im);
    }
}

/// The product with a complex zero is one.
proof fn lemma_product_with_zeros(delta: Complex, h: Complex)
    requires
        delta.re.is_finite(),
        delta.im.is_finite(),
        vanishing(h),
    ensures
        vanishing(delta.product(h)),
{
    lemma_times_zero(delta.re, h.re);
    lemma_times_zero(delta.im, h.im);
    lemma_times_zero(delta.re, h.im);
    lemma_times_zero(delta.im, h.re);
    lemma_zeros(delta.re.times(h.re), delta.im.times(h.im));
    lemma_zeros(delta.re.times(h.im), delta.im.times(h.re));
}

/// The coefficients after the first iteration, in binary64.
proof fn lemma_first_terms(s: SeriesApproximation, orbit: ReferenceOrbit, t: int)
    requires
        s.wf(),
        s.skip == 1,
        s.rows@.len() > 1,
        is_row(s.rows@[1]@, orbit, s.num_terms as nat, 1),
        orbit.at(0) == zero_point(),
        0 <= t < s.num_terms,
    ensures
        t == 0 ==> s.terms()[t] == (Complex { re: num(ONE), im: num(ZERO) }),
        t > 0 ==> vanishing(s.terms()[t]),
{
    first_coefficients(orbit, t as nat);
    let m = s.rows@[1]@[t];
    assert(m == coefficient(orbit, t as nat, 1));
    assert(s.terms()[t] == m.unscaled());
    crate::scaled::scaled_one();
    crate::scaled::scaled_one_is_one();
    assert(m.is_zero() ==> vanishing(m.unscaled())) by {
        reveal(crate::scaled::scale_up);
    }
}

/// Where one iteration is skipped, a finite offset is the departure, up to the sign of zero:
/// from no departure the first iteration comes to the offset.
pub proof fn one_skipped_iteration_departs_by_the_offset(
    s: SeriesApproximation,
    orbit: ReferenceOrbit,
    delta: Complex,
)
    requires
        s.wf(),
        s.skip == 1,
        s.rows@.len() > 1,
        is_row(s.rows@[1]@, orbit, s.num_terms as nat, 1),
        orbit.at(0) == zero_point(),
        delta.re.is_finite(),
        delta.im.is_finite(),
    ensures
        alike(s.departure(delta).re, delta.re),
        alike(s.departure(delta).im, delta.im),
{
    let a = s.terms();
    assert forall|i: int| 1 <= i < a.len() implies vanishing(#[trigger] a[i]) by {
        lemma_first_terms(s, orbit, i);
    }
    lemma_first_terms(s, orbit, 0);
    lemma_horner_of_zeros(a, delta, 1);
    let inner = delta.product(horner(a, delta, 1));
    lemma_product_with_zeros(delta, horner(a, delta, 1));
    let h = horner(a, delta, 0);
    let (one, zero) = (num(ONE), num(ZERO));
    sums_are_alike(one, inner.re, one, zero);
    sums_are_alike(zero, inner.im, zero, zero);
    crate::laws::zero_adds_nothing(one);
    crate::laws::zero_adds_nothing(zero);
    assert(alike(h.re, one) && alike(h.im, zero));
    let (x, y) = (delta.re, delta.im);
    crate::laws::one_changes_nothing(x);
    crate::laws::one_changes_nothing(y);
    products_are_alike(x, h.re, x, one);
    products_are_alike(y, h.re, y, one);
    lemma_times_zero(x, h.im);
    lemma_times_zero(y, h.im);
    crate::laws::zero_adds_nothing(x);
    crate::laws::zero_adds_nothing(y);
    sums_are_alike(x.times(h.re), y.times(h.im).negated(), x, zero);
    crate::laws::addition_commutes(x.times(h.im), y.times(h.re));
    sums_are_alike(y.times(h.re), x.times(h.im), y, zero);
}

}
