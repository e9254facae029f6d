//! How far the series is trusted: up to three iterations before its last term first counts against
//! the one before it.
use vstd::prelude::*;
use crate::double::{num, Double, HALF, ZERO};
use crate::exact::{product_is_exact, sum_is_exact};
use crate::exact_series::{
    exact_of_scaled,
    lemma_product_value,
    lemma_sum_value,
    real_of,
    real_pow2,
};
use crate::exact_view::{
    lemma_order_of_values,
    lemma_power_pattern,
    lemma_small_powers,
    lemma_unit_is_positive,
};
use crate::orbit::ReferenceOrbit;
use crate::scaled::{scaled, Mcx};
use crate::scaled_value::lemma_real_pow2_adds;
use crate::series::{coefficient, not_converged, offset_power, scan, SeriesApproximation};
use crate::sums::lemma_associates;

verus! {

/// Whether iteration `n` is looked at: it lies on the orbit, ten before the limit at least, and
/// neither of the last two of `k` coefficients is zero there.
pub open spec fn looked_at(orbit: ReferenceOrbit, k: nat, max_iter: u32, n: nat) -> bool {
    &&& 1 <= n < orbit.count()
    &&& n + 10 <= max_iter
    &&& !coefficient(orbit, (k - 1) as nat, n).is_zero()
    &&& !coefficient(orbit, (k - 2) as nat, n).is_zero()
}

/// What the scan comes to from iteration `n` on.
proof fn lemma_scan_from(
    orbit: ReferenceOrbit,
    delta_max: Double,
    k: nat,
    max_iter: u32,
    n: nat,
    skip: nat,
)
    requires
        1 <= n,
        skip < n,
    ensures
        ({
            let s = scan(orbit, delta_max, k, max_iter, n, skip).skip;
            &&& (forall|m: nat|
                n <= m && #[trigger] looked_at(orbit, k, max_iter, m) ==> !not_converged(
                    orbit,
                    delta_max,
                    k,
                    m,
                )) ==> {
                &&& s == skip || looked_at(orbit, k, max_iter, s)
                &&& skip <= s
                &&& forall|m: nat| n <= m && #[trigger] looked_at(orbit, k, max_iter, m) ==> m <= s
            }
            &&& forall|m: nat|
                n <= m && #[trigger] looked_at(orbit, k, max_iter, m) && not_converged(
                    orbit,
                    delta_max,
                    k,
                    m,
                ) && (forall|l: nat|
                    n <= l < m && #[trigger] looked_at(orbit, k, max_iter, l) ==> !not_converged(
                        orbit,
                        delta_max,
                        k,
                        l,
                    )) ==> s == if m > 3 {
                    m - 3
                } else {
                    0
                }
        }),
    decreases orbit.count() - n,
{
    if n < orbit.count() {
        if n > crate::series::skip_limit(max_iter) || !crate::series::comparable(orbit, k, n) {
            assert(!looked_at(orbit, k, max_iter, n));
            lemma_scan_from(orbit, delta_max, k, max_iter, n + 1, skip);
        } else if not_converged(orbit, delta_max, k, n) {
            assert(looked_at(orbit, k, max_iter, n));
        } else {
            assert(looked_at(orbit, k, max_iter, n));
            lemma_scan_from(orbit, delta_max, k, max_iter, n + 1, n);
        }
    }
}

/// The iterations that the series skips end three before the first one, of those looked at, at
/// which it has not converged; where there is none, with the last one looked at. None are skipped
/// where there is neither. The number of terms is the one asked for, held to the range from 2 to
/// 16.
pub proof fn series_skips_as_far_as_it_has_converged(
    orbit: ReferenceOrbit,
    delta_max: Double,
    num_terms: usize,
    max_iter: u32,
    r: SeriesApproximation,
)
    requires
        orbit.wf(),
        call_ensures(SeriesApproximation::compute, (&orbit, delta_max, num_terms, max_iter), r),
    ensures
        r.num_terms <= num_terms || r.num_terms == 2,
        r.num_terms >= num_terms || r.num_terms == 16,
        2 <= r.num_terms <= 16,
        ({
            let k = r.num_terms as nat;
            &&& (forall|m: nat|
                #[trigger]
                looked_at(orbit, k, max_iter, m) ==> !not_converged(orbit, delta_max, k, m)) ==> {
                &&& r.skip == 0 || looked_at(orbit, k, max_iter, r.skip as nat)
                &&& forall|m: nat| #[trigger] looked_at(orbit, k, max_iter, m) ==> m <= r.skip
            }
            &&& forall|m: nat|
                #[trigger]
                looked_at(orbit, k, max_iter, m) && not_converged(orbit, delta_max, k, m) && (
                forall|l: nat|
                    l < m && #[trigger] looked_at(orbit, k, max_iter, l) ==> !not_converged(
                        orbit,
                        delta_max,
                        k,
                        l,
                    )) ==> r.skip == if m > 3 {
                    m - 3
                } else {
                    0
                }
        }),
{
    lemma_scan_from(orbit, delta_max, r.num_terms as nat, max_iter, 1, 0);
}

/// A power of two is positive.
proof fn lemma_power_is_positive(e: int)
    ensures
        real_pow2(e) > 0 as real,
    decreases (if e < 0 {
            -e
        } else {
            e
        }),
{
    if e < 0 {
        lemma_unit_is_positive((-e) as nat);
    } else if e > 0 {
        lemma_power_is_positive(e - 1);
    }
}

/// Whether the squared magnitude of a scaled number, times a factor, is exact in its mantissas.
pub open spec fn size_is_exact(a: Mcx, f: Double) -> bool {
    let n = a.mantissa().norm_sq();
    &&& product_is_exact(a.re, a.re)
    &&& product_is_exact(a.im, a.im)
    &&& sum_is_exact(a.re.times(a.re), a.im.times(a.im))
    &&& product_is_exact(n, f)
    &&& n.times(f).is_finite()
    &&& i32::MIN <= 2 * a.exp <= i32::MAX
}

/// The squared magnitude of a scaled number times a factor `m * 2^e`.
pub open spec fn size(a: Mcx, f: (Double, i32)) -> real {
    (real_of(a.re) * real_of(a.re) + real_of(a.im) * real_of(a.im)) * real_of(f.0) * real_pow2(
        2 * a.exp + f.1,
    )
}

/// The mantissa of the squared magnitude.
proof fn lemma_size(a: Mcx, f: Double)
    requires
        size_is_exact(a, f),
    ensures
        real_of(a.mantissa().norm_sq().times(f)) == (real_of(a.re) * real_of(a.re) + real_of(a.im)
            * real_of(a.im)) * real_of(f),
{
    let n = a.mantissa().norm_sq();
    lemma_product_value(a.re, a.re);
    lemma_product_value(a.im, a.im);
    lemma_sum_value(a.re.times(a.re), a.im.times(a.im));
    lemma_product_value(n, f);
}

/// The series has not converged where the squared magnitude of the last of `k` coefficients, times
/// the `k`-th power of the largest offset, is above `2^-64` times that of the coefficient before,
/// times the power before: the exponents decide, with `2^-63` for the exponent of the tolerance,
/// and where they agree the whole numbers do.
pub proof fn convergence_goes_by_the_last_two_terms(
    orbit: ReferenceOrbit,
    delta_max: Double,
    k: nat,
    n: nat,
)
    requires
        k >= 2,
        ({
            let last = coefficient(orbit, (k - 1) as nat, n);
            let prev = coefficient(orbit, (k - 2) as nat, n);
            let (dp, dk) = (
                offset_power(delta_max, (k - 1) as nat),
                offset_power(delta_max, k),
            );
            let p = prev.mantissa().norm_sq().times(dp.0);
            &&& size_is_exact(last, dk.0)
            &&& size_is_exact(prev, dp.0)
            &&& product_is_exact(p, num(HALF))
            &&& p.times(num(HALF)).is_finite()
            &&& i32::MIN <= 2 * last.exp + dk.1 <= i32::MAX
            &&& i32::MIN <= 2 * prev.exp + dp.1 <= i32::MAX
            &&& i32::MIN <= 2 * prev.exp + dp.1 - 63
        }),
    ensures
        ({
            let last = coefficient(orbit, (k - 1) as nat, n);
            let prev = coefficient(orbit, (k - 2) as nat, n);
            let (dp, dk) = (
                offset_power(delta_max, (k - 1) as nat),
                offset_power(delta_max, k),
            );
            let gap = (2 * last.exp + dk.1) - (2 * prev.exp + dp.1 - 63);
            &&& gap > 0 ==> not_converged(orbit, delta_max, k, n)
            &&& gap < 0 ==> !not_converged(orbit, delta_max, k, n)
            &&& gap == 0 ==> (not_converged(orbit, delta_max, k, n) <==> size(last, dk) > size(
                prev,
                dp,
            ) * real_pow2(-64))
        }),
{
    let last = coefficient(orbit, (k - 1) as nat, n);
    let prev = coefficient(orbit, (k - 2) as nat, n);
    let (dp, dk) = (offset_power(delta_max, (k - 1) as nat), offset_power(delta_max, k));
    let p = prev.mantissa().norm_sq().times(dp.0);
    let l = last.mantissa().norm_sq().times(dk.0);
    lemma_size(last, dk.0);
    lemma_size(prev, dp.0);
    lemma_product_value(p, num(HALF));
    lemma_power_pattern(HALF, -1);
    lemma_order_of_values(p.times(num(HALF)), l);
    assert(last.exp * 2 == 2 * last.exp && prev.exp * 2 == 2 * prev.exp);
    let e = 2 * last.exp + dk.1;
    let f = 2 * prev.exp + dp.1;
    if e == f - 63 {
        let (x, y) = (real_of(l), real_of(p));
        let (s, h) = (real_pow2(e), real_pow2(-1));
        lemma_power_is_positive(e);
        // (y*2^f)*2^-64 is (y*2^-1)*2^e.
        lemma_real_pow2_adds(f, -64);
        lemma_associates(y, real_pow2(f), real_pow2(-64));
        lemma_real_pow2_adds(-1, e);
        lemma_associates(y, h, s);
        let z = y * h;
        assert(z < x <==> z * s < x * s) by (nonlinear_arith)
            requires
                s > 0 as real,
        ;
    }
}

/// The number that a mantissa and an exponent stand for.
pub open spec fn stood_for(f: (Double, i32)) -> real {
    real_of(f.0) * real_pow2(f.1 as int)
}

/// The powers of the largest offset: the zeroth stands for one, the first for the offset, and each
/// further one for the one before times the offset.
pub proof fn powers_of_the_offset(delta_max: Double, i: nat)
    requires
        i >= 1,
        delta_max.is_finite(),
        !delta_max.is_zero(),
        0 <= scaled(delta_max, num(ZERO)).exp - crate::scaled::mantissa_and_exponent(
            delta_max,
        ).1 <= 1021,
        product_is_exact(offset_power(delta_max, i).0, scaled(delta_max, num(ZERO)).re),
        i32::MIN <= offset_power(delta_max, i).1 + scaled(delta_max, num(ZERO)).exp <= i32::MAX,
    ensures
        stood_for(offset_power(delta_max, 0)) == 1 as real,
        stood_for(offset_power(delta_max, 1)) == real_of(delta_max),
        stood_for(offset_power(delta_max, i + 1)) == stood_for(offset_power(delta_max, i))
            * real_of(delta_max),
{
    let d = scaled(delta_max, num(ZERO));
    let (m, e) = offset_power(delta_max, i);
    lemma_power_pattern(crate::double::ONE, 0);
    lemma_small_powers();
    let (one, p) = (real_of(num(crate::double::ONE)), real_pow2(0));
    assert(one * p == 1 as real) by (nonlinear_arith)
        requires
            one == 1 as real,
            p == 1 as real,
    ;
    crate::scaled_value::scaled_stands_for_the_number(delta_max, num(ZERO));
    reveal(exact_of_scaled);
    assert(exact_of_scaled(d).re == real_of(delta_max));
    lemma_product_value(m, d.re);
    lemma_real_pow2_adds(e as int, d.exp as int);
    crate::exact_series::lemma_swap(
        real_of(m),
        real_pow2(e as int),
        real_of(d.re),
        real_pow2(d.exp as int),
    );
}

}
