//! What a view covers: where no operation rounds, the view is the region or the zoom that the
//! configuration describes, and every pixel of a shallow picture stands for its point in it.
use vstd::prelude::*;
use vstd::arithmetic::power2::pow2;
use crate::complex::Complex;
use crate::config::{Config, ViewError};
use crate::convert::of_nat;
use crate::double::{num, Double, FOUR, HALF, TWO, ZERO};
use crate::exact::{difference_is_exact, product_is_exact, sum_is_exact};
use crate::exact_series::{
    lemma_int_product,
    lemma_product_value,
    lemma_real_pow2,
    lemma_sum_value,
    real_of,
    real_pow2,
};
use crate::field::IterField;
use crate::naive::naive_outcome;
use crate::rounding::{lemma_p52_p53, lemma_parts_unique, P52, P53, UNIT_EXP};
use crate::scaled_value::{lemma_factor, lemma_pow2_as_real, lemma_real_pow2_adds};
use crate::shallow::{fill_naive_row, grid_of, render_naive, Grid};
use crate::sums::{lemma_associates, lemma_commutes, lemma_distributes};
use crate::view;

verus! {

/// Whether a quotient is exact: times the divisor it has the value of the dividend.
pub open spec fn quotient_is_exact(a: Double, b: Double) -> bool {
    a.over(b).value() * b.value() == a.value() * pow2(UNIT_EXP as nat)
}

/// An exact quotient stands for the quotient.
pub proof fn lemma_quotient_value(a: Double, b: Double)
    requires
        quotient_is_exact(a, b),
    ensures
        real_of(a.over(b)) * real_of(b) == real_of(a),
{
    let u = pow2(UNIT_EXP as nat) as real;
    let w = real_pow2(-(UNIT_EXP as int));
    lemma_real_pow2(UNIT_EXP as nat);
    lemma_int_product(a.over(b).value(), b.value());
    lemma_int_product(a.value(), pow2(UNIT_EXP as nat) as int);
    let (q, y, x) = (a.over(b).value() as real, b.value() as real, a.value() as real);
    assert(q * y == x * u);
    // (q*w)*(y*w) is (q*y)*(w*w), that is (x*u)*(w*w), which is (x*w)*(u*w).
    crate::exact_series::lemma_swap(q, w, y, w);
    crate::exact_series::lemma_swap(x, w, u, w);
    let (xw, one) = (x * w, u * w);
    assert(xw * one == xw) by (nonlinear_arith)
        requires
            one == 1 as real,
    ;
}

/// A whole number of at most 53 bits stands for itself.
pub proof fn lemma_whole_value(n: nat)
    requires
        n < P53,
    ensures
        of_nat(n).is_finite(),
        real_of(of_nat(n)) == n as real,
{
    crate::color::lemma_whole(n);
    let u = pow2(UNIT_EXP as nat);
    lemma_real_pow2(UNIT_EXP as nat);
    lemma_int_product(n as int, u as int);
    let (x, y, w) = (n as real, u as real, real_pow2(-(UNIT_EXP as int)));
    lemma_associates(x, y, w);
    let one = y * w;
    assert(x * one == x) by (nonlinear_arith)
        requires
            one == 1 as real,
    ;
}

/// The pattern of a power of two stands for it.
pub proof fn lemma_power_pattern(bits: u64, k: int)
    requires
        -1022 <= k <= 1023,
        bits == (k + 1022) * P52 + P52,
    ensures
        num(bits).is_finite(),
        !num(bits).negative(),
        real_of(num(bits)) == real_pow2(k),
{
    let e = (k + 1022) as nat;
    lemma_parts_unique(bits as nat, e, P52 as nat);
    lemma_p52_p53();
    vstd::arithmetic::power2::lemma_pow2_adds(52, e);
    lemma_pow2_as_real(52 + e);
    lemma_real_pow2_adds((52 + e) as int, -1074);
}

/// Small powers of two.
pub proof fn lemma_small_powers()
    ensures
        real_pow2(0) == 1 as real,
        real_pow2(1) == 2 as real,
        real_pow2(2) == 4 as real,
        real_pow2(4) == 16 as real,
        real_pow2(-1) + real_pow2(-1) == 1 as real,
        real_pow2(-2) + real_pow2(-2) == real_pow2(-1),
{
    reveal_with_fuel(real_pow2, 6);
}

/// Two numbers have the order of what they stand for.
pub proof fn lemma_order_of_values(a: Double, b: Double)
    requires
        a.is_finite(),
        b.is_finite(),
    ensures
        a.is_lt(b) <==> real_of(a) < real_of(b),
        a.is_le(b) <==> real_of(a) <= real_of(b),
{
    crate::laws::order_is_by_value(a, b);
    let w = real_pow2(-(UNIT_EXP as int));
    lemma_unit_is_positive(UNIT_EXP as nat);
    let (x, y) = (a.value() as real, b.value() as real);
    assert(x < y <==> x * w < y * w) by (nonlinear_arith)
        requires
            w > 0 as real,
    ;
    assert(y < x <==> y * w < x * w) by (nonlinear_arith)
        requires
            w > 0 as real,
    ;
}

/// A power of two is positive.
pub proof fn lemma_unit_is_positive(n: nat)
    ensures
        real_pow2(-(n as int)) > 0 as real,
    decreases n,
{
    if n > 0 {
        lemma_unit_is_positive((n - 1) as nat);
    }
}

/// The difference of two finite numbers has the sign of the difference of their values.
pub proof fn lemma_sign_of_difference(a: Double, b: Double)
    requires
        a.is_finite(),
        b.is_finite(),
    ensures
        a.minus(b).is_le(num(ZERO)) <==> a.value() <= b.value(),
{
    reveal(Double::plus);
    crate::laws::lemma_zero_units();
    let v = a.value() - b.value();
    assert(a.value() + b.negated().value() == v);
    if v != 0 {
        let n = crate::double::abs_int(v);
        crate::laws::rounding_is_monotone(1, n, 1);
        crate::bits::lemma_pow2_unfold_zero();
        crate::rounding::lemma_parts_unique(1, 0, 1);
        crate::rounding::lemma_round_exact(1);
        assert(1 * pow2(0) == 1) by (nonlinear_arith)
            requires
                pow2(0) == 1,
        ;
    }
}

/// Whether a number is at most zero: a finite one by what it stands for, an infinite one by its
/// sign; what is not a number is not.
pub open spec fn at_most_zero(v: Double) -> bool {
    &&& !v.is_nan()
    &&& v.is_finite() ==> real_of(v) <= 0 as real
    &&& v.is_infinite() ==> v.negative()
}

/// Where a centre is given, the view is refused exactly for a zoom that cannot be read or is not
/// positive, or for a centre that cannot be read.
pub proof fn deep_view_is_refused_for_its_readings(
    config: Config,
    zoom: Option<Double>,
    center_re: Option<Double>,
    center_im: Option<Double>,
    r: Result<view::View, ViewError>,
)
    requires
        config.center_re is Some,
        config.center_im is Some,
        call_ensures(Config::resolve_view, (&config, zoom, center_re, center_im), r),
    ensures
        zoom is None ==> r == Err::<view::View, ViewError>(ViewError::ZoomUnreadable),
        zoom is Some ==> {
            &&& at_most_zero(zoom->0) ==> r == Err::<view::View, ViewError>(
                ViewError::ZoomNotPositive,
            )
            &&& !at_most_zero(zoom->0) ==> {
                &&& center_re is None ==> r == Err::<view::View, ViewError>(
                    ViewError::CenterReUnreadable,
                )
                &&& center_re is Some && center_im is None ==> r == Err::<view::View, ViewError>(
                    ViewError::CenterImUnreadable,
                )
                &&& center_re is Some && center_im is Some ==> r is Ok
            }
        },
{
    crate::scaled_value::lemma_nothing(num(ZERO), 0);
    if zoom is Some && zoom->0.is_finite() {
        lemma_order_of_values(zoom->0, num(ZERO));
    }
}

/// Where no centre is given, the view is refused exactly where a bound is missing, or where the
/// region has no width or no height.
pub proof fn shallow_view_is_refused_for_its_bounds(
    config: Config,
    zoom: Option<Double>,
    center_re: Option<Double>,
    center_im: Option<Double>,
    r: Result<view::View, ViewError>,
)
    requires
        config.center_re is None || config.center_im is None,
        call_ensures(Config::resolve_view, (&config, zoom, center_re, center_im), r),
    ensures
        config.x_min is None || config.x_max is None || config.y_min is None || config.y_max is None
            ==> r == Err::<view::View, ViewError>(ViewError::NoView),
        config.x_min is Some && config.x_max is Some && config.y_min is Some && config.y_max is Some
            ==> {
            let (x0, x1, y0, y1) = (
                config.x_min->0,
                config.x_max->0,
                config.y_min->0,
                config.y_max->0,
            );
            x0.is_finite() && x1.is_finite() && y0.is_finite() && y1.is_finite() ==> r is Ok == (
            real_of(x0) < real_of(x1) && real_of(y0) < real_of(y1)) && (r is Err ==> r == Err::<
                view::View,
                ViewError,
            >(ViewError::EmptyRegion))
        },
{
    if config.x_min is Some && config.x_max is Some && config.y_min is Some
        && config.y_max is Some {
        let (x0, x1) = (config.x_min->0, config.x_max->0);
        let (y0, y1) = (config.y_min->0, config.y_max->0);
        if x0.is_finite() && x1.is_finite() && y0.is_finite() && y1.is_finite() {
            lemma_sign_of_difference(x1, x0);
            lemma_sign_of_difference(y1, y0);
            crate::laws::order_is_by_value(x1, x0);
            crate::laws::order_is_by_value(y1, y0);
            lemma_order_of_values(x1, x0);
            lemma_order_of_values(y1, y0);
        }
    }
}

/// A deep view has the zoom and the centre that were read, is four wide over the zoom, and has the
/// shape of the image: its height is to its width as the image's height is to the image's width.
pub proof fn deep_view_has_the_shape_of_the_image(
    config: Config,
    zoom: Option<Double>,
    center_re: Option<Double>,
    center_im: Option<Double>,
    v: view::View,
)
    requires
        config.center_re is Some,
        config.center_im is Some,
        call_ensures(
            Config::resolve_view,
            (&config, zoom, center_re, center_im),
            Ok::<view::View, ViewError>(v),
        ),
    ensures
        zoom == Some(v.zoom),
        center_re == Some(v.center_re),
        center_im == Some(v.center_im),
        v.deep,
        quotient_is_exact(num(FOUR), v.zoom) ==> real_of(v.width) * real_of(v.zoom) == 4 as real,
        product_is_exact(v.width, of_nat(config.height as nat)) && quotient_is_exact(
            v.width.times(of_nat(config.height as nat)),
            of_nat(config.width as nat),
        ) ==> real_of(v.height) * (config.width as real) == real_of(v.width) * (
        config.height as real),
{
    let (w, h) = (of_nat(config.width as nat), of_nat(config.height as nat));
    lemma_whole_value(config.width as nat);
    lemma_whole_value(config.height as nat);
    if quotient_is_exact(num(FOUR), v.zoom) {
        lemma_quotient_value(num(FOUR), v.zoom);
        lemma_power_pattern(FOUR, 2);
        lemma_small_powers();
    }
    if product_is_exact(v.width, h) && quotient_is_exact(v.width.times(h), w) {
        lemma_product_value(v.width, h);
        lemma_quotient_value(v.width.times(h), w);
    }
}

/// A shallow view covers the region: its centre is the midpoint of the bounds, its width and its
/// height are their distances, so that half of them to either side of the centre lie the bounds;
/// and its zoom is four over the width.
pub proof fn shallow_view_covers_the_region(
    config: Config,
    zoom: Option<Double>,
    center_re: Option<Double>,
    center_im: Option<Double>,
    v: view::View,
)
    requires
        config.center_re is None || config.center_im is None,
        call_ensures(
            Config::resolve_view,
            (&config, zoom, center_re, center_im),
            Ok::<view::View, ViewError>(v),
        ),
    ensures
        config.x_min is Some && config.x_max is Some && config.y_min is Some && config.y_max is Some,
        !v.deep,
        v.precision == 64,
        midpoint_is_exact(config.x_min->0, config.x_max->0) ==> {
            &&& real_of(v.center_re) + real_of(v.center_re) == real_of(config.x_min->0) + real_of(
                config.x_max->0,
            )
            &&& real_of(v.width) == real_of(config.x_max->0) - real_of(config.x_min->0)
        },
        midpoint_is_exact(config.y_min->0, config.y_max->0) ==> {
            &&& real_of(v.center_im) + real_of(v.center_im) == real_of(config.y_min->0) + real_of(
                config.y_max->0,
            )
            &&& real_of(v.height) == real_of(config.y_max->0) - real_of(config.y_min->0)
        },
        quotient_is_exact(num(FOUR), v.width) ==> real_of(v.zoom) * real_of(v.width) == 4 as real,
{
    lemma_midpoint(config.x_min->0, config.x_max->0);
    lemma_midpoint(config.y_min->0, config.y_max->0);
    if quotient_is_exact(num(FOUR), v.width) {
        lemma_quotient_value(num(FOUR), v.width);
        lemma_power_pattern(FOUR, 2);
        lemma_small_powers();
    }
}

/// Whether the midpoint and the distance of two numbers are exact.
pub open spec fn midpoint_is_exact(a: Double, b: Double) -> bool {
    &&& sum_is_exact(a, b)
    &&& product_is_exact(a.plus(b), num(HALF))
    &&& difference_is_exact(b, a)
}

/// The values of an exact midpoint and of an exact distance.
proof fn lemma_midpoint(a: Double, b: Double)
    ensures
        midpoint_is_exact(a, b) ==> {
            let m = real_of(a.plus(b).times(num(HALF)));
            &&& m + m == real_of(a) + real_of(b)
            &&& real_of(b.minus(a)) == real_of(b) - real_of(a)
        },
{
    if midpoint_is_exact(a, b) {
        lemma_sum_value(a, b);
        lemma_sum_value(b, a);
        lemma_product_value(a.plus(b), num(HALF));
        lemma_power_pattern(HALF, -1);
        lemma_small_powers();
        let (s, h) = (real_of(a.plus(b)), real_pow2(-1));
        lemma_distributes(s, h, h);
        let one = h + h;
        assert(s * one == s) by (nonlinear_arith)
            requires
                one == 1 as real,
        ;
    }
}

/// Whether the point of a pixel is exact: the first column or row, the distance of two, and the
/// pixel's place.
pub open spec fn place_is_exact(center: Double, extent: Double, k: nat, n: nat) -> bool {
    let half = extent.over(num(TWO));
    let step = extent.over(of_nat(n));
    &&& quotient_is_exact(extent, num(TWO))
    &&& difference_is_exact(center, half)
    &&& quotient_is_exact(extent, of_nat(n))
    &&& product_is_exact(of_nat(k), step)
    &&& sum_is_exact(center.minus(half), of_nat(k).times(step))
}

/// Every pixel of a shallow picture is what becomes of its point in the view: column `x` of `w`
/// lies `x/w - 1/2` of the width from the centre, and row `y` of `h` lies `y/h - 1/2` of the
/// height from it.
pub proof fn pixel_shows_its_point(
    view: view::View,
    w: usize,
    h: usize,
    max_iter: u32,
    r: IterField,
    x: nat,
    y: nat,
) -> (c: Complex)
    requires
        x < w < P53,
        y < h < P53,
        w * h <= usize::MAX,
        call_ensures(render_naive, (&view, w, h, max_iter), r),
    ensures
        r.entry(y * w + x) == naive_outcome(c, max_iter),
        place_is_exact(view.center_re, view.width, x, w as nat) ==> lies_at(
            real_of(c.re),
            real_of(view.center_re),
            real_of(view.width),
            x as int,
            w as int,
        ),
        place_is_exact(view.center_im, view.height, y, h as nat) ==> lies_at(
            real_of(c.im),
            real_of(view.center_im),
            real_of(view.height),
            y as int,
            h as int,
        ),
{
    let grid = grid_of(view, w as nat, h as nat);
    let c = grid.point(x, y);
    assert(r.entry(y * w + x) == grid.outcome(x, y, max_iter));
    if place_is_exact(view.center_re, view.width, x, w as nat) {
        lemma_place_value(view.center_re, view.width, x, w as nat);
    }
    if place_is_exact(view.center_im, view.height, y, h as nat) {
        lemma_place_value(view.center_im, view.height, y, h as nat);
    }
    c
}

/// Whether `p` lies `k/n - 1/2` of `extent` from `center`.
pub open spec fn lies_at(p: real, center: real, extent: real, k: int, n: int) -> bool {
    (p - center) * ((n + n) as real) == ((k + k - n) as real) * extent
}

/// The value of an exact place.
proof fn lemma_place_value(center: Double, extent: Double, k: nat, n: nat)
    requires
        k < n < P53,
        place_is_exact(center, extent, k, n),
    ensures
        lies_at(
            real_of(
                center.minus(extent.over(num(TWO))).plus(
                    of_nat(k).times(extent.over(of_nat(n))),
                ),
            ),
            real_of(center),
            real_of(extent),
            k as int,
            n as int,
        ),
{
    let half = extent.over(num(TWO));
    let step = extent.over(of_nat(n));
    lemma_whole_value(k);
    lemma_whole_value(n);
    lemma_quotient_value(extent, num(TWO));
    lemma_quotient_value(extent, of_nat(n));
    lemma_sum_value(center, half);
    lemma_product_value(of_nat(k), step);
    lemma_sum_value(center.minus(half), of_nat(k).times(step));
    crate::scaled_value::lemma_two_value();
    let (e, b, s) = (real_of(extent), real_of(half), real_of(step));
    let (kr, nr, two) = (k as real, n as real, 2 as real);
    assert(b * two == b + b) by (nonlinear_arith)
        requires
            two == 2 as real,
    ;
    // (k*s - b)*(n + n) is 2*k*(s*n) - 2*b*n, that is 2*k*e - n*e.
    let p = kr * s;
    let m = nr + nr;
    lemma_factor(p - b, b, m);
    lemma_distributes(p, nr, nr);
    lemma_distributes(b, nr, nr);
    lemma_associates(kr, s, nr);
    lemma_factor(b, b, nr);
    lemma_commutes(nr, e);
    lemma_commutes(kr, e);
    let d = (k + k - n) as real;
    assert(d == kr + kr - nr);
    lemma_factor(d, nr, e);
    lemma_factor(kr, kr, e);
}

/// A deep view has the precision that its pixels need: beside the 53 bits of a significand and 16
/// guard bits, the zoom times either side of the image is at most two to the bits that are left,
/// and with two bits less it would be larger for one of the sides. A zoom of at most one needs 64
/// bits.
pub proof fn deep_view_has_the_precision_of_its_pixels(
    config: Config,
    zoom: Option<Double>,
    center_re: Option<Double>,
    center_im: Option<Double>,
    v: view::View,
)
    requires
        config.center_re is Some,
        config.center_im is Some,
        call_ensures(
            Config::resolve_view,
            (&config, zoom, center_re, center_im),
            Ok::<view::View, ViewError>(v),
        ),
        v.zoom.is_finite(),
    ensures
        real_of(v.zoom) <= 1 as real ==> v.precision == 64,
        real_of(v.zoom) > 1 as real ==> {
            let left = pow2(UNIT_EXP as nat) * pow2((v.precision - 69) as nat);
            &&& v.precision >= 69
            &&& v.zoom.units() * config.width <= left
            &&& v.zoom.units() * config.height <= left
            &&& config.width > 0 || config.height > 0 ==> left < 4 * (v.zoom.units()
                * config.width) || left < 4 * (v.zoom.units() * config.height)
        },
{
    lemma_power_pattern(crate::double::ONE, 0);
    lemma_small_powers();
    lemma_order_of_values(v.zoom, num(crate::double::ONE));
    lemma_order_of_values(num(crate::double::ONE), v.zoom);
    if real_of(v.zoom) > 1 as real {
        let d = config.larger_side();
        crate::precision::precision_resolves_a_pixel(v.zoom, d);
        crate::precision::precision_is_not_wasted(v.zoom, d);
        let (n, w, h) = (v.zoom.units(), config.width as int, config.height as int);
        assert(n * w <= n * d && n * h <= n * d) by (nonlinear_arith)
            requires
                w <= d,
                h <= d,
                n >= 0,
        ;
    }
}

/// The picture is reported as distorted exactly where the shapes of the image and of the region
/// differ by more than a thousandth, as nearly as a number can be.
pub proof fn distortion_is_a_difference_of_shapes(
    v: view::View,
    width_px: u32,
    height_px: u32,
    r: bool,
)
    requires
        call_ensures(view::View::warn_aspect, (&v, width_px, height_px), r),
        quotient_is_exact(of_nat(width_px as nat), of_nat(height_px as nat)),
        quotient_is_exact(v.width, v.height),
        difference_is_exact(
            of_nat(width_px as nat).over(of_nat(height_px as nat)),
            v.width.over(v.height),
        ),
        of_nat(width_px as nat).over(of_nat(height_px as nat)).minus(
            v.width.over(v.height),
        ).is_finite(),
        height_px > 0,
        real_of(v.height) > 0 as real,
    ensures
        ({
            let image = (width_px as real) / (height_px as real);
            let region = real_of(v.width) / real_of(v.height);
            let tolerance = real_of(num(view::ASPECT_TOLERANCE));
            &&& r <==> (image - region > tolerance || region - image
                > tolerance)
            &&& -1 as real <= (tolerance * (1000 as real) - (1 as real)) * (
            0x1_0000_0000_0000 as real) <= 1 as real
        }),
{
    let (w, h) = (of_nat(width_px as nat), of_nat(height_px as nat));
    let (a, b) = (w.over(h), v.width.over(v.height));
    let d = a.minus(b);
    lemma_whole_value(width_px as nat);
    lemma_whole_value(height_px as nat);
    lemma_quotient_value(w, h);
    lemma_quotient_value(v.width, v.height);
    lemma_sum_value(a, b);
    lemma_thousandth();
    lemma_magnitude_value(d);
    lemma_order_of_values(num(view::ASPECT_TOLERANCE), d.magnitude());
    lemma_real_quotient(real_of(a), real_of(h), real_of(w));
    lemma_real_quotient(real_of(b), real_of(v.height), real_of(v.width));
}

/// A factor is the quotient.
proof fn lemma_real_quotient(q: real, y: real, x: real)
    requires
        q * y == x,
        y > 0 as real,
    ensures
        q == x / y,
{
    assert(q == x / y) by (nonlinear_arith)
        requires
            q * y == x,
            y > 0 as real,
    ;
}

/// The magnitude of a number stands for its absolute value.
proof fn lemma_magnitude_value(d: Double)
    requires
        d.is_finite(),
    ensures
        d.magnitude().is_finite(),
        real_of(d.magnitude()) == if real_of(d) < 0 as real {
            -real_of(d)
        } else {
            real_of(d)
        },
{
    let w = real_pow2(-(UNIT_EXP as int));
    lemma_unit_is_positive(UNIT_EXP as nat);
    let x = d.value() as real;
    let n = d.units() as real;
    assert(d.magnitude().mag() == d.mag());
    crate::scaled_value::lemma_negative(n, w);
    assert(n * w >= 0 as real) by (nonlinear_arith)
        requires
            n >= 0 as real,
            w > 0 as real,
    ;
}

/// The tolerance is a thousandth, as nearly as a number can be.
proof fn lemma_thousandth()
    ensures
        num(view::ASPECT_TOLERANCE).is_finite(),
        -1 as real <= (real_of(num(view::ASPECT_TOLERANCE)) * (1000 as real) - (1 as real)) * (
        0x1_0000_0000_0000 as real) <= 1 as real,
{
    crate::exact_color::lemma_pattern_value(view::ASPECT_TOLERANCE, 1012, 0x10_624d_d2f1_a9fc);
    lemma_real_pow2(62);
    vstd::arithmetic::power2::lemma2_to64_rest();
    lemma_commutes(pow2(62) as real, real_pow2(-62));
    let p = real_pow2(-62);
    assert(p * (0x4000_0000_0000_0000 as real) == 1 as real);
    assert(real_of(num(view::ASPECT_TOLERANCE)) == (0x10_624d_d2f1_a9fc as real) * p);
}

/// The precision at which the centre is read is the precision of the view.
pub proof fn centre_is_read_at_the_precision_of_the_view(
    config: Config,
    zoom: Option<Double>,
    center_re: Option<Double>,
    center_im: Option<Double>,
    v: view::View,
    p: Result<u32, ViewError>,
)
    requires
        config.center_re is Some,
        config.center_im is Some,
        call_ensures(Config::deep_precision, (&config, zoom), p),
        call_ensures(
            Config::resolve_view,
            (&config, zoom, center_re, center_im),
            Ok::<view::View, ViewError>(v),
        ),
    ensures
        p == Ok::<u32, ViewError>(v.precision),
{
}

/// The precision of a view is the one suggested for its zoom and the larger side of the image.
pub proof fn view_has_the_suggested_precision(
    config: Config,
    zoom: Option<Double>,
    center_re: Option<Double>,
    center_im: Option<Double>,
    v: view::View,
    p: u32,
)
    requires
        config.center_re is Some,
        config.center_im is Some,
        call_ensures(
            Config::resolve_view,
            (&config, zoom, center_re, center_im),
            Ok::<view::View, ViewError>(v),
        ),
        config.width > 0,
        call_ensures(
            crate::precision::suggested_precision,
            (
                v.zoom,
                if config.width < config.height {
                    config.height
                } else {
                    config.width
                },
            ),
            p,
        ),
    ensures
        v.precision == p,
{
}

/// A row computed by itself, on the grid of the view, is the row of the whole picture.
pub proof fn rows_make_up_the_picture(
    view: view::View,
    w: usize,
    h: usize,
    max_iter: u32,
    r: IterField,
    grid: Grid,
    y: usize,
    row: IterField,
    x: int,
)
    requires
        w > 0,
        w * h <= usize::MAX,
        call_ensures(render_naive, (&view, w, h, max_iter), r),
        call_ensures(Grid::new, (&view, w, h), grid),
        call_ensures(fill_naive_row, (y, w, &grid, max_iter), row),
        0 <= x < w,
        y < h,
    ensures
        row.iters@.len() == w,
        r.entry(y * w + x) == row.entry(x),
{
    assert(row.entry(x) == grid.outcome(x as nat, y as nat, max_iter));
    assert(grid == grid_of(view, w as nat, h as nat));
    let (a, b) = (x as nat, y as nat);
    assert(r.entry(((b * (w as nat)) + a) as int) == grid.outcome(a, b, max_iter));
}

}
