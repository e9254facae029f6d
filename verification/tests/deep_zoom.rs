use mandelbrot_renderer::config::Config;
use mandelbrot_renderer::deep::{delta_max, perturb_pass, perturb_row, series_for};
use mandelbrot_renderer::double::Double;
use mandelbrot_renderer::field::{IterField, GLITCH_MARKER};
use mandelbrot_renderer::naive::{naive_hp, naive_scalar, HpStep};
use mandelbrot_renderer::offsets::{compute_deltas_hp, HpOp};
use mandelbrot_renderer::orbit::{OrbitStep, ReferenceOrbit};
use mandelbrot_renderer::perturbation::{perturb_iterate, perturb_iterate_simd};
use mandelbrot_renderer::precision::suggested_precision;
use mandelbrot_renderer::rebase::{rerender_glitches, DeepAction, DeepRender};
use mandelbrot_renderer::series::SeriesApproximation;
use mandelbrot_renderer::view::View;
use std::collections::HashSet;

fn d(v: f64) -> Double {
    Double::new(v.to_bits())
}

fn f(v: Double) -> f64 {
    f64::from_bits(v.bits)
}

/// A number with 64 bits before the binary point and 192 behind it.
#[derive(Clone, Copy, Debug)]
struct Fixed {
    negative: bool,
    /// The magnitude, the lowest limb first.
    limbs: [u64; 4],
}

impl Fixed {
    const ZERO: Fixed = Fixed { negative: false, limbs: [0; 4] };

    fn from_f64(v: f64) -> Fixed {
        let bits = v.to_bits();
        let field = (bits >> 52) & 0x7ff;
        let fraction = bits & ((1 << 52) - 1);
        let (significand, exp) = if field == 0 {
            (fraction, -1074)
        } else {
            (fraction | 1 << 52, field as i64 - 1075)
        };
        let mut limbs = [0u64; 4];
        for bit in 0..53 {
            let at = bit + exp + 192;
            if significand >> bit & 1 == 1 && at >= 0 {
                limbs[(at / 64) as usize] |= 1 << (at % 64);
            }
        }
        Fixed { negative: v < 0.0, limbs }
    }

    /// The number nearest to the value.
    fn to_f64(self) -> f64 {
        let mut top = 4;
        while top > 0 && self.limbs[top - 1] == 0 {
            top -= 1;
        }
        if top == 0 {
            return 0.0;
        }
        let hi = self.limbs[top - 1];
        let lo = if top >= 2 { self.limbs[top - 2] } else { 0 };
        let rest = (0..top.saturating_sub(2)).any(|i| self.limbs[i] != 0);
        let word = ((hi as u128) << 64 | lo as u128) | rest as u128;
        let scale = 64 * (top as i32 - 2) - 192;
        let v = word as f64 * 2f64.powi(scale);
        if self.negative {
            -v
        } else {
            v
        }
    }

    fn to_double(self) -> Double {
        d(self.to_f64())
    }

    fn parse(text: &str) -> Fixed {
        let (negative, digits) = match text.strip_prefix('-') {
            Some(rest) => (true, rest),
            None => (false, text),
        };
        let (whole, fraction) = digits.split_once('.').unwrap_or((digits, ""));
        let mut limbs = [0u64; 4];
        for c in fraction.bytes().rev() {
            limbs[3] += (c - b'0') as u64;
            let mut rest = 0u128;
            for i in (0..4).rev() {
                let part = rest << 64 | limbs[i] as u128;
                limbs[i] = (part / 10) as u64;
                rest = part % 10;
            }
        }
        limbs[3] += whole.parse::<u64>().unwrap();
        Fixed { negative, limbs }
    }

    fn negate(self) -> Fixed {
        Fixed { negative: !self.negative, limbs: self.limbs }
    }

    fn less(a: &[u64; 4], b: &[u64; 4]) -> bool {
        a.iter().rev().lt(b.iter().rev())
    }

    fn plus(self, other: Fixed) -> Fixed {
        let mut limbs = [0u64; 4];
        if self.negative == other.negative {
            let mut carry = 0u128;
            for i in 0..4 {
                let sum = self.limbs[i] as u128 + other.limbs[i] as u128 + carry;
                limbs[i] = sum as u64;
                carry = sum >> 64;
            }
            return Fixed { negative: self.negative, limbs };
        }
        let (big, small, negative) = if Fixed::less(&self.limbs, &other.limbs) {
            (other.limbs, self.limbs, other.negative)
        } else {
            (self.limbs, other.limbs, self.negative)
        };
        let mut borrow = 0i128;
        for i in 0..4 {
            let mut part = big[i] as i128 - small[i] as i128 - borrow;
            borrow = if part < 0 {
                part += 1 << 64;
                1
            } else {
                0
            };
            limbs[i] = part as u64;
        }
        Fixed { negative, limbs }
    }

    fn minus(self, other: Fixed) -> Fixed {
        self.plus(other.negate())
    }

    fn times(self, other: Fixed) -> Fixed {
        let mut wide = [0u64; 8];
        for i in 0..4 {
            let mut carry = 0u128;
            for j in 0..4 {
                let part =
                    self.limbs[i] as u128 * other.limbs[j] as u128 + wide[i + j] as u128 + carry;
                wide[i + j] = part as u64;
                carry = part >> 64;
            }
            wide[i + 4] = carry as u64;
        }
        Fixed {
            negative: self.negative != other.negative,
            limbs: [wide[3], wide[4], wide[5], wide[6]],
        }
    }

    fn over(self, n: u32) -> Fixed {
        let mut limbs = self.limbs;
        let mut rest = 0u128;
        for i in (0..4).rev() {
            let part = rest << 64 | limbs[i] as u128;
            limbs[i] = (part / n as u128) as u64;
            rest = part % n as u128;
        }
        Fixed { negative: self.negative, limbs }
    }
}

/// A complex number at high precision.
#[derive(Clone, Copy, Debug)]
struct Point {
    re: Fixed,
    im: Fixed,
}

impl Point {
    const ZERO: Point = Point { re: Fixed::ZERO, im: Fixed::ZERO };

    fn at(re: f64, im: f64) -> Point {
        Point { re: Fixed::from_f64(re), im: Fixed::from_f64(im) }
    }

    fn step(self, c: Point) -> Point {
        let cross = self.re.times(self.im);
        Point {
            re: self.re.times(self.re).minus(self.im.times(self.im)).plus(c.re),
            im: cross.plus(cross).plus(c.im),
        }
    }
}

fn reference_orbit(c: Point, max_iter: u32) -> ReferenceOrbit {
    let mut z = Point::ZERO;
    let mut step = ReferenceOrbit::begin_hp(c.re.to_double(), c.im.to_double(), max_iter);
    loop {
        match step {
            OrbitStep::Done(orbit) => return orbit,
            OrbitStep::More(building) => {
                z = z.step(c);
                step = ReferenceOrbit::compute_hp(building, z.re.to_double(), z.im.to_double());
            },
        }
    }
}

fn exact_iteration(c: Point, max_iter: u32) -> (u32, f64) {
    let mut z = Point::ZERO;
    let mut i = 0;
    loop {
        match naive_hp(i, max_iter, z.re.to_double(), z.im.to_double()) {
            HpStep::Done(iters, mag) => return (iters, f(mag)),
            HpStep::Next => {
                z = z.step(c);
                i += 1;
            },
        }
    }
}

fn run_ops(shift: Fixed, ops: &[HpOp]) -> Double {
    let mut t = Fixed::ZERO;
    for op in ops {
        t = match *op {
            HpOp::Load(k) => Fixed::from_f64(k as f64),
            HpOp::Divide(n) => t.over(n),
            HpOp::Subtract(v) => t.minus(Fixed::from_f64(f(v))),
            HpOp::Multiply(v) => t.times(Fixed::from_f64(f(v))),
            HpOp::AddShift => t.plus(shift),
        };
    }
    t.to_double()
}

fn pixel_offsets(reference: Point, center: Point, view: &View, w: u32, h: u32) -> (Vec<Double>, Vec<Double>) {
    let (columns, rows) = compute_deltas_hp(view.width, view.height, w, h);
    let shift_re = center.re.minus(reference.re);
    let shift_im = center.im.minus(reference.im);
    (
        columns.iter().map(|ops| run_ops(shift_re, ops)).collect(),
        rows.iter().map(|ops| run_ops(shift_im, ops)).collect(),
    )
}

fn moved(center: Point, re: Double, im: Double) -> Point {
    Point { re: center.re.plus(Fixed::from_f64(f(re))), im: center.im.plus(Fixed::from_f64(f(im))) }
}

fn config(width: u32, height: u32, max_iter: u32, zoom: &str, series: bool) -> Config {
    Config {
        width,
        height,
        max_iter,
        output_filename: "test.png".to_string(),
        png_compression_level: 0,
        png_filter_type: "none".to_string(),
        x_min: None,
        x_max: None,
        y_min: None,
        y_max: None,
        center_re: Some("-0.744047327885618596691631635069778759229".to_string()),
        center_im: Some("0.1098916491492589420042574693894010907545".to_string()),
        zoom: Some(zoom.to_string()),
        color_density: None,
        series_approx: Some(series),
        max_reference_points: None,
    }
}

fn view_of(config: &Config) -> (View, Point) {
    let zoom = config.zoom_text().parse::<f64>().ok().map(d);
    let center = Point {
        re: Fixed::parse(config.center_re.as_ref().unwrap()),
        im: Fixed::parse(config.center_im.as_ref().unwrap()),
    };
    let view = config
        .resolve_view(zoom, Some(center.re.to_double()), Some(center.im.to_double()))
        .unwrap();
    (view, center)
}

fn render_deep(config: &Config, view: &View, center: Point) -> IterField {
    let (w, h) = (config.width, config.height);
    let max_iter = config.max_iter;
    let orbit = reference_orbit(center, max_iter);
    let (dre, dim) = pixel_offsets(center, center, view, w, h);
    let series = series_for(config.series_approx(), &orbit, view, max_iter);
    let field = perturb_pass(&orbit, &series, &dre, &dim, max_iter);
    let mut deep = DeepRender::new(field, w as usize, h as usize, config.max_reference_points());
    loop {
        match deep.next_action() {
            DeepAction::Rebase(x, y) => {
                let reference = moved(center, dre[x], dim[y]);
                let orbit = reference_orbit(reference, max_iter);
                let series = series_for(config.series_approx(), &orbit, view, max_iter);
                let (dre, dim) = pixel_offsets(reference, center, view, w, h);
                deep.rebase(&orbit, &series, &dre, &dim, max_iter);
            },
            DeepAction::Exact(x, y) => {
                let (iters, mag) = exact_iteration(moved(center, dre[x], dim[y]), max_iter);
                deep.settle(iters, d(mag));
            },
            DeepAction::Finished => return deep.into_field(),
        }
    }
}

#[test]
fn reference_orbit_inside() {
    let o = reference_orbit(Point::at(-1.0, 0.0), 100);
    assert!(o.escaped_at.is_none());
    assert_eq!(o.len(), 101);
    assert_eq!(o.z(1), (d(-1.0), d(0.0)));
}

#[test]
fn reference_orbit_escape() {
    let o = reference_orbit(Point::at(2.0, 0.0), 100);
    assert!(o.escaped_at.is_some());
    assert!(o.escaped_at.unwrap() < 5);
    assert_eq!(o.escaped_at, Some(1));
    assert_eq!(o.len(), 3);
    assert_eq!(o.len_bound(100), 1);
}

#[test]
fn perturbation_matches_naive() {
    let o = reference_orbit(Point::at(-0.75, 0.0), 256);
    let pts = [(0.3, 0.0), (1.0, 0.5), (-0.5, 0.0), (-0.75, 0.1), (-0.1, 0.8)];
    let zero = d(0.0);
    for (cr, ci) in pts {
        let (pi, _) = perturb_iterate(&o, d(cr - (-0.75)), d(ci - 0.0), 256, zero, zero, 0);
        let (ni, _) = naive_scalar(d(cr), d(ci), 256);
        assert!(
            (pi as i32 - ni as i32).abs() <= 2,
            "c=({},{}): perturb={} naive={}",
            cr,
            ci,
            pi,
            ni
        );
    }
}

#[test]
fn simd_matches_scalar() {
    let o = reference_orbit(Point::at(-0.743643887037151, 0.131825904205330), 512);
    let d_re = [1e-9, 2e-9, -1e-9, 3e-9].map(d);
    let d_im = [1e-9, -2e-9, 2e-9, 0.5e-9].map(d);
    let zero = d(0.0);
    let (iters, mags) = perturb_iterate_simd(&o, d_re, d_im, 512, [zero; 4], [zero; 4], 0);
    for lane in 0..4 {
        let (si, sm) = perturb_iterate(&o, d_re[lane], d_im[lane], 512, zero, zero, 0);
        assert_eq!(iters[lane], si, "lane {} iter", lane);
        if si != GLITCH_MARKER && si < 512 {
            assert!((f(mags[lane]) - f(sm)).abs() < 1e-6, "lane {} mag", lane);
        }
        assert_eq!(mags[lane], sm);
    }
}

#[test]
fn suggested_precision_grows_with_zoom() {
    assert_eq!(suggested_precision(d(1.0), 1920), 64);
    let p18 = suggested_precision(d(1e18), 1920);
    assert!(p18 >= 120, "p18={}", p18);
}

#[test]
fn naive_hp_agrees_with_scalar_shallow() {
    let pts = [(0.3, 0.1), (-0.5, 0.5), (-1.2, 0.3), (0.0, 0.0)];
    for (cr, ci) in pts {
        let (hi, _) = exact_iteration(Point::at(cr, ci), 300);
        let (fi, _) = naive_scalar(d(cr), d(ci), 300);
        assert!((hi as i32 - fi as i32).abs() <= 1, "c=({},{}): hp={} f64={}", cr, ci, hi, fi);
    }
}

fn check_deep(series: bool) {
    let config = config(24, 24, 600, "1e14", series);
    let (view, center) = view_of(&config);
    assert!(view.deep);

    let field = render_deep(&config, &view, center);
    assert_eq!(field.glitch_count(), 0);

    let (dre, dim) = pixel_offsets(center, center, &view, config.width, config.height);
    let w = config.width as usize;
    let mut max_diff = 0;
    for y in 0..config.height as usize {
        for x in 0..w {
            let (gt, _) = exact_iteration(moved(center, dre[x], dim[y]), config.max_iter);
            let got = field.iters[y * w + x];
            let diff = (got as i32 - gt as i32).abs();
            if diff > max_diff {
                max_diff = diff;
            }
        }
    }
    assert!(max_diff <= 2, "series={}: largest difference {}", series, max_diff);
}

#[test]
fn deep_zoom_matches_mpfr_no_series() {
    check_deep(false);
}

#[test]
fn deep_zoom_matches_mpfr_with_series() {
    check_deep(true);
}

#[test]
fn deep_zoom_image_has_detail() {
    let config = config(64, 64, 1500, "1e18", false);
    let (view, center) = view_of(&config);
    let field = render_deep(&config, &view, center);

    let distinct: HashSet<u32> = field.iters.iter().copied().collect();
    assert_eq!(field.glitch_count(), 0);
    assert!(distinct.len() >= 50, "only {} different counts", distinct.len());
}

#[test]
fn offsets_span_the_view() {
    let (columns, rows) = compute_deltas_hp(d(8.0), d(2.0), 4, 2);
    assert_eq!((columns.len(), rows.len()), (4, 2));
    assert_eq!(
        columns[1],
        vec![
            HpOp::Load(1),
            HpOp::Divide(4),
            HpOp::Subtract(d(0.5)),
            HpOp::Multiply(d(8.0)),
            HpOp::AddShift,
        ]
    );
    let at = |ops: &Vec<HpOp>, shift: f64| f(run_ops(Fixed::from_f64(shift), ops));
    let re: Vec<f64> = columns.iter().map(|ops| at(ops, 0.0)).collect();
    assert_eq!(re, vec![-4.0, -2.0, 0.0, 2.0]);
    let im: Vec<f64> = rows.iter().map(|ops| at(ops, 0.25)).collect();
    assert_eq!(im, vec![-0.75, 0.25]);
}

#[test]
fn orbit_of_no_iterations_is_zero() {
    let o = reference_orbit(Point::at(0.3, 0.1), 0);
    assert_eq!(o.len(), 1);
    assert_eq!(o.z(0), (d(0.0), d(0.0)));
    assert_eq!(o.escaped_at, None);
}

#[test]
fn orbit_ends_with_its_first_escape() {
    let o = reference_orbit(Point::at(1.0, 1.0), 50);
    let esc = o.escaped_at.unwrap();
    assert_eq!(o.len(), esc + 2);
    for n in 0..o.len() {
        let (re, im) = o.z(n);
        let beyond = f(re) * f(re) + f(im) * f(im) > 16.0;
        assert_eq!(beyond, n == esc + 1);
    }
}

#[test]
fn glitch_is_told_apart_from_escape_and_limit() {
    let o = reference_orbit(Point::at(-1.0, 0.0), 100);
    let zero = d(0.0);
    // A pixel whose iterate all but cancels the reference iterate -1.
    assert_eq!(perturb_iterate(&o, d(1.0 - 1e-5), zero, 100, zero, zero, 0), (GLITCH_MARKER, zero));
    let (iters, mag) = perturb_iterate(&o, d(3.0), zero, 100, zero, zero, 0);
    assert_eq!((iters, f(mag)), (2, 36.0));
    assert_eq!(perturb_iterate(&o, d(1e-6), zero, 100, zero, zero, 0), (100, zero));
}

#[test]
fn perturbation_is_exact_on_short_numbers() {
    let o = reference_orbit(Point::at(-1.0, 0.0), 100);
    let zero = d(0.0);
    for c in [1.5, 1.0, 0.75, 2.5] {
        let (iters, mag) = perturb_iterate(&o, d(c + 1.0), zero, 100, zero, zero, 0);
        assert_eq!((iters, mag), naive_scalar(d(c), zero, 100), "c={}", c);
    }
}

#[test]
fn reference_pixel_is_never_a_glitch() {
    let zero = d(0.0);
    for (re, im) in [(-1.0, 0.0), (0.3, 0.5), (-0.75, 0.1), (2.0, 0.0), (-1.77, 0.01)] {
        let o = reference_orbit(Point::at(re, im), 200);
        let (iters, _) = perturb_iterate(&o, zero, zero, 200, zero, zero, 0);
        assert_ne!(iters, GLITCH_MARKER);
        let expected = o.escaped_at.map_or(200, |esc| esc + 1);
        assert_eq!(iters, expected, "c=({},{})", re, im);
    }
}

#[test]
fn series_depends_on_the_orbit_alone() {
    let c = Point::at(-0.5, 0.25);
    let short = SeriesApproximation::compute(&reference_orbit(c, 6), d(1e-3), 5, 6);
    let long = SeriesApproximation::compute(&reference_orbit(c, 9), d(7.0), 5, 9);
    assert_eq!(short.rows.len(), 7);
    assert_eq!(short.rows[..], long.rows[..7]);
}

#[test]
fn series_gives_the_departure_at_the_skipped_iteration() {
    let o = reference_orbit(Point::at(0.0, 0.0), 100);
    let s = SeriesApproximation::compute(&o, d(0.5), 8, 100);
    assert_eq!(s.skip_iterations(), 1);
    assert_eq!(s.evaluate(d(0.5), d(0.0)), (d(0.5), d(0.0)));
    let (re, im) = s.evaluate(d(-0.25), d(0.75));
    assert_eq!((f(re), f(im)), (-0.25, 0.75));
    // After two iterations the departure is d*d + d.
    let s = SeriesApproximation::compute(&o, d(0.5), 16, 100);
    assert_eq!(s.skip_iterations(), 2);
    assert_eq!(s.evaluate(d(0.5), d(0.0)), (d(0.75), d(0.0)));
    let (re, im) = s.evaluate(d(0.25), d(0.5));
    assert_eq!((f(re), f(im)), (0.25 + 0.0625 - 0.25, 0.5 + 0.25));
}

#[test]
fn starting_with_the_offset_saves_the_first_iteration() {
    let zero = d(0.0);
    for (re, im) in [(-1.0, 0.0), (-0.75, 0.1), (2.0, 0.0), (5.0, 1.0), (0.3, 0.5)] {
        let o = reference_orbit(Point::at(re, im), 200);
        for (dr, di) in [(0.0, 0.0), (-0.0, 1e-3), (1e-6, -2e-6), (0.5, 0.25), (3.0, -0.0)] {
            for max_iter in [1, 2, 200] {
                let a = perturb_iterate(&o, d(dr), d(di), max_iter, zero, zero, 0);
                let b = perturb_iterate(&o, d(dr), d(di), max_iter, d(dr), d(di), 1);
                assert_eq!(a, b, "c=({},{}) d=({},{})", re, im, dr, di);
            }
        }
    }
}

#[test]
fn series_is_given_up_where_it_does_not_converge() {
    let o = reference_orbit(Point::at(-0.5, 0.25), 40);
    let s = SeriesApproximation::compute(&o, d(1e-3), 4, 40);
    assert_eq!(s.skip_iterations(), 0);
    assert!(s.rows.is_empty());
    assert_eq!(s.evaluate(d(0.5), d(0.5)), (d(0.0), d(0.0)));
}

#[test]
fn pixel_outlives_an_escaping_reference() {
    let o = reference_orbit(Point::at(2.0, 0.0), 100);
    let zero = d(0.0);
    let (iters, mag) = perturb_iterate(&o, d(-1.0), zero, 100, zero, zero, 0);
    let (expected, expected_mag) = naive_scalar(d(1.0), zero, 100);
    assert_eq!((iters, f(mag)), (expected, f(expected_mag)));
}

#[test]
fn series_has_the_documented_coefficients() {
    // An orbit on which no iteration can be skipped to, so that every row is kept.
    let o = reference_orbit(Point::at(-0.5, 0.25), 9);
    let s = SeriesApproximation::compute(&o, d(1e-3), 4, 9);
    assert_eq!(s.rows.len(), 10);
    assert_eq!(s.skip_iterations(), 0);
    let row = |n: usize| -> Vec<(f64, f64)> {
        s.rows[n]
            .iter()
            .map(|c| {
                let v = c.to_complex();
                (f(v.re), f(v.im))
            })
            .collect()
    };
    let zero = (0.0, 0.0);
    assert_eq!(row(0), vec![zero, zero, zero, zero]);
    assert_eq!(row(1), vec![(1.0, 0.0), zero, zero, zero]);
    // Z_1 = -0.5 + 0.25i: 2*Z_1 + 1, 1, 0, 0.
    assert_eq!(row(2), vec![(0.0, 0.5), (1.0, 0.0), zero, zero]);
    // Plain complex arithmetic goes the same way.
    let mul = |a: (f64, f64), b: (f64, f64)| (a.0 * b.0 - a.1 * b.1, a.0 * b.1 + a.1 * b.0);
    let add = |a: (f64, f64), b: (f64, f64)| (a.0 + b.0, a.1 + b.1);
    for n in 0..9 {
        let (zr, zi) = o.z(n as u32);
        let z2 = (2.0 * f(zr), 2.0 * f(zi));
        let a = row(n);
        let expected = [
            add(mul(z2, a[0]), (1.0, 0.0)),
            add(mul(z2, a[1]), mul(a[0], a[0])),
            add(mul(z2, a[2]), mul((2.0, 0.0), mul(a[0], a[1]))),
            add(mul(z2, a[3]), add(mul((2.0, 0.0), mul(a[0], a[2])), mul(a[1], a[1]))),
        ];
        for (got, want) in row(n + 1).iter().zip(expected) {
            let scale = want.0.abs() + want.1.abs() + 1.0;
            assert!((got.0 - want.0).abs() < 1e-12 * scale, "{} {:?} {:?}", n, got, want);
            assert!((got.1 - want.1).abs() < 1e-12 * scale, "{} {:?} {:?}", n, got, want);
        }
    }
    assert_eq!(s.num_terms, 4);
    assert_eq!(SeriesApproximation::compute(&o, d(1e-3), 0, 9).num_terms, 2);
    assert_eq!(SeriesApproximation::compute(&o, d(1e-3), 99, 9).num_terms, 16);
}

#[test]
fn series_stands_for_the_first_iterations() {
    let s = SeriesApproximation {
        rows: vec![
            Vec::new(),
            vec![
                mandelbrot_renderer::scaled::Mcx::from_complex(d(1.0), d(0.0)),
                mandelbrot_renderer::scaled::Mcx::from_complex(d(0.0), d(2.0)),
            ],
        ],
        num_terms: 2,
        skip: 1,
    };
    // d + 2i*d^2 at d = 3 + i
    assert_eq!(s.evaluate(d(3.0), d(1.0)), (d(-9.0), d(17.0)));
    let (re, im) = s.evaluate_simd(
        [d(3.0), d(0.0), d(1.0), d(-1.0)],
        [d(1.0), d(0.0), d(0.0), d(0.0)],
    );
    assert_eq!(re, [d(-9.0), d(0.0), d(1.0), d(-1.0)]);
    assert_eq!(im, [d(17.0), d(0.0), d(2.0), d(2.0)]);
    assert_eq!(s.skip_iterations(), 1);
}

#[test]
fn series_that_skips_nothing_departs_by_nothing() {
    let o = reference_orbit(Point::at(-0.5, 0.25), 40);
    let s = SeriesApproximation::compute(&o, d(1e-3), 8, 5);
    assert_eq!(s.skip_iterations(), 0);
    assert_eq!(s.evaluate(d(0.5), d(0.5)), (d(0.0), d(0.0)));
}

#[test]
fn rows_of_a_pass_go_in_fours_and_singly() {
    let config = config(7, 3, 300, "1e5", true);
    let (view, center) = view_of(&config);
    let orbit = reference_orbit(center, 300);
    let (dre, dim) = pixel_offsets(center, center, &view, 7, 3);
    let series = series_for(true, &orbit, &view, 300);
    let whole = perturb_pass(&orbit, &series, &dre, &dim, 300);
    let rows: Vec<IterField> =
        dim.iter().map(|&im| perturb_row(&orbit, &series, &dre, im, 300)).collect();
    let stacked = IterField::from_rows(&rows, 7);
    assert_eq!(whole.iters, stacked.iters);
    assert_eq!(whole.mag_sq, stacked.mag_sq);
    let zero = d(0.0);
    let skip = series.as_ref().unwrap().skip_iterations();
    for y in 0..3 {
        for x in 0..7 {
            let (er, ei) = series.as_ref().unwrap().evaluate(dre[x], dim[y]);
            let (i, m) = perturb_iterate(&orbit, dre[x], dim[y], 300, er, ei, skip);
            assert_eq!((whole.iters[y * 7 + x], whole.mag_sq[y * 7 + x]), (i, m));
            if skip == 0 {
                assert_eq!((er, ei), (zero, zero));
            }
        }
    }
    assert!(series_for(false, &orbit, &view, 300).is_none());
}

#[test]
fn largest_offset_is_half_the_diagonal() {
    let view = View {
        center_re: d(0.0),
        center_im: d(0.0),
        width: d(3.0),
        height: d(4.0),
        zoom: d(1.0),
        deep: true,
        precision: 64,
    };
    assert_eq!(delta_max(&view), d(2.5));
}

fn marked(iters: Vec<u32>) -> IterField {
    let mag_sq = iters.iter().map(|_| d(0.0)).collect();
    IterField { iters, mag_sq }
}

#[test]
fn only_listed_glitches_are_computed_again() {
    let orbit = reference_orbit(Point::at(-1.0, 0.0), 50);
    let dre: Vec<Double> = [3.0, 1e-6, 1.0 - 1e-5].map(d).to_vec();
    let dim: Vec<Double> = [0.0, 0.0].map(d).to_vec();
    let g = GLITCH_MARKER;
    let mut field = marked(vec![g, g, g, 7, g, g]);
    rerender_glitches(&orbit, &None, &dre, &dim, &vec![0, 1, 2, 4, 5], &mut field, 3, 50);
    assert_eq!(field.iters, vec![2, 50, g, 7, 50, g]);
    assert_eq!(f(field.mag_sq[0]), 36.0);
}

#[test]
fn glitches_get_a_new_reference_before_the_exact_iteration() {
    let g = GLITCH_MARKER;
    let orbit = reference_orbit(Point::at(-1.0, 0.0), 50);
    let near: Vec<Double> = [0.0; 3].map(d).to_vec();
    let mut deep = DeepRender::new(marked(vec![1, g, g, 5, g, g]), 3, 2, 12);
    assert_eq!(deep.tol_count, 1);
    // The third of the four glitches is the middle one.
    assert_eq!(deep.next_action(), DeepAction::Rebase(1, 1));
    deep.rebase(&orbit, &None, &near, &[0.0; 2].map(d).to_vec(), 50);
    assert_eq!(deep.field.iters, vec![1, 50, 50, 5, 50, 50]);
    assert_eq!(deep.refs_used, 2);
    assert_eq!(deep.next_action(), DeepAction::Finished);
}

#[test]
fn glitches_within_the_tolerance_are_iterated_exactly() {
    let g = GLITCH_MARKER;
    let mut deep = DeepRender::new(marked(vec![3, 4, 5, g]), 2, 2, 12);
    assert_eq!(deep.next_action(), DeepAction::Exact(1, 1));
    deep.settle(9, d(20.0));
    assert_eq!(deep.next_action(), DeepAction::Finished);
    let field = deep.into_field();
    assert_eq!(field.iters, vec![3, 4, 5, 9]);
    assert_eq!(f(field.mag_sq[3]), 20.0);
}

#[test]
fn no_more_references_than_allowed() {
    let g = GLITCH_MARKER;
    let deep = DeepRender::new(marked(vec![g, g, g, g]), 2, 2, 1);
    assert_eq!(deep.next_action(), DeepAction::Exact(0, 0));
    let mut deep = DeepRender::new(marked(vec![g, g, g, g]), 2, 2, 2);
    assert_eq!(deep.next_action(), DeepAction::Rebase(0, 1));
    // A pass that settles nothing.
    let orbit = reference_orbit(Point::at(-1.0, 0.0), 50);
    let far: Vec<Double> = [1.0 - 1e-5; 2].map(d).to_vec();
    let level: Vec<Double> = [0.0; 2].map(d).to_vec();
    deep.rebase(&orbit, &None, &far, &level, 50);
    assert_eq!(deep.next_action(), DeepAction::Exact(0, 0));
    for n in 0..4 {
        deep.settle(n, d(0.0));
    }
    assert_eq!(deep.next_action(), DeepAction::Finished);
    assert_eq!(deep.into_field().iters, vec![0, 1, 2, 3]);
}

#[test]
fn exact_iteration_passes_each_glitch_once() {
    let g = GLITCH_MARKER;
    let mut deep = DeepRender::new(marked(vec![g, g]), 2, 1, 1);
    deep.settle(g, d(0.0));
    assert_eq!(deep.next_action(), DeepAction::Exact(1, 0));
    deep.settle(g, d(0.0));
    assert_eq!(deep.next_action(), DeepAction::Finished);
}
