use mandelbrot_renderer::color::{
    build_palette, color_field, palette_phases, sample_palette, smooth_nu,
};
use mandelbrot_renderer::config::{Config, ViewError};
use mandelbrot_renderer::double::Double;
use mandelbrot_renderer::field::{IterField, GLITCH_MARKER};
use mandelbrot_renderer::naive::{naive_hp, naive_scalar, naive_simd, HpStep};
use mandelbrot_renderer::precision::suggested_precision;
use mandelbrot_renderer::render::{render, RenderError, PALETTE_SIZE};
use mandelbrot_renderer::shallow::{fill_naive_row, render_naive, Grid};
use mandelbrot_renderer::view::View;

fn d(v: f64) -> Double {
    Double::new(v.to_bits())
}

fn f(v: Double) -> f64 {
    f64::from_bits(v.bits)
}

fn config() -> Config {
    Config {
        width: 8,
        height: 4,
        max_iter: 100,
        output_filename: "image.png".to_string(),
        png_compression_level: 2,
        png_filter_type: "nofilter".to_string(),
        x_min: None,
        x_max: None,
        y_min: None,
        y_max: None,
        center_re: None,
        center_im: None,
        zoom: None,
        color_density: None,
        series_approx: None,
        max_reference_points: None,
    }
}

fn region(x_min: f64, x_max: f64, y_min: f64, y_max: f64) -> Config {
    Config {
        x_min: Some(d(x_min)),
        x_max: Some(d(x_max)),
        y_min: Some(d(y_min)),
        y_max: Some(d(y_max)),
        ..config()
    }
}

fn centred(zoom: &str) -> Config {
    Config {
        center_re: Some("-0.75".to_string()),
        center_im: Some("0.1".to_string()),
        zoom: Some(zoom.to_string()),
        ..config()
    }
}

fn cosines(size: usize) -> Vec<[Double; 3]> {
    palette_phases(size).iter().map(|p| p.map(|v| d(f(v).cos()))).collect()
}

/// The palette as plain floating-point arithmetic gives it.
fn expected_palette(size: usize) -> Vec<[u8; 3]> {
    let shift = [0.00, 0.15, 0.30];
    let tau = 2.0 * std::f64::consts::PI;
    (0..size)
        .map(|i| {
            let t = i as f64 / size as f64;
            let mut out = [0u8; 3];
            for k in 0..3 {
                let v: f64 = 0.5 + 0.5 * (tau * (1.0 * t + shift[k])).cos();
                out[k] = (v.clamp(0.0, 1.0) * 255.0) as u8;
            }
            out
        })
        .collect()
}

#[test]
fn palette_is_that_of_the_cosines() {
    let p = build_palette(2048, &cosines(2048));
    assert_eq!(p, expected_palette(2048));
    assert_eq!(p.len(), 2048);
    assert_eq!(p[0], [255, 202, 88]);
    assert_eq!(p[1024][0], 0);
    assert!(build_palette(0, &Vec::new()).is_empty());
}

#[test]
fn palette_goes_by_the_ratio() {
    for n in [1, 3, 100, 1024] {
        let small = build_palette(n, &cosines(n));
        let large = build_palette(2 * n, &cosines(2 * n));
        for i in 0..n {
            assert_eq!(large[2 * i], small[i]);
        }
    }
}

#[test]
fn palette_values_are_held_to_a_byte() {
    let wild = vec![[d(3.0), d(-3.0), d(f64::NAN)], [d(0.0), d(1.0), d(-1.0)]];
    assert_eq!(build_palette(2, &wild), vec![[255, 0, 0], [127, 255, 0]]);
}

/// The colour at a position as plain floating-point arithmetic gives it.
fn expected_sample(palette: &[[u8; 3]], pos: f64) -> [u8; 3] {
    let plen = palette.len() as f64;
    let mut p = pos % plen;
    if p < 0.0 {
        p += plen;
    }
    let i0 = (p as usize) % palette.len();
    let i1 = (i0 + 1) % palette.len();
    let t = p - p.floor();
    let mut out = [0u8; 3];
    for k in 0..3 {
        let (a, b) = (palette[i0][k] as f64, palette[i1][k] as f64);
        out[k] = (a + (b - a) * t) as u8;
    }
    out
}

#[test]
fn samples_lie_between_neighbouring_colours() {
    let p = vec![[0, 100, 200], [100, 50, 0], [10, 20, 30]];
    assert_eq!(sample_palette(&p, d(0.0)), [0, 100, 200]);
    assert_eq!(sample_palette(&p, d(1.0)), [100, 50, 0]);
    assert_eq!(sample_palette(&p, d(0.5)), [50, 75, 100]);
    assert_eq!(sample_palette(&p, d(2.5)), [5, 60, 115]);
    assert_eq!(sample_palette(&p, d(3.0)), [0, 100, 200]);
    assert_eq!(sample_palette(&p, d(-0.5)), [5, 60, 115]);
    assert_eq!(sample_palette(&p, d(-1e-30)), [0, 100, 200]);
    assert_eq!(sample_palette(&p, d(f64::NAN)), [0, 0, 0]);
    let long = expected_palette(2048);
    for k in 0..5000 {
        let pos = (k as f64 - 2500.0) * 1.37;
        assert_eq!(sample_palette(&long, d(pos)), expected_sample(&long, pos), "{}", pos);
    }
}

#[test]
fn samples_at_whole_positions_are_the_colours() {
    let p = expected_palette(64);
    for i in 0..64 {
        assert_eq!(sample_palette(&p, d(i as f64)), p[i]);
        assert_eq!(sample_palette(&p, d(i as f64 - 64.0)), p[i]);
    }
}

fn log_ratio(mag_sq: f64) -> Double {
    d((mag_sq.ln() / 16f64.ln()).log2())
}

#[test]
fn smooth_count_subtracts_the_logarithm() {
    assert_eq!(smooth_nu(10, log_ratio(16.0)), d(10.0));
    assert_eq!(smooth_nu(10, log_ratio(256.0)), d(9.0));
}

#[test]
fn only_escaped_pixels_are_coloured() {
    let field = IterField {
        iters: vec![GLITCH_MARKER, 100, 101, 5, 5, 7],
        mag_sq: [0.0, 0.0, 99.0, 16.0, 256.0, 100.0].map(d).to_vec(),
    };
    let logs: Vec<Double> = field.mag_sq.iter().map(|m| log_ratio(f(*m))).collect();
    let palette = expected_palette(2048);
    let rgb = color_field(&field, 100, &logs, d(2.0), &palette);
    assert_eq!(rgb.len(), 18);
    assert_eq!(rgb[..12], [0; 12]);
    assert_eq!(rgb[12..15], palette[8]);
    let nu = 7.0 - (100f64.ln() / 16f64.ln()).log2();
    assert_eq!(rgb[15..18], expected_sample(&palette, nu * 2.0));
}

#[test]
fn nothing_to_colour_needs_no_palette() {
    let field = IterField { iters: vec![100], mag_sq: vec![d(0.0)] };
    assert_eq!(color_field(&field, 100, &vec![d(0.0)], d(1.0), &Vec::new()), vec![0, 0, 0]);
}

#[test]
fn image_has_a_colour_for_each_pixel() {
    let config = Config { width: 2, height: 1, ..config() };
    let field = IterField { iters: vec![100, 5], mag_sq: [0.0, 256.0].map(d).to_vec() };
    let logs: Vec<Double> = vec![d(0.0), log_ratio(256.0)];
    let image = render(&config, &field, &logs, &cosines(PALETTE_SIZE)).ok().unwrap();
    assert_eq!((image.width, image.height), (2, 1));
    let c = expected_palette(PALETTE_SIZE)[4];
    assert_eq!(image.rgb, vec![0, 0, 0, c[0], c[1], c[2]]);
}

#[test]
fn image_needs_enough_pixels() {
    let config = Config { width: 2, height: 2, ..config() };
    let field = IterField::new(3);
    let logs = vec![d(0.0); 3];
    let r = render(&config, &field, &logs, &cosines(PALETTE_SIZE));
    assert!(matches!(r, Err(RenderError::BufferTooSmall)));
    assert_eq!(RenderError::BufferTooSmall.message(), "无法构建图像缓冲区");
    let spare = IterField::new(5);
    let logs = vec![d(0.0); 5];
    let image = render(&config, &spare, &logs, &cosines(PALETTE_SIZE)).ok().unwrap();
    assert_eq!(image.rgb.len(), 15);
}

#[test]
fn defaults_of_the_configuration() {
    let c = config();
    assert_eq!(c.color_density(), d(1.0));
    assert!(c.series_approx());
    assert_eq!(c.max_reference_points(), 12);
    assert_eq!(c.zoom_text(), "1");
    assert_eq!(c.max_dim(), 8);
    let c = Config {
        color_density: Some(d(0.5)),
        series_approx: Some(false),
        max_reference_points: Some(3),
        zoom: Some("1e5".to_string()),
        width: 0,
        height: 0,
        ..config()
    };
    assert_eq!(c.color_density(), d(0.5));
    assert!(!c.series_approx());
    assert_eq!(c.max_reference_points(), 3);
    assert_eq!(c.zoom_text(), "1e5");
    assert_eq!(c.max_dim(), 1);
}

#[test]
fn region_gives_a_shallow_view() {
    let v = region(-2.0, 1.0, -1.0, 1.0).resolve_view(None, None, None).unwrap();
    assert_eq!(v.center_re_f64(), d(-0.5));
    assert_eq!(v.center_im_f64(), d(0.0));
    assert_eq!((v.width, v.height), (d(3.0), d(2.0)));
    assert_eq!(v.zoom, d(4.0 / 3.0));
    assert!(!v.deep);
    assert_eq!(v.precision, 64);
}

#[test]
fn centre_gives_a_deep_view() {
    let c = centred("1e14");
    let v = c.resolve_view(Some(d(1e14)), Some(d(-0.75)), Some(d(0.1))).unwrap();
    assert_eq!((v.center_re_f64(), v.center_im_f64()), (d(-0.75), d(0.1)));
    assert_eq!(v.width, d(4.0 / 1e14));
    assert_eq!(v.height, d(4.0 / 1e14 * 4.0 / 8.0));
    assert_eq!(v.zoom, d(1e14));
    assert!(v.deep);
    assert_eq!(v.precision, 47 + 53 + 16 + 3);
    assert_eq!(c.deep_precision(Some(d(1e14))), Ok(v.precision));
}

#[test]
fn centre_takes_precedence_over_a_region() {
    let c = Config {
        x_min: Some(d(0.0)),
        x_max: Some(d(0.0)),
        y_min: Some(d(0.0)),
        y_max: Some(d(0.0)),
        ..centred("2")
    };
    assert!(c.resolve_view(Some(d(2.0)), Some(d(0.0)), Some(d(0.0))).unwrap().deep);
}

#[test]
fn unreadable_zoom_is_refused() {
    let c = centred("wide");
    let e = c.resolve_view(None, Some(d(0.0)), Some(d(0.0))).unwrap_err();
    assert_eq!(e, ViewError::ZoomUnreadable);
    assert_eq!(e.message(), "zoom 解析失败");
    assert_eq!(c.deep_precision(None), Err(ViewError::ZoomUnreadable));
}

#[test]
fn zoom_has_to_be_positive() {
    for z in [0.0, -0.0, -1.0, f64::NEG_INFINITY] {
        let e = centred("0").resolve_view(Some(d(z)), None, None).unwrap_err();
        assert_eq!(e, ViewError::ZoomNotPositive);
        assert_eq!(e.message(), "zoom 必须为正数");
    }
}

#[test]
fn unreadable_centre_is_refused() {
    let c = centred("2");
    let e = c.resolve_view(Some(d(2.0)), None, None).unwrap_err();
    assert_eq!(e, ViewError::CenterReUnreadable);
    assert_eq!(e.message(), "高精度坐标解析失败");
    let e = c.resolve_view(Some(d(2.0)), Some(d(0.0)), None).unwrap_err();
    assert_eq!(e, ViewError::CenterImUnreadable);
    assert_eq!(e.message(), "高精度坐标解析失败");
}

#[test]
fn empty_region_is_refused() {
    for c in [region(1.0, 1.0, 0.0, 1.0), region(2.0, 1.0, 0.0, 1.0), region(0.0, 1.0, 1.0, 0.0)] {
        let e = c.resolve_view(None, None, None).unwrap_err();
        assert_eq!(e, ViewError::EmptyRegion);
        assert_eq!(e.message(), "x_max 必须大于 x_min，y_max 必须大于 y_min");
    }
}

#[test]
fn some_view_has_to_be_given() {
    let incomplete = Config { y_max: None, ..region(-2.0, 1.0, -1.0, 1.0) };
    let half = Config { center_im: None, ..centred("2") };
    for c in [config(), incomplete, half] {
        let e = c.resolve_view(Some(d(2.0)), Some(d(0.0)), Some(d(0.0))).unwrap_err();
        assert_eq!(e, ViewError::NoView);
        assert_eq!(
            e.message(),
            "配置必须提供 center_re/center_im/zoom（深缩放）或 x_min/x_max/y_min/y_max（浅缩放）"
        );
    }
}

#[test]
fn distorted_views_are_reported() {
    let v = region(-2.0, 1.0, -0.84375, 0.84375).resolve_view(None, None, None).unwrap();
    assert!(!v.warn_aspect(38400, 21600));
    assert!(v.warn_aspect(100, 100));
    assert!(!v.warn_aspect(1778, 1000));
    assert!(v.warn_aspect(1780, 1000));
}

#[test]
fn precision_has_its_exact_values() {
    assert_eq!(suggested_precision(d(0.5), 1920), 64);
    assert_eq!(suggested_precision(d(2.0), 1), 1 + 69);
    assert_eq!(suggested_precision(d(2.0000000000000004), 1), 2 + 69);
    assert_eq!(suggested_precision(d(1e18), 1920), 60 + 69 + 11);
    assert_eq!(suggested_precision(d(1024.0), 1024), 10 + 69 + 10);
    assert_eq!(suggested_precision(d(1024.0), 1025), 10 + 69 + 11);
    assert_eq!(suggested_precision(d(1024.0), 0), 10 + 69);
    assert_eq!(suggested_precision(d(f64::MAX), u32::MAX), 1024 + 69 + 32);
    assert_eq!(suggested_precision(d(f64::NAN), 2), 70);
}

#[test]
fn precision_tells_the_pixels_apart() {
    let mut last = 0;
    for e in 0..30 {
        let zoom = 10f64.powi(e);
        let p = suggested_precision(d(zoom), 1920);
        assert!(p >= last && p >= 64);
        if zoom > 1.0 {
            assert!(zoom * 1920.0 <= 2f64.powi(p as i32 - 69));
        }
        last = p;
    }
}

/// The iteration as plain floating-point arithmetic gives it, without any shortcut.
fn plain_iteration(c_re: f64, c_im: f64, max_iter: u32) -> (u32, f64) {
    let (mut x, mut y) = (0.0, 0.0);
    for i in 0..max_iter {
        let (xs, ys) = (x * x, y * y);
        if xs + ys > 16.0 {
            return (i, xs + ys);
        }
        let yn = 2.0 * x * y + c_im;
        x = xs - ys + c_re;
        y = yn;
    }
    (max_iter, 0.0)
}

#[test]
fn points_iterate_as_in_plain_arithmetic() {
    for k in 0..400 {
        let c_re = -2.2 + (k % 20) as f64 * 0.16;
        let c_im = -1.2 + (k / 20) as f64 * 0.13;
        let (i, m) = naive_scalar(d(c_re), d(c_im), 200);
        let (ei, em) = plain_iteration(c_re, c_im, 200);
        assert_eq!((i, f(m)), (ei, em), "c=({},{})", c_re, c_im);
    }
}

#[test]
fn cardioid_and_disc_are_skipped() {
    assert_eq!(naive_scalar(d(0.0), d(0.0), 1000), (1000, d(0.0)));
    assert_eq!(naive_scalar(d(-1.0), d(0.1), 1000), (1000, d(0.0)));
    assert_eq!(naive_scalar(d(2.0), d(0.0), 1000), (2, d(36.0)));
    assert_eq!(naive_scalar(d(2.0), d(0.0), 2), (2, d(0.0)));
}

#[test]
fn lanes_iterate_their_own_points() {
    let c_re = [-0.75, 0.3, -1.2, 0.4];
    let c_im = [0.2, 0.6, 0.3, 0.4];
    let (iters, mags) = naive_simd(c_re.map(d), c_im.map(d), 300);
    for lane in 0..4 {
        let (i, m) = naive_scalar(d(c_re[lane]), d(c_im[lane]), 300);
        assert_eq!((iters[lane], mags[lane]), (i, m));
    }
    // Far to the right of the set no point is taken for one of the cardioid.
    let (iters, mags) = naive_simd([d(1.25); 4], [d(0.5); 4], 300);
    let (i, m) = plain_iteration(1.25, 0.5, 300);
    assert_eq!((iters, mags), ([i; 4], [d(m); 4]));
    assert!(i < 300);
    let (iters, mags) = naive_simd([2.0, 4.0, 0.0, -1.0].map(d), [d(0.0); 4], 10);
    assert_eq!(iters, [2, 2, 10, 10]);
    assert_eq!(mags, [36.0, 400.0, 0.0, 0.0].map(d));
}

#[test]
fn columns_in_fours_and_left_over_agree_beyond_the_set() {
    let view = region(-3.0, 6.0, -1.0, 1.0).resolve_view(None, None, None).unwrap();
    let grid = Grid::new(&view, 11, 2);
    let row = fill_naive_row(1, 11, &grid, 50);
    for x in 0..11 {
        let c_re = -3.0 + x as f64 * (9.0 / 11.0);
        assert_eq!((row.iters[x], f(row.mag_sq[x])), plain_iteration(c_re, 0.0, 50));
    }
}

#[test]
fn exact_iteration_ends_at_escape_or_limit() {
    assert_eq!(naive_hp(3, 10, d(1.0), d(1.0)), HpStep::Next);
    assert_eq!(naive_hp(3, 10, d(4.0), d(1.0)), HpStep::Done(3, d(17.0)));
    assert_eq!(naive_hp(3, 10, d(4.0), d(0.0)), HpStep::Next);
    assert_eq!(naive_hp(10, 10, d(4.0), d(1.0)), HpStep::Done(10, d(0.0)));
}

fn shallow_view() -> View {
    region(-2.0, 1.0, -1.0, 1.0).resolve_view(None, None, None).unwrap()
}

#[test]
fn rows_of_a_region_go_in_fours_and_singly() {
    let view = shallow_view();
    let grid = Grid::new(&view, 7, 3);
    assert_eq!((grid.x_min, grid.y_min), (d(-2.0), d(-1.0)));
    assert_eq!((grid.pw, grid.ph), (d(3.0 / 7.0), d(2.0 / 3.0)));
    let row = fill_naive_row(2, 7, &grid, 80);
    assert_eq!(row.iters.len(), 7);
    for x in 0..7 {
        let c_re = -2.0 + x as f64 * (3.0 / 7.0);
        let c_im = -1.0 + 2.0 * (2.0 / 3.0);
        let (i, m) = plain_iteration(c_re, c_im, 80);
        assert_eq!((row.iters[x], f(row.mag_sq[x])), (i, m));
    }
}

#[test]
fn region_is_rendered_row_by_row() {
    let view = shallow_view();
    let grid = Grid::new(&view, 9, 5);
    let field = render_naive(&view, 9, 5, 60);
    assert_eq!(field.iters.len(), 45);
    for y in 0..5 {
        let row = fill_naive_row(y, 9, &grid, 60);
        assert_eq!(field.iters[y * 9..y * 9 + 9], row.iters[..]);
        assert_eq!(field.mag_sq[y * 9..y * 9 + 9], row.mag_sq[..]);
    }
}

#[test]
fn fields_count_their_glitches() {
    let mut field = IterField::new(5);
    assert_eq!(field.iters, vec![0; 5]);
    assert_eq!(field.mag_sq, vec![d(0.0); 5]);
    assert_eq!(field.glitch_count(), 0);
    field.put(1, GLITCH_MARKER, d(0.0));
    field.put(4, GLITCH_MARKER, d(0.0));
    field.put(2, 9, d(17.0));
    assert_eq!(field.glitch_count(), 2);
    assert_eq!(field.glitch_indices(), vec![1, 4]);
    assert_eq!(field.iters[2], 9);
    field.push(3, d(20.0));
    assert_eq!(field.iters.len(), 6);
}
