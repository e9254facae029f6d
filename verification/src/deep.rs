//! Deep views: perturbation about a reference orbit, new reference points for the glitches, and
//! exact iteration for what is left.
use vstd::prelude::*;
use crate::complex::Complex;
use crate::double::{num, Double, HALF, ZERO};
use crate::field::IterField;
use crate::naive::lane_point;
use crate::orbit::{zero_point, ReferenceOrbit};
use crate::perturbation::{lane_pixel, perturb_iterate, perturb_iterate_simd, pixel};
use crate::series::SeriesApproximation;
use crate::view;

verus! {

/// The number of terms of the series approximation.
pub const SERIES_TERMS: usize = 8;

/// The share of the pixels that may stay glitches before the exact iteration, `0.0005`.
pub const GLITCH_SHARE: u64 = 0x3f40_624d_d2f1_a9fc;

/// Half the diagonal of a view: the largest offset of a pixel from its centre.
pub open spec fn half_diagonal(view: view::View) -> Double {
    num(HALF).times(view.width.times(view.width).plus(view.height.times(view.height)).root())
}

/// Half the diagonal of a view.
pub fn delta_max(view: &view::View) -> (r: Double)
    ensures
        r == half_diagonal(*view),
{
    Double::new(HALF).mul(view.width.mul(view.width).add(view.height.mul(view.height)).sqrt())
}

/// Whether a series is the approximation along an orbit for the pixels of a view.
pub open spec fn is_series_for(
    s: SeriesApproximation,
    orbit: ReferenceOrbit,
    view: view::View,
    max_iter: u32,
) -> bool {
    let scan = crate::series::scan(
        orbit,
        half_diagonal(view),
        SERIES_TERMS as nat,
        max_iter,
        1,
        0,
    );
    &&& s.wf()
    &&& s.num_terms == SERIES_TERMS
    &&& s.skip == scan.skip
    &&& s.rows@.len() == scan.rows
    &&& forall|n: int|
        0 <= n < s.rows@.len() ==> crate::series::is_row(
            (#[trigger] s.rows@[n])@,
            orbit,
            SERIES_TERMS as nat,
            n as nat,
        )
}

/// The series approximation along an orbit for the pixels of a view, where it is used.
pub fn series_for(enabled: bool, orbit: &ReferenceOrbit, view: &view::View, max_iter: u32) -> (r:
    Option<SeriesApproximation>)
    requires
        orbit.wf(),
    ensures
        r is Some == enabled,
        r matches Some(s) ==> is_series_for(s, *orbit, *view, max_iter),
{
    if enabled {
        Some(SeriesApproximation::compute(orbit, delta_max(view), SERIES_TERMS, max_iter))
    } else {
        None
    }
}

/// The departure that a pixel's iteration starts with.
pub open spec fn starting_departure(
    series: Option<SeriesApproximation>,
    delta: Complex,
) -> Complex {
    match series {
        Some(s) => s.departure(delta),
        None => zero_point(),
    }
}

/// The iteration that a pixel starts with.
pub open spec fn starting_iteration(series: Option<SeriesApproximation>) -> u32 {
    match series {
        Some(s) => s.skip,
        None => 0,
    }
}

/// Whether a series, where there is one, is well formed.
pub open spec fn series_fits(series: Option<SeriesApproximation>) -> bool {
    series matches Some(s) ==> s.wf()
}

/// What comes of the pixel at the offset `delta` from a reference point.
pub open spec fn offset_outcome(
    orbit: ReferenceOrbit,
    series: Option<SeriesApproximation>,
    delta: Complex,
    max_iter: u32,
) -> (u32, Double) {
    let eps = starting_departure(series, delta);
    pixel(delta.re, delta.im, eps.re, eps.im, starting_iteration(series)).outcome(orbit, max_iter)
}

/// A pass over the pixels of an image about one reference point: the orbit, the series, and the
/// offsets of the columns and of the rows.
pub struct Pass {
    /// The orbit of the reference point.
    pub orbit: ReferenceOrbit,
    /// The series along the orbit, where one is used.
    pub series: Option<SeriesApproximation>,
    /// The real offset of each column from the reference point.
    pub dre: Seq<Double>,
    /// The imaginary offset of each row from the reference point.
    pub dim: Seq<Double>,
    /// The iteration limit.
    pub max_iter: u32,
}

impl Pass {
    /// What comes of the pixel in column `x` of row `y`.
    pub open spec fn outcome(self, x: int, y: int) -> (u32, Double) {
        offset_outcome(
            self.orbit,
            self.series,
            Complex { re: self.dre[x], im: self.dim[y] },
            self.max_iter,
        )
    }

    /// What comes of the `i`-th pixel of an image `w` wide.
    pub open spec fn outcome_at(self, i: int, w: int) -> (u32, Double) {
        self.outcome(i % w, i / w)
    }

    /// Whether a field holds what comes of all pixels, row by row.
    pub open spec fn fills(self, field: IterField) -> bool {
        forall|x: int, y: int|
            0 <= x < self.dre.len() && 0 <= y < self.dim.len() ==> field.entry(
                y * self.dre.len() + x,
            ) == #[trigger] self.outcome(x, y)
    }
}

/// The pass about a reference point.
pub open spec fn pass(
    orbit: ReferenceOrbit,
    series: Option<SeriesApproximation>,
    dre: Seq<Double>,
    dim: Seq<Double>,
    max_iter: u32,
) -> Pass {
    Pass { orbit, series, dre, dim, max_iter }
}

/// The iteration that a pixel starts with.
fn start_of(series: &Option<SeriesApproximation>) -> (r: u32)
    ensures
        r == starting_iteration(*series),
{
    match series {
        Some(s) => s.skip_iterations(),
        None => 0,
    }
}

/// Computes one pixel.
fn single(
    orbit: &ReferenceOrbit,
    series: &Option<SeriesApproximation>,
    dr: Double,
    di: Double,
    max_iter: u32,
) -> (r: (u32, Double))
    requires
        orbit.wf(),
        series_fits(*series),
    ensures
        r == offset_outcome(*orbit, *series, Complex { re: dr, im: di }, max_iter),
{
    let (er, ei): (Double, Double) = match series {
        Some(s) => s.evaluate(dr, di),
        None => (Double::new(ZERO), Double::new(ZERO)),
    };
    perturb_iterate(orbit, dr, di, max_iter, er, ei, start_of(series))
}

/// Computes four pixels in step.
pub(crate) fn four(
    orbit: &ReferenceOrbit,
    series: &Option<SeriesApproximation>,
    dr: [Double; 4],
    di: [Double; 4],
    max_iter: u32,
) -> (r: ([u32; 4], [Double; 4]))
    requires
        orbit.wf(),
        series_fits(*series),
    ensures
        forall|lane: int|
            0 <= lane < 4 ==> (#[trigger] r.0@[lane], r.1@[lane]) == offset_outcome(
                *orbit,
                *series,
                lane_point(dr, di, lane),
                max_iter,
            ),
{
    let zero: Double = Double::new(ZERO);
    let (er, ei): ([Double; 4], [Double; 4]) = match series {
        Some(s) => s.evaluate_simd(dr, di),
        None => ([zero, zero, zero, zero], [zero, zero, zero, zero]),
    };
    let start: u32 = start_of(series);
    let r: ([u32; 4], [Double; 4]) = perturb_iterate_simd(orbit, dr, di, max_iter, er, ei, start);
    proof {
        assert forall|lane: int| 0 <= lane < 4 implies (#[trigger] r.0@[lane], r.1@[lane])
            == offset_outcome(*orbit, *series, lane_point(dr, di, lane), max_iter) by {
            let e = starting_departure(*series, lane_point(dr, di, lane));
            assert(er@[lane] == e.re && ei@[lane] == e.im);
            assert(lane_pixel(dr, di, er, ei, start, lane) == pixel(
                dr@[lane],
                di@[lane],
                e.re,
                e.im,
                start,
            ));
        }
    }
    r
}

/// Computes one row of a pass: the columns go in fours, and those left over one by one.
pub fn perturb_row(
    orbit: &ReferenceOrbit,
    series: &Option<SeriesApproximation>,
    dre: &Vec<Double>,
    d_im: Double,
    max_iter: u32,
) -> (r: IterField)
    requires
        orbit.wf(),
        series_fits(*series),
    ensures
        r.wf(),
        r.iters@.len() == dre@.len(),
        forall|x: int|
            0 <= x < dre@.len() ==> #[trigger] r.entry(x) == offset_outcome(
                *orbit,
                *series,
                Complex { re: dre@[x], im: d_im },
                max_iter,
            ),
{
    let w: usize = dre.len();
    let whole: usize = w / 4 * 4;
    let di: [Double; 4] = [d_im, d_im, d_im, d_im];
    let mut row: IterField = IterField { iters: Vec::new(), mag_sq: Vec::new() };
    let mut xb: usize = 0;
    while xb < whole
        invariant
            orbit.wf(),
            series_fits(*series),
            xb <= whole <= w,
            xb % 4 == 0,
            whole % 4 == 0,
            w == dre@.len(),
            di@ == seq![d_im, d_im, d_im, d_im],
            row.wf(),
            row.iters@.len() == xb,
            forall|x: int|
                0 <= x < xb ==> #[trigger] row.entry(x) == offset_outcome(
                    *orbit,
                    *series,
                    Complex { re: dre@[x], im: d_im },
                    max_iter,
                ),
        decreases whole - xb,
    {
        let dr: [Double; 4] = [dre[xb], dre[xb + 1], dre[xb + 2], dre[xb + 3]];
        let (iters, mags): ([u32; 4], [Double; 4]) = four(orbit, series, dr, di, max_iter);
        let ghost before = row;
        row.push(iters[0], mags[0]);
        row.push(iters[1], mags[1]);
        row.push(iters[2], mags[2]);
        row.push(iters[3], mags[3]);
        proof {
            assert forall|x: int| 0 <= x < xb + 4 implies #[trigger] row.entry(x) == offset_outcome(
                *orbit,
                *series,
                Complex { re: dre@[x], im: d_im },
                max_iter,
            ) by {
                if x < xb {
                    assert(row.entry(x) == before.entry(x));
                } else {
                    let lane = x - xb;
                    assert(lane_point(dr, di, lane) == (Complex { re: dre@[x], im: d_im }));
                    assert(row.entry(x) == (iters@[lane], mags@[lane]));
                }
            }
        }
        xb = xb + 4;
    }
    let mut x: usize = whole;
    while x < w
        invariant
            orbit.wf(),
            series_fits(*series),
            whole <= x <= w,
            w == dre@.len(),
            row.wf(),
            row.iters@.len() == x,
            forall|u: int|
                0 <= u < x ==> #[trigger] row.entry(u) == offset_outcome(
                    *orbit,
                    *series,
                    Complex { re: dre@[u], im: d_im },
                    max_iter,
                ),
        decreases w - x,
    {
        let (i, m): (u32, Double) = single(orbit, series, dre[x], d_im, max_iter);
        let ghost before = row;
        row.push(i, m);
        proof {
            assert forall|u: int| 0 <= u < x + 1 implies #[trigger] row.entry(u) == offset_outcome(
                *orbit,
                *series,
                Complex { re: dre@[u], im: d_im },
                max_iter,
            ) by {
                if u < x {
                    assert(row.entry(u) == before.entry(u));
                }
            }
        }
        x = x + 1;
    }
    row
}

/// Renders a whole pass: the rows of [`perturb_row`], from the top.
pub fn perturb_pass(
    orbit: &ReferenceOrbit,
    series: &Option<SeriesApproximation>,
    dre: &Vec<Double>,
    dim: &Vec<Double>,
    max_iter: u32,
) -> (r: IterField)
    requires
        orbit.wf(),
        series_fits(*series),
        dre@.len() > 0,
        dim@.len() * dre@.len() <= usize::MAX,
    ensures
        r.wf(),
        r.iters@.len() == dim@.len() * dre@.len(),
        forall|x: int, y: int|
            0 <= x < dre@.len() && 0 <= y < dim@.len() ==> r.entry(y * dre@.len() + x)
                == #[trigger] pass(*orbit, *series, dre@, dim@, max_iter).outcome(x, y),
        pass(*orbit, *series, dre@, dim@, max_iter).fills(r),
{
    let ghost p = pass(*orbit, *series, dre@, dim@, max_iter);
    let w: usize = dre.len();
    let mut rows: Vec<IterField> = Vec::new();
    let mut y: usize = 0;
    while y < dim.len()
        invariant
            orbit.wf(),
            series_fits(*series),
            p == pass(*orbit, *series, dre@, dim@, max_iter),
            w == dre@.len(),
            y <= dim@.len(),
            rows@.len() == y,
            forall|v: int|
                0 <= v < y ==> (#[trigger] rows@[v]).wf() && rows@[v].iters@.len() == w,
            forall|v: int, x: int|
                0 <= v < y && 0 <= x < w ==> #[trigger] rows@[v].entry(x) == p.outcome(x, v),
        decreases dim@.len() - y,
    {
        rows.push(perturb_row(orbit, series, dre, dim[y], max_iter));
        y = y + 1;
    }
    let out: IterField = IterField::from_rows(&rows, w);
    proof {
        assert forall|x: int, v: int| 0 <= x < w && 0 <= v < dim@.len() implies out.entry(v * w + x)
            == #[trigger] p.outcome(x, v) by {
            assert(rows@[v].entry(x) == out.entry(v * w + x));
        }
    }
    out
}

/// Every pixel of the main pass is iterated at its own offset: that of its column and of its row.
pub proof fn main_pass_goes_by_column_and_row(
    orbit: ReferenceOrbit,
    series: Option<SeriesApproximation>,
    dre: Vec<Double>,
    dim: Vec<Double>,
    max_iter: u32,
    r: IterField,
    x: int,
    y: int,
)
    requires
        orbit.wf(),
        series_fits(series),
        dim@.len() * dre@.len() <= usize::MAX,
        call_ensures(perturb_pass, (&orbit, &series, &dre, &dim, max_iter), r),
        0 <= x < dre@.len(),
        0 <= y < dim@.len(),
    ensures
        series is None ==> r.entry(y * dre@.len() + x) == pixel(
            dre@[x],
            dim@[y],
            num(ZERO),
            num(ZERO),
            0,
        ).outcome(orbit, max_iter),
        series matches Some(s) ==> r.entry(y * dre@.len() + x) == pixel(
            dre@[x],
            dim@[y],
            s.departure(Complex { re: dre@[x], im: dim@[y] }).re,
            s.departure(Complex { re: dre@[x], im: dim@[y] }).im,
            s.skip,
        ).outcome(orbit, max_iter),
{
    let p = pass(orbit, series, dre@, dim@, max_iter);
    assert(r.entry(y * dre@.len() + x) == p.outcome(x, y));
}

/// In a picture `w` wide, the pixel in column `x` of row `y` comes to the same by its place in the
/// whole picture as by its column and its row.
pub proof fn place_gives_column_and_row(p: Pass, x: int, y: int, w: int)
    requires
        0 <= x < w,
        0 <= y,
    ensures
        p.outcome_at(y * w + x, w) == p.outcome(x, y),
{
    vstd::arithmetic::div_mod::lemma_fundamental_div_mod_converse(y * w + x, w, y, x);
}

/// A row computed by itself is the row of the whole pass.
pub proof fn rows_make_up_the_pass(
    orbit: ReferenceOrbit,
    series: Option<SeriesApproximation>,
    dre: Vec<Double>,
    dim: Vec<Double>,
    max_iter: u32,
    r: IterField,
    y: int,
    row: IterField,
    x: int,
)
    requires
        orbit.wf(),
        series_fits(series),
        dim@.len() * dre@.len() <= usize::MAX,
        call_ensures(perturb_pass, (&orbit, &series, &dre, &dim, max_iter), r),
        0 <= x < dre@.len(),
        0 <= y < dim@.len(),
        call_ensures(perturb_row, (&orbit, &series, &dre, dim@[y], max_iter), row),
    ensures
        row.iters@.len() == dre@.len(),
        r.entry(y * dre@.len() + x) == row.entry(x),
{
    let p = pass(orbit, series, dre@, dim@, max_iter);
    assert(r.entry(y * dre@.len() + x) == p.outcome(x, y));
    assert(row.entry(x) == p.outcome(x, y));
}

}
