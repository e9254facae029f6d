//! Shallow views: every pixel iterated directly in binary64, four at a time.
use vstd::prelude::*;
use crate::complex::Complex;
use crate::convert::of_nat;
use crate::double::{num, Double, TWO};
use crate::field::IterField;
use crate::naive::{lane_point, naive_outcome, naive_scalar, naive_simd};
use crate::view;

verus! {

/// The grid of points that the pixels stand for.
#[derive(Clone, Copy, PartialEq, Eq, Structural, Debug)]
pub struct Grid {
    /// The real part of the first column.
    pub x_min: Double,
    /// The imaginary part of the first row.
    pub y_min: Double,
    /// The distance of two columns.
    pub pw: Double,
    /// The distance of two rows.
    pub ph: Double,
}

/// The grid of an image of `w` by `h` pixels on a view.
pub open spec fn grid_of(view: view::View, w: nat, h: nat) -> Grid {
    Grid {
        x_min: view.center_re.minus(view.width.over(num(TWO))),
        y_min: view.center_im.minus(view.height.over(num(TWO))),
        pw: view.width.over(of_nat(w)),
        ph: view.height.over(of_nat(h)),
    }
}

impl Grid {
    /// The point of a pixel.
    pub open spec fn point(self, x: nat, y: nat) -> Complex {
        Complex {
            re: self.x_min.plus(of_nat(x).times(self.pw)),
            im: self.y_min.plus(of_nat(y).times(self.ph)),
        }
    }

    /// What comes of the pixel in column `x` of row `y`.
    pub open spec fn outcome(self, x: nat, y: nat, max_iter: u32) -> (u32, Double) {
        naive_outcome(self.point(x, y), max_iter)
    }

    /// Whether a field holds what comes of the pixels of `h` rows of `w`, row by row.
    pub open spec fn fills(self, field: IterField, w: nat, h: nat, max_iter: u32) -> bool {
        forall|x: nat, y: nat|
            x < w && y < h ==> field.entry((y * w + x) as int) == #[trigger] self.outcome(
                x,
                y,
                max_iter,
            )
    }

    /// The grid of an image of `w` by `h` pixels on a view.
    pub fn new(view: &view::View, w: usize, h: usize) -> (r: Grid)
        ensures
            r == grid_of(*view, w as nat, h as nat),
    {
        let two: Double = Double::new(TWO);
        Grid {
            x_min: view.center_re_f64().sub(view.width.div(two)),
            y_min: view.center_im_f64().sub(view.height.div(two)),
            pw: view.width.div(Double::from_u64(w as u64)),
            ph: view.height.div(Double::from_u64(h as u64)),
        }
    }

    /// The real part of a column.
    fn column(&self, x: usize) -> (r: Double)
        ensures
            r == self.point(x as nat, 0).re,
    {
        self.x_min.add(Double::from_u64(x as u64).mul(self.pw))
    }
}

/// Computes the pixels of row `y`: the columns go in fours, and those left over one by one.
pub fn fill_naive_row(y: usize, w: usize, grid: &Grid, max_iter: u32) -> (r: IterField)
    ensures
        r.wf(),
        r.iters@.len() == w,
        forall|x: int|
            0 <= x < w ==> #[trigger] r.entry(x) == grid.outcome(
                x as nat,
                y as nat,
                max_iter,
            ),
{
    let c_im: Double = grid.y_min.add(Double::from_u64(y as u64).mul(grid.ph));
    let whole: usize = w / 4 * 4;
    let mut row: IterField = IterField { iters: Vec::new(), mag_sq: Vec::new() };
    let mut xb: usize = 0;
    while xb < whole
        invariant
            xb <= whole,
            xb % 4 == 0,
            whole == w / 4 * 4,
            c_im == grid.point(0, y as nat).im,
            row.wf(),
            row.iters@.len() == xb,
            forall|x: int|
                0 <= x < xb ==> #[trigger] row.entry(x) == grid.outcome(
                    x as nat,
                    y as nat,
                    max_iter,
                ),
        decreases whole - xb,
    {
        let c_re: [Double; 4] = [
            grid.column(xb),
            grid.column(xb + 1),
            grid.column(xb + 2),
            grid.column(xb + 3),
        ];
        let im: [Double; 4] = [c_im, c_im, c_im, c_im];
        let (iters, mags): ([u32; 4], [Double; 4]) = naive_simd(c_re, im, max_iter);
        let ghost before = row;
        row.push(iters[0], mags[0]);
        row.push(iters[1], mags[1]);
        row.push(iters[2], mags[2]);
        row.push(iters[3], mags[3]);
        proof {
            assert forall|x: int| 0 <= x < xb + 4 implies #[trigger] row.entry(x) == grid.outcome(
                x as nat,
                y as nat,
                max_iter,
            ) by {
                if x < xb {
                    assert(row.entry(x) == before.entry(x));
                } else {
                    let lane = x - xb;
                    assert(lane_point(c_re, im, lane) == grid.point(x as nat, y as nat));
                    assert(row.entry(x) == (iters@[lane], mags@[lane]));
                }
            }
        }
        xb = xb + 4;
    }
    let mut x: usize = whole;
    while x < w
        invariant
            whole <= x <= w,
            whole == w / 4 * 4,
            c_im == grid.point(0, y as nat).im,
            row.wf(),
            row.iters@.len() == x,
            forall|u: int|
                0 <= u < x ==> #[trigger] row.entry(u) == grid.outcome(
                    u as nat,
                    y as nat,
                    max_iter,
                ),
        decreases w - x,
    {
        let (i, m): (u32, Double) = naive_scalar(grid.column(x), c_im, max_iter);
        let ghost before = row;
        row.push(i, m);
        proof {
            assert forall|u: int| 0 <= u < x + 1 implies #[trigger] row.entry(u) == grid.outcome(
                u as nat,
                y as nat,
                max_iter,
            ) by {
                if u < x {
                    assert(row.entry(u) == before.entry(u));
                }
            }
        }
        x = x + 1;
    }
    row
}

/// Renders a shallow view: the rows of [`fill_naive_row`], from the top.
pub fn render_naive(view: &view::View, w: usize, h: usize, max_iter: u32) -> (r: IterField)
    requires
        w > 0,
        w * h <= usize::MAX,
    ensures
        r.wf(),
        r.iters@.len() == h * w,
        forall|x: int, y: int|
            0 <= x < w && 0 <= y < h ==> r.entry(y * w + x) == #[trigger] grid_of(
                *view,
                w as nat,
                h as nat,
            ).outcome(x as nat, y as nat, max_iter),
        grid_of(*view, w as nat, h as nat).fills(r, w as nat, h as nat, max_iter),
{
    let grid: Grid = Grid::new(view, w, h);
    let mut rows: Vec<IterField> = Vec::new();
    let mut y: usize = 0;
    while y < h
        invariant
            y <= h,
            rows@.len() == y,
            forall|v: int|
                0 <= v < y ==> (#[trigger] rows@[v]).wf() && rows@[v].iters@.len() == w,
            forall|v: int, x: int|
                0 <= v < y && 0 <= x < w ==> #[trigger] rows@[v].entry(x) == grid.outcome(
                    x as nat,
                    v as nat,
                    max_iter,
                ),
        decreases h - y,
    {
        rows.push(fill_naive_row(y, w, &grid, max_iter));
        y = y + 1;
    }
    assert(h * w == w * h) by (nonlinear_arith);
    let out: IterField = IterField::from_rows(&rows, w);
    proof {
        assert forall|x: nat, v: nat| x < w && v < h implies out.entry(v * w + x)
            == #[trigger] grid.outcome(x, v, max_iter) by {
            assert(rows@[v as int].entry(x as int) == out.entry(v * w + x));
        }
    }
    out
}

}
