//! The rendering configuration and the view that it describes.
//!
//! A view is given in one of two ways: by a centre and a zoom as decimal text, which is read at
//! high precision (the deep view), or by the bounds of a region as binary64 numbers (the shallow
//! view). The text is read outside; its readings come in as arguments, and `None` stands for text
//! that cannot be read.
use vstd::prelude::*;
use crate::convert::of_nat;
use crate::double::{num, Double, FOUR, HALF, ONE, ZERO};
use crate::precision::{precision_for, suggested_precision, MIN_PRECISION};
use crate::view;

verus! {

/// The number of reference points where the configuration names none.
pub const DEFAULT_REFERENCE_POINTS: usize = 12;

/// The rendering configuration.
pub struct Config {
    /// The image's width in pixels.
    pub width: u32,
    /// The image's height in pixels.
    pub height: u32,
    /// The iteration limit.
    pub max_iter: u32,
    /// The file that the image goes to.
    pub output_filename: String,
    /// The compression level of the image file.
    pub png_compression_level: u32,
    /// The filter of the image file.
    pub png_filter_type: String,
    /// The left bound of a shallow view.
    pub x_min: Option<Double>,
    /// The right bound of a shallow view.
    pub x_max: Option<Double>,
    /// The lower bound of a shallow view.
    pub y_min: Option<Double>,
    /// The upper bound of a shallow view.
    pub y_max: Option<Double>,
    /// The real part of a deep view's centre, in decimal.
    pub center_re: Option<String>,
    /// The imaginary part of a deep view's centre, in decimal.
    pub center_im: Option<String>,
    /// The zoom of a deep view, in decimal.
    pub zoom: Option<String>,
    /// The palette steps for each iteration.
    pub color_density: Option<Double>,
    /// Whether the series approximation is used.
    pub series_approx: Option<bool>,
    /// The largest number of reference points.
    pub max_reference_points: Option<usize>,
}

/// Why a configuration describes no view.
#[derive(Clone, Copy, PartialEq, Eq, Structural, Debug)]
pub enum ViewError {
    /// The zoom is not a number.
    ZoomUnreadable,
    /// The zoom is not positive.
    ZoomNotPositive,
    /// The real part of the centre is not a number.
    CenterReUnreadable,
    /// The imaginary part of the centre is not a number.
    CenterImUnreadable,
    /// The region has no width or no height.
    EmptyRegion,
    /// Neither a centre nor a region is given.
    NoView,
}

impl Config {
    /// Whether a deep view is described; it takes precedence.
    pub open spec fn wants_deep(self) -> bool {
        self.center_re is Some && self.center_im is Some
    }

    /// Whether the four bounds of a shallow view are given.
    pub open spec fn has_region(self) -> bool {
        self.x_min is Some && self.x_max is Some && self.y_min is Some && self.y_max is Some
    }

    /// The larger side of the image, at least one.
    pub open spec fn larger_side(self) -> u32 {
        let side = if self.width < self.height {
            self.height
        } else {
            self.width
        };
        if side == 0 {
            1
        } else {
            side
        }
    }

    /// The precision of a deep view at a zoom, or why there is none.
    pub open spec fn precision_or_error(self, zoom: Option<Double>) -> Result<u32, ViewError> {
        match zoom {
            None => Err(ViewError::ZoomUnreadable),
            Some(z) => if z.is_le(num(ZERO)) {
                Err(ViewError::ZoomNotPositive)
            } else {
                Ok(precision_for(z, self.larger_side()))
            },
        }
    }

    /// The deep view at a zoom and a centre: four wide over the zoom, and of the image's shape.
    pub open spec fn view_at_zoom(
        self,
        zoom: Double,
        center_re: Double,
        center_im: Double,
    ) -> view::View {
        let width = num(FOUR).over(zoom);
        view::View {
            center_re,
            center_im,
            width,
            height: width.times(of_nat(self.height as nat)).over(of_nat(self.width as nat)),
            zoom,
            deep: true,
            precision: precision_for(zoom, self.larger_side()),
        }
    }

    /// The shallow view of a region.
    pub open spec fn view_of_region(
        self,
        x_min: Double,
        x_max: Double,
        y_min: Double,
        y_max: Double,
    ) -> view::View {
        let width = x_max.minus(x_min);
        view::View {
            center_re: x_min.plus(x_max).times(num(HALF)),
            center_im: y_min.plus(y_max).times(num(HALF)),
            width,
            height: y_max.minus(y_min),
            zoom: num(FOUR).over(width),
            deep: false,
            precision: MIN_PRECISION,
        }
    }

    /// The view that is described, given the readings of the zoom and of the centre, or the first
    /// reason why there is none.
    pub open spec fn view_or_error(
        self,
        zoom: Option<Double>,
        center_re: Option<Double>,
        center_im: Option<Double>,
    ) -> Result<view::View, ViewError> {
        if self.wants_deep() {
            if self.precision_or_error(zoom) is Err {
                Err(self.precision_or_error(zoom)->Err_0)
            } else if center_re is None {
                Err(ViewError::CenterReUnreadable)
            } else if center_im is None {
                Err(ViewError::CenterImUnreadable)
            } else {
                Ok(self.view_at_zoom(zoom->0, center_re->0, center_im->0))
            }
        } else if self.has_region() {
            let v = self.view_of_region(self.x_min->0, self.x_max->0, self.y_min->0, self.y_max->0);
            if v.width.is_le(num(ZERO)) || v.height.is_le(num(ZERO)) {
                Err(ViewError::EmptyRegion)
            } else {
                Ok(v)
            }
        } else {
            Err(ViewError::NoView)
        }
    }

    /// The palette steps for each iteration, one where the configuration names none.
    pub fn color_density(&self) -> (r: Double)
        ensures
            r == (match self.color_density {
                Some(d) => d,
                None => num(ONE),
            }),
    {
        match self.color_density {
            Some(d) => d,
            None => Double::new(ONE),
        }
    }

    /// Whether the series approximation is used; it is, where the configuration does not say.
    pub fn series_approx(&self) -> (r: bool)
        ensures
            r == (self.series_approx != Some(false)),
    {
        match self.series_approx {
            Some(b) => b,
            None => true,
        }
    }

    /// The largest number of reference points, twelve where the configuration names none.
    pub fn max_reference_points(&self) -> (r: usize)
        ensures
            r == (match self.max_reference_points {
                Some(n) => n,
                None => DEFAULT_REFERENCE_POINTS,
            }),
    {
        match self.max_reference_points {
            Some(n) => n,
            None => DEFAULT_REFERENCE_POINTS,
        }
    }

    /// The text of the zoom, one where the configuration names none.
    pub fn zoom_text(&self) -> (r: &str)
        ensures
            r@ == (match self.zoom {
                Some(s) => s@,
                None => "1"@,
            }),
    {
        match &self.zoom {
            Some(s) => s.as_str(),
            None => "1",
        }
    }

    /// The larger side of the image, at least one.
    pub fn max_dim(&self) -> (r: u32)
        ensures
            r == self.larger_side(),
    {
        let side: u32 = if self.width < self.height {
            self.height
        } else {
            self.width
        };
        if side == 0 {
            1
        } else {
            side
        }
    }

    /// The precision at which the centre of a deep view is read, given the reading of the zoom.
    pub fn deep_precision(&self, zoom: Option<Double>) -> (r: Result<u32, ViewError>)
        ensures
            r == self.precision_or_error(zoom),
    {
        match zoom {
            None => Err(ViewError::ZoomUnreadable),
            Some(z) => {
                if z.le(Double::new(ZERO)) {
                    Err(ViewError::ZoomNotPositive)
                } else {
                    Ok(suggested_precision(z, self.max_dim()))
                }
            },
        }
    }

    /// The view that the configuration describes, given the readings of the zoom and, at the
    /// precision that goes with it, of the centre. A shallow view needs none of them.
    pub fn resolve_view(
        &self,
        zoom: Option<Double>,
        center_re: Option<Double>,
        center_im: Option<Double>,
    ) -> (r: Result<view::View, ViewError>)
        ensures
            r == self.view_or_error(zoom, center_re, center_im),
    {
        if self.center_re.is_some() && self.center_im.is_some() {
            let precision: u32 = match self.deep_precision(zoom) {
                Ok(p) => p,
                Err(e) => return Err(e),
            };
            let z: Double = zoom.unwrap();
            let re: Double = match center_re {
                Some(v) => v,
                None => return Err(ViewError::CenterReUnreadable),
            };
            let im: Double = match center_im {
                Some(v) => v,
                None => return Err(ViewError::CenterImUnreadable),
            };
            let width: Double = Double::new(FOUR).div(z);
            let height: Double = width.mul(Double::from_u64(self.height as u64)).div(
                Double::from_u64(self.width as u64),
            );
            return Ok(
                view::View {
                    center_re: re,
                    center_im: im,
                    width,
                    height,
                    zoom: z,
                    deep: true,
                    precision,
                },
            );
        }
        match (self.x_min, self.x_max, self.y_min, self.y_max) {
            (Some(x_min), Some(x_max), Some(y_min), Some(y_max)) => {
                let zero: Double = Double::new(ZERO);
                let half: Double = Double::new(HALF);
                let width: Double = x_max.sub(x_min);
                let height: Double = y_max.sub(y_min);
                if width.le(zero) || height.le(zero) {
                    return Err(ViewError::EmptyRegion);
                }
                Ok(
                    view::View {
                        center_re: x_min.add(x_max).mul(half),
                        center_im: y_min.add(y_max).mul(half),
                        width,
                        height,
                        zoom: Double::new(FOUR).div(width),
                        deep: false,
                        precision: MIN_PRECISION,
                    },
                )
            },
            _ => Err(ViewError::NoView),
        }
    }
}

impl ViewError {
    /// What is told to the user.
    pub fn message(&self) -> (r: &'static str)
        ensures
            r@ == (match *self {
                ViewError::ZoomUnreadable => "zoom 解析失败"@,
                ViewError::ZoomNotPositive => "zoom 必须为正数"@,
                ViewError::CenterReUnreadable => "高精度坐标解析失败"@,
                ViewError::CenterImUnreadable => "高精度坐标解析失败"@,
                ViewError::EmptyRegion => "x_max 必须大于 x_min，y_max 必须大于 y_min"@,
                ViewError::NoView =>
                    "配置必须提供 center_re/center_im/zoom（深缩放）或 x_min/x_max/y_min/y_max（浅缩放）"@,
            }),
    {
        match self {
            ViewError::ZoomUnreadable => "zoom 解析失败",
            ViewError::ZoomNotPositive => "zoom 必须为正数",
            ViewError::CenterReUnreadable => "高精度坐标解析失败",
            ViewError::CenterImUnreadable => "高精度坐标解析失败",
            ViewError::EmptyRegion => "x_max 必须大于 x_min，y_max 必须大于 y_min",
            ViewError::NoView =>
                "配置必须提供 center_re/center_im/zoom（深缩放）或 x_min/x_max/y_min/y_max（浅缩放）",
        }
    }
}

/// A centre that can be read takes precedence over a region, whatever the region is.
pub proof fn centre_takes_precedence(
    config: Config,
    zoom: Double,
    center_re: Double,
    center_im: Double,
)
    requires
        config.wants_deep(),
        !zoom.is_le(num(ZERO)),
    ensures
        config.view_or_error(Some(zoom), Some(center_re), Some(center_im)) == Ok::<
            view::View,
            ViewError,
        >(config.view_at_zoom(zoom, center_re, center_im)),
{
}

/// What the configuration names is used as it is; what it does not name is one palette step for
/// each iteration, the series approximation, twelve reference points, and the zoom of one.
pub proof fn defaults_stand_in_for_what_is_not_named(
    config: Config,
    density: Double,
    series: bool,
    points: usize,
    zoom: &str,
)
    requires
        call_ensures(Config::color_density, (&config,), density),
        call_ensures(Config::series_approx, (&config,), series),
        call_ensures(Config::max_reference_points, (&config,), points),
        call_ensures(Config::zoom_text, (&config,), zoom),
    ensures
        config.color_density matches Some(d) ==> density == d,
        config.color_density is None ==> density == num(0x3ff0_0000_0000_0000),
        config.series_approx matches Some(b) ==> series == b,
        config.series_approx is None ==> series,
        config.max_reference_points matches Some(n) ==> points == n,
        config.max_reference_points is None ==> points == 12,
        config.zoom matches Some(s) ==> zoom@ == s@,
        config.zoom is None ==> zoom@ == "1"@,
{
}

}
