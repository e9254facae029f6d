//! The view of the complex plane that is rendered.
use vstd::prelude::*;
use crate::convert::of_nat;
use crate::double::{num, Double};

verus! {

/// The largest difference of aspect ratios that passes without a warning, `0.001`.
pub const ASPECT_TOLERANCE: u64 = 0x3f50_624d_d2f1_a9fc;

/// A view of the complex plane.
#[derive(Clone, Copy, PartialEq, Eq, Structural, Debug)]
pub struct View {
    /// The real part of the centre, rounded to binary64.
    pub center_re: Double,
    /// The imaginary part of the centre, rounded to binary64.
    pub center_im: Double,
    /// The width in the complex plane.
    pub width: Double,
    /// The height in the complex plane.
    pub height: Double,
    /// The zoom: at one, the view is about four wide.
    pub zoom: Double,
    /// Whether the view is rendered by perturbation.
    pub deep: bool,
    /// The precision of the reference orbit, in bits.
    pub precision: u32,
}

impl View {
    /// Whether the image's shape differs from the region's, so that the picture is distorted.
    pub open spec fn distorted(self, width_px: u32, height_px: u32) -> bool {
        let aspect = of_nat(width_px as nat).over(of_nat(height_px as nat));
        let region = self.width.over(self.height);
        num(ASPECT_TOLERANCE).is_lt(aspect.minus(region).magnitude())
    }

    /// The real part of the centre.
    pub fn center_re_f64(&self) -> (r: Double)
        ensures
            r == self.center_re,
    {
        self.center_re
    }

    /// The imaginary part of the centre.
    pub fn center_im_f64(&self) -> (r: Double)
        ensures
            r == self.center_im,
    {
        self.center_im
    }

    /// Whether a warning is due that the image's shape differs from the region's.
    pub fn warn_aspect(&self, width_px: u32, height_px: u32) -> (r: bool)
        ensures
            r == self.distorted(width_px, height_px),
    {
        let aspect: Double = Double::from_u64(width_px as u64).div(
            Double::from_u64(height_px as u64),
        );
        let region: Double = self.width.div(self.height);
        Double::new(ASPECT_TOLERANCE).lt(aspect.sub(region).abs())
    }
}

}
