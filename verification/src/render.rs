//! From the pixels of a rendering to an image.
use vstd::prelude::*;
use crate::color::{build_palette, color_field, cosine_colours};
use crate::config::Config;
use crate::double::{num, Double, ONE};
use crate::field::IterField;

verus! {

/// The number of colours of the palette.
pub const PALETTE_SIZE: usize = 2048;

/// An image: three bytes for each pixel, row by row.
pub struct Image {
    /// The width in pixels.
    pub width: u32,
    /// The height in pixels.
    pub height: u32,
    /// The red, green and blue values of the pixels.
    pub rgb: Vec<u8>,
}

/// Why there is no image.
#[derive(Clone, Copy, PartialEq, Eq, Structural, Debug)]
pub enum RenderError {
    /// There are fewer colours than pixels.
    BufferTooSmall,
}

impl RenderError {
    /// What is told to the user.
    pub fn message(&self) -> (r: &'static str)
        ensures
            r@ == "无法构建图像缓冲区"@,
    {
        "无法构建图像缓冲区"
    }
}

/// Whether a buffer of `len` bytes holds an image of three bytes for each pixel.
pub open spec fn buffer_fits(width: nat, height: nat, len: nat) -> bool {
    3 * width <= usize::MAX && 3 * width * height <= len
}

/// `image::ImageBuffer::from_raw` for three channels of one byte, and `into_raw` of its result:
/// there is an image exactly where the buffer is long enough for the pixels, and its bytes are
/// those of the buffer.
#[verifier::external_body]
fn rgb_buffer(width: u32, height: u32, rgb: Vec<u8>) -> (r: Option<Vec<u8>>)
    ensures
        r is Some == buffer_fits(width as nat, height as nat, rgb@.len()),
        r matches Some(out) ==> out@ == rgb@,
{
    match image::RgbImage::from_raw(width, height, rgb) {
        Some(image) => Some(image.into_raw()),
        None => None,
    }
}

/// The palette steps for each iteration that a configuration asks for.
pub open spec fn density_of(config: Config) -> Double {
    match config.color_density {
        Some(d) => d,
        None => num(ONE),
    }
}

/// Colours the pixels of a rendering and makes an image of them.
///
/// `log_ratios` holds, for each pixel, the binary logarithm of `ln(|z|^2) / ln(16)`; `cosines`
/// holds the cosines of the palette's phases.
pub fn render(
    config: &Config,
    field: &IterField,
    log_ratios: &Vec<Double>,
    cosines: &Vec<[Double; 3]>,
) -> (r: Result<Image, RenderError>)
    requires
        field.wf(),
        log_ratios@.len() == field.iters@.len(),
        field.iters@.len() * 3 <= usize::MAX,
        cosines@.len() == PALETTE_SIZE,
    ensures
        r is Ok == buffer_fits(
            config.width as nat,
            config.height as nat,
            3 * field.iters@.len(),
        ),
        r matches Err(e) ==> e == RenderError::BufferTooSmall,
        r matches Ok(image) ==> {
            &&& image.width == config.width
            &&& image.height == config.height
            &&& image.rgb@.len() == 3 * field.iters@.len()
            &&& forall|i: int|
                0 <= i < field.iters@.len() ==> image.rgb@.subrange(3 * i, 3 * i + 3)
                    == #[trigger] field.colour(
                    i,
                    config.max_iter,
                    log_ratios@[i],
                    density_of(*config),
                    cosine_colours(cosines@),
                )
            &&& field.paints(
                image.rgb@,
                config.max_iter,
                log_ratios@,
                density_of(*config),
                cosine_colours(cosines@),
            )
        },
{
    let palette: Vec<[u8; 3]> = build_palette(PALETTE_SIZE, cosines);
    assert(palette@.len() == crate::color::colours(palette@).len());
    let rgb: Vec<u8> = color_field(
        field,
        config.max_iter,
        log_ratios,
        config.color_density(),
        &palette,
    );
    match rgb_buffer(config.width, config.height, rgb) {
        Some(rgb) => Ok(Image { width: config.width, height: config.height, rgb }),
        None => Err(RenderError::BufferTooSmall),
    }
}

}
