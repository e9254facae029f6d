//! The verified core of a Mandelbrot set renderer with a perturbation-theory deep-zoom engine.
//!
//! Numbers are IEEE 754 binary64 values held as bit patterns ([`double::Double`]), so that every
//! rounding step of the escape-time iterations is stated and proved.
//!
//! - The arithmetic: [`bits`], [`rounding`], [`double`], [`convert`], [`root`], and its [`laws`].
//! - The iterations: [`complex`] numbers, the [`naive`] iteration, the reference [`orbit`], the
//!   [`perturbation`] about it, the [`series`] of [`scaled`] coefficients that approximates its
//!   beginning, and what they amount to in exact arithmetic ([`exact`], [`exact_series`],
//!   [`exact_outcome`], [`exact_skip`], [`scaled_value`], [`sums`]).
//! - The pictures: the result [`field`], [`shallow`] and [`deep`] renderings, what is done about
//!   glitches ([`rebase`]), [`color`], and the image ([`render`]); what they show, in exact
//!   arithmetic ([`exact_view`], [`exact_deep`], [`exact_color`]).
//! - The input: the [`config`]uration, the [`view`] and its [`precision`], the pixels' [`offsets`]
//!   from a reference point, and the command line's [`options`] as [`text`].
pub mod bits;
pub mod color;
pub mod complex;
pub mod config;
pub mod convert;
pub mod deep;
pub mod double;
pub mod exact;
pub mod exact_color;
pub mod exact_deep;
pub mod exact_outcome;
pub mod exact_series;
pub mod exact_skip;
pub mod exact_view;
pub mod field;
pub mod laws;
pub mod naive;
pub mod offsets;
pub mod options;
pub mod orbit;
pub mod perturbation;
pub mod precision;
pub mod rebase;
pub mod render;
pub mod root;
pub mod rounding;
pub mod scaled;
pub mod scaled_value;
pub mod series;
pub mod shallow;
pub mod sums;
pub mod text;
pub mod view;
