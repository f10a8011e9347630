//! Median-cut color quantization.
//!
//! A flat collection of [`Pixel`] samples is reduced to a small palette of
//! representative colors by recursively splitting the collection along the
//! color channel with the widest value spread and averaging each leaf bucket.
//! Two post-processing passes order the palette by perceptual luminance and
//! pick the single most variant color.

pub mod dominant;
pub mod luminance;
pub mod pixel;
pub mod quantize;
pub mod range;
pub mod raster;
pub mod sorting;
pub mod stats;

pub use dominant::most_variant_color;
pub use luminance::order_by_luminance;
pub use pixel::clamp;
pub use pixel::Color;
pub use pixel::Pixel;
pub use quantize::quantize;
pub use range::find_biggest_range;
pub use raster::Canvas;
