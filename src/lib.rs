//! Pixelation of RGBA rasters: each `scale × scale` block of source pixels is
//! replaced by the per-channel floor mean of the block.
//!
//! [`reconcile`] first brings an image to dimensions divisible by the scale
//! factor (refusing, or cropping from the origin or the centre), then
//! [`pixelate`] averages the blocks, producing either one pixel per block or
//! an image of the original size painted block by block.

pub mod average;
pub mod buffer;
pub mod pipeline;
pub mod pixelator;
pub mod reconcile;

pub use average::average_pixels;
pub use buffer::{PixelBuffer, Rgba};
pub use pipeline::{is_valid_scale_factor, pixelate_image};
pub use pixelator::{pixelate, OutputMode};
pub use reconcile::{crop, crop_rect, reconcile, CropRect, DimensionError};
