//! Raster images of 8-bit RGB pixels, their pointwise transforms, and the
//! plain-text PPM ("P3") format.
pub mod codec;
pub mod image;
pub mod pixel;
pub mod text;

pub use codec::{decode, encode, FormatError};
pub use image::Image;
pub use pixel::{grayscale, invert, Pixel};
