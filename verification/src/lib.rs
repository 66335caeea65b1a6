//! Dot-art generator: normalizes a decoded raster image onto a fixed square
//! canvas and reduces each grid cell to its most frequent exact color.

pub mod generate;
pub mod grid;
pub mod normalize;
pub mod parse;
pub mod pixel;
pub mod quantize;
pub mod vote;

pub use generate::{dot_art_generate, DotArtError};
pub use normalize::{normalize, scaled_dims};
pub use parse::parse_grid_resolution;
pub use pixel::{Pixel, PixelBuffer, CANVAS_SIZE};
pub use quantize::quantize;
pub use vote::majority_pixel;
