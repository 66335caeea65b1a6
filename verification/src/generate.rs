//! The dot-art pipeline: normalize a decoded image onto the square canvas,
//! then reduce every grid cell to its majority color. The caller decodes the
//! input bytes and re-encodes the produced buffer.

use vstd::prelude::*;

use vstd::string::StringSliceAdditionalSpecFns;

use crate::normalize::{normalize, normalized};
use crate::parse::{grid_resolution_of, parse_grid_resolution};
use crate::pixel::{PixelBuffer, CANVAS_SIZE};
use crate::quantize::{quantize, quantized};

verus! {

/// Why the pipeline rejected its input.
#[derive(Clone, Copy, Debug, PartialEq, Eq, Structural)]
pub enum DotArtError {
    /// The decoded image has a zero width or height.
    InvalidDimensions,
    /// The configured grid resolution is zero or exceeds the canvas edge.
    GridResolutionOutOfRange,
}

/// Whether a grid resolution can address the canvas: at least one cell per
/// edge, each at least one pixel wide.
pub open spec fn valid_grid_resolution(g: u32) -> bool {
    1 <= g <= CANVAS_SIZE
}

/// Runs the full pipeline on a decoded image: parses the grid resolution
/// from `input_size` (falling back to the default on unparsable text),
/// normalizes the image onto the square white canvas, and flattens every
/// grid cell to its majority color. A degenerate image or an out-of-range
/// grid resolution is rejected with the matching error.
pub fn dot_art_generate(img: &PixelBuffer, input_size: &str) -> (r: Result<
    PixelBuffer,
    DotArtError,
>)
    requires
        img.wf(),
    ensures
        match r {
            Ok(out) => {
                &&& img.width >= 1 && img.height >= 1
                &&& valid_grid_resolution(grid_resolution_of(input_size.spec_bytes()))
                &&& out.wf()
                &&& out.width == CANVAS_SIZE && out.height == CANVAS_SIZE
                &&& out.pixels@ == quantized(
                    normalized(*img),
                    grid_resolution_of(input_size.spec_bytes()) as int,
                )
            },
            Err(DotArtError::InvalidDimensions) => img.width == 0 || img.height == 0,
            Err(DotArtError::GridResolutionOutOfRange) => {
                &&& img.width >= 1 && img.height >= 1
                &&& !valid_grid_resolution(grid_resolution_of(input_size.spec_bytes()))
            },
        },
{
    if img.width == 0 || img.height == 0 {
        return Err(DotArtError::InvalidDimensions);
    }
    let g = parse_grid_resolution(input_size);
    if g == 0 || g > CANVAS_SIZE {
        return Err(DotArtError::GridResolutionOutOfRange);
    }
    let canvas = normalize(img);
    Ok(quantize(&canvas, g))
}

} // verus!
