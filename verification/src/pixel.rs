//! The pixel-buffer data model shared by the normalizer and the quantizer.

use vstd::prelude::*;

verus! {

/// The fixed edge length of the square canvas every image is normalized to.
pub const CANVAS_SIZE: u32 = 512;

/// One 4-channel color value; 8 bits per channel. Two pixels are the same
/// color exactly when all four channels match.
#[derive(Clone, Copy, Debug, PartialEq, Eq, Structural)]
pub struct Pixel {
    pub red: u8,
    pub green: u8,
    pub blue: u8,
    pub alpha: u8,
}

/// The opaque white background the canvas is filled with.
pub open spec fn white() -> Pixel {
    Pixel { red: 255, green: 255, blue: 255, alpha: 255 }
}

/// The all-zero pixel a fresh output buffer is initialized to.
pub open spec fn blank() -> Pixel {
    Pixel { red: 0, green: 0, blue: 0, alpha: 0 }
}

pub fn white_pixel() -> (p: Pixel)
    ensures
        p == white(),
{
    Pixel { red: 255, green: 255, blue: 255, alpha: 255 }
}

pub fn blank_pixel() -> (p: Pixel)
    ensures
        p == blank(),
{
    Pixel { red: 0, green: 0, blue: 0, alpha: 0 }
}

/// A rectangular grid of pixels in row-major order.
pub struct PixelBuffer {
    pub width: u32,
    pub height: u32,
    pub pixels: Vec<Pixel>,
}

impl PixelBuffer {
    /// The structural invariant: one pixel per grid position.
    pub open spec fn wf(&self) -> bool {
        self.pixels@.len() == self.width as int * self.height as int
    }

    /// The color at column `x`, row `y`.
    pub open spec fn pixel_at(&self, x: int, y: int) -> Pixel {
        self.pixels@[y * self.width as int + x]
    }

    /// A `width` by `height` buffer with every position set to `fill`.
    pub fn new_filled(width: u32, height: u32, fill: Pixel) -> (buf: PixelBuffer)
        requires
            width as int * height as int <= usize::MAX as int,
        ensures
            buf.wf(),
            buf.width == width,
            buf.height == height,
            forall|i: int| 0 <= i < buf.pixels@.len() ==> buf.pixels@[i] == fill,
    {
        let n: usize = (width as usize) * (height as usize);
        let mut pixels: Vec<Pixel> = Vec::new();
        let mut i: usize = 0;
        while i < n
            invariant
                i <= n,
                pixels@.len() == i,
                forall|j: int| 0 <= j < i ==> pixels@[j] == fill,
            decreases n - i,
        {
            pixels.push(fill);
            i = i + 1;
        }
        PixelBuffer { width, height, pixels }
    }

    pub fn get(&self, x: u32, y: u32) -> (p: Pixel)
        requires
            self.wf(),
            x < self.width,
            y < self.height,
        ensures
            p == self.pixel_at(x as int, y as int),
    {
        let n: usize = self.pixels.len();
        proof {
            assert(0 <= (y as int * self.width as int + x as int) && (y as int * self.width as int + x as int) < n as int)
                by (nonlinear_arith)
                requires
                    x < self.width,
                    y < self.height,
                    n as int == self.width as int * self.height as int,
            ;
        }
        let idx: usize = (y as usize) * (self.width as usize) + (x as usize);
        self.pixels[idx]
    }
}

} // verus!
