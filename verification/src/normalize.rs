//! The Canvas Normalizer: fits an arbitrarily sized decoded image onto the
//! fixed square canvas without distortion, rescaling with a Lanczos (3-lobe)
//! filter and centering the result on an opaque white background.

use vstd::prelude::*;

use vstd::arithmetic::div_mod::{
    lemma_div_is_ordered, lemma_div_pos_is_pos, lemma_fundamental_div_mod,
    lemma_fundamental_div_mod_converse, lemma_mod_bound,
};
use vstd::arithmetic::mul::{lemma_mul_inequality, lemma_mul_is_commutative};

use crate::pixel::{white, white_pixel, Pixel, PixelBuffer, CANVAS_SIZE};
use crate::grid::lemma_div_below;

verus! {

/// Rounding division for positive divisors: the integer nearest to `a / b`,
/// halves rounded up.
pub open spec fn round_div(a: int, b: int) -> int {
    (2 * a + b) / (2 * b)
}

/// The width the source is scaled to: the full canvas edge for a wide image,
/// else the canvas edge shrunk by the aspect ratio.
pub open spec fn scaled_width_spec(w: int, h: int) -> int {
    if w > h {
        CANVAS_SIZE as int
    } else {
        round_div(512 * w, h)
    }
}

/// The height the source is scaled to (the counterpart of the width rule).
pub open spec fn scaled_height_spec(w: int, h: int) -> int {
    if w > h {
        round_div(512 * h, w)
    } else {
        CANVAS_SIZE as int
    }
}

/// The column where the centered scaled image starts (bias toward the left
/// on an odd remainder).
pub open spec fn offset_x_spec(w: int, h: int) -> int {
    (CANVAS_SIZE as int - scaled_width_spec(w, h)) / 2
}

/// The row where the centered scaled image starts (bias toward the top).
pub open spec fn offset_y_spec(w: int, h: int) -> int {
    (CANVAS_SIZE as int - scaled_height_spec(w, h)) / 2
}

pub proof fn lemma_scaled_bounds(w: int, h: int)
    requires
        w >= 1,
        h >= 1,
    ensures
        0 <= scaled_width_spec(w, h) <= CANVAS_SIZE as int,
        0 <= scaled_height_spec(w, h) <= CANVAS_SIZE as int,
{
    if w > h {
        lemma_div_pos_is_pos(2 * (512 * h) + w, 2 * w);
        lemma_div_is_ordered(2 * (512 * h) + w, 1025 * w, 2 * w);
        lemma_fundamental_div_mod_converse(1025 * w, 2 * w, 512, w);
    } else {
        lemma_div_pos_is_pos(2 * (512 * w) + h, 2 * h);
        lemma_div_is_ordered(2 * (512 * w) + h, 1025 * h, 2 * h);
        lemma_fundamental_div_mod_converse(1025 * h, 2 * h, 512, h);
    }
}

/// The aspect-preserving target size for a `w` by `h` source: the longer side
/// takes the full canvas edge, the shorter side is scaled by the same factor
/// and rounded to the nearest pixel.
pub fn scaled_dims(w: u32, h: u32) -> (dims: (u32, u32))
    requires
        w >= 1,
        h >= 1,
    ensures
        dims.0 == scaled_width_spec(w as int, h as int),
        dims.1 == scaled_height_spec(w as int, h as int),
        dims.0 <= CANVAS_SIZE,
        dims.1 <= CANVAS_SIZE,
{
    proof {
        lemma_scaled_bounds(w as int, h as int);
    }
    if w > h {
        let num: u64 = 1024 * (h as u64) + (w as u64);
        let den: u64 = 2 * (w as u64);
        let q: u64 = num / den;
        (CANVAS_SIZE, q as u32)
    } else {
        let num: u64 = 1024 * (w as u64) + (h as u64);
        let den: u64 = 2 * (h as u64);
        let q: u64 = num / den;
        (q as u32, CANVAS_SIZE)
    }
}

/// What the Lanczos (3-lobe) resampler returns for a given source buffer and
/// target size: a pure function of its arguments whose exact pixel values are
/// not modeled here.
pub uninterp spec fn lanczos3_of(src: Seq<Pixel>, w: int, h: int, nw: int, nh: int) -> Seq<Pixel>;

/// Relies on `image::imageops::resize` with `FilterType::Lanczos3`: for a
/// nonempty source it returns a buffer of exactly `nw * nh` pixels computed
/// from the source pixels and the requested size alone.
#[verifier::external_body]
fn resample_lanczos3(src: &Vec<Pixel>, w: u32, h: u32, nw: u32, nh: u32) -> (r: Vec<Pixel>)
    requires
        w >= 1,
        h >= 1,
        src@.len() == w as int * h as int,
    ensures
        r@ == lanczos3_of(src@, w as int, h as int, nw as int, nh as int),
        r@.len() == nw as int * nh as int,
{
    let raw: Vec<u8> = src.iter().flat_map(|p| [p.red, p.green, p.blue, p.alpha]).collect();
    let buf: image::ImageBuffer<image::Rgba<u8>, Vec<u8>> =
        image::ImageBuffer::from_raw(w, h, raw).unwrap();
    let out = image::imageops::resize(&buf, nw, nh, image::imageops::FilterType::Lanczos3);
    out.into_raw()
        .chunks_exact(4)
        .map(|q| Pixel { red: q[0], green: q[1], blue: q[2], alpha: q[3] })
        .collect()
}

/// The normalized canvas for a source image: the source rescaled to the
/// aspect-preserving target size and centered on an opaque white square.
pub open spec fn normalized(img: PixelBuffer) -> Seq<Pixel> {
    let w = img.width as int;
    let h = img.height as int;
    let sw = scaled_width_spec(w, h);
    let sh = scaled_height_spec(w, h);
    let x0 = offset_x_spec(w, h);
    let y0 = offset_y_spec(w, h);
    let scaled = lanczos3_of(img.pixels@, w, h, sw, sh);
    Seq::new(
        (CANVAS_SIZE * CANVAS_SIZE) as nat,
        |i: int|
            {
                let x = i % (CANVAS_SIZE as int);
                let y = i / (CANVAS_SIZE as int);
                if x0 <= x < x0 + sw && y0 <= y < y0 + sh {
                    scaled[(y - y0) * sw + (x - x0)]
                } else {
                    white()
                }
            },
    )
}

/// Maps an arbitrarily sized decoded image onto the fixed square canvas:
/// rescaled without distortion, centered, white background elsewhere. The
/// output is always exactly canvas-sized, whatever the input aspect ratio.
pub fn normalize(img: &PixelBuffer) -> (canvas: PixelBuffer)
    requires
        img.wf(),
        img.width >= 1,
        img.height >= 1,
    ensures
        canvas.wf(),
        canvas.width == CANVAS_SIZE,
        canvas.height == CANVAS_SIZE,
        canvas.pixels@ == normalized(*img),
{
    let ghost w = img.width as int;
    let ghost h = img.height as int;
    let (sw, sh) = scaled_dims(img.width, img.height);
    let scaled = resample_lanczos3(&img.pixels, img.width, img.height, sw, sh);
    let x0: u32 = (CANVAS_SIZE - sw) / 2;
    let y0: u32 = (CANVAS_SIZE - sh) / 2;
    let total: u32 = CANVAS_SIZE * CANVAS_SIZE;
    let mut pixels: Vec<Pixel> = Vec::new();
    let mut i: u32 = 0;
    while i < total
        invariant
            img.wf(),
            w == img.width as int,
            h == img.height as int,
            w >= 1,
            h >= 1,
            sw as int == scaled_width_spec(w, h),
            sh as int == scaled_height_spec(w, h),
            sw <= CANVAS_SIZE,
            sh <= CANVAS_SIZE,
            x0 as int == offset_x_spec(w, h),
            y0 as int == offset_y_spec(w, h),
            scaled@ == lanczos3_of(img.pixels@, w, h, sw as int, sh as int),
            scaled@.len() == sw as int * sh as int,
            total == CANVAS_SIZE as int * CANVAS_SIZE as int,
            i <= total,
            pixels@.len() == i,
            forall|ii: int| 0 <= ii < i ==> pixels@[ii] == normalized(*img)[ii],
        decreases total - i,
    {
        proof {
            lemma_mod_bound(i as int, CANVAS_SIZE as int);
            lemma_div_below(i as int, CANVAS_SIZE as int, CANVAS_SIZE as int);
        }
        let x: u32 = i % CANVAS_SIZE;
        let y: u32 = i / CANVAS_SIZE;
        let p: Pixel;
        if x0 <= x && x < x0 + sw && y0 <= y && y < y0 + sh {
            proof {
                let dx = x as int - x0 as int;
                let dy = y as int - y0 as int;
                assert(dy * sw as int + dx < sh as int * sw as int && 0 <= dy * sw as int) by {
                    lemma_mul_inequality(dy + 1, sh as int, sw as int);
                    assert((dy + 1) * sw as int == dy * sw as int + sw as int)
                        by (nonlinear_arith);
                    lemma_mul_inequality(0, dy, sw as int);
                }
                lemma_mul_is_commutative(sh as int, sw as int);
                assert(sh as int * sw as int <= 262144) by (nonlinear_arith)
                    requires 0 <= sh as int && sh as int <= 512 && 0 <= sw as int
                        && sw as int <= 512,
                ;
            }
            let si: u32 = (y - y0) * sw + (x - x0);
            p = scaled[si as usize];
        } else {
            p = white_pixel();
        }
        pixels.push(p);
        i = i + 1;
    }
    proof {
        assert(pixels@ =~= normalized(*img));
    }
    PixelBuffer { width: CANVAS_SIZE, height: CANVAS_SIZE, pixels }
}

/// Law: a square source fills the canvas completely. The target size is the
/// full canvas, the offsets vanish, and every canvas position carries the
/// corresponding rescaled source pixel — no white background remains visible.
pub proof fn lemma_square_input_fills_canvas(img: PixelBuffer)
    requires
        img.wf(),
        img.width >= 1,
        img.height == img.width,
    ensures
        scaled_width_spec(img.width as int, img.height as int) == CANVAS_SIZE as int,
        scaled_height_spec(img.width as int, img.height as int) == CANVAS_SIZE as int,
        forall|i: int|
            0 <= i < normalized(img).len() ==> #[trigger] normalized(img)[i] == lanczos3_of(
                img.pixels@,
                img.width as int,
                img.height as int,
                CANVAS_SIZE as int,
                CANVAS_SIZE as int,
            )[i],
{
    let s = CANVAS_SIZE as int;
    let w = img.width as int;
    assert(scaled_width_spec(w, w) == s) by {
        lemma_fundamental_div_mod_converse(1025 * w, 2 * w, 512, w);
    }
    assert forall|i: int| 0 <= i < normalized(img).len() implies #[trigger] normalized(img)[i]
        == lanczos3_of(img.pixels@, w, w, s, s)[i] by {
        lemma_fundamental_div_mod(i, s);
        lemma_mod_bound(i, s);
    }
}

} // verus!
