use dot_art::{majority_pixel, quantize, Pixel, PixelBuffer};

fn px(red: u8, green: u8, blue: u8) -> Pixel {
    Pixel { red, green, blue, alpha: 255 }
}

fn canvas_from(f: impl Fn(u32, u32) -> Pixel) -> PixelBuffer {
    let mut pixels = Vec::with_capacity(512 * 512);
    for y in 0..512u32 {
        for x in 0..512u32 {
            pixels.push(f(x, y));
        }
    }
    PixelBuffer { width: 512, height: 512, pixels }
}

#[test]
fn majority_vote_picks_most_frequent_color() {
    let red = px(255, 0, 0);
    let green = px(0, 255, 0);
    let blue = px(0, 0, 255);
    // red 6 times, blue 3 times, green once, interleaved
    let cell = vec![blue, red, red, green, blue, red, red, blue, red, red];
    assert_eq!(majority_pixel(&cell), red);
}

#[test]
fn majority_vote_tie_breaks_toward_first_encountered() {
    let red = px(255, 0, 0);
    let blue = px(0, 0, 255);
    assert_eq!(majority_pixel(&vec![blue, red, blue, red]), blue);
    assert_eq!(majority_pixel(&vec![red, blue, red, blue]), red);
}

#[test]
fn majority_vote_single_pixel() {
    let c = px(1, 2, 3);
    assert_eq!(majority_pixel(&vec![c]), c);
}

#[test]
fn quantize_fills_each_block_with_one_flat_color() {
    // left half red, right half blue; the split falls on a block boundary
    let red = px(200, 0, 0);
    let blue = px(0, 0, 200);
    let canvas = canvas_from(|x, _| if x < 256 { red } else { blue });
    let out = quantize(&canvas, 8);
    assert_eq!(out.width, 512);
    assert_eq!(out.height, 512);
    // every one of the 64 blocks of 64x64 pixels is visually flat
    for gy in 0..8u32 {
        for gx in 0..8u32 {
            let first = out.get(gx * 64, gy * 64);
            for (dx, dy) in [(0, 0), (1, 2), (33, 17), (63, 63)] {
                assert_eq!(out.get(gx * 64 + dx, gy * 64 + dy), first);
            }
        }
    }
    // blocks from the two halves differ
    assert_eq!(out.get(0, 0), red);
    assert_eq!(out.get(511, 0), blue);
    assert_ne!(out.get(0, 0), out.get(511, 0));
}

#[test]
fn quantize_majority_wins_inside_a_mixed_block() {
    // in the top-left 64x64 block, 3 of 4 rows are red, 1 is green
    let red = px(255, 0, 0);
    let green = px(0, 255, 0);
    let canvas = canvas_from(|_, y| if y % 4 == 0 { green } else { red });
    let out = quantize(&canvas, 8);
    assert_eq!(out.get(0, 0), red);
    assert_eq!(out.get(63, 63), red);
}

#[test]
fn quantize_twice_is_identity_on_its_own_output() {
    let canvas = canvas_from(|x, y| px((x % 7) as u8 * 30, (y % 5) as u8 * 50, ((x + y) % 3) as u8 * 80));
    for g in [7u32, 8u32] {
        let once = quantize(&canvas, g);
        let twice = quantize(&once, g);
        assert_eq!(twice.pixels, once.pixels);
        assert_eq!(twice.width, once.width);
        assert_eq!(twice.height, once.height);
    }
}

#[test]
fn quantize_leaves_remainder_strip_blank() {
    // 512 is not divisible by 7: cells are 73 wide, covering 511 pixels;
    // the last row and column stay at the blank initialization value
    let green = px(0, 255, 0);
    let canvas = canvas_from(|_, _| green);
    let out = quantize(&canvas, 7);
    let blank = Pixel { red: 0, green: 0, blue: 0, alpha: 0 };
    assert_eq!(out.get(510, 510), green);
    assert_eq!(out.get(0, 0), green);
    for k in 0..512u32 {
        assert_eq!(out.get(511, k), blank);
        assert_eq!(out.get(k, 511), blank);
    }
}

#[test]
fn quantize_full_grid_resolution_keeps_every_pixel() {
    // grid resolution equal to the canvas edge: one-pixel cells
    let canvas = canvas_from(|x, y| px((x % 251) as u8, (y % 241) as u8, 9));
    let out = quantize(&canvas, 512);
    assert_eq!(out.pixels, canvas.pixels);
}
