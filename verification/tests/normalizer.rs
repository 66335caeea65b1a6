use dot_art::{normalize, scaled_dims, Pixel, PixelBuffer};

fn image_of(width: u32, height: u32, fill: Pixel) -> PixelBuffer {
    PixelBuffer::new_filled(width, height, fill)
}

const WHITE: Pixel = Pixel { red: 255, green: 255, blue: 255, alpha: 255 };
const DARK: Pixel = Pixel { red: 10, green: 20, blue: 30, alpha: 255 };

#[test]
fn output_is_always_canvas_sized() {
    for (w, h) in [(1u32, 1u32), (10, 10), (100, 30), (7, 200), (1000, 100), (3, 4000)] {
        let out = normalize(&image_of(w, h, DARK));
        assert_eq!(out.width, 512);
        assert_eq!(out.height, 512);
        assert_eq!(out.pixels.len(), 512 * 512);
    }
}

#[test]
fn scaled_dims_preserve_aspect_ratio() {
    assert_eq!(scaled_dims(100, 100), (512, 512));
    assert_eq!(scaled_dims(1000, 100), (512, 51));
    assert_eq!(scaled_dims(100, 1000), (51, 512));
    assert_eq!(scaled_dims(1, 1), (512, 512));
    assert_eq!(scaled_dims(2, 1), (512, 256));
    assert_eq!(scaled_dims(1, 2), (256, 512));
}

#[test]
fn square_opaque_input_leaves_no_background_visible() {
    let out = normalize(&image_of(16, 16, DARK));
    for p in &out.pixels {
        assert_ne!(*p, WHITE);
    }
}

#[test]
fn wide_image_gets_centered_with_bands_above_and_below() {
    // 1000x100 scales to 512x51; the 461 leftover rows split into a 230-row
    // band above and a 231-row band below (the odd remainder biases the
    // placement one row toward the top)
    let out = normalize(&image_of(1000, 100, DARK));
    for y in 0..230u32 {
        assert_eq!(out.get(0, y), WHITE);
        assert_eq!(out.get(511, y), WHITE);
        assert_eq!(out.get(256, y), WHITE);
    }
    for y in 281..512u32 {
        assert_eq!(out.get(0, y), WHITE);
        assert_eq!(out.get(511, y), WHITE);
        assert_eq!(out.get(256, y), WHITE);
    }
    for y in 230..281u32 {
        assert_ne!(out.get(256, y), WHITE);
    }
}

#[test]
fn tall_image_gets_centered_with_bands_left_and_right() {
    let out = normalize(&image_of(100, 1000, DARK));
    // 100x1000 scales to 51x512: columns 0..230 and 281..512 stay white
    assert_eq!(out.get(0, 256), WHITE);
    assert_eq!(out.get(229, 256), WHITE);
    assert_ne!(out.get(230, 256), WHITE);
    assert_ne!(out.get(280, 256), WHITE);
    assert_eq!(out.get(281, 256), WHITE);
    assert_eq!(out.get(511, 256), WHITE);
}

#[test]
fn upscaled_black_image_stays_black_in_the_center() {
    let black = Pixel { red: 0, green: 0, blue: 0, alpha: 255 };
    let out = normalize(&image_of(4, 4, black));
    // a constant zero channel stays zero under resampling
    for (x, y) in [(0u32, 0u32), (256, 256), (511, 511)] {
        let p = out.get(x, y);
        assert_eq!(p.red, 0);
        assert_eq!(p.green, 0);
        assert_eq!(p.blue, 0);
    }
}
