use dot_art::{dot_art_generate, DotArtError, Pixel, PixelBuffer};

fn image_of(width: u32, height: u32, fill: Pixel) -> PixelBuffer {
    PixelBuffer::new_filled(width, height, fill)
}

const BLACK: Pixel = Pixel { red: 0, green: 0, blue: 0, alpha: 255 };

#[test]
fn degenerate_dimensions_are_rejected() {
    let no_width = PixelBuffer { width: 0, height: 4, pixels: Vec::new() };
    assert!(matches!(dot_art_generate(&no_width, "8"), Err(DotArtError::InvalidDimensions)));
    let no_height = PixelBuffer { width: 4, height: 0, pixels: Vec::new() };
    assert!(matches!(dot_art_generate(&no_height, "8"), Err(DotArtError::InvalidDimensions)));
}

#[test]
fn out_of_range_grid_resolutions_are_rejected() {
    let img = image_of(4, 4, BLACK);
    assert!(matches!(dot_art_generate(&img, "0"), Err(DotArtError::GridResolutionOutOfRange)));
    assert!(matches!(dot_art_generate(&img, "513"), Err(DotArtError::GridResolutionOutOfRange)));
    assert!(matches!(dot_art_generate(&img, "4294967295"), Err(DotArtError::GridResolutionOutOfRange)));
}

#[test]
fn unparsable_grid_text_uses_the_default_and_succeeds() {
    let img = image_of(4, 4, BLACK);
    let out = dot_art_generate(&img, "not a number").unwrap();
    assert_eq!(out.width, 512);
    assert_eq!(out.height, 512);
}

#[test]
fn square_black_image_quantizes_to_black_cells() {
    let img = image_of(64, 64, BLACK);
    let out = dot_art_generate(&img, "8").unwrap();
    assert_eq!(out.width, 512);
    assert_eq!(out.height, 512);
    // a square source fills the whole canvas; constant zero channels stay
    // zero under resampling, so every cell votes black
    for (x, y) in [(0u32, 0u32), (100, 311), (256, 256), (511, 511)] {
        let p = out.get(x, y);
        assert_eq!(p.red, 0);
        assert_eq!(p.green, 0);
        assert_eq!(p.blue, 0);
    }
}

#[test]
fn wide_image_yields_white_majority_bands() {
    // a 1000x100 source covers only 51 centered rows; the top band of cells
    // is pure background, so those cells vote white
    let img = image_of(1000, 100, BLACK);
    let out = dot_art_generate(&img, "8").unwrap();
    let white = Pixel { red: 255, green: 255, blue: 255, alpha: 255 };
    assert_eq!(out.get(0, 0), white);
    assert_eq!(out.get(511, 511), white);
}
