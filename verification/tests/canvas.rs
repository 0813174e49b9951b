use dre::canvas::{Canvas, Rgba, Shape};
use dre::render::font::GlyphShape;

const CHANNELS: usize = 4;

/// A shape whose every pixel differs: the coverage counts up along the rows.
fn gradient(width: i64, height: i64) -> GlyphShape {
    GlyphShape {
        width,
        height,
        coverage: (0..width * height).map(|i| (i * 7 % 255 + 1) as u8).collect(),
        ink: [200, 100, 50, 255],
    }
}

/// A shape that has a colour at one pixel only.
fn only_at(x: i64, y: i64) -> GlyphShape {
    let (width, height) = (4, 4);
    let mut coverage = vec![0u8; (width * height) as usize];
    coverage[(y * width + x) as usize] = 255;
    GlyphShape { width, height, coverage, ink: [9, 8, 7, 6] }
}

fn pixel(canvas: &Canvas, x: i64, y: i64) -> Rgba {
    let start = ((y * canvas.width + x) as usize) * CHANNELS;
    canvas.pixels[start..start + CHANNELS].try_into().unwrap()
}

#[test]
fn fill_has_one_pixel_per_cell() {
    let canvas = Canvas::fill(5, 3, &gradient(5, 3));
    assert_eq!((canvas.width, canvas.height), (5, 3));
    assert_eq!(canvas.pixels.len(), 5 * 3 * CHANNELS);
}

#[test]
fn fill_stores_what_the_shape_returns_at_every_pixel() {
    let canvas = Canvas::fill(5, 3, &gradient(5, 3));
    for y in 0..3 {
        for x in 0..5 {
            assert_eq!(Some(pixel(&canvas, x, y)), gradient(5, 3).colour_at(x, y));
        }
    }
}

#[test]
fn a_pixel_the_shape_declines_stays_transparent() {
    let canvas = Canvas::fill(4, 4, &only_at(2, 1));
    for y in 0..4 {
        for x in 0..4 {
            let expected = if (x, y) == (2, 1) { [9, 8, 7, 6] } else { [0; 4] };
            assert_eq!(pixel(&canvas, x, y), expected);
        }
    }
}

#[test]
fn crop_has_the_size_of_the_window() {
    let cropped = Canvas::fill(8, 6, &gradient(8, 6)).crop(2, 7, 1, 4);
    assert_eq!((cropped.width, cropped.height), (5, 3));
    assert_eq!(cropped.pixels.len(), 5 * 3 * CHANNELS);
}

#[test]
fn crop_keeps_the_pixels_inside_the_window() {
    let whole = Canvas::fill(8, 6, &gradient(8, 6));
    let cropped = whole.crop(2, 7, 1, 4);
    for y in 0..cropped.height {
        for x in 0..cropped.width {
            assert_eq!(pixel(&cropped, x, y), pixel(&whole, x + 2, y + 1));
        }
    }
}

#[test]
fn cropping_to_the_whole_canvas_changes_nothing() {
    let whole = Canvas::fill(8, 6, &gradient(8, 6));
    assert_eq!(whole.crop(0, 8, 0, 6).pixels, whole.pixels);
}

#[test]
fn an_empty_canvas_has_no_pixels() {
    let canvas = Canvas::fill(0, 3, &gradient(0, 3));
    assert!(canvas.pixels.is_empty());
}
