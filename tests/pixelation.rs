use pixelate::{
    average_pixels, crop, crop_rect, is_valid_scale_factor, pixelate, pixelate_image, reconcile,
    CropRect, DimensionError, OutputMode, PixelBuffer, Rgba,
};

fn px(r: u8, g: u8, b: u8, a: u8) -> Rgba {
    Rgba::new(r, g, b, a)
}

/// A buffer whose pixel at (x, y) has red = x, green = y, blue = x + 10 * y.
fn gradient(width: u32, height: u32) -> PixelBuffer {
    let mut pixels = Vec::new();
    for y in 0..height {
        for x in 0..width {
            pixels.push(px(x as u8, y as u8, (x + 10 * y) as u8, 255));
        }
    }
    PixelBuffer::from_pixels(width, height, pixels).unwrap()
}

fn uniform(width: u32, height: u32, p: Rgba) -> PixelBuffer {
    PixelBuffer::from_pixels(width, height, vec![p; (width * height) as usize]).unwrap()
}

#[test]
fn from_pixels_checks_the_count() {
    assert!(PixelBuffer::from_pixels(2, 2, vec![px(0, 0, 0, 0); 3]).is_none());
    assert!(PixelBuffer::from_pixels(2, 2, vec![px(0, 0, 0, 0); 5]).is_none());
    let b = PixelBuffer::from_pixels(3, 2, vec![px(1, 2, 3, 4); 6]).unwrap();
    assert_eq!((b.width(), b.height()), (3, 2));
    assert!(PixelBuffer::from_pixels(0, 0, Vec::new()).is_some());
}

#[test]
fn get_pixel_is_row_major() {
    let b = gradient(3, 2);
    assert_eq!(b.get_pixel(2, 1), px(2, 1, 12, 255));
    assert_eq!(b.get_pixel(0, 1), px(0, 1, 10, 255));
}

#[test]
fn scale_factor_range() {
    assert!(!is_valid_scale_factor(0));
    assert!(!is_valid_scale_factor(1));
    assert!(is_valid_scale_factor(2));
    assert!(is_valid_scale_factor(8));
    assert!(!is_valid_scale_factor(9));
    assert!(!is_valid_scale_factor(255));
}

#[test]
fn average_is_floor_per_channel() {
    let p = average_pixels(&[
        px(255, 0, 10, 255),
        px(255, 1, 20, 255),
        px(1, 2, 30, 0),
        px(0, 3, 41, 0),
    ]);
    assert_eq!(p, px(127, 1, 25, 127));
}

#[test]
fn average_of_one_pixel() {
    assert_eq!(average_pixels(&[px(9, 8, 7, 6)]), px(9, 8, 7, 6));
}

#[test]
fn average_of_full_channels() {
    assert_eq!(average_pixels(&vec![px(255, 255, 255, 255); 64]), px(255, 255, 255, 255));
}

#[test]
fn reconcile_divisible_is_identity() {
    let b = gradient(6, 4);
    let before = b.pixels.clone();
    let r = reconcile(b, 2, false, false).unwrap();
    assert_eq!((r.width, r.height), (6, 4));
    assert_eq!(r.pixels, before);
    let r = reconcile(r, 2, true, true).unwrap();
    assert_eq!(r.pixels, before);
}

#[test]
fn reconcile_not_divisible_without_crop() {
    let r = reconcile(gradient(5, 4), 2, false, false);
    assert_eq!(r.unwrap_err(), DimensionError::NotDivisible);
    let r = reconcile(gradient(4, 5), 2, false, true);
    assert_eq!(r.unwrap_err(), DimensionError::NotDivisible);
}

#[test]
fn reconcile_image_too_small() {
    let r = reconcile(gradient(2, 2), 4, true, false);
    assert_eq!(r.unwrap_err(), DimensionError::ImageTooSmall);
    let r = reconcile(gradient(9, 3), 4, true, true);
    assert_eq!(r.unwrap_err(), DimensionError::ImageTooSmall);
}

#[test]
fn reconcile_crops_from_origin() {
    let r = reconcile(gradient(7, 5), 3, true, false).unwrap();
    assert_eq!((r.width, r.height), (6, 3));
    assert_eq!(r.get_pixel(0, 0), px(0, 0, 0, 255));
    assert_eq!(r.get_pixel(5, 2), px(5, 2, 25, 255));
}

#[test]
fn reconcile_crops_centred() {
    let r = reconcile(gradient(7, 5), 3, true, true).unwrap();
    assert_eq!((r.width, r.height), (6, 3));
    assert_eq!(r.get_pixel(0, 0), px(0, 1, 10, 255));
    assert_eq!(r.get_pixel(5, 2), px(5, 3, 35, 255));
}

#[test]
fn crop_rect_offsets() {
    assert_eq!(crop_rect(7, 5, 3, false), CropRect { x: 0, y: 0, width: 6, height: 3 });
    assert_eq!(crop_rect(7, 5, 3, true), CropRect { x: 0, y: 1, width: 6, height: 3 });
    assert_eq!(crop_rect(15, 13, 8, true), CropRect { x: 3, y: 2, width: 8, height: 8 });
    assert_eq!(crop_rect(16, 8, 8, true), CropRect { x: 0, y: 0, width: 16, height: 8 });
}

#[test]
fn crop_copies_the_region() {
    let b = gradient(5, 4);
    let c = crop(&b, CropRect { x: 1, y: 2, width: 3, height: 2 });
    assert_eq!((c.width, c.height), (3, 2));
    assert_eq!(c.pixels.len(), 6);
    assert_eq!(c.get_pixel(0, 0), px(1, 2, 21, 255));
    assert_eq!(c.get_pixel(2, 1), px(3, 3, 33, 255));
}

/// The 4×4 image whose top-left block holds two full reds, a red of 1 and a
/// black: its mean red is floor(511 / 4).
fn four_by_four() -> PixelBuffer {
    let red = px(255, 0, 0, 255);
    let mut pixels = vec![px(0, 0, 0, 255); 16];
    pixels[0] = red;
    pixels[1] = red;
    pixels[4] = px(1, 0, 0, 255);
    pixels[5] = px(0, 0, 0, 255);
    for i in [2usize, 3, 6, 7] {
        pixels[i] = px(10, 20, 30, 40);
    }
    for i in [8usize, 9, 12, 13] {
        pixels[i] = px(0, 100, 0, 255);
    }
    pixels[10] = px(4, 4, 4, 4);
    pixels[11] = px(5, 5, 5, 5);
    pixels[14] = px(6, 6, 6, 6);
    pixels[15] = px(8, 8, 8, 8);
    PixelBuffer::from_pixels(4, 4, pixels).unwrap()
}

#[test]
fn shrink_averages_each_block() {
    let r = pixelate(&four_by_four(), 2, OutputMode::Shrink);
    assert_eq!((r.width, r.height), (2, 2));
    assert_eq!(r.get_pixel(0, 0), px(127, 0, 0, 255));
    assert_eq!(r.get_pixel(1, 0), px(10, 20, 30, 40));
    assert_eq!(r.get_pixel(0, 1), px(0, 100, 0, 255));
    assert_eq!(r.get_pixel(1, 1), px(5, 5, 5, 5));
}

#[test]
fn keep_dimensions_paints_each_block() {
    let r = pixelate(&four_by_four(), 2, OutputMode::KeepDimensions);
    assert_eq!((r.width, r.height), (4, 4));
    for (x, y) in [(0, 0), (1, 0), (0, 1), (1, 1)] {
        assert_eq!(r.get_pixel(x, y), px(127, 0, 0, 255));
    }
    assert_eq!(r.get_pixel(3, 0), px(10, 20, 30, 40));
    assert_eq!(r.get_pixel(0, 3), px(0, 100, 0, 255));
    assert_eq!(r.get_pixel(2, 3), px(5, 5, 5, 5));
}

#[test]
fn output_dimensions_by_mode() {
    let b = gradient(12, 8);
    let s = pixelate(&b, 4, OutputMode::Shrink);
    assert_eq!((s.width, s.height, s.pixels.len()), (3, 2, 6));
    let k = pixelate(&b, 4, OutputMode::KeepDimensions);
    assert_eq!((k.width, k.height, k.pixels.len()), (12, 8, 96));
}

#[test]
fn uniform_image_is_unchanged() {
    let p = px(17, 200, 3, 99);
    let b = uniform(6, 6, p);
    let k = pixelate(&b, 3, OutputMode::KeepDimensions);
    assert_eq!(k.pixels, b.pixels);
    let s = pixelate(&b, 3, OutputMode::Shrink);
    assert_eq!(s.pixels, vec![p; 4]);
}

#[test]
fn pixelating_twice_changes_nothing() {
    let b = gradient(8, 6);
    let once = pixelate(&b, 2, OutputMode::KeepDimensions);
    assert_ne!(once.pixels, b.pixels);
    let twice = pixelate(&once, 2, OutputMode::KeepDimensions);
    assert_eq!((twice.width, twice.height), (once.width, once.height));
    assert_eq!(twice.pixels, once.pixels);
}

#[test]
fn empty_image_pixelates_to_empty() {
    let b = PixelBuffer::from_pixels(0, 0, Vec::new()).unwrap();
    let r = pixelate(&b, 2, OutputMode::Shrink);
    assert_eq!((r.width, r.height, r.pixels.len()), (0, 0, 0));
}

#[test]
fn pipeline_errors() {
    let r = pixelate_image(gradient(5, 4), 2, false, false, OutputMode::Shrink);
    assert_eq!(r.unwrap_err(), DimensionError::NotDivisible);
    let r = pixelate_image(gradient(2, 2), 4, true, false, OutputMode::KeepDimensions);
    assert_eq!(r.unwrap_err(), DimensionError::ImageTooSmall);
}

#[test]
fn pipeline_crops_then_pixelates() {
    let r = pixelate_image(gradient(5, 5), 2, true, true, OutputMode::Shrink).unwrap();
    assert_eq!((r.width, r.height), (2, 2));
    // The centred crop of a side of 5 at scale 2 starts at 1 / 2 = 0.
    assert_eq!(r.get_pixel(0, 0), px(0, 0, 5, 255));
    assert_eq!(r.get_pixel(1, 1), px(2, 2, 27, 255));
    let r = pixelate_image(gradient(7, 4), 2, true, true, OutputMode::Shrink).unwrap();
    assert_eq!((r.width, r.height), (3, 2));
    // A centred crop of a side of 8 at scale 3 starts at 2 / 2 = 1.
    let r = pixelate_image(gradient(8, 3), 3, true, true, OutputMode::Shrink).unwrap();
    assert_eq!((r.width, r.height), (2, 1));
    assert_eq!(r.get_pixel(0, 0), px(2, 1, 12, 255));
}
