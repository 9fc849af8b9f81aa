use thermal_printer::dither::dither;
use thermal_printer::error::PrintError;
use thermal_printer::render::{grayscale, pixel_lightness, render_image, render_resized, DecodedImage};

#[test]
fn lightness_of_opaque_pixels() {
    assert_eq!(pixel_lightness(0, 0, 0, 255), 0);
    assert_eq!(pixel_lightness(255, 255, 255, 255), 255);
    assert_eq!(pixel_lightness(255, 0, 0, 255), 128);
    assert_eq!(pixel_lightness(10, 200, 40, 255), 105);
}

#[test]
fn lightness_flattens_onto_white() {
    assert_eq!(pixel_lightness(0, 0, 0, 0), 255);
    assert_eq!(pixel_lightness(0, 0, 0, 128), 127);
    assert_eq!(pixel_lightness(10, 20, 30, 128), 137);
}

#[test]
fn grayscale_takes_one_sample_per_pixel() {
    let rgba = vec![0, 0, 0, 255, 255, 255, 255, 255, 255, 0, 0, 255, 1, 2];
    assert_eq!(grayscale(&rgba), vec![0, 255, 128]);
}

#[test]
fn render_resized_dithers_the_lightness() {
    let rgba: Vec<u8> = (0..6 * 4)
        .flat_map(|i| {
            let v = (i * 11 % 256) as u8;
            [v, v / 2, 255 - v, 255]
        })
        .collect();
    let c = render_resized(6, 4, &rgba).unwrap();
    let expected = dither(6, 4, grayscale(&rgba)).unwrap();
    assert_eq!(c.as_slice(), expected.as_slice());
}

#[test]
fn render_resized_checks_the_buffer_length() {
    assert_eq!(render_resized(2, 2, &vec![0u8; 15]).err(), Some(PrintError::InvalidDimensions));
    assert_eq!(render_resized(2, 2, &vec![0u8; 17]).err(), Some(PrintError::InvalidDimensions));
}

#[test]
fn render_image_at_its_own_width_is_not_resampled() {
    let rgba: Vec<u8> = (0..8 * 3)
        .flat_map(|i| if i % 3 == 0 { [0, 0, 0, 255] } else { [255, 255, 255, 255] })
        .collect();
    let img = DecodedImage { width: 8, height: 3, rgba: rgba.clone() };
    let c = render_image(img, 8).unwrap();
    let expected = dither(8, 3, grayscale(&rgba)).unwrap();
    assert_eq!(c.as_slice(), expected.as_slice());
}

#[test]
fn render_image_keeps_the_aspect_ratio() {
    let img = DecodedImage { width: 4, height: 4, rgba: vec![255u8; 64] };
    let c = render_image(img, 2).unwrap();
    assert_eq!(c.get_width(), 2);
    assert_eq!(c.get_height(), 2);
    assert_eq!(c.as_slice(), &[0, 0]);

    let img = DecodedImage { width: 10, height: 5, rgba: vec![0u8; 200] };
    let c = render_image(img, 4).unwrap();
    assert_eq!(c.get_height(), 2);

    // 3 * 5 / 2 = 7.5 rounds up to 8.
    let img = DecodedImage { width: 2, height: 3, rgba: vec![0u8; 24] };
    let c = render_image(img, 5).unwrap();
    assert_eq!(c.get_width(), 5);
    assert_eq!(c.get_height(), 8);
}

#[test]
fn render_image_of_black_is_all_dots() {
    let rgba: Vec<u8> = (0..16).flat_map(|_| [0u8, 0, 0, 255]).collect();
    let img = DecodedImage { width: 4, height: 4, rgba };
    let c = render_image(img, 8).unwrap();
    assert_eq!(c.get_height(), 8);
    assert!(c.as_slice().iter().all(|b| *b == 0xff));
}

#[test]
fn render_image_rejects_bad_dimensions() {
    let img = DecodedImage { width: 4, height: 4, rgba: vec![0u8; 64] };
    assert_eq!(render_image(img, 0).err(), Some(PrintError::InvalidDimensions));
    let img = DecodedImage { width: 0, height: 4, rgba: vec![] };
    assert_eq!(render_image(img, 8).err(), Some(PrintError::InvalidDimensions));
    let img = DecodedImage { width: 4, height: 4, rgba: vec![0u8; 63] };
    assert_eq!(render_image(img, 8).err(), Some(PrintError::InvalidDimensions));
    // 1 * 1 / 100 rounds to a height of 0.
    let img = DecodedImage { width: 100, height: 1, rgba: vec![0u8; 400] };
    assert_eq!(render_image(img, 1).err(), Some(PrintError::InvalidDimensions));
}
