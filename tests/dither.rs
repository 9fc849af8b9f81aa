use thermal_printer::dither::dither;
use thermal_printer::error::PrintError;

#[test]
fn canvas_size_is_stride_times_height() {
    for (w, h) in [(1usize, 1usize), (7, 3), (8, 2), (9, 5), (17, 4), (64, 1)] {
        let c = dither(w, h, vec![100u8; w * h]).unwrap();
        assert_eq!(c.get_width(), w);
        assert_eq!(c.get_height(), h);
        assert_eq!(c.as_slice().len(), ((w + 7) / 8) * h);
    }
}

#[test]
fn white_buffer_gives_no_dots() {
    let c = dither(13, 6, vec![255u8; 13 * 6]).unwrap();
    assert!(c.as_slice().iter().all(|b| *b == 0));
}

#[test]
fn black_buffer_gives_every_dot() {
    let c = dither(13, 6, vec![0u8; 13 * 6]).unwrap();
    for y in 0..6 {
        assert_eq!(c.as_slice()[2 * y], 0xff);
        assert_eq!(c.as_slice()[2 * y + 1], 0b1111_1000);
    }
}

#[test]
fn dithering_twice_gives_the_same_bytes() {
    let g: Vec<u8> = (0..(23 * 11)).map(|i| ((i * 37) % 256) as u8).collect();
    let a = dither(23, 11, g.clone()).unwrap();
    let b = dither(23, 11, g).unwrap();
    assert_eq!(a.as_slice(), b.as_slice());
}

#[test]
fn checkerboard_columns_give_alternating_bits() {
    let (w, h) = (16usize, 8usize);
    let g: Vec<u8> = (0..w * h).map(|i| if (i % w) % 2 == 0 { 0 } else { 255 }).collect();
    let c = dither(w, h, g).unwrap();
    assert_eq!(c.as_slice()[0], 0b1010_1010);
    assert!(c.as_slice().iter().all(|b| *b == 0b1010_1010));
}

#[test]
fn mid_grey_is_light_at_128_and_dark_at_127() {
    let c = dither(1, 1, vec![128]).unwrap();
    assert_eq!(c.get_pixel(0, 0), Ok(false));
    let c = dither(1, 1, vec![127]).unwrap();
    assert_eq!(c.get_pixel(0, 0), Ok(true));
}

#[test]
fn error_passes_right_with_rounding_away_from_zero() {
    // 128 is light (error -127); the next sample gets round(-127 * 7 / 16) = -56,
    // so 72 is dark (error 72); the third gets round(72 * 7 / 16) = round(31.5) = 32.
    let c = dither(3, 1, vec![128, 128, 128]).unwrap();
    assert_eq!(c.as_slice(), &[0b0100_0000]);
}

#[test]
fn error_passes_to_the_row_below() {
    // Pixel (0,0) = 100 is dark with error 100: (1,0) gets 44, (0,1) gets 31, (1,1) gets 6.
    // (1,0) = 100 + 44 = 144 is light with error -111: (0,1) gets round(-20.8125) = -21,
    // (1,1) gets round(-34.6875) = -35. So (0,1) = 120 + 31 - 21 = 130 is light with
    // error -125, and (1,1) gets round(-54.6875) = -55: 120 + 6 - 35 - 55 = 36, dark.
    let c = dither(2, 2, vec![100, 100, 120, 120]).unwrap();
    assert_eq!(c.get_pixel(0, 0), Ok(true));
    assert_eq!(c.get_pixel(1, 0), Ok(false));
    assert_eq!(c.get_pixel(0, 1), Ok(false));
    assert_eq!(c.get_pixel(1, 1), Ok(true));
    assert_eq!(c.as_slice(), &[0b1000_0000, 0b0100_0000]);
}

#[test]
fn shares_are_clamped_to_a_byte() {
    // 254 is light with error -1; shares round to 0, so the 0 next to it stays dark.
    let c = dither(2, 1, vec![254, 0]).unwrap();
    assert_eq!(c.as_slice(), &[0b0100_0000]);
    // 127 is dark with error 127; (1,0) = 250 + 56 clamps to 255 and stays light.
    let c = dither(2, 1, vec![127, 250]).unwrap();
    assert_eq!(c.as_slice(), &[0b1000_0000]);
}

#[test]
fn wrong_buffer_length_is_invalid_dimensions() {
    assert_eq!(dither(4, 4, vec![0u8; 15]).err(), Some(PrintError::InvalidDimensions));
    assert_eq!(dither(4, 4, vec![0u8; 17]).err(), Some(PrintError::InvalidDimensions));
    assert_eq!(dither(usize::MAX, 2, vec![]).err(), Some(PrintError::InvalidDimensions));
}

#[test]
fn empty_image_dithers_to_empty_canvas() {
    let c = dither(0, 0, vec![]).unwrap();
    assert_eq!(c.as_slice().len(), 0);
    let c = dither(5, 0, vec![]).unwrap();
    assert_eq!(c.get_width_in_bytes(), 1);
    assert_eq!(c.as_slice().len(), 0);
}
