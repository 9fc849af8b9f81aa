use thermal_printer::bitimage::BitImage;
use thermal_printer::commands::{
    justification_command, qr_size_command, qr_store_command, text_mode_command, to_two_byte,
};
use thermal_printer::error::PrintError;
use thermal_printer::transmit::{bitmap_transmission, canvas_transmission, Step, CHUNK_PAUSE_MS};

fn frames(steps: &[Step]) -> Vec<Vec<u8>> {
    steps
        .iter()
        .filter_map(|s| match s {
            Step::Write(v) if v.len() > 1 => Some(v.clone()),
            _ => None,
        })
        .collect()
}

#[test]
fn hundred_rows_go_out_in_two_chunks() {
    let bitmap: Vec<u8> = (0..200).map(|i| (i % 251) as u8).collect();
    let steps = bitmap_transmission(16, 100, 2, &bitmap).unwrap();
    let f = frames(&steps);
    assert_eq!(f.len(), 2);
    assert_eq!(&f[0][..8], &[0x1d, 0x76, 0x30, 0x00, 2, 0, 64, 0]);
    assert_eq!(&f[0][8..], &bitmap[..128]);
    assert_eq!(&f[1][..8], &[0x1d, 0x76, 0x30, 0x00, 2, 0, 36, 0]);
    assert_eq!(&f[1][8..], &bitmap[128..]);
}

#[test]
fn chunks_are_flushed_fed_and_paced() {
    let bitmap = vec![0xaau8; 100];
    let steps = bitmap_transmission(8, 100, 1, &bitmap).unwrap();
    assert_eq!(steps.len(), 9);
    assert!(matches!(&steps[0], Step::Write(v) if v.len() == 8 + 64));
    assert!(matches!(steps[1], Step::Flush));
    assert!(matches!(&steps[2], Step::Write(v) if v == &vec![0x0c]));
    assert!(matches!(steps[3], Step::Flush));
    assert!(matches!(steps[4], Step::Pause(ms) if ms == CHUNK_PAUSE_MS));
    assert_eq!(CHUNK_PAUSE_MS, 1500);
    assert!(matches!(&steps[5], Step::Write(v) if v.len() == 8 + 36));
    assert!(matches!(steps[6], Step::Flush));
    assert!(matches!(&steps[7], Step::Write(v) if v == &vec![0x0c]));
    assert!(matches!(steps[8], Step::Flush));
}

#[test]
fn a_short_bitmap_is_one_chunk_without_pause() {
    let bitmap = vec![1u8, 2, 3, 4, 5, 6];
    let steps = bitmap_transmission(12, 3, 2, &bitmap).unwrap();
    assert_eq!(steps.len(), 4);
    assert!(matches!(&steps[0], Step::Write(v) if v == &vec![0x1d, 0x76, 0x30, 0, 2, 0, 3, 0, 1, 2, 3, 4, 5, 6]));
}

#[test]
fn exactly_two_windows_is_two_full_chunks() {
    let bitmap = vec![7u8; 128];
    let f = frames(&bitmap_transmission(8, 128, 1, &bitmap).unwrap());
    assert_eq!(f.len(), 2);
    assert_eq!(f[0][6], 64);
    assert_eq!(f[1][6], 64);
}

#[test]
fn empty_bitmap_sends_nothing() {
    assert_eq!(bitmap_transmission(8, 0, 1, &[]).unwrap().len(), 0);
}

#[test]
fn too_wide_is_rejected_before_any_step() {
    let c = BitImage::new(383, 2);
    assert_eq!(canvas_transmission(&c).err(), Some(PrintError::InvalidDimensions));
    assert_eq!(
        bitmap_transmission(383, 2, 48, &vec![0u8; 96]).err(),
        Some(PrintError::InvalidDimensions)
    );
    let c = BitImage::new(382, 2);
    assert_eq!(canvas_transmission(&c).unwrap().len(), 4);
}

#[test]
fn inconsistent_bitmaps_are_rejected() {
    assert_eq!(bitmap_transmission(0, 0, 0, &[]).err(), Some(PrintError::InvalidDimensions));
    assert_eq!(bitmap_transmission(16, 2, 1, &[0, 0]).err(), Some(PrintError::InvalidDimensions));
    assert_eq!(bitmap_transmission(16, 2, 2, &[0, 0, 0]).err(), Some(PrintError::InvalidDimensions));
}

#[test]
fn canvas_transmission_carries_the_canvas_bytes() {
    let mut c = BitImage::new(10, 2);
    c.set_pixel(0, 0, true).unwrap();
    c.set_pixel(9, 1, true).unwrap();
    let f = frames(&canvas_transmission(&c).unwrap());
    assert_eq!(f, vec![vec![0x1d, 0x76, 0x30, 0, 2, 0, 2, 0, 0x80, 0, 0, 0x40]]);
}

#[test]
fn two_byte_fields_are_little_endian() {
    assert_eq!(to_two_byte(0x1234), [0x34, 0x12]);
    assert_eq!(to_two_byte(300), [44, 1]);
    assert_eq!(to_two_byte(0), [0, 0]);
}

#[test]
fn text_commands() {
    assert_eq!(justification_command(1), vec![0x1b, 0x61, 1]);
    assert_eq!(text_mode_command(false, false, false, false), vec![0x1b, b'!', 0]);
    assert_eq!(text_mode_command(true, true, true, true), vec![0x1b, b'!', 0b0011_1001]);
    assert_eq!(text_mode_command(false, true, false, true), vec![0x1b, b'!', 0b0001_0001]);
}

#[test]
fn qr_commands() {
    assert_eq!(qr_size_command(8), vec![0x1d, 0x28, 0x6b, 0x03, 0x00, 0x31, 0x43, 8]);
    assert_eq!(
        qr_store_command(b"hi"),
        vec![0x1d, 0x28, 0x6b, 5, 0, 0x31, 0x50, 0x30, b'h', b'i']
    );
}
