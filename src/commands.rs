//! Byte sequences of the printer's escape-code protocol.
use vstd::prelude::*;

verus! {

/// Group separator: starts graphics and barcode commands.
pub const GS: u8 = 0x1d;

/// Escape: starts text formatting commands.
pub const ESC: u8 = 0x1b;

/// Form feed: prints what the printer holds and advances the paper.
pub const FORM_FEED: u8 = 0x0c;

/// Two bytes of `n`, least significant first.
pub open spec fn le16(n: nat) -> Seq<u8> {
    seq![(n % 256) as u8, (n / 256) as u8]
}

/// `num` as the printer reads a two-byte field: little-endian.
pub fn to_two_byte(num: u16) -> (r: [u8; 2])
    ensures
        r@ == le16(num as nat),
{
    let r: [u8; 2] = [(num % 256) as u8, (num / 256) as u8];
    assert(r@ =~= le16(num as nat));
    r
}

/// Selects left (0), centred (1) or right (2) justification.
pub fn justification_command(value: u8) -> (r: Vec<u8>)
    ensures
        r@ == seq![ESC, 0x61u8, value],
{
    let r: Vec<u8> = vec![ESC, 0x61u8, value];
    assert(r@ =~= seq![ESC, 0x61u8, value]);
    r
}

/// The print-mode byte: double width 0x20, double height 0x10, bold 0x08,
/// underline 0x01.
pub open spec fn text_mode_bits(double_width: bool, double_height: bool, bold: bool, underline: bool) -> u8 {
    ((if double_width { 0x20int } else { 0 }) + (if double_height { 0x10int } else { 0 }) + (if bold {
        0x08int
    } else {
        0
    }) + (if underline { 0x01int } else { 0 })) as u8
}

/// Sets the text print mode.
pub fn text_mode_command(double_width: bool, double_height: bool, bold: bool, underline: bool) -> (r: Vec<u8>)
    ensures
        r@ == seq![ESC, 0x21u8, text_mode_bits(double_width, double_height, bold, underline)],
{
    let mut settings: u8 = 0;
    if double_width {
        settings = settings + 0x20;
    }
    if double_height {
        settings = settings + 0x10;
    }
    if bold {
        settings = settings + 0x08;
    }
    if underline {
        settings = settings + 0x01;
    }
    let r: Vec<u8> = vec![ESC, 0x21u8, settings];
    assert(r@ =~= seq![ESC, 0x21u8, text_mode_bits(double_width, double_height, bold, underline)]);
    r
}

/// Sets the module size of QR codes.
pub fn qr_size_command(size: u8) -> (r: Vec<u8>)
    ensures
        r@ == seq![GS, 0x28u8, 0x6bu8, 0x03u8, 0x00u8, 0x31u8, 0x43u8, size],
{
    let r: Vec<u8> = vec![GS, 0x28u8, 0x6bu8, 0x03u8, 0x00u8, 0x31u8, 0x43u8, size];
    assert(r@ =~= seq![GS, 0x28u8, 0x6bu8, 0x03u8, 0x00u8, 0x31u8, 0x43u8, size]);
    r
}

/// Stores `data` in the QR code symbol area; the length field counts the
/// three bytes that follow it as well as the data.
pub fn qr_store_command(data: &[u8]) -> (r: Vec<u8>)
    requires
        data@.len() + 3 <= u16::MAX,
    ensures
        r@ == seq![GS, 0x28u8, 0x6bu8] + le16(data@.len() + 3) + seq![0x31u8, 0x50u8, 0x30u8] + data@,
{
    let mut r: Vec<u8> = vec![GS, 0x28u8, 0x6bu8];
    let len = to_two_byte(data.len() as u16 + 3);
    r.push(len[0]);
    r.push(len[1]);
    r.push(0x31u8);
    r.push(0x50u8);
    r.push(0x30u8);
    let ghost head = r@;
    assert(head =~= seq![GS, 0x28u8, 0x6bu8] + le16(data@.len() + 3) + seq![0x31u8, 0x50u8, 0x30u8]);
    let mut i: usize = 0;
    while i < data.len()
        invariant
            i <= data@.len(),
            r@ == head + data@.subrange(0, i as int),
        decreases data@.len() - i,
    {
        r.push(data[i]);
        i = i + 1;
        assert(r@ =~= head + data@.subrange(0, i as int));
    }
    assert(data@.subrange(0, data@.len() as int) =~= data@);
    r
}

} // verus!
