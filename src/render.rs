//! From a decoded colour image to a dithered canvas: resize to the printer
//! width, flatten onto white, take the HSL lightness, dither.
use vstd::prelude::*;
use crate::bitimage::BitImage;
use crate::dither::{dither, is_dithering_of};
use crate::error::PrintError;

verus! {

/// A decoded image: `width * height` pixels, row-major, four bytes each
/// (red, green, blue, alpha).
pub struct DecodedImage {
    pub width: u32,
    pub height: u32,
    pub rgba: Vec<u8>,
}

pub open spec fn max3(a: u8, b: u8, c: u8) -> u8 {
    if a >= b && a >= c {
        a
    } else if b >= c {
        b
    } else {
        c
    }
}

pub open spec fn min3(a: u8, b: u8, c: u8) -> u8 {
    if a <= b && a <= c {
        a
    } else if b <= c {
        b
    } else {
        c
    }
}

/// HSL lightness of a pixel flattened onto white, on the 0..=255 scale.
///
/// With channels and alpha scaled to 0..=1, flattening gives
/// `c' = c * a + (1 - a)`, and the lightness is `round((max' + min') / 2 * 255)`.
/// Flattening keeps the order of the channels, so on the byte scale this is
/// `n / 510` rounded half up, where
/// `n = (max + min) * a + 2 * 255 * (255 - a)`.
pub open spec fn lightness(r: u8, g: u8, b: u8, a: u8) -> u8 {
    let n = (max3(r, g, b) + min3(r, g, b)) * a + 510 * (255 - a);
    ((n + 255) / 510) as u8
}

/// Lightness of pixel `i` of an RGBA buffer.
pub open spec fn lightness_at(rgba: Seq<u8>, i: int) -> u8 {
    lightness(rgba[4 * i], rgba[4 * i + 1], rgba[4 * i + 2], rgba[4 * i + 3])
}

/// One lightness sample per whole pixel of an RGBA buffer.
pub open spec fn lightness_map(rgba: Seq<u8>) -> Seq<u8> {
    Seq::new(rgba.len() / 4, |i: int| lightness_at(rgba, i))
}

/// Height that keeps the aspect ratio of a `src_w` by `src_h` image scaled to
/// `width` columns: `src_h * width / src_w`, rounded half up.
pub open spec fn target_height(src_w: nat, src_h: nat, width: nat) -> nat {
    ((2 * src_h * width + src_w) / (2 * src_w)) as nat
}

/// What the triangle-filter resize of an RGBA image returns.
pub uninterp spec fn triangle_resized(src_w: nat, src_h: nat, src: Seq<u8>, w: nat, h: nat) -> Seq<u8>;

/// Relies on `image::ImageBuffer::from_raw` to take the buffer as an RGBA
/// image and on `image::imageops::resize` with `FilterType::Triangle`: the
/// result is `w * h` RGBA pixels that depend on the arguments alone, and a
/// copy of the source when the size does not change.
#[verifier::external_body]
fn resize_triangle(src_w: u32, src_h: u32, src: Vec<u8>, w: u32, h: u32) -> (r: Vec<u8>)
    requires
        src_w > 0,
        src_h > 0,
        src@.len() == src_w * src_h * 4,
        w > 0,
        h > 0,
        src_w * h * 4 <= usize::MAX,
        w * h * 4 <= usize::MAX,
    ensures
        r@ == triangle_resized(src_w as nat, src_h as nat, src@, w as nat, h as nat),
        r@.len() == w * h * 4,
        w == src_w && h == src_h ==> r@ == src@,
{
    match image::RgbaImage::from_raw(src_w, src_h, src) {
        Some(img) => image::imageops::resize(&img, w, h, image::imageops::FilterType::Triangle).into_raw(),
        None => Vec::new(),
    }
}

/// HSL lightness of one RGBA pixel flattened onto white.
pub fn pixel_lightness(r: u8, g: u8, b: u8, a: u8) -> (l: u8)
    ensures
        l == lightness(r, g, b, a),
{
    let hi: u8 = if r >= g && r >= b {
        r
    } else if g >= b {
        g
    } else {
        b
    };
    let lo: u8 = if r <= g && r <= b {
        r
    } else if g <= b {
        g
    } else {
        b
    };
    assert((hi + lo) * a <= 510 * 255) by (nonlinear_arith)
        requires
            hi + lo <= 510,
            a <= 255,
    ;
    let n: u32 = (hi as u32 + lo as u32) * (a as u32) + 510 * (255 - a as u32);
    ((n + 255) / 510) as u8
}

/// The lightness of each whole pixel of an RGBA buffer.
pub fn grayscale(rgba: &Vec<u8>) -> (r: Vec<u8>)
    ensures
        r@ == lightness_map(rgba@),
{
    let n: usize = rgba.len() / 4;
    let mut out: Vec<u8> = Vec::with_capacity(n);
    let mut i: usize = 0;
    while i < n
        invariant
            n == rgba@.len() / 4,
            rgba@.len() <= usize::MAX,
            i <= n,
            out@ == lightness_map(rgba@).subrange(0, i as int),
        decreases n - i,
    {
        let p: usize = 4 * i;
        out.push(pixel_lightness(rgba[p], rgba[p + 1], rgba[p + 2], rgba[p + 3]));
        i = i + 1;
        assert(out@ =~= lightness_map(rgba@).subrange(0, i as int));
    }
    assert(out@ =~= lightness_map(rgba@));
    out
}

/// Dithers a `width` by `height` RGBA image that is already at its print
/// size. Fails with `InvalidDimensions` when `rgba` does not hold exactly
/// `width * height` pixels.
pub fn render_resized(width: usize, height: usize, rgba: &Vec<u8>) -> (r: Result<BitImage, PrintError>)
    ensures
        rgba@.len() == width * height * 4 <==> r.is_ok(),
        rgba@.len() != width * height * 4 ==> r == Err::<BitImage, PrintError>(
            PrintError::InvalidDimensions,
        ),
        r matches Ok(c) ==> is_dithering_of(c, lightness_map(rgba@), width as int, height as int),
{
    let len: usize = rgba.len();
    let n: usize = match width.checked_mul(height) {
        Some(n) => n,
        None => {
            assert(width * height * 4 > usize::MAX) by (nonlinear_arith)
                requires
                    width * height > usize::MAX,
            ;
            return Err(PrintError::InvalidDimensions);
        },
    };
    if len / 4 != n || len % 4 != 0 {
        return Err(PrintError::InvalidDimensions);
    }
    let gray = grayscale(rgba);
    dither(width, height, gray)
}

/// Whether `img` can be rendered `width` dots wide: every size is non-zero,
/// the buffer matches the source size, and the resized buffers fit in memory.
pub open spec fn renderable(img: DecodedImage, width: nat) -> bool {
    let h = target_height(img.width as nat, img.height as nat, width);
    &&& width > 0
    &&& img.width > 0
    &&& img.height > 0
    &&& img.rgba@.len() == img.width * img.height * 4
    &&& 0 < h <= u32::MAX
    &&& img.width * h * 4 <= usize::MAX
    &&& width * h * 4 <= usize::MAX
}

/// Scales `img` to `width` columns, keeping its aspect ratio with a triangle
/// filter, and dithers the lightness of the result. Fails with
/// `InvalidDimensions` when `img` cannot be rendered at that width.
pub fn render_image(img: DecodedImage, width: u32) -> (r: Result<BitImage, PrintError>)
    ensures
        renderable(img, width as nat) <==> r.is_ok(),
        !renderable(img, width as nat) ==> r == Err::<BitImage, PrintError>(
            PrintError::InvalidDimensions,
        ),
        r matches Ok(c) ==> {
            let h = target_height(img.width as nat, img.height as nat, width as nat);
            is_dithering_of(
                c,
                lightness_map(
                    triangle_resized(img.width as nat, img.height as nat, img.rgba@, width as nat, h),
                ),
                width as int,
                h as int,
            )
        },
{
    let ghost img0 = img;
    let DecodedImage { width: src_w, height: src_h, rgba } = img;
    if width == 0 || src_w == 0 || src_h == 0 {
        return Err(PrintError::InvalidDimensions);
    }
    let len: usize = rgba.len();
    assert(src_w * src_h <= 0xffff_ffffu64 * 0xffff_ffffu64) by (nonlinear_arith)
        requires
            src_w <= 0xffff_ffffu64,
            src_h <= 0xffff_ffffu64,
    ;
    let area: u64 = src_w as u64 * src_h as u64;
    if area > usize::MAX as u64 / 4 || len != area as usize * 4 {
        return Err(PrintError::InvalidDimensions);
    }
    assert(2 * src_h * width <= 2 * 0xffff_ffffu128 * 0xffff_ffffu128) by (nonlinear_arith)
        requires
            src_h <= 0xffff_ffffu128,
            width <= 0xffff_ffffu128,
    ;
    let th: u128 = (2 * src_h as u128 * width as u128 + src_w as u128) / (2 * src_w as u128);
    if th == 0 || th > u32::MAX as u128 {
        return Err(PrintError::InvalidDimensions);
    }
    let h: u32 = th as u32;
    assert(src_w * th * 4 <= 4 * 0xffff_ffffu128 * 0xffff_ffffu128 && width * th * 4 <= 4
        * 0xffff_ffffu128 * 0xffff_ffffu128) by (nonlinear_arith)
        requires
            src_w <= 0xffff_ffffu128,
            width <= 0xffff_ffffu128,
            th <= 0xffff_ffffu128,
    ;
    if src_w as u128 * th * 4 > usize::MAX as u128 || width as u128 * th * 4 > usize::MAX as u128 {
        return Err(PrintError::InvalidDimensions);
    }
    let resized = resize_triangle(src_w, src_h, rgba, width, h);
    render_resized(width as usize, h as usize, &resized)
}

} // verus!
