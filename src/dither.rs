//! Floyd–Steinberg error diffusion from a lightness buffer to a `BitImage`.
use vstd::prelude::*;
use crate::bitimage::{BitImage, stride_of};
use crate::error::PrintError;

verus! {

/// Samples at or below this value print as dark dots.
pub const DARK_LIMIT: u8 = 127;

/// Sixteenths of a pixel's error passed to its right neighbour.
pub const WEIGHT_RIGHT: i32 = 7;

/// Sixteenths passed to the neighbour below and to the left.
pub const WEIGHT_BELOW_LEFT: i32 = 3;

/// Sixteenths passed to the neighbour below.
pub const WEIGHT_BELOW: i32 = 5;

/// Sixteenths passed to the neighbour below and to the right.
pub const WEIGHT_BELOW_RIGHT: i32 = 1;

/// Share of a quantization error that goes to a neighbour with the given
/// weight (out of 16): `round(err * weight / 16)`, halves away from zero.
pub open spec fn spread(err: int, weight: int) -> int {
    if err * weight >= 0 {
        (err * weight + 8) / 16
    } else {
        -((-(err * weight) + 8) / 16)
    }
}

/// `v` clamped to the range of a byte.
pub open spec fn clamp_byte(v: int) -> u8 {
    if v < 0 {
        0
    } else if v > 255 {
        255
    } else {
        v as u8
    }
}

/// Whether a sample prints as a dark dot.
pub open spec fn is_dark(v: u8) -> bool {
    v <= DARK_LIMIT
}

/// The sample minus the extreme it is quantized to (0 when dark, 255 when light).
pub open spec fn quant_error(v: u8) -> int {
    if is_dark(v) {
        v as int
    } else {
        v - 255
    }
}

/// `g` with the share `spread(err, weight)` added to sample `(x, y)`, clamped,
/// when that sample lies inside the `w` by `h` buffer; `g` itself otherwise.
pub open spec fn add_share(g: Seq<u8>, w: int, h: int, x: int, y: int, err: int, weight: int) -> Seq<u8> {
    if 0 <= x < w && 0 <= y < h {
        g.update(y * w + x, clamp_byte(g[y * w + x] + spread(err, weight)))
    } else {
        g
    }
}

/// The buffer after the error of pixel `k` (raster order) has been passed on
/// to its right, lower-left, lower and lower-right neighbours with weights
/// 7, 3, 5 and 1 sixteenths.
pub open spec fn diffuse(g: Seq<u8>, w: int, h: int, k: int) -> Seq<u8> {
    let x = k % w;
    let y = k / w;
    let e = quant_error(g[k]);
    let g1 = add_share(g, w, h, x + 1, y, e, WEIGHT_RIGHT as int);
    let g2 = add_share(g1, w, h, x - 1, y + 1, e, WEIGHT_BELOW_LEFT as int);
    let g3 = add_share(g2, w, h, x, y + 1, e, WEIGHT_BELOW as int);
    add_share(g3, w, h, x + 1, y + 1, e, WEIGHT_BELOW_RIGHT as int)
}

/// The working buffer once the first `k` pixels in raster order are done.
pub open spec fn working(g0: Seq<u8>, w: int, h: int, k: nat) -> Seq<u8>
    decreases k,
{
    if k == 0 {
        g0
    } else {
        diffuse(working(g0, w, h, (k - 1) as nat), w, h, k - 1)
    }
}

/// Whether pixel `k` (raster order) of the dithered `w` by `h` image of `g0`
/// is a dark dot.
pub open spec fn dithered_dark(g0: Seq<u8>, w: int, h: int, k: nat) -> bool {
    is_dark(working(g0, w, h, k)[k as int])
}

/// Whether `c` is the dithered image of the `w` by `h` buffer `g0`.
pub open spec fn is_dithering_of(c: BitImage, g0: Seq<u8>, w: int, h: int) -> bool {
    &&& c.wf()
    &&& c.spec_width() == w
    &&& c.spec_height() == h
    &&& forall|x: int, y: int|
        #![trigger c.pixel(x, y)]
        0 <= x < w && 0 <= y < h ==> c.pixel(x, y) == dithered_dark(g0, w, h, (y * w + x) as nat)
}

/// `round(err * weight / 16)`, halves away from zero.
fn spread_share(err: i32, weight: i32) -> (r: i32)
    requires
        -255 <= err <= 255,
        0 <= weight <= 16,
    ensures
        r == spread(err as int, weight as int),
        -255 <= r <= 255,
{
    assert(-4080 <= err * weight <= 4080) by (nonlinear_arith)
        requires
            -255 <= err <= 255,
            0 <= weight <= 16,
    ;
    let n: i32 = err * weight;
    if n >= 0 {
        (n + 8) / 16
    } else {
        -((-n + 8) / 16)
    }
}

/// Adds `spread(err, weight)` to sample `idx`, clamped to a byte.
fn add_share_at(g: &mut Vec<u8>, idx: usize, err: i32, weight: i32)
    requires
        idx < old(g)@.len(),
        -255 <= err <= 255,
        0 <= weight <= 16,
    ensures
        final(g)@ == old(g)@.update(
            idx as int,
            clamp_byte(old(g)@[idx as int] + spread(err as int, weight as int)),
        ),
{
    let v: i32 = g[idx] as i32 + spread_share(err, weight);
    let c: u8 = if v < 0 {
        0
    } else if v > 255 {
        255
    } else {
        v as u8
    };
    g.set(idx, c);
}

proof fn lemma_add_share_len(g: Seq<u8>, w: int, h: int, x: int, y: int, err: int, weight: int)
    requires
        g.len() == w * h,
    ensures
        add_share(g, w, h, x, y, err, weight).len() == g.len(),
{
    if 0 <= x < w && 0 <= y < h {
        crate::bitimage::lemma_byte_index_bound(w, h, y, x);
    }
}

proof fn lemma_working_len(g0: Seq<u8>, w: int, h: int, k: nat)
    requires
        g0.len() == w * h,
    ensures
        working(g0, w, h, k).len() == g0.len(),
    decreases k,
{
    if k > 0 {
        let kp = (k - 1) as nat;
        lemma_working_len(g0, w, h, kp);
        let g = working(g0, w, h, kp);
        let x: int = kp as int % w;
        let y: int = kp as int / w;
        let e = quant_error(g[kp as int]);
        lemma_add_share_len(g, w, h, x + 1, y, e, WEIGHT_RIGHT as int);
        let g1 = add_share(g, w, h, x + 1, y, e, WEIGHT_RIGHT as int);
        lemma_add_share_len(g1, w, h, x - 1, y + 1, e, WEIGHT_BELOW_LEFT as int);
        let g2 = add_share(g1, w, h, x - 1, y + 1, e, WEIGHT_BELOW_LEFT as int);
        lemma_add_share_len(g2, w, h, x, y + 1, e, WEIGHT_BELOW as int);
        let g3 = add_share(g2, w, h, x, y + 1, e, WEIGHT_BELOW as int);
        lemma_add_share_len(g3, w, h, x + 1, y + 1, e, WEIGHT_BELOW_RIGHT as int);
    }
}

proof fn lemma_raster_position(k: int, w: int, x: int, y: int)
    requires
        w > 0,
        0 <= x < w,
        k == y * w + x,
    ensures
        k % w == x,
        k / w == y,
{
    vstd::arithmetic::div_mod::lemma_fundamental_div_mod_converse(k, w, y, x);
}

proof fn lemma_next_row(w: int, y: int)
    ensures
        (y + 1) * w == y * w + w,
{
    assert((y + 1) * w == y * w + w) by (nonlinear_arith);
}

proof fn lemma_row_below(w: int, h: int, y: int)
    requires
        w >= 0,
        0 <= y,
        y + 1 < h,
    ensures
        y * w + 2 * w <= w * h,
{
    assert(y * w + 2 * w <= w * h) by (nonlinear_arith)
        requires
            w >= 0,
            0 <= y,
            y + 2 <= h,
    ;
}

proof fn lemma_stride_fits(w: int, h: int)
    requires
        w >= 0,
        h >= 0,
    ensures
        stride_of(w as nat) * h <= w * h,
{
    assert(stride_of(w as nat) <= w);
    assert(stride_of(w as nat) * h <= w * h) by (nonlinear_arith)
        requires
            stride_of(w as nat) <= w,
            h >= 0,
    ;
}

/// Dithers the `width` by `height` lightness buffer `gray` (row-major) into a
/// canvas of the same size: pixels are taken in raster order, each compared
/// with the dark limit after the errors passed on to it, and its own error
/// passed on. Fails with `InvalidDimensions` when `gray` does not hold
/// exactly `width * height` samples.
pub fn dither(width: usize, height: usize, gray: Vec<u8>) -> (r: Result<BitImage, PrintError>)
    ensures
        gray@.len() == width * height <==> r.is_ok(),
        gray@.len() != width * height ==> r == Err::<BitImage, PrintError>(
            PrintError::InvalidDimensions,
        ),
        r matches Ok(c) ==> is_dithering_of(c, gray@, width as int, height as int),
        r matches Ok(c) ==> c.spec_bytes().len() == stride_of(width as nat) * height,
{
    let len: usize = gray.len();
    let n: usize = match width.checked_mul(height) {
        Some(n) => n,
        None => {
            return Err(PrintError::InvalidDimensions);
        },
    };
    if len != n {
        return Err(PrintError::InvalidDimensions);
    }
    Ok(dither_exact(width, height, gray))
}

/// The body of `dither`, once the buffer is known to hold `width * height` samples.
fn dither_exact(width: usize, height: usize, gray: Vec<u8>) -> (c: BitImage)
    requires
        gray@.len() == width * height,
        width * height <= usize::MAX,
    ensures
        is_dithering_of(c, gray@, width as int, height as int),
{
    let ghost g0 = gray@;
    let ghost w = width as int;
    let ghost h = height as int;
    proof {
        lemma_stride_fits(w, h);
    }
    let mut canvas = BitImage::new(width, height);
    let mut g = gray;
    let mut y: usize = 0;
    let mut k: usize = 0;
    while y < height
        invariant
            g0.len() == w * h,
            w * h <= usize::MAX,
            w == width,
            h == height,
            y <= height,
            k == y * w,
            g@ == working(g0, w, h, k as nat),
            canvas.wf(),
            canvas.spec_width() == width,
            canvas.spec_height() == height,
            forall|px: int, py: int|
                #![trigger canvas.pixel(px, py)]
                0 <= px < w && 0 <= py < y ==> canvas.pixel(px, py) == dithered_dark(
                    g0,
                    w,
                    h,
                    (py * w + px) as nat,
                ),
        decreases height - y,
    {
        let mut x: usize = 0;
        while x < width
            invariant
                g0.len() == w * h,
                w * h <= usize::MAX,
                w == width,
                h == height,
                y < height,
                x <= width,
                k == y * w + x,
                g@ == working(g0, w, h, k as nat),
                canvas.wf(),
                canvas.spec_width() == width,
                canvas.spec_height() == height,
                forall|px: int, py: int|
                    #![trigger canvas.pixel(px, py)]
                    0 <= px < w && 0 <= py <= y && (py < y || px < x) ==> canvas.pixel(px, py)
                        == dithered_dark(g0, w, h, (py * w + px) as nat),
            decreases width - x,
        {
            proof {
                lemma_raster_position(k as int, w, x as int, y as int);
                lemma_next_row(w, y as int);
                vstd::arithmetic::mul::lemma_mul_inequality(y as int + 1, h, w);
                lemma_working_len(g0, w, h, k as nat);
            }
            let v: u8 = g[k];
            let dark: bool = v <= DARK_LIMIT;
            let err: i32 = if dark {
                v as i32
            } else {
                v as i32 - 255
            };
            canvas.set(x, y, dark);
            let ghost before = g@;
            if x + 1 < width {
                add_share_at(&mut g, k + 1, err, WEIGHT_RIGHT);
            }
            if y + 1 < height {
                proof {
                    lemma_row_below(w, h, y as int);
                }
                if x >= 1 {
                    add_share_at(&mut g, k + width - 1, err, WEIGHT_BELOW_LEFT);
                }
                add_share_at(&mut g, k + width, err, WEIGHT_BELOW);
                if x + 1 < width {
                    add_share_at(&mut g, k + width + 1, err, WEIGHT_BELOW_RIGHT);
                }
            }
            assert(g@ == diffuse(before, w, h, k as int));
            k = k + 1;
            x = x + 1;
        }
        proof {
            lemma_next_row(w, y as int);
        }
        y = y + 1;
    }
    canvas
}

/// The four weights make up the whole error: they add up to sixteen
/// sixteenths, and the rounded shares of an error add up to it but for at
/// most the rounding of each of the four shares.
pub proof fn lemma_error_fully_distributed(err: int)
    ensures
        WEIGHT_RIGHT + WEIGHT_BELOW_LEFT + WEIGHT_BELOW + WEIGHT_BELOW_RIGHT == 16,
        16 * err == err * WEIGHT_RIGHT + err * WEIGHT_BELOW_LEFT + err * WEIGHT_BELOW + err
            * WEIGHT_BELOW_RIGHT,
        err - 2 <= spread(err, WEIGHT_RIGHT as int) + spread(err, WEIGHT_BELOW_LEFT as int) + spread(
            err,
            WEIGHT_BELOW as int,
        ) + spread(err, WEIGHT_BELOW_RIGHT as int) <= err + 2,
{
    lemma_share_rounding(err, 7);
    lemma_share_rounding(err, 3);
    lemma_share_rounding(err, 5);
    lemma_share_rounding(err, 1);
}

/// A rounded share is within half a unit of the exact share.
proof fn lemma_share_rounding(err: int, weight: int)
    requires
        0 <= weight <= 16,
    ensures
        err * weight - 8 <= 16 * spread(err, weight) <= err * weight + 8,
{
    let n = err * weight;
    if n >= 0 {
        vstd::arithmetic::div_mod::lemma_fundamental_div_mod(n + 8, 16);
    } else {
        vstd::arithmetic::div_mod::lemma_fundamental_div_mod(-n + 8, 16);
    }
}

/// A buffer of pure black and white samples passes on no error: the working
/// buffer never changes.
proof fn lemma_extreme_buffer_fixed(g0: Seq<u8>, w: int, h: int, k: nat)
    requires
        g0.len() == w * h,
        k <= g0.len(),
        forall|i: int| 0 <= i < g0.len() ==> #[trigger] g0[i] == 0 || g0[i] == 255,
    ensures
        working(g0, w, h, k) == g0,
    decreases k,
{
    if k > 0 {
        let kp = (k - 1) as nat;
        lemma_extreme_buffer_fixed(g0, w, h, kp);
        let x: int = kp as int % w;
        let y: int = kp as int / w;
        let e = quant_error(g0[kp as int]);
        assert(e == 0);
        assert(spread(0, WEIGHT_RIGHT as int) == 0);
        assert(spread(0, WEIGHT_BELOW_LEFT as int) == 0);
        assert(spread(0, WEIGHT_BELOW as int) == 0);
        assert(spread(0, WEIGHT_BELOW_RIGHT as int) == 0);
        lemma_add_share_unchanged(g0, w, h, x + 1, y, WEIGHT_RIGHT as int);
        lemma_add_share_unchanged(g0, w, h, x - 1, y + 1, WEIGHT_BELOW_LEFT as int);
        lemma_add_share_unchanged(g0, w, h, x, y + 1, WEIGHT_BELOW as int);
        lemma_add_share_unchanged(g0, w, h, x + 1, y + 1, WEIGHT_BELOW_RIGHT as int);
    }
}

/// Adding a share of no error leaves the buffer as it is.
proof fn lemma_add_share_unchanged(g: Seq<u8>, w: int, h: int, x: int, y: int, weight: int)
    requires
        g.len() == w * h,
        spread(0, weight) == 0,
    ensures
        add_share(g, w, h, x, y, 0, weight) == g,
{
    if 0 <= x < w && 0 <= y < h {
        crate::bitimage::lemma_byte_index_bound(w, h, y, x);
        assert(add_share(g, w, h, x, y, 0, weight) =~= g);
    }
}

/// A buffer of pure black and white samples dithers to its own threshold:
/// exactly the black samples become dots.
pub proof fn lemma_extreme_buffer_dithers_exactly(c: BitImage, g0: Seq<u8>, w: int, h: int)
    requires
        is_dithering_of(c, g0, w, h),
        g0.len() == w * h,
        forall|i: int| 0 <= i < g0.len() ==> #[trigger] g0[i] == 0 || g0[i] == 255,
    ensures
        forall|x: int, y: int|
            #![trigger c.pixel(x, y)]
            0 <= x < w && 0 <= y < h ==> c.pixel(x, y) == (g0[y * w + x] == 0),
{
    assert forall|x: int, y: int| 0 <= x < w && 0 <= y < h implies #[trigger] c.pixel(x, y) == (g0[y
        * w + x] == 0) by {
        crate::bitimage::lemma_byte_index_bound(w, h, y, x);
        lemma_extreme_buffer_fixed(g0, w, h, (y * w + x) as nat);
    }
}

/// An all-white buffer dithers to a canvas with no dot: every byte is zero.
pub proof fn lemma_white_dithers_blank(c: BitImage, g0: Seq<u8>, w: int, h: int)
    requires
        is_dithering_of(c, g0, w, h),
        g0.len() == w * h,
        forall|i: int| 0 <= i < g0.len() ==> #[trigger] g0[i] == 255,
    ensures
        forall|x: int, y: int| #![trigger c.pixel(x, y)] c.in_bounds(x, y) ==> !c.pixel(x, y),
        forall|i: int| 0 <= i < c.spec_bytes().len() ==> c.spec_bytes()[i] == 0,
{
    lemma_extreme_buffer_dithers_exactly(c, g0, w, h);
    assert forall|x: int, y: int| c.in_bounds(x, y) implies !#[trigger] c.pixel(x, y) by {
        crate::bitimage::lemma_byte_index_bound(w, h, y, x);
    }
    BitImage::lemma_blank_bytes(c);
}

/// An all-black buffer dithers to a canvas with every pixel set.
pub proof fn lemma_black_dithers_full(c: BitImage, g0: Seq<u8>, w: int, h: int)
    requires
        is_dithering_of(c, g0, w, h),
        g0.len() == w * h,
        forall|i: int| 0 <= i < g0.len() ==> #[trigger] g0[i] == 0,
    ensures
        forall|x: int, y: int| #![trigger c.pixel(x, y)] c.in_bounds(x, y) ==> c.pixel(x, y),
{
    lemma_extreme_buffer_dithers_exactly(c, g0, w, h);
    assert forall|x: int, y: int| c.in_bounds(x, y) implies #[trigger] c.pixel(x, y) by {
        crate::bitimage::lemma_byte_index_bound(w, h, y, x);
    }
}

/// Dithering is deterministic: any two dithered images of one buffer hold the
/// same bytes.
pub proof fn lemma_dithering_deterministic(c1: BitImage, c2: BitImage, g0: Seq<u8>, w: int, h: int)
    requires
        is_dithering_of(c1, g0, w, h),
        is_dithering_of(c2, g0, w, h),
    ensures
        c1.spec_bytes() == c2.spec_bytes(),
{
    BitImage::lemma_same_pixels_same_bytes(c1, c2);
}

} // verus!
