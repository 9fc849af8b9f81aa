//! Framing a packed bitmap into raster commands small enough for the
//! printer's buffer, and the order in which they go out.
use vstd::prelude::*;
use crate::bitimage::{BitImage, stride_of};
use crate::commands::{FORM_FEED, GS, le16, to_two_byte};
use crate::error::PrintError;

verus! {

/// Widest bitmap the printer takes, in dots.
pub const MAX_DOTS: usize = 382;

/// Rows of bitmap sent in one raster command.
pub const CHUNK_ROWS: usize = 64;

/// Pause between two raster commands, in milliseconds, while the printer
/// drains its buffer.
pub const CHUNK_PAUSE_MS: u64 = 1500;

/// One thing to do to the device, in order.
#[derive(Debug)]
pub enum Step {
    /// Write these bytes.
    Write(Vec<u8>),
    /// Flush the device.
    Flush,
    /// Wait this many milliseconds.
    Pause(u64),
}

/// "Print raster bitmap", normal mode, with its width in bytes and height in
/// rows.
pub open spec fn raster_header(w_bytes: nat, rows: nat) -> Seq<u8> {
    seq![GS, 0x76u8, 0x30u8, 0x00u8] + le16(w_bytes) + le16(rows)
}

/// Number of raster commands a bitmap of `height` rows takes.
pub open spec fn chunk_count(height: nat) -> nat {
    ((height + CHUNK_ROWS - 1) / (CHUNK_ROWS as int)) as nat
}

/// Rows in chunk `i`: a full window, or what is left for the last one.
pub open spec fn chunk_rows(height: nat, i: nat) -> nat {
    if height - i * CHUNK_ROWS < CHUNK_ROWS {
        (height - i * CHUNK_ROWS) as nat
    } else {
        CHUNK_ROWS as nat
    }
}

/// The bitmap bytes of chunk `i`: its rows, whole.
pub open spec fn chunk_payload(bitmap: Seq<u8>, w_bytes: nat, height: nat, i: nat) -> Seq<u8> {
    let first = i * CHUNK_ROWS;
    bitmap.subrange(first * w_bytes, (first + chunk_rows(height, i)) * w_bytes)
}

/// The raster command that carries chunk `i` of a bitmap.
pub open spec fn chunk_frame(bitmap: Seq<u8>, w_bytes: nat, height: nat, i: nat) -> Seq<u8> {
    raster_header(w_bytes, chunk_rows(height, i)) + chunk_payload(bitmap, w_bytes, height, i)
}

/// The payloads of chunks `0..k`, one after the other.
pub open spec fn payloads(bitmap: Seq<u8>, w_bytes: nat, height: nat, k: nat) -> Seq<u8>
    decreases k,
{
    if k == 0 {
        Seq::empty()
    } else {
        payloads(bitmap, w_bytes, height, (k - 1) as nat) + chunk_payload(
            bitmap,
            w_bytes,
            height,
            (k - 1) as nat,
        )
    }
}

/// From `at` on, `steps` sends `frame`, flushes, feeds, flushes, and then
/// pauses unless this was the `last` chunk.
pub open spec fn sends_chunk(steps: Seq<Step>, at: int, frame: Seq<u8>, last: bool) -> bool {
    &&& steps[at] matches Step::Write(v) && v@ == frame
    &&& steps[at + 1] matches Step::Flush
    &&& steps[at + 2] matches Step::Write(v) && v@ == seq![FORM_FEED]
    &&& steps[at + 3] matches Step::Flush
    &&& !last ==> (steps[at + 4] matches Step::Pause(ms) && ms == CHUNK_PAUSE_MS)
}

/// Five steps per chunk, less the pause after the last.
pub open spec fn step_count(chunks: nat) -> nat {
    if chunks == 0 {
        0
    } else {
        (5 * chunks - 1) as nat
    }
}

/// `steps` sends every chunk of `bitmap` in order, as `sends_chunk` says.
pub open spec fn is_transmission_of(steps: Seq<Step>, bitmap: Seq<u8>, w_bytes: nat, height: nat) -> bool {
    let n = chunk_count(height);
    &&& steps.len() == step_count(n)
    &&& forall|i: nat|
        #![trigger chunk_frame(bitmap, w_bytes, height, i)]
        i < n ==> sends_chunk(steps, 5 * i as int, chunk_frame(bitmap, w_bytes, height, i), i + 1 == n)
}

/// A bitmap the printer takes: between one and `MAX_DOTS` dots wide, rows of
/// `ceil(width / 8)` bytes, and exactly `height` of them.
pub open spec fn transmittable(width: nat, height: nat, w_bytes: nat, len: nat) -> bool {
    &&& 0 < width <= MAX_DOTS
    &&& w_bytes == stride_of(width)
    &&& len == w_bytes * height
}

/// A raster command carrying `bitmap[start..end]`.
fn chunk_frame_bytes(bitmap: &[u8], w_bytes: u16, rows: u16, start: usize, end: usize) -> (r: Vec<u8>)
    requires
        start <= end <= bitmap@.len(),
    ensures
        r@ == raster_header(w_bytes as nat, rows as nat) + bitmap@.subrange(start as int, end as int),
{
    let mut r: Vec<u8> = vec![GS, 0x76u8, 0x30u8, 0x00u8];
    let wb = to_two_byte(w_bytes);
    let rb = to_two_byte(rows);
    r.push(wb[0]);
    r.push(wb[1]);
    r.push(rb[0]);
    r.push(rb[1]);
    let ghost head = r@;
    assert(head =~= raster_header(w_bytes as nat, rows as nat));
    let mut i: usize = start;
    while i < end
        invariant
            start <= i <= end,
            end <= bitmap@.len(),
            r@ == head + bitmap@.subrange(start as int, i as int),
        decreases end - i,
    {
        r.push(bitmap[i]);
        i = i + 1;
        assert(r@ =~= head + bitmap@.subrange(start as int, i as int));
    }
    r
}

proof fn lemma_chunk_span(w_bytes: int, height: int, row: int, rows: int)
    requires
        0 <= row,
        0 <= rows,
        row + rows <= height,
        0 <= w_bytes,
    ensures
        row * w_bytes + rows * w_bytes == (row + rows) * w_bytes,
        (row + rows) * w_bytes <= w_bytes * height,
        row * w_bytes <= (row + rows) * w_bytes,
{
    assert(row * w_bytes + rows * w_bytes == (row + rows) * w_bytes) by (nonlinear_arith);
    assert((row + rows) * w_bytes <= w_bytes * height) by (nonlinear_arith)
        requires
            row + rows <= height,
            0 <= w_bytes,
    ;
    assert(row * w_bytes <= (row + rows) * w_bytes) by (nonlinear_arith)
        requires
            0 <= rows,
            0 <= w_bytes,
    ;
}

/// The steps that send a `width` by `height` bitmap of `w_bytes` bytes per
/// row: chunks of `CHUNK_ROWS` rows (the last one holds what is left), each
/// as one raster command followed by a flush, a form feed and a flush, with a
/// pause between chunks. Fails with `InvalidDimensions`, before any step,
/// when the bitmap is not `transmittable`; in particular when it is wider
/// than `MAX_DOTS`.
pub fn bitmap_transmission(width: usize, height: usize, w_bytes: usize, bitmap: &[u8]) -> (r: Result<
    Vec<Step>,
    PrintError,
>)
    ensures
        transmittable(width as nat, height as nat, w_bytes as nat, bitmap@.len()) <==> r.is_ok(),
        !transmittable(width as nat, height as nat, w_bytes as nat, bitmap@.len()) ==> r == Err::<
            Vec<Step>,
            PrintError,
        >(PrintError::InvalidDimensions),
        r matches Ok(steps) ==> is_transmission_of(steps@, bitmap@, w_bytes as nat, height as nat),
{
    if width == 0 || width > MAX_DOTS {
        return Err(PrintError::InvalidDimensions);
    }
    let stride: usize = if width % 8 == 0 {
        width / 8
    } else {
        width / 8 + 1
    };
    if w_bytes != stride {
        return Err(PrintError::InvalidDimensions);
    }
    let len: usize = bitmap.len();
    if len / w_bytes != height || len % w_bytes != 0 {
        proof {
            vstd::arithmetic::div_mod::lemma_fundamental_div_mod(len as int, w_bytes as int);
            if len == w_bytes * height {
                vstd::arithmetic::div_mod::lemma_fundamental_div_mod_converse(
                    len as int,
                    w_bytes as int,
                    height as int,
                    0,
                );
            }
        }
        return Err(PrintError::InvalidDimensions);
    }
    proof {
        vstd::arithmetic::div_mod::lemma_fundamental_div_mod(len as int, w_bytes as int);
        vstd::arithmetic::mul::lemma_mul_is_commutative(w_bytes as int, height as int);
    }
    let ghost n = chunk_count(height as nat);
    let ghost bm = bitmap@;
    let mut steps: Vec<Step> = Vec::new();
    let mut i: usize = 0;
    let mut row: usize = 0;
    let mut pos: usize = 0;
    while row < height
        invariant
            bm == bitmap@,
            bm.len() == w_bytes * height,
            w_bytes * height <= usize::MAX,
            0 < w_bytes <= 48,
            n == chunk_count(height as nat),
            i <= n,
            row <= height,
            i < n ==> row == i * CHUNK_ROWS,
            i == n ==> row == height,
            pos == row * w_bytes,
            steps@.len() == step_count(i as nat),
            forall|j: nat|
                #![trigger chunk_frame(bm, w_bytes as nat, height as nat, j)]
                j < i ==> sends_chunk(
                    steps@,
                    5 * j as int,
                    chunk_frame(bm, w_bytes as nat, height as nat, j),
                    j + 1 == i,
                ),
        decreases height - row,
    {
        let rows: usize = if height - row < CHUNK_ROWS {
            height - row
        } else {
            CHUNK_ROWS
        };
        proof {
            lemma_chunk_span(w_bytes as int, height as int, row as int, rows as int);
        }
        let end: usize = pos + rows * w_bytes;
        let frame = chunk_frame_bytes(bitmap, w_bytes as u16, rows as u16, pos, end);
        assert(frame@ == chunk_frame(bm, w_bytes as nat, height as nat, i as nat));
        let ghost prev = steps@;
        let ghost fv = frame@;
        if i > 0 {
            steps.push(Step::Pause(CHUNK_PAUSE_MS));
        }
        steps.push(Step::Write(frame));
        steps.push(Step::Flush);
        steps.push(Step::Write(vec![FORM_FEED]));
        steps.push(Step::Flush);
        proof {
            let at = 5 * i as int;
            assert(steps@.len() == step_count((i + 1) as nat));
            assert(forall|k: int| 0 <= k < prev.len() ==> steps@[k] == prev[k]);
            assert(i > 0 ==> (steps@[at - 1] matches Step::Pause(ms) && ms == CHUNK_PAUSE_MS));
            assert(steps@[at] matches Step::Write(v) && v@ == fv);
            assert(steps@[at + 1] matches Step::Flush);
            assert(steps@[at + 2] matches Step::Write(v) && v@ == seq![FORM_FEED]);
            assert(steps@[at + 3] matches Step::Flush);
            assert forall|j: nat|
                #![trigger chunk_frame(bm, w_bytes as nat, height as nat, j)]
                j < i + 1 implies sends_chunk(
                steps@,
                5 * j as int,
                chunk_frame(bm, w_bytes as nat, height as nat, j),
                j + 1 == i + 1,
            ) by {
                if j < i {
                    assert(sends_chunk(
                        prev,
                        5 * j as int,
                        chunk_frame(bm, w_bytes as nat, height as nat, j),
                        j + 1 == i,
                    ));
                }
            }
        }
        i = i + 1;
        row = row + rows;
        pos = end;
    }
    Ok(steps)
}

/// The steps that send a canvas, as `bitmap_transmission` gives them.
pub fn canvas_transmission(canvas: &BitImage) -> (r: Result<Vec<Step>, PrintError>)
    requires
        canvas.wf(),
    ensures
        0 < canvas.spec_width() <= MAX_DOTS <==> r.is_ok(),
        !(0 < canvas.spec_width() <= MAX_DOTS) ==> r == Err::<Vec<Step>, PrintError>(
            PrintError::InvalidDimensions,
        ),
        r matches Ok(steps) ==> is_transmission_of(
            steps@,
            canvas.spec_bytes(),
            canvas.spec_stride(),
            canvas.spec_height(),
        ),
{
    bitmap_transmission(
        canvas.get_width(),
        canvas.get_height(),
        canvas.get_width_in_bytes(),
        canvas.as_slice(),
    )
}

/// Rows that chunks `0..k` carry together.
spec fn rows_sent(height: nat, k: nat) -> nat {
    if k * CHUNK_ROWS < height {
        (k * CHUNK_ROWS) as nat
    } else {
        height
    }
}

proof fn lemma_payloads_prefix(bitmap: Seq<u8>, w_bytes: nat, height: nat, k: nat)
    requires
        bitmap.len() == w_bytes * height,
        k <= chunk_count(height),
    ensures
        payloads(bitmap, w_bytes, height, k) == bitmap.subrange(
            0,
            (rows_sent(height, k) * w_bytes) as int,
        ),
    decreases k,
{
    let sent = rows_sent(height, k);
    assert(sent * w_bytes <= w_bytes * height) by (nonlinear_arith)
        requires
            sent <= height,
    ;
    if k == 0 {
        assert(sent == 0);
        assert(sent * w_bytes == 0) by (nonlinear_arith)
            requires
                sent == 0,
        ;
        assert(payloads(bitmap, w_bytes, height, k) =~= bitmap.subrange(0, (sent * w_bytes) as int));
    } else {
        let i = (k - 1) as nat;
        lemma_payloads_prefix(bitmap, w_bytes, height, i);
        let first = i * CHUNK_ROWS;
        let rows = chunk_rows(height, i);
        assert(first < height);
        assert(rows_sent(height, i) == first);
        assert(rows_sent(height, k) == first + rows);
        lemma_chunk_span(w_bytes as int, height as int, first as int, rows as int);
        assert(payloads(bitmap, w_bytes, height, k) =~= bitmap.subrange(
            0,
            (rows_sent(height, k) * w_bytes) as int,
        ));
    }
}

/// The chunks carry the bitmap in order: each holds between one and
/// `CHUNK_ROWS` rows, and their payloads, one after the other, make up the
/// whole bitmap.
pub proof fn lemma_chunks_cover_bitmap(bitmap: Seq<u8>, w_bytes: nat, height: nat)
    requires
        bitmap.len() == w_bytes * height,
    ensures
        forall|i: nat| #![trigger chunk_rows(height, i)]
            i < chunk_count(height) ==> 0 < chunk_rows(height, i) <= CHUNK_ROWS,
        payloads(bitmap, w_bytes, height, chunk_count(height)) == bitmap,
{
    lemma_payloads_prefix(bitmap, w_bytes, height, chunk_count(height));
    vstd::arithmetic::mul::lemma_mul_is_commutative(w_bytes as int, height as int);
    assert(bitmap.subrange(0, (height * w_bytes) as int) =~= bitmap);
}

} // verus!
