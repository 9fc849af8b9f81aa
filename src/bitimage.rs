//! A monochrome bitmap stored one bit per pixel, row by row, most significant
//! bit first, each row padded to a whole byte.
use vstd::prelude::*;

verus! {

/// Number of bytes a row of `w` pixels takes: `ceil(w / 8)`.
pub open spec fn stride_of(w: nat) -> nat {
    ((w + 7) / 8) as nat
}

/// Bit `k` of byte `b`, counted from the most significant bit (`k == 0`).
pub open spec fn bit_at(b: u8, k: u8) -> bool {
    b & (0x80u8 >> k) != 0
}

/// Raised when a pixel is addressed outside the canvas.
#[derive(Debug, Clone, Copy, PartialEq, Eq, Structural)]
pub struct BoundsError {
    pub x: isize,
    pub y: isize,
}

/// A packed monochrome canvas: a set bit is a dark dot.
pub struct BitImage {
    bytes: Vec<u8>,
    width: usize,
    height: usize,
    w_bytes: usize,
}

proof fn lemma_bit_or(b: u8, k: u8, j: u8)
    requires
        k < 8,
        j < 8,
    ensures
        bit_at(b | (0x80u8 >> k), j) == (j == k || bit_at(b, j)),
{
    assert((b | (0x80u8 >> k)) & (0x80u8 >> j) != 0 <==> (j == k || b & (0x80u8 >> j) != 0))
        by (bit_vector)
        requires
            k < 8,
            j < 8,
    ;
}

proof fn lemma_bit_clear(b: u8, k: u8, j: u8)
    requires
        k < 8,
        j < 8,
    ensures
        bit_at(b & !(0x80u8 >> k), j) == (j != k && bit_at(b, j)),
{
    assert((b & !(0x80u8 >> k)) & (0x80u8 >> j) != 0 <==> (j != k && b & (0x80u8 >> j) != 0))
        by (bit_vector)
        requires
            k < 8,
            j < 8,
    ;
}

proof fn lemma_zero_has_no_bits(k: u8)
    requires
        k < 8,
    ensures
        !bit_at(0u8, k),
{
    assert(0u8 & (0x80u8 >> k) == 0) by (bit_vector);
}

/// A pixel column inside a row of `w` pixels lies inside its `stride_of(w)` bytes.
proof fn lemma_column_in_stride(x: int, w: int)
    requires
        0 <= x < w,
    ensures
        x / 8 < stride_of(w as nat),
        x < 8 * stride_of(w as nat),
{
}

/// Byte `a` of row `y` lies inside the buffer of `h` rows of `s` bytes.
pub(crate) proof fn lemma_byte_index_bound(s: int, h: int, y: int, a: int)
    requires
        0 <= y < h,
        0 <= a < s,
    ensures
        0 <= y * s + a < s * h,
{
    assert(0 <= y * s + a < s * h) by (nonlinear_arith)
        requires
            0 <= y < h,
            0 <= a < s,
    ;
}

/// Two (row, byte) positions with bytes inside the row meet only when equal.
proof fn lemma_byte_index_unique(s: int, y1: int, a1: int, y2: int, a2: int)
    requires
        0 <= y1,
        0 <= y2,
        0 <= a1 < s,
        0 <= a2 < s,
        y1 * s + a1 == y2 * s + a2,
    ensures
        y1 == y2,
        a1 == a2,
{
    if y1 < y2 {
        assert(y1 * s + a1 < y2 * s + a2) by (nonlinear_arith)
            requires
                y1 < y2,
                0 <= a1 < s,
                0 <= a2,
        ;
    } else if y2 < y1 {
        assert(y2 * s + a2 < y1 * s + a1) by (nonlinear_arith)
            requires
                y2 < y1,
                0 <= a2 < s,
                0 <= a1,
        ;
    }
}

proof fn lemma_byte_from_bits(a: u8, b: u8)
    requires
        forall|j: u8| j < 8 ==> #[trigger] bit_at(a, j) == bit_at(b, j),
    ensures
        a == b,
{
    assert(bit_at(a, 0) == bit_at(b, 0));
    assert(bit_at(a, 1) == bit_at(b, 1));
    assert(bit_at(a, 2) == bit_at(b, 2));
    assert(bit_at(a, 3) == bit_at(b, 3));
    assert(bit_at(a, 4) == bit_at(b, 4));
    assert(bit_at(a, 5) == bit_at(b, 5));
    assert(bit_at(a, 6) == bit_at(b, 6));
    assert(bit_at(a, 7) == bit_at(b, 7));
    assert(a == b) by (bit_vector)
        requires
            bit_at(a, 0u8) == bit_at(b, 0u8),
            bit_at(a, 1u8) == bit_at(b, 1u8),
            bit_at(a, 2u8) == bit_at(b, 2u8),
            bit_at(a, 3u8) == bit_at(b, 3u8),
            bit_at(a, 4u8) == bit_at(b, 4u8),
            bit_at(a, 5u8) == bit_at(b, 5u8),
            bit_at(a, 6u8) == bit_at(b, 6u8),
            bit_at(a, 7u8) == bit_at(b, 7u8),
    ;
}

/// Byte `i` of a buffer of rows of `s` bytes is byte `i % s` of row `i / s`.
proof fn lemma_byte_position(i: int, s: int, h: int)
    requires
        0 <= i < s * h,
        s > 0,
    ensures
        i == (i / s) * s + i % s,
        0 <= i % s < s,
        0 <= i / s < h,
{
    vstd::arithmetic::div_mod::lemma_fundamental_div_mod(i, s);
    vstd::arithmetic::mul::lemma_mul_is_commutative(s, i / s);
    let y = i / s;
    let c = i % s;
    if y >= h {
        assert(y * s + c >= s * h) by (nonlinear_arith)
            requires
                y >= h,
                s > 0,
                c >= 0,
        ;
    }
    if y < 0 {
        assert(y * s + c < 0) by (nonlinear_arith)
            requires
                y < 0,
                s > 0,
                c < s,
        ;
    }
}

impl BitImage {
    /// Width in pixels.
    pub closed spec fn spec_width(&self) -> nat {
        self.width as nat
    }

    /// Height in pixels.
    pub closed spec fn spec_height(&self) -> nat {
        self.height as nat
    }

    /// Bytes per row.
    pub closed spec fn spec_stride(&self) -> nat {
        self.w_bytes as nat
    }

    /// The packed buffer.
    pub closed spec fn spec_bytes(&self) -> Seq<u8> {
        self.bytes@
    }

    /// Index of the byte that holds pixel `(x, y)`.
    pub open spec fn byte_index(&self, x: int, y: int) -> int {
        y * self.spec_stride() + x / 8
    }

    /// Whether the dot at `(x, y)` (padding included) is set.
    pub open spec fn pixel(&self, x: int, y: int) -> bool {
        bit_at(self.spec_bytes()[self.byte_index(x, y)], (x % 8) as u8)
    }

    /// Whether `(x, y)` addresses a pixel of the canvas.
    pub open spec fn in_bounds(&self, x: int, y: int) -> bool {
        0 <= x < self.spec_width() && 0 <= y < self.spec_height()
    }

    /// The stride is `ceil(width / 8)`, the buffer holds exactly
    /// `stride * height` bytes, and the padding bits at the end of each row
    /// are clear.
    pub open spec fn wf(&self) -> bool {
        &&& self.spec_stride() == stride_of(self.spec_width())
        &&& self.spec_bytes().len() == self.spec_stride() * self.spec_height()
        &&& self.spec_stride() * self.spec_height() <= usize::MAX
        &&& forall|x: int, y: int|
            #![trigger self.pixel(x, y)]
            self.spec_width() <= x < 8 * self.spec_stride() && 0 <= y < self.spec_height()
                ==> !self.pixel(x, y)
    }

    /// A blank canvas of `w` by `h` pixels.
    pub fn new(w: usize, h: usize) -> (r: BitImage)
        requires
            stride_of(w as nat) * h <= usize::MAX,
        ensures
            r.wf(),
            r.spec_width() == w,
            r.spec_height() == h,
            r.spec_bytes() == Seq::new(stride_of(w as nat) * (h as nat), |i: int| 0u8),
            forall|x: int, y: int| #![trigger r.pixel(x, y)] r.in_bounds(x, y) ==> !r.pixel(x, y),
    {
        let w_bytes: usize = if w % 8 == 0 { w / 8 } else { w / 8 + 1 };
        let len: usize = w_bytes * h;
        let mut bytes: Vec<u8> = Vec::with_capacity(len);
        let mut i: usize = 0;
        while i < len
            invariant
                i <= len,
                bytes@ == Seq::new(i as nat, |k: int| 0u8),
            decreases len - i,
        {
            bytes.push(0u8);
            i = i + 1;
            assert(bytes@ =~= Seq::new(i as nat, |k: int| 0u8));
        }
        let r = BitImage { bytes, width: w, height: h, w_bytes };
        assert forall|x: int, y: int|
            0 <= x < 8 * r.spec_stride() && 0 <= y < r.spec_height() implies !#[trigger] r.pixel(x, y)
        by {
            lemma_byte_index_bound(w_bytes as int, h as int, y, x / 8);
            lemma_zero_has_no_bits((x % 8) as u8);
        }
        r
    }

    pub fn get_width(&self) -> (r: usize)
        ensures
            r == self.spec_width(),
    {
        self.width
    }

    pub fn get_height(&self) -> (r: usize)
        ensures
            r == self.spec_height(),
    {
        self.height
    }

    /// Bytes per row, `ceil(width / 8)`.
    pub fn get_width_in_bytes(&self) -> (r: usize)
        ensures
            r == self.spec_stride(),
    {
        self.w_bytes
    }

    /// Whether `(x, y)` addresses a pixel of the canvas.
    pub fn is_within_bounds(&self, x: isize, y: isize) -> (r: bool)
        ensures
            r == self.in_bounds(x as int, y as int),
    {
        0 <= x && (x as usize) < self.width && 0 <= y && (y as usize) < self.height
    }

    /// The dot at `(x, y)`, or a `BoundsError` outside the canvas.
    pub fn get_pixel(&self, x: isize, y: isize) -> (r: Result<bool, BoundsError>)
        requires
            self.wf(),
        ensures
            self.in_bounds(x as int, y as int) ==> r == Ok::<bool, BoundsError>(
                self.pixel(x as int, y as int),
            ),
            !self.in_bounds(x as int, y as int) ==> r == Err::<bool, BoundsError>(
                BoundsError { x, y },
            ),
    {
        if !self.is_within_bounds(x, y) {
            return Err(BoundsError { x, y });
        }
        let xu = x as usize;
        let yu = y as usize;
        proof {
            lemma_column_in_stride(xu as int, self.width as int);
            lemma_byte_index_bound(self.w_bytes as int, self.height as int, yu as int, xu as int / 8);
        }
        let mask: u8 = 0x80u8 >> ((xu % 8) as u8);
        let byte = self.bytes[yu * self.w_bytes + xu / 8];
        Ok(byte & mask != 0)
    }

    /// Sets the dot at `(x, y)`, which lies inside the canvas, to `val`.
    pub(crate) fn set(&mut self, x: usize, y: usize, val: bool)
        requires
            old(self).wf(),
            old(self).in_bounds(x as int, y as int),
        ensures
            final(self).wf(),
            final(self).spec_width() == old(self).spec_width(),
            final(self).spec_height() == old(self).spec_height(),
            final(self).pixel(x as int, y as int) == val,
            forall|i: int, j: int|
                #![trigger final(self).pixel(i, j)]
                old(self).in_bounds(i, j) && (i != x || j != y) ==> final(self).pixel(i, j)
                    == old(self).pixel(i, j),
    {
        let s = self.w_bytes;
        proof {
            lemma_column_in_stride(x as int, self.width as int);
            lemma_byte_index_bound(s as int, self.height as int, y as int, x as int / 8);
        }
        let k: u8 = (x % 8) as u8;
        let mask: u8 = 0x80u8 >> k;
        let idx: usize = y * s + x / 8;
        let old_byte: u8 = self.bytes[idx];
        let new_byte: u8 = if val {
            old_byte | mask
        } else {
            old_byte & !mask
        };
        self.bytes.set(idx, new_byte);
        proof {
            assert forall|i: int, j: int|
                0 <= i < 8 * self.spec_stride() && 0 <= j < self.spec_height() implies
                #[trigger] self.pixel(i, j) == if i == x && j == y {
                    val
                } else {
                    old(self).pixel(i, j)
                } by {
                lemma_byte_index_bound(s as int, self.height as int, j, i / 8);
                if j * s + i / 8 == idx {
                    lemma_byte_index_unique(s as int, j, i / 8, y as int, x as int / 8);
                    if val {
                        lemma_bit_or(old_byte, k, (i % 8) as u8);
                    } else {
                        lemma_bit_clear(old_byte, k, (i % 8) as u8);
                    }
                }
            }
            assert forall|i: int, j: int| old(self).in_bounds(i, j) implies i < 8 * self.spec_stride() by {
                lemma_column_in_stride(i, self.width as int);
            }
        }
    }

    /// Sets the dot at `(x, y)` to `val`, or returns a `BoundsError` and
    /// leaves the canvas as it was.
    pub fn set_pixel(&mut self, x: isize, y: isize, val: bool) -> (r: Result<(), BoundsError>)
        requires
            old(self).wf(),
        ensures
            final(self).wf(),
            final(self).spec_width() == old(self).spec_width(),
            final(self).spec_height() == old(self).spec_height(),
            old(self).in_bounds(x as int, y as int) ==> r == Ok::<(), BoundsError>(()),
            old(self).in_bounds(x as int, y as int) ==> final(self).pixel(x as int, y as int) == val,
            old(self).in_bounds(x as int, y as int) ==> forall|i: int, j: int|
                #![trigger final(self).pixel(i, j)]
                old(self).in_bounds(i, j) && (i != x || j != y) ==> final(self).pixel(i, j)
                    == old(self).pixel(i, j),
            !old(self).in_bounds(x as int, y as int) ==> r == Err::<(), BoundsError>(
                BoundsError { x, y },
            ),
            !old(self).in_bounds(x as int, y as int) ==> *final(self) == *old(self),
    {
        if !self.is_within_bounds(x, y) {
            return Err(BoundsError { x, y });
        }
        self.set(x as usize, y as usize, val);
        Ok(())
    }

    /// The 8 dots that byte `i` of a well-formed canvas holds are its pixels
    /// `(8 * (i % stride) + j, i / stride)`.
    proof fn lemma_byte_dots(&self, i: int, j: u8)
        requires
            self.wf(),
            0 <= i < self.spec_bytes().len(),
            j < 8,
        ensures
            self.spec_stride() > 0,
            ({
                let s = self.spec_stride() as int;
                let x = 8 * (i % s) + j;
                let y = i / s;
                &&& 0 <= x < 8 * s
                &&& 0 <= y < self.spec_height()
                &&& self.byte_index(x, y) == i
                &&& x % 8 == j
                &&& self.pixel(x, y) == bit_at(self.spec_bytes()[i], j)
            }),
    {
        let s = self.spec_stride() as int;
        let h = self.spec_height() as int;
        if s == 0 {
            assert(s * h == 0);
        }
        lemma_byte_position(i, s, h);
        let c = i % s;
        let x = 8 * c + j;
        assert(x / 8 == c && x % 8 == j);
    }

    /// Two well-formed canvases of one size whose pixels agree hold the same
    /// bytes.
    pub proof fn lemma_same_pixels_same_bytes(a: BitImage, b: BitImage)
        requires
            a.wf(),
            b.wf(),
            a.spec_width() == b.spec_width(),
            a.spec_height() == b.spec_height(),
            forall|x: int, y: int| #![trigger a.pixel(x, y), b.pixel(x, y)]
                a.in_bounds(x, y) ==> a.pixel(x, y) == b.pixel(x, y),
        ensures
            a.spec_bytes() == b.spec_bytes(),
    {
        assert forall|i: int| 0 <= i < a.spec_bytes().len() implies a.spec_bytes()[i] == b.spec_bytes()[i] by {
            assert forall|j: u8| j < 8 implies #[trigger] bit_at(a.spec_bytes()[i], j) == bit_at(b.spec_bytes()[i], j) by {
                a.lemma_byte_dots(i, j);
                b.lemma_byte_dots(i, j);
                let s = a.spec_stride() as int;
                let x = 8 * (i % s) + j;
                let y = i / s;
                assert(a.pixel(x, y) == b.pixel(x, y));
            }
            lemma_byte_from_bits(a.spec_bytes()[i], b.spec_bytes()[i]);
        }
        assert(a.spec_bytes() =~= b.spec_bytes());
    }

    /// A well-formed canvas with no pixel set holds only zero bytes.
    pub proof fn lemma_blank_bytes(c: BitImage)
        requires
            c.wf(),
            forall|x: int, y: int| #![trigger c.pixel(x, y)] c.in_bounds(x, y) ==> !c.pixel(x, y),
        ensures
            forall|i: int| 0 <= i < c.spec_bytes().len() ==> c.spec_bytes()[i] == 0,
    {
        assert forall|i: int| 0 <= i < c.spec_bytes().len() implies c.spec_bytes()[i] == 0 by {
            assert forall|j: u8| j < 8 implies #[trigger] bit_at(c.spec_bytes()[i], j) == bit_at(0u8, j) by {
                c.lemma_byte_dots(i, j);
                lemma_zero_has_no_bits(j);
                let s = c.spec_stride() as int;
                let x = 8 * (i % s) + j;
                let y = i / s;
                assert(!c.pixel(x, y));
            }
            lemma_byte_from_bits(c.spec_bytes()[i], 0u8);
        }
    }

    /// The packed rows, `stride * height` bytes.
    pub fn as_slice(&self) -> (r: &[u8])
        ensures
            r@ == self.spec_bytes(),
    {
        self.bytes.as_slice()
    }
}

} // verus!
