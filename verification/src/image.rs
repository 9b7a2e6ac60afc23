//! The image rendering core: the 1-bit raster of the maze (walls black on
//! a one-pixel grid skeleton, passages white), integer upscaling, and the
//! packing of pixels into byte-aligned scanlines. Encoding the packed
//! rows as a PNG byte stream is delegated to the png crate; writing the
//! bytes anywhere is left to the caller.

use vstd::arithmetic::div_mod::lemma_fundamental_div_mod;
use vstd::arithmetic::div_mod::lemma_fundamental_div_mod_converse;
use vstd::arithmetic::div_mod::lemma_mod_bound;
use vstd::arithmetic::div_mod::lemma_multiply_divide_le;
use vstd::arithmetic::div_mod::lemma_multiply_divide_lt;
use vstd::prelude::*;

use crate::maze::lemma_row_major_bound;
use crate::maze::Maze;

verus! {

/// Bit `j` of a byte, most significant first.
pub open spec fn bit_of(b: u8, j: int) -> bool {
    (b >> ((7 - j) as u8)) & 1u8 == 1u8
}

/// Setting one bit keeps every other bit.
proof fn lemma_or_bit(b1: u8, bw: u8)
    requires
        bw < 8,
    ensures
        bit_of(b1 | (1u8 << ((7 - bw) as u8)), bw as int),
        forall|j: int|
            0 <= j < 8 && j != bw ==> #[trigger] bit_of(b1 | (1u8 << ((7 - bw) as u8)), j)
                == bit_of(b1, j),
{
    let b2 = b1 | (1u8 << ((7 - bw) as u8));
    assert((b2 >> ((7 - bw) as u8)) & 1u8 == 1u8) by (bit_vector)
        requires
            b2 == b1 | (1u8 << ((7 - bw) as u8)),
            bw < 8,
    ;
    assert forall|j: int| 0 <= j < 8 && j != bw implies #[trigger] bit_of(b2, j) == bit_of(
        b1,
        j,
    ) by {
        let ju = (7 - j) as u8;
        assert((b2 >> ju) & 1u8 == (b1 >> ju) & 1u8) by (bit_vector)
            requires
                b2 == b1 | (1u8 << ((7 - bw) as u8)),
                bw < 8,
                ju < 8,
                ju != 7 - bw,
        ;
    }
}

/// Every bit of zero is clear.
proof fn lemma_zero_bits()
    ensures
        forall|j: int| 0 <= j < 8 ==> !#[trigger] bit_of(0u8, j),
{
    assert forall|j: int| 0 <= j < 8 implies !#[trigger] bit_of(0u8, j) by {
        let ju = (7 - j) as u8;
        assert((0u8 >> ju) & 1u8 == 0u8) by (bit_vector);
    }
}

/// Two bytes with the same eight bits are the same byte.
proof fn lemma_u8_bits_eq(a: u8, b: u8)
    requires
        forall|j: int| 0 <= j < 8 ==> #[trigger] bit_of(a, j) == bit_of(b, j),
    ensures
        a == b,
{
    assert(bit_of(a, 0) == bit_of(b, 0));
    assert(bit_of(a, 1) == bit_of(b, 1));
    assert(bit_of(a, 2) == bit_of(b, 2));
    assert(bit_of(a, 3) == bit_of(b, 3));
    assert(bit_of(a, 4) == bit_of(b, 4));
    assert(bit_of(a, 5) == bit_of(b, 5));
    assert(bit_of(a, 6) == bit_of(b, 6));
    assert(bit_of(a, 7) == bit_of(b, 7));
    assert(a == b) by (bit_vector)
        requires
            ((a >> 7u8) & 1u8 == 1u8) == ((b >> 7u8) & 1u8 == 1u8),
            ((a >> 6u8) & 1u8 == 1u8) == ((b >> 6u8) & 1u8 == 1u8),
            ((a >> 5u8) & 1u8 == 1u8) == ((b >> 5u8) & 1u8 == 1u8),
            ((a >> 4u8) & 1u8 == 1u8) == ((b >> 4u8) & 1u8 == 1u8),
            ((a >> 3u8) & 1u8 == 1u8) == ((b >> 3u8) & 1u8 == 1u8),
            ((a >> 2u8) & 1u8 == 1u8) == ((b >> 2u8) & 1u8 == 1u8),
            ((a >> 1u8) & 1u8 == 1u8) == ((b >> 1u8) & 1u8 == 1u8),
            ((a >> 0u8) & 1u8 == 1u8) == ((b >> 0u8) & 1u8 == 1u8),
    ;
}

/// Packs bits into bytes, most significant bit first; a partly filled
/// byte is flushed with clear bits so scanlines stay byte-aligned.
pub struct BitWriter {
    pub(crate) out: Vec<u8>,
    pub(crate) buffer: u8,
    pub(crate) bits_written: u8,
}

impl BitWriter {
    pub open(crate) spec fn bytes(&self) -> Seq<u8> {
        self.out@
    }

    pub open(crate) spec fn buf(&self) -> u8 {
        self.buffer
    }

    pub open(crate) spec fn pending(&self) -> int {
        self.bits_written as int
    }

    pub open(crate) spec fn wf(&self) -> bool {
        &&& self.bits_written < 8
        &&& forall|j: int| self.pending() <= j < 8 ==> !#[trigger] bit_of(self.buf(), j)
    }

    pub fn new() -> (w: BitWriter)
        ensures
            w.wf(),
            w.bytes() == Seq::<u8>::empty(),
            w.pending() == 0,
    {
        proof {
            lemma_zero_bits();
        }
        BitWriter { out: Vec::new(), buffer: 0, bits_written: 0 }
    }

    /// Appends one bit; a completed byte moves to the output.
    pub fn write_bool(&mut self, value: bool)
        requires
            old(self).wf(),
        ensures
            final(self).wf(),
            old(self).pending() < 7 ==> {
                &&& final(self).bytes() == old(self).bytes()
                &&& final(self).pending() == old(self).pending() + 1
                &&& forall|j: int|
                    0 <= j < old(self).pending() ==> #[trigger] bit_of(final(self).buf(), j)
                        == bit_of(old(self).buf(), j)
                &&& bit_of(final(self).buf(), old(self).pending()) == value
            },
            old(self).pending() == 7 ==> {
                &&& final(self).pending() == 0
                &&& final(self).bytes().len() == old(self).bytes().len() + 1
                &&& final(self).bytes().drop_last() == old(self).bytes()
                &&& forall|j: int|
                    0 <= j < 7 ==> #[trigger] bit_of(final(self).bytes().last(), j) == bit_of(
                        old(self).buf(),
                        j,
                    )
                &&& bit_of(final(self).bytes().last(), 7) == value
            },
    {
        let ghost b0 = self.buffer;
        let ghost p0 = self.pending();
        if value {
            self.buffer = self.buffer | (1u8 << (7 - self.bits_written));
            proof {
                lemma_or_bit(b0, p0 as u8);
                assert(bit_of(self.buf(), p0));
            }
        }
        proof {
            assert forall|j: int| 0 <= j < 8 && j != p0 implies #[trigger] bit_of(self.buf(), j)
                == bit_of(b0, j) by {}
            assert(old(self).wf());
            assert(b0 == old(self).buf() && p0 == old(self).pending());
            assert forall|j: int| p0 + 1 <= j < 8 implies !#[trigger] bit_of(self.buf(), j) by {
                assert(!bit_of(old(self).buf(), j));
            }
            if !value {
                assert(!bit_of(old(self).buf(), p0));
                assert(bit_of(self.buf(), p0) == false);
            }
        }
        let ghost bfull = self.buffer;
        self.bits_written = self.bits_written + 1;
        if self.bits_written == 8 {
            self.out.push(self.buffer);
            self.buffer = 0;
            self.bits_written = 0;
            proof {
                lemma_zero_bits();
                assert(self.bytes().drop_last() =~= old(self).bytes());
                assert(self.bytes().last() == bfull);
            }
        }
    }

    /// Flushes a partly filled byte, padding with clear bits, so each
    /// scanline starts on a byte boundary.
    pub fn flush(&mut self)
        requires
            old(self).wf(),
        ensures
            final(self).wf(),
            final(self).pending() == 0,
            old(self).pending() == 0 ==> final(self).bytes() == old(self).bytes(),
            old(self).pending() > 0 ==> final(self).bytes() == old(self).bytes().push(
                old(self).buf(),
            ),
    {
        if self.bits_written > 0 {
            self.out.push(self.buffer);
            self.buffer = 0;
            self.bits_written = 0;
            proof {
                lemma_zero_bits();
            }
        }
    }

    /// Hands out the packed bytes.
    pub fn into_bytes(self) -> (r: Vec<u8>)
        ensures
            r@ == self.bytes(),
    {
        self.out
    }
}

/// Packs a row of pixel bits into byte-aligned form: bit `j` of byte `i`
/// is pixel `8 * i + j`, and bits past the row's end are clear.
pub fn pack_bits(bits: &Vec<bool>) -> (r: Vec<u8>)
    ensures
        r@.len() == (bits@.len() + 7) / 8,
        forall|i: int, j: int|
            0 <= i < r@.len() && 0 <= j < 8 && 8 * i + j < bits@.len() ==> #[trigger] bit_of(r@[i], j) == bits@[8 * i + j],
        forall|i: int, j: int|
            0 <= i < r@.len() && 0 <= j < 8 && 8 * i + j >= bits@.len() ==> !#[trigger] bit_of(r@[i], j),
{
    let mut wtr = BitWriter::new();
    let mut k: usize = 0;
    while k < bits.len()
        invariant
            wtr.wf(),
            k <= bits@.len(),
            k == 8 * wtr.bytes().len() + wtr.pending(),
            forall|i: int, j: int|
                0 <= i < wtr.bytes().len() && 0 <= j < 8 ==> #[trigger] bit_of(wtr.bytes()[i], j)
                    == bits@[8 * i + j],
            forall|j: int|
                0 <= j < wtr.pending() ==> #[trigger] bit_of(wtr.buf(), j) == bits@[8 * wtr.bytes().len()
                    + j],
        decreases bits@.len() - k,
    {
        let ghost w0 = wtr;
        wtr.write_bool(bits[k]);
        proof {
            if w0.pending() == 7 {
                assert forall|i: int, j: int|
                    0 <= i < wtr.bytes().len() && 0 <= j < 8 implies #[trigger] bit_of(
                    wtr.bytes()[i],
                    j,
                ) == bits@[8 * i + j] by {
                    if i < w0.bytes().len() {
                        assert(wtr.bytes()[i] == w0.bytes()[i]);
                    } else {
                        assert(wtr.bytes()[i] == wtr.bytes().last());
                    }
                }
            }
        }
        k = k + 1;
    }
    let ghost wmid = wtr;
    wtr.flush();
    proof {
        if wmid.pending() > 0 {
            assert forall|i: int, j: int|
                0 <= i < wtr.bytes().len() && 0 <= j < 8 && 8 * i + j < bits@.len() implies #[trigger] bit_of(
                wtr.bytes()[i],
                j,
            ) == bits@[8 * i + j] by {
                if i < wmid.bytes().len() {
                    assert(wtr.bytes()[i] == wmid.bytes()[i]);
                } else {
                    assert(wtr.bytes()[i] == wmid.buf());
                }
            }
            assert forall|i: int, j: int|
                0 <= i < wtr.bytes().len() && 0 <= j < 8 && 8 * i + j >= bits@.len() implies !#[trigger] bit_of(
                wtr.bytes()[i],
                j,
            ) by {
                assert(i == wtr.bytes().len() - 1);
                assert(wtr.bytes()[i] == wmid.buf());
                assert(j >= wmid.pending());
            }
            lemma_fundamental_div_mod_converse(
                bits@.len() as int + 7,
                8,
                wmid.bytes().len() as int + 1,
                wmid.pending() - 1,
            );
        } else {
            lemma_fundamental_div_mod_converse(bits@.len() as int + 7, 8, wmid.bytes().len() as int, 7);
        }
    }
    wtr.into_bytes()
}

/// Larger of two integers.
pub open spec fn spec_max(a: int, b: int) -> int {
    if a >= b {
        a
    } else {
        b
    }
}

pub open spec fn bit_as_u8(b: bool) -> u8 {
    if b {
        1u8
    } else {
        0u8
    }
}

/// A byte assembled from eight 0-or-1 values exposes them as its bits.
proof fn lemma_byte_from_bits(c0: u8, c1: u8, c2: u8, c3: u8, c4: u8, c5: u8, c6: u8, c7: u8)
    requires
        c0 <= 1,
        c1 <= 1,
        c2 <= 1,
        c3 <= 1,
        c4 <= 1,
        c5 <= 1,
        c6 <= 1,
        c7 <= 1,
    ensures
        ({
            let b = (c0 << 7u8) | (c1 << 6u8) | (c2 << 5u8) | (c3 << 4u8) | (c4 << 3u8) | (c5
                << 2u8) | (c6 << 1u8) | c7;
            &&& bit_of(b, 0) == (c0 == 1)
            &&& bit_of(b, 1) == (c1 == 1)
            &&& bit_of(b, 2) == (c2 == 1)
            &&& bit_of(b, 3) == (c3 == 1)
            &&& bit_of(b, 4) == (c4 == 1)
            &&& bit_of(b, 5) == (c5 == 1)
            &&& bit_of(b, 6) == (c6 == 1)
            &&& bit_of(b, 7) == (c7 == 1)
        }),
{
    let b = (c0 << 7u8) | (c1 << 6u8) | (c2 << 5u8) | (c3 << 4u8) | (c4 << 3u8) | (c5 << 2u8) | (c6
        << 1u8) | c7;
    assert(((b >> 7u8) & 1u8 == 1u8) == (c0 == 1) && ((b >> 6u8) & 1u8 == 1u8) == (c1 == 1) && ((b
        >> 5u8) & 1u8 == 1u8) == (c2 == 1) && ((b >> 4u8) & 1u8 == 1u8) == (c3 == 1) && ((b >> 3u8)
        & 1u8 == 1u8) == (c4 == 1) && ((b >> 2u8) & 1u8 == 1u8) == (c5 == 1) && ((b >> 1u8) & 1u8
        == 1u8) == (c6 == 1) && ((b >> 0u8) & 1u8 == 1u8) == (c7 == 1)) by (bit_vector)
        requires
            b == (c0 << 7u8) | (c1 << 6u8) | (c2 << 5u8) | (c3 << 4u8) | (c4 << 3u8) | (c5 << 2u8)
                | (c6 << 1u8) | c7,
            c0 <= 1,
            c1 <= 1,
            c2 <= 1,
            c3 <= 1,
            c4 <= 1,
            c5 <= 1,
            c6 <= 1,
            c7 <= 1,
    ;
}

/// The clamped upscale never pushes a dimension past the larger of the
/// unscaled dimension and the target size.
proof fn lemma_scale_fits(uw: int, uh: int, t: int)
    requires
        1 <= uw,
        1 <= uh,
        0 <= t,
    ensures
        spec_max(1, t / spec_max(uw, uh)) >= 1,
        uw * spec_max(1, t / spec_max(uw, uh)) <= spec_max(uw, t),
        uh * spec_max(1, t / spec_max(uw, uh)) <= spec_max(uh, t),
{
    let m = spec_max(uw, uh);
    let q = t / m;
    lemma_fundamental_div_mod(t, m);
    lemma_mod_bound(t, m);
    if q >= 1 {
        assert(uw * q <= t && uh * q <= t) by (nonlinear_arith)
            requires
                t == m * q + (t % m),
                0 <= t % m,
                uw <= m,
                uh <= m,
                q >= 1,
        ;
    } else {
        assert(uw * 1 == uw && uh * 1 == uh) by (nonlinear_arith);
    }
}

impl Maze {
    pub open(crate) spec fn unscaled_width(&self) -> int {
        2 * self.spec_width() + 1
    }

    pub open(crate) spec fn unscaled_height(&self) -> int {
        2 * self.spec_height() + 1
    }

    /// The integer upscale factor: the target size divided by the larger
    /// unscaled dimension, clamped to at least 1.
    pub open(crate) spec fn image_scale_spec(&self, t: int) -> int {
        spec_max(1, t / spec_max(self.unscaled_width(), self.unscaled_height()))
    }

    pub open(crate) spec fn out_width(&self, t: int) -> int {
        self.unscaled_width() * self.image_scale_spec(t)
    }

    pub open(crate) spec fn out_height(&self, t: int) -> int {
        self.unscaled_height() * self.image_scale_spec(t)
    }

    /// Bytes per packed scanline: one bit per pixel, rows byte-aligned.
    pub open(crate) spec fn row_bytes(&self, t: int) -> int {
        (self.out_width(t) + 7) / 8
    }

    /// Whether unscaled pixel `(ux, uy)` is white (a passage): odd-odd
    /// pixels are cell interiors, even-even pixels are the grid posts, and
    /// the rest show whether the wall slot they lie on is carved.
    pub open(crate) spec fn pixel_white(&self, ux: int, uy: int) -> bool {
        if ux % 2 == 1 && uy % 2 == 1 {
            true
        } else if ux % 2 == 0 && uy % 2 == 0 {
            false
        } else if uy % 2 == 0 {
            !self.hw()[(uy / 2) * self.spec_width() + ux / 2]
        } else {
            !self.vw()[(uy / 2) * (self.spec_width() + 1) + ux / 2]
        }
    }

    pub open(crate) spec fn scaled_pixel_white(&self, t: int, px: int, py: int) -> bool {
        self.pixel_white(px / self.image_scale_spec(t), py / self.image_scale_spec(t))
    }

    /// Bit `j` of byte `i` of scanline `py` of the packed image: the
    /// scaled pixel there, or clear past the row's end.
    pub open(crate) spec fn image_bit(&self, t: int, py: int, i: int, j: int) -> bool {
        8 * i + j < self.out_width(t) && self.scaled_pixel_white(t, 8 * i + j, py)
    }

    /// Byte `n` of the packed image data.
    pub open(crate) spec fn image_byte(&self, t: int, n: int) -> u8 {
        let py = n / self.row_bytes(t);
        let i = n % self.row_bytes(t);
        (bit_as_u8(self.image_bit(t, py, i, 0)) << 7u8) | (bit_as_u8(self.image_bit(t, py, i, 1))
            << 6u8) | (bit_as_u8(self.image_bit(t, py, i, 2)) << 5u8) | (bit_as_u8(
            self.image_bit(t, py, i, 3),
        ) << 4u8) | (bit_as_u8(self.image_bit(t, py, i, 4)) << 3u8) | (bit_as_u8(
            self.image_bit(t, py, i, 5),
        ) << 2u8) | (bit_as_u8(self.image_bit(t, py, i, 6)) << 1u8) | bit_as_u8(
            self.image_bit(t, py, i, 7),
        )
    }

    /// The whole packed image, scanline after scanline.
    pub open(crate) spec fn image_seq(&self, t: int) -> Seq<u8> {
        Seq::new((self.out_height(t) * self.row_bytes(t)) as nat, |n: int| self.image_byte(t, n))
    }

    proof fn lemma_dims(&self)
        requires
            self.wf(),
        ensures
            self.unscaled_width() <= 0x4000_0000,
            self.unscaled_height() <= 0x4000_0000,
    {
        assert(2 * self.spec_width() + 1 <= 0x4000_0000 && 2 * self.spec_height() + 1
            <= 0x4000_0000) by (nonlinear_arith)
            requires
                1 <= self.spec_width(),
                1 <= self.spec_height(),
                (self.spec_width() + 1) * (self.spec_height() + 1) <= 0x4000_0000,
        ;
    }

    /// The integer upscale factor chosen for a target image size.
    pub fn image_scale(&self, target_image_size: u32) -> (s: u32)
        requires
            self.wf(),
        ensures
            s as int == self.image_scale_spec(target_image_size as int),
            s >= 1,
    {
        proof {
            self.lemma_dims();
        }
        let uw = 2 * self.get_width() + 1;
        let uh = 2 * self.get_height() + 1;
        let m = if uw >= uh {
            uw
        } else {
            uh
        };
        let s = target_image_size / m;
        if s == 0 {
            1
        } else {
            s
        }
    }

    /// The final image dimensions for a target size.
    pub fn image_dims(&self, target_image_size: u32) -> (d: (u32, u32))
        requires
            self.wf(),
        ensures
            d.0 as int == self.out_width(target_image_size as int),
            d.1 as int == self.out_height(target_image_size as int),
            d.0 >= 1,
            d.1 >= 1,
    {
        proof {
            self.lemma_dims();
            lemma_scale_fits(
                self.unscaled_width(),
                self.unscaled_height(),
                target_image_size as int,
            );
        }
        let scale = self.image_scale(target_image_size);
        let w = (2 * self.get_width() + 1) * scale;
        let h = (2 * self.get_height() + 1) * scale;
        proof {
            assert(w >= 1 && h >= 1) by (nonlinear_arith)
                requires
                    w == self.unscaled_width() * self.image_scale_spec(target_image_size as int),
                    h == self.unscaled_height() * self.image_scale_spec(target_image_size as int),
                    self.unscaled_width() >= 1,
                    self.unscaled_height() >= 1,
                    self.image_scale_spec(target_image_size as int) >= 1,
            ;
        }
        (w, h)
    }

    /// Whether unscaled pixel `(ux, uy)` is white.
    pub fn pixel_is_white(&self, ux: u32, uy: u32) -> (r: bool)
        requires
            self.wf(),
            ux <= 2 * self.spec_width(),
            uy <= 2 * self.spec_height(),
        ensures
            r == self.pixel_white(ux as int, uy as int),
    {
        proof {
            self.lemma_dims();
            assert(self.spec_width() * (self.spec_height() + 1) <= 0x4000_0000 && (self.spec_width()
                + 1) * self.spec_height() <= 0x4000_0000) by (nonlinear_arith)
                requires
                    1 <= self.spec_width(),
                    1 <= self.spec_height(),
                    (self.spec_width() + 1) * (self.spec_height() + 1) <= 0x4000_0000,
            ;
        }
        if ux % 2 == 1 && uy % 2 == 1 {
            true
        } else if ux % 2 == 0 && uy % 2 == 0 {
            false
        } else if uy % 2 == 0 {
            proof {
                lemma_multiply_divide_le(uy as int, 2, self.spec_height());
                lemma_multiply_divide_lt(ux as int, 2, self.spec_width());
                lemma_row_major_bound(
                    uy as int / 2,
                    ux as int / 2,
                    self.spec_height() + 1,
                    self.spec_width(),
                );
            }
            !self.horizontal_walls[((uy / 2) * self.get_width() + ux / 2) as usize]
        } else {
            proof {
                lemma_multiply_divide_le(ux as int, 2, self.spec_width());
                lemma_multiply_divide_lt(uy as int, 2, self.spec_height());
                lemma_row_major_bound(
                    uy as int / 2,
                    ux as int / 2,
                    self.spec_height(),
                    self.spec_width() + 1,
                );
            }
            !self.vertical_walls[((uy / 2) * (self.get_width() + 1) + ux / 2) as usize]
        }
    }
}

/// What the png crate produces for a 1-bit grayscale image of the given
/// dimensions from packed scanlines: a function of the inputs alone.
pub uninterp spec fn png_gray1_of(width: int, height: int, data: Seq<u8>) -> Seq<u8>;

#[verifier::external_type_specification]
#[verifier::external_body]
pub struct ExEncodingError(png::EncodingError);

/// The library's error for a failed image encode.
pub struct EncodeError;

/// Relies on png::Encoder with ColorType::Grayscale and BitDepth::One,
/// writing into an in-memory buffer. Its only error paths are zero
/// dimensions, an invalid colour/depth pair (grayscale at depth one is
/// valid), a data length other than `height` byte-aligned one-bit rows,
/// and writer I/O failures, which an in-memory buffer never produces; so
/// on the admitted inputs it returns the PNG byte stream determined by
/// the dimensions and the packed scanlines.
#[verifier::external_body]
fn encode_png_gray1(width: u32, height: u32, data: &Vec<u8>) -> (r: Result<
    Vec<u8>,
    png::EncodingError,
>)
    requires
        width >= 1,
        height >= 1,
        data@.len() == height * ((width + 7) / 8),
    ensures
        r is Ok,
        r matches Ok(v) ==> v@ == png_gray1_of(width as int, height as int, data@),
{
    let mut out: Vec<u8> = Vec::new();
    let mut encoder = png::Encoder::new(&mut out, width, height);
    encoder.set_color(png::ColorType::Grayscale);
    encoder.set_depth(png::BitDepth::One);
    let mut writer = encoder.write_header()?;
    writer.write_image_data(data)?;
    writer.finish()?;
    Ok(out)
}

impl Maze {
    /// The packed 1-bit raster of the maze, upscaled for the target size:
    /// byte-aligned scanlines, one bit per pixel, most significant first.
    #[verifier::rlimit(100)]
    pub fn image_bytes(&self, target_image_size: u32) -> (r: Vec<u8>)
        requires
            self.wf(),
            self.out_height(target_image_size as int) * self.row_bytes(target_image_size as int)
                <= usize::MAX,
        ensures
            r@.len() == self.out_height(target_image_size as int) * self.row_bytes(
                target_image_size as int,
            ),
            forall|n: int, j: int|
                0 <= n < r@.len() && 0 <= j < 8 ==> #[trigger] bit_of(r@[n], j) == self.image_bit(
                    target_image_size as int,
                    n / self.row_bytes(target_image_size as int),
                    n % self.row_bytes(target_image_size as int),
                    j,
                ),
    {
        let ghost t = target_image_size as int;
        proof {
            self.lemma_dims();
            lemma_scale_fits(self.unscaled_width(), self.unscaled_height(), t);
        }
        let scale = self.image_scale(target_image_size);
        let out_w = (2 * self.get_width() + 1) * scale;
        let out_h = (2 * self.get_height() + 1) * scale;
        proof {
            assert(out_w >= 1 && out_h >= 1) by (nonlinear_arith)
                requires
                    out_w == self.unscaled_width() * self.image_scale_spec(t),
                    out_h == self.unscaled_height() * self.image_scale_spec(t),
                    self.unscaled_width() >= 1,
                    self.unscaled_height() >= 1,
                    self.image_scale_spec(t) >= 1,
            ;
        }
        let rb_u64 = ((out_w as u64) + 7) / 8;
        proof {
            assert(rb_u64 as int == self.row_bytes(t));
            assert(self.row_bytes(t) <= self.out_height(t) * self.row_bytes(t))
                by (nonlinear_arith)
                requires
                    self.out_height(t) >= 1,
                    self.row_bytes(t) >= 0,
            ;
        }
        let rb = rb_u64 as usize;
        let mut out: Vec<u8> = Vec::new();
        let mut py: u32 = 0;
        while py < out_h
            invariant
                self.wf(),
                t == target_image_size as int,
                scale as int == self.image_scale_spec(t),
                scale >= 1,
                out_w as int == self.out_width(t),
                out_h as int == self.out_height(t),
                rb as int == self.row_bytes(t),
                self.out_height(t) * self.row_bytes(t) <= usize::MAX,
                py <= out_h,
                out@.len() == py as int * rb as int,
                forall|n: int, j: int|
                    0 <= n < out@.len() && 0 <= j < 8 ==> #[trigger] bit_of(out@[n], j)
                        == self.image_bit(t, n / rb as int, n % rb as int, j),
            decreases out_h - py,
        {
            let uy = py / scale;
            proof {
                lemma_multiply_divide_lt(py as int, scale as int, self.unscaled_height());
            }
            let mut bits: Vec<bool> = Vec::new();
            let mut px: u32 = 0;
            while px < out_w
                invariant
                    self.wf(),
                    t == target_image_size as int,
                    scale as int == self.image_scale_spec(t),
                    scale >= 1,
                    out_w as int == self.out_width(t),
                    (py as int) < self.out_height(t),
                    uy == py / scale,
                    uy <= 2 * self.spec_height(),
                    px <= out_w,
                    bits@.len() == px,
                    forall|k: int|
                        0 <= k < px ==> #[trigger] bits@[k] == self.scaled_pixel_white(
                            t,
                            k,
                            py as int,
                        ),
                decreases out_w - px,
            {
                let ux = px / scale;
                proof {
                    lemma_multiply_divide_lt(px as int, scale as int, self.unscaled_width());
                }
                bits.push(self.pixel_is_white(ux, uy));
                px = px + 1;
            }
            let mut packed = pack_bits(&bits);
            proof {
                assert((out_w as int + 7) / 8 == rb as int);
                assert(packed@.len() == rb as int);
            }
            let ghost out0 = out@;
            let ghost packed0 = packed@;
            out.append(&mut packed);
            proof {
                assert(out@.len() == py as int * rb as int + rb as int);
                assert((py as int + 1) * rb as int == py as int * rb as int + rb as int)
                    by (nonlinear_arith);
                assert((py as int + 1) * rb as int <= self.out_height(t) * self.row_bytes(t))
                    by (nonlinear_arith)
                    requires
                        py as int + 1 <= self.out_height(t),
                        rb as int == self.row_bytes(t),
                        rb as int >= 0,
                ;
                assert forall|n: int, j: int|
                    0 <= n < out@.len() && 0 <= j < 8 implies #[trigger] bit_of(out@[n], j)
                    == self.image_bit(t, n / rb as int, n % rb as int, j) by {
                    if n < out0.len() {
                        assert(out@[n] == out0[n]);
                    } else {
                        let i = n - py as int * rb as int;
                        assert(out@[n] == packed0[i]);
                        lemma_fundamental_div_mod_converse(n, rb as int, py as int, i);
                        if 8 * i + j < out_w as int {
                            assert(bits@[8 * i + j] == self.scaled_pixel_white(
                                t,
                                8 * i + j,
                                py as int,
                            ));
                        }
                    }
                }
            }
            py = py + 1;
        }
        proof {
            assert(out@.len() == self.out_height(t) * self.row_bytes(t)) by (nonlinear_arith)
                requires
                    out@.len() == py as int * rb as int,
                    py as int == self.out_height(t),
                    rb as int == self.row_bytes(t),
            ;
        }
        out
    }

    /// The maze rendered as a complete PNG byte stream: a single-channel,
    /// one-bit-deep image whose content is the packed raster. Encoding
    /// happens in memory; the caller decides where the bytes go.
    pub fn maze_png_bytes(&self, target_image_size: u32) -> (r: Result<Vec<u8>, EncodeError>)
        requires
            self.wf(),
            self.out_height(target_image_size as int) * self.row_bytes(target_image_size as int)
                <= usize::MAX,
        ensures
            r matches Ok(v) && v@ == png_gray1_of(
                self.out_width(target_image_size as int),
                self.out_height(target_image_size as int),
                self.image_seq(target_image_size as int),
            ),
    {
        let ghost t = target_image_size as int;
        let (w, h) = self.image_dims(target_image_size);
        let data = self.image_bytes(target_image_size);
        proof {
            assert(data@.len() == h * ((w + 7) / 8));
        }
        proof {
            let rb = self.row_bytes(t);
            assert(rb >= 1) by (nonlinear_arith)
                requires
                    rb == (self.out_width(t) + 7) / 8,
                    self.out_width(t) == w as int,
                    w >= 1,
            ;
            assert(rb * self.out_height(t) == self.out_height(t) * rb) by (nonlinear_arith);
            assert forall|n: int| 0 <= n < data@.len() implies data@[n] == self.image_seq(t)[n] by {
                lemma_mod_bound(n, rb);
                lemma_multiply_divide_lt(n, rb, self.out_height(t));
                let py = n / rb;
                let i = n % rb;
                lemma_byte_from_bits(
                    bit_as_u8(self.image_bit(t, py, i, 0)),
                    bit_as_u8(self.image_bit(t, py, i, 1)),
                    bit_as_u8(self.image_bit(t, py, i, 2)),
                    bit_as_u8(self.image_bit(t, py, i, 3)),
                    bit_as_u8(self.image_bit(t, py, i, 4)),
                    bit_as_u8(self.image_bit(t, py, i, 5)),
                    bit_as_u8(self.image_bit(t, py, i, 6)),
                    bit_as_u8(self.image_bit(t, py, i, 7)),
                );
                assert forall|j: int| 0 <= j < 8 implies #[trigger] bit_of(data@[n], j) == bit_of(
                    self.image_byte(t, n),
                    j,
                ) by {
                    assert(bit_of(data@[n], j) == self.image_bit(t, py, i, j));
                }
                lemma_u8_bits_eq(data@[n], self.image_byte(t, n));
            }
            assert(data@ =~= self.image_seq(t));
        }
        match encode_png_gray1(w, h, &data) {
            Ok(v) => Ok(v),
            Err(_) => Err(EncodeError),
        }
    }
}

} // verus!
