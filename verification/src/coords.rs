//! Coordinate newtypes and the pixel↔byte conversion methods on
//! [`PngInfo`].
//!
//! Two integer kinds flow through the pipeline:
//!
//! - [`OutPos`]: byte offset within the unfiltered PNG output stream
//!   (length = `height * row_stride`; includes the per-row filter byte
//!   at column 0).
//! - [`PixelXY`]: image-space pixel coordinate (filter bytes excluded).
//!
//! Conversions between them are methods on [`PngInfo`], defined here so
//! the coordinate math lives beside the newtypes it produces while the
//! type itself stays with the IHDR parser. At sub-byte depths (1/2/4-bit
//! greyscale or indexed) one byte holds multiple pixels:
//! [`PngInfo::out_to_xy`] returns the *first* pixel of that byte's cluster,
//! and [`PngInfo::xy_to_out`] collapses every pixel in a cluster to the same
//! byte position. [`ImgGeom`] is the plain whole-bytes-per-pixel form.

use vstd::prelude::*;

use crate::png::chunks::PngInfo;
use crate::png::filter::lemma_row_inside;

verus! {

/// Byte offset in the unfiltered PNG output (the deflate decoder's `output`).
#[derive(Debug, Clone, Copy, PartialEq, Eq, Hash, Structural)]
pub struct OutPos(pub u32);

/// Image-space pixel coordinate.
///
/// Deliberately not `Ord`: the app's raster order is `(y, x)`-major,
/// which a derived field-order comparison (`x` first) would silently
/// contradict. Sort keys are built explicitly at the call sites that
/// need them.
#[derive(Debug, Clone, Copy, PartialEq, Eq, Hash, Structural)]
pub struct PixelXY {
    pub x: u32,
    pub y: u32,
}

impl PixelXY {
    pub fn new(x: u32, y: u32) -> (r: Self)
        ensures
            r == (PixelXY { x, y }),
    {
        PixelXY { x, y }
    }
}

// One raster of rows with a leading filter byte each.

/// Byte offset of pixel `(x, y)` in rows of `stride` bytes.
pub open spec fn byte_of_pixel(x: int, y: int, bits: int, stride: int) -> int {
    y * stride + 1 + (x * bits) / 8
}

/// The pixel that byte `p` belongs to; none for filter bytes, and for bytes
/// outside the image.
pub open spec fn pixel_of_byte(p: int, w: int, h: int, bits: int, stride: int) -> Option<(int, int)> {
    let row = p / stride;
    let col = p % stride;
    let x = ((col - 1) * 8) / bits;
    if col == 0 || row >= h || x >= w {
        None
    } else {
        Some((x, row))
    }
}

/// The first pixel of the byte that holds pixel `x`.
pub open spec fn cluster_start(x: int, bits: int) -> int {
    if bits >= 8 {
        x
    } else {
        (((x * bits) / 8) * 8) / bits
    }
}

/// The bit counts that PNG pixels have.
pub open spec fn pixel_bits_ok(bits: int) -> bool {
    bits == 1 || bits == 2 || bits == 4 || (bits >= 8 && bits % 8 == 0)
}

/// A pixel's byte lies in its row, and leads back to the first pixel of that
/// byte.
pub proof fn lemma_pixel_byte_round_trip(x: int, y: int, w: int, h: int, bits: int, stride: int)
    requires
        0 <= x < w,
        0 <= y < h,
        pixel_bits_ok(bits),
        stride == 1 + (w * bits + 7) / 8,
    ensures
        0 <= byte_of_pixel(x, y, bits, stride) < h * stride,
        pixel_of_byte(byte_of_pixel(x, y, bits, stride), w, h, bits, stride) == Some(
            (cluster_start(x, bits), y),
        ),
        cluster_start(x, bits) <= x,
        bits >= 8 ==> cluster_start(x, bits) == x,
{
    assert((x + 1) * bits <= w * bits) by (nonlinear_arith)
        requires
            x + 1 <= w,
            bits >= 1,
    ;
    assert((x + 1) * bits == x * bits + bits) by (nonlinear_arith);
    assert(0 <= x * bits) by (nonlinear_arith)
        requires
            0 <= x,
            bits >= 1,
    ;
    let b = (x * bits) / 8;
    assert(0 <= b < stride - 1);
    lemma_row_inside(y, h, stride);
    let p = byte_of_pixel(x, y, bits, stride);
    vstd::arithmetic::div_mod::lemma_fundamental_div_mod_converse(p, stride, y, 1 + b);
    if bits >= 8 {
        let k = bits / 8;
        assert(bits == 8 * k);
        assert(x * (8 * k) == 8 * (x * k)) by (nonlinear_arith);
        assert(b == x * k);
        assert((b * 8) / bits == x) by {
            assert(b * 8 == x * bits);
            vstd::arithmetic::div_mod::lemma_div_by_multiple(x, bits);
        }
    } else {
        assert((b * 8) / bits <= x) by {
            if bits == 1 {
                assert(x * bits == x);
            } else if bits == 2 {
                assert(x * bits == 2 * x);
            } else {
                assert(x * bits == 4 * x);
            }
        }
    }
}

/// The bytes of a pixel; one where several pixels share a byte.
pub open spec fn pixel_bytes(bits: int) -> int {
    (bits + 7) / 8
}

/// Byte `p` belongs to a pixel exactly when it lies in a row of the image and
/// is not that row's filter byte. It is then one of the bytes of the pixel it
/// leads to, which is the first pixel of its byte.
pub proof fn lemma_byte_pixel(p: int, w: int, h: int, bits: int, stride: int)
    requires
        0 <= p,
        0 <= w,
        pixel_bits_ok(bits),
        stride == 1 + (w * bits + 7) / 8,
    ensures
        pixel_of_byte(p, w, h, bits, stride) is Some <==> p % stride != 0 && p / stride < h,
        pixel_of_byte(p, w, h, bits, stride) matches Some((x, y)) ==> {
            &&& 0 <= x < w
            &&& 0 <= y == p / stride
            &&& cluster_start(x, bits) == x
            &&& bits < 8 ==> x % (8int / bits) == 0
            &&& byte_of_pixel(x, y, bits, stride) <= p < byte_of_pixel(x, y, bits, stride)
                + pixel_bytes(bits)
        },
{
    let row = p / stride;
    let col = p % stride;
    assert(0 <= w * bits) by (nonlinear_arith)
        requires
            0 <= w,
            bits >= 1,
    ;
    vstd::arithmetic::div_mod::lemma_fundamental_div_mod(p, stride);
    vstd::arithmetic::div_mod::lemma_mod_bound(p, stride);
    vstd::arithmetic::div_mod::lemma_div_pos_is_pos(p, stride);
    assert(stride * row == row * stride) by (nonlinear_arith);
    if col != 0 {
        let b = col - 1;
        let x = (b * 8) / bits;
        vstd::arithmetic::div_mod::lemma_fundamental_div_mod(b * 8, bits);
        vstd::arithmetic::div_mod::lemma_mod_bound(b * 8, bits);
        vstd::arithmetic::div_mod::lemma_div_pos_is_pos(b * 8, bits);
        assert(bits * x == x * bits) by (nonlinear_arith);
        assert(x < w) by (nonlinear_arith)
            requires
                x * bits <= b * 8,
                b * 8 < w * bits,
                bits >= 1,
        ;
        if bits >= 8 {
            let k = bits / 8;
            assert(x * bits == 8 * (x * k)) by (nonlinear_arith)
                requires
                    bits == 8 * k,
            ;
        } else if bits == 1 {
            assert(x * bits == x);
            assert(8int / bits == 8);
        } else if bits == 2 {
            assert(x * bits == 2 * x);
            assert(8int / bits == 4);
        } else {
            assert(x * bits == 4 * x);
            assert(8int / bits == 2) by (nonlinear_arith)
                requires
                    bits == 4,
            ;
        }
    }
}

/// Every byte of a pixel lies in its row, and leads back to the first pixel of
/// that byte.
pub proof fn lemma_pixel_bytes_back(
    p: int,
    x: int,
    y: int,
    w: int,
    h: int,
    bits: int,
    stride: int,
)
    requires
        0 <= x < w,
        0 <= y < h,
        pixel_bits_ok(bits),
        stride == 1 + (w * bits + 7) / 8,
        byte_of_pixel(x, y, bits, stride) <= p < byte_of_pixel(x, y, bits, stride) + pixel_bytes(
            bits,
        ),
    ensures
        0 <= p < h * stride,
        pixel_of_byte(p, w, h, bits, stride) == Some((cluster_start(x, bits), y)),
{
    lemma_pixel_byte_round_trip(x, y, w, h, bits, stride);
    if bits >= 8 {
        let k = bits / 8;
        let j = p - byte_of_pixel(x, y, bits, stride);
        assert(x * bits == 8 * (x * k)) by (nonlinear_arith)
            requires
                bits == 8 * k,
        ;
        assert((x + 1) * bits <= w * bits && (x + 1) * bits == x * bits + bits && 0 <= x * bits)
            by (nonlinear_arith)
            requires
                0 <= x,
                x + 1 <= w,
                bits >= 1,
        ;
        let b = x * k + j;
        assert(0 <= b < stride - 1);
        lemma_row_inside(y, h, stride);
        vstd::arithmetic::div_mod::lemma_fundamental_div_mod_converse(p, stride, y, 1 + b);
        vstd::arithmetic::div_mod::lemma_fundamental_div_mod_converse(b * 8, bits, x, j * 8);
    }
}

impl PngInfo {
    /// The byte offset of pixel `xy`.
    pub open spec fn pixel_pos(self, xy: PixelXY) -> int {
        byte_of_pixel(
            xy.x as int,
            xy.y as int,
            self.bits_per_pixel as int,
            self.row_stride as int,
        )
    }

    /// The pixel at byte offset `p`.
    pub open spec fn pos_pixel(self, p: int) -> Option<PixelXY> {
        match pixel_of_byte(
            p,
            self.width as int,
            self.height as int,
            self.bits_per_pixel as int,
            self.row_stride as int,
        ) {
            Some((x, y)) => Some(PixelXY { x: x as u32, y: y as u32 }),
            None => None,
        }
    }

    /// Convert a byte offset in the output stream to pixel coordinates.
    /// Returns `None` for column 0 of any row (the per-row PNG filter
    /// byte). For sub-byte depths the returned `x` is the first pixel
    /// of the byte's packed cluster.
    pub fn out_to_xy(&self, pos: OutPos) -> (r: Option<PixelXY>)
        requires
            self.row_stride >= 1,
            self.bits_per_pixel >= 1,
        ensures
            r == self.pos_pixel(pos.0 as int),
    {
        let p: u64 = pos.0 as u64;
        let stride: u64 = self.row_stride as u64;
        let row: u64 = p / stride;
        let col: u64 = p % stride;
        proof {
            vstd::arithmetic::div_mod::lemma_div_is_ordered_by_denominator(
                p as int,
                1,
                stride as int,
            );
            vstd::arithmetic::div_mod::lemma_mod_decreases(p as nat, stride as nat);
        }
        if col == 0 || row >= self.height as u64 {
            return None;
        }
        // pixel index = byte_in_row * 8 / bits_per_pixel.
        // 8-bit RGB (bits_per_pixel=24): byte 4 → (3*8)/24 = 1, the
        // second pixel. 1-bit greyscale (bits_per_pixel=1): byte 1 → 0,
        // the cluster start.
        let x: u64 = ((col - 1) * 8) / self.bits_per_pixel as u64;
        if x < self.width as u64 {
            Some(PixelXY::new(x as u32, row as u32))
        } else {
            None
        }
    }

    /// Byte offset of the first channel of pixel `(x, y)` in the output
    /// stream. For sub-byte depths multiple x-values collapse to the
    /// same byte (the cluster they share).
    pub fn xy_to_out(&self, xy: PixelXY) -> (r: OutPos)
        requires
            self.row_stride >= 1,
            self.pixel_pos(xy) <= u32::MAX,
        ensures
            r.0 == self.pixel_pos(xy),
    {
        proof {
            assert(0 <= xy.x * self.bits_per_pixel <= 0xFFFF_FFFF * 0xFFFF_FFFF)
                by (nonlinear_arith)
                requires
                    xy.x <= 0xFFFF_FFFF,
                    self.bits_per_pixel <= 0xFFFF_FFFF,
            ;
            assert(0 <= xy.y * self.row_stride <= 0xFFFF_FFFF * 0xFFFF_FFFF_FFFF_FFFF)
                by (nonlinear_arith)
                requires
                    xy.y <= 0xFFFF_FFFF,
                    self.row_stride <= 0xFFFF_FFFF_FFFF_FFFF,
            ;
        }
        let byte_in_row: u64 = (xy.x as u64 * self.bits_per_pixel as u64) / 8;
        let p: u128 = xy.y as u128 * self.row_stride as u128 + 1 + byte_in_row as u128;
        OutPos(p as u32)
    }

    /// Number of pixels packed into one byte at this depth. `1` for
    /// every byte-aligned colour mode; `2`, `4`, or `8` for 4/2/1-bit
    /// greyscale and indexed.
    pub fn pixels_per_byte(&self) -> (r: u32)
        requires
            self.bits_per_pixel >= 1,
        ensures
            r == (if self.bits_per_pixel >= 8 {
                1int
            } else {
                8int / self.bits_per_pixel as int
            }),
    {
        if self.bits_per_pixel >= 8 {
            1
        } else {
            8 / self.bits_per_pixel
        }
    }

    /// Byte offset into a packed `w * h * 4` RGBA buffer for the pixel at
    /// `pos`, or `None` if `pos` is a filter byte or out of range.
    pub fn rgba_index(&self, pos: OutPos) -> (r: Option<usize>)
        requires
            self.row_stride >= 1,
            self.bits_per_pixel >= 1,
            self.height * (4 * self.width) <= usize::MAX,
        ensures
            match self.pos_pixel(pos.0 as int) {
                Some(xy) => r matches Some(i) && i == (xy.y * self.width + xy.x) * 4,
                None => r is None,
            },
    {
        match self.out_to_xy(pos) {
            Some(xy) => Some(rgba_offset(xy, self.width, self.height)),
            None => None,
        }
    }
}

/// Byte offset of pixel `xy` in a packed `w * h * 4` RGBA buffer.
pub fn rgba_offset(xy: PixelXY, w: u32, h: u32) -> (r: usize)
    requires
        xy.x < w,
        xy.y < h,
        h * (4 * w) <= usize::MAX,
    ensures
        r == (xy.y * w + xy.x) * 4,
{
    proof {
        lemma_row_inside(xy.y as int, h as int, w as int);
        assert(h * (4 * w) == 4 * (h * w)) by (nonlinear_arith);
        assert(0 <= w <= h * w) by (nonlinear_arith)
            requires
                h >= 1,
                w >= 0,
        ;
    }
    (xy.y as usize * w as usize + xy.x as usize) * 4
}

/// Every pixel's byte leads back to it (to the first pixel of its byte at
/// sub-byte depths), and lies inside the output.
pub proof fn law_xy_round_trip(info: PngInfo, xy: PixelXY)
    requires
        info.legal(),
        xy.x < info.width,
        xy.y < info.height,
    ensures
        0 <= info.pixel_pos(xy) < info.height * info.row_stride,
        info.pos_pixel(info.pixel_pos(xy)) == Some(
            PixelXY {
                x: cluster_start(xy.x as int, info.bits_per_pixel as int) as u32,
                y: xy.y,
            },
        ),
        info.bits_per_pixel >= 8 ==> info.pos_pixel(info.pixel_pos(xy)) == Some(xy),
{
    lemma_bits_ok(info);
    lemma_pixel_byte_round_trip(
        xy.x as int,
        xy.y as int,
        info.width as int,
        info.height as int,
        info.bits_per_pixel as int,
        info.row_stride as int,
    );
}

/// A byte of the output belongs to a pixel exactly when it lies inside the
/// image and is not a row's filter byte. It is then one of the bytes of the
/// pixel it leads to, in that pixel's row; at sub-byte depths that is the first
/// of the pixels packed into it.
pub proof fn law_out_to_xy(info: PngInfo, p: int)
    requires
        info.legal(),
        0 <= p,
    ensures
        info.pos_pixel(p) is Some <==> p % info.row_stride as int != 0 && p < info.height
            * info.row_stride,
        info.pos_pixel(p) matches Some(xy) ==> {
            &&& xy.x < info.width
            &&& xy.y < info.height
            &&& xy.y == p / info.row_stride as int
            &&& cluster_start(xy.x as int, info.bits_per_pixel as int) == xy.x
            &&& info.bits_per_pixel < 8 ==> xy.x as int % (8int / info.bits_per_pixel as int) == 0
            &&& info.pixel_pos(xy) <= p < info.pixel_pos(xy) + info.bpp
        },
{
    lemma_bits_ok(info);
    let stride = info.row_stride as int;
    let h = info.height as int;
    lemma_byte_pixel(p, info.width as int, h, info.bits_per_pixel as int, stride);
    vstd::arithmetic::div_mod::lemma_fundamental_div_mod(p, stride);
    vstd::arithmetic::div_mod::lemma_mod_bound(p, stride);
    assert(p / stride < h <==> p < h * stride) by (nonlinear_arith)
        requires
            p == stride * (p / stride) + p % stride,
            0 <= p % stride < stride,
    ;
}

/// Every byte of a pixel leads back to it (to the first pixel of its byte at
/// sub-byte depths).
pub proof fn law_pixel_bytes(info: PngInfo, xy: PixelXY, p: int)
    requires
        info.legal(),
        xy.x < info.width,
        xy.y < info.height,
        info.pixel_pos(xy) <= p < info.pixel_pos(xy) + info.bpp,
    ensures
        0 <= p < info.height * info.row_stride,
        info.pos_pixel(p) == Some(
            PixelXY {
                x: cluster_start(xy.x as int, info.bits_per_pixel as int) as u32,
                y: xy.y,
            },
        ),
        info.bits_per_pixel >= 8 ==> info.pos_pixel(p) == Some(xy),
{
    lemma_bits_ok(info);
    lemma_pixel_bytes_back(
        p,
        xy.x as int,
        xy.y as int,
        info.width as int,
        info.height as int,
        info.bits_per_pixel as int,
        info.row_stride as int,
    );
}

/// A legal colour mode has one of the bit counts that PNG pixels have.
pub proof fn lemma_bits_ok(info: PngInfo)
    requires
        info.legal(),
    ensures
        pixel_bits_ok(info.bits_per_pixel as int),
        info.bits_per_pixel <= 64,
        info.row_stride == 1 + (info.width * info.bits_per_pixel + 7) / 8,
        info.bpp == pixel_bytes(info.bits_per_pixel as int),
{
    let d = info.bit_depth as int;
    let ch = info.color_type.spec_channels() as int;
    assert(1 <= ch <= 4);
    if d >= 8 {
        assert(d * ch == 8 * ch || d * ch == 16 * ch) by (nonlinear_arith)
            requires
                d == 8 || d == 16,
        ;
    } else {
        assert(ch == 1);
        assert(d * ch == d);
    }
}

/// Image geometry with whole bytes per pixel.
#[derive(Debug, Clone, Copy, PartialEq, Eq, Structural)]
pub struct ImgGeom {
    pub w: u32,
    pub h: u32,
    pub bpp: u32,
    pub row_stride: u32,
}

impl ImgGeom {
    /// The stride is that of `w` pixels of `bpp` bytes behind a filter byte.
    pub open spec fn wf(self) -> bool {
        self.bpp >= 1 && self.row_stride == 1 + self.w * self.bpp
    }

    pub open spec fn pixel_pos(self, xy: PixelXY) -> int {
        xy.y * self.row_stride + 1 + xy.x * self.bpp
    }

    pub open spec fn pos_pixel(self, p: int) -> Option<PixelXY> {
        let row = p / self.row_stride as int;
        let col = p % self.row_stride as int;
        let x = (col - 1) / self.bpp as int;
        if col == 0 || row >= self.h || x >= self.w {
            None
        } else {
            Some(PixelXY { x: x as u32, y: row as u32 })
        }
    }

    pub fn new(w: u32, h: u32, bpp: u32) -> (r: Self)
        requires
            1 + w * bpp <= u32::MAX,
        ensures
            r == (ImgGeom { w, h, bpp, row_stride: (1 + w * bpp) as u32 }),
    {
        ImgGeom { w, h, bpp, row_stride: 1 + w * bpp }
    }

    /// Convert a byte offset in the output stream to pixel coordinates.
    /// Returns `None` for column 0 of any row (the per-row PNG filter byte).
    pub fn out_to_xy(&self, pos: OutPos) -> (r: Option<PixelXY>)
        requires
            self.row_stride >= 1,
            self.bpp >= 1,
        ensures
            r == self.pos_pixel(pos.0 as int),
    {
        let p: u32 = pos.0;
        let row: u32 = p / self.row_stride;
        let col: u32 = p % self.row_stride;
        if col == 0 || row >= self.h {
            return None;
        }
        let x: u32 = (col - 1) / self.bpp;
        if x < self.w {
            Some(PixelXY::new(x, row))
        } else {
            None
        }
    }

    /// Byte offset of the first channel of pixel `(x, y)` in the output stream.
    pub fn xy_to_out(&self, xy: PixelXY) -> (r: OutPos)
        requires
            self.pixel_pos(xy) <= u32::MAX,
        ensures
            r.0 == self.pixel_pos(xy),
    {
        proof {
            assert(0 <= xy.y * self.row_stride) by (nonlinear_arith);
            assert(0 <= xy.x * self.bpp) by (nonlinear_arith);
        }
        OutPos(xy.y * self.row_stride + 1 + xy.x * self.bpp)
    }

    /// Byte offset into a packed `w * h * 4` RGBA buffer for the pixel at
    /// `pos`, or `None` if `pos` is a filter byte or out of range.
    pub fn rgba_index(&self, pos: OutPos) -> (r: Option<usize>)
        requires
            self.row_stride >= 1,
            self.bpp >= 1,
            self.h * (4 * self.w) <= usize::MAX,
        ensures
            match self.pos_pixel(pos.0 as int) {
                Some(xy) => r matches Some(i) && i == (xy.y * self.w + xy.x) * 4,
                None => r is None,
            },
    {
        match self.out_to_xy(pos) {
            Some(xy) => Some(rgba_offset(xy, self.w, self.h)),
            None => None,
        }
    }
}

/// Every pixel's byte leads back to it.
pub proof fn law_geom_round_trip(geom: ImgGeom, xy: PixelXY)
    requires
        geom.wf(),
        xy.x < geom.w,
        xy.y < geom.h,
    ensures
        0 <= geom.pixel_pos(xy) < geom.h * geom.row_stride,
        geom.pos_pixel(geom.pixel_pos(xy)) == Some(xy),
{
    let stride = geom.row_stride as int;
    let b = xy.x * geom.bpp;
    lemma_row_inside(xy.x as int, geom.w as int, geom.bpp as int);
    lemma_row_inside(xy.y as int, geom.h as int, stride);
    vstd::arithmetic::div_mod::lemma_fundamental_div_mod_converse(
        geom.pixel_pos(xy),
        stride,
        xy.y as int,
        1 + b,
    );
    vstd::arithmetic::div_mod::lemma_div_by_multiple(xy.x as int, geom.bpp as int);
}

} // verus!
