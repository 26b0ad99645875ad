//! Pass-aware output-byte <-> screen-pixel projection.
//!
//! For a progressive image the mapping is [`PngInfo`]'s own coordinate
//! methods. For an Adam7-interlaced image the decoded `output` is seven
//! concatenated sub-images, so a screen pixel's byte lives in a pass-
//! dependent location. [`Raster`] unifies both: build it once from a
//! [`PngInfo`] and every consumer projects through it instead of assuming
//! one contiguous raster.

use vstd::prelude::*;

use crate::coords::{
    byte_of_pixel, cluster_start, law_out_to_xy, law_pixel_bytes, law_xy_round_trip, lemma_bits_ok,
    lemma_byte_pixel, lemma_pixel_byte_round_trip, lemma_pixel_bytes_back, pixel_of_byte,
    rgba_offset, OutPos, PixelXY,
};
use crate::png::chunks::PngInfo;
use crate::png::interlace::{
    lemma_pass_geom, lemma_pass_len, lemma_pass_place, lemma_pass_start, lemma_sub_pixel, owner_of,
    pass_dims, pass_empty, pass_geom, pass_height, pass_info, pass_len, pass_of, pass_start,
    pass_width, steps_below, sub_x, sub_y, PASS_DX, PASS_DY, PASS_X0, PASS_Y0,
};

verus! {

/// Byte offset of screen pixel `xy` in the decoded output.
pub open spec fn raster_pos(info: PngInfo, xy: PixelXY) -> int {
    if !info.interlaced {
        info.pixel_pos(xy)
    } else {
        let x = xy.x as int;
        let y = xy.y as int;
        let p = pass_of(x, y);
        pass_start(info, p) + byte_of_pixel(
            sub_x(x, y),
            sub_y(x, y),
            info.bits_per_pixel as int,
            pass_geom(info, p).row_stride as int,
        )
    }
}

/// Byte `pos` lies in pass `p`.
pub open spec fn in_pass(info: PngInfo, pos: int, p: int) -> bool {
    !pass_empty(info, p) && pass_start(info, p) <= pos < pass_start(info, p) + pass_len(info, p)
}

/// The screen pixel of byte `pos` of pass `p`.
pub open spec fn pass_pixel(info: PngInfo, pos: int, p: int) -> Option<PixelXY> {
    match pixel_of_byte(
        pos - pass_start(info, p),
        pass_width(info.width as int, p),
        pass_height(info.height as int, p),
        info.bits_per_pixel as int,
        pass_geom(info, p).row_stride as int,
    ) {
        None => None,
        Some((x, y)) => Some(
            PixelXY {
                x: (PASS_X0@[p] + x * PASS_DX@[p]) as u32,
                y: (PASS_Y0@[p] + y * PASS_DY@[p]) as u32,
            },
        ),
    }
}

/// The screen pixel of byte `pos`, looking at the passes from `p` on.
pub open spec fn passes_pixel(info: PngInfo, pos: int, p: int) -> Option<PixelXY>
    decreases 7 - p,
{
    if p >= 7 {
        None
    } else if in_pass(info, pos, p) {
        pass_pixel(info, pos, p)
    } else {
        passes_pixel(info, pos, p + 1)
    }
}

/// The screen pixel of byte `pos` of the decoded output.
pub open spec fn raster_pixel(info: PngInfo, pos: int) -> Option<PixelXY> {
    if !info.interlaced {
        info.pos_pixel(pos)
    } else {
        passes_pixel(info, pos, 0)
    }
}

/// The first screen pixel that shares `xy`'s byte.
pub open spec fn cluster_pixel(info: PngInfo, xy: PixelXY) -> PixelXY {
    let bits = info.bits_per_pixel as int;
    if !info.interlaced {
        PixelXY { x: cluster_start(xy.x as int, bits) as u32, y: xy.y }
    } else {
        let p = pass_of(xy.x as int, xy.y as int);
        PixelXY {
            x: (PASS_X0@[p] + cluster_start(sub_x(xy.x as int, xy.y as int), bits)
                * PASS_DX@[p]) as u32,
            y: xy.y,
        }
    }
}

proof fn lemma_passes_pixel_at(info: PngInfo, pos: int, p: int, q: int)
    requires
        info.wf(),
        0 <= q <= p < 7,
        in_pass(info, pos, p),
    ensures
        passes_pixel(info, pos, q) == pass_pixel(info, pos, p),
    decreases p - q,
{
    if q < p {
        lemma_passes_pixel_at(info, pos, p, q + 1);
        lemma_pass_start(info, q + 1, p);
        lemma_pass_len(info, q);
    }
}

/// Projecting a screen pixel to its byte and back gives the pixel (the first
/// of those that share its byte at sub-byte depths), whether the image is
/// interlaced or not; and the byte lies inside the decoded output.
pub proof fn law_raster_round_trip(info: PngInfo, xy: PixelXY)
    requires
        info.legal(),
        xy.x < info.width,
        xy.y < info.height,
    ensures
        raster_pixel(info, raster_pos(info, xy)) == Some(cluster_pixel(info, xy)),
        info.bits_per_pixel >= 8 ==> cluster_pixel(info, xy) == xy,
        0 <= raster_pos(info, xy) < raster_len(info),
{
    lemma_bits_ok(info);
    if !info.interlaced {
        law_xy_round_trip(info, xy);
        lemma_pixel_byte_round_trip(
            xy.x as int,
            xy.y as int,
            info.width as int,
            info.height as int,
            info.bits_per_pixel as int,
            info.row_stride as int,
        );
    } else {
        let x = xy.x as int;
        let y = xy.y as int;
        let p = pass_of(x, y);
        lemma_sub_pixel(x, y, info.width as int, info.height as int);
        lemma_pass_geom(info, p);
        let g = pass_geom(info, p);
        lemma_bits_ok(g);
        lemma_pixel_byte_round_trip(
            sub_x(x, y),
            sub_y(x, y),
            g.width as int,
            g.height as int,
            info.bits_per_pixel as int,
            g.row_stride as int,
        );
        let pos = raster_pos(info, xy);
        assert(in_pass(info, pos, p));
        lemma_passes_pixel_at(info, pos, p, 0);
        lemma_pass_start(info, p + 1, 7);
        lemma_pass_start(info, 0, p);
    }
}

/// The bytes that an image inflates to, exactly, by its IHDR: seven passes, or
/// `height` rows of a filter byte and the row's packed pixels.
pub open spec fn raster_len(info: PngInfo) -> int {
    if info.interlaced {
        pass_start(info, 7)
    } else {
        info.height * info.row_stride
    }
}

/// Byte `pos` is the filter byte of a row, in its pass where the image is
/// interlaced.
pub open spec fn raster_filter_byte(info: PngInfo, pos: int) -> bool {
    if !info.interlaced {
        pos % info.row_stride as int == 0
    } else {
        exists|p: int| #[trigger] starts_pass_row(info, pos, p)
    }
}

/// Byte `pos` is the first of a row of pass `p`.
pub open spec fn starts_pass_row(info: PngInfo, pos: int, p: int) -> bool {
    0 <= p < 7 && in_pass(info, pos, p) && (pos - pass_start(info, p)) % pass_geom(
        info,
        p,
    ).row_stride as int == 0
}

/// A byte before pass `q` lies in one of the passes before it.
proof fn lemma_some_pass(info: PngInfo, pos: int, q: int) -> (p: int)
    requires
        0 <= pos < pass_start(info, q),
        0 <= q,
    ensures
        0 <= p < q,
        in_pass(info, pos, p),
    decreases q,
{
    if pos < pass_start(info, q - 1) {
        lemma_some_pass(info, pos, q - 1)
    } else {
        q - 1
    }
}

/// A byte behind the last pass has no pixel.
proof fn lemma_behind_passes(info: PngInfo, pos: int, q: int)
    requires
        info.wf(),
        0 <= q,
        pass_start(info, 7) <= pos,
    ensures
        passes_pixel(info, pos, q) is None,
    decreases 7 - q,
{
    if q < 7 {
        lemma_pass_start(info, q + 1, 7);
        lemma_behind_passes(info, pos, q + 1);
    }
}

/// A byte of a pass belongs to a pixel exactly when it is not a row's filter
/// byte, and is then one of that pixel's bytes.
proof fn lemma_pass_byte(info: PngInfo, pos: int, p: int)
    requires
        info.legal(),
        info.interlaced,
        0 <= p < 7,
        in_pass(info, pos, p),
    ensures
        raster_pixel(info, pos) is Some <==> !starts_pass_row(info, pos, p),
        raster_pixel(info, pos) matches Some(xy) ==> {
            &&& xy.x < info.width
            &&& xy.y < info.height
            &&& cluster_pixel(info, xy) == xy
            &&& raster_pos(info, xy) <= pos < raster_pos(info, xy) + info.bpp
        },
{
    lemma_passes_pixel_at(info, pos, p, 0);
    lemma_pass_geom(info, p);
    lemma_bits_ok(info);
    let g = pass_geom(info, p);
    lemma_bits_ok(g);
    let local = pos - pass_start(info, p);
    let stride = g.row_stride as int;
    let h = g.height as int;
    lemma_byte_pixel(local, g.width as int, h, info.bits_per_pixel as int, stride);
    vstd::arithmetic::mul::lemma_mul_is_commutative(h, stride);
    vstd::arithmetic::div_mod::lemma_multiply_divide_lt(local, stride, h);
    if let Some((x, y)) = pixel_of_byte(
        local,
        g.width as int,
        h,
        info.bits_per_pixel as int,
        stride,
    ) {
        lemma_pass_pixel_fits(info, x, y, p);
        lemma_pass_place(x, y, p);
    }
}

/// A byte of the output belongs to a screen pixel exactly when it lies inside
/// the output and is not a row's filter byte. It is then one of the bytes of
/// the pixel it leads to, which is the first of those that share its byte.
pub proof fn law_raster_out_to_xy(info: PngInfo, pos: int)
    requires
        info.legal(),
        0 <= pos,
    ensures
        raster_pixel(info, pos) is Some <==> pos < raster_len(info) && !raster_filter_byte(
            info,
            pos,
        ),
        raster_pixel(info, pos) matches Some(xy) ==> {
            &&& xy.x < info.width
            &&& xy.y < info.height
            &&& cluster_pixel(info, xy) == xy
            &&& raster_pos(info, xy) <= pos < raster_pos(info, xy) + info.bpp
        },
{
    if !info.interlaced {
        law_out_to_xy(info, pos);
    } else if pos < pass_start(info, 7) {
        let p = lemma_some_pass(info, pos, 7);
        lemma_pass_byte(info, pos, p);
        if raster_filter_byte(info, pos) {
            let q = choose|q: int| #[trigger] starts_pass_row(info, pos, q);
            lemma_pass_byte(info, pos, q);
        }
    } else {
        lemma_behind_passes(info, pos, 0);
    }
}

/// Every byte of a screen pixel lies inside the output and leads back to it (to
/// the first of the pixels that share its byte at sub-byte depths).
pub proof fn law_raster_pixel_bytes(info: PngInfo, xy: PixelXY, pos: int)
    requires
        info.legal(),
        xy.x < info.width,
        xy.y < info.height,
        raster_pos(info, xy) <= pos < raster_pos(info, xy) + info.bpp,
    ensures
        0 <= pos < raster_len(info),
        raster_pixel(info, pos) == Some(cluster_pixel(info, xy)),
        info.bits_per_pixel >= 8 ==> raster_pixel(info, pos) == Some(xy),
{
    lemma_bits_ok(info);
    if !info.interlaced {
        law_pixel_bytes(info, xy, pos);
    } else {
        let x = xy.x as int;
        let y = xy.y as int;
        let p = pass_of(x, y);
        lemma_sub_pixel(x, y, info.width as int, info.height as int);
        lemma_pass_geom(info, p);
        let g = pass_geom(info, p);
        lemma_bits_ok(g);
        lemma_pixel_bytes_back(
            pos - pass_start(info, p),
            sub_x(x, y),
            sub_y(x, y),
            g.width as int,
            g.height as int,
            info.bits_per_pixel as int,
            g.row_stride as int,
        );
        assert(in_pass(info, pos, p));
        lemma_passes_pixel_at(info, pos, p, 0);
        lemma_pass_start(info, p + 1, 7);
        lemma_pass_start(info, 0, p);
    }
}

/// Two screen pixels either share their byte, as they do exactly when they are
/// packed together, or have no byte in common. From one byte per pixel on, two
/// pixels never share one.
pub proof fn law_pixels_apart(info: PngInfo, a: PixelXY, b: PixelXY)
    requires
        info.legal(),
        a.x < info.width,
        a.y < info.height,
        b.x < info.width,
        b.y < info.height,
    ensures
        cluster_pixel(info, a) == cluster_pixel(info, b) ==> raster_pos(info, a) == raster_pos(
            info,
            b,
        ),
        cluster_pixel(info, a) != cluster_pixel(info, b) ==> raster_pos(info, a) + info.bpp
            <= raster_pos(info, b) || raster_pos(info, b) + info.bpp <= raster_pos(info, a),
        info.bits_per_pixel >= 8 && a != b ==> cluster_pixel(info, a) != cluster_pixel(info, b),
{
    lemma_bits_ok(info);
    let pa = raster_pos(info, a);
    let pb = raster_pos(info, b);
    law_raster_pixel_bytes(info, a, pa);
    law_raster_pixel_bytes(info, b, pb);
    law_raster_out_to_xy(info, pa);
    law_raster_out_to_xy(info, pb);
    if pa <= pb < pa + info.bpp {
        law_raster_pixel_bytes(info, a, pb);
    }
    if pb <= pa < pb + info.bpp {
        law_raster_pixel_bytes(info, b, pa);
    }
}

/// Where one pass lies in the output, and the pixels it owns.
#[derive(Debug, Clone, Copy)]
struct PassGeom {
    width: u32,
    height: u32,
    row_stride: usize,
    byte_offset: usize,
}

/// Projects between output-byte positions and screen pixels for one image,
/// whether progressive or Adam7-interlaced.
#[derive(Debug)]
pub struct Raster {
    info: PngInfo,
    /// Per-pass geometry when interlaced; empty passes have `width` or
    /// `height` 0. Left empty for progressive images.
    passes: Vec<PassGeom>,
}

impl Raster {
    /// The image's geometry.
    pub closed spec fn geometry(&self) -> PngInfo {
        self.info
    }

    /// The pass table is that of the image.
    pub closed spec fn wf(&self) -> bool {
        &&& self.info.legal()
        &&& self.info.interlaced ==> self.passes@.len() == 7 && forall|p: int|
            0 <= p < 7 ==> pass_row(self.info, p, #[trigger] self.passes@[p])
    }

    pub fn new(info: PngInfo) -> (r: Self)
        requires
            info.legal(),
            info.interlaced ==> pass_start(info, 7) <= usize::MAX,
        ensures
            r.wf(),
            r.geometry() == info,
    {
        let mut passes: Vec<PassGeom> = Vec::new();
        if info.interlaced {
            let mut byte_offset: usize = 0;
            let mut p: usize = 0;
            while p < 7
                invariant
                    p <= 7,
                    info.legal(),
                    pass_start(info, 7) <= usize::MAX,
                    byte_offset == pass_start(info, p as int),
                    passes@.len() == p,
                    forall|q: int| 0 <= q < p ==> pass_row(info, q, #[trigger] passes@[q]),
                decreases 7 - p,
            {
                let (width, height) = pass_dims(info.width, info.height, p);
                proof {
                    lemma_pass_len(info, p as int);
                    lemma_pass_start(info, p + 1, 7);
                    lemma_pass_geom(info, p as int);
                }
                let row_stride: usize = match pass_info(&info, p) {
                    Some(pi) => pi.row_stride,
                    None => 0,
                };
                passes.push(PassGeom { width, height, row_stride, byte_offset });
                if width > 0 && height > 0 {
                    byte_offset = byte_offset + height as usize * row_stride;
                }
                p = p + 1;
            }
        }
        Raster { info, passes }
    }

    pub fn info(&self) -> (r: &PngInfo)
        ensures
            *r == self.geometry(),
    {
        &self.info
    }

    pub fn pixels_per_byte(&self) -> (r: u32)
        requires
            self.wf(),
        ensures
            r == (if self.geometry().bits_per_pixel >= 8 {
                1int
            } else {
                8int / self.geometry().bits_per_pixel as int
            }),
    {
        proof {
            lemma_bits_ok(self.info);
        }
        self.info.pixels_per_byte()
    }

    /// Output byte holding the first channel of screen pixel `xy`.
    pub fn xy_to_out(&self, xy: PixelXY) -> (r: OutPos)
        requires
            self.wf(),
            xy.x < self.geometry().width,
            xy.y < self.geometry().height,
            raster_pos(self.geometry(), xy) <= u32::MAX,
        ensures
            r.0 == raster_pos(self.geometry(), xy),
    {
        if !self.info.interlaced {
            return self.info.xy_to_out(xy);
        }
        let p: usize = owner_of(xy.x, xy.y);
        proof {
            lemma_sub_pixel(
                xy.x as int,
                xy.y as int,
                self.info.width as int,
                self.info.height as int,
            );
            lemma_pass_geom(self.info, p as int);
            assert(pass_row(self.info, p as int, self.passes@[p as int]));
            lemma_bits_ok(self.info);
        }
        let g = self.passes[p];
        let sx: u32 = (xy.x - PASS_X0[p]) / PASS_DX[p];
        let sy: u32 = (xy.y - PASS_Y0[p]) / PASS_DY[p];
        proof {
            assert(0 <= sx * self.info.bits_per_pixel <= 0xFFFF_FFFF * 64) by (nonlinear_arith)
                requires
                    sx <= 0xFFFF_FFFF,
                    self.info.bits_per_pixel <= 64,
            ;
            assert(0 <= sy * g.row_stride <= 0xFFFF_FFFF * 0xFFFF_FFFF_FFFF_FFFF)
                by (nonlinear_arith)
                requires
                    sy <= 0xFFFF_FFFF,
                    g.row_stride <= 0xFFFF_FFFF_FFFF_FFFF,
            ;
        }
        let byte_in_row: u64 = (sx as u64 * self.info.bits_per_pixel as u64) / 8;
        let pos: u128 = g.byte_offset as u128 + sy as u128 * g.row_stride as u128 + 1
            + byte_in_row as u128;
        OutPos(pos as u32)
    }

    /// Screen pixel a byte belongs to, or `None` for per-row filter bytes
    /// and out-of-range positions.
    pub fn out_to_xy(&self, pos: OutPos) -> (r: Option<PixelXY>)
        requires
            self.wf(),
        ensures
            r == raster_pixel(self.geometry(), pos.0 as int),
    {
        proof {
            lemma_bits_ok(self.info);
        }
        if !self.info.interlaced {
            return self.info.out_to_xy(pos);
        }
        let at: u64 = pos.0 as u64;
        let mut p: usize = 0;
        while p < 7
            invariant
                p <= 7,
                self.wf(),
                self.info.interlaced,
                1 <= self.info.bits_per_pixel <= 64,
                at == pos.0,
                passes_pixel(self.info, pos.0 as int, 0) == passes_pixel(
                    self.info,
                    pos.0 as int,
                    p as int,
                ),
            decreases 7 - p,
        {
            assert(pass_row(self.info, p as int, self.passes@[p as int]));
            let g = self.passes[p];
            proof {
                lemma_pass_len(self.info, p as int);
                lemma_pass_geom(self.info, p as int);
            }
            if g.width > 0 && g.height > 0 {
                let size: u128 = g.height as u128 * g.row_stride as u128;
                let start: u128 = g.byte_offset as u128;
                if start <= at as u128 && (at as u128) < start + size {
                    return self.pixel_in_pass(pos, p);
                }
            }
            p = p + 1;
        }
        None
    }

    fn pixel_in_pass(&self, pos: OutPos, p: usize) -> (r: Option<PixelXY>)
        requires
            self.wf(),
            self.geometry().interlaced,
            p < 7,
            in_pass(self.geometry(), pos.0 as int, p as int),
        ensures
            r == pass_pixel(self.geometry(), pos.0 as int, p as int),
    {
        proof {
            assert(pass_row(self.info, p as int, self.passes@[p as int]));
            lemma_pass_geom(self.info, p as int);
            lemma_bits_ok(self.info);
        }
        let g = self.passes[p];
        let local: u64 = (pos.0 as u64) - (g.byte_offset as u64);
        let stride: u64 = g.row_stride as u64;
        let col: u64 = local % stride;
        let row: u64 = local / stride;
        proof {
            vstd::arithmetic::div_mod::lemma_mod_decreases(local as nat, stride as nat);
            vstd::arithmetic::div_mod::lemma_div_is_ordered_by_denominator(
                local as int,
                1,
                stride as int,
            );
            vstd::arithmetic::mul::lemma_mul_is_commutative(g.height as int, stride as int);
            vstd::arithmetic::div_mod::lemma_multiply_divide_lt(
                local as int,
                stride as int,
                g.height as int,
            );
        }
        if col == 0 {
            return None;  // per-row filter byte
        }
        let sx: u64 = ((col - 1) * 8) / self.info.bits_per_pixel as u64;
        if sx >= g.width as u64 {
            return None;
        }
        proof {
            lemma_pass_pixel_fits(self.info, sx as int, row as int, p as int);
        }
        Some(
            PixelXY::new(
                PASS_X0[p] + sx as u32 * PASS_DX[p],
                PASS_Y0[p] + row as u32 * PASS_DY[p],
            ),
        )
    }

    /// Byte offset of the pixel at `pos` in a packed `w*h*4` RGBA buffer.
    pub fn rgba_index(&self, pos: OutPos) -> (r: Option<usize>)
        requires
            self.wf(),
            self.geometry().height * (4 * self.geometry().width) <= usize::MAX,
        ensures
            match raster_pixel(self.geometry(), pos.0 as int) {
                Some(xy) => r matches Some(i) && i == (xy.y * self.geometry().width + xy.x) * 4,
                None => r is None,
            },
    {
        match self.out_to_xy(pos) {
            Some(xy) => {
                proof {
                    lemma_bits_ok(self.info);
                    law_raster_out_to_xy(self.info, pos.0 as int);
                }
                Some(rgba_offset(xy, self.info.width, self.info.height))
            },
            None => None,
        }
    }
}

/// A row of the pass table.
spec fn pass_row(info: PngInfo, p: int, g: PassGeom) -> bool {
    &&& g.width == pass_width(info.width as int, p)
    &&& g.height == pass_height(info.height as int, p)
    &&& !pass_empty(info, p) ==> g.row_stride == pass_geom(info, p).row_stride
    &&& g.byte_offset == pass_start(info, p)
}

/// The pixels of a pass lie inside the image.
proof fn lemma_pass_pixel_fits(info: PngInfo, x: int, y: int, p: int)
    requires
        0 <= p < 7,
        0 <= x < pass_width(info.width as int, p),
        0 <= y < pass_height(info.height as int, p),
    ensures
        0 <= x * PASS_DX@[p] <= PASS_X0@[p] + x * PASS_DX@[p] < info.width,
        0 <= y * PASS_DY@[p] <= PASS_Y0@[p] + y * PASS_DY@[p] < info.height,
{
    assert(1 <= PASS_DX@[p] && 1 <= PASS_DY@[p]);
    lemma_step_inside(info.width as int, PASS_X0@[p] as int, PASS_DX@[p] as int, x);
    lemma_step_inside(info.height as int, PASS_Y0@[p] as int, PASS_DY@[p] as int, y);
}

proof fn lemma_step_inside(n: int, start: int, step: int, x: int)
    requires
        0 <= start,
        1 <= step,
        0 <= x < steps_below(n, start, step),
    ensures
        0 <= x * step,
        start + x * step < n,
{
    let a = n - start + step - 1;
    vstd::arithmetic::div_mod::lemma_fundamental_div_mod(a, step);
    vstd::arithmetic::div_mod::lemma_mod_bound(a, step);
    let q = a / step;
    assert(0 <= x * step && x * step + step <= step * q) by (nonlinear_arith)
        requires
            0 <= x,
            x + 1 <= q,
            1 <= step,
    ;
}

} // verus!
