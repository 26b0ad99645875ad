//! Adam7 interlacing.
//!
//! An interlaced PNG's `output` is seven concatenated sub-images (passes),
//! each an ordinary filtered image with its own dimensions and stride.
//! Decoding reuses the per-image [`unfilter`] and [`to_rgba8`] on each pass,
//! then scatters the pass's pixels to their positions in the full raster.

use vstd::prelude::*;

use super::chunks::{info_of, PngInfo};
use super::convert::{
    palette_view, palette_wf, rgba_of, rgba_rows, to_rgba8, ConvertError, PaletteEntry,
};
use super::filter::{lemma_row_inside, unfilter, unfilter_of, FilterError};

verus! {

/// First column of each pass.
pub const PASS_X0: [u32; 7] = [0, 4, 0, 2, 0, 1, 0];

/// First row of each pass.
pub const PASS_Y0: [u32; 7] = [0, 0, 4, 0, 2, 0, 1];

/// Column step of each pass.
pub const PASS_DX: [u32; 7] = [8, 8, 4, 4, 2, 2, 1];

/// Row step of each pass: pass `p` owns the pixels
/// `(x0 + i*dx, y0 + j*dy)` (PNG spec Figure 9).
pub const PASS_DY: [u32; 7] = [8, 8, 8, 4, 4, 2, 2];

/// Failure while reassembling an interlaced image: one of the per-pass
/// [`unfilter`] / [`to_rgba8`] steps failed, or the stream was too short.
#[derive(Debug, Clone, Copy, PartialEq, Eq, Structural)]
pub enum InterlaceError {
    Filter(FilterError),
    Convert(ConvertError),
    Truncated,
}

/// How many of `start, start + step, ...` lie below `n`.
pub open spec fn steps_below(n: int, start: int, step: int) -> int {
    if n > start {
        (n - start + step - 1) / step
    } else {
        0
    }
}

/// Pixel columns of pass `p`.
pub open spec fn pass_width(w: int, p: int) -> int {
    steps_below(w, PASS_X0@[p] as int, PASS_DX@[p] as int)
}

/// Pixel rows of pass `p`.
pub open spec fn pass_height(h: int, p: int) -> int {
    steps_below(h, PASS_Y0@[p] as int, PASS_DY@[p] as int)
}

/// Pass `p` has no pixels.
pub open spec fn pass_empty(info: PngInfo, p: int) -> bool {
    pass_width(info.width as int, p) == 0 || pass_height(info.height as int, p) == 0
}

/// The sub-image of pass `p`.
pub open spec fn pass_geom(info: PngInfo, p: int) -> PngInfo {
    info_of(
        pass_width(info.width as int, p) as u32,
        pass_height(info.height as int, p) as u32,
        info.bit_depth,
        info.color_type,
    )
}

/// The bytes of pass `p`.
pub open spec fn pass_len(info: PngInfo, p: int) -> int {
    if pass_empty(info, p) {
        0
    } else {
        pass_geom(info, p).height * pass_geom(info, p).row_stride
    }
}

/// The bytes of the passes before pass `p`.
pub open spec fn pass_start(info: PngInfo, p: int) -> int
    decreases p,
{
    if p <= 0 {
        0
    } else {
        pass_start(info, p - 1) + pass_len(info, p - 1)
    }
}

/// Pass `p` owns pixel `(x, y)`.
pub open spec fn pass_owns(p: int, x: int, y: int) -> bool {
    &&& x >= PASS_X0@[p]
    &&& y >= PASS_Y0@[p]
    &&& (x - PASS_X0@[p]) % (PASS_DX@[p] as int) == 0
    &&& (y - PASS_Y0@[p]) % (PASS_DY@[p] as int) == 0
}

/// The pass that owns pixel `(x, y)`: decided by the row and column within the
/// repeating 8x8 tile.
pub open spec fn pass_of(x: int, y: int) -> int {
    if y % 2 == 1 {
        6
    } else if x % 2 == 1 {
        5
    } else if y % 4 == 2 {
        4
    } else if x % 4 == 2 {
        3
    } else if y % 8 == 4 {
        2
    } else if x % 8 == 4 {
        1
    } else {
        0
    }
}

/// The seven passes spelled out.
proof fn lemma_pass_table(p: int)
    requires
        0 <= p < 7,
    ensures
        p == 0 ==> PASS_X0@[p] == 0 && PASS_Y0@[p] == 0 && PASS_DX@[p] == 8 && PASS_DY@[p] == 8,
        p == 1 ==> PASS_X0@[p] == 4 && PASS_Y0@[p] == 0 && PASS_DX@[p] == 8 && PASS_DY@[p] == 8,
        p == 2 ==> PASS_X0@[p] == 0 && PASS_Y0@[p] == 4 && PASS_DX@[p] == 4 && PASS_DY@[p] == 8,
        p == 3 ==> PASS_X0@[p] == 2 && PASS_Y0@[p] == 0 && PASS_DX@[p] == 4 && PASS_DY@[p] == 4,
        p == 4 ==> PASS_X0@[p] == 0 && PASS_Y0@[p] == 2 && PASS_DX@[p] == 2 && PASS_DY@[p] == 4,
        p == 5 ==> PASS_X0@[p] == 1 && PASS_Y0@[p] == 0 && PASS_DX@[p] == 2 && PASS_DY@[p] == 2,
        p == 6 ==> PASS_X0@[p] == 0 && PASS_Y0@[p] == 1 && PASS_DX@[p] == 1 && PASS_DY@[p] == 2,
{
}

/// A pass that owns a pixel is the one that the tile gives it.
#[verifier::rlimit(40)]
proof fn lemma_owning_pass(x: int, y: int, p: int)
    requires
        0 <= x,
        0 <= y,
        0 <= p < 7,
        pass_owns(p, x, y),
    ensures
        p == pass_of(x, y),
{
    lemma_pass_table(p);
    if p == 0 {
        assert(x % 8 == 0 && y % 8 == 0);
    } else if p == 1 {
        assert(x % 8 == 4 && y % 8 == 0);
    } else if p == 2 {
        assert(x % 4 == 0 && y % 8 == 4);
    } else if p == 3 {
        assert(x % 4 == 2 && y % 4 == 0);
    } else if p == 4 {
        assert(x % 2 == 0 && y % 4 == 2);
    } else if p == 5 {
        assert(x % 2 == 1 && y % 2 == 0);
    } else {
        assert(y % 2 == 1);
    }
}

/// The tile's pass owns the pixel.
#[verifier::rlimit(40)]
proof fn lemma_tile_pass(x: int, y: int)
    requires
        0 <= x,
        0 <= y,
    ensures
        0 <= pass_of(x, y) < 7,
        pass_owns(pass_of(x, y), x, y),
{
    let p = pass_of(x, y);
    lemma_pass_table(p);
    if p == 0 {
        assert(x % 8 == 0 && y % 8 == 0);
    } else if p == 1 {
        assert(x % 8 == 4 && y % 8 == 0);
    } else if p == 2 {
        assert(x % 4 == 0 && y % 8 == 4);
    } else if p == 3 {
        assert(x % 4 == 2 && y % 4 == 0);
    } else if p == 4 {
        assert(x % 2 == 0 && y % 4 == 2);
    } else if p == 5 {
        assert(x % 2 == 1 && y % 2 == 0);
    } else {
        assert(y % 2 == 1);
    }
}

/// Adam7 partitions the image: every pixel is owned by exactly one pass.
pub proof fn law_passes_partition(x: int, y: int)
    requires
        0 <= x,
        0 <= y,
    ensures
        0 <= pass_of(x, y) < 7,
        pass_owns(pass_of(x, y), x, y),
        forall|p: int| 0 <= p < 7 && #[trigger] pass_owns(p, x, y) ==> p == pass_of(x, y),
{
    lemma_tile_pass(x, y);
    assert forall|p: int| 0 <= p < 7 && #[trigger] pass_owns(p, x, y) implies p == pass_of(x, y) by {
        lemma_owning_pass(x, y, p);
    }
}

/// The column and row of pixel `(x, y)` within its pass.
pub open spec fn sub_x(x: int, y: int) -> int {
    (x - PASS_X0@[pass_of(x, y)]) / (PASS_DX@[pass_of(x, y)] as int)
}

pub open spec fn sub_y(x: int, y: int) -> int {
    (y - PASS_Y0@[pass_of(x, y)]) / (PASS_DY@[pass_of(x, y)] as int)
}

/// A pixel's place in its pass lies inside the pass, and leads back to it.
#[verifier::rlimit(40)]
pub proof fn lemma_sub_pixel(x: int, y: int, w: int, h: int)
    requires
        0 <= x < w,
        0 <= y < h,
    ensures
        ({
            let p = pass_of(x, y);
            &&& 0 <= p < 7
            &&& 0 <= sub_x(x, y) < pass_width(w, p)
            &&& 0 <= sub_y(x, y) < pass_height(h, p)
            &&& PASS_X0@[p] + sub_x(x, y) * PASS_DX@[p] == x
            &&& PASS_Y0@[p] + sub_y(x, y) * PASS_DY@[p] == y
        }),
{
    law_passes_partition(x, y);
    let p = pass_of(x, y);
    lemma_pass_table(p);
    if p == 0 {
    } else if p == 1 {
    } else if p == 2 {
    } else if p == 3 {
    } else if p == 4 {
    } else if p == 5 {
    } else {
    }
}

/// A place in a pass is that of the screen pixel it stands for.
pub proof fn lemma_pass_place(x: int, y: int, p: int)
    requires
        0 <= p < 7,
        0 <= x,
        0 <= y,
    ensures
        pass_of(PASS_X0@[p] + x * PASS_DX@[p], PASS_Y0@[p] + y * PASS_DY@[p]) == p,
        sub_x(PASS_X0@[p] + x * PASS_DX@[p], PASS_Y0@[p] + y * PASS_DY@[p]) == x,
        sub_y(PASS_X0@[p] + x * PASS_DX@[p], PASS_Y0@[p] + y * PASS_DY@[p]) == y,
{
    lemma_pass_table(p);
    let dx = PASS_DX@[p] as int;
    let dy = PASS_DY@[p] as int;
    assert(0 <= x * dx && 0 <= y * dy) by (nonlinear_arith)
        requires
            0 <= x,
            0 <= y,
            1 <= dx,
            1 <= dy,
    ;
    vstd::arithmetic::div_mod::lemma_fundamental_div_mod_converse(x * dx, dx, x, 0);
    vstd::arithmetic::div_mod::lemma_fundamental_div_mod_converse(y * dy, dy, y, 0);
    law_passes_partition(PASS_X0@[p] + x * dx, PASS_Y0@[p] + y * dy);
    assert(pass_owns(p, PASS_X0@[p] + x * dx, PASS_Y0@[p] + y * dy));
}

/// A pass is no wider or taller than the image.
pub proof fn lemma_pass_dims(n: int, p: int)
    requires
        0 <= n,
        0 <= p < 7,
    ensures
        0 <= pass_width(n, p) <= n,
        0 <= pass_height(n, p) <= n,
{
    lemma_pass_table(p);
    if p == 0 {
    } else if p == 1 {
    } else if p == 2 {
    } else if p == 3 {
    } else if p == 4 {
    } else if p == 5 {
    } else {
    }
}

/// A pass of an image with legal rows has legal rows.
pub proof fn lemma_pass_geom(info: PngInfo, p: int)
    requires
        info.wf(),
        0 <= p < 7,
    ensures
        pass_geom(info, p).wf(),
        pass_geom(info, p).row_stride <= info.row_stride,
        pass_geom(info, p).width == pass_width(info.width as int, p),
        pass_geom(info, p).height == pass_height(info.height as int, p),
        pass_geom(info, p).height <= info.height,
        pass_geom(info, p).width <= info.width,
        pass_geom(info, p).bits_per_pixel == info.bits_per_pixel,
        info.legal() ==> pass_geom(info, p).legal(),
{
    lemma_pass_dims(info.width as int, p);
    lemma_pass_dims(info.height as int, p);
    let w = pass_width(info.width as int, p);
    let b = info.bit_depth * info.color_type.spec_channels();
    assert(0 <= b) by (nonlinear_arith)
        requires
            b == info.bit_depth * info.color_type.spec_channels(),
    ;
    assert(0 <= w * b <= info.width * b) by (nonlinear_arith)
        requires
            0 <= w <= info.width,
            0 <= b,
    ;
}

/// Pixel dimensions of pass `p` for a `width x height` image; either may be
/// 0 (the pass is empty and contributes no bytes).
pub fn pass_dims(width: u32, height: u32, p: usize) -> (r: (u32, u32))
    requires
        p < 7,
    ensures
        r.0 == pass_width(width as int, p as int),
        r.1 == pass_height(height as int, p as int),
{
    let x0: u32 = PASS_X0[p];
    let y0: u32 = PASS_Y0[p];
    let dx: u32 = PASS_DX[p];
    let dy: u32 = PASS_DY[p];
    assert(1 <= dx <= 8 && 1 <= dy <= 8);
    proof {
        lemma_pass_dims(width as int, p as int);
        lemma_pass_dims(height as int, p as int);
    }
    let w: u64 = if width > x0 {
        ((width - x0) as u64 + (dx - 1) as u64) / dx as u64
    } else {
        0
    };
    let h: u64 = if height > y0 {
        ((height - y0) as u64 + (dy - 1) as u64) / dy as u64
    } else {
        0
    };
    (w as u32, h as u32)
}

/// A sub-image [`PngInfo`] for pass `p`, or `None` if the pass is empty.
pub fn pass_info(info: &PngInfo, p: usize) -> (r: Option<PngInfo>)
    requires
        info.wf(),
        p < 7,
    ensures
        r == (if pass_empty(*info, p as int) {
            None
        } else {
            Some(pass_geom(*info, p as int))
        }),
        r matches Some(pi) ==> pi.wf() && pi.width >= 1 && pi.height >= 1 && pi.row_stride
            <= info.row_stride,
{
    let (w, h) = pass_dims(info.width, info.height, p);
    proof {
        lemma_pass_geom(*info, p as int);
    }
    if w > 0 && h > 0 {
        Some(PngInfo::new(w, h, info.bit_depth, info.color_type))
    } else {
        None
    }
}

pub proof fn lemma_pass_len(info: PngInfo, p: int)
    requires
        info.wf(),
        0 <= p < 7,
    ensures
        0 <= pass_len(info, p) <= 0xFFFF_FFFF * 0xFFFF_FFFF_FFFF_FFFF,
{
    lemma_pass_geom(info, p);
    let a = pass_geom(info, p).height as int;
    let b = pass_geom(info, p).row_stride as int;
    assert(0 <= a * b <= 0xFFFF_FFFF * 0xFFFF_FFFF_FFFF_FFFF) by (nonlinear_arith)
        requires
            0 <= a <= 0xFFFF_FFFF,
            0 <= b <= 0xFFFF_FFFF_FFFF_FFFF,
    ;
}

pub proof fn lemma_pass_start(info: PngInfo, p: int, q: int)
    requires
        info.wf(),
        0 <= p <= q <= 7,
    ensures
        0 <= pass_start(info, p) <= pass_start(info, q),
    decreases q,
{
    if q > 0 {
        lemma_pass_len(info, q - 1);
        if p < q {
            lemma_pass_start(info, p, q - 1);
        } else {
            lemma_pass_start(info, p - 1, q - 1);
            lemma_pass_len(info, p - 1);
        }
    }
}

/// Byte length of an Adam7 output, in a type that holds it for any IHDR.
pub fn wide_output_len(info: &PngInfo) -> (r: u128)
    requires
        info.wf(),
    ensures
        r == pass_start(*info, 7),
{
    let mut total: u128 = 0;
    let mut p: usize = 0;
    while p < 7
        invariant
            p <= 7,
            info.wf(),
            total == pass_start(*info, p as int),
            total <= p * 0x1_0000_0000_0000_0000_0000_0000int,
        decreases 7 - p,
    {
        proof {
            lemma_pass_len(*info, p as int);
        }
        if let Some(pi) = pass_info(info, p) {
            total = total + pi.height as u128 * pi.row_stride as u128;
        }
        p = p + 1;
    }
    total
}

/// Byte length an Adam7 `output` decodes to: the sum of each non-empty
/// pass's `height * row_stride`. The decompression-bomb cap uses this in
/// place of the progressive `height * row_stride`.
pub fn interlaced_output_len(info: &PngInfo) -> (r: usize)
    requires
        info.wf(),
        pass_start(*info, 7) <= usize::MAX,
    ensures
        r == pass_start(*info, 7),
{
    wide_output_len(info) as usize
}

/// The bytes of pass `p`, if the stream holds them.
pub open spec fn pass_stream(output: Seq<u8>, info: PngInfo, p: int) -> Option<Seq<u8>> {
    if pass_start(info, p + 1) <= output.len() {
        Some(output.subrange(pass_start(info, p), pass_start(info, p + 1)))
    } else {
        None
    }
}

/// The raw bytes of pass `p`; none where it is empty.
pub open spec fn pass_raw(output: Seq<u8>, info: PngInfo, p: int) -> Result<
    Seq<u8>,
    InterlaceError,
> {
    if pass_empty(info, p) {
        Ok(Seq::empty())
    } else {
        match pass_stream(output, info, p) {
            None => Err(InterlaceError::Truncated),
            Some(stream) => match unfilter_of(stream, pass_geom(info, p)) {
                Err(e) => Err(InterlaceError::Filter(e)),
                Ok(raw) => Ok(raw),
            },
        }
    }
}

/// The RGBA8 pixels of pass `p`; none where it is empty.
pub open spec fn pass_rgba(
    output: Seq<u8>,
    info: PngInfo,
    palette: Option<Seq<Seq<u8>>>,
    p: int,
) -> Result<Seq<u8>, InterlaceError> {
    if pass_empty(info, p) {
        Ok(Seq::empty())
    } else {
        match pass_raw(output, info, p) {
            Err(e) => Err(e),
            Ok(raw) => match rgba_of(raw, pass_geom(info, p), palette) {
                Err(e) => Err(InterlaceError::Convert(e)),
                Ok(rgba) => Ok(rgba),
            },
        }
    }
}

/// The error of the first of the passes from `p` on that fails to convert.
pub open spec fn first_bad_pass(
    output: Seq<u8>,
    info: PngInfo,
    palette: Option<Seq<Seq<u8>>>,
    p: int,
) -> Option<InterlaceError>
    decreases 7 - p,
{
    if p >= 7 {
        None
    } else {
        match pass_rgba(output, info, palette, p) {
            Err(e) => Some(e),
            Ok(_) => first_bad_pass(output, info, palette, p + 1),
        }
    }
}

/// Channel `c` of pixel `(x, y)` of the reassembled image.
pub open spec fn woven(
    output: Seq<u8>,
    info: PngInfo,
    palette: Option<Seq<Seq<u8>>>,
    x: int,
    y: int,
    c: int,
) -> u8 {
    let p = pass_of(x, y);
    pass_rgba(
        output,
        info,
        palette,
        p,
    )->Ok_0[(sub_y(x, y) * pass_width(info.width as int, p) + sub_x(x, y)) * 4 + c]
}

/// The reassembled image.
pub open spec fn woven_image(
    output: Seq<u8>,
    info: PngInfo,
    palette: Option<Seq<Seq<u8>>>,
) -> Seq<u8> {
    Seq::new(
        (info.height * info.width * 4) as nat,
        |i: int|
            woven(
                output,
                info,
                palette,
                (i / 4) % (info.width as int),
                (i / 4) / (info.width as int),
                i % 4,
            ),
    )
}

/// What [`deinterlace_to_rgba8`] makes of an interlaced output.
pub open spec fn deinterlace_of(
    output: Seq<u8>,
    info: PngInfo,
    palette: Option<Seq<Seq<u8>>>,
) -> Result<Seq<u8>, InterlaceError> {
    match first_bad_pass(output, info, palette, 0) {
        Some(e) => Err(e),
        None => Ok(woven_image(output, info, palette)),
    }
}

/// The byte slice pass `p` occupies in `output`.
fn take_pass<'a>(output: &'a [u8], info: &PngInfo, p: usize, offset: usize, pi: &PngInfo) -> (r:
    Result<&'a [u8], InterlaceError>)
    requires
        info.wf(),
        p < 7,
        !pass_empty(*info, p as int),
        *pi == pass_geom(*info, p as int),
        offset == pass_start(*info, p as int),
        offset <= output@.len(),
    ensures
        match pass_stream(output@, *info, p as int) {
            Some(s) => r matches Ok(v) && v@ == s,
            None => r == Err::<&'a [u8], _>(InterlaceError::Truncated),
        },
{
    proof {
        lemma_pass_len(*info, p as int);
    }
    let bytes: u128 = pi.height as u128 * pi.row_stride as u128;
    let room: usize = output.len() - offset;
    if bytes > room as u128 {
        return Err(InterlaceError::Truncated);
    }
    Ok(vstd::slice::slice_subrange(output, offset, offset + bytes as usize))
}

/// Unfilter one non-empty pass.
fn unfilter_pass(output: &[u8], info: &PngInfo, p: usize, offset: usize, pi: &PngInfo) -> (r:
    Result<Vec<u8>, InterlaceError>)
    requires
        info.wf(),
        p < 7,
        !pass_empty(*info, p as int),
        *pi == pass_geom(*info, p as int),
        pi.wf(),
        offset == pass_start(*info, p as int),
        offset <= output@.len(),
    ensures
        match pass_raw(output@, *info, p as int) {
            Ok(raw) => r matches Ok(v) && v@ == raw && pass_start(*info, p + 1) <= output@.len(),
            Err(e) => r == Err::<Vec<u8>, _>(e),
        },
{
    let stream: &[u8] = match take_pass(output, info, p, offset, pi) {
        Ok(s) => s,
        Err(e) => {
            return Err(e);
        },
    };
    match unfilter(stream, pi) {
        Ok(raw) => Ok(raw),
        Err(e) => Err(InterlaceError::Filter(e)),
    }
}

/// The first `n` rows have four bytes per pixel.
pub proof fn lemma_rgba_rows_len(
    raw: Seq<u8>,
    info: PngInfo,
    palette: Option<Seq<Seq<u8>>>,
    n: int,
)
    requires
        0 <= n,
        palette_wf(palette),
    ensures
        rgba_rows(raw, info, palette, n).len() == n * (4 * info.width),
    decreases n,
{
    let w4 = 4 * info.width as int;
    if n > 0 {
        lemma_rgba_rows_len(raw, info, palette, n - 1);
        super::convert::lemma_rgba_row_len(
            super::filter::buf_row(raw, info.row_bytes() as int, n - 1),
            info,
            palette,
            info.width as int,
        );
        assert(n * w4 == (n - 1) * w4 + w4) by (nonlinear_arith);
    } else {
        assert(0 * w4 == 0);
    }
}

/// A pass converted without error has four bytes per pixel.
proof fn lemma_pass_rgba_len(
    output: Seq<u8>,
    info: PngInfo,
    palette: Option<Seq<Seq<u8>>>,
    p: int,
)
    requires
        info.wf(),
        0 <= p < 7,
        palette_wf(palette),
    ensures
        pass_rgba(output, info, palette, p) matches Ok(rgba) ==> !pass_empty(info, p)
            ==> rgba.len() == pass_height(info.height as int, p) * (4 * pass_width(
            info.width as int,
            p,
        )),
{
    lemma_pass_geom(info, p);
    if let Ok(raw) = pass_raw(output, info, p) {
        let g = pass_geom(info, p);
        lemma_rgba_rows_len(raw, g, palette, g.height as int);
    }
}

/// Decode an Adam7 `output` to `width * height * 4` RGBA8.
pub fn deinterlace_to_rgba8(
    output: &[u8],
    info: &PngInfo,
    palette: Option<&[PaletteEntry]>,
) -> (r: Result<Vec<u8>, InterlaceError>)
    requires
        info.wf(),
    ensures
        match deinterlace_of(output@, *info, palette_view(palette)) {
            Ok(out) => r matches Ok(v) && v@ == out,
            Err(e) => r == Err::<Vec<u8>, _>(e),
        },
{
    let ghost pal = palette_view(palette);
    let mut passes: Vec<Vec<u8>> = Vec::new();
    let mut offset: usize = 0;
    let mut p: usize = 0;
    let n: usize = output.len();
    while p < 7
        invariant
            p <= 7,
            n == output@.len(),
            info.wf(),
            pal == palette_view(palette),
            offset == pass_start(*info, p as int),
            offset <= output@.len(),
            passes@.len() == p,
            forall|q: int|
                0 <= q < p ==> pass_rgba(output@, *info, pal, q) == Ok::<_, InterlaceError>(
                    (#[trigger] passes@[q])@,
                ),
            first_bad_pass(output@, *info, pal, 0) == first_bad_pass(
                output@,
                *info,
                pal,
                p as int,
            ),
        decreases 7 - p,
    {
        proof {
            lemma_pass_len(*info, p as int);
        }
        let ghost before = passes@;
        match pass_info(info, p) {
            None => {
                passes.push(Vec::new());
                assert(passes@[p as int]@ =~= Seq::<u8>::empty());
            },
            Some(pi) => {
                let raw: Vec<u8> = match unfilter_pass(output, info, p, offset, &pi) {
                    Ok(raw) => raw,
                    Err(e) => {
                        return Err(e);
                    },
                };
                match to_rgba8(raw.as_slice(), &pi, palette) {
                    Ok(rgba) => {
                        passes.push(rgba);
                    },
                    Err(e) => {
                        return Err(InterlaceError::Convert(e));
                    },
                }
                proof {
                    assert(pass_start(*info, p + 1) == offset + pass_len(*info, p as int));
                }
                let bytes: u128 = pi.height as u128 * pi.row_stride as u128;
                assert(bytes == pass_len(*info, p as int));
                offset = offset + bytes as usize;
            },
        }
        proof {
            assert forall|q: int| 0 <= q < p + 1 implies pass_rgba(output@, *info, pal, q) == Ok::<_, InterlaceError>(
                    (#[trigger] passes@[q])@,
                ) by {
                if q < p {
                    assert(passes@[q] == before[q]);
                }
            }
        }
        p = p + 1;
    }
    weave(output, info, palette, &passes)
}

/// Scatter the passes' pixels to their positions in the full raster.
fn weave(
    output: &[u8],
    info: &PngInfo,
    palette: Option<&[PaletteEntry]>,
    passes: &Vec<Vec<u8>>,
) -> (r: Result<Vec<u8>, InterlaceError>)
    requires
        info.wf(),
        passes@.len() == 7,
        forall|q: int|
            0 <= q < 7 ==> pass_rgba(output@, *info, palette_view(palette), q) == Ok::<_, InterlaceError>(
                    (#[trigger] passes@[q])@,
                ),
    ensures
        r matches Ok(v) && v@ == woven_image(output@, *info, palette_view(palette)),
{
    let ghost pal = palette_view(palette);
    let ghost want = woven_image(output@, *info, pal);
    let w: u32 = info.width;
    let mut rgba: Vec<u8> = Vec::new();
    let mut y: u32 = 0;
    proof {
        assert(0 * w == 0);
    }
    while y < info.height
        invariant
            y <= info.height,
            info.wf(),
            w == info.width,
            pal == palette_view(palette),
            want == woven_image(output@, *info, pal),
            passes@.len() == 7,
            forall|q: int|
                0 <= q < 7 ==> pass_rgba(output@, *info, pal, q) == Ok::<_, InterlaceError>(
                    (#[trigger] passes@[q])@,
                ),
            rgba@.len() == 4 * (y * w),
            forall|i: int| 0 <= i < rgba@.len() ==> #[trigger] rgba@[i] == want[i],
        decreases info.height - y,
    {
        proof {
            lemma_row_inside(y as int, info.height as int, w as int);
        }
        let mut x: u32 = 0;
        while x < w
            invariant
                x <= w,
                y < info.height,
                info.wf(),
                w == info.width,
                0 <= y * w,
                y * w + w <= info.height * w,
                pal == palette_view(palette),
                want == woven_image(output@, *info, pal),
                passes@.len() == 7,
                forall|q: int|
                    0 <= q < 7 ==> pass_rgba(output@, *info, pal, q) == Ok::<_, InterlaceError>(
                    (#[trigger] passes@[q])@,
                ),
                rgba@.len() == 4 * (y * w + x),
                forall|i: int| 0 <= i < rgba@.len() ==> #[trigger] rgba@[i] == want[i],
            decreases w - x,
        {
            let px: [u8; 4] = woven_pixel(output, info, palette, passes, x, y);
            let ghost before = rgba@;
            let ghost k = y * w + x;
            rgba.push(px[0]);
            rgba.push(px[1]);
            rgba.push(px[2]);
            rgba.push(px[3]);
            proof {
                vstd::arithmetic::div_mod::lemma_fundamental_div_mod_converse(
                    k,
                    w as int,
                    y as int,
                    x as int,
                );
                assert(before.len() == 4 * k);
                assert forall|i: int| 0 <= i < rgba@.len() implies #[trigger] rgba@[i]
                    == want[i] by {
                    if i < before.len() {
                        assert(rgba@[i] == before[i]);
                    } else {
                        let c = i - 4 * k;
                        assert(0 <= c < 4);
                        assert(i / 4 == k && i % 4 == c);
                        assert(rgba@[i] == px@[c]);
                    }
                }
            }
            x = x + 1;
        }
        y = y + 1;
    }
    assert(rgba@ =~= want);
    Ok(rgba)
}

/// Which pass owns pixel `(x, y)`.
pub fn owner_of(x: u32, y: u32) -> (r: usize)
    ensures
        r == pass_of(x as int, y as int),
        r < 7,
{
    if y % 2 == 1 {
        6
    } else if x % 2 == 1 {
        5
    } else if y % 4 == 2 {
        4
    } else if x % 4 == 2 {
        3
    } else if y % 8 == 4 {
        2
    } else if x % 8 == 4 {
        1
    } else {
        0
    }
}

/// The four channels of one pixel of the reassembled image.
fn woven_pixel(
    output: &[u8],
    info: &PngInfo,
    palette: Option<&[PaletteEntry]>,
    passes: &Vec<Vec<u8>>,
    x: u32,
    y: u32,
) -> (r: [u8; 4])
    requires
        info.wf(),
        x < info.width,
        y < info.height,
        passes@.len() == 7,
        forall|q: int|
            0 <= q < 7 ==> pass_rgba(output@, *info, palette_view(palette), q) == Ok::<_, InterlaceError>(
                    (#[trigger] passes@[q])@,
                ),
    ensures
        forall|c: int|
            0 <= c < 4 ==> #[trigger] r@[c] == woven(
                output@,
                *info,
                palette_view(palette),
                x as int,
                y as int,
                c,
            ),
{
    let p: usize = owner_of(x, y);
    let (pw, ph) = pass_dims(info.width, info.height, p);
    proof {
        lemma_sub_pixel(x as int, y as int, info.width as int, info.height as int);
        lemma_pass_rgba_len(output@, *info, palette_view(palette), p as int);
        assert(passes@[p as int]@.len() == ph * (4 * pw));
    }
    let sx: u32 = (x - PASS_X0[p]) / PASS_DX[p];
    let sy: u32 = (y - PASS_Y0[p]) / PASS_DY[p];
    let pass = &passes[p];
    let len: usize = pass.len();
    proof {
        lemma_row_inside(sy as int, ph as int, pw as int);
        assert(ph * (4 * pw) == 4 * (ph * pw)) by (nonlinear_arith);
        assert(0 <= pw <= ph * pw) by (nonlinear_arith)
            requires
                ph >= 1,
                pw >= 0,
        ;
    }
    let at: usize = (sy as usize * pw as usize + sx as usize) * 4;
    let r: [u8; 4] = [pass[at], pass[at + 1], pass[at + 2], pass[at + 3]];
    proof {
        assert forall|c: int| 0 <= c < 4 implies #[trigger] r@[c] == woven(
            output@,
            *info,
            palette_view(palette),
            x as int,
            y as int,
            c,
        ) by {
            assert(passes@[p as int]@[at + c] == r@[c]);
        }
    }
    r
}

/// The raw bytes of the passes from `p` on, in pass order.
pub open spec fn raw_passes(output: Seq<u8>, info: PngInfo, p: int) -> Result<
    Seq<u8>,
    InterlaceError,
>
    decreases 7 - p,
{
    if p >= 7 {
        Ok(Seq::empty())
    } else {
        match pass_raw(output, info, p) {
            Err(e) => Err(e),
            Ok(raw) => match raw_passes(output, info, p + 1) {
                Err(e) => Err(e),
                Ok(rest) => Ok(raw + rest),
            },
        }
    }
}

/// Passes that convert can be unfiltered.
pub proof fn lemma_passes_unfilter(
    output: Seq<u8>,
    info: PngInfo,
    palette: Option<Seq<Seq<u8>>>,
    p: int,
)
    requires
        0 <= p,
        first_bad_pass(output, info, palette, p) is None,
    ensures
        raw_passes(output, info, p) is Ok,
    decreases 7 - p,
{
    if p < 7 {
        lemma_passes_unfilter(output, info, palette, p + 1);
    }
}

/// The per-pass unfiltered bytes, concatenated in pass order, for the
/// glass-box path. Each pass contributes `pass_height * (row_stride - 1)`
/// bytes.
pub fn deinterlace_unfilter(output: &[u8], info: &PngInfo) -> (r: Result<Vec<u8>, InterlaceError>)
    requires
        info.wf(),
    ensures
        match raw_passes(output@, *info, 0) {
            Ok(out) => r matches Ok(v) && v@ == out,
            Err(e) => r == Err::<Vec<u8>, _>(e),
        },
{
    let mut out: Vec<u8> = Vec::new();
    let mut offset: usize = 0;
    let mut p: usize = 0;
    let n: usize = output.len();
    while p < 7
        invariant
            p <= 7,
            n == output@.len(),
            info.wf(),
            offset == pass_start(*info, p as int),
            offset <= output@.len(),
            match raw_passes(output@, *info, p as int) {
                Ok(rest) => raw_passes(output@, *info, 0) == Ok::<_, InterlaceError>(out@ + rest),
                Err(e) => raw_passes(output@, *info, 0) == Err::<Seq<u8>, _>(e),
            },
        decreases 7 - p,
    {
        proof {
            lemma_pass_len(*info, p as int);
        }
        let ghost before = out@;
        match pass_info(info, p) {
            None => {
                proof {
                    if let Ok(rest) = raw_passes(output@, *info, p + 1) {
                        assert(Seq::<u8>::empty() + rest =~= rest);
                    }
                }
            },
            Some(pi) => {
                let raw: Vec<u8> = match unfilter_pass(output, info, p, offset, &pi) {
                    Ok(raw) => raw,
                    Err(e) => {
                        return Err(e);
                    },
                };
                out.extend_from_slice(raw.as_slice());
                proof {
                    assert(out@ =~= before + raw@);
                    if let Ok(rest) = raw_passes(output@, *info, p + 1) {
                        assert(before + (raw@ + rest) =~= out@ + rest);
                    }
                }
                proof {
                    assert(pass_start(*info, p + 1) == offset + pass_len(*info, p as int));
                }
                let bytes: u128 = pi.height as u128 * pi.row_stride as u128;
                assert(bytes == pass_len(*info, p as int));
                offset = offset + bytes as usize;
            },
        }
        p = p + 1;
    }
    assert(out@ + Seq::<u8>::empty() =~= out@);
    Ok(out)
}

} // verus!
