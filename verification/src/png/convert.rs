//! Convert unfiltered PNG bytes to `w*h*4` RGBA8 for display.
//!
//! Covers every PNG colour mode the format defines:
//! - RGB / RGBA / Greyscale / GreyAlpha at 8-bit and 16-bit depth
//! - Indexed (palette) at 1, 2, 4, or 8-bit depth
//! - Greyscale at 1, 2, or 4-bit depth (scaled to 8-bit luma per PNG §13.10)
//!
//! Sub-byte depths pack pixels MSB-first within each byte and pad rows
//! to a whole-byte boundary; the unfilter step runs on bytes regardless
//! of pixel depth, so this layer just unpacks.

use vstd::prelude::*;

use super::chunks::{ColorType, PngInfo};
use super::filter::{buf_row, lemma_row_inside, lemma_rows_apart, with_row};

verus! {

#[derive(Debug, Clone, Copy, PartialEq, Eq, Structural)]
pub enum ConvertError {
    UnsupportedDepth { color_type: ColorType, bit_depth: u8 },
    MissingPalette,
    TruncatedInput { expected: usize, actual: usize },
    /// Allocating the RGBA buffer would overflow `usize` or exceed
    /// `u32::MAX` bytes. Returned when callers pass IHDR dimensions
    /// without the loader's prior dimension check.
    OutputTooLarge { width: u32, height: u32 },
}

/// Palette entry: RGBA, with alpha defaulting to 255 when no tRNS is present.
pub type PaletteEntry = [u8; 4];

/// The colours of a palette.
pub open spec fn palette_view(palette: Option<&[PaletteEntry]>) -> Option<Seq<Seq<u8>>> {
    match palette {
        Some(p) => Some(Seq::new(p@.len(), |i: int| p@[i]@)),
        None => None,
    }
}

// One pixel.

/// Sample `c` of pixel `x`, at 8 bits or more: its (high) byte.
pub open spec fn byte_sample(row: Seq<u8>, info: PngInfo, c: int, x: int) -> u8 {
    row[x * info.bpp + c * (info.bit_depth / 8)]
}

/// The sample of pixel `x` at a depth below 8 bits: pixels are packed from the
/// most significant bit on.
pub open spec fn packed_sample(row: Seq<u8>, depth: u8, x: int) -> u8 {
    if depth == 1 {
        (row[x / 8] >> ((7 - x % 8) as u8)) & 1
    } else if depth == 2 {
        (row[x / 4] >> ((6 - 2 * (x % 4)) as u8)) & 3
    } else {
        (row[x / 2] >> ((4 - 4 * (x % 2)) as u8)) & 15
    }
}

/// Greyscale samples below 8 bits scale to the full range (PNG §13.10).
pub open spec fn luma_scale(depth: u8) -> int {
    if depth == 1 {
        255
    } else if depth == 2 {
        85
    } else {
        17
    }
}

/// The colour of palette index `i`; transparent black outside the palette.
pub open spec fn palette_color(palette: Option<Seq<Seq<u8>>>, i: int) -> Seq<u8> {
    match palette {
        Some(p) if i < p.len() => p[i],
        _ => seq![0u8, 0u8, 0u8, 0u8],
    }
}

/// The RGBA8 colour of pixel `x` of a raw row.
pub open spec fn pixel(row: Seq<u8>, info: PngInfo, palette: Option<Seq<Seq<u8>>>, x: int) -> Seq<
    u8,
> {
    let s = |c: int| byte_sample(row, info, c, x);
    let low = packed_sample(row, info.bit_depth, x);
    match info.color_type {
        ColorType::Rgba => seq![s(0), s(1), s(2), s(3)],
        ColorType::Rgb => seq![s(0), s(1), s(2), 255u8],
        ColorType::GreyAlpha => seq![s(0), s(0), s(0), s(1)],
        ColorType::Greyscale => {
            let v = if info.bit_depth >= 8 {
                s(0)
            } else {
                (low * luma_scale(info.bit_depth)) as u8
            };
            seq![v, v, v, 255u8]
        },
        ColorType::Indexed => palette_color(
            palette,
            if info.bit_depth >= 8 {
                s(0) as int
            } else {
                low as int
            },
        ),
    }
}

/// Why a colour mode cannot be converted.
pub open spec fn convert_error(info: PngInfo, palette: Option<Seq<Seq<u8>>>) -> Option<
    ConvertError,
> {
    if !info.color_type.depth_allowed(info.bit_depth) {
        Some(
            ConvertError::UnsupportedDepth {
                color_type: info.color_type,
                bit_depth: info.bit_depth,
            },
        )
    } else if info.color_type == ColorType::Indexed && palette is None {
        Some(ConvertError::MissingPalette)
    } else {
        None
    }
}

/// The first `n` pixels of a raw row as RGBA8.
pub open spec fn rgba_row(
    row: Seq<u8>,
    info: PngInfo,
    palette: Option<Seq<Seq<u8>>>,
    n: int,
) -> Seq<u8>
    decreases n,
{
    if n <= 0 {
        Seq::empty()
    } else {
        rgba_row(row, info, palette, n - 1) + pixel(row, info, palette, n - 1)
    }
}

/// The first `n` rows of a raw buffer as RGBA8.
pub open spec fn rgba_rows(
    raw: Seq<u8>,
    info: PngInfo,
    palette: Option<Seq<Seq<u8>>>,
    n: int,
) -> Seq<u8>
    decreases n,
{
    if n <= 0 {
        Seq::empty()
    } else {
        rgba_rows(raw, info, palette, n - 1) + rgba_row(
            buf_row(raw, info.row_bytes() as int, n - 1),
            info,
            palette,
            info.width as int,
        )
    }
}

/// A palette's colours have four bytes each.
pub open spec fn palette_wf(palette: Option<Seq<Seq<u8>>>) -> bool {
    palette matches Some(p) ==> forall|i: int| 0 <= i < p.len() ==> (#[trigger] p[i]).len() == 4
}

pub proof fn lemma_rgba_row_len(
    row: Seq<u8>,
    info: PngInfo,
    palette: Option<Seq<Seq<u8>>>,
    n: int,
)
    requires
        0 <= n,
        palette_wf(palette),
    ensures
        rgba_row(row, info, palette, n).len() == 4 * n,
    decreases n,
{
    if n > 0 {
        lemma_rgba_row_len(row, info, palette, n - 1);
    }
}

/// How a legal colour mode lays out a row.
pub proof fn lemma_layout(info: PngInfo)
    requires
        info.legal(),
    ensures
        info.bit_depth >= 8 ==> info.bpp == info.color_type.spec_channels() * (info.bit_depth / 8)
            && info.row_bytes() == info.width * info.bpp,
        info.bit_depth < 8 ==> info.bpp == 1 && info.row_bytes() == (info.width * info.bit_depth
            + 7) / 8,
        info.bpp >= 1,
{
    let w = info.width as int;
    let d = info.bit_depth as int;
    let ch = info.color_type.spec_channels() as int;
    if d >= 8 {
        let k = ch * (d / 8);
        assert(d * ch == 8 * k) by (nonlinear_arith)
            requires
                d == 8 || d == 16,
                k == ch * (d / 8),
        ;
        assert((8 * k + 7) / 8 == k);
        assert(w * (8 * k) == 8 * (w * k)) by (nonlinear_arith);
        assert(k >= 1) by (nonlinear_arith)
            requires
                ch >= 1,
                d == 8 || d == 16,
                k == ch * (d / 8),
        ;
    } else {
        assert(ch == 1);
        assert(d * ch == d);
        assert(w * (d * ch) == w * d);
    }
}

/// Where a pixel's bytes lie in its row.
proof fn lemma_pixel_inside(info: PngInfo, x: int, j: int)
    requires
        info.legal(),
        0 <= x < info.width,
        0 <= j < info.bpp,
    ensures
        info.bit_depth >= 8 ==> 0 <= x * info.bpp && x * info.bpp + j < info.row_bytes(),
        info.bit_depth == 1 ==> x / 8 < info.row_bytes(),
        info.bit_depth == 2 ==> x / 4 < info.row_bytes(),
        info.bit_depth == 4 ==> x / 2 < info.row_bytes(),
{
    lemma_layout(info);
    if info.bit_depth >= 8 {
        lemma_row_inside(x, info.width as int, info.bpp as int);
    } else if info.bit_depth == 1 {
        assert(info.width * info.bit_depth == info.width) by (nonlinear_arith)
            requires
                info.bit_depth == 1,
        ;
    } else if info.bit_depth == 2 {
        assert(info.width * info.bit_depth == 2 * info.width) by (nonlinear_arith)
            requires
                info.bit_depth == 2,
        ;
    } else {
        assert(info.width * info.bit_depth == 4 * info.width) by (nonlinear_arith)
            requires
                info.bit_depth == 4,
        ;
    }
}

fn read_byte_sample(row: &[u8], info: &PngInfo, c: usize, x: usize) -> (r: u8)
    requires
        info.legal(),
        info.bit_depth >= 8,
        row@.len() == info.row_bytes(),
        x < info.width,
        c < info.color_type.spec_channels(),
    ensures
        r == byte_sample(row@, *info, c as int, x as int),
{
    let per: usize = (info.bit_depth / 8) as usize;
    proof {
        lemma_layout(*info);
        let ch = info.color_type.spec_channels() as int;
        assert(0 <= c * per < ch * per) by (nonlinear_arith)
            requires
                0 <= c < ch,
                per >= 1,
        ;
        lemma_pixel_inside(*info, x as int, c * per);
    }
    let len: usize = row.len();
    row[x * info.bpp + c * per]
}

fn read_packed_sample(row: &[u8], info: &PngInfo, x: usize) -> (r: u8)
    requires
        info.legal(),
        info.bit_depth < 8,
        row@.len() == info.row_bytes(),
        x < info.width,
    ensures
        r == packed_sample(row@, info.bit_depth, x as int),
        r * luma_scale(info.bit_depth) <= 255,
{
    proof {
        lemma_layout(*info);
        lemma_pixel_inside(*info, x as int, 0);
    }
    if info.bit_depth == 1 {
        let v: u8 = row[x / 8] >> ((7 - x % 8) as u8);
        assert(v & 1 <= 1) by (bit_vector);
        v & 1
    } else if info.bit_depth == 2 {
        let v: u8 = row[x / 4] >> ((6 - 2 * (x % 4)) as u8);
        assert(v & 3 <= 3) by (bit_vector);
        v & 3
    } else {
        let v: u8 = row[x / 2] >> ((4 - 4 * (x % 2)) as u8);
        assert(v & 15 <= 15) by (bit_vector);
        v & 15
    }
}

/// The RGBA8 colour of pixel `x` of a raw row.
fn pixel_rgba(row: &[u8], info: &PngInfo, palette: Option<&[PaletteEntry]>, x: usize) -> (r: [u8; 4])
    requires
        info.legal(),
        row@.len() == info.row_bytes(),
        x < info.width,
    ensures
        r@ == pixel(row@, *info, palette_view(palette), x as int),
{
    let r: [u8; 4] = match info.color_type {
        ColorType::Rgba => [
            read_byte_sample(row, info, 0, x),
            read_byte_sample(row, info, 1, x),
            read_byte_sample(row, info, 2, x),
            read_byte_sample(row, info, 3, x),
        ],
        ColorType::Rgb => [
            read_byte_sample(row, info, 0, x),
            read_byte_sample(row, info, 1, x),
            read_byte_sample(row, info, 2, x),
            255,
        ],
        ColorType::GreyAlpha => {
            let v: u8 = read_byte_sample(row, info, 0, x);
            [v, v, v, read_byte_sample(row, info, 1, x)]
        },
        ColorType::Greyscale => {
            // Sub-byte values scale to 8-bit luma via the spec's
            // "value * (255 / (2^bd - 1))" rule.
            let v: u8 = if info.bit_depth >= 8 {
                read_byte_sample(row, info, 0, x)
            } else {
                let low: u8 = read_packed_sample(row, info, x);
                if info.bit_depth == 1 {
                    low * 255
                } else if info.bit_depth == 2 {
                    low * 85
                } else {
                    low * 17
                }
            };
            [v, v, v, 255]
        },
        ColorType::Indexed => {
            let idx: usize = if info.bit_depth >= 8 {
                read_byte_sample(row, info, 0, x) as usize
            } else {
                read_packed_sample(row, info, x) as usize
            };
            match palette {
                Some(p) => {
                    if idx < p.len() {
                        p[idx]
                    } else {
                        [0, 0, 0, 0]
                    }
                },
                None => [0, 0, 0, 0],
            }
        },
    };
    assert(r@ =~= pixel(row@, *info, palette_view(palette), x as int));
    r
}

fn mode_error(info: &PngInfo, palette: Option<&[PaletteEntry]>) -> (r: Option<ConvertError>)
    ensures
        r == convert_error(*info, palette_view(palette)),
{
    if !info.color_type.allows_bit_depth(info.bit_depth) {
        return Some(
            ConvertError::UnsupportedDepth {
                color_type: info.color_type,
                bit_depth: info.bit_depth,
            },
        );
    }
    if info.color_type == ColorType::Indexed && palette.is_none() {
        return Some(ConvertError::MissingPalette);
    }
    None
}

/// Convert one row worth of unfiltered pixels into four-byte RGBA.
fn to_rgba8_row(
    unfiltered: &[u8],
    info: &PngInfo,
    palette: Option<&[PaletteEntry]>,
    y: usize,
) -> (r: Vec<u8>)
    requires
        info.legal(),
        y < info.height,
        unfiltered@.len() >= info.height * info.row_bytes(),
    ensures
        r@ == rgba_row(
            buf_row(unfiltered@, info.row_bytes() as int, y as int),
            *info,
            palette_view(palette),
            info.width as int,
        ),
        r@.len() == 4 * info.width,
{
    let rb: usize = info.row_stride - 1;
    proof {
        lemma_row_inside(y as int, info.height as int, rb as int);
    }
    let len: usize = unfiltered.len();
    let base: usize = y * rb;
    let row = vstd::slice::slice_subrange(unfiltered, base, base + rb);
    let mut out: Vec<u8> = Vec::new();
    let mut x: u32 = 0;
    while x < info.width
        invariant
            x <= info.width,
            x <= usize::MAX,
            info.legal(),
            row@ == buf_row(unfiltered@, info.row_bytes() as int, y as int),
            row@.len() == info.row_bytes(),
            out@ == rgba_row(row@, *info, palette_view(palette), x as int),
            out@.len() == 4 * x,
        decreases info.width - x,
    {
        proof {
            lemma_pixel_inside(*info, x as int, 0);
        }
        let px: [u8; 4] = pixel_rgba(row, info, palette, x as usize);
        let ghost before = out@;
        out.push(px[0]);
        out.push(px[1]);
        out.push(px[2]);
        out.push(px[3]);
        assert(out@ =~= before + px@);
        x = x + 1;
    }
    out
}

/// `n` as a `usize` error field.
pub open spec fn expected_len(n: nat) -> usize {
    if n <= usize::MAX {
        n as usize
    } else {
        usize::MAX
    }
}

/// Verify `unfiltered` has the full `h * (row_stride - 1)` bytes the
/// row-walking code will read. Shared between [`to_rgba8`] and
/// [`to_rgba8_rows_into`] so the contract is one definition.
fn require_full_unfiltered(unfiltered: &[u8], info: &PngInfo) -> (r: Option<ConvertError>)
    requires
        info.wf(),
    ensures
        r == (if unfiltered@.len() < info.height * info.row_bytes() {
            Some(
                ConvertError::TruncatedInput {
                    expected: expected_len(info.height as nat * info.row_bytes()),
                    actual: unfiltered@.len() as usize,
                },
            )
        } else {
            None
        }),
{
    let rb: usize = info.row_stride - 1;
    proof {
        assert(0 <= info.height * rb <= 0xFFFF_FFFF * 0xFFFF_FFFF_FFFF_FFFF) by (nonlinear_arith)
            requires
                info.height <= 0xFFFF_FFFF,
                rb <= 0xFFFF_FFFF_FFFF_FFFF,
        ;
    }
    let expected: u128 = info.height as u128 * rb as u128;
    if (unfiltered.len() as u128) < expected {
        let field: usize = if expected <= usize::MAX as u128 {
            expected as usize
        } else {
            usize::MAX
        };
        return Some(ConvertError::TruncatedInput { expected: field, actual: unfiltered.len() });
    }
    None
}

/// What [`to_rgba8`] makes of a raw buffer.
pub open spec fn rgba_of(raw: Seq<u8>, info: PngInfo, palette: Option<Seq<Seq<u8>>>) -> Result<
    Seq<u8>,
    ConvertError,
> {
    if info.width * info.height * 4 > u32::MAX {
        Err(ConvertError::OutputTooLarge { width: info.width, height: info.height })
    } else if raw.len() < info.height * info.row_bytes() {
        Err(
            ConvertError::TruncatedInput {
                expected: expected_len(info.height as nat * info.row_bytes()),
                actual: raw.len() as usize,
            },
        )
    } else {
        match convert_error(info, palette) {
            Some(e) if info.height > 0 => Err(e),
            _ => Ok(rgba_rows(raw, info, palette, info.height as int)),
        }
    }
}

/// Convert unfiltered bytes to `w*h*4` RGBA8. Rejects pathological
/// dimensions before allocating (caps at the loader's `u32::MAX`
/// limit) and pre-checks the unfiltered input length against the
/// expected `h * (row_stride - 1)` row-data bytes; for sub-byte depths
/// that's smaller than `n_pixels * bpp` because multiple pixels pack
/// into a byte.
pub fn to_rgba8(
    unfiltered: &[u8],
    info: &PngInfo,
    palette: Option<&[PaletteEntry]>,
) -> (r: Result<Vec<u8>, ConvertError>)
    requires
        info.wf(),
    ensures
        match rgba_of(unfiltered@, *info, palette_view(palette)) {
            Ok(out) => r matches Ok(v) && v@ == out,
            Err(e) => r == Err::<Vec<u8>, _>(e),
        },
{
    proof {
        assert(0 <= info.width * info.height <= 0xFFFF_FFFF * 0xFFFF_FFFF) by (nonlinear_arith)
            requires
                info.width <= 0xFFFF_FFFF,
                info.height <= 0xFFFF_FFFF,
        ;
    }
    let total: u128 = info.width as u128 * info.height as u128 * 4;
    if total > u32::MAX as u128 {
        return Err(ConvertError::OutputTooLarge { width: info.width, height: info.height });
    }
    if let Some(e) = require_full_unfiltered(unfiltered, info) {
        return Err(e);
    }
    let mut rgba: Vec<u8> = Vec::new();
    if info.height > 0 {
        if let Some(e) = mode_error(info, palette) {
            return Err(e);
        }
    }
    let mut y: u32 = 0;
    while y < info.height
        invariant
            y <= info.height,
            info.wf(),
            info.height > 0 ==> info.legal(),
            unfiltered@.len() >= info.height * info.row_bytes(),
            rgba@ == rgba_rows(unfiltered@, *info, palette_view(palette), y as int),
        decreases info.height - y,
    {
        let row: Vec<u8> = to_rgba8_row(unfiltered, info, palette, y as usize);
        let ghost before = rgba@;
        rgba.extend_from_slice(row.as_slice());
        assert(rgba@ =~= before + row@);
        y = y + 1;
    }
    Ok(rgba)
}

/// The RGBA buffer with the first `n` of the listed rows converted anew.
pub open spec fn with_rgba_rows(
    raw: Seq<u8>,
    info: PngInfo,
    palette: Option<Seq<Seq<u8>>>,
    rgba: Seq<u8>,
    rows: Seq<usize>,
    n: int,
) -> Seq<u8>
    decreases n,
{
    if n <= 0 {
        rgba
    } else {
        let y = rows[n - 1] as int;
        with_row(
            with_rgba_rows(raw, info, palette, rgba, rows, n - 1),
            y * (4 * info.width),
            rgba_row(
                buf_row(raw, info.row_bytes() as int, y),
                info,
                palette,
                info.width as int,
            ),
        )
    }
}

/// Row `y` is a row of the image, and a buffer of `len` bytes holds its pixels.
pub open spec fn row_slot(info: PngInfo, len: nat, y: int) -> bool {
    y < info.height && y * (4 * info.width) + 4 * info.width <= len
}

/// Convert `rows` (in whatever order, typically sorted) from the unfiltered
/// buffer into their RGBA slots in `rgba`. Used by the incremental edit
/// path: a literal swap touches a handful of rows, not the whole image.
pub fn to_rgba8_rows_into(
    unfiltered: &[u8],
    info: &PngInfo,
    palette: Option<&[PaletteEntry]>,
    rgba: &mut [u8],
    rows: &[usize],
) -> (r: Result<(), ConvertError>)
    requires
        info.wf(),
        unfiltered@.len() >= info.height * info.row_bytes() && convert_error(
            *info,
            palette_view(palette),
        ) is None ==> forall|i: int|
            0 <= i < rows@.len() ==> row_slot(*info, old(rgba)@.len(), #[trigger] rows@[i] as int),
    ensures
        final(rgba)@.len() == old(rgba)@.len(),
        if unfiltered@.len() < info.height * info.row_bytes() {
            r == Err::<(), _>(
                ConvertError::TruncatedInput {
                    expected: expected_len(info.height as nat * info.row_bytes()),
                    actual: unfiltered@.len() as usize,
                },
            ) && final(rgba)@ == old(rgba)@
        } else {
            match convert_error(*info, palette_view(palette)) {
                Some(e) if rows@.len() > 0 => r == Err::<(), _>(e) && final(rgba)@ == old(rgba)@,
                _ => r is Ok && final(rgba)@ == with_rgba_rows(
                    unfiltered@,
                    *info,
                    palette_view(palette),
                    old(rgba)@,
                    rows@,
                    rows@.len() as int,
                ),
            }
        },
{
    if let Some(e) = require_full_unfiltered(unfiltered, info) {
        return Err(e);
    }
    if rows.len() > 0 {
        if let Some(e) = mode_error(info, palette) {
            return Err(e);
        }
    }
    let mut n: usize = 0;
    let len: usize = rgba.len();
    while n < rows.len()
        invariant
            n <= rows@.len(),
            info.wf(),
            rows@.len() > 0 ==> info.legal(),
            unfiltered@.len() >= info.height * info.row_bytes(),
            rgba@.len() == old(rgba)@.len(),
            len == rgba@.len(),
            forall|i: int|
                0 <= i < rows@.len() ==> row_slot(*info, len as nat, #[trigger] rows@[i] as int),
            rgba@ == with_rgba_rows(
                unfiltered@,
                *info,
                palette_view(palette),
                old(rgba)@,
                rows@,
                n as int,
            ),
        decreases rows@.len() - n,
    {
        let y: usize = rows[n];
        assert(row_slot(*info, len as nat, rows@[n as int] as int));
        let row: Vec<u8> = to_rgba8_row(unfiltered, info, palette, y);
        let width4: usize = row.len();
        proof {
            assert(0 <= y * (4 * info.width)) by (nonlinear_arith)
                requires
                    0 <= y,
                    0 <= info.width,
            ;
        }
        let base: usize = y * width4;
        let ghost before = rgba@;
        let mut i: usize = 0;
        while i < width4
            invariant
                i <= width4,
                width4 == row@.len(),
                rgba@.len() == len,
                before.len() == len,
                base + width4 <= len,
                forall|k: int|
                    0 <= k < len ==> #[trigger] rgba@[k] == (if base <= k < base + i {
                        row@[k - base]
                    } else {
                        before[k]
                    }),
            decreases width4 - i,
        {
            rgba[base + i] = row[i];
            i = i + 1;
        }
        assert(rgba@ =~= with_row(before, base as int, row@));
        n = n + 1;
    }
    Ok(())
}

// Palettes and colour keys.

/// A palette from PLTE triples, with alphas from tRNS.
pub open spec fn palette_of(plte: Seq<u8>, trns: Option<Seq<u8>>) -> Seq<Seq<u8>> {
    Seq::new(
        (plte.len() / 3) as nat,
        |i: int|
            seq![
                plte[3 * i],
                plte[3 * i + 1],
                plte[3 * i + 2],
                match trns {
                    Some(t) if i < t.len() => t[i],
                    _ => 255u8,
                },
            ],
    )
}

pub open spec fn slice_view(s: Option<&[u8]>) -> Option<Seq<u8>> {
    match s {
        Some(v) => Some(v@),
        None => None,
    }
}

/// The colours of a list of entries.
pub open spec fn entry_views(p: Seq<PaletteEntry>) -> Seq<Seq<u8>> {
    Seq::new(p.len(), |i: int| p[i]@)
}

/// Decode a PLTE chunk into its palette. A trailing partial RGB triple is
/// ignored; `trns` if present supplies per-index alphas.
pub fn decode_palette(plte: &[u8], trns: Option<&[u8]>) -> (r: Vec<PaletteEntry>)
    ensures
        entry_views(r@) == palette_of(plte@, slice_view(trns)),
{
    let mut pal: Vec<PaletteEntry> = Vec::new();
    let len: usize = plte.len();
    let n: usize = len / 3;
    let mut i: usize = 0;
    let ghost want = palette_of(plte@, slice_view(trns));
    while i < n
        invariant
            i <= n,
            len == plte@.len(),
            n == len / 3,
            pal@.len() == i,
            want == palette_of(plte@, slice_view(trns)),
            forall|k: int| 0 <= k < i ==> (#[trigger] pal@[k])@ == want[k],
        decreases n - i,
    {
        let a: u8 = match trns {
            Some(t) => {
                if i < t.len() {
                    t[i]
                } else {
                    255
                }
            },
            None => 255,
        };
        let e: PaletteEntry = [plte[3 * i], plte[3 * i + 1], plte[3 * i + 2], a];
        assert(e@ =~= want[i as int]);
        pal.push(e);
        i = i + 1;
    }
    assert(entry_views(pal@) =~= want);
    pal
}

/// A tRNS colour key: pixels whose samples equal this value decode to
/// transparent (PNG spec §11.3.2, colour types Greyscale and RGB only).
/// Indexed transparency is folded into the palette by [`decode_palette`].
#[derive(Debug, Clone, Copy, PartialEq, Eq, Structural)]
pub enum TrnsKey {
    Grey(u16),
    Rgb(u16, u16, u16),
}

/// A key sample in the 8-bit space that conversion produces.
pub open spec fn key_byte(s: u16, bit_depth: u8) -> u8 {
    if bit_depth == 16 {
        (s / 256) as u8
    } else if bit_depth == 8 {
        (s % 256) as u8
    } else {
        ((s * luma_scale(
            if bit_depth == 4 || bit_depth == 2 {
                bit_depth
            } else {
                1
            },
        )) % 256) as u8
    }
}

impl TrnsKey {
    /// The key as an 8-bit RGB triple.
    pub open spec fn rgb8(self, bit_depth: u8) -> (u8, u8, u8) {
        match self {
            TrnsKey::Grey(g) => (
                key_byte(g, bit_depth),
                key_byte(g, bit_depth),
                key_byte(g, bit_depth),
            ),
            TrnsKey::Rgb(r, g, b) => (
                key_byte(r, bit_depth),
                key_byte(g, bit_depth),
                key_byte(b, bit_depth),
            ),
        }
    }

    /// The key as an 8-bit RGB triple in the space [`to_rgba8`] produces,
    /// so a matching pixel is found by RGB comparison. Sub-byte greyscale
    /// scales by the spec's `255 / (2^bd - 1)` rule; 16-bit takes the high
    /// byte, matching the decoder's downsample.
    fn to_rgb8(self, bit_depth: u8) -> (r: (u8, u8, u8))
        ensures
            r == self.rgb8(bit_depth),
    {
        match self {
            TrnsKey::Grey(g) => {
                let v: u8 = scale_key(g, bit_depth);
                (v, v, v)
            },
            TrnsKey::Rgb(r, g, b) => (
                scale_key(r, bit_depth),
                scale_key(g, bit_depth),
                scale_key(b, bit_depth),
            ),
        }
    }
}

fn scale_key(s: u16, bit_depth: u8) -> (r: u8)
    ensures
        r == key_byte(s, bit_depth),
{
    match bit_depth {
        16 => (s / 256) as u8,
        8 => (s % 256) as u8,
        4 => ((s as u32 * 17) % 256) as u8,
        2 => ((s as u32 * 85) % 256) as u8,
        _ => ((s as u32 * 255) % 256) as u8,
    }
}

/// A buffer with every pixel of colour `key` made transparent.
pub open spec fn keyed_out(rgba: Seq<u8>, key: (u8, u8, u8)) -> Seq<u8> {
    Seq::new(
        rgba.len(),
        |i: int|
            if i % 4 == 3 && rgba[i - 3] == key.0 && rgba[i - 2] == key.1 && rgba[i - 1] == key.2 {
                0u8
            } else {
                rgba[i]
            },
    )
}

/// Set alpha to 0 on every pixel whose RGB equals the tRNS colour `key`.
/// Call after [`to_rgba8`] for Greyscale / RGB images that carry a tRNS
/// chunk. Exact for 1/2/4/8-bit; approximate for 16-bit (matches the
/// high-byte decode).
pub fn apply_color_key(rgba: &mut [u8], info: &PngInfo, key: TrnsKey)
    ensures
        final(rgba)@ == keyed_out(old(rgba)@, key.rgb8(info.bit_depth)),
{
    let target: (u8, u8, u8) = key.to_rgb8(info.bit_depth);
    let n: usize = rgba.len() / 4;
    let mut p: usize = 0;
    let len: usize = rgba.len();
    while p < n
        invariant
            p <= n,
            n == len / 4,
            len == rgba@.len(),
            len == old(rgba)@.len(),
            forall|i: int|
                0 <= i < len ==> #[trigger] rgba@[i] == (if i < 4 * p {
                    keyed_out(old(rgba)@, target)[i]
                } else {
                    old(rgba)@[i]
                }),
        decreases n - p,
    {
        if rgba[4 * p] == target.0 && rgba[4 * p + 1] == target.1 && rgba[4 * p + 2] == target.2 {
            rgba[4 * p + 3] = 0;
        }
        p = p + 1;
    }
    assert(rgba@ =~= keyed_out(old(rgba)@, target));
}

// Packing.

/// Which RGBA channel sample `c` of a colour type is taken from.
pub open spec fn source_channel(ct: ColorType, c: int) -> int {
    match ct {
        ColorType::GreyAlpha => if c == 0 {
            0
        } else {
            3
        },
        ColorType::Greyscale => 0,
        _ => c,
    }
}

/// The raw row of `w` RGBA8 pixels; a 16-bit sample repeats its byte.
pub open spec fn packed_row(px: Seq<u8>, info: PngInfo) -> Seq<u8> {
    Seq::new(
        (info.width * info.bpp) as nat,
        |i: int|
            px[(i / info.bpp as int) * 4 + source_channel(
                info.color_type,
                (i % info.bpp as int) / (info.bit_depth as int / 8),
            )],
    )
}

/// The first `n` raw rows of an RGBA8 image.
pub open spec fn packed_rows(rgba: Seq<u8>, info: PngInfo, n: int) -> Seq<u8>
    decreases n,
{
    if n <= 0 {
        Seq::empty()
    } else {
        packed_rows(rgba, info, n - 1) + packed_row(
            buf_row(rgba, 4 * info.width as int, n - 1),
            info,
        )
    }
}

/// Colour modes that [`pack`] writes: byte-aligned and not indexed.
pub open spec fn packable(info: PngInfo) -> bool {
    info.color_type != ColorType::Indexed && (info.bit_depth == 8 || info.bit_depth == 16)
}

/// What [`pack`] makes of an RGBA8 image.
pub open spec fn pack_of(rgba: Seq<u8>, info: PngInfo) -> Result<Seq<u8>, ConvertError> {
    if rgba.len() < info.height * (4 * info.width) {
        Err(
            ConvertError::TruncatedInput {
                expected: expected_len((info.height * (4 * info.width)) as nat),
                actual: rgba.len() as usize,
            },
        )
    } else if info.height > 0 && !packable(info) {
        Err(
            ConvertError::UnsupportedDepth {
                color_type: info.color_type,
                bit_depth: info.bit_depth,
            },
        )
    } else {
        Ok(packed_rows(rgba, info, info.height as int))
    }
}

fn channel_index(ct: ColorType, c: usize) -> (r: usize)
    requires
        c < ct.spec_channels(),
    ensures
        r == source_channel(ct, c as int),
        r < 4,
{
    match ct {
        ColorType::GreyAlpha => if c == 0 {
            0
        } else {
            3
        },
        ColorType::Greyscale => 0,
        _ => c,
    }
}

/// Pack one row of RGBA8 pixels into raw bytes.
fn pack_row(px: &[u8], info: &PngInfo) -> (row: Vec<u8>)
    requires
        info.legal(),
        packable(*info),
        px@.len() == 4 * info.width,
    ensures
        row@ == packed_row(px@, *info),
        row@.len() == info.row_bytes(),
{
    let mut row: Vec<u8> = Vec::new();
    let w: usize = px.len() / 4;
    let bpp: usize = info.bpp;
    let per: usize = (info.bit_depth / 8) as usize;
    let channels: usize = info.color_type.channels() as usize;
    let ghost want = packed_row(px@, *info);
    let mut x: usize = 0;
    proof {
        lemma_layout(*info);
        assert(0 * bpp == 0);
    }
    while x < w
        invariant
            x <= w,
            w == info.width,
            px@.len() == 4 * w,
            bpp == info.bpp,
            bpp == channels * per,
            per == info.bit_depth / 8,
            per == 1 || per == 2,
            1 <= channels <= 4,
            channels == info.color_type.spec_channels(),
            info.color_type != ColorType::Indexed,
            want == packed_row(px@, *info),
            row@.len() == x * bpp,
            forall|i: int| 0 <= i < row@.len() ==> #[trigger] row@[i] == want[i],
        decreases w - x,
    {
        let mut j: usize = 0;
        let n: usize = px.len();
        while j < bpp
            invariant
                j <= bpp,
                x < w,
                w == info.width,
                px@.len() == 4 * w,
                n == px@.len(),
                bpp == info.bpp,
                bpp == channels * per,
                per == info.bit_depth / 8,
                per == 1 || per == 2,
                1 <= channels <= 4,
                channels == info.color_type.spec_channels(),
                info.color_type != ColorType::Indexed,
                want == packed_row(px@, *info),
                row@.len() == x * bpp + j,
                forall|i: int| 0 <= i < row@.len() ==> #[trigger] row@[i] == want[i],
            decreases bpp - j,
        {
            let c: usize = j / per;
            proof {
                if per == 1 {
                    assert(channels * per == channels);
                } else {
                    assert(channels * per == channels * 2);
                }
                let i = x * bpp + j;
                vstd::arithmetic::div_mod::lemma_fundamental_div_mod_converse(
                    i,
                    bpp as int,
                    x as int,
                    j as int,
                );
                lemma_row_inside(x as int, w as int, bpp as int);
            }
            let s: usize = channel_index(info.color_type, c);
            row.push(px[4 * x + s]);
            j = j + 1;
        }
        proof {
            lemma_row_inside(x as int, w as int, bpp as int);
        }
        x = x + 1;
    }
    assert(row@ =~= want);
    row
}

/// Pack RGBA8 pixels back into the raw (unfiltered) byte layout for
/// `info`'s colour type, the inverse of [`to_rgba8`]. Supports the byte-
/// aligned non-indexed types (Grey/RGB/GreyAlpha/RGBA at 8 and 16 bit);
/// RGBA8 is a straight copy. Indexed and sub-byte depths return
/// [`ConvertError::UnsupportedDepth`] (they need a palette or quantisation
/// the caller must supply). 16-bit packing writes each 8-bit sample as
/// `[v, v]`, so it round-trips the high-byte decode losslessly.
///
/// Grey targets take the R channel and RGB targets drop alpha, so the
/// input must be consistent with the target (`R == G == B` for grey,
/// `A == 255` for the alpha-less types) to be lossless.
pub fn pack(rgba: &[u8], info: &PngInfo) -> (r: Result<Vec<u8>, ConvertError>)
    requires
        info.wf(),
    ensures
        match pack_of(rgba@, *info) {
            Ok(out) => r matches Ok(v) && v@ == out,
            Err(e) => r == Err::<Vec<u8>, _>(e),
        },
{
    proof {
        assert(0 <= info.height * (4 * info.width) <= 0xFFFF_FFFF * (4 * 0xFFFF_FFFF))
            by (nonlinear_arith)
            requires
                info.width <= 0xFFFF_FFFF,
                info.height <= 0xFFFF_FFFF,
        ;
    }
    let expected: u128 = info.height as u128 * (4 * info.width as u128);
    let n: usize = rgba.len();
    if (n as u128) < expected {
        let field: usize = if expected <= usize::MAX as u128 {
            expected as usize
        } else {
            usize::MAX
        };
        return Err(ConvertError::TruncatedInput { expected: field, actual: n });
    }
    let supported = info.color_type != ColorType::Indexed && (info.bit_depth == 8
        || info.bit_depth == 16);
    if info.height > 0 && !supported {
        return Err(
            ConvertError::UnsupportedDepth {
                color_type: info.color_type,
                bit_depth: info.bit_depth,
            },
        );
    }
    let mut out: Vec<u8> = Vec::new();
    let mut y: u32 = 0;
    while y < info.height
        invariant
            y <= info.height,
            info.wf(),
            info.height > 0 ==> packable(*info),
            n == rgba@.len(),
            n >= info.height * (4 * info.width),
            out@ == packed_rows(rgba@, *info, y as int),
        decreases info.height - y,
    {
        proof {
            lemma_row_inside(y as int, info.height as int, 4 * info.width as int);
            assert(4 * info.width <= n) by {
                assert(info.height * (4 * info.width) >= 4 * info.width) by (nonlinear_arith)
                    requires
                        info.height >= 1,
                        info.width >= 0,
                ;
            }
        }
        let width4: usize = 4 * info.width as usize;
        let base: usize = y as usize * width4;
        let px = vstd::slice::slice_subrange(rgba, base, base + width4);
        let row: Vec<u8> = pack_row(px, info);
        let ghost before = out@;
        out.extend_from_slice(row.as_slice());
        assert(out@ =~= before + row@);
        y = y + 1;
    }
    Ok(out)
}

/// Packed rows have the layout's length.
pub proof fn lemma_packed_len(rgba: Seq<u8>, info: PngInfo, n: int)
    requires
        info.legal(),
        packable(info),
        0 <= n,
    ensures
        packed_rows(rgba, info, n).len() == n * info.row_bytes(),
    decreases n,
{
    let rb = info.row_bytes() as int;
    lemma_layout(info);
    if n > 0 {
        lemma_packed_len(rgba, info, n - 1);
        assert(n * rb == (n - 1) * rb + rb) by (nonlinear_arith);
    } else {
        assert(0 * rb == 0);
    }
}

/// Every pixel is one that the colour type can hold: grey types have
/// `R == G == B`, types without alpha have `A == 255`.
pub open spec fn consistent(rgba: Seq<u8>, ct: ColorType) -> bool {
    forall|p: int|
        0 <= 4 * p && 4 * p + 4 <= rgba.len() ==> #[trigger] pixel_fits(
            rgba[4 * p],
            rgba[4 * p + 1],
            rgba[4 * p + 2],
            rgba[4 * p + 3],
            ct,
        )
}

pub open spec fn pixel_fits(r: u8, g: u8, b: u8, a: u8, ct: ColorType) -> bool {
    &&& (ct == ColorType::Greyscale || ct == ColorType::GreyAlpha) ==> r == g && g == b
    &&& (ct == ColorType::Greyscale || ct == ColorType::Rgb) ==> a == 255
}

/// A sample of a packed row is the channel that it was made from.
proof fn lemma_sample_packed(px: Seq<u8>, info: PngInfo, x: int, c: int)
    requires
        info.legal(),
        packable(info),
        0 <= x < info.width,
        0 <= c < info.color_type.spec_channels(),
    ensures
        byte_sample(packed_row(px, info), info, c, x) == px[4 * x + source_channel(
            info.color_type,
            c,
        )],
{
    lemma_layout(info);
    let bpp = info.bpp as int;
    let per = info.bit_depth as int / 8;
    let ch = info.color_type.spec_channels() as int;
    lemma_row_inside(x, info.width as int, bpp);
    let j = c * per;
    assert(0 <= j < bpp && j / per == c) by (nonlinear_arith)
        requires
            0 <= c < ch,
            per == 1 || per == 2,
            bpp == ch * per,
            j == c * per,
    ;
    vstd::arithmetic::div_mod::lemma_fundamental_div_mod_converse(x * bpp + j, bpp, x, j);
}

/// A pixel of a packed row is the one that it was made from.
proof fn lemma_pixel_unpacks(px: Seq<u8>, info: PngInfo, x: int)
    requires
        info.legal(),
        packable(info),
        px.len() == 4 * info.width,
        consistent(px, info.color_type),
        0 <= x < info.width,
    ensures
        pixel(packed_row(px, info), info, None, x) == px.subrange(4 * x, 4 * x + 4),
{
    assert(pixel_fits(px[4 * x], px[4 * x + 1], px[4 * x + 2], px[4 * x + 3], info.color_type));
    lemma_sample_packed(px, info, x, 0);
    match info.color_type {
        ColorType::Greyscale => {},
        ColorType::GreyAlpha => {
            lemma_sample_packed(px, info, x, 1);
        },
        ColorType::Rgb => {
            lemma_sample_packed(px, info, x, 1);
            lemma_sample_packed(px, info, x, 2);
        },
        _ => {
            lemma_sample_packed(px, info, x, 1);
            lemma_sample_packed(px, info, x, 2);
            lemma_sample_packed(px, info, x, 3);
        },
    }
    assert(pixel(packed_row(px, info), info, None, x) =~= px.subrange(4 * x, 4 * x + 4));
}

/// A packed row converts back, pixel by pixel.
proof fn lemma_row_unpacks(px: Seq<u8>, info: PngInfo, n: int)
    requires
        info.legal(),
        packable(info),
        px.len() == 4 * info.width,
        consistent(px, info.color_type),
        0 <= n <= info.width,
    ensures
        rgba_row(packed_row(px, info), info, None, n) == px.take(4 * n),
    decreases n,
{
    if n > 0 {
        let x = n - 1;
        lemma_row_unpacks(px, info, x);
        lemma_pixel_unpacks(px, info, x);
        assert(px.take(4 * x) + px.subrange(4 * x, 4 * x + 4) =~= px.take(4 * n));
    } else {
        assert(px.take(0) =~= Seq::<u8>::empty());
    }
}

proof fn lemma_rows_unpack(rgba: Seq<u8>, info: PngInfo, n: int, m: int)
    requires
        info.legal(),
        packable(info),
        rgba.len() == info.height * (4 * info.width),
        consistent(rgba, info.color_type),
        0 <= n <= m <= info.height,
    ensures
        packed_rows(rgba, info, m).len() == m * info.row_bytes(),
        rgba_rows(packed_rows(rgba, info, m), info, None, n) == rgba.take(n * (4 * info.width)),
    decreases m, n,
{
    let rb = info.row_bytes() as int;
    let w4 = 4 * info.width as int;
    lemma_layout(info);
    if m > 0 {
        lemma_rows_unpack(rgba, info, 0, m - 1);
        lemma_row_inside(m - 1, info.height as int, rb);
    } else {
        assert(0 * rb == 0);
    }
    if n > 0 {
        lemma_rows_unpack(rgba, info, n - 1, m);
        let y = n - 1;
        lemma_row_inside(y, info.height as int, w4);
        lemma_row_inside(y, m, rb);
        let px = buf_row(rgba, w4, y);
        lemma_packed_row_at(rgba, info, m, y);
        assert(consistent(px, info.color_type)) by {
            assert forall|p: int| 0 <= 4 * p && 4 * p + 4 <= px.len() implies #[trigger] pixel_fits(
                px[4 * p],
                px[4 * p + 1],
                px[4 * p + 2],
                px[4 * p + 3],
                info.color_type,
            ) by {
                let q = y * info.width + p;
                assert(y * w4 == 4 * (y * info.width)) by (nonlinear_arith)
                    requires
                        w4 == 4 * info.width,
                ;
                assert(pixel_fits(
                    rgba[4 * q],
                    rgba[4 * q + 1],
                    rgba[4 * q + 2],
                    rgba[4 * q + 3],
                    info.color_type,
                ));
            }
        }
        lemma_row_unpacks(px, info, info.width as int);
        assert(px.take(w4) =~= px);
        assert(rgba.take(y * w4) + px =~= rgba.take(n * w4));
    } else {
        assert(0 * w4 == 0);
        assert(rgba.take(0) =~= Seq::<u8>::empty());
    }
}

/// Row `y` of the packed image is the packed row `y`.
proof fn lemma_packed_row_at(rgba: Seq<u8>, info: PngInfo, m: int, y: int)
    requires
        info.legal(),
        packable(info),
        0 <= y < m <= info.height,
    ensures
        packed_rows(rgba, info, m).len() == m * info.row_bytes(),
        buf_row(packed_rows(rgba, info, m), info.row_bytes() as int, y) == packed_row(
            buf_row(rgba, 4 * info.width as int, y),
            info,
        ),
    decreases m,
{
    let rb = info.row_bytes() as int;
    lemma_layout(info);
    let before = packed_rows(rgba, info, m - 1);
    let last = packed_row(buf_row(rgba, 4 * info.width as int, m - 1), info);
    lemma_row_inside(m - 1, m, rb);
    lemma_row_inside(y, m, rb);
    if y < m - 1 {
        lemma_packed_row_at(rgba, info, m - 1, y);
        lemma_rows_apart(y, m - 1, rb);
        assert(buf_row(before + last, rb, y) =~= buf_row(before, rb, y));
    } else {
        if m > 1 {
            lemma_packed_row_at(rgba, info, m - 1, m - 2);
        } else {
            assert(0 * rb == 0);
        }
        assert(buf_row(before + last, rb, y) =~= last);
    }
}

/// Converting a packed image gives the image back, for every colour mode that
/// can be packed and every image that the mode can hold.
pub proof fn law_pack_round_trip(rgba: Seq<u8>, info: PngInfo)
    requires
        info.wf(),
        packable(info),
        rgba.len() == info.height * (4 * info.width),
        rgba.len() <= u32::MAX,
        consistent(rgba, info.color_type),
    ensures
        pack_of(rgba, info) == Ok::<_, ConvertError>(packed_rows(rgba, info, info.height as int)),
        packed_rows(rgba, info, info.height as int).len() == info.height * info.row_bytes(),
        rgba_of(packed_rows(rgba, info, info.height as int), info, None) == Ok::<_, ConvertError>(
            rgba,
        ),
{
    let h = info.height as int;
    lemma_rows_unpack(rgba, info, h, h);
    assert(rgba.take(h * (4 * info.width)) =~= rgba);
    assert(info.width * info.height * 4 == info.height * (4 * info.width)) by (nonlinear_arith);
}

} // verus!
