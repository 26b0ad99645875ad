//! From a file's bytes to a document the editor can show: the loader behind the
//! background thread.
//!
//! [`load_bytes`] does all the expensive work (deflate decode, pixel index,
//! reverse graph, initial RGBA render).

use vstd::prelude::*;
use vstd::string::StringExecFns;

use super::render::shown;
use super::core_data::{build_core_from_decoded, stream_ok, CoreData};
use crate::api::decode::palette_slice;
use crate::api::image::owned_palette_view;
use crate::api::prep::{lemma_idat_inside, palette_chunks, read_palette};
use crate::coords::lemma_bits_ok;
use crate::deflate::decoder::{decode_deflate, law_output_within_cap, DecodedDeflate};
use crate::deflate::error::DecodeError;
use crate::deflate::inflate_spec::{decode_spec, Decoded};
use crate::deflate::layout::law_decode_laid_out;
use crate::deflate::replay_law::law_decoded_events_faithful;
use crate::index::forest::lemma_replay_plays;
use crate::png::chunks::{
    chunk_views, chunks_info, concat_idat, idat_bytes, idat_tag, parse_chunks, parse_ihdr,
    read_chunks, Chunk, ChunkType, ChunkView, ChunksError, Parsed, PngInfo, Warning,
};
use crate::png::convert::{rgba_of, to_rgba8, PaletteEntry};
use crate::png::filter::{unfilter, unfilter_of};
use crate::png::interlace::{
    deinterlace_of, deinterlace_to_rgba8, deinterlace_unfilter, lemma_pass_start, pass_start,
    raw_passes, wide_output_len,
};
use crate::png::zlib::{adler32, adler_of, parse_zlib_stream, split_zlib, ZlibError};
use crate::raster::raster_len;
use crate::text::{decimal, push_decimal};

verus! {

/// Full bundle produced by the background loader.
pub struct LoadedFile {
    /// Every chunk of the file; the IDAT chunks are emptied, since `deflate_buf`
    /// holds their contents and saving re-emits a fresh IDAT.
    pub chunks: Vec<Chunk>,
    pub zlib_header: [u8; 2],
    pub deflate_buf: Vec<u8>,
    pub core: CoreData,
    pub base_rgba: Vec<u8>,
    /// Integrity warnings collected during load (stale CRCs, FCHECK,
    /// Adler-32). Shown in the status bar; not a load failure.
    pub warnings: Vec<String>,
}

/// Structured errors surfaced by the background load thread.
#[derive(Debug)]
pub enum LoadError {
    /// The file couldn't be read; holds the reason.
    Io(String),
    MissingIhdr,
    MissingIdat,
    Chunks(ChunksError),
    Zlib(ZlibError),
    Deflate(DecodeError),
    /// Native unfilter or RGBA conversion failed. Distinct from
    /// `Deflate` / `Chunks` errors so the loader can fail cleanly
    /// without claiming the input is malformed when really it just
    /// hit a corner of the spec the converter doesn't model.
    Render,
    /// Width/height past `u16::MAX` or unfiltered output past `u32::MAX`,
    /// the limits set by `PixelRow.xy: (u16, u16)` and `u32` event positions.
    Unsupported { width: u32, height: u32, reason: &'static str },
}

/// A [`LoadError`] as plain values.
pub enum LoadErrorView {
    Io(Seq<char>),
    MissingIhdr,
    MissingIdat,
    Chunks(ChunksError),
    Zlib(ZlibError),
    Deflate(DecodeError),
    Render,
    Unsupported { width: u32, height: u32, reason: Seq<char> },
}

impl View for LoadError {
    type V = LoadErrorView;

    open spec fn view(&self) -> LoadErrorView {
        match self {
            LoadError::Io(s) => LoadErrorView::Io(s@),
            LoadError::MissingIhdr => LoadErrorView::MissingIhdr,
            LoadError::MissingIdat => LoadErrorView::MissingIdat,
            LoadError::Chunks(e) => LoadErrorView::Chunks(*e),
            LoadError::Zlib(e) => LoadErrorView::Zlib(*e),
            LoadError::Deflate(e) => LoadErrorView::Deflate(*e),
            LoadError::Render => LoadErrorView::Render,
            LoadError::Unsupported { width, height, reason } => LoadErrorView::Unsupported {
                width: *width,
                height: *height,
                reason: reason@,
            },
        }
    }
}

/// Hard upper bound on width or height. `PixelRow.xy` packs each
/// coordinate as `u16`, so any image with a dimension past this would
/// silently overflow into another pixel's slot.
pub const MAX_DIMENSION: u32 = 0xFFFF;

impl LoadErrorView {
    /// What the status bar says. The inner errors keep their technical
    /// messages for library users and logs; this layer translates them into
    /// something a person opening a PNG can act on.
    pub open spec fn says(self) -> Seq<char> {
        match self {
            LoadErrorView::Io(e) => "Couldn't read file: "@ + e,
            LoadErrorView::MissingIhdr => "This file isn't a valid PNG (no header)."@,
            LoadErrorView::MissingIdat => "This PNG has no image data."@,
            LoadErrorView::Chunks(ChunksError::MissingSignature) => "This file isn't a PNG."@,
            LoadErrorView::Chunks(ChunksError::Truncated) => "This PNG is truncated."@,
            LoadErrorView::Zlib(ZlibError::Truncated { .. }) =>
                "This PNG's image data is truncated."@,
            LoadErrorView::Zlib(ZlibError::BadCompressionMethod { .. }) =>
                "This PNG uses an unrecognised compression method."@,
            LoadErrorView::Zlib(ZlibError::FdictSet) =>
                "This PNG uses a feature pngbend doesn't support (preset dictionary)."@,
            LoadErrorView::Deflate(DecodeError::OutputTooLarge { .. }) =>
                "This PNG decompresses to more data than its dimensions claim, a possible decompression bomb."@,
            LoadErrorView::Deflate(_) => "This PNG's compressed image data is corrupted."@,
            LoadErrorView::Render => "Couldn't render this PNG."@,
            LoadErrorView::Unsupported { width, height, reason } =>
                "This PNG is too big for pngbend ("@ + decimal(width as nat) + "×"@ + decimal(
                height as nat,
            ) + ": "@ + reason + ")."@,
        }
    }
}

impl LoadError {
    /// User-facing message: what the status bar shows.
    pub fn message(&self) -> (r: String)
        ensures
            r@ == self@.says(),
    {
        match self {
            LoadError::Io(e) => {
                let mut s: String = String::from_str("Couldn't read file: ");
                s.append(e.as_str());
                s
            },
            LoadError::MissingIhdr => String::from_str("This file isn't a valid PNG (no header)."),
            LoadError::MissingIdat => String::from_str("This PNG has no image data."),
            LoadError::Chunks(e) => match e {
                ChunksError::MissingSignature => String::from_str("This file isn't a PNG."),
                ChunksError::Truncated => String::from_str("This PNG is truncated."),
            },
            LoadError::Zlib(e) => match e {
                ZlibError::Truncated { .. } => String::from_str(
                    "This PNG's image data is truncated.",
                ),
                ZlibError::BadCompressionMethod { .. } => String::from_str(
                    "This PNG uses an unrecognised compression method.",
                ),
                ZlibError::FdictSet => String::from_str(
                    "This PNG uses a feature pngbend doesn't support (preset dictionary).",
                ),
            },
            LoadError::Deflate(e) => match e {
                DecodeError::OutputTooLarge { .. } => String::from_str(
                    "This PNG decompresses to more data than its dimensions claim, a possible decompression bomb.",
                ),
                _ => String::from_str("This PNG's compressed image data is corrupted."),
            },
            LoadError::Render => String::from_str("Couldn't render this PNG."),
            LoadError::Unsupported { width, height, reason } => {
                let mut s: String = String::from_str("This PNG is too big for pngbend (");
                push_decimal(&mut s, *width as u64);
                s.append("×");
                push_decimal(&mut s, *height as u64);
                s.append(": ");
                s.append(reason);
                s.append(").");
                s
            },
        }
    }
}

/// Estimate of the resident working set the loader will produce, in
/// bytes. Surfaces a "this image will use ~X GB" hint in the status bar
/// before the load starts so large images stay the user's call.
///
/// Three components:
/// - **per output byte**: `events`, `output`, `reverse_graph`,
///   `unfiltered`, and the cascade depth map. ~18 B/byte covers typical
///   photo content with margin for highly back-referenced inputs.
/// - **per pixel**: `pixel_index` + `filtered_idx` + three `w × h × 4`
///   RGBA buffers (`base_rgba`, `composite_scratch`, one LRU overlay).
///   ~24 B/pixel.
/// - **constant**: egui state, font atlas, Huffman tables, etc. ~16 MB.
pub fn estimate_working_set_bytes(width: u32, height: u32, bpp: usize) -> (r: u64)
    requires
        working_set(width as int, height as int, bpp as int) <= u64::MAX,
    ensures
        r == working_set(width as int, height as int, bpp as int),
{
    proof {
        let w = width as int;
        let h = height as int;
        let b = bpp as int;
        assert(0 <= w * h && 0 <= w * b && 0 <= h * (1 + w * b)) by (nonlinear_arith)
            requires
                0 <= w,
                0 <= h,
                0 <= b,
        ;
        if h > 0 {
            assert(w * b <= h * (1 + w * b)) by (nonlinear_arith)
                requires
                    h >= 1,
                    0 <= w * b,
            ;
        }
    }
    if height == 0 {
        return 16 * 1024 * 1024;
    }
    let pixels: u64 = width as u64 * height as u64;
    let output_bytes: u64 = height as u64 * (1 + width as u64 * bpp as u64);
    let per_byte: u64 = output_bytes * 18;
    let per_pixel: u64 = pixels * 24;
    let constant: u64 = 16 * 1024 * 1024;
    per_byte + per_pixel + constant
}

/// 18 bytes per output byte, 24 per pixel, and 16 MiB.
pub open spec fn working_set(width: int, height: int, bpp: int) -> int {
    height * (1 + width * bpp) * 18 + width * height * 24 + 16 * 1024 * 1024
}

/// What a loaded file holds.
pub struct LoadView {
    pub chunks: Seq<ChunkView>,
    pub header: Seq<u8>,
    pub deflate: Seq<u8>,
    pub info: PngInfo,
    pub palette: Option<Seq<Seq<u8>>>,
    pub stream: Decoded,
    pub unfiltered: Seq<u8>,
    pub rgba: Seq<u8>,
    pub warnings: Seq<Seq<char>>,
}

/// The texts of a list of warnings.
pub open spec fn warning_texts(warnings: Seq<Warning>) -> Seq<Seq<char>> {
    warnings.map_values(|w: Warning| w.says())
}

/// The contents of a list of strings.
pub open spec fn string_views(strings: Seq<String>) -> Seq<Seq<char>> {
    strings.map_values(|s: String| s@)
}

/// The chunks with every IDAT emptied.
pub open spec fn without_idat(chunks: Seq<ChunkView>) -> Seq<ChunkView> {
    chunks.map_values(
        |c: ChunkView|
            if c.typ == idat_tag() {
                ChunkView { typ: c.typ, data: Seq::empty() }
            } else {
                c
            },
    )
}

impl View for LoadedFile {
    type V = LoadView;

    open spec fn view(&self) -> LoadView {
        LoadView {
            chunks: chunk_views(self.chunks@),
            header: self.zlib_header@,
            deflate: self.deflate_buf@,
            info: self.core.info,
            palette: owned_palette_view(self.core.palette),
            stream: self.core.stream(),
            unfiltered: self.core.unfiltered@,
            rgba: self.base_rgba@,
            warnings: string_views(self.warnings@),
        }
    }
}

/// The raw bytes and the RGBA8 pixels of an inflated output.
pub open spec fn rendered(
    output: Seq<u8>,
    info: PngInfo,
    palette: Option<Seq<Seq<u8>>>,
) -> Option<(Seq<u8>, Seq<u8>)> {
    if info.interlaced {
        match (raw_passes(output, info, 0), deinterlace_of(output, info, palette)) {
            (Ok(raw), Ok(px)) => Some((raw, px)),
            _ => None,
        }
    } else {
        match unfilter_of(output, info) {
            Err(_) => None,
            Ok(raw) => match rgba_of(raw, info, palette) {
                Err(_) => None,
                Ok(px) => Some((raw, px)),
            },
        }
    }
}

/// How far an image's stream may inflate: to its seven passes, or to `height`
/// rows of a filter byte and `width * bpp` bytes. Below eight bits per pixel
/// that leaves room behind the packed rows.
pub open spec fn load_cap(info: PngInfo) -> int {
    if info.interlaced {
        pass_start(info, 7)
    } else {
        info.height * (1 + info.width * info.bpp)
    }
}

/// The limits of the editor's positions and coordinates.
pub open spec fn unsupported(info: PngInfo) -> Option<LoadErrorView> {
    if info.width > MAX_DIMENSION || info.height > MAX_DIMENSION {
        Some(
            LoadErrorView::Unsupported {
                width: info.width,
                height: info.height,
                reason: "width and height must each fit in 16 bits (≤ 65535)"@,
            },
        )
    } else if load_cap(info) > u32::MAX || load_cap(info) >= usize::MAX {
        Some(
            LoadErrorView::Unsupported {
                width: info.width,
                height: info.height,
                reason: "unfiltered output exceeds 4 GiB (event positions are u32)"@,
            },
        )
    } else {
        None
    }
}

/// What a file's image data loads to.
pub open spec fn load_stream(
    chunks: Seq<ChunkView>,
    found: Seq<Warning>,
    info: PngInfo,
) -> Result<LoadView, LoadErrorView> {
    match split_zlib(idat_bytes(chunks)) {
        Err(e) => Err(LoadErrorView::Zlib(e)),
        Ok(parts) => match decode_spec(parts.deflate, Some(load_cap(info) as usize)) {
            Err(e) => Err(LoadErrorView::Deflate(e)),
            Ok(stream) => if stream.block_starts.len() > u32::MAX {
                Err(
                    LoadErrorView::Unsupported {
                        width: info.width,
                        height: info.height,
                        reason: "more DEFLATE blocks than a 32-bit index can name"@,
                    },
                )
            } else {
                let palette = palette_chunks(chunks);
                match rendered(stream.progress.out, info, palette) {
                    None => Err(LoadErrorView::Render),
                    Some((unfiltered, rgba)) => Ok(
                        LoadView {
                            chunks: without_idat(chunks),
                            header: parts.header,
                            deflate: parts.deflate,
                            info,
                            palette,
                            stream,
                            unfiltered,
                            rgba,
                            warnings: warning_texts(
                                if parts.adler == adler_of(stream.progress.out) {
                                    found + parts.warnings
                                } else {
                                    (found + parts.warnings).push(Warning::StaleImageAdler)
                                },
                            ),
                        },
                    ),
                }
            },
        },
    }
}

/// What a file's bytes load to.
pub open spec fn load_of(bytes: Seq<u8>) -> Result<LoadView, LoadErrorView> {
    match parse_chunks(bytes) {
        Err(e) => Err(LoadErrorView::Chunks(e)),
        Ok(parsed) => match chunks_info(parsed.chunks) {
            None => Err(LoadErrorView::MissingIhdr),
            Some(info) => match unsupported(info) {
                Some(e) => Err(e),
                None => if idat_bytes(parsed.chunks).len() == 0 {
                    Err(LoadErrorView::MissingIdat)
                } else {
                    load_stream(parsed.chunks, parsed.warnings, info)
                },
            },
        },
    }
}

/// A raster is never longer than what its image is allowed to inflate to.
proof fn lemma_raster_within_cap(info: PngInfo)
    requires
        info.legal(),
    ensures
        raster_len(info) <= load_cap(info),
        0 <= load_cap(info),
{
    if info.interlaced {
        lemma_pass_start(info, 0, 7);
    } else {
        lemma_bits_ok(info);
        let w = info.width as int;
        let h = info.height as int;
        let bits = info.bits_per_pixel as int;
        let bpp = info.bpp as int;
        assert(w * bits <= w * (8 * bpp)) by (nonlinear_arith)
            requires
                bits <= 8 * bpp,
                0 <= w,
        ;
        assert(w * (8 * bpp) == 8 * (w * bpp)) by (nonlinear_arith);
        let stride = info.row_stride as int;
        assert(h * stride <= h * (1 + w * bpp)) by (nonlinear_arith)
            requires
                stride <= 1 + w * bpp,
                0 <= h,
        ;
        assert(0 <= h * (1 + w * bpp)) by (nonlinear_arith)
            requires
                0 <= h,
                0 <= w,
                0 <= bpp,
        ;
    }
}

/// A decode under a 32-bit cap can be indexed.
proof fn lemma_stream_ok(data: Seq<u8>, cap: usize)
    requires
        8 * data.len() <= usize::MAX,
        cap <= u32::MAX,
        cap < usize::MAX,
    ensures
        decode_spec(data, Some(cap)) matches Ok(d) ==> d.block_starts.len() <= u32::MAX
            ==> stream_ok(d),
{
    law_decoded_events_faithful(data, Some(cap));
    law_decode_laid_out(data, Some(cap));
    law_output_within_cap(data, Some(cap));
    if let Ok(d) = decode_spec(data, Some(cap)) {
        lemma_replay_plays(d.progress.events, d.progress.out.len() as int);
    }
}

fn push_messages(out: &mut Vec<String>, warnings: &[Warning])
    ensures
        string_views(final(out)@) == string_views(old(out)@) + warning_texts(warnings@),
{
    let mut i: usize = 0;
    assert(string_views(out@) =~= string_views(old(out)@) + warning_texts(warnings@.take(0)));
    while i < warnings.len()
        invariant
            i <= warnings@.len(),
            string_views(out@) == string_views(old(out)@) + warning_texts(
                warnings@.take(i as int),
            ),
        decreases warnings@.len() - i,
    {
        let ghost before = out@;
        let text: String = warnings[i].message();
        out.push(text);
        proof {
            assert(string_views(out@) =~= string_views(before).push(text@));
            assert(warning_texts(warnings@.take(i + 1)) =~= warning_texts(
                warnings@.take(i as int),
            ).push(text@));
            assert(string_views(out@) =~= string_views(old(out)@) + warning_texts(
                warnings@.take(i + 1),
            ));
        }
        i = i + 1;
    }
    assert(warnings@.take(i as int) =~= warnings@);
}

/// Unfilter and convert. Both run natively for every PNG colour mode the spec
/// defines, including sub-byte greyscale and indexed depths. Interlaced images
/// reassemble their seven passes; the raw bytes are then those of each pass.
fn render(output: &[u8], info: &PngInfo, palette: &Option<Vec<PaletteEntry>>) -> (r: Option<
    (Vec<u8>, Vec<u8>),
>)
    requires
        info.wf(),
    ensures
        match rendered(output@, *info, owned_palette_view(*palette)) {
            Some((raw, px)) => r matches Some((a, b)) && a@ == raw && b@ == px && shown(
                *info,
                owned_palette_view(*palette),
                output@,
                raw,
                px,
            ),
            None => r is None,
        },
{
    if info.interlaced {
        let raw: Vec<u8> = match deinterlace_unfilter(output, info) {
            Ok(raw) => raw,
            Err(_) => {
                return None;
            },
        };
        match deinterlace_to_rgba8(output, info, palette_slice(palette)) {
            Ok(px) => Some((raw, px)),
            Err(_) => None,
        }
    } else {
        let raw: Vec<u8> = match unfilter(output, info) {
            Ok(raw) => raw,
            Err(_) => {
                return None;
            },
        };
        match to_rgba8(raw.as_slice(), info, palette_slice(palette)) {
            Ok(px) => Some((raw, px)),
            Err(_) => None,
        }
    }
}

/// Drop the IDAT bytes inside `chunks`: the deflate buffer already holds the
/// source of truth, and saving re-emits a fresh IDAT.
fn drop_idat(chunks: &mut Vec<Chunk>)
    ensures
        chunk_views(final(chunks)@) == without_idat(chunk_views(old(chunks)@)),
{
    let mut i: usize = 0;
    let ghost before = chunk_views(chunks@);
    while i < chunks.len()
        invariant
            i <= chunks@.len(),
            chunks@.len() == before.len(),
            before == chunk_views(old(chunks)@),
            forall|k: int|
                0 <= k < i ==> (#[trigger] chunks@[k])@ == without_idat(before)[k],
            forall|k: int| i <= k < chunks@.len() ==> (#[trigger] chunks@[k])@ == before[k],
        decreases chunks@.len() - i,
    {
        let typ: ChunkType = chunks[i].typ;
        if typ == ChunkType::idat() {
            let ghost c0 = chunks@[i as int]@;
            chunks[i] = Chunk { typ, data: Vec::new() };
            assert(chunks@[i as int]@ =~= without_idat(before)[i as int]);
        }
        i = i + 1;
    }
    assert(chunk_views(chunks@) =~= without_idat(before));
}

/// [`load_cap`], in a type that holds it for any IHDR.
fn output_cap(info: &PngInfo) -> (r: u128)
    requires
        info.legal(),
    ensures
        r == load_cap(*info),
{
    if info.interlaced {
        return wide_output_len(info);
    }
    proof {
        lemma_bits_ok(*info);
        let row = info.width * info.bpp;
        assert(0 <= row <= 0xFFFF_FFFF * 8) by (nonlinear_arith)
            requires
                row == info.width * info.bpp,
                info.width <= 0xFFFF_FFFF,
                info.bpp <= 8,
        ;
        assert(0 <= info.height * (1 + row) <= 0xFFFF_FFFF * (1 + 0xFFFF_FFFF * 8))
            by (nonlinear_arith)
            requires
                0 <= row <= 0xFFFF_FFFF * 8,
                info.height <= 0xFFFF_FFFF,
        ;
    }
    info.height as u128 * (1 + info.width as u128 * info.bpp as u128)
}

fn too_big(info: &PngInfo) -> (r: Option<LoadError>)
    requires
        info.legal(),
    ensures
        match r {
            Some(e) => unsupported(*info) == Some(e@),
            None => unsupported(*info) is None,
        },
{
    if info.width > MAX_DIMENSION || info.height > MAX_DIMENSION {
        return Some(
            LoadError::Unsupported {
                width: info.width,
                height: info.height,
                reason: "width and height must each fit in 16 bits (≤ 65535)",
            },
        );
    }
    // The output must fit in u32 so event position fields can address every
    // byte. The dimension check above caps the multiplier; this catches the
    // case where both dims sit near 65535 and bpp is high.
    let cap: u128 = output_cap(info);
    if cap > u32::MAX as u128 || cap >= usize::MAX as u128 {
        return Some(
            LoadError::Unsupported {
                width: info.width,
                height: info.height,
                reason: "unfiltered output exceeds 4 GiB (event positions are u32)",
            },
        );
    }
    None
}

/// Load a PNG from its bytes.
///
/// Hard errors are the cases where slicing would land on the wrong bytes, or
/// nothing can be shown. Stale checksums surface as warnings instead.
#[verifier::rlimit(60)]
pub fn load_bytes(raw: &[u8]) -> (r: Result<LoadedFile, LoadError>)
    requires
        8 * raw@.len() <= usize::MAX,
    ensures
        match load_of(raw@) {
            Ok(v) => r matches Ok(l) && l@ == v && l.core.wf() && l.core.indexed() && shown(
                v.info,
                v.palette,
                v.stream.progress.out,
                v.unfiltered,
                v.rgba,
            ),
            Err(e) => r matches Err(x) && x@ == e,
        },
{
    let parsed = match read_chunks(raw) {
        Ok(p) => p,
        Err(e) => {
            return Err(LoadError::Chunks(e));
        },
    };
    let mut chunks: Vec<Chunk> = parsed.chunks;
    let ghost views = chunk_views(chunks@);
    let ghost found = parsed.warnings@;
    let info: PngInfo = match parse_ihdr(chunks.as_slice()) {
        Some(info) => info,
        None => {
            return Err(LoadError::MissingIhdr);
        },
    };
    if let Some(e) = too_big(&info) {
        return Err(e);
    }
    proof {
        lemma_raster_within_cap(info);
    }
    let cap: usize = output_cap(&info) as usize;
    let palette: Option<Vec<PaletteEntry>> = read_palette(chunks.as_slice());
    let idat: Vec<u8> = concat_idat(chunks.as_slice());
    if idat.len() == 0 {
        return Err(LoadError::MissingIdat);
    }
    proof {
        lemma_idat_inside(raw@, 8, Parsed { chunks: Seq::empty(), warnings: Seq::empty() });
    }
    let zlib = match parse_zlib_stream(idat.as_slice()) {
        Ok(z) => z,
        Err(e) => {
            return Err(LoadError::Zlib(e));
        },
    };
    let ghost parts = zlib@;
    let zlib_header: [u8; 2] = zlib.header;
    let mut deflate_buf: Vec<u8> = Vec::new();
    deflate_buf.extend_from_slice(zlib.deflate_buf);
    assert(deflate_buf@ =~= parts.deflate);
    // Cap inflated size at the IHDR-derived expected output. Rejecting
    // anything past that defends against decompression-bomb PNGs whose tiny
    // IDATs would expand to gigabytes.
    let decoded: DecodedDeflate = match decode_deflate(deflate_buf.as_slice(), Some(cap)) {
        Ok(d) => d,
        Err(e) => {
            return Err(LoadError::Deflate(e));
        },
    };
    if decoded.block_starts.len() as u64 > u32::MAX as u64 {
        return Err(
            LoadError::Unsupported {
                width: info.width,
                height: info.height,
                reason: "more DEFLATE blocks than a 32-bit index can name",
            },
        );
    }
    proof {
        lemma_stream_ok(deflate_buf@, cap);
    }
    let mut warnings: Vec<String> = Vec::new();
    assert(string_views(warnings@) =~= Seq::empty());
    push_messages(&mut warnings, parsed.warnings.as_slice());
    push_messages(&mut warnings, zlib.warnings.as_slice());
    let ghost texts = string_views(warnings@);
    assert(texts =~= warning_texts(found + parts.warnings));
    if zlib.stored_adler != adler32(decoded.output.as_slice()) {
        let text: String = Warning::StaleImageAdler.message();
        let ghost before = warnings@;
        warnings.push(text);
        assert(string_views(warnings@) =~= string_views(before).push(text@));
        assert(string_views(warnings@) =~= warning_texts(
            (found + parts.warnings).push(Warning::StaleImageAdler),
        ));
    }
    let (unfiltered, base_rgba): (Vec<u8>, Vec<u8>) = match render(
        decoded.output.as_slice(),
        &info,
        &palette,
    ) {
        Some(p) => p,
        None => {
            return Err(LoadError::Render);
        },
    };
    let ghost stream = decoded@;
    let mut core: CoreData = build_core_from_decoded(decoded, info, palette);
    core.unfiltered = unfiltered;
    drop_idat(&mut chunks);
    Ok(LoadedFile { chunks, zlib_header, deflate_buf, core, base_rgba, warnings })
}

} // verus!
