//! The decode entry points: [`decode`] (bytes -> RGBA8), [`decode_strict`]
//! (the same but rejecting bad checksums, for use as a conformant decoder),
//! and [`decode_with_events`] (the glass-box path that also returns the
//! DEFLATE event stream and per-block Huffman tables).
//!
//! Safe by default: inflation is capped at the exact output the IHDR
//! dimensions call for, so a decompression-bomb PNG (a tiny IDAT that would
//! expand to gigabytes) is rejected rather than allocated.

use vstd::prelude::*;

use super::error::{flattened, PngError};
use super::image::{owned_palette_view, GlassBox, GlassView, Image, ImageView};
use super::prep::{prepare, prepare_of, PrepView};
use crate::deflate::decoder::{decode_deflate, inflate};
use crate::deflate::inflate_spec::{decode_spec, inflate_spec};
use crate::png::chunks::{lemma_chunks_info, parse_chunks, PngInfo, Warning};
use crate::png::convert::{
    apply_color_key, entry_views, keyed_out, palette_view, rgba_of, to_rgba8, PaletteEntry,
};
use crate::png::filter::{lemma_unfilter_raw, unfilter, unfilter_of};
use crate::png::interlace::{
    deinterlace_of, deinterlace_to_rgba8, deinterlace_unfilter, first_bad_pass,
    lemma_passes_unfilter, raw_passes,
};
use crate::png::zlib::{adler32, adler_of, parse_zlib_stream, split_zlib, ZlibParts};

verus! {

/// The warnings of a decode, in the order in which they are found.
pub open spec fn all_warnings(prep: PrepView, parts: ZlibParts, output: Seq<u8>) -> Seq<Warning> {
    let found = prep.warnings + parts.warnings;
    if parts.adler == adler_of(output) {
        found
    } else {
        found.push(Warning::StaleImageAdler)
    }
}

/// The RGBA8 pixels of an inflated output.
pub open spec fn pixels_of(
    output: Seq<u8>,
    info: PngInfo,
    palette: Option<Seq<Seq<u8>>>,
) -> Result<Seq<u8>, PngError> {
    if info.interlaced {
        match deinterlace_of(output, info, palette) {
            Ok(px) => Ok(px),
            Err(e) => Err(flattened(e)),
        }
    } else {
        match unfilter_of(output, info) {
            Err(e) => Err(PngError::Filter(e)),
            Ok(raw) => match rgba_of(raw, info, palette) {
                Err(e) => Err(PngError::Convert(e)),
                Ok(px) => Ok(px),
            },
        }
    }
}

/// What [`decode`] makes of a file.
pub open spec fn decode_of(bytes: Seq<u8>) -> Result<ImageView, PngError> {
    match prepare_of(bytes) {
        Err(e) => Err(e),
        Ok(prep) => match split_zlib(prep.idat) {
            Err(e) => Err(PngError::Zlib(e)),
            Ok(parts) => match inflate_spec(parts.deflate, Some(prep.cap)) {
                Err(e) => Err(PngError::Deflate(e)),
                Ok(output) => match pixels_of(output, prep.info, prep.palette) {
                    Err(e) => Err(e),
                    Ok(px) => Ok(
                        ImageView {
                            info: prep.info,
                            palette: prep.palette,
                            pixels: match prep.trns_key {
                                Some(key) => keyed_out(px, key.rgb8(prep.info.bit_depth)),
                                None => px,
                            },
                            warnings: all_warnings(prep, parts, output),
                        },
                    ),
                },
            },
        },
    }
}

/// What [`decode_strict`] makes of a file: any warning rejects it.
pub open spec fn strict_of(bytes: Seq<u8>) -> Result<ImageView, PngError> {
    match decode_of(bytes) {
        Err(e) => Err(e),
        Ok(img) => if img.warnings.len() > 0 {
            Err(PngError::BadChecksum(img.warnings[0]))
        } else {
            Ok(img)
        },
    }
}

/// The raw bytes of an inflated output.
pub open spec fn raw_bytes_of(output: Seq<u8>, info: PngInfo) -> Result<Seq<u8>, PngError> {
    if info.interlaced {
        match raw_passes(output, info, 0) {
            Ok(raw) => Ok(raw),
            Err(e) => Err(flattened(e)),
        }
    } else {
        match unfilter_of(output, info) {
            Err(e) => Err(PngError::Filter(e)),
            Ok(raw) => Ok(raw),
        }
    }
}

/// What [`decode_with_events`] makes of a file.
pub open spec fn glass_of(bytes: Seq<u8>) -> Result<GlassView, PngError> {
    match prepare_of(bytes) {
        Err(e) => Err(e),
        Ok(prep) => match split_zlib(prep.idat) {
            Err(e) => Err(PngError::Zlib(e)),
            Ok(parts) => match decode_spec(parts.deflate, Some(prep.cap)) {
                Err(e) => Err(PngError::Deflate(e)),
                Ok(deflate) => match raw_bytes_of(deflate.progress.out, prep.info) {
                    Err(e) => Err(e),
                    Ok(unfiltered) => Ok(
                        GlassView {
                            info: prep.info,
                            palette: prep.palette,
                            deflate,
                            unfiltered,
                            warnings: all_warnings(prep, parts, deflate.progress.out),
                        },
                    ),
                },
            },
        },
    }
}

/// A palette as a slice.
pub fn palette_slice<'a>(palette: &'a Option<Vec<PaletteEntry>>) -> (r: Option<&'a [PaletteEntry]>)
    ensures
        palette_view(r) == owned_palette_view(*palette),
{
    match palette {
        Some(p) => {
            let s = p.as_slice();
            assert(Seq::new(s@.len(), |i: int| s@[i]@) =~= entry_views(p@));
            Some(s)
        },
        None => None,
    }
}

fn output_pixels(output: &[u8], info: &PngInfo, palette: &Option<Vec<PaletteEntry>>) -> (r: Result<
    Vec<u8>,
    PngError,
>)
    requires
        info.wf(),
    ensures
        match pixels_of(output@, *info, owned_palette_view(*palette)) {
            Ok(px) => r matches Ok(v) && v@ == px,
            Err(e) => r == Err::<Vec<u8>, _>(e),
        },
{
    let pal = palette_slice(palette);
    if info.interlaced {
        match deinterlace_to_rgba8(output, info, pal) {
            Ok(px) => Ok(px),
            Err(e) => Err(PngError::from(e)),
        }
    } else {
        match unfilter(output, info) {
            Err(e) => Err(PngError::from(e)),
            Ok(raw) => match to_rgba8(raw.as_slice(), info, pal) {
                Ok(px) => Ok(px),
                Err(e) => Err(PngError::from(e)),
            },
        }
    }
}

/// Decode a PNG to RGBA8 pixels.
///
/// The common path when you just want an image. For bit-level editing of
/// the compressed stream, use [`decode_with_events`] instead.
pub fn decode(bytes: &[u8]) -> (r: Result<Image, PngError>)
    requires
        8 * bytes@.len() <= usize::MAX,
    ensures
        match decode_of(bytes@) {
            Ok(img) => r matches Ok(v) && v@ == img,
            Err(e) => r == Err::<Image, _>(e),
        },
{
    let prep = match prepare(bytes) {
        Ok(p) => p,
        Err(e) => {
            return Err(e);
        },
    };
    let ghost view = prep@;
    let zlib = match parse_zlib_stream(prep.idat.as_slice()) {
        Ok(z) => z,
        Err(e) => {
            return Err(PngError::from(e));
        },
    };
    let ghost parts = zlib@;
    let mut warnings: Vec<Warning> = Vec::new();
    warnings.extend_from_slice(prep.warnings.as_slice());
    warnings.extend_from_slice(zlib.warnings.as_slice());
    // The lean path: `inflate` produces only the output bytes, skipping the
    // per-symbol event log the glass-box path builds.
    let output: Vec<u8> = match inflate(zlib.deflate_buf, Some(prep.cap)) {
        Ok(o) => o,
        Err(e) => {
            return Err(PngError::from(e));
        },
    };
    if zlib.stored_adler != adler32(output.as_slice()) {
        warnings.push(Warning::StaleImageAdler);
    }
    assert(warnings@ =~= all_warnings(view, parts, output@));
    let mut pixels: Vec<u8> = match output_pixels(output.as_slice(), &prep.info, &prep.palette) {
        Ok(px) => px,
        Err(e) => {
            return Err(e);
        },
    };
    if let Some(key) = prep.trns_key {
        apply_color_key(pixels.as_mut_slice(), &prep.info, key);
    }
    Ok(Image { info: prep.info, palette: prep.palette, pixels, warnings })
}

/// Decode like [`decode`], but reject any image whose chunk CRC or zlib
/// Adler-32 fails instead of tolerating it, so the codec acts as a
/// conformant decoder. [`decode`] (and the glass-box path) tolerate stale
/// checksums so glitched files still load.
pub fn decode_strict(bytes: &[u8]) -> (r: Result<Image, PngError>)
    requires
        8 * bytes@.len() <= usize::MAX,
    ensures
        match strict_of(bytes@) {
            Ok(img) => r matches Ok(v) && v@ == img,
            Err(e) => r == Err::<Image, _>(e),
        },
{
    let img = match decode(bytes) {
        Ok(img) => img,
        Err(e) => {
            return Err(e);
        },
    };
    // Every warning is an integrity mismatch (chunk CRC, zlib FCHECK, or the
    // image Adler-32), so a non-empty list is a bad checksum.
    if img.warnings.len() > 0 {
        return Err(PngError::BadChecksum(img.warnings[0]));
    }
    Ok(img)
}

/// Decode a PNG and keep the DEFLATE event stream and per-block Huffman
/// tables: the glass-box path behind event-level editing.
pub fn decode_with_events(bytes: &[u8]) -> (r: Result<GlassBox, PngError>)
    requires
        8 * bytes@.len() <= usize::MAX,
    ensures
        match glass_of(bytes@) {
            Ok(gb) => r matches Ok(v) && v@ == gb,
            Err(e) => r == Err::<GlassBox, _>(e),
        },
{
    let prep = match prepare(bytes) {
        Ok(p) => p,
        Err(e) => {
            return Err(e);
        },
    };
    let ghost view = prep@;
    let zlib = match parse_zlib_stream(prep.idat.as_slice()) {
        Ok(z) => z,
        Err(e) => {
            return Err(PngError::from(e));
        },
    };
    let ghost parts = zlib@;
    let mut warnings: Vec<Warning> = Vec::new();
    warnings.extend_from_slice(prep.warnings.as_slice());
    warnings.extend_from_slice(zlib.warnings.as_slice());
    let deflate = match decode_deflate(zlib.deflate_buf, Some(prep.cap)) {
        Ok(d) => d,
        Err(e) => {
            return Err(PngError::from(e));
        },
    };
    if zlib.stored_adler != adler32(deflate.output.as_slice()) {
        warnings.push(Warning::StaleImageAdler);
    }
    assert(warnings@ =~= all_warnings(view, parts, deflate@.progress.out));
    // For interlaced images `unfiltered` is the per-pass raw bytes
    // concatenated (there is no single progressive raster to undo).
    let unfiltered: Vec<u8> = if prep.info.interlaced {
        match deinterlace_unfilter(deflate.output.as_slice(), &prep.info) {
            Ok(raw) => raw,
            Err(e) => {
                return Err(PngError::from(e));
            },
        }
    } else {
        match unfilter(deflate.output.as_slice(), &prep.info) {
            Ok(raw) => raw,
            Err(e) => {
                return Err(PngError::from(e));
            },
        }
    };
    Ok(GlassBox { info: prep.info, palette: prep.palette, deflate, unfiltered, warnings })
}

/// A strict decode fails where a decode does, for the same reason. Of the images
/// that decode it rejects exactly those with a warning, with the first warning
/// as the reason.
pub proof fn law_strict_rejects_warnings(bytes: Seq<u8>)
    ensures
        strict_of(bytes) is Ok <==> (decode_of(bytes) matches Ok(img) && img.warnings.len() == 0),
        strict_of(bytes) matches Ok(img) ==> decode_of(bytes) == Ok::<_, PngError>(img),
        decode_of(bytes) matches Err(e) ==> strict_of(bytes) == Err::<ImageView, _>(e),
        decode_of(bytes) matches Ok(img) ==> img.warnings.len() > 0 ==> strict_of(bytes) == Err::<
            ImageView,
            _,
        >(PngError::BadChecksum(img.warnings[0])),
{
}

/// The two ways to decode agree. Whatever decodes to pixels also decodes with
/// its events, to the same header, palette and warnings; and where an image is
/// not interlaced, its unfiltered bytes are those of its rows and convert to
/// the pixels, before a transparent colour is keyed out. What fails on the way
/// to the unfiltered bytes fails both ways, with the same error unless the
/// image is interlaced; only the conversion to pixels can fail one way alone.
pub proof fn law_decodes_agree(bytes: Seq<u8>)
    ensures
        decode_of(bytes) matches Ok(img) ==> (glass_of(bytes) matches Ok(gb) && prepare_of(
            bytes,
        ) matches Ok(prep) && {
            &&& gb.info == img.info
            &&& gb.palette == img.palette
            &&& gb.warnings == img.warnings
            &&& !img.info.interlaced ==> {
                &&& gb.unfiltered.len() == img.info.height * img.info.row_bytes()
                &&& rgba_of(gb.unfiltered, gb.info, gb.palette) matches Ok(px) && img.pixels == (
                match prep.trns_key {
                    Some(key) => keyed_out(px, key.rgb8(img.info.bit_depth)),
                    None => px,
                })
            }
        }),
        glass_of(bytes) matches Err(e) ==> (decode_of(bytes) matches Err(f) && (prepare_of(
            bytes,
        ) matches Ok(prep) && prep.info.interlaced || f == e)),
        decode_of(bytes) matches Err(e) ==> glass_of(bytes) is Ok ==> e is Convert,
{
    if let Ok(prep) = prepare_of(bytes) {
        lemma_chunks_info(parse_chunks(bytes)->Ok_0.chunks);
        if let Ok(parts) = split_zlib(prep.idat) {
            if let Ok(d) = decode_spec(parts.deflate, Some(prep.cap)) {
                let out = d.progress.out;
                lemma_unfilter_raw(out, prep.info);
                if prep.info.interlaced {
                    if first_bad_pass(out, prep.info, prep.palette, 0) is None {
                        lemma_passes_unfilter(out, prep.info, prep.palette, 0);
                    } else if raw_passes(out, prep.info, 0) is Ok {
                        lemma_only_conversion(out, prep.info, prep.palette, 0);
                    }
                }
            }
        }
    }
}

/// Where every pass unfilters, a bad pass failed to convert.
proof fn lemma_only_conversion(
    output: Seq<u8>,
    info: PngInfo,
    palette: Option<Seq<Seq<u8>>>,
    p: int,
)
    requires
        0 <= p,
        raw_passes(output, info, p) is Ok,
    ensures
        first_bad_pass(output, info, palette, p) matches Some(e) ==> e is Convert,
    decreases 7 - p,
{
    if p < 7 {
        lemma_only_conversion(output, info, palette, p + 1);
    }
}

} // verus!
