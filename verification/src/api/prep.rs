//! Chunk-level decode preparation shared by both decode entry points: parse
//! the container, read IHDR + palette + tRNS, gather IDAT, and compute the
//! decompression-bomb cap. The zlib/DEFLATE decode (where the two paths
//! diverge) is left to the caller.

use vstd::prelude::*;

use super::error::PngError;
use super::image::owned_palette_view;
use crate::png::chunks::{
    be_number, chunk_views, chunks_from, chunks_info, concat_idat, find_chunk, find_tag, idat_bytes,
    parse_chunks, parse_ihdr, plte_tag, read_chunks, trns_tag, with_chunk, Chunk, ChunkType,
    ChunkView, ColorType, Parsed, PngInfo, Warning,
};
use crate::png::convert::{decode_palette, palette_of, PaletteEntry, TrnsKey};
use crate::png::interlace::wide_output_len;
use crate::raster::raster_len;

verus! {

/// The result of [`prepare`]. Holds `idat` owned so the caller can borrow a
/// zlib view without a copy.
pub struct Prep {
    pub info: PngInfo,
    pub palette: Option<Vec<PaletteEntry>>,
    pub trns_key: Option<TrnsKey>,
    pub idat: Vec<u8>,
    pub warnings: Vec<Warning>,
    /// The exact inflated size that the IHDR calls for, the decompression-bomb
    /// cap.
    pub cap: usize,
}

/// What the container says about an image.
#[verifier::ext_equal]
pub struct PrepView {
    pub info: PngInfo,
    pub palette: Option<Seq<Seq<u8>>>,
    pub trns_key: Option<TrnsKey>,
    pub idat: Seq<u8>,
    pub warnings: Seq<Warning>,
    pub cap: usize,
}

impl View for Prep {
    type V = PrepView;

    open spec fn view(&self) -> PrepView {
        PrepView {
            info: self.info,
            palette: owned_palette_view(self.palette),
            trns_key: self.trns_key,
            idat: self.idat@,
            warnings: self.warnings@,
            cap: self.cap,
        }
    }
}

/// `n`, or the largest 64-bit number.
pub open spec fn capped_u64(n: int) -> u64 {
    if n <= u64::MAX {
        n as u64
    } else {
        u64::MAX
    }
}

/// A big-endian 16-bit sample.
pub open spec fn be_sample(d: Seq<u8>, i: int) -> u16 {
    (d[i] * 256 + d[i + 1]) as u16
}

/// The tRNS colour key for a Greyscale or RGB image.
pub open spec fn trns_key_of(chunks: Seq<ChunkView>, ct: ColorType) -> Option<TrnsKey> {
    match find_chunk(chunks, trns_tag(), 0) {
        None => None,
        Some(c) => match ct {
            ColorType::Greyscale => if c.data.len() >= 2 {
                Some(TrnsKey::Grey(be_sample(c.data, 0)))
            } else {
                None
            },
            ColorType::Rgb => if c.data.len() >= 6 {
                Some(
                    TrnsKey::Rgb(
                        be_sample(c.data, 0),
                        be_sample(c.data, 2),
                        be_sample(c.data, 4),
                    ),
                )
            } else {
                None
            },
            _ => None,
        },
    }
}

/// The palette of a chunk list, with its tRNS alphas.
pub open spec fn palette_chunks(chunks: Seq<ChunkView>) -> Option<Seq<Seq<u8>>> {
    match find_chunk(chunks, plte_tag(), 0) {
        None => None,
        Some(c) => Some(
            palette_of(
                c.data,
                match find_chunk(chunks, trns_tag(), 0) {
                    Some(t) => Some(t.data),
                    None => None,
                },
            ),
        ),
    }
}

/// The palette of an indexed image; other images have none, whatever chunks
/// they carry.
pub open spec fn indexed_palette(chunks: Seq<ChunkView>, ct: ColorType) -> Option<Seq<Seq<u8>>> {
    if ct == ColorType::Indexed {
        palette_chunks(chunks)
    } else {
        None
    }
}

/// What [`prepare`] makes of a file.
pub open spec fn prepare_of(bytes: Seq<u8>) -> Result<PrepView, PngError> {
    match parse_chunks(bytes) {
        Err(e) => Err(PngError::Chunks(e)),
        Ok(parsed) => match chunks_info(parsed.chunks) {
            None => Err(PngError::MissingIhdr),
            Some(info) => if raster_len(info) > u32::MAX {
                Err(PngError::OutputTooLarge { output_bytes: capped_u64(raster_len(info)) })
            } else if idat_bytes(parsed.chunks).len() == 0 {
                Err(PngError::MissingIdat)
            } else {
                Ok(
                    PrepView {
                        info,
                        palette: indexed_palette(parsed.chunks, info.color_type),
                        trns_key: trns_key_of(parsed.chunks, info.color_type),
                        idat: idat_bytes(parsed.chunks),
                        warnings: parsed.warnings,
                        cap: raster_len(info) as usize,
                    },
                )
            },
        },
    }
}

/// The image data is no longer than the file.
pub proof fn lemma_idat_inside(data: Seq<u8>, pos: int, acc: Parsed)
    requires
        0 <= pos,
    ensures
        chunks_from(data, pos, acc) matches Ok(p) ==> idat_bytes(p.chunks).len() <= idat_bytes(
            acc.chunks,
        ).len() + (if pos < data.len() {
            data.len() - pos
        } else {
            0
        }),
    decreases
            (if pos < data.len() {
                data.len() - pos
            } else {
                0
            }),
{
    if pos + 12 <= data.len() && pos + 12 + be_number(data, pos) <= data.len() {
        let next = with_chunk(acc, data, pos);
        assert(next.chunks.drop_last() =~= acc.chunks);
        lemma_idat_inside(data, pos + 12 + be_number(data, pos) as int, next);
    }
}

/// The tRNS colour key for a Greyscale or RGB image, or `None` (indexed
/// transparency is folded into the palette by `read_palette`).
fn parse_trns_key(chunks: &[Chunk], info: &PngInfo) -> (r: Option<TrnsKey>)
    ensures
        r == trns_key_of(chunk_views(chunks@), info.color_type),
{
    let chunk: &Chunk = match find_tag(chunks, ChunkType::trns()) {
        Some(c) => c,
        None => {
            return None;
        },
    };
    let d = chunk.data.as_slice();
    match info.color_type {
        ColorType::Greyscale => if d.len() >= 2 {
            Some(TrnsKey::Grey(read_sample(d, 0)))
        } else {
            None
        },
        ColorType::Rgb => if d.len() >= 6 {
            Some(TrnsKey::Rgb(read_sample(d, 0), read_sample(d, 2), read_sample(d, 4)))
        } else {
            None
        },
        _ => None,
    }
}

fn read_sample(d: &[u8], i: usize) -> (r: u16)
    requires
        i + 2 <= d@.len(),
    ensures
        r == be_sample(d@, i as int),
{
    d[i] as u16 * 256 + d[i + 1] as u16
}

/// The exact inflated size that the IHDR calls for, guarded to fit the codec's
/// `u32` byte positions.
pub fn expected_output_len(info: &PngInfo) -> (r: Result<usize, PngError>)
    requires
        info.wf(),
    ensures
        r == (if raster_len(*info) > u32::MAX {
            Err(PngError::OutputTooLarge { output_bytes: capped_u64(raster_len(*info)) })
        } else {
            Ok(raster_len(*info) as usize)
        }),
{
    let n: u128 = if info.interlaced {
        wide_output_len(info)
    } else {
        assert(0 <= info.height * info.row_stride <= u128::MAX) by (nonlinear_arith)
            requires
                info.height <= 0xFFFF_FFFF,
                info.row_stride <= 0xFFFF_FFFF_FFFF_FFFF,
        ;
        info.height as u128 * info.row_stride as u128
    };
    if n > u32::MAX as u128 {
        let output_bytes: u64 = if n <= u64::MAX as u128 {
            n as u64
        } else {
            u64::MAX
        };
        return Err(PngError::OutputTooLarge { output_bytes });
    }
    Ok(n as usize)
}

/// Decode PLTE (+ optional tRNS) into a palette, or `None` when the image
/// carries no palette chunk.
pub fn read_palette(chunks: &[Chunk]) -> (r: Option<Vec<PaletteEntry>>)
    ensures
        owned_palette_view(r) == palette_chunks(chunk_views(chunks@)),
{
    let plte: &Chunk = match find_tag(chunks, ChunkType::plte()) {
        Some(c) => c,
        None => {
            return None;
        },
    };
    let trns: Option<&[u8]> = match find_tag(chunks, ChunkType::trns()) {
        Some(c) => Some(c.data.as_slice()),
        None => None,
    };
    Some(decode_palette(plte.data.as_slice(), trns))
}

/// Parse the container up to the image data.
pub fn prepare(bytes: &[u8]) -> (r: Result<Prep, PngError>)
    ensures
        match prepare_of(bytes@) {
            Ok(p) => r matches Ok(v) && v@ == p && v.info.legal() && v.idat@.len() <= bytes@.len(),
            Err(e) => r == Err::<Prep, _>(e),
        },
{
    let parsed = match read_chunks(bytes) {
        Ok(p) => p,
        Err(e) => {
            return Err(PngError::from(e));
        },
    };
    let info: PngInfo = match parse_ihdr(parsed.chunks.as_slice()) {
        Some(info) => info,
        None => {
            return Err(PngError::MissingIhdr);
        },
    };
    // Cap inflation at the IHDR-implied size so an adversarial IDAT can't pump
    // the decoder into gigabytes.
    let cap: usize = match expected_output_len(&info) {
        Ok(n) => n,
        Err(e) => {
            return Err(e);
        },
    };
    // A suggested palette in an image of another colour type is not its
    // palette.
    let palette = if info.color_type == ColorType::Indexed {
        read_palette(parsed.chunks.as_slice())
    } else {
        None
    };
    let trns_key = parse_trns_key(parsed.chunks.as_slice(), &info);
    let idat: Vec<u8> = concat_idat(parsed.chunks.as_slice());
    proof {
        lemma_idat_inside(
            bytes@,
            8,
            Parsed { chunks: Seq::empty(), warnings: Seq::empty() },
        );
    }
    if idat.len() == 0 {
        return Err(PngError::MissingIdat);
    }
    Ok(Prep { info, palette, trns_key, idat, warnings: parsed.warnings, cap })
}

} // verus!
