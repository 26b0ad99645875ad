//! Encode an [`Image`] back to PNG bytes: the mirror of the decode pipeline.

use vstd::prelude::*;

use super::error::PngError;
use super::image::Image;
use crate::deflate::compress::{compress, compressed};
use crate::png::chunks::{
    be_bytes, chunk_views, file_bytes, idat_tag, iend_tag, ihdr_tag, info_of, push_be, stride_of,
    write_chunks, Chunk, ChunkType, ChunkView, ColorType, PngInfo,
};
use crate::png::convert::{pack, pack_of, packed_rows};
use crate::png::filter::{filter, written_rows, FilterStrategy};
use crate::png::zlib::{build_zlib_stream, zlib_stream, ZLIB_DEFAULT_HEADER};

verus! {

/// The pixel formats [`encode`] can produce from RGBA8 input: the byte-aligned
/// non-indexed colour types. Indexed and sub-byte outputs, which `pack` can't
/// build, are simply not representable here rather than rejected at runtime.
#[derive(Debug, Clone, Copy, PartialEq, Eq, Structural)]
pub enum OutputFormat {
    Rgba8,
    Rgb8,
    Grey8,
    GreyAlpha8,
    Rgba16,
    Rgb16,
    Grey16,
    GreyAlpha16,
}

impl Default for OutputFormat {
    fn default() -> (r: Self)
        ensures
            r == OutputFormat::Rgba8,
    {
        OutputFormat::Rgba8
    }
}

impl OutputFormat {
    /// The `(colour type, bit depth)` this format writes.
    pub open spec fn mode(self) -> (ColorType, u8) {
        match self {
            OutputFormat::Rgba8 => (ColorType::Rgba, 8),
            OutputFormat::Rgb8 => (ColorType::Rgb, 8),
            OutputFormat::Grey8 => (ColorType::Greyscale, 8),
            OutputFormat::GreyAlpha8 => (ColorType::GreyAlpha, 8),
            OutputFormat::Rgba16 => (ColorType::Rgba, 16),
            OutputFormat::Rgb16 => (ColorType::Rgb, 16),
            OutputFormat::Grey16 => (ColorType::Greyscale, 16),
            OutputFormat::GreyAlpha16 => (ColorType::GreyAlpha, 16),
        }
    }

    /// The `(colour type, bit depth)` this format writes to IHDR and packs to.
    pub fn dims(self) -> (r: (ColorType, u8))
        ensures
            r == self.mode(),
    {
        match self {
            OutputFormat::Rgba8 => (ColorType::Rgba, 8),
            OutputFormat::Rgb8 => (ColorType::Rgb, 8),
            OutputFormat::Grey8 => (ColorType::Greyscale, 8),
            OutputFormat::GreyAlpha8 => (ColorType::GreyAlpha, 8),
            OutputFormat::Rgba16 => (ColorType::Rgba, 16),
            OutputFormat::Rgb16 => (ColorType::Rgb, 16),
            OutputFormat::Grey16 => (ColorType::Greyscale, 16),
            OutputFormat::GreyAlpha16 => (ColorType::GreyAlpha, 16),
        }
    }
}

/// Output format and filtering for [`encode`].
#[derive(Debug, Clone, Copy, PartialEq, Eq, Structural)]
pub struct EncodeOptions {
    pub format: OutputFormat,
    pub filter: FilterStrategy,
}

impl Default for EncodeOptions {
    fn default() -> (r: Self)
        ensures
            r.format == OutputFormat::Rgba8,
            r.filter == FilterStrategy::MinSad,
    {
        EncodeOptions { format: OutputFormat::Rgba8, filter: FilterStrategy::MinSad }
    }
}

/// The geometry that an encode writes.
pub open spec fn target_info(width: u32, height: u32, options: EncodeOptions) -> PngInfo {
    info_of(width, height, options.format.mode().1, options.format.mode().0)
}

/// The 13 IHDR bytes of a geometry.
pub open spec fn ihdr_of(info: PngInfo) -> Seq<u8> {
    be_bytes(info.width) + be_bytes(info.height) + seq![
        info.bit_depth,
        info.color_type.spec_to_byte(),
        0u8,
        0u8,
        0u8,
    ]
}

/// The filtered rows that an encode compresses.
pub open spec fn filtered_of(raw: Seq<u8>, info: PngInfo, options: EncodeOptions) -> Seq<u8> {
    written_rows(raw, info, options.filter, info.height as int)
}

/// The zlib stream that an encode writes.
pub open spec fn idat_of(filtered: Seq<u8>) -> Seq<u8> {
    zlib_stream(compressed(filtered), ZLIB_DEFAULT_HEADER@, filtered)
}

/// The chunks that an encode writes.
pub open spec fn chunks_of(raw: Seq<u8>, info: PngInfo, options: EncodeOptions) -> Seq<ChunkView> {
    seq![
        ChunkView { typ: ihdr_tag(), data: ihdr_of(info) },
        ChunkView { typ: idat_tag(), data: idat_of(filtered_of(raw, info, options)) },
        ChunkView { typ: iend_tag(), data: Seq::empty() },
    ]
}

/// What [`encode`] makes of an image.
pub open spec fn encode_of(
    pixels: Seq<u8>,
    width: u32,
    height: u32,
    options: EncodeOptions,
) -> Result<Seq<u8>, PngError> {
    let info = target_info(width, height, options);
    match pack_of(pixels, info) {
        Err(e) => Err(PngError::Convert(e)),
        Ok(raw) => Ok(file_bytes(chunks_of(raw, info, options))),
    }
}

/// The image data of an encoded image.
pub open spec fn encoded_idat(
    pixels: Seq<u8>,
    width: u32,
    height: u32,
    options: EncodeOptions,
) -> Seq<u8> {
    let info = target_info(width, height, options);
    idat_of(filtered_of(packed_rows(pixels, info, height as int), info, options))
}

/// The bytes of a filtered row of the output format.
pub open spec fn target_stride(width: u32, options: EncodeOptions) -> nat {
    stride_of(
        width as nat,
        options.format.mode().1 as nat,
        options.format.mode().0.spec_channels(),
    )
}

/// The rows of the output format fit in memory, and the filtered image in the
/// codec's 32-bit positions.
pub open spec fn encodable(width: u32, height: u32, options: EncodeOptions) -> bool {
    let stride = target_stride(width, options);
    stride <= usize::MAX && height * stride <= u32::MAX
}

/// The 13-byte IHDR payload for `info` (compression / filter / interlace
/// all 0).
fn ihdr_bytes(info: &PngInfo) -> (d: Vec<u8>)
    ensures
        d@ == ihdr_of(*info),
{
    let mut d: Vec<u8> = Vec::new();
    push_be(&mut d, info.width);
    push_be(&mut d, info.height);
    d.push(info.bit_depth);
    d.push(info.color_type.to_byte());
    d.push(0);
    d.push(0);
    d.push(0);
    assert(d@ =~= ihdr_of(*info));
    d
}

proof fn lemma_written_len(raw: Seq<u8>, info: PngInfo, strategy: FilterStrategy)
    requires
        info.wf(),
        raw.len() == info.height * info.row_bytes(),
    ensures
        written_rows(raw, info, strategy, info.height as int).len() == info.height
            * info.row_stride,
{
    crate::png::filter::law_filter_round_trip(raw, info, strategy);
}

/// Encode an [`Image`]'s RGBA8 pixels to PNG bytes: `pack` -> `filter` ->
/// DEFLATE -> zlib -> chunks, the mirror of [`decode`](super::decode::decode).
/// The output format comes from `options` (default RGBA8); [`OutputFormat`]
/// names only the formats the encoder can produce (the byte-aligned
/// non-indexed colour types), so an unsupported target isn't representable.
///
/// The DEFLATE stream is compressed with greedy LZ77, emitted as whichever
/// of stored / fixed-Huffman / dynamic-Huffman is smallest (see [`compress`]).
/// Decoding the result gives back `image.pixels`.
pub fn encode(image: &Image, options: &EncodeOptions) -> (r: Result<Vec<u8>, PngError>)
    requires
        target_stride(image.info.width, *options) <= usize::MAX,
        pack_of(
            image@.pixels,
            target_info(image.info.width, image.info.height, *options),
        ) is Ok ==> encodable(image.info.width, image.info.height, *options),
    ensures
        match encode_of(image@.pixels, image.info.width, image.info.height, *options) {
            Ok(out) => r matches Ok(v) && v@ == out,
            Err(e) => r == Err::<Vec<u8>, _>(e),
        },
{
    let (color_type, bit_depth) = options.format.dims();
    let info = PngInfo::new(image.info.width, image.info.height, bit_depth, color_type);
    let raw: Vec<u8> = match pack(image.pixels.as_slice(), &info) {
        Ok(raw) => raw,
        Err(e) => {
            return Err(PngError::from(e));
        },
    };
    proof {
        crate::png::convert::lemma_packed_len(image.pixels@, info, info.height as int);
        lemma_written_len(raw@, info, options.filter);
    }
    let filtered: Vec<u8> = filter(raw.as_slice(), &info, options.filter);
    let deflate: Vec<u8> = compress(filtered.as_slice());
    let idat: Vec<u8> = build_zlib_stream(
        deflate.as_slice(),
        ZLIB_DEFAULT_HEADER,
        filtered.as_slice(),
    );
    let mut chunks: Vec<Chunk> = Vec::new();
    chunks.push(Chunk { typ: ChunkType::ihdr(), data: ihdr_bytes(&info) });
    chunks.push(Chunk { typ: ChunkType::idat(), data: idat });
    let empty: Vec<u8> = Vec::new();
    chunks.push(Chunk { typ: ChunkType::iend(), data: empty });
    proof {
        let want = chunks_of(raw@, info, *options);
        assert(empty@ =~= Seq::<u8>::empty());
        assert(chunk_views(chunks@) =~= want);
    }
    Ok(write_chunks(chunks.as_slice()))
}

} // verus!
