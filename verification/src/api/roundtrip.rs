//! Decoding undoes encoding.

use vstd::prelude::*;

use super::decode::{decode_of, pixels_of, strict_of};
use super::encode::{
    chunks_of, encodable, encode_of, encoded_idat, filtered_of, idat_of, ihdr_of, target_info,
    EncodeOptions,
};
use super::error::PngError;
use super::image::ImageView;
use super::prep::{palette_chunks, prepare_of, trns_key_of, PrepView};
use crate::deflate::compress::{compressed, law_compress_picks_smallest, law_compress_round_trip};
use crate::deflate::error::DecodeError;
use crate::deflate::inflate_spec::inflate_spec;
use crate::deflate::stream_spec::{law_stored_length, stored_blocks};
use crate::png::chunks::{
    be_bytes, chunks_info, file_bytes, find_chunk, idat_bytes, ihdr_info, ihdr_tag,
    law_chunks_round_trip, lemma_be_round_trip, lengths_fit, plte_tag, trns_tag, ChunkView, PngInfo,
};
use crate::png::convert::{
    consistent, law_pack_round_trip, lemma_layout, packed_rows, packable, rgba_of, ConvertError,
};
use crate::png::filter::law_filter_round_trip;
use crate::png::zlib::{
    adler_of, law_zlib_round_trip, split_zlib, ZlibError, ZlibParts, ZLIB_DEFAULT_HEADER,
};
use crate::raster::raster_len;

verus! {

/// The written IHDR reads back to the geometry it was written from.
proof fn lemma_ihdr_round_trip(info: PngInfo)
    requires
        info.legal(),
        !info.interlaced,
        info.width > 0,
        info.height > 0,
    ensures
        ihdr_info(ihdr_of(info)) == Some(info),
{
    let d = ihdr_of(info);
    assert(d.subrange(0, 4) =~= be_bytes(info.width));
    assert(d.subrange(4, 8) =~= be_bytes(info.height));
    lemma_be_round_trip(d, 0, info.width);
    lemma_be_round_trip(d, 4, info.height);
    assert(d[8] == info.bit_depth && d[9] == info.color_type.spec_to_byte() && d[10] == 0 && d[11]
        == 0 && d[12] == 0);
}

/// What the container of an encoded image says.
proof fn lemma_chunks_read(raw: Seq<u8>, info: PngInfo, options: EncodeOptions)
    requires
        info.legal(),
        !info.interlaced,
        info.width > 0,
        info.height > 0,
    ensures
        ({
            let chunks = chunks_of(raw, info, options);
            &&& chunks_info(chunks) == Some(info)
            &&& palette_chunks(chunks) is None
            &&& trns_key_of(chunks, info.color_type) is None
            &&& idat_bytes(chunks) == idat_of(filtered_of(raw, info, options))
        }),
{
    let chunks = chunks_of(raw, info, options);
    lemma_ihdr_round_trip(info);
    reveal_with_fuel(find_chunk, 5);
    assert(find_chunk(chunks, ihdr_tag(), 0) == Some(chunks[0]));
    assert(find_chunk(chunks, plte_tag(), 0) is None);
    assert(find_chunk(chunks, trns_tag(), 0) is None);
    let idat = chunks[1].data;
    let c2 = chunks.drop_last();
    let c1 = c2.drop_last();
    let c0 = c1.drop_last();
    assert(c0 =~= Seq::<ChunkView>::empty());
    assert(c1.last() == chunks[0] && c2.last() == chunks[1] && chunks.last() == chunks[2]);
    reveal_with_fuel(idat_bytes, 5);
    assert(idat_bytes(c1) =~= Seq::<u8>::empty());
    assert(idat_bytes(c2) =~= idat);
}

/// `decode(encode(image)).pixels == image.pixels`: an encoded image decodes,
/// also strictly, to the pixels it was encoded from, without a warning. The
/// image must be one that the output format can hold, and small enough for the
/// codec's 32-bit positions. Its compressed data must fit in one chunk, whose
/// length is 32 bits wide; [`law_encoded_length`] says how long it can get.
pub proof fn law_encode_round_trip(
    pixels: Seq<u8>,
    width: u32,
    height: u32,
    options: EncodeOptions,
)
    requires
        width > 0,
        height > 0,
        encodable(width, height, options),
        pixels.len() == height * (4 * width),
        pixels.len() <= u32::MAX,
        consistent(pixels, options.format.mode().0),
        encoded_idat(pixels, width, height, options).len() <= u32::MAX,
        encode_of(pixels, width, height, options) matches Ok(out) ==> 8 * out.len() <= usize::MAX,
    ensures
        encode_of(pixels, width, height, options) matches Ok(out) && decode_of(out) == Ok::<
            _,
            PngError,
        >(
            ImageView {
                info: target_info(width, height, options),
                palette: None,
                pixels,
                warnings: Seq::empty(),
            },
        ) && strict_of(out) == decode_of(out),
{
    let info = target_info(width, height, options);
    lemma_target(width, height, options);
    law_pack_round_trip(pixels, info);
    let raw = packed_rows(pixels, info, height as int);
    let filtered = filtered_of(raw, info, options);
    let out = file_bytes(chunks_of(raw, info, options));
    assert(encode_of(pixels, width, height, options) == Ok::<_, PngError>(out));
    lemma_container(raw, info, options);
    lemma_file_len(chunks_of(raw, info, options));
    lemma_payload(pixels, raw, info, options);
    let img = decode_of(out).unwrap();
    assert(img.warnings =~= Seq::empty());
    assert(img =~= ImageView { info, palette: None, pixels, warnings: Seq::empty() });
}

/// How long an encoded image gets: at worst its filtered rows are stored as they
/// are, in blocks with five bytes each, behind the zlib header and before its
/// checksum; the three chunks and the signature add 57 bytes.
pub proof fn law_encoded_length(
    pixels: Seq<u8>,
    width: u32,
    height: u32,
    options: EncodeOptions,
)
    requires
        encodable(width, height, options),
        pixels.len() == height * (4 * width),
        pixels.len() <= u32::MAX,
        consistent(pixels, options.format.mode().0),
    ensures
        ({
            let n = height as nat * target_info(width, height, options).row_stride as nat;
            let idat = encoded_idat(pixels, width, height, options);
            &&& idat.len() <= n + 5 * stored_blocks(n) + 6
            &&& encode_of(pixels, width, height, options) matches Ok(out) && out.len()
                == idat.len() + 57
        }),
{
    let info = target_info(width, height, options);
    lemma_target(width, height, options);
    law_pack_round_trip(pixels, info);
    let raw = packed_rows(pixels, info, height as int);
    let filtered = filtered_of(raw, info, options);
    law_filter_round_trip(raw, info, options.filter);
    law_stored_length(filtered);
    law_compress_picks_smallest(filtered);
    let chunks = chunks_of(raw, info, options);
    let c2 = chunks.drop_last();
    let c1 = c2.drop_last();
    assert(c1.drop_last() =~= Seq::<ChunkView>::empty());
    assert(chunks.last() == chunks[2] && c2.last() == chunks[1] && c1.last() == chunks[0]);
    reveal_with_fuel(crate::png::chunks::all_chunk_bytes, 5);
}

/// Every output format is a legal colour mode that can be packed.
proof fn lemma_target(width: u32, height: u32, options: EncodeOptions)
    requires
        encodable(width, height, options),
    ensures
        target_info(width, height, options).legal(),
        packable(target_info(width, height, options)),
        !target_info(width, height, options).interlaced,
        height * target_info(width, height, options).row_stride <= u32::MAX,
{
}

/// An encoded file's container reads back.
proof fn lemma_container(raw: Seq<u8>, info: PngInfo, options: EncodeOptions)
    requires
        info.legal(),
        packable(info),
        !info.interlaced,
        info.width > 0,
        info.height > 0,
        info.height * info.row_stride <= u32::MAX,
        raw.len() == info.height * info.row_bytes(),
        idat_of(filtered_of(raw, info, options)).len() <= u32::MAX,
    ensures
        prepare_of(file_bytes(chunks_of(raw, info, options))) == Ok::<_, PngError>(
            PrepView {
                info,
                palette: None,
                trns_key: None,
                idat: idat_of(filtered_of(raw, info, options)),
                warnings: Seq::empty(),
                cap: (info.height * info.row_stride) as usize,
            },
        ),
{
    let filtered = filtered_of(raw, info, options);
    let idat = idat_of(filtered);
    let chunks = chunks_of(raw, info, options);
    assert(lengths_fit(chunks)) by {
        assert(chunks[0].data.len() == 13);
        assert(chunks[1].data.len() == idat.len());
        assert(chunks[2].data.len() == 0);
    }
    law_chunks_round_trip(chunks);
    lemma_chunks_read(raw, info, options);
    lemma_layout(info);
    assert(raster_len(info) == info.height * info.row_stride);
    assert(idat.len() >= 2);
}

/// An encoded file's image data reads back.
proof fn lemma_payload(pixels: Seq<u8>, raw: Seq<u8>, info: PngInfo, options: EncodeOptions)
    requires
        info.legal(),
        packable(info),
        !info.interlaced,
        info.height * info.row_stride <= u32::MAX,
        raw.len() == info.height * info.row_bytes(),
        rgba_of(raw, info, None) == Ok::<_, ConvertError>(pixels),
        8 * idat_of(filtered_of(raw, info, options)).len() <= usize::MAX,
    ensures
        ({
            let filtered = filtered_of(raw, info, options);
            &&& split_zlib(idat_of(filtered)) == Ok::<_, ZlibError>(
                ZlibParts {
                    header: ZLIB_DEFAULT_HEADER@,
                    deflate: compressed(filtered),
                    adler: adler_of(filtered),
                    warnings: Seq::empty(),
                },
            )
            &&& inflate_spec(
                compressed(filtered),
                Some((info.height * info.row_stride) as usize),
            ) == Ok::<_, DecodeError>(filtered)
            &&& pixels_of(filtered, info, None) == Ok::<_, PngError>(pixels)
        }),
{
    let filtered = filtered_of(raw, info, options);
    law_filter_round_trip(raw, info, options.filter);
    assert(filtered.len() == info.height * info.row_stride);
    assert(raw.len() <= u32::MAX) by {
        assert(info.height * info.row_bytes() <= info.height * info.row_stride)
            by (nonlinear_arith)
            requires
                info.row_bytes() <= info.row_stride,
                0 <= info.height,
        ;
    }
    law_zlib_round_trip(compressed(filtered), ZLIB_DEFAULT_HEADER@, filtered);
    law_compress_round_trip(filtered, Some(filtered.len() as usize));
}

/// The image data is shorter than the file that holds it.
proof fn lemma_file_len(chunks: Seq<ChunkView>)
    requires
        chunks.len() == 3,
    ensures
        chunks[1].data.len() <= file_bytes(chunks).len(),
{
    let c2 = chunks.drop_last();
    let c1 = c2.drop_last();
    assert(c2.last() == chunks[1]);
    reveal_with_fuel(crate::png::chunks::all_chunk_bytes, 4);
}

} // verus!
