//! What an encoded file holds, byte for byte where it is fixed, and which
//! pixels of a decoded one are transparent.

use vstd::prelude::*;

use super::decode::{decode_of, pixels_of};
use super::encode::{
    chunks_of, encode_of, encoded_idat, filtered_of, ihdr_of, target_info, EncodeOptions,
};
use super::error::PngError;
use super::image::ImageView;
use super::prep::{prepare_of, trns_key_of};
use crate::deflate::compress::compressed;
use crate::deflate::inflate_spec::inflate_spec;
use crate::png::checksum_law::{chunk_offset, four_bytes, law_file_layout, law_zlib_layout};
use crate::png::chunks::{
    be_bytes, find_chunk, lemma_be_round_trip, lemma_chunks_info, lengths_fit, parse_chunks,
    trns_tag, ChunkView, ColorType, PngInfo,
};
use crate::png::convert::{
    keyed_out, pack_of, packed_rows, palette_wf, pixel, rgba_of, ConvertError, TrnsKey,
};
use crate::png::filter::{buf_row, lemma_row_inside, unfilter_of};
use crate::png::interlace::{
    deinterlace_of, lemma_pass_geom, lemma_sub_pixel, pass_empty, pass_geom, pass_of, pass_raw,
    pass_rgba, sub_x, sub_y, InterlaceError,
};
use crate::png::pixel_law::{law_deinterlaced_pixel, law_pass_places, law_picture};
use crate::png::zlib::{split_zlib, ZLIB_DEFAULT_HEADER};

verus! {

/// The bytes of an encoded file: the signature; an IHDR with the width, the
/// height, the depth and the colour type of the format asked for, and nothing
/// special; one IDAT with a zlib stream of the usual header; and the end.
pub proof fn law_encoded_file(
    pixels: Seq<u8>,
    width: u32,
    height: u32,
    options: EncodeOptions,
    out: Seq<u8>,
)
    requires
        encode_of(pixels, width, height, options) == Ok::<_, PngError>(out),
        encoded_idat(pixels, width, height, options).len() <= u32::MAX,
    ensures
        ({
            let n = encoded_idat(pixels, width, height, options).len() as int;
            let (ct, depth) = options.format.mode();
            &&& out.len() == 8 + 25 + 12 + n + 12
            &&& out.take(8) == seq![0x89u8, 0x50, 0x4E, 0x47, 0x0D, 0x0A, 0x1A, 0x0A]
            &&& four_bytes(out, 8) == 13
            &&& out.subrange(12, 16) == seq![0x49u8, 0x48, 0x44, 0x52]
            &&& four_bytes(out, 16) == width
            &&& four_bytes(out, 20) == height
            &&& out[24] == depth
            &&& out[25] == ct.spec_to_byte()
            &&& out[26] == 0 && out[27] == 0 && out[28] == 0
            &&& four_bytes(out, 33) == n
            &&& out.subrange(37, 41) == seq![0x49u8, 0x44, 0x41, 0x54]
            &&& out[41] == 0x78 && out[42] == 0x9C
            &&& four_bytes(out, 45 + n) == 0
            &&& out.subrange(49 + n, 53 + n) == seq![0x49u8, 0x45, 0x4E, 0x44]
        }),
{
    let info = target_info(width, height, options);
    let raw = pack_of(pixels, info)->Ok_0;
    let chunks = chunks_of(raw, info, options);
    let idat = encoded_idat(pixels, width, height, options);
    assert(raw == packed_rows(pixels, info, height as int));
    assert(chunks.len() == 3);
    assert(chunks[1].data == idat);
    assert(chunks[0].data == ihdr_of(info));
    assert(ihdr_of(info).len() == 13);
    assert(lengths_fit(chunks));
    law_file_layout(chunks, 0);
    law_file_layout(chunks, 1);
    law_file_layout(chunks, 2);
    reveal_with_fuel(chunk_offset, 3);
    assert(chunk_offset(chunks, 0) == 8);
    assert(chunk_offset(chunks, 1) == 33);
    assert(chunk_offset(chunks, 2) == 45 + idat.len());
    let d = ihdr_of(info);
    let here = out.subrange(16, 29);
    assert(here == d);
    assert(d.subrange(0, 4) =~= be_bytes(width));
    assert(d.subrange(4, 8) =~= be_bytes(height));
    lemma_be_round_trip(d, 0, width);
    lemma_be_round_trip(d, 4, height);
    assert(out[16] == here[0] && out[17] == here[1] && out[18] == here[2] && out[19] == here[3]);
    assert(out[20] == here[4] && out[21] == here[5] && out[22] == here[6] && out[23] == here[7]);
    assert(out[24] == here[8] && out[25] == here[9] && out[26] == here[10] && out[27] == here[11]
        && out[28] == here[12]);
    let filtered = filtered_of(raw, info, options);
    let deflate = compressed(filtered);
    law_zlib_layout(deflate, ZLIB_DEFAULT_HEADER@, filtered);
    let body = out.subrange(41, 41 + idat.len() as int);
    assert(body == idat);
    assert(idat.take(2) == ZLIB_DEFAULT_HEADER@);
    assert(idat[0] == idat.take(2)[0] && idat[1] == idat.take(2)[1]);
    assert(out[41] == body[0] && out[42] == body[1]);
}

/// The type has no alpha channel, and its pixels are not palette indices.
spec fn plain(ct: ColorType) -> bool {
    ct == ColorType::Greyscale || ct == ColorType::Rgb
}

proof fn lemma_plain_pixel(
    row: Seq<u8>,
    info: PngInfo,
    palette: Option<Seq<Seq<u8>>>,
    x: int,
)
    requires
        plain(info.color_type),
    ensures
        pixel(row, info, palette, x)[3] == 255,
{
}

proof fn lemma_opaque_rows(
    raw: Seq<u8>,
    info: PngInfo,
    palette: Option<Seq<Seq<u8>>>,
    px: Seq<u8>,
    x: int,
    y: int,
)
    requires
        palette_wf(palette),
        rgba_of(raw, info, palette) == Ok::<_, ConvertError>(px),
        0 <= x < info.width,
        0 <= y < info.height,
    ensures
        px.len() == 4 * (info.height * info.width),
        plain(info.color_type) ==> px[4 * (y * info.width + x) + 3] == 255,
{
    let w = info.width as int;
    let h = info.height as int;
    law_picture(raw, info, palette, px, x, y, 3);
    assert(h * (4 * w) == 4 * (h * w)) by (nonlinear_arith);
    if plain(info.color_type) {
        lemma_plain_pixel(buf_row(raw, info.row_bytes() as int, y), info, palette, x);
    }
}

proof fn lemma_opaque_pass(
    output: Seq<u8>,
    info: PngInfo,
    palette: Option<Seq<Seq<u8>>>,
    px: Seq<u8>,
    x: int,
    y: int,
)
    requires
        info.wf(),
        palette_wf(palette),
        deinterlace_of(output, info, palette) == Ok::<_, InterlaceError>(px),
        0 <= x < info.width,
        0 <= y < info.height,
    ensures
        px.len() == 4 * (info.height * info.width),
        plain(info.color_type) ==> px[4 * (y * info.width + x) + 3] == 255,
{
    let w = info.width as int;
    let h = info.height as int;
    let p = pass_of(x, y);
    assert(h * w * 4 == 4 * (h * w)) by (nonlinear_arith);
    law_deinterlaced_pixel(output, info, palette, px, x, y, 3);
    law_pass_places(x, y, w, h);
    lemma_sub_pixel(x, y, w, h);
    lemma_pass_geom(info, p);
    let g = pass_geom(info, p);
    let raw = pass_raw(output, info, p)->Ok_0;
    let part = pass_rgba(output, info, palette, p)->Ok_0;
    assert(!pass_empty(info, p));
    assert(g.color_type == info.color_type);
    lemma_opaque_rows(raw, g, palette, part, sub_x(x, y), sub_y(x, y));
}

/// A grey or colour image without an alpha channel comes out opaque, before a
/// transparent colour is keyed out.
proof fn lemma_opaque(
    output: Seq<u8>,
    info: PngInfo,
    palette: Option<Seq<Seq<u8>>>,
    px: Seq<u8>,
    x: int,
    y: int,
)
    requires
        info.wf(),
        palette_wf(palette),
        pixels_of(output, info, palette) == Ok::<_, PngError>(px),
        0 <= x < info.width,
        0 <= y < info.height,
    ensures
        px.len() == 4 * (info.height * info.width),
        plain(info.color_type) ==> px[4 * (y * info.width + x) + 3] == 255,
{
    if info.interlaced {
        lemma_opaque_pass(output, info, palette, px, x, y);
    } else {
        lemma_opaque_rows(unfilter_of(output, info)->Ok_0, info, palette, px, x, y);
    }
}

/// Which pixels of a decoded image are transparent: of a grey or colour image
/// without an alpha channel, exactly those of the colour that its tRNS chunk
/// names, and the rest is opaque. An image of another type has no such colour.
pub proof fn law_transparent_pixels(bytes: Seq<u8>, img: ImageView, x: int, y: int)
    requires
        decode_of(bytes) == Ok::<_, PngError>(img),
        0 <= x < img.info.width,
        0 <= y < img.info.height,
    ensures
        ({
            let key = trns_key_of(parse_chunks(bytes)->Ok_0.chunks, img.info.color_type);
            let p = 4 * (y * img.info.width + x);
            let plain = img.info.color_type == ColorType::Greyscale || img.info.color_type
                == ColorType::Rgb;
            &&& img.pixels.len() == 4 * (img.info.height * img.info.width)
            &&& 0 <= p && p + 4 <= img.pixels.len()
            &&& !plain ==> key is None
            &&& plain ==> img.pixels[p + 3] == (if key is Some && (
                img.pixels[p],
                img.pixels[p + 1],
                img.pixels[p + 2],
            ) == key->0.rgb8(img.info.bit_depth) {
                0u8
            } else {
                255u8
            })
        }),
{
    let prep = prepare_of(bytes)->Ok_0;
    let parts = split_zlib(prep.idat)->Ok_0;
    let output = inflate_spec(parts.deflate, Some(prep.cap))->Ok_0;
    let px = pixels_of(output, prep.info, prep.palette)->Ok_0;
    let w = img.info.width as int;
    let h = img.info.height as int;
    lemma_chunks_info(parse_chunks(bytes)->Ok_0.chunks);
    lemma_palette_wf(bytes);
    lemma_opaque(output, prep.info, prep.palette, px, x, y);
    lemma_row_inside(y, h, w);
    if let Some(key) = prep.trns_key {
        lemma_keyed(px, key.rgb8(prep.info.bit_depth), y * w + x);
        assert(img.pixels == keyed_out(px, key.rgb8(prep.info.bit_depth)));
    } else {
        assert(img.pixels == px);
    }
}

proof fn lemma_keyed(px: Seq<u8>, key: (u8, u8, u8), i: int)
    requires
        0 <= i,
        4 * i + 4 <= px.len(),
    ensures
        ({
            let out = keyed_out(px, key);
            let p = 4 * i;
            &&& out.len() == px.len()
            &&& out[p] == px[p] && out[p + 1] == px[p + 1] && out[p + 2] == px[p + 2]
            &&& out[p + 3] == (if (px[p], px[p + 1], px[p + 2]) == key {
                0u8
            } else {
                px[p + 3]
            })
        }),
{
    assert((4 * i) % 4 == 0 && (4 * i + 1) % 4 == 1 && (4 * i + 2) % 4 == 2 && (4 * i + 3) % 4
        == 3);
}

/// A file's palette has four bytes to a colour.
proof fn lemma_palette_wf(bytes: Seq<u8>)
    ensures
        prepare_of(bytes) matches Ok(prep) ==> palette_wf(prep.palette),
{
}

/// The transparent colour of an image: the tRNS chunk's first sample of a grey
/// one, its first three of a colour one, two bytes each with the high one first;
/// none where the chunk is missing or too short.
pub proof fn law_transparent_colour(chunks: Seq<ChunkView>, ct: ColorType)
    ensures
        ({
            let d = find_chunk(chunks, trns_tag(), 0);
            let key = trns_key_of(chunks, ct);
            &&& key is Some <==> d is Some && (ct == ColorType::Greyscale && d->0.data.len() >= 2
                || ct == ColorType::Rgb && d->0.data.len() >= 6)
            &&& key matches Some(TrnsKey::Grey(g)) ==> ct == ColorType::Greyscale && g
                == 256 * d->0.data[0] + d->0.data[1]
            &&& key matches Some(TrnsKey::Rgb(r, g, b)) ==> ct == ColorType::Rgb && r == 256
                * d->0.data[0] + d->0.data[1] && g == 256 * d->0.data[2] + d->0.data[3] && b
                == 256 * d->0.data[4] + d->0.data[5]
        }),
{
}

} // verus!
