//! Which files decode: every well-formed one; and that the editor loads the
//! same picture.

use vstd::prelude::*;

use super::decode::{decode_of, pixels_of};
use super::prep::{indexed_palette, palette_chunks, trns_key_of};
use crate::deflate::error::DecodeError;
use crate::deflate::inflate_spec::{decode_spec, inflate_spec};
use crate::editor::load::{load_cap, load_of, rendered, warning_texts};
use crate::png::checksum_law::four_bytes;
use crate::png::chunks::{
    be_number, chunks_info, color_of_byte, file_bytes, idat_bytes, ihdr_info, law_chunks_round_trip,
    lemma_chunks_info, lengths_fit, parse_chunks, stride_of, ChunkView, ColorType, PngInfo,
};
use crate::png::convert::{lemma_layout, pixel, rgba_of, rgba_row, rgba_rows};
use crate::png::filter::{buf_row, lemma_unfilter_raw, unfilter_of};
use crate::png::filter_law::{law_unfilters, row_readable};
use crate::png::interlace::{
    first_bad_pass, lemma_pass_geom, lemma_pass_len, lemma_pass_start, pass_empty, pass_geom,
    pass_len, pass_of, pass_raw, pass_rgba, pass_start, pass_stream, woven, woven_image,
};
use crate::png::zlib::{header_ok, law_zlib_round_trip, split_zlib, zlib_stream};
use crate::raster::raster_len;

verus! {

/// Which IHDR contents are taken, and what they say: width and height first,
/// neither of them zero; then the depth and the number of a colour type that
/// allows it; two zeros; and zero or one for interlacing.
pub proof fn law_header(d: Seq<u8>)
    ensures
        ihdr_info(d) is Some <==> d.len() >= 13 && four_bytes(d, 0) > 0 && four_bytes(d, 4) > 0 && (
        color_of_byte(d[9]) matches Some(ct) && ct.depth_allowed(d[8]) && stride_of(
            four_bytes(d, 0) as nat,
            d[8] as nat,
            ct.spec_channels(),
        ) <= usize::MAX) && d[10] == 0 && d[11] == 0 && (d[12] == 0 || d[12] == 1),
        ihdr_info(d) matches Some(info) ==> {
            &&& info.width == four_bytes(d, 0)
            &&& info.height == four_bytes(d, 4)
            &&& info.bit_depth == d[8]
            &&& info.color_type.spec_to_byte() == d[9]
            &&& info.interlaced <==> d[12] == 1
            &&& info.legal()
        },
{
    if d.len() >= 13 {
        assert(four_bytes(d, 0) == be_number(d, 0));
        assert(four_bytes(d, 4) == be_number(d, 4));
    }
}

/// Every row of the output can be unfiltered: of the image, or of each of its
/// passes where it is interlaced.
pub open spec fn rows_readable(out: Seq<u8>, info: PngInfo) -> bool {
    if info.interlaced {
        forall|p: int, y: int|
            0 <= p < 7 && !pass_empty(info, p) && 0 <= y < pass_geom(info, p).height
                ==> #[trigger] row_readable(
                out.subrange(pass_start(info, p), pass_start(info, p) + pass_len(info, p)),
                pass_geom(info, p).row_stride as int,
                y,
            )
    } else {
        forall|y: int|
            0 <= y < info.height ==> #[trigger] row_readable(out, info.row_stride as int, y)
    }
}

proof fn lemma_small(info: PngInfo, part: PngInfo)
    requires
        part.width <= info.width,
        part.height <= info.height,
        info.width * info.height * 4 <= u32::MAX,
    ensures
        part.width * part.height * 4 <= u32::MAX,
{
    let (a, b, c, d) = (
        part.width as int,
        part.height as int,
        info.width as int,
        info.height as int,
    );
    assert(a * b * 4 <= c * d * 4) by (nonlinear_arith)
        requires
            0 <= a <= c,
            0 <= b <= d,
    ;
}

/// Rows that fit one by one fit the codec in all.
proof fn lemma_raw_small(info: PngInfo)
    requires
        info.wf(),
        info.height * info.row_stride <= u32::MAX,
    ensures
        0 <= info.height * info.row_bytes() <= u32::MAX,
{
    let h = info.height as int;
    let s = info.row_stride as int;
    assert(0 <= h * (s - 1) <= h * s) by (nonlinear_arith)
        requires
            0 <= h,
            1 <= s,
    ;
}

proof fn lemma_rows_convert(
    out: Seq<u8>,
    info: PngInfo,
    palette: Option<Seq<Seq<u8>>>,
)
    requires
        info.legal(),
        info.color_type == ColorType::Indexed ==> palette is Some,
        info.width * info.height * 4 <= u32::MAX,
        info.height * info.row_stride <= u32::MAX,
        forall|y: int|
            0 <= y < info.height ==> #[trigger] row_readable(out, info.row_stride as int, y),
    ensures
        unfilter_of(out, info) matches Ok(raw) && rgba_of(raw, info, palette) is Ok,
{
    lemma_raw_small(info);
    law_unfilters(out, info);
    lemma_unfilter_raw(out, info);
}

proof fn lemma_passes_convert(
    out: Seq<u8>,
    info: PngInfo,
    palette: Option<Seq<Seq<u8>>>,
    p: int,
)
    requires
        info.legal(),
        info.interlaced,
        info.color_type == ColorType::Indexed ==> palette is Some,
        info.width * info.height * 4 <= u32::MAX,
        pass_start(info, 7) <= u32::MAX,
        out.len() == pass_start(info, 7),
        rows_readable(out, info),
        0 <= p <= 7,
    ensures
        first_bad_pass(out, info, palette, p) is None,
    decreases 7 - p,
{
    if p < 7 {
        lemma_passes_convert(out, info, palette, p + 1);
        if !pass_empty(info, p) {
            let g = pass_geom(info, p);
            let part = out.subrange(pass_start(info, p), pass_start(info, p) + pass_len(info, p));
            lemma_pass_geom(info, p);
            lemma_pass_len(info, p);
            lemma_pass_start(info, 0, p);
            lemma_pass_start(info, p + 1, 7);
            lemma_small(info, g);
            assert forall|y: int| 0 <= y < g.height implies #[trigger] row_readable(
                part,
                g.row_stride as int,
                y,
            ) by {}
            lemma_rows_convert(part, g, palette);
            assert(pass_stream(out, info, p) == Some(part));
        }
    }
}

/// Every well-formed file decodes, to the image that its header describes and
/// without a warning: chunks with a legal header, image data that unwraps and
/// inflates to just the bytes that the header calls for, rows whose filters are
/// known, and a palette where there must be one.
pub proof fn law_well_formed_decodes(
    chunks: Seq<ChunkView>,
    info: PngInfo,
    deflate: Seq<u8>,
    header: Seq<u8>,
    out: Seq<u8>,
)
    requires
        lengths_fit(chunks),
        chunks_info(chunks) == Some(info),
        info.color_type == ColorType::Indexed ==> palette_chunks(chunks) is Some,
        info.width * info.height * 4 <= u32::MAX,
        raster_len(info) <= u32::MAX,
        idat_bytes(chunks) == zlib_stream(deflate, header, out),
        header_ok(header),
        256 * header[0] + header[1] == 31 * ((256 * header[0] + header[1]) / 31),
        inflate_spec(deflate, Some(raster_len(info) as usize)) == Ok::<_, DecodeError>(out),
        out.len() == raster_len(info),
        rows_readable(out, info),
    ensures
        decode_of(file_bytes(chunks)) matches Ok(img) && img.info == info && img.warnings.len()
            == 0,
{
    law_chunks_round_trip(chunks);
    lemma_chunks_info(chunks);
    law_zlib_round_trip(deflate, header, out);
    let palette = indexed_palette(chunks, info.color_type);
    if info.interlaced {
        lemma_passes_convert(out, info, palette, 0);
    } else {
        lemma_rows_convert(out, info, palette);
    }
    assert(pixels_of(out, info, palette) is Ok);
}

// The editor's picture.

proof fn lemma_row_any_palette(
    row: Seq<u8>,
    info: PngInfo,
    a: Option<Seq<Seq<u8>>>,
    b: Option<Seq<Seq<u8>>>,
    n: int,
)
    requires
        info.color_type != ColorType::Indexed,
    ensures
        rgba_row(row, info, a, n) == rgba_row(row, info, b, n),
    decreases n,
{
    if n > 0 {
        lemma_row_any_palette(row, info, a, b, n - 1);
        assert(pixel(row, info, a, n - 1) =~= pixel(row, info, b, n - 1));
    }
}

proof fn lemma_rows_any_palette(
    raw: Seq<u8>,
    info: PngInfo,
    a: Option<Seq<Seq<u8>>>,
    b: Option<Seq<Seq<u8>>>,
    n: int,
)
    requires
        info.color_type != ColorType::Indexed,
    ensures
        rgba_rows(raw, info, a, n) == rgba_rows(raw, info, b, n),
    decreases n,
{
    if n > 0 {
        lemma_rows_any_palette(raw, info, a, b, n - 1);
        lemma_row_any_palette(
            buf_row(raw, info.row_bytes() as int, n - 1),
            info,
            a,
            b,
            info.width as int,
        );
    }
}

proof fn lemma_pass_any_palette(
    out: Seq<u8>,
    info: PngInfo,
    a: Option<Seq<Seq<u8>>>,
    b: Option<Seq<Seq<u8>>>,
    p: int,
)
    requires
        info.color_type != ColorType::Indexed,
    ensures
        pass_rgba(out, info, a, p) == pass_rgba(out, info, b, p),
{
    if !pass_empty(info, p) {
        if let Ok(raw) = pass_raw(out, info, p) {
            let g = pass_geom(info, p);
            lemma_rows_any_palette(raw, g, a, b, g.height as int);
        }
    }
}

proof fn lemma_bad_any_palette(
    out: Seq<u8>,
    info: PngInfo,
    a: Option<Seq<Seq<u8>>>,
    b: Option<Seq<Seq<u8>>>,
    p: int,
)
    requires
        info.color_type != ColorType::Indexed,
    ensures
        first_bad_pass(out, info, a, p) == first_bad_pass(out, info, b, p),
    decreases 7 - p,
{
    if p < 7 {
        lemma_pass_any_palette(out, info, a, b, p);
        lemma_bad_any_palette(out, info, a, b, p + 1);
    }
}

/// The palette matters to indexed images alone.
proof fn lemma_any_palette(
    out: Seq<u8>,
    info: PngInfo,
    a: Option<Seq<Seq<u8>>>,
    b: Option<Seq<Seq<u8>>>,
)
    requires
        info.color_type != ColorType::Indexed,
    ensures
        pixels_of(out, info, a) == pixels_of(out, info, b),
{
    if info.interlaced {
        lemma_bad_any_palette(out, info, a, b, 0);
        assert(woven_image(out, info, a) =~= woven_image(out, info, b)) by {
            assert forall|x: int, y: int, c: int| #[trigger]
                woven(out, info, a, x, y, c) == woven(out, info, b, x, y, c) by {
                lemma_pass_any_palette(out, info, a, b, pass_of(x, y));
            }
        }
    } else {
        if let Ok(raw) = unfilter_of(out, info) {
            lemma_rows_any_palette(raw, info, a, b, info.height as int);
        }
    }
}

/// What the editor loads of a file is what decoding gives: the same image, the
/// same warnings, and the same pixels before a transparent colour is keyed out.
/// (Below eight bits per pixel the editor lets the stream inflate further.)
pub proof fn law_editor_loads_the_picture(bytes: Seq<u8>)
    requires
        load_of(bytes) is Ok,
        decode_of(bytes) is Ok,
        load_of(bytes)->Ok_0.info.bit_depth >= 8 || load_of(bytes)->Ok_0.info.interlaced,
    ensures
        ({
            let v = load_of(bytes)->Ok_0;
            let img = decode_of(bytes)->Ok_0;
            &&& v.info == img.info
            &&& v.warnings == warning_texts(img.warnings)
            &&& trns_key_of(parse_chunks(bytes)->Ok_0.chunks, img.info.color_type) is None
                ==> v.rgba == img.pixels
            &&& img.info.color_type == ColorType::Indexed ==> v.palette == img.palette
        }),
{
    let parsed = parse_chunks(bytes)->Ok_0;
    let chunks = parsed.chunks;
    let info = chunks_info(chunks)->0;
    lemma_chunks_info(chunks);
    lemma_layout(info);
    let w = info.width as int;
    let bpp = info.bpp as int;
    assert(load_cap(info) == raster_len(info));
    let parts = split_zlib(idat_bytes(chunks))->Ok_0;
    let stream = decode_spec(parts.deflate, Some(load_cap(info) as usize))->Ok_0;
    let out = stream.progress.out;
    let whole = palette_chunks(chunks);
    let own = indexed_palette(chunks, info.color_type);
    if info.color_type != ColorType::Indexed {
        lemma_any_palette(out, info, whole, own);
    }
    let px = pixels_of(out, info, own)->Ok_0;
    assert(rendered(out, info, whole) matches Some((raw, shown)) && shown == px);
}

} // verus!
