//! What the colours of a picture are, sample by sample, and where an
//! interlaced picture keeps them.

use vstd::arithmetic::power2::{lemma2_to64, pow2};
use vstd::prelude::*;

use super::chunks::{color_of_byte, info_of, stride_of, ColorType, PngInfo};
use super::convert::{
    byte_sample, key_byte, keyed_out, lemma_layout, lemma_rgba_row_len, packable, packed_row,
    packed_sample, palette_of, palette_wf, pixel, rgba_of, rgba_row, rgba_rows, ConvertError,
};
use super::filter::{buf_row, lemma_row_inside, unfilter_of};
use crate::coords::lemma_bits_ok;
use super::interlace::{
    deinterlace_of, first_bad_pass, law_passes_partition, lemma_pass_geom, lemma_pass_len,
    lemma_rgba_rows_len, pass_empty, pass_geom, pass_height, pass_of, pass_owns, pass_rgba,
    pass_start, pass_width, steps_below, sub_x, sub_y, woven_image, InterlaceError, PASS_DX,
    PASS_DY, PASS_X0, PASS_Y0,
};

verus! {

// Geometry.

/// The number of samples in a pixel by the colour type's number: bit 1 says
/// colour, bit 2 alpha, and a palette index is one sample.
pub open spec fn samples(number: int) -> int {
    if number == 3 {
        1
    } else {
        (if number / 2 % 2 == 1 {
            3int
        } else {
            1
        }) + (if number / 4 % 2 == 1 {
            1int
        } else {
            0
        })
    }
}

/// Which numbers name a colour type, how many samples it has, and which depths
/// it allows: powers of two up to 16, less than eight only for a lone sample,
/// and at most eight for a palette index.
pub proof fn law_colour_types(b: u8, depth: u8)
    ensures
        color_of_byte(b) is Some <==> b == 0 || b == 2 || b == 3 || b == 4 || b == 6,
        color_of_byte(b) matches Some(ct) ==> {
            &&& ct.spec_to_byte() == b
            &&& ct.spec_channels() == samples(b as int)
            &&& ct.depth_allowed(depth) <==> {
                &&& depth == 1 || depth == 2 || depth == 4 || depth == 8 || depth == 16
                &&& depth < 8 ==> samples(b as int) == 1
                &&& depth == 16 ==> b != 3
            }
        },
{
}

/// A row holds its filter byte and just as many bytes as its samples fill; a
/// pixel counts as at least one byte.
pub proof fn law_row_layout(width: u32, height: u32, depth: u8, ct: ColorType)
    requires
        stride_of(width as nat, depth as nat, ct.spec_channels()) <= usize::MAX,
    ensures
        ({
            let info = info_of(width, height, depth, ct);
            let bits = depth * samples(ct.spec_to_byte() as int);
            &&& 8 * (info.row_stride - 1) - 8 < width * bits <= 8 * (info.row_stride - 1)
            &&& info.bits_per_pixel == bits
            &&& info.bpp >= 1
            &&& bits > 0 ==> 8 * info.bpp - 8 < bits <= 8 * info.bpp
        }),
{
    let n = ct.spec_channels() as int;
    let bits = depth * n;
    assert(0 <= bits <= 1020) by (nonlinear_arith)
        requires
            bits == depth * n,
            0 <= depth <= 255,
            0 <= n <= 4,
    ;
    assert(0 <= width * bits) by (nonlinear_arith)
        requires
            0 <= width,
            0 <= bits,
    ;
}

// Samples.

/// Sample `k` of a raw row: the row's bits are dealt out from the highest bit
/// of its first byte on, `depth` to a sample.
pub open spec fn raw_sample(row: Seq<u8>, depth: int, k: int) -> int {
    if depth == 16 {
        row[2 * k] * 256 + row[2 * k + 1]
    } else if depth == 8 {
        row[k] as int
    } else {
        let per = 8int / depth;
        row[k / per] as int / pow2((8 - depth * (k % per + 1)) as nat) as int % pow2(
            depth as nat,
        ) as int
    }
}

/// A sample as an eight-bit level: the full range goes to the full range, and
/// sixteen bits keep their high byte.
pub open spec fn level(v: int, depth: int) -> int {
    if depth == 16 {
        v / 256
    } else {
        v * 255 / (pow2(depth as nat) - 1)
    }
}

proof fn lemma_level(v: int, depth: int)
    ensures
        depth == 1 ==> level(v, depth) == v * 255,
        depth == 2 ==> level(v, depth) == v * 85,
        depth == 4 ==> level(v, depth) == v * 17,
        depth == 8 ==> level(v, depth) == v,
{
    lemma2_to64();
    let t = pow2(depth as nat) - 1;
    if depth == 1 {
        assert(v * 255 / t == v * 255) by (nonlinear_arith)
            requires
                t == 1,
        ;
    } else if depth == 2 {
        assert(v * 255 / t == v * 85) by (nonlinear_arith)
            requires
                t == 3,
        ;
    } else if depth == 4 {
        assert(v * 255 / t == v * 17) by (nonlinear_arith)
            requires
                t == 15,
        ;
    } else if depth == 8 {
        assert(v * 255 / t == v) by (nonlinear_arith)
            requires
                t == 255,
        ;
    }
}

proof fn lemma_byte_level(row: Seq<u8>, info: PngInfo, c: int, x: int)
    requires
        info.legal(),
        info.bit_depth >= 8,
        0 <= c < info.color_type.spec_channels(),
        0 <= x < info.width,
    ensures
        byte_sample(row, info, c, x) == level(
            raw_sample(
                row,
                info.bit_depth as int,
                x * samples(info.color_type.spec_to_byte() as int) + c,
            ),
            info.bit_depth as int,
        ),
{
    lemma2_to64();
    lemma_layout(info);
    let n = info.color_type.spec_channels() as int;
    let k = x * n + c;
    if info.bit_depth == 16 {
        assert(x * (n * 2) + c * 2 == 2 * k) by (nonlinear_arith)
            requires
                k == x * n + c,
        ;
        assert(info.bpp == n * 2);
        assert(byte_sample(row, info, c, x) == row[2 * k]);
    } else {
        assert(x * (n * 1) + c * 1 == k) by (nonlinear_arith)
            requires
                k == x * n + c,
        ;
        assert(info.bpp == n);
        assert(byte_sample(row, info, c, x) == row[k]);
        lemma_level(row[k] as int, 8);
    }
}

#[verifier::rlimit(40)]
proof fn lemma_packed_level(row: Seq<u8>, depth: u8, x: int)
    requires
        depth == 1 || depth == 2 || depth == 4,
        0 <= x,
    ensures
        packed_sample(row, depth, x) == raw_sample(row, depth as int, x),
        0 <= packed_sample(row, depth, x) < pow2(depth as nat),
{
    lemma2_to64();
    if depth == 1 {
        let b = row[x / 8];
        let s = (7 - x % 8) as u8;
        vstd::bits::lemma_u8_shr_is_div(b, s);
        let q = b >> s;
        assert(q & 1 == q % 2) by (bit_vector);
    } else if depth == 2 {
        let b = row[x / 4];
        let s = (6 - 2 * (x % 4)) as u8;
        vstd::bits::lemma_u8_shr_is_div(b, s);
        let q = b >> s;
        assert(q & 3 == q % 4) by (bit_vector);
        assert(8 - 2 * (x % 4 + 1) == s);
    } else {
        let b = row[x / 2];
        let s = (4 - 4 * (x % 2)) as u8;
        vstd::bits::lemma_u8_shr_is_div(b, s);
        let q = b >> s;
        assert(q & 15 == q % 16) by (bit_vector);
        assert(8 - 4 * (x % 2 + 1) == s);
    }
}

/// The colour of a pixel: red, green and blue from their samples or all three
/// from the grey one, or the palette's entry; alpha from its sample, or opaque.
#[verifier::rlimit(40)]
pub proof fn law_pixel_colour(
    row: Seq<u8>,
    info: PngInfo,
    palette: Option<Seq<Seq<u8>>>,
    x: int,
)
    requires
        info.legal(),
        0 <= x < info.width,
    ensures
        ({
            let d = info.bit_depth as int;
            let number = info.color_type.spec_to_byte() as int;
            let n = samples(number);
            let px = pixel(row, info, palette, x);
            let s = |c: int| level(raw_sample(row, d, x * n + c), d);
            &&& number == 0 ==> px.len() == 4 && px[0] == s(0) && px[1] == s(0) && px[2] == s(0)
                && px[3] == 255
            &&& number == 2 ==> px.len() == 4 && px[0] == s(0) && px[1] == s(1) && px[2] == s(2)
                && px[3] == 255
            &&& number == 4 ==> px.len() == 4 && px[0] == s(0) && px[1] == s(0) && px[2] == s(0)
                && px[3] == s(1)
            &&& number == 6 ==> px.len() == 4 && px[0] == s(0) && px[1] == s(1) && px[2] == s(2)
                && px[3] == s(3)
            &&& number == 3 && palette is Some ==> px == (if raw_sample(row, d, x)
                < palette->0.len() {
                palette->0[raw_sample(row, d, x)]
            } else {
                seq![0u8, 0, 0, 0]
            })
        }),
{
    lemma2_to64();
    let d = info.bit_depth as int;
    let ct = info.color_type;
    let n = samples(ct.spec_to_byte() as int);
    if d >= 8 {
        lemma_byte_level(row, info, 0, x);
        if ct.spec_channels() >= 2 {
            lemma_byte_level(row, info, 1, x);
        }
        if ct.spec_channels() >= 3 {
            lemma_byte_level(row, info, 2, x);
        }
        if ct.spec_channels() >= 4 {
            lemma_byte_level(row, info, 3, x);
        }
        if ct == ColorType::Indexed {
            assert(x * n + 0 == x) by (nonlinear_arith)
                requires
                    n == 1,
            ;
            lemma_level(raw_sample(row, d, x), d);
        }
    } else {
        lemma_packed_level(row, info.bit_depth, x);
        assert(x * n + 0 == x) by (nonlinear_arith)
            requires
                n == 1,
        ;
        lemma_level(raw_sample(row, d, x), d);
    }
}

proof fn lemma_row_pixel(
    row: Seq<u8>,
    info: PngInfo,
    palette: Option<Seq<Seq<u8>>>,
    n: int,
    x: int,
    c: int,
)
    requires
        palette_wf(palette),
        0 <= x < n,
        0 <= c < 4,
    ensures
        rgba_row(row, info, palette, n)[4 * x + c] == pixel(row, info, palette, x)[c],
    decreases n,
{
    lemma_rgba_row_len(row, info, palette, n - 1);
    if x < n - 1 {
        lemma_row_pixel(row, info, palette, n - 1, x, c);
    }
}

proof fn lemma_rows_pixel(
    raw: Seq<u8>,
    info: PngInfo,
    palette: Option<Seq<Seq<u8>>>,
    n: int,
    x: int,
    y: int,
    c: int,
)
    requires
        palette_wf(palette),
        0 <= x < info.width,
        0 <= y < n,
        0 <= c < 4,
    ensures
        rgba_rows(raw, info, palette, n)[4 * (y * info.width + x) + c] == pixel(
            buf_row(raw, info.row_bytes() as int, y),
            info,
            palette,
            x,
        )[c],
    decreases n,
{
    let w = info.width as int;
    lemma_rgba_rows_len(raw, info, palette, n - 1);
    let row = buf_row(raw, info.row_bytes() as int, n - 1);
    lemma_rgba_row_len(row, info, palette, w);
    assert((n - 1) * (4 * w) == 4 * ((n - 1) * w)) by (nonlinear_arith);
    if y < n - 1 {
        lemma_row_inside(y, n - 1, w);
        lemma_rows_pixel(raw, info, palette, n - 1, x, y, c);
    } else {
        lemma_row_pixel(row, info, palette, w, x, c);
    }
}

/// The converted picture holds four bytes for every pixel, row by row from the
/// top, each row from the left.
pub proof fn law_picture(
    raw: Seq<u8>,
    info: PngInfo,
    palette: Option<Seq<Seq<u8>>>,
    out: Seq<u8>,
    x: int,
    y: int,
    c: int,
)
    requires
        palette_wf(palette),
        rgba_of(raw, info, palette) == Ok::<_, ConvertError>(out),
        0 <= x < info.width,
        0 <= y < info.height,
        0 <= c < 4,
    ensures
        out.len() == info.height * (4 * info.width),
        out[4 * (y * info.width + x) + c] == pixel(
            buf_row(raw, info.row_bytes() as int, y),
            info,
            palette,
            x,
        )[c],
{
    lemma_rgba_rows_len(raw, info, palette, info.height as int);
    lemma_rows_pixel(raw, info, palette, info.height as int, x, y, c);
}

/// The palette has one colour for every three bytes of PLTE, red first, and
/// tRNS gives alphas to the first of them.
pub proof fn law_palette(plte: Seq<u8>, trns: Option<Seq<u8>>, i: int)
    requires
        0 <= i,
        3 * i + 3 <= plte.len(),
    ensures
        3 * palette_of(plte, trns).len() <= plte.len() < 3 * palette_of(plte, trns).len() + 3,
        palette_of(plte, trns)[i].len() == 4,
        palette_of(plte, trns)[i].take(3) == plte.subrange(3 * i, 3 * i + 3),
        palette_of(plte, trns)[i][3] == (if trns is Some && i < trns->0.len() {
            trns->0[i]
        } else {
            255
        }),
{
    assert(palette_of(plte, trns)[i].take(3) =~= plte.subrange(3 * i, 3 * i + 3));
}

/// A transparent colour makes exactly the pixels of that colour transparent,
/// and changes nothing else. The key goes through the same levels as the
/// samples do.
#[verifier::rlimit(40)]
pub proof fn law_colour_key(rgba: Seq<u8>, key: (u8, u8, u8), i: int, s: u16, depth: u8)
    requires
        0 <= i,
        4 * i + 4 <= rgba.len(),
        depth == 1 || depth == 2 || depth == 4 || depth == 8 || depth == 16,
        s < pow2(depth as nat),
    ensures
        ({
            let out = keyed_out(rgba, key);
            &&& out.len() == rgba.len()
            &&& out.subrange(4 * i, 4 * i + 3) == rgba.subrange(4 * i, 4 * i + 3)
            &&& out[4 * i + 3] == (if rgba.subrange(4 * i, 4 * i + 3) == seq![
                key.0,
                key.1,
                key.2,
            ] {
                0
            } else {
                rgba[4 * i + 3]
            })
        }),
        key_byte(s, depth) == level(s as int, depth as int),
{
    lemma2_to64();
    let out = keyed_out(rgba, key);
    let here = rgba.subrange(4 * i, 4 * i + 3);
    assert((4 * i) % 4 == 0 && (4 * i + 1) % 4 == 1 && (4 * i + 2) % 4 == 2 && (4 * i + 3) % 4
        == 3);
    assert(out.subrange(4 * i, 4 * i + 3) =~= here);
    assert(here[0] == rgba[4 * i] && here[1] == rgba[4 * i + 1] && here[2] == rgba[4 * i + 2]);
    if rgba[4 * i] == key.0 && rgba[4 * i + 1] == key.1 && rgba[4 * i + 2] == key.2 {
        assert(here =~= seq![key.0, key.1, key.2]);
    }
    lemma_level(s as int, depth as int);
    let v = s as int;
    if depth == 1 {
        assert(v == 0 || v == 1);
    } else if depth == 2 {
        assert((v * 85) % 256 == v * 85);
    } else if depth == 4 {
        assert((v * 17) % 256 == v * 17);
    }
}

// Adam7.

/// How far apart the pixels of the first `p + 1` passes lie in a row.
pub open spec fn grid_x(p: int) -> int {
    if p < 1 {
        8
    } else if p < 3 {
        4
    } else if p < 5 {
        2
    } else {
        1
    }
}

/// And in a column.
pub open spec fn grid_y(p: int) -> int {
    if p < 2 {
        8
    } else if p < 4 {
        4
    } else if p < 6 {
        2
    } else {
        1
    }
}

/// After each pass the pixels known so far form a grid that starts in the upper
/// left corner, twice as fine as before in one direction.
#[verifier::rlimit(40)]
pub proof fn law_pass_grids(x: int, y: int, p: int)
    requires
        0 <= x,
        0 <= y,
        0 <= p < 7,
    ensures
        0 <= pass_of(x, y) < 7,
        pass_of(x, y) <= p <==> x % grid_x(p) == 0 && y % grid_y(p) == 0,
{
    if p == 0 {
        assert(x % 8 == 0 && y % 8 == 0 <==> pass_of(x, y) <= 0);
    } else if p == 1 {
        assert(x % 4 == 0 && y % 8 == 0 <==> pass_of(x, y) <= 1);
    } else if p == 2 {
        assert(x % 4 == 0 && y % 4 == 0 <==> pass_of(x, y) <= 2);
    } else if p == 3 {
        assert(x % 2 == 0 && y % 4 == 0 <==> pass_of(x, y) <= 3);
    } else if p == 4 {
        assert(x % 2 == 0 && y % 2 == 0 <==> pass_of(x, y) <= 4);
    } else if p == 5 {
        assert(y % 2 == 0 <==> pass_of(x, y) <= 5);
    }
}

/// How many pixels of row `y` left of column `x` belong to pass `p`.
pub open spec fn count_left(x: int, y: int, p: int) -> int
    decreases x,
{
    if x <= 0 {
        0
    } else {
        count_left(x - 1, y, p) + (if pass_of(x - 1, y) == p {
            1int
        } else {
            0
        })
    }
}

/// How many pixels of column `x` above row `y` belong to pass `p`.
pub open spec fn count_above(x: int, y: int, p: int) -> int
    decreases y,
{
    if y <= 0 {
        0
    } else {
        count_above(x, y - 1, p) + (if pass_of(x, y - 1) == p {
            1int
        } else {
            0
        })
    }
}

#[verifier::rlimit(40)]
proof fn lemma_steps(n: int, start: int, step: int)
    requires
        0 <= n,
        0 <= start,
        step == 1 || step == 2 || step == 4 || step == 8,
    ensures
        steps_below(n + 1, start, step) == steps_below(n, start, step) + (if n >= start && (n
            - start) % step == 0 {
            1int
        } else {
            0
        }),
{
    if step == 1 {
    } else if step == 2 {
    } else if step == 4 {
    } else {
    }
}

proof fn lemma_pass_steps(p: int)
    requires
        0 <= p < 7,
    ensures
        PASS_DX@[p] == 1 || PASS_DX@[p] == 2 || PASS_DX@[p] == 4 || PASS_DX@[p] == 8,
        PASS_DY@[p] == 1 || PASS_DY@[p] == 2 || PASS_DY@[p] == 4 || PASS_DY@[p] == 8,
{
}

proof fn lemma_count_left(x: int, y: int, p: int, at: int)
    requires
        0 <= x,
        0 <= y,
        0 <= at,
        0 <= p < 7,
        pass_of(at, y) == p,
    ensures
        count_left(x, y, p) == steps_below(x, PASS_X0@[p] as int, PASS_DX@[p] as int),
    decreases x,
{
    lemma_pass_steps(p);
    law_passes_partition(at, y);
    if x > 0 {
        lemma_count_left(x - 1, y, p, at);
        lemma_steps(x - 1, PASS_X0@[p] as int, PASS_DX@[p] as int);
        law_passes_partition(x - 1, y);
        assert(pass_of(x - 1, y) == p <==> pass_owns(p, x - 1, y));
    }
}

proof fn lemma_count_above(x: int, y: int, p: int, at: int)
    requires
        0 <= x,
        0 <= y,
        0 <= at,
        0 <= p < 7,
        pass_of(x, at) == p,
    ensures
        count_above(x, y, p) == steps_below(y, PASS_Y0@[p] as int, PASS_DY@[p] as int),
    decreases y,
{
    lemma_pass_steps(p);
    law_passes_partition(x, at);
    if y > 0 {
        lemma_count_above(x, y - 1, p, at);
        lemma_steps(y - 1, PASS_Y0@[p] as int, PASS_DY@[p] as int);
        law_passes_partition(x, y - 1);
        assert(pass_of(x, y - 1) == p <==> pass_owns(p, x, y - 1));
    }
}

#[verifier::rlimit(40)]
proof fn lemma_aligned(n: int, start: int, step: int)
    requires
        n >= start >= 0,
        step == 1 || step == 2 || step == 4 || step == 8,
        (n - start) % step == 0,
    ensures
        steps_below(n, start, step) == (n - start) / step,
{
    if step == 1 {
    } else if step == 2 {
    } else if step == 4 {
    } else {
    }
}

/// Within its pass a pixel stands in the column that says how many of the
/// pass's pixels are left of it, and the row that says how many are above it;
/// and the pass is as wide and as high as it has such pixels in all.
#[verifier::rlimit(40)]
pub proof fn law_pass_places(x: int, y: int, w: int, h: int)
    requires
        0 <= x < w,
        0 <= y < h,
    ensures
        ({
            let p = pass_of(x, y);
            &&& sub_x(x, y) == count_left(x, y, p)
            &&& sub_y(x, y) == count_above(x, y, p)
            &&& pass_width(w, p) == count_left(w, y, p)
            &&& pass_height(h, p) == count_above(x, h, p)
        }),
{
    let p = pass_of(x, y);
    law_passes_partition(x, y);
    lemma_pass_steps(p);
    lemma_count_left(x, y, p, x);
    lemma_count_left(w, y, p, x);
    lemma_count_above(x, y, p, y);
    lemma_count_above(x, h, p, y);
    lemma_aligned(x, PASS_X0@[p] as int, PASS_DX@[p] as int);
    lemma_aligned(y, PASS_Y0@[p] as int, PASS_DY@[p] as int);
}

proof fn lemma_no_bad_pass(
    output: Seq<u8>,
    info: PngInfo,
    palette: Option<Seq<Seq<u8>>>,
    q: int,
    p: int,
)
    requires
        first_bad_pass(output, info, palette, q) is None,
        0 <= q <= p < 7,
    ensures
        pass_rgba(output, info, palette, p) is Ok,
    decreases p - q,
{
    if q < p {
        lemma_no_bad_pass(output, info, palette, q + 1, p);
    }
}

/// An interlaced picture takes each pixel from its pass, from the place that
/// the pixel has there.
#[verifier::rlimit(40)]
pub proof fn law_deinterlaced_pixel(
    output: Seq<u8>,
    info: PngInfo,
    palette: Option<Seq<Seq<u8>>>,
    out: Seq<u8>,
    x: int,
    y: int,
    c: int,
)
    requires
        info.wf(),
        deinterlace_of(output, info, palette) == Ok::<_, InterlaceError>(out),
        0 <= x < info.width,
        0 <= y < info.height,
        0 <= c < 4,
    ensures
        ({
            let p = pass_of(x, y);
            let w = count_left(info.width as int, y, p);
            &&& out.len() == info.height * info.width * 4
            &&& pass_rgba(output, info, palette, p) matches Ok(px) && out[4 * (y * info.width + x)
                + c] == px[4 * (count_above(x, y, p) * w + count_left(x, y, p)) + c]
        }),
{
    let w = info.width as int;
    let h = info.height as int;
    let p = pass_of(x, y);
    law_passes_partition(x, y);
    law_pass_places(x, y, w, h);
    lemma_no_bad_pass(output, info, palette, 0, p);
    lemma_row_inside(y, h, w);
    let i = 4 * (y * w + x) + c;
    assert(h * w * 4 == 4 * (h * w)) by (nonlinear_arith);
    assert(i / 4 == y * w + x && i % 4 == c);
    vstd::arithmetic::div_mod::lemma_fundamental_div_mod_converse(y * w + x, w, y, x);
    assert(out[i] == woven_image(output, info, palette)[i]);
}

/// Where the samples of a packed row come from: grey takes red's place, alpha is
/// the fourth channel, and a sixteen-bit sample is the level spread over both
/// bytes.
#[verifier::rlimit(40)]
pub proof fn law_packed_samples(px: Seq<u8>, info: PngInfo, x: int, c: int)
    requires
        info.legal(),
        packable(info),
        0 <= x < info.width,
        0 <= c < samples(info.color_type.spec_to_byte() as int),
    ensures
        ({
            let number = info.color_type.spec_to_byte() as int;
            let n = samples(number);
            let from = px[4 * x + (if number == 0 {
                0
            } else if number == 4 && c == 1 {
                3
            } else {
                c
            })] as int;
            raw_sample(packed_row(px, info), info.bit_depth as int, x * n + c) == (
            if info.bit_depth == 16 {
                257 * from
            } else {
                from
            })
        }),
{
    lemma_layout(info);
    let n = info.color_type.spec_channels() as int;
    let bpp = info.bpp as int;
    let k = x * n + c;
    lemma_row_inside(x, info.width as int, bpp);
    let row = packed_row(px, info);
    if info.bit_depth == 16 {
        assert(2 * k == x * bpp + 2 * c) by (nonlinear_arith)
            requires
                k == x * n + c,
                bpp == n * 2,
        ;
        vstd::arithmetic::div_mod::lemma_fundamental_div_mod_converse(2 * k, bpp, x, 2 * c);
        vstd::arithmetic::div_mod::lemma_fundamental_div_mod_converse(
            2 * k + 1,
            bpp,
            x,
            2 * c + 1,
        );
        assert((2 * c) / 2 == c && (2 * c + 1) / 2 == c);
    } else {
        assert(k == x * bpp + c) by (nonlinear_arith)
            requires
                k == x * n + c,
                bpp == n * 1,
        ;
        vstd::arithmetic::div_mod::lemma_fundamental_div_mod_converse(k, bpp, x, c);
        assert(c / 1 == c);
    }
}

/// Where a pass stands in the output, and what it is: behind all passes before
/// it, as many rows as it has, each a filter byte and its pixels; and its pixels
/// are those of the image that these bytes are.
#[verifier::rlimit(40)]
pub proof fn law_pass_layout(
    output: Seq<u8>,
    info: PngInfo,
    palette: Option<Seq<Seq<u8>>>,
    p: int,
    px: Seq<u8>,
)
    requires
        info.legal(),
        0 <= p < 7,
        pass_rgba(output, info, palette, p) == Ok::<_, InterlaceError>(px),
    ensures
        ({
            let w = pass_width(info.width as int, p);
            let h = pass_height(info.height as int, p);
            let stride = 1 + (w * info.bits_per_pixel + 7) / 8;
            let n = if w == 0 || h == 0 {
                0
            } else {
                h * stride
            };
            let from = pass_start(info, p);
            &&& pass_start(info, 0) == 0
            &&& pass_start(info, p + 1) == from + n
            &&& w == 0 || h == 0 ==> px.len() == 0
            &&& w > 0 && h > 0 ==> {
                let part = info_of(w as u32, h as u32, info.bit_depth, info.color_type);
                &&& from + n <= output.len()
                &&& unfilter_of(output.subrange(from, from + n), part) matches Ok(raw) && rgba_of(
                    raw,
                    part,
                    palette,
                ) == Ok::<_, ConvertError>(px)
            }
        }),
{
    lemma_pass_geom(info, p);
    lemma_pass_len(info, p);
    let g = pass_geom(info, p);
    if !pass_empty(info, p) {
        lemma_bits_ok(g);
    }
    let w = pass_width(info.width as int, p);
    let h = pass_height(info.height as int, p);
    lemma_pass_positive(info.width as int, p);
    lemma_pass_positive_rows(info.height as int, p);
}

proof fn lemma_pass_positive(n: int, p: int)
    requires
        0 <= p < 7,
    ensures
        pass_width(n, p) >= 0,
{
    lemma_pass_steps(p);
    let a = n - PASS_X0@[p] + PASS_DX@[p] - 1;
    let d = PASS_DX@[p] as int;
    if n > PASS_X0@[p] {
        vstd::arithmetic::div_mod::lemma_div_pos_is_pos(a, d);
    }
}

proof fn lemma_pass_positive_rows(n: int, p: int)
    requires
        0 <= p < 7,
    ensures
        pass_height(n, p) >= 0,
{
    lemma_pass_steps(p);
    let a = n - PASS_Y0@[p] + PASS_DY@[p] - 1;
    let d = PASS_DY@[p] as int;
    if n > PASS_Y0@[p] {
        vstd::arithmetic::div_mod::lemma_div_pos_is_pos(a, d);
    }
}

} // verus!
