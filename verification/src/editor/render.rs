//! Row-scoped re-render after an edit.

use vstd::prelude::*;
use vstd::string::StringExecFns;

use crate::api::decode::palette_slice;
use crate::api::image::owned_palette_view;
use crate::png::chunks::PngInfo;
use crate::png::convert::{
    convert_error, lemma_rgba_row_len, palette_wf, rgba_of, rgba_row, rgba_rows, row_slot,
    to_rgba8_rows_into, with_rgba_rows, PaletteEntry,
};
use crate::png::filter::{
    among, buf_row, is_raw_of, law_rebuild_completes, lemma_rebuild_lists, lemma_rebuilt_buf,
    lemma_row_inside, lemma_with_row, rebuild_from, rebuilt_buf, row_ok, stream_row,
    unfilter_rows_into,
};
use crate::png::interlace::{deinterlace_of, deinterlace_to_rgba8, lemma_rgba_rows_len};

verus! {

/// What the editor shows: the raw rows are those of the output, and the RGBA
/// pixels those of the raw rows. An interlaced image is shown straight from its
/// output.
pub open spec fn shown(
    info: PngInfo,
    palette: Option<Seq<Seq<u8>>>,
    output: Seq<u8>,
    unfiltered: Seq<u8>,
    rgba: Seq<u8>,
) -> bool {
    if info.interlaced {
        deinterlace_of(output, info, palette) == Ok::<_, crate::png::interlace::InterlaceError>(
            rgba,
        )
    } else {
        &&& is_raw_of(output, info, unfiltered)
        &&& rgba_of(unfiltered, info, palette) == Ok::<_, crate::png::convert::ConvertError>(rgba)
    }
}

/// The two buffers have the sizes of the image, and its colours can be
/// converted.
pub open spec fn buffers_fit(
    info: PngInfo,
    palette: Option<Seq<Seq<u8>>>,
    unfiltered: nat,
    rgba: nat,
) -> bool {
    !info.interlaced ==> {
        &&& unfiltered == info.height * info.row_bytes()
        &&& rgba == info.height * (4 * info.width)
        &&& convert_error(info, palette) is None || info.height == 0
    }
}

/// What is shown has the sizes of the image.
pub proof fn lemma_shown_fits(
    info: PngInfo,
    palette: Option<Vec<PaletteEntry>>,
    output: Seq<u8>,
    unfiltered: Seq<u8>,
    rgba: Seq<u8>,
)
    requires
        shown(info, owned_palette_view(palette), output, unfiltered, rgba),
    ensures
        buffers_fit(info, owned_palette_view(palette), unfiltered.len(), rgba.len()),
{
    if !info.interlaced {
        lemma_palette_wf(palette);
        lemma_rgba_rows_len(
            unfiltered,
            info,
            owned_palette_view(palette),
            info.height as int,
        );
    }
}

/// Row `y` of two streams is the same, as far as they go.
pub open spec fn same_row(a: Seq<u8>, b: Seq<u8>, stride: int, y: int) -> bool {
    forall|p: int|
        y * stride <= p < y * stride + stride && p < a.len() ==> #[trigger] a[p] == b[p]
}

/// What is shown rests on the rows of the output alone.
pub proof fn lemma_shown_same_rows(
    info: PngInfo,
    palette: Option<Seq<Seq<u8>>>,
    a: Seq<u8>,
    b: Seq<u8>,
    unfiltered: Seq<u8>,
    rgba: Seq<u8>,
)
    requires
        !info.interlaced,
        info.row_stride >= 1,
        a.len() == b.len(),
        shown(info, palette, a, unfiltered, rgba),
        forall|y: int|
            0 <= y < info.height ==> #[trigger] same_row(a, b, info.row_stride as int, y),
    ensures
        shown(info, palette, b, unfiltered, rgba),
{
    let stride = info.row_stride as int;
    let h = info.height as int;
    assert forall|y: int| 0 <= y < h implies #[trigger] row_ok(
        b,
        stride,
        info.bpp as int,
        unfiltered,
        y,
    ) by {
        assert(row_ok(a, stride, info.bpp as int, unfiltered, y));
        assert(same_row(a, b, stride, y));
        lemma_row_inside(y, h, stride);
        assert(a[y * stride] == b[y * stride]);
        assert(stream_row(b, stride, y) =~= stream_row(a, stride, y));
    }
}

/// A buffer is decided by its rows.
proof fn lemma_rows_decide(a: Seq<u8>, b: Seq<u8>, rb: int, h: int)
    requires
        0 <= h,
        0 <= rb,
        a.len() == h * rb,
        b.len() == h * rb,
        forall|y: int| 0 <= y < h ==> #[trigger] buf_row(a, rb, y) == buf_row(b, rb, y),
    ensures
        a == b,
{
    assert forall|p: int| 0 <= p < a.len() implies a[p] == b[p] by {
        if rb == 0 {
            assert(h * rb == 0) by (nonlinear_arith)
                requires
                    rb == 0,
            ;
        }
        let y = p / rb;
        let i = p % rb;
        vstd::arithmetic::div_mod::lemma_fundamental_div_mod(p, rb);
        vstd::arithmetic::div_mod::lemma_mod_bound(p, rb);
        assert(rb * y == y * rb) by (nonlinear_arith);
        assert(0 <= y < h) by (nonlinear_arith)
            requires
                p == y * rb + i,
                0 <= i < rb,
                0 <= p < h * rb,
        ;
        lemma_row_inside(y, h, rb);
        assert(buf_row(a, rb, y)[i] == a[p]);
        assert(buf_row(b, rb, y)[i] == b[p]);
    }
    assert(a =~= b);
}

/// Row `y` of converted rows is that row converted.
proof fn lemma_rgba_row_at(
    raw: Seq<u8>,
    info: PngInfo,
    palette: Option<Seq<Seq<u8>>>,
    n: int,
    y: int,
)
    requires
        palette_wf(palette),
        0 <= y < n,
    ensures
        rgba_rows(raw, info, palette, n).len() == n * (4 * info.width),
        buf_row(rgba_rows(raw, info, palette, n), 4 * info.width as int, y) == rgba_row(
            buf_row(raw, info.row_bytes() as int, y),
            info,
            palette,
            info.width as int,
        ),
    decreases n,
{
    let w4 = 4 * info.width as int;
    let last = rgba_row(
        buf_row(raw, info.row_bytes() as int, n - 1),
        info,
        palette,
        info.width as int,
    );
    lemma_rgba_row_len(
        buf_row(raw, info.row_bytes() as int, n - 1),
        info,
        palette,
        info.width as int,
    );
    lemma_rgba_rows_len(raw, info, palette, n - 1);
    lemma_row_inside(n - 1, n, w4);
    let front = rgba_rows(raw, info, palette, n - 1);
    let all = rgba_rows(raw, info, palette, n);
    if y < n - 1 {
        lemma_rgba_row_at(raw, info, palette, n - 1, y);
        lemma_row_inside(y, n - 1, w4);
        assert(buf_row(all, w4, y) =~= buf_row(front, w4, y));
    } else {
        assert(buf_row(all, w4, y) =~= last);
    }
}

/// Rewritten rows hold their conversion; the rest is as it was.
proof fn lemma_rewritten_row(
    raw: Seq<u8>,
    info: PngInfo,
    palette: Option<Seq<Seq<u8>>>,
    rgba: Seq<u8>,
    rows: Seq<usize>,
    n: int,
    y: int,
)
    requires
        palette_wf(palette),
        0 <= n <= rows.len(),
        0 <= y < info.height,
        rgba.len() == info.height * (4 * info.width),
        forall|i: int| 0 <= i < rows.len() ==> (#[trigger] rows[i]) < info.height,
    ensures
        with_rgba_rows(raw, info, palette, rgba, rows, n).len() == rgba.len(),
        buf_row(with_rgba_rows(raw, info, palette, rgba, rows, n), 4 * info.width as int, y) == (
        if among(rows.take(n), y) {
            rgba_row(
                buf_row(raw, info.row_bytes() as int, y),
                info,
                palette,
                info.width as int,
            )
        } else {
            buf_row(rgba, 4 * info.width as int, y)
        }),
    decreases n,
{
    if n > 0 {
        lemma_rewritten_row(raw, info, palette, rgba, rows, n - 1, y);
        let x = rows[n - 1] as int;
        let row = rgba_row(
            buf_row(raw, info.row_bytes() as int, x),
            info,
            palette,
            info.width as int,
        );
        lemma_rgba_row_len(
            buf_row(raw, info.row_bytes() as int, x),
            info,
            palette,
            info.width as int,
        );
        let before = with_rgba_rows(raw, info, palette, rgba, rows, n - 1);
        lemma_with_row(before, 4 * info.width as int, info.height as int, x, row, y);
        if among(rows.take(n), y) && y != x {
            let i = choose|i: int| 0 <= i < rows.take(n).len() && #[trigger] rows.take(n)[i] == y;
            assert(rows.take(n - 1)[i] == y);
        }
        if among(rows.take(n - 1), y) {
            let i = choose|i: int|
                0 <= i < rows.take(n - 1).len() && #[trigger] rows.take(n - 1)[i] == y;
            assert(rows.take(n)[i] == y);
        }
        if x == y {
            assert(rows.take(n)[n - 1] == y);
        }
    }
}

/// Converting the rows that changed is a full conversion.
pub proof fn law_rgba_rows_complete(
    raw0: Seq<u8>,
    raw: Seq<u8>,
    info: PngInfo,
    palette: Option<Seq<Seq<u8>>>,
    rows: Seq<usize>,
)
    requires
        palette_wf(palette),
        forall|i: int| 0 <= i < rows.len() ==> (#[trigger] rows[i]) < info.height,
        forall|y: int|
            0 <= y < info.height ==> #[trigger] buf_row(raw, info.row_bytes() as int, y) == buf_row(
                raw0,
                info.row_bytes() as int,
                y,
            ) || exists|i: int| 0 <= i < rows.len() && #[trigger] rows[i] == y,
    ensures
        with_rgba_rows(
            raw,
            info,
            palette,
            rgba_rows(raw0, info, palette, info.height as int),
            rows,
            rows.len() as int,
        ) == rgba_rows(raw, info, palette, info.height as int),
{
    let h = info.height as int;
    let w4 = 4 * info.width as int;
    let rgba = rgba_rows(raw0, info, palette, h);
    let full = rgba_rows(raw, info, palette, h);
    lemma_rgba_rows_len(raw0, info, palette, h);
    lemma_rgba_rows_len(raw, info, palette, h);
    let got = with_rgba_rows(raw, info, palette, rgba, rows, rows.len() as int);
    assert(rows.take(rows.len() as int) =~= rows);
    if h > 0 {
        lemma_rewritten_row(raw, info, palette, rgba, rows, rows.len() as int, 0);
    } else {
        lemma_no_rows(raw, info, palette, rgba, rows);
    }
    assert forall|y: int| 0 <= y < h implies #[trigger] buf_row(got, w4, y) == buf_row(
        full,
        w4,
        y,
    ) by {
        lemma_rewritten_row(raw, info, palette, rgba, rows, rows.len() as int, y);
        lemma_rgba_row_at(raw0, info, palette, h, y);
        lemma_rgba_row_at(raw, info, palette, h, y);
        assert(buf_row(raw, info.row_bytes() as int, y) == buf_row(
            raw0,
            info.row_bytes() as int,
            y,
        ) || among(rows, y));
    }
    lemma_rows_decide(got, full, w4, h);
}

proof fn lemma_no_rows(
    raw: Seq<u8>,
    info: PngInfo,
    palette: Option<Seq<Seq<u8>>>,
    rgba: Seq<u8>,
    rows: Seq<usize>,
)
    requires
        info.height == 0,
        forall|i: int| 0 <= i < rows.len() ==> (#[trigger] rows[i]) < info.height,
    ensures
        with_rgba_rows(raw, info, palette, rgba, rows, rows.len() as int) == rgba,
{
    if rows.len() > 0 {
        assert(rows[0] < 0);
    }
}

/// Row-scoped render pipeline shared by the literal-swap and redirect
/// paths. Inverse-filters every row flagged in `row_touched` (plus any
/// downstream rows that chain through Up/Avg/Paeth filter types), then
/// converts those rows in `base_rgba`. Returns the rebuilt set so the
/// caller can keep the texture rebuild row-scoped as well.
///
/// Interlaced output has no single progressive raster to patch row by
/// row, so the whole image is reassembled from the (edited) passes. No rebuilt
/// rows are returned then: overlays are disabled for interlaced images, so the
/// texture re-uploads `base_rgba` wholesale.
pub(crate) fn render_affected_rows(
    info: &PngInfo,
    palette: &Option<Vec<PaletteEntry>>,
    output: &[u8],
    unfiltered: &mut Vec<u8>,
    base_rgba: &mut Vec<u8>,
    first_affected: usize,
    row_touched: &[bool],
    Ghost(before): Ghost<Seq<u8>>,
) -> (r: Result<Vec<usize>, String>)
    requires
        info.wf(),
        row_touched@.len() == info.height,
        first_affected <= info.height,
        buffers_fit(
            *info,
            owned_palette_view(*palette),
            old(unfiltered)@.len(),
            old(base_rgba)@.len(),
        ),
        before.len() == output@.len(),
        forall|y: int|
            0 <= y < info.height && (y < first_affected || !row_touched@[y]) ==> #[trigger]
                same_row(before, output@, info.row_stride as int, y),
    ensures
        r is Ok && shown(
            *info,
            owned_palette_view(*palette),
            before,
            old(unfiltered)@,
            old(base_rgba)@,
        ) ==> shown(
            *info,
            owned_palette_view(*palette),
            output@,
            final(unfiltered)@,
            final(base_rgba)@,
        ),
        buffers_fit(
            *info,
            owned_palette_view(*palette),
            final(unfiltered)@.len(),
            final(base_rgba)@.len(),
        ),
        final(unfiltered)@ == repainted_raw(
            *info,
            output@,
            old(unfiltered)@,
            first_affected as int,
            row_touched@,
        ),
        final(base_rgba)@ == repainted_rgba(
            *info,
            owned_palette_view(*palette),
            output@,
            old(unfiltered)@,
            old(base_rgba)@,
            first_affected as int,
            row_touched@,
        ),
        match render_result(
            *info,
            owned_palette_view(*palette),
            output@,
            old(unfiltered)@,
            first_affected as int,
            row_touched@,
        ) {
            Ok(rows) => r matches Ok(v) && v@ == rows,
            Err(e) => r matches Err(s) && s@ == e,
        },
{
    let ghost pal = owned_palette_view(*palette);
    if info.interlaced {
        match deinterlace_to_rgba8(output, info, palette_slice(palette)) {
            Ok(full) => {
                *base_rgba = full;
                let none: Vec<usize> = Vec::new();
                assert(none@ =~= Seq::<usize>::empty());
                return Ok(none);
            },
            Err(e) => {
                let mut s: String = String::from_str("deinterlace: ");
                s.append(e.message().as_str());
                return Err(s);
            },
        }
    }
    let ghost raw0 = unfiltered@;
    let ghost stride = info.row_stride as int;
    let ghost h = info.height as int;
    let ghost was_shown = shown(*info, pal, before, raw0, base_rgba@);
    proof {
        lemma_palette_wf(*palette);
        if was_shown {
            assert forall|y: int|
                0 <= y < h && (y < first_affected || !row_touched@[y]) implies #[trigger] row_ok(
                output@,
                stride,
                info.bpp as int,
                raw0,
                y,
            ) by {
                assert(row_ok(before, stride, info.bpp as int, raw0, y));
                assert(same_row(before, output@, stride, y));
                assert(before[y * stride] == output@[y * stride]);
                lemma_row_inside(y, h, stride);
                assert(stream_row(output@, stride, y) =~= stream_row(before, stride, y));
            }
            law_rebuild_completes(output@, *info, row_touched@, raw0, first_affected as int);
        }
        lemma_rebuild_lists(
            output@,
            *info,
            row_touched@,
            raw0,
            first_affected as int,
            false,
            Seq::empty(),
        );
        lemma_rebuilt_buf(
            output@,
            *info,
            row_touched@,
            raw0,
            first_affected as int,
            false,
            Seq::empty(),
        );
    }
    let rebuilt: Vec<usize> = match unfilter_rows_into(
        output,
        info,
        unfiltered.as_mut_slice(),
        first_affected,
        row_touched,
    ) {
        Ok(rows) => rows,
        Err(e) => {
            let mut s: String = String::from_str("unfilter: ");
            s.append(e.message().as_str());
            return Err(s);
        },
    };
    proof {
        if h == 0 && rebuilt@.len() > 0 {
            assert(rebuilt@[0] < h);
        }
        assert forall|i: int| 0 <= i < rebuilt@.len() implies row_slot(
            *info,
            base_rgba@.len(),
            #[trigger] rebuilt@[i] as int,
        ) by {
            lemma_row_inside(rebuilt@[i] as int, h, 4 * info.width as int);
        }
    }
    match to_rgba8_rows_into(
        unfiltered.as_slice(),
        info,
        palette_slice(palette),
        base_rgba.as_mut_slice(),
        rebuilt.as_slice(),
    ) {
        Ok(_) => {
            proof {
                assert forall|y: int| 0 <= y < h implies #[trigger] buf_row(
                    unfiltered@,
                    info.row_bytes() as int,
                    y,
                ) == buf_row(raw0, info.row_bytes() as int, y) || exists|i: int|
                    0 <= i < rebuilt@.len() && #[trigger] rebuilt@[i] == y by {
                    if !among(rebuilt@, y) {
                        assert(buf_row(unfiltered@, info.row_bytes() as int, y) == buf_row(
                            raw0,
                            info.row_bytes() as int,
                            y,
                        ));
                    }
                }
                law_rgba_rows_complete(raw0, unfiltered@, *info, pal, rebuilt@);
            }
            Ok(rebuilt)
        },
        Err(e) => {
            let mut s: String = String::from_str("rgba: ");
            s.append(e.message().as_str());
            Err(s)
        },
    }
}

/// The raw rows after a row-scoped render, as far as it got.
pub open spec fn repainted_raw(
    info: PngInfo,
    output: Seq<u8>,
    unfiltered: Seq<u8>,
    first_affected: int,
    touched: Seq<bool>,
) -> Seq<u8> {
    if info.interlaced {
        unfiltered
    } else {
        rebuilt_buf(output, info, touched, unfiltered, first_affected, false)
    }
}

/// The pixels after a row-scoped render: the rebuilt rows converted, or as they
/// were where it failed.
pub open spec fn repainted_rgba(
    info: PngInfo,
    palette: Option<Seq<Seq<u8>>>,
    output: Seq<u8>,
    unfiltered: Seq<u8>,
    rgba: Seq<u8>,
    first_affected: int,
    touched: Seq<bool>,
) -> Seq<u8> {
    if info.interlaced {
        match deinterlace_of(output, info, palette) {
            Ok(px) => px,
            Err(_) => rgba,
        }
    } else {
        match rebuild_from(
            output,
            info,
            touched,
            unfiltered,
            first_affected,
            false,
            Seq::empty(),
        ) {
            Ok((raw, rows)) => with_rgba_rows(raw, info, palette, rgba, rows, rows.len() as int),
            Err(_) => rgba,
        }
    }
}

/// What a row-scoped render answers: the rows it rebuilt, or what went wrong.
pub open spec fn render_result(
    info: PngInfo,
    palette: Option<Seq<Seq<u8>>>,
    output: Seq<u8>,
    unfiltered: Seq<u8>,
    first_affected: int,
    touched: Seq<bool>,
) -> Result<Seq<usize>, Seq<char>> {
    if info.interlaced {
        match deinterlace_of(output, info, palette) {
            Ok(_) => Ok(Seq::empty()),
            Err(e) => Err("deinterlace: "@ + e.says()),
        }
    } else {
        match rebuild_from(
            output,
            info,
            touched,
            unfiltered,
            first_affected,
            false,
            Seq::empty(),
        ) {
            Ok((_, rows)) => Ok(rows),
            Err(e) => Err("unfilter: "@ + e.says()),
        }
    }
}

proof fn lemma_palette_wf(palette: Option<Vec<PaletteEntry>>)
    ensures
        palette_wf(owned_palette_view(palette)),
{
}

} // verus!
