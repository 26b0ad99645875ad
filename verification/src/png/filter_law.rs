//! What the row filters do to single bytes, in plain arithmetic.

use vstd::prelude::*;

use super::chunks::PngInfo;
use super::filter::{
    abs_diff, buf_row, filter_of_byte, filtered_row, first_bad_row, law_filter_round_trip,
    least_filter, left_of, lemma_raw_prefix_len, lemma_row_inside, lemma_unfilter_raw, paeth,
    raw_prefix, residual_size, residual_sum, row_above, row_ok, stream_row, unfilter_of,
    picked_filter, written_row, written_rows, FilterError, FilterStrategy, FilterType,
};

verus! {

/// How far apart two numbers are.
pub open spec fn gap(p: int, q: int) -> int {
    if p < q {
        q - p
    } else {
        p - q
    }
}

/// `x` and `y` leave the same remainder modulo 256.
pub open spec fn congruent(x: int, y: int) -> bool {
    (x - y) % 256 == 0
}

/// `v` is half the sum of `a` and `b`, rounded down.
pub open spec fn is_mean(v: int, a: int, b: int) -> bool {
    2 * v <= a + b <= 2 * v + 1
}

/// `v` is the neighbour nearest to `a + b - c`: left before up, and up before
/// upper left, where they are as near.
pub open spec fn is_nearest(v: int, a: int, b: int, c: int) -> bool {
    let p = a + b - c;
    &&& v == a || v == b || v == c
    &&& gap(p, v) <= gap(p, a)
    &&& gap(p, v) <= gap(p, b)
    &&& gap(p, v) <= gap(p, c)
    &&& gap(p, a) <= gap(p, b) && gap(p, a) <= gap(p, c) ==> v == a
    &&& gap(p, b) < gap(p, a) && gap(p, b) <= gap(p, c) ==> v == b
}

/// The raw byte in row `y`, column `i`; zero left of and above the image.
pub open spec fn raw_byte(raw: Seq<u8>, rb: int, y: int, i: int) -> int {
    if y < 0 || i < 0 {
        0
    } else {
        raw[y * rb + i] as int
    }
}

/// The raw byte `v` is what the filtered byte `x` stands for under the filter
/// with number `f`, beside the bytes left, above and above left of it.
pub open spec fn byte_stands(f: int, x: int, v: int, a: int, b: int, c: int) -> bool {
    &&& f == 0 ==> v == x
    &&& f == 1 ==> congruent(v, x + a)
    &&& f == 2 ==> congruent(v, x + b)
    &&& f == 3 ==> exists|m: int| #[trigger] is_mean(m, a, b) && congruent(v, x + m)
    &&& f == 4 ==> exists|m: int| #[trigger] is_nearest(m, a, b, c) && congruent(v, x + m)
    &&& 0 <= f <= 4
}

proof fn lemma_paeth_nearest(a: u8, b: u8, c: u8)
    ensures
        is_nearest(paeth(a, b, c) as int, a as int, b as int, c as int),
{
    let p = a + b - c;
    assert(abs_diff(p, a as int) == gap(p, a as int));
    assert(abs_diff(p, b as int) == gap(p, b as int));
    assert(abs_diff(p, c as int) == gap(p, c as int));
}

/// The Average predictor is the mean of the bytes left and above, rounded down
/// and without overflow; so it lies between them.
pub proof fn law_average(a: u8, b: u8, c: u8)
    ensures
        is_mean(super::filter::predict(FilterType::Average, a, b, c) as int, a as int, b as int),
        a <= b ==> a <= super::filter::predict(FilterType::Average, a, b, c) <= b,
        b <= a ==> b <= super::filter::predict(FilterType::Average, a, b, c) <= a,
{
}

/// The Paeth predictor is the nearest of the three neighbours.
pub proof fn law_paeth(a: u8, b: u8, c: u8)
    ensures
        is_nearest(
            super::filter::predict(FilterType::Paeth, a, b, c) as int,
            a as int,
            b as int,
            c as int,
        ),
{
    lemma_paeth_nearest(a, b, c);
}

/// The filters that each row type names.
proof fn lemma_step_stands(f: u8, x: u8, a: u8, b: u8, c: u8)
    requires
        f <= 4,
    ensures
        filter_of_byte(f) is Some,
        byte_stands(
            f as int,
            x as int,
            super::filter::add_byte(
                x,
                super::filter::predict(filter_of_byte(f)->0, a, b, c),
            ) as int,
            a as int,
            b as int,
            c as int,
        ),
{
    let m = super::filter::predict(filter_of_byte(f)->0, a, b, c);
    assert(congruent(super::filter::add_byte(x, m) as int, x + m));
    if f == 3 {
        law_average(a, b, c);
        assert(is_mean(m as int, a as int, b as int));
    } else if f == 4 {
        law_paeth(a, b, c);
        assert(is_nearest(m as int, a as int, b as int, c as int));
    }
}

proof fn lemma_prefix_stands(
    f: u8,
    filt: Seq<u8>,
    prev: Seq<u8>,
    bpp: int,
    n: int,
    i: int,
)
    requires
        f <= 4,
        1 <= bpp,
        0 <= i < n <= filt.len(),
    ensures
        ({
            let row = raw_prefix(filter_of_byte(f)->0, filt, prev, bpp, n);
            byte_stands(
                f as int,
                filt[i] as int,
                row[i] as int,
                left_of(row, i, bpp) as int,
                prev[i] as int,
                left_of(prev, i, bpp) as int,
            )
        }),
    decreases n,
{
    let ft = filter_of_byte(f)->0;
    let done = raw_prefix(ft, filt, prev, bpp, n - 1);
    let row = raw_prefix(ft, filt, prev, bpp, n);
    lemma_raw_prefix_len(ft, filt, prev, bpp, n - 1);
    lemma_raw_prefix_len(ft, filt, prev, bpp, n);
    if i < n - 1 {
        lemma_prefix_stands(f, filt, prev, bpp, n - 1, i);
        assert(row[i] == done[i]);
        assert(left_of(row, i, bpp) == left_of(done, i, bpp));
    } else {
        assert(left_of(row, i, bpp) == left_of(done, i, bpp));
        lemma_step_stands(f, filt[i], left_of(done, i, bpp), prev[i], left_of(prev, i, bpp));
    }
}

/// Every unfiltered byte is its filtered byte plus what the row's filter
/// predicts, modulo 256: nothing, the byte one pixel to the left, the byte
/// above, the mean of these two, or the nearest of the three neighbours.
pub proof fn law_unfiltered_byte(stream: Seq<u8>, info: PngInfo, raw: Seq<u8>, y: int, i: int)
    requires
        info.wf(),
        unfilter_of(stream, info) == Ok::<_, FilterError>(raw),
        0 <= y < info.height,
        0 <= i < info.row_bytes(),
    ensures
        raw.len() == info.height * info.row_bytes(),
        y * info.row_stride + 1 + i < stream.len(),
        ({
            let rb = info.row_bytes() as int;
            let bpp = info.bpp as int;
            let at = y * info.row_stride;
            byte_stands(
                stream[at] as int,
                stream[at + 1 + i] as int,
                raw_byte(raw, rb, y, i),
                raw_byte(raw, rb, y, i - bpp),
                raw_byte(raw, rb, y - 1, i),
                raw_byte(raw, rb, y - 1, i - bpp),
            )
        }),
{
    lemma_unfilter_raw(stream, info);
    let stride = info.row_stride as int;
    let rb = info.row_bytes() as int;
    let bpp = info.bpp as int;
    let h = info.height as int;
    assert(row_ok(stream, stride, bpp, raw, y));
    lemma_row_inside(y, h, rb);
    lemma_row_inside(y, h, stride);
    if y > 0 {
        lemma_row_inside(y - 1, h, rb);
    }
    let f = stream[y * stride];
    let filt = stream_row(stream, stride, y);
    let prev = row_above(raw, rb, y);
    let row = buf_row(raw, rb, y);
    lemma_prefix_stands(f, filt, prev, bpp, rb, i);
    assert(row == raw_prefix(filter_of_byte(f)->0, filt, prev, bpp, rb));
    assert(filt[i] == stream[y * stride + 1 + i]);
    assert(row[i] == raw[y * rb + i]);
    assert(left_of(row, i, bpp) == raw_byte(raw, rb, y, i - bpp));
    assert(prev[i] == raw_byte(raw, rb, y - 1, i));
    assert(left_of(prev, i, bpp) == raw_byte(raw, rb, y - 1, i - bpp));
}

/// The same of what is written: every filtered byte is the raw byte less the
/// prediction, and every row's filter is one of the five.
pub proof fn law_filtered_byte(
    raw: Seq<u8>,
    info: PngInfo,
    strategy: FilterStrategy,
    y: int,
    i: int,
)
    requires
        info.wf(),
        raw.len() == info.height * info.row_bytes(),
        raw.len() <= u32::MAX,
        0 <= y < info.height,
        0 <= i < info.row_bytes(),
    ensures
        ({
            let stream = written_rows(raw, info, strategy, info.height as int);
            let rb = info.row_bytes() as int;
            let bpp = info.bpp as int;
            let at = y * info.row_stride;
            &&& stream.len() == info.height * info.row_stride
            &&& byte_stands(
                stream[at] as int,
                stream[at + 1 + i] as int,
                raw_byte(raw, rb, y, i),
                raw_byte(raw, rb, y, i - bpp),
                raw_byte(raw, rb, y - 1, i),
                raw_byte(raw, rb, y - 1, i - bpp),
            )
        }),
{
    law_filter_round_trip(raw, info, strategy);
    law_unfiltered_byte(
        written_rows(raw, info, strategy, info.height as int),
        info,
        raw,
        y,
        i,
    );
}

/// The stream holds row `y` whole, and it starts with a filter number from 0
/// to 4.
pub open spec fn row_readable(stream: Seq<u8>, stride: int, y: int) -> bool {
    y * stride + stride <= stream.len() && stream[y * stride] <= 4
}

proof fn lemma_bad_row(stream: Seq<u8>, stride: int, h: int, y: int)
    ensures
        first_bad_row(stream, stride, h, y) is None <==> forall|k: int|
            y <= k < h ==> #[trigger] row_readable(stream, stride, k),
    decreases h - y,
{
    if y < h {
        lemma_bad_row(stream, stride, h, y + 1);
        if row_readable(stream, stride, y) {
            assert(filter_of_byte(stream[y * stride]) is Some);
            if first_bad_row(stream, stride, h, y) is None {
                assert forall|k: int| y <= k < h implies #[trigger] row_readable(
                    stream,
                    stride,
                    k,
                ) by {}
            }
        } else {
            assert(first_bad_row(stream, stride, h, y) is Some);
        }
    }
}

/// A stream of at most 4 GiB unfilters exactly when it holds every row of the
/// image and every row starts with a filter number from 0 to 4.
pub proof fn law_unfilters(stream: Seq<u8>, info: PngInfo)
    requires
        info.wf(),
    ensures
        unfilter_of(stream, info) is Ok <==> info.height * info.row_bytes() <= u32::MAX && forall|
            y: int,
        |
            0 <= y < info.height ==> #[trigger] row_readable(stream, info.row_stride as int, y),
{
    lemma_bad_row(stream, info.row_stride as int, info.height as int, 0);
}

proof fn lemma_least(curr: Seq<u8>, prev: Seq<u8>, bpp: int, n: int, k: int)
    requires
        0 <= k < n <= 5,
    ensures
        residual_sum(filtered_row(least_filter(curr, prev, bpp, n), curr, prev, bpp))
            <= residual_sum(filtered_row(FilterType::ALL@[k], curr, prev, bpp)),
    decreases n,
{
    if n > 1 && k < n - 1 {
        lemma_least(curr, prev, bpp, n - 1, k);
    }
}

/// The least-sum strategy picks a filter whose residuals, read as signed bytes,
/// sum up to no more than those of any other; and what counts for a residual is
/// its distance from zero.
pub proof fn law_min_sad(curr: Seq<u8>, prev: Seq<u8>, bpp: int, other: FilterType, b: u8)
    ensures
        residual_sum(filtered_row(least_filter(curr, prev, bpp, 5), curr, prev, bpp))
            <= residual_sum(filtered_row(other, curr, prev, bpp)),
        forall|s: int|
            -128 <= s < 128 && #[trigger] congruent(s, b as int) ==> residual_size(b) == gap(0, s),
{
    lemma_least(curr, prev, bpp, 5, other.byte() as int);
    assert(FilterType::ALL@[other.byte() as int] == other);
}

/// What a written row starts with: the number of the filter asked for, or of
/// one whose residuals sum up to the least.
pub proof fn law_written_filter(raw: Seq<u8>, info: PngInfo, strategy: FilterStrategy, y: int)
    requires
        info.wf(),
        raw.len() == info.height * info.row_bytes(),
        0 <= y < info.height,
    ensures
        ({
            let stream = written_rows(raw, info, strategy, info.height as int);
            let curr = raw.subrange(y * info.row_bytes(), y * info.row_bytes() + info.row_bytes());
            let prev = row_above(raw, info.row_bytes() as int, y);
            let b = stream[y * info.row_stride];
            &&& strategy == FilterStrategy::Fixed(FilterType::NoFilter) ==> b == 0
            &&& strategy == FilterStrategy::Fixed(FilterType::Sub) ==> b == 1
            &&& strategy == FilterStrategy::Fixed(FilterType::Up) ==> b == 2
            &&& strategy == FilterStrategy::Fixed(FilterType::Average) ==> b == 3
            &&& strategy == FilterStrategy::Fixed(FilterType::Paeth) ==> b == 4
            &&& strategy == FilterStrategy::MinSad ==> filter_of_byte(b) is Some && forall|
                other: FilterType,
            |
                residual_sum(filtered_row(filter_of_byte(b)->0, curr, prev, info.bpp as int))
                    <= residual_sum(#[trigger] filtered_row(other, curr, prev, info.bpp as int))
        }),
{
    let rb = info.row_bytes() as int;
    let h = info.height as int;
    let bpp = info.bpp as int;
    lemma_written_lead(raw, info, strategy, h, y);
    let curr = buf_row(raw, rb, y);
    let prev = row_above(raw, rb, y);
    if strategy == FilterStrategy::MinSad {
        let ft = least_filter(curr, prev, bpp, 5);
        assert(filter_of_byte(ft.byte()) == Some(ft));
        assert forall|other: FilterType|
            residual_sum(filtered_row(ft, curr, prev, bpp)) <= residual_sum(
                #[trigger] filtered_row(other, curr, prev, bpp),
            ) by {
            law_min_sad(curr, prev, bpp, other, 0);
        }
    }
}

proof fn lemma_written_lead(
    raw: Seq<u8>,
    info: PngInfo,
    strategy: FilterStrategy,
    n: int,
    y: int,
)
    requires
        info.wf(),
        raw.len() == info.height * info.row_bytes(),
        0 <= y < n <= info.height,
    ensures
        written_rows(raw, info, strategy, n).len() == n * info.row_stride,
        written_rows(raw, info, strategy, n)[y * info.row_stride] == picked_filter(
            strategy,
            buf_row(raw, info.row_bytes() as int, y),
            row_above(raw, info.row_bytes() as int, y),
            info.bpp as int,
        ).byte(),
    decreases n,
{
    let stride = info.row_stride as int;
    let rb = stride - 1;
    let before = written_rows(raw, info, strategy, n - 1);
    lemma_row_inside(n - 1, info.height as int, rb);
    lemma_row_inside(n - 1, n, stride);
    assert(written_row(raw, info, strategy, n - 1).len() == stride);
    if n > 1 {
        lemma_written_lead(
            raw,
            info,
            strategy,
            n - 1,
            if y < n - 1 {
                y
            } else {
                0
            },
        );
    } else {
        assert(before.len() == 0 * stride);
    }
    if y < n - 1 {
        lemma_row_inside(y, n - 1, stride);
        assert(written_rows(raw, info, strategy, n)[y * stride] == before[y * stride]);
    } else {
        assert(written_rows(raw, info, strategy, n)[y * stride] == written_row(
            raw,
            info,
            strategy,
            n - 1,
        )[0]);
    }
}

} // verus!
