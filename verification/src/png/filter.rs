//! PNG row filtering, both directions.
//!
//! A PNG deflate stream is `h` rows of `1 + w * bpp` bytes. Each row
//! begins with a [`FilterType`]; the remaining `w * bpp` bytes are the
//! filtered pixel data. [`unfilter`] applies the inverse filter per row to
//! produce `h * w * bpp` contiguous raw bytes (no filter prefix);
//! [`filter`] is the forward direction, choosing a filter per row and
//! prepending it.
//!
//! [`unfilter_rows_into`] is the row-scoped variant the incremental
//! editor uses: re-run only the rows whose filtered bytes changed, plus
//! any downstream rows that read from them via filter types Up/Average/Paeth.

use vstd::prelude::*;

use super::chunks::PngInfo;

verus! {

/// One of the five PNG row filters (spec §9.2). The byte value is the
/// leading byte of each filtered row.
#[derive(Debug, Clone, Copy, PartialEq, Eq, Structural)]
pub enum FilterType {
    /// Byte 0: the row as it is.
    NoFilter,
    Sub,
    Up,
    Average,
    Paeth,
}

/// The filter of a row's leading byte.
pub open spec fn filter_of_byte(b: u8) -> Option<FilterType> {
    if b == 0 {
        Some(FilterType::NoFilter)
    } else if b == 1 {
        Some(FilterType::Sub)
    } else if b == 2 {
        Some(FilterType::Up)
    } else if b == 3 {
        Some(FilterType::Average)
    } else if b == 4 {
        Some(FilterType::Paeth)
    } else {
        None
    }
}

impl FilterType {
    /// The leading byte of a row with this filter.
    pub open spec fn byte(self) -> u8 {
        match self {
            FilterType::NoFilter => 0,
            FilterType::Sub => 1,
            FilterType::Up => 2,
            FilterType::Average => 3,
            FilterType::Paeth => 4,
        }
    }

    /// Every filter, in byte order, for the heuristic to trial.
    pub const ALL: [FilterType; 5] = [
        FilterType::NoFilter,
        FilterType::Sub,
        FilterType::Up,
        FilterType::Average,
        FilterType::Paeth,
    ];

    pub fn from_byte(b: u8) -> (r: Option<Self>)
        ensures
            r == filter_of_byte(b),
    {
        match b {
            0 => Some(FilterType::NoFilter),
            1 => Some(FilterType::Sub),
            2 => Some(FilterType::Up),
            3 => Some(FilterType::Average),
            4 => Some(FilterType::Paeth),
            _ => None,
        }
    }

    pub fn as_byte(self) -> (r: u8)
        ensures
            r == self.byte(),
            filter_of_byte(r) == Some(self),
    {
        match self {
            FilterType::NoFilter => 0,
            FilterType::Sub => 1,
            FilterType::Up => 2,
            FilterType::Average => 3,
            FilterType::Paeth => 4,
        }
    }
}

/// How [`filter`] picks each row's filter.
#[derive(Debug, Clone, Copy, PartialEq, Eq, Structural)]
pub enum FilterStrategy {
    /// Use one filter for every row.
    Fixed(FilterType),
    /// Per row, pick the filter with the minimum sum of absolute signed
    /// filtered bytes (the standard libpng heuristic for compressibility).
    MinSad,
}

impl Default for FilterStrategy {
    fn default() -> (r: Self)
        ensures
            r == FilterStrategy::MinSad,
    {
        FilterStrategy::MinSad
    }
}

#[derive(Debug, Clone, Copy, PartialEq, Eq, Structural)]
pub enum FilterError {
    TruncatedRow { row: usize },
    UnknownFilter { row: usize, filter: u8 },
    /// Allocating the unfiltered buffer would overflow `usize` or
    /// exceed `u32::MAX` bytes. Returned (rather than aborting on OOM)
    /// when callers pass IHDR dimensions without the loader's prior
    /// dimension check.
    OutputTooLarge { rows: usize, row_bytes: usize },
}

// Prediction.

pub open spec fn abs_diff(a: int, b: int) -> int {
    if a <= b {
        b - a
    } else {
        a - b
    }
}

/// Of left, up and upper left, the one closest to `a + b - c`, in that order
/// on ties.
pub open spec fn paeth(a: u8, b: u8, c: u8) -> u8 {
    let p = a + b - c;
    let pa = abs_diff(p, a as int);
    let pb = abs_diff(p, b as int);
    let pc = abs_diff(p, c as int);
    if pa <= pb && pa <= pc {
        a
    } else if pb <= pc {
        b
    } else {
        c
    }
}

/// What a filter predicts from the bytes left, above, and above left.
pub open spec fn predict(ft: FilterType, a: u8, b: u8, c: u8) -> u8 {
    match ft {
        FilterType::NoFilter => 0,
        FilterType::Sub => a,
        FilterType::Up => b,
        FilterType::Average => ((a + b) / 2) as u8,
        FilterType::Paeth => paeth(a, b, c),
    }
}

/// Byte `i - bpp` of a row, or zero left of its start.
pub open spec fn left_of(row: Seq<u8>, i: int, bpp: int) -> u8 {
    if i >= bpp {
        row[i - bpp]
    } else {
        0
    }
}

pub open spec fn add_byte(x: u8, y: u8) -> u8 {
    ((x + y) % 256) as u8
}

pub open spec fn sub_byte(x: u8, y: u8) -> u8 {
    ((x - y) % 256) as u8
}

/// The residuals of a raw row.
pub open spec fn filtered_row(ft: FilterType, curr: Seq<u8>, prev: Seq<u8>, bpp: int) -> Seq<u8> {
    Seq::new(
        curr.len(),
        |i: int|
            sub_byte(
                curr[i],
                predict(ft, left_of(curr, i, bpp), prev[i], left_of(prev, i, bpp)),
            ),
    )
}

/// The first `n` bytes of the raw row with residuals `filt`.
pub open spec fn raw_prefix(
    ft: FilterType,
    filt: Seq<u8>,
    prev: Seq<u8>,
    bpp: int,
    n: int,
) -> Seq<u8>
    decreases n,
{
    if n <= 0 {
        Seq::empty()
    } else {
        let done = raw_prefix(ft, filt, prev, bpp, n - 1);
        let i = n - 1;
        done.push(
            add_byte(
                filt[i],
                predict(ft, left_of(done, i, bpp), prev[i], left_of(prev, i, bpp)),
            ),
        )
    }
}

/// The raw row with residuals `filt`.
pub open spec fn raw_row(ft: FilterType, filt: Seq<u8>, prev: Seq<u8>, bpp: int) -> Seq<u8> {
    raw_prefix(ft, filt, prev, bpp, filt.len() as int)
}

/// Adding a prediction back undoes taking it off.
proof fn lemma_add_undoes_sub(x: u8, y: u8)
    ensures
        add_byte(sub_byte(x, y), y) == x,
{
    if x < y {
        assert((x - y) % 256 == x - y + 256);
    }
}

proof fn lemma_raw_prefix_of_filtered(
    ft: FilterType,
    curr: Seq<u8>,
    prev: Seq<u8>,
    bpp: int,
    n: int,
)
    requires
        0 <= n <= curr.len(),
        bpp >= 1,
    ensures
        raw_prefix(ft, filtered_row(ft, curr, prev, bpp), prev, bpp, n) == curr.take(n),
    decreases n,
{
    if n > 0 {
        lemma_raw_prefix_of_filtered(ft, curr, prev, bpp, n - 1);
        let i = n - 1;
        let done = curr.take(i);
        assert(left_of(done, i, bpp) == left_of(curr, i, bpp));
        let guess = predict(ft, left_of(curr, i, bpp), prev[i], left_of(prev, i, bpp));
        lemma_add_undoes_sub(curr[i], guess);
        assert(filtered_row(ft, curr, prev, bpp)[i] == sub_byte(curr[i], guess));
        assert(done.push(curr[i]) =~= curr.take(n));
    } else {
        assert(curr.take(0) =~= Seq::<u8>::empty());
    }
}

/// Unfiltering a filtered row gives the row back, whatever the filter.
pub proof fn law_row_round_trip(ft: FilterType, curr: Seq<u8>, prev: Seq<u8>, bpp: int)
    requires
        bpp >= 1,
    ensures
        raw_row(ft, filtered_row(ft, curr, prev, bpp), prev, bpp) == curr,
{
    lemma_raw_prefix_of_filtered(ft, curr, prev, bpp, curr.len() as int);
    assert(curr.take(curr.len() as int) =~= curr);
}

pub proof fn lemma_raw_prefix_len(ft: FilterType, filt: Seq<u8>, prev: Seq<u8>, bpp: int, n: int)
    requires
        0 <= n,
    ensures
        raw_prefix(ft, filt, prev, bpp, n).len() == n,
    decreases n,
{
    if n > 0 {
        lemma_raw_prefix_len(ft, filt, prev, bpp, n - 1);
    }
}

/// The filters None and Sub do not read the row above.
proof fn lemma_raw_prefix_ignores_prev(
    ft: FilterType,
    filt: Seq<u8>,
    p: Seq<u8>,
    q: Seq<u8>,
    bpp: int,
    n: int,
)
    requires
        ft == FilterType::NoFilter || ft == FilterType::Sub,
    ensures
        raw_prefix(ft, filt, p, bpp, n) == raw_prefix(ft, filt, q, bpp, n),
    decreases n,
{
    if n > 0 {
        lemma_raw_prefix_ignores_prev(ft, filt, p, q, bpp, n - 1);
    }
}

pub fn paeth_predictor(a: u8, b: u8, c: u8) -> (r: u8)
    ensures
        r == paeth(a, b, c),
{
    let p: i32 = a as i32 + b as i32 - c as i32;
    let pa: i32 = if p <= a as i32 {
        a as i32 - p
    } else {
        p - a as i32
    };
    let pb: i32 = if p <= b as i32 {
        b as i32 - p
    } else {
        p - b as i32
    };
    let pc: i32 = if p <= c as i32 {
        c as i32 - p
    } else {
        p - c as i32
    };
    if pa <= pb && pa <= pc {
        a
    } else if pb <= pc {
        b
    } else {
        c
    }
}

fn prediction(ft: FilterType, a: u8, b: u8, c: u8) -> (r: u8)
    ensures
        r == predict(ft, a, b, c),
{
    match ft {
        FilterType::NoFilter => 0,
        FilterType::Sub => a,
        FilterType::Up => b,
        // PNG spec: floor((left + up) / 2), computed without overflow.
        FilterType::Average => ((a as u16 + b as u16) / 2) as u8,
        FilterType::Paeth => paeth_predictor(a, b, c),
    }
}

/// Byte `i - bpp`, or zero left of the row's start.
fn left_byte(row: &[u8], i: usize, bpp: usize) -> (r: u8)
    requires
        bpp >= 1,
        i <= row@.len(),
    ensures
        r == left_of(row@, i as int, bpp as int),
{
    if i >= bpp {
        row[i - bpp]
    } else {
        0
    }
}

/// The raw row with residuals `filt` under `ft`.
pub fn apply_unfilter(ft: FilterType, filt: &[u8], prev: &[u8], bpp: usize) -> (r: Vec<u8>)
    requires
        filt@.len() == prev@.len(),
        bpp >= 1,
    ensures
        r@ == raw_row(ft, filt@, prev@, bpp as int),
        r@.len() == filt@.len(),
{
    let mut curr: Vec<u8> = Vec::new();
    let mut i: usize = 0;
    while i < filt.len()
        invariant
            i <= filt@.len(),
            filt@.len() == prev@.len(),
            bpp >= 1,
            curr@.len() == i,
            curr@ == raw_prefix(ft, filt@, prev@, bpp as int, i as int),
        decreases filt@.len() - i,
    {
        let left: u8 = left_byte(curr.as_slice(), i, bpp);
        let upleft: u8 = left_byte(prev, i, bpp);
        let p: u8 = prediction(ft, left, prev[i], upleft);
        let v: u16 = (filt[i] as u16 + p as u16) % 256;
        curr.push(v as u8);
        i = i + 1;
    }
    curr
}

/// The residuals of one row under `ft`. Each residual is `curr - predictor`,
/// the exact inverse of [`apply_unfilter`].
pub fn apply_filter(ft: FilterType, curr: &[u8], prev: &[u8], bpp: usize) -> (r: Vec<u8>)
    requires
        curr@.len() == prev@.len(),
        bpp >= 1,
    ensures
        r@ == filtered_row(ft, curr@, prev@, bpp as int),
{
    let mut out: Vec<u8> = Vec::new();
    let mut i: usize = 0;
    while i < curr.len()
        invariant
            i <= curr@.len(),
            curr@.len() == prev@.len(),
            bpp >= 1,
            out@.len() == i,
            forall|k: int|
                0 <= k < i ==> #[trigger] out@[k] == filtered_row(ft, curr@, prev@, bpp as int)[k],
        decreases curr@.len() - i,
    {
        let left: u8 = left_byte(curr, i, bpp);
        let upleft: u8 = left_byte(prev, i, bpp);
        let p: u8 = prediction(ft, left, prev[i], upleft);
        let v: u16 = (curr[i] as u16 + 256 - p as u16) % 256;
        out.push(v as u8);
        i = i + 1;
    }
    assert(out@ =~= filtered_row(ft, curr@, prev@, bpp as int));
    out
}

// Rows of a stream and of a raw buffer.

/// The residuals of row `y`.
pub open spec fn stream_row(stream: Seq<u8>, stride: int, y: int) -> Seq<u8> {
    stream.subrange(y * stride + 1, y * stride + stride)
}

/// Raw row `y`.
pub open spec fn buf_row(buf: Seq<u8>, rb: int, y: int) -> Seq<u8> {
    buf.subrange(y * rb, y * rb + rb)
}

/// The raw row above row `y`; zeros above the first.
pub open spec fn row_above(buf: Seq<u8>, rb: int, y: int) -> Seq<u8> {
    if y <= 0 {
        Seq::new(rb as nat, |i: int| 0u8)
    } else {
        buf_row(buf, rb, y - 1)
    }
}

/// Row `y` of the raw buffer is what the stream's row `y` stands for.
pub open spec fn row_ok(stream: Seq<u8>, stride: int, bpp: int, buf: Seq<u8>, y: int) -> bool {
    &&& y * stride + stride <= stream.len()
    &&& filter_of_byte(stream[y * stride]) matches Some(ft) && buf_row(buf, stride - 1, y)
        == raw_row(ft, stream_row(stream, stride, y), row_above(buf, stride - 1, y), bpp)
}

/// The raw buffer is what the stream stands for, row by row.
pub open spec fn is_raw_of(stream: Seq<u8>, info: PngInfo, buf: Seq<u8>) -> bool {
    &&& buf.len() == info.height * info.row_bytes()
    &&& forall|y: int|
        0 <= y < info.height ==> #[trigger] row_ok(
            stream,
            info.row_stride as int,
            info.bpp as int,
            buf,
            y,
        )
}

/// The error of the first row from `y` on that cannot be unfiltered.
pub open spec fn first_bad_row(stream: Seq<u8>, stride: int, h: int, y: int) -> Option<FilterError>
    decreases h - y,
{
    if y >= h {
        None
    } else if y * stride + stride > stream.len() {
        Some(FilterError::TruncatedRow { row: y as usize })
    } else if filter_of_byte(stream[y * stride]) is None {
        Some(FilterError::UnknownFilter { row: y as usize, filter: stream[y * stride] })
    } else {
        first_bad_row(stream, stride, h, y + 1)
    }
}

/// The raw buffer that a stream without bad rows stands for.
pub open spec fn raw_of(stream: Seq<u8>, info: PngInfo) -> Seq<u8> {
    choose|buf: Seq<u8>| is_raw_of(stream, info, buf)
}

/// What [`unfilter`] makes of a stream.
pub open spec fn unfilter_of(stream: Seq<u8>, info: PngInfo) -> Result<Seq<u8>, FilterError> {
    if info.height * info.row_bytes() > u32::MAX {
        Err(
            FilterError::OutputTooLarge {
                rows: info.height as usize,
                row_bytes: info.row_bytes() as usize,
            },
        )
    } else {
        match first_bad_row(stream, info.row_stride as int, info.height as int, 0) {
            Some(e) => Err(e),
            None => Ok(raw_of(stream, info)),
        }
    }
}

/// `buf` with `row` laid over it at `off`.
pub open spec fn with_row(buf: Seq<u8>, off: int, row: Seq<u8>) -> Seq<u8> {
    Seq::new(
        buf.len(),
        |i: int|
            if off <= i < off + row.len() {
                row[i - off]
            } else {
                buf[i]
            },
    )
}

/// The rows from `y` on rebuilt where their own bytes changed, or where they
/// read a row above that was rebuilt; and which rows those are.
pub open spec fn rebuild_from(
    stream: Seq<u8>,
    info: PngInfo,
    changed: Seq<bool>,
    buf: Seq<u8>,
    y: int,
    above_rebuilt: bool,
    rebuilt: Seq<usize>,
) -> Result<(Seq<u8>, Seq<usize>), FilterError>
    decreases info.height - y,
{
    let stride = info.row_stride as int;
    if y >= info.height {
        Ok((buf, rebuilt))
    } else if y * stride + stride > stream.len() {
        Err(FilterError::TruncatedRow { row: y as usize })
    } else {
        let f = stream[y * stride];
        if !(changed[y] || (2 <= f <= 4 && above_rebuilt)) {
            rebuild_from(stream, info, changed, buf, y + 1, false, rebuilt)
        } else {
            match filter_of_byte(f) {
                None => Err(FilterError::UnknownFilter { row: y as usize, filter: f }),
                Some(ft) => rebuild_from(
                    stream,
                    info,
                    changed,
                    with_row(
                        buf,
                        y * (stride - 1),
                        raw_row(
                            ft,
                            stream_row(stream, stride, y),
                            row_above(buf, stride - 1, y),
                            info.bpp as int,
                        ),
                    ),
                    y + 1,
                    true,
                    rebuilt.push(y as usize),
                ),
            }
        }
    }
}

/// The buffer that rebuilding leaves, as far as it gets: the rows before a bad
/// one are rebuilt, that one and those behind it are as they were.
pub open spec fn rebuilt_buf(
    stream: Seq<u8>,
    info: PngInfo,
    changed: Seq<bool>,
    buf: Seq<u8>,
    y: int,
    above_rebuilt: bool,
) -> Seq<u8>
    decreases info.height - y,
{
    let stride = info.row_stride as int;
    if y >= info.height || y * stride + stride > stream.len() {
        buf
    } else {
        let f = stream[y * stride];
        if !(changed[y] || (2 <= f <= 4 && above_rebuilt)) {
            rebuilt_buf(stream, info, changed, buf, y + 1, false)
        } else {
            match filter_of_byte(f) {
                None => buf,
                Some(ft) => rebuilt_buf(
                    stream,
                    info,
                    changed,
                    with_row(
                        buf,
                        y * (stride - 1),
                        raw_row(
                            ft,
                            stream_row(stream, stride, y),
                            row_above(buf, stride - 1, y),
                            info.bpp as int,
                        ),
                    ),
                    y + 1,
                    true,
                ),
            }
        }
    }
}

/// Where rebuilding succeeds, that is its buffer.
pub proof fn lemma_rebuilt_buf(
    stream: Seq<u8>,
    info: PngInfo,
    changed: Seq<bool>,
    buf: Seq<u8>,
    y: int,
    above_rebuilt: bool,
    rebuilt: Seq<usize>,
)
    ensures
        rebuild_from(stream, info, changed, buf, y, above_rebuilt, rebuilt) matches Ok((out, _))
            ==> out == rebuilt_buf(stream, info, changed, buf, y, above_rebuilt),
    decreases info.height - y,
{
    let stride = info.row_stride as int;
    if y < info.height && y * stride + stride <= stream.len() {
        let f = stream[y * stride];
        if !(changed[y] || (2 <= f <= 4 && above_rebuilt)) {
            lemma_rebuilt_buf(stream, info, changed, buf, y + 1, false, rebuilt);
        } else if let Some(ft) = filter_of_byte(f) {
            let row = raw_row(
                ft,
                stream_row(stream, stride, y),
                row_above(buf, stride - 1, y),
                info.bpp as int,
            );
            lemma_rebuilt_buf(
                stream,
                info,
                changed,
                with_row(buf, y * (stride - 1), row),
                y + 1,
                true,
                rebuilt.push(y as usize),
            );
        }
    }
}

/// Rows `0..h` of `rb` bytes lie inside `h * rb` bytes.
pub proof fn lemma_row_inside(y: int, h: int, rb: int)
    requires
        0 <= y < h,
        0 <= rb,
    ensures
        0 <= y * rb,
        y * rb + rb <= h * rb,
        (y + 1) * rb == y * rb + rb,
{
    assert(0 <= y * rb) by (nonlinear_arith)
        requires
            0 <= y,
            0 <= rb,
    ;
    assert((y + 1) * rb == y * rb + rb) by (nonlinear_arith);
    assert((y + 1) * rb <= h * rb) by (nonlinear_arith)
        requires
            y + 1 <= h,
            0 <= rb,
    ;
}

/// Different rows do not overlap.
pub proof fn lemma_rows_apart(x: int, y: int, rb: int)
    requires
        0 <= x < y,
        0 <= rb,
    ensures
        x * rb + rb <= y * rb,
{
    assert((x + 1) * rb <= y * rb) by (nonlinear_arith)
        requires
            x + 1 <= y,
            0 <= rb,
    ;
    assert((x + 1) * rb == x * rb + rb) by (nonlinear_arith);
}

/// Rewriting row `y` leaves every other row alone.
pub proof fn lemma_with_row(buf: Seq<u8>, rb: int, h: int, y: int, row: Seq<u8>, x: int)
    requires
        0 <= y < h,
        0 <= x < h,
        0 <= rb,
        row.len() == rb,
        buf.len() == h * rb,
    ensures
        buf_row(with_row(buf, y * rb, row), rb, x) == (if x == y {
            row
        } else {
            buf_row(buf, rb, x)
        }),
        with_row(buf, y * rb, row).len() == buf.len(),
{
    lemma_row_inside(x, h, rb);
    lemma_row_inside(y, h, rb);
    if x < y {
        lemma_rows_apart(x, y, rb);
    } else if y < x {
        lemma_rows_apart(y, x, rb);
    }
    let after = with_row(buf, y * rb, row);
    if x == y {
        assert(buf_row(after, rb, x) =~= row);
    } else {
        assert(buf_row(after, rb, x) =~= buf_row(buf, rb, x));
    }
}

/// Inverse filter of the rows from `y` on, in place: `rebuilt` collects them.
proof fn lemma_rebuild_step(
    stream: Seq<u8>,
    info: PngInfo,
    changed: Seq<bool>,
    orig: Seq<u8>,
    buf: Seq<u8>,
    y: int,
    above_rebuilt: bool,
    rebuilt: Seq<usize>,
)
    requires
        0 <= y <= info.height,
        info.row_stride >= 1,
        changed.len() == info.height,
        orig.len() == info.height * info.row_bytes(),
        buf.len() == orig.len(),
        // Rows from `y` on are as they were, and so is the row above them
        // unless it was just rebuilt.
        forall|x: int|
            y <= x < info.height ==> #[trigger] buf_row(buf, info.row_bytes() as int, x) == buf_row(
                orig,
                info.row_bytes() as int,
                x,
            ),
        !above_rebuilt && y > 0 ==> buf_row(buf, info.row_bytes() as int, y - 1) == buf_row(
            orig,
            info.row_bytes() as int,
            y - 1,
        ),
        forall|x: int|
            y <= x < info.height && !changed[x] ==> #[trigger] row_ok(
                stream,
                info.row_stride as int,
                info.bpp as int,
                orig,
                x,
            ),
        forall|x: int|
            0 <= x < y ==> #[trigger] row_ok(
                stream,
                info.row_stride as int,
                info.bpp as int,
                buf,
                x,
            ),
    ensures
        rebuild_from(stream, info, changed, buf, y, above_rebuilt, rebuilt) matches Ok((out, _))
            ==> is_raw_of(stream, info, out),
    decreases info.height - y,
{
    let stride = info.row_stride as int;
    let rb = stride - 1;
    let bpp = info.bpp as int;
    let h = info.height as int;
    if y < h && y * stride + stride <= stream.len() {
        let f = stream[y * stride];
        let filt = stream_row(stream, stride, y);
        assert(filt.len() == rb);
        if !(changed[y] || (2 <= f <= 4 && above_rebuilt)) {
            assert(row_ok(stream, stride, bpp, orig, y));
            let ft = filter_of_byte(f).unwrap();
            if above_rebuilt {
                lemma_raw_prefix_ignores_prev(
                    ft,
                    filt,
                    row_above(buf, rb, y),
                    row_above(orig, rb, y),
                    bpp,
                    rb,
                );
            }
            assert(buf_row(buf, rb, y) == buf_row(orig, rb, y));
            assert(row_ok(stream, stride, bpp, buf, y));
            lemma_rebuild_step(stream, info, changed, orig, buf, y + 1, false, rebuilt);
        } else if let Some(ft) = filter_of_byte(f) {
            let row = raw_row(ft, filt, row_above(buf, rb, y), bpp);
            lemma_raw_prefix_len(ft, filt, row_above(buf, rb, y), bpp, rb);
            let next = with_row(buf, y * rb, row);
            assert forall|x: int| y + 1 <= x < h implies #[trigger] buf_row(next, rb, x) == buf_row(
                orig,
                rb,
                x,
            ) by {
                lemma_with_row(buf, rb, h, y, row, x);
                assert(buf_row(buf, rb, x) == buf_row(orig, rb, x));
            }
            assert forall|x: int| 0 <= x < y + 1 implies #[trigger] row_ok(
                stream,
                stride,
                bpp,
                next,
                x,
            ) by {
                lemma_with_row(buf, rb, h, y, row, x);
                if x > 0 {
                    lemma_with_row(buf, rb, h, y, row, x - 1);
                }
                if x < y {
                    assert(row_ok(stream, stride, bpp, buf, x));
                }
            }
            lemma_rebuild_step(
                stream,
                info,
                changed,
                orig,
                next,
                y + 1,
                true,
                rebuilt.push(y as usize),
            );
        }
    }
}

/// Rebuilding only the changed rows is enough: where every row not marked as
/// changed was right for the stream and the row above it, the whole buffer is
/// right afterwards.
pub proof fn law_rebuild_completes(
    stream: Seq<u8>,
    info: PngInfo,
    changed: Seq<bool>,
    buf: Seq<u8>,
    first: int,
)
    requires
        info.wf(),
        0 <= first <= info.height,
        changed.len() == info.height,
        buf.len() == info.height * info.row_bytes(),
        forall|x: int|
            0 <= x < info.height && (x < first || !changed[x]) ==> #[trigger] row_ok(
                stream,
                info.row_stride as int,
                info.bpp as int,
                buf,
                x,
            ),
    ensures
        rebuild_from(stream, info, changed, buf, first, false, Seq::empty()) matches Ok((out, _))
            ==> is_raw_of(stream, info, out),
{
    lemma_rebuild_step(stream, info, changed, buf, buf, first, false, Seq::empty());
}

/// When every row is rebuilt, the error is that of the first bad row, and there
/// is none if there is no bad row.
proof fn lemma_rebuild_all(
    stream: Seq<u8>,
    info: PngInfo,
    changed: Seq<bool>,
    buf: Seq<u8>,
    y: int,
    above_rebuilt: bool,
    rebuilt: Seq<usize>,
)
    requires
        0 <= y <= info.height,
        changed.len() == info.height,
        forall|x: int| 0 <= x < info.height ==> changed[x],
    ensures
        match first_bad_row(stream, info.row_stride as int, info.height as int, y) {
            Some(e) => rebuild_from(stream, info, changed, buf, y, above_rebuilt, rebuilt) == Err::<
                (Seq<u8>, Seq<usize>),
                _,
            >(e),
            None => rebuild_from(stream, info, changed, buf, y, above_rebuilt, rebuilt) is Ok,
        },
    decreases info.height - y,
{
    let stride = info.row_stride as int;
    if y < info.height && y * stride + stride <= stream.len() {
        if let Some(ft) = filter_of_byte(stream[y * stride]) {
            lemma_rebuild_all(
                stream,
                info,
                changed,
                with_row(
                    buf,
                    y * (stride - 1),
                    raw_row(
                        ft,
                        stream_row(stream, stride, y),
                        row_above(buf, stride - 1, y),
                        info.bpp as int,
                    ),
                ),
                y + 1,
                true,
                rebuilt.push(y as usize),
            );
        }
    }
}

/// The stream determines the raw buffer.
pub proof fn lemma_raw_unique(stream: Seq<u8>, info: PngInfo, a: Seq<u8>, b: Seq<u8>)
    requires
        info.row_stride >= 1,
        is_raw_of(stream, info, a),
        is_raw_of(stream, info, b),
    ensures
        a == b,
{
    let rb = info.row_bytes() as int;
    let h = info.height as int;
    if rb == 0 {
        assert(h * rb == 0);
        assert(a =~= b);
    } else {
        assert forall|i: int| 0 <= i < a.len() implies a[i] == b[i] by {
            let y = i / rb;
            vstd::arithmetic::div_mod::lemma_fundamental_div_mod(i, rb);
            assert(0 <= y < h) by (nonlinear_arith)
                requires
                    i == rb * y + i % rb,
                    0 <= i % rb < rb,
                    0 <= i < h * rb,
                    rb > 0,
            ;
            assert(rb * y == y * rb) by (nonlinear_arith);
            lemma_rows_equal(stream, info, a, b, y);
            lemma_row_inside(y, h, rb);
            vstd::arithmetic::div_mod::lemma_mod_bound(i, rb);
            assert(y * rb <= i < y * rb + rb);
            assert(buf_row(a, rb, y)[i - y * rb] == a[i]);
            assert(buf_row(b, rb, y)[i - y * rb] == b[i]);
        }
        assert(a =~= b);
    }
}

proof fn lemma_rows_equal(stream: Seq<u8>, info: PngInfo, a: Seq<u8>, b: Seq<u8>, y: int)
    requires
        info.row_stride >= 1,
        is_raw_of(stream, info, a),
        is_raw_of(stream, info, b),
        0 <= y < info.height,
    ensures
        buf_row(a, info.row_bytes() as int, y) == buf_row(b, info.row_bytes() as int, y),
    decreases y,
{
    if y > 0 {
        lemma_rows_equal(stream, info, a, b, y - 1);
    }
    assert(row_ok(stream, info.row_stride as int, info.bpp as int, a, y));
    assert(row_ok(stream, info.row_stride as int, info.bpp as int, b, y));
}

/// `y` is one of `rows`.
pub open spec fn among(rows: Seq<usize>, y: int) -> bool {
    exists|i: int| 0 <= i < rows.len() && #[trigger] rows[i] == y
}

/// The rows come in order, all from `from` up to `to`.
pub open spec fn rows_ordered(rows: Seq<usize>, from: int, to: int) -> bool {
    &&& forall|i: int| 0 <= i < rows.len() ==> from <= (#[trigger] rows[i]) < to
    &&& forall|i: int, j: int| 0 <= i < j < rows.len() ==> rows[i] < rows[j]
}

/// Rebuilding writes the rows it lists, and no others, and lists them in order.
pub proof fn lemma_rebuild_lists(
    stream: Seq<u8>,
    info: PngInfo,
    changed: Seq<bool>,
    buf: Seq<u8>,
    y: int,
    above: bool,
    rebuilt: Seq<usize>,
)
    requires
        0 <= y <= info.height <= usize::MAX,
        info.row_stride >= 1,
        buf.len() == info.height * info.row_bytes(),
        forall|i: int| 0 <= i < rebuilt.len() ==> (#[trigger] rebuilt[i]) < y,
        forall|i: int, j: int| 0 <= i < j < rebuilt.len() ==> rebuilt[i] < rebuilt[j],
    ensures
        rebuild_from(stream, info, changed, buf, y, above, rebuilt) matches Ok((out, rows)) ==> {
            &&& out.len() == buf.len()
            &&& rows_ordered(rows, 0, info.height as int)
            &&& forall|i: int|
                0 <= i < rebuilt.len() ==> i < rows.len() && #[trigger] rows[i] == rebuilt[i]
            &&& rebuilt.len() <= rows.len()
            &&& forall|i: int| rebuilt.len() <= i < rows.len() ==> (#[trigger] rows[i]) >= y
            &&& forall|x: int|
                0 <= x < info.height && !among(rows, x) ==> #[trigger] buf_row(
                    out,
                    info.row_bytes() as int,
                    x,
                ) == buf_row(buf, info.row_bytes() as int, x)
        },
    decreases info.height - y,
{
    let stride = info.row_stride as int;
    let rb = stride - 1;
    let h = info.height as int;
    if y < h && y * stride + stride <= stream.len() {
        let f = stream[y * stride];
        if !(changed[y] || (2 <= f <= 4 && above)) {
            lemma_rebuild_lists(stream, info, changed, buf, y + 1, false, rebuilt);
        } else if let Some(ft) = filter_of_byte(f) {
            let filt = stream_row(stream, stride, y);
            let row = raw_row(ft, filt, row_above(buf, rb, y), info.bpp as int);
            lemma_raw_prefix_len(ft, filt, row_above(buf, rb, y), info.bpp as int, rb);
            let next = with_row(buf, y * rb, row);
            let more = rebuilt.push(y as usize);
            lemma_rebuild_lists(stream, info, changed, next, y + 1, true, more);
            if let Ok((out, rows)) = rebuild_from(stream, info, changed, next, y + 1, true, more) {
                assert forall|i: int| 0 <= i < rebuilt.len() implies i < rows.len()
                    && #[trigger] rows[i] == rebuilt[i] by {
                    assert(rows[i] == more[i]);
                }
                assert(rows[rebuilt.len() as int] == more[rebuilt.len() as int]);
                assert(among(rows, y));
                assert forall|x: int| 0 <= x < h && !among(rows, x) implies #[trigger] buf_row(
                    out,
                    rb,
                    x,
                ) == buf_row(buf, rb, x) by {
                    assert(x != y);
                    lemma_with_row(buf, rb, h, y, row, x);
                    assert(buf_row(out, rb, x) == buf_row(next, rb, x));
                }
            }
        }
    }
}

/// A stream without bad rows has none further down.
proof fn lemma_good_below(stream: Seq<u8>, stride: int, h: int, x: int, y: int)
    requires
        0 <= x <= y,
        first_bad_row(stream, stride, h, x) is None,
    ensures
        first_bad_row(stream, stride, h, y) is None,
    decreases y - x,
{
    if x < y && x < h {
        lemma_good_below(stream, stride, h, x + 1, y);
    }
}

/// Where no row is bad, rebuilding succeeds, whatever is marked.
proof fn lemma_rebuild_good(
    stream: Seq<u8>,
    info: PngInfo,
    changed: Seq<bool>,
    buf: Seq<u8>,
    y: int,
    above_rebuilt: bool,
    rebuilt: Seq<usize>,
)
    requires
        0 <= y,
        first_bad_row(stream, info.row_stride as int, info.height as int, y) is None,
    ensures
        rebuild_from(stream, info, changed, buf, y, above_rebuilt, rebuilt) is Ok,
    decreases info.height - y,
{
    let stride = info.row_stride as int;
    if y < info.height {
        let f = stream[y * stride];
        if !(changed[y] || (2 <= f <= 4 && above_rebuilt)) {
            lemma_rebuild_good(stream, info, changed, buf, y + 1, false, rebuilt);
        } else {
            let ft = filter_of_byte(f)->0;
            let row = raw_row(
                ft,
                stream_row(stream, stride, y),
                row_above(buf, stride - 1, y),
                info.bpp as int,
            );
            lemma_rebuild_good(
                stream,
                info,
                changed,
                with_row(buf, y * (stride - 1), row),
                y + 1,
                true,
                rebuilt.push(y as usize),
            );
        }
    }
}

/// What a stream without bad rows unfilters to is what it stands for.
pub proof fn lemma_unfilter_raw(stream: Seq<u8>, info: PngInfo)
    requires
        info.wf(),
    ensures
        unfilter_of(stream, info) matches Ok(out) ==> is_raw_of(stream, info, out),
{
    if unfilter_of(stream, info) is Ok {
        let h = info.height as int;
        let rb = info.row_bytes() as int;
        assert(0 <= h * rb) by (nonlinear_arith)
            requires
                0 <= h,
                0 <= rb,
        ;
        let zero = Seq::new((h * rb) as nat, |i: int| 0u8);
        let all = Seq::new(h as nat, |y: int| true);
        lemma_rebuild_all(stream, info, all, zero, 0, false, Seq::empty());
        law_rebuild_completes(stream, info, all, zero, 0);
        let out = rebuild_from(stream, info, all, zero, 0, false, Seq::empty())->Ok_0.0;
        assert(is_raw_of(stream, info, out));
    }
}

/// Row `y`, filter byte and all, is the same in both streams.
pub open spec fn same_stream_row(a: Seq<u8>, b: Seq<u8>, stride: int, y: int) -> bool {
    a.subrange(y * stride, y * stride + stride) == b.subrange(y * stride, y * stride + stride)
}

/// Re-running the inverse filter over the changed rows gives what unfiltering
/// the whole stream gives. The rows that it rebuilt come in order, from the
/// first affected one on; every other row keeps its bytes.
pub proof fn law_incremental_unfilter(
    prev: Seq<u8>,
    stream: Seq<u8>,
    info: PngInfo,
    changed: Seq<bool>,
    first: int,
    was: Seq<u8>,
    full: Seq<u8>,
)
    requires
        info.wf(),
        changed.len() == info.height,
        0 <= first,
        prev.len() == stream.len(),
        unfilter_of(prev, info) == Ok::<_, FilterError>(was),
        unfilter_of(stream, info) == Ok::<_, FilterError>(full),
        forall|y: int|
            0 <= y < info.height && !#[trigger] same_stream_row(
                prev,
                stream,
                info.row_stride as int,
                y,
            ) ==> changed[y] && first <= y,
    ensures
        rebuild_from(stream, info, changed, was, first, false, Seq::empty()) matches Ok((out, rows))
            && out == full && rows_ordered(rows, first, info.height as int) && (forall|x: int|
            0 <= x < info.height && !among(rows, x) ==> #[trigger] buf_row(
                full,
                info.row_bytes() as int,
                x,
            ) == buf_row(was, info.row_bytes() as int, x)),
{
    let stride = info.row_stride as int;
    let h = info.height as int;
    lemma_unfilter_raw(prev, info);
    lemma_unfilter_raw(stream, info);
    lemma_good_below(stream, stride, h, 0, first);
    lemma_rebuild_good(stream, info, changed, was, first, false, Seq::empty());
    assert forall|x: int| 0 <= x < h && (x < first || !changed[x]) implies #[trigger] row_ok(
        stream,
        stride,
        info.bpp as int,
        was,
        x,
    ) by {
        assert(row_ok(prev, stride, info.bpp as int, was, x));
        assert(row_ok(stream, stride, info.bpp as int, full, x));
        assert(same_stream_row(prev, stream, stride, x));
        lemma_row_inside(x, h, stride);
        let a = prev.subrange(x * stride, x * stride + stride);
        let b = stream.subrange(x * stride, x * stride + stride);
        assert(a[0] == b[0]);
        assert(stream_row(prev, stride, x) =~= a.subrange(1, stride));
        assert(stream_row(stream, stride, x) =~= b.subrange(1, stride));
    }
    if first <= h {
        law_rebuild_completes(stream, info, changed, was, first);
        lemma_rebuild_lists(stream, info, changed, was, first, false, Seq::empty());
    } else {
        assert(is_raw_of(stream, info, was));
    }
    let out = rebuild_from(stream, info, changed, was, first, false, Seq::empty())->Ok_0.0;
    lemma_raw_unique(stream, info, out, full);
}

/// Lay `row` over `buf` at `off`.
fn copy_row(buf: &mut [u8], off: usize, row: &Vec<u8>)
    requires
        off + row@.len() <= old(buf)@.len(),
    ensures
        final(buf)@ == with_row(old(buf)@, off as int, row@),
{
    let mut i: usize = 0;
    let len: usize = buf.len();
    while i < row.len()
        invariant
            i <= row@.len(),
            len == buf@.len(),
            off + row@.len() <= len,
            buf@.len() == old(buf)@.len(),
            forall|k: int|
                0 <= k < buf@.len() ==> #[trigger] buf@[k] == (if off <= k < off + i {
                    row@[k - off]
                } else {
                    old(buf)@[k]
                }),
        decreases row@.len() - i,
    {
        buf[off + i] = row[i];
        i = i + 1;
    }
    assert(buf@ =~= with_row(old(buf)@, off as int, row@));
}

fn zero_row(n: usize) -> (r: Vec<u8>)
    ensures
        r@ == Seq::new(n as nat, |i: int| 0u8),
{
    let mut r: Vec<u8> = Vec::new();
    let mut i: usize = 0;
    while i < n
        invariant
            i <= n,
            r@.len() == i,
            forall|k: int| 0 <= k < i ==> r@[k] == 0,
        decreases n - i,
    {
        r.push(0);
        i = i + 1;
    }
    assert(r@ =~= Seq::new(n as nat, |i: int| 0u8));
    r
}

/// Unfilter row `y` from `stream` against the row above it in `buf`.
fn rebuild_row(
    stream: &[u8],
    info: &PngInfo,
    buf: &[u8],
    y: usize,
    start: usize,
    ft: FilterType,
) -> (r: Vec<u8>)
    requires
        info.wf(),
        y < info.height,
        start == y * info.row_stride,
        start + info.row_stride <= stream@.len(),
        buf@.len() == info.height * info.row_bytes(),
    ensures
        r@ == raw_row(
            ft,
            stream_row(stream@, info.row_stride as int, y as int),
            row_above(buf@, info.row_bytes() as int, y as int),
            info.bpp as int,
        ),
        r@.len() == info.row_bytes(),
{
    let rb: usize = info.row_stride - 1;
    let n: usize = stream.len();
    let filt = vstd::slice::slice_subrange(stream, start + 1, start + info.row_stride);
    if y == 0 {
        let zero: Vec<u8> = zero_row(rb);
        apply_unfilter(ft, filt, zero.as_slice(), info.bpp)
    } else {
        proof {
            lemma_row_inside(y - 1, info.height as int, rb as int);
            lemma_row_inside(y as int, info.height as int, rb as int);
        }
        let len: usize = buf.len();
        let off: usize = (y - 1) * rb;
        let prev = vstd::slice::slice_subrange(buf, off, off + rb);
        apply_unfilter(ft, filt, prev, info.bpp)
    }
}

/// Re-run the inverse filter for just the rows whose raw bytes changed,
/// propagating down through any filter-2/3/4 chain that reads from the
/// updated `prev` row. `unfiltered` must be a full `h * row_bytes` buffer
/// in a state consistent with the *un*modified portion of `stream`.
///
/// `changed_row[y]` is `true` when row `y`'s filtered bytes differ from
/// the last time `unfiltered` was computed. The caller tracks this (the
/// incremental edit path records every `output` position it writes).
///
/// Returns the rows re-unfiltered, in order: the input to
/// `to_rgba8_rows_into`. On an error the rows before the bad one have been
/// rebuilt, and the rest is as it was.
pub fn unfilter_rows_into(
    stream: &[u8],
    info: &PngInfo,
    unfiltered: &mut [u8],
    first_affected: usize,
    changed_row: &[bool],
) -> (r: Result<Vec<usize>, FilterError>)
    requires
        info.wf(),
        old(unfiltered)@.len() == info.height * info.row_bytes(),
        changed_row@.len() == info.height,
    ensures
        final(unfiltered)@.len() == old(unfiltered)@.len(),
        match rebuild_from(
            stream@,
            *info,
            changed_row@,
            old(unfiltered)@,
            first_affected as int,
            false,
            Seq::empty(),
        ) {
            Ok((buf, rows)) => r matches Ok(v) && v@ == rows && final(unfiltered)@ == buf,
            Err(e) => r == Err::<Vec<usize>, _>(e),
        },
        final(unfiltered)@ == rebuilt_buf(
            stream@,
            *info,
            changed_row@,
            old(unfiltered)@,
            first_affected as int,
            false,
        ),
{
    let h: usize = changed_row.len();
    let stride: usize = info.row_stride;
    let rb: usize = stride - 1;
    let mut rebuilt: Vec<usize> = Vec::new();
    let mut above_rebuilt = false;
    let mut y: usize = first_affected;
    let n: usize = stream.len();
    let len: usize = unfiltered.len();
    while y < h
        invariant
            info.wf(),
            h == info.height,
            h == changed_row@.len(),
            stride == info.row_stride,
            rb == stride - 1,
            n == stream@.len(),
            len == unfiltered@.len(),
            len == h * rb,
            first_affected <= y,
            unfiltered@.len() == old(unfiltered)@.len(),
            rebuild_from(
                stream@,
                *info,
                changed_row@,
                old(unfiltered)@,
                first_affected as int,
                false,
                Seq::empty(),
            ) == rebuild_from(
                stream@,
                *info,
                changed_row@,
                unfiltered@,
                y as int,
                above_rebuilt,
                rebuilt@,
            ),
            rebuilt_buf(
                stream@,
                *info,
                changed_row@,
                old(unfiltered)@,
                first_affected as int,
                false,
            ) == rebuilt_buf(
                stream@,
                *info,
                changed_row@,
                unfiltered@,
                y as int,
                above_rebuilt,
            ),
        decreases h - y,
    {
        proof {
            assert(y * stride <= 0xFFFF_FFFF * 0xFFFF_FFFF_FFFF_FFFF) by (nonlinear_arith)
                requires
                    y <= 0xFFFF_FFFF,
                    stride <= 0xFFFF_FFFF_FFFF_FFFF,
            ;
            assert(0 <= y * stride) by (nonlinear_arith);
        }
        let wide: u128 = y as u128 * stride as u128;
        if wide + stride as u128 > n as u128 {
            return Err(FilterError::TruncatedRow { row: y });
        }
        let start: usize = wide as usize;
        let f: u8 = stream[start];
        let chain = 2 <= f && f <= 4 && above_rebuilt;
        if changed_row[y] || chain {
            match FilterType::from_byte(f) {
                None => {
                    return Err(FilterError::UnknownFilter { row: y, filter: f });
                },
                Some(ft) => {
                    let row: Vec<u8> = rebuild_row(stream, info, &*unfiltered, y, start, ft);
                    proof {
                        lemma_row_inside(y as int, h as int, rb as int);
                    }
                    copy_row(unfiltered, y * rb, &row);
                    rebuilt.push(y);
                    above_rebuilt = true;
                },
            }
        } else {
            above_rebuilt = false;
        }
        y = y + 1;
    }
    Ok(rebuilt)
}

/// Apply the inverse of PNG row filters to the decoded PNG stream. Returns a
/// new `h * row_bytes` buffer with the per-row filter bytes stripped.
///
/// `info.row_stride` includes the filter byte; `row_bytes = row_stride - 1`
/// is the width of the raw pixel row in bytes.
pub fn unfilter(stream: &[u8], info: &PngInfo) -> (r: Result<Vec<u8>, FilterError>)
    requires
        info.wf(),
    ensures
        match unfilter_of(stream@, *info) {
            Ok(out) => r matches Ok(v) && v@ == out && is_raw_of(stream@, *info, out),
            Err(e) => r == Err::<Vec<u8>, _>(e),
        },
{
    let h: usize = info.height as usize;
    let row_bytes: usize = info.row_stride - 1;
    proof {
        assert(0 <= h * row_bytes <= 0xFFFF_FFFF * 0xFFFF_FFFF_FFFF_FFFF) by (nonlinear_arith)
            requires
                h <= 0xFFFF_FFFF,
                row_bytes <= 0xFFFF_FFFF_FFFF_FFFF,
        ;
    }
    // Reject pathological dimensions before allocating. Cap at u32::MAX
    // matches the loader's check (event positions are u32). Library callers
    // without that prior check get a structured error instead of an OOM abort.
    let total: u128 = h as u128 * row_bytes as u128;
    if total > u32::MAX as u128 {
        assert(info.height as usize == h);
        return Err(FilterError::OutputTooLarge { rows: h, row_bytes });
    }
    let mut out: Vec<u8> = zero_row(total as usize);
    let mut all: Vec<bool> = Vec::new();
    let mut i: usize = 0;
    while i < h
        invariant
            i <= h,
            all@.len() == i,
            forall|k: int| 0 <= k < i ==> all@[k],
        decreases h - i,
    {
        all.push(true);
        i = i + 1;
    }
    let ghost zeros = out@;
    let r = unfilter_rows_into(stream, info, out.as_mut_slice(), 0, all.as_slice());
    proof {
        lemma_rebuild_all(stream@, *info, all@, zeros, 0, false, Seq::empty());
        law_rebuild_completes(stream@, *info, all@, zeros, 0);
    }
    match r {
        Ok(_) => {
            proof {
                lemma_raw_unique(stream@, *info, out@, raw_of(stream@, *info));
            }
            Ok(out)
        },
        Err(e) => Err(e),
    }
}

// Forward filtering.

/// The distance of a residual byte from zero, as a signed number.
pub open spec fn residual_size(b: u8) -> nat {
    if b < 128 {
        b as nat
    } else {
        (256 - b) as nat
    }
}

/// The sum of those distances.
pub open spec fn residual_sum(row: Seq<u8>) -> nat
    decreases row.len(),
{
    if row.len() == 0 {
        0
    } else {
        residual_sum(row.drop_last()) + residual_size(row.last())
    }
}

/// Of the first `n` filters in byte order, the first with the smallest sum.
pub open spec fn least_filter(curr: Seq<u8>, prev: Seq<u8>, bpp: int, n: int) -> FilterType
    decreases n,
{
    if n <= 1 {
        FilterType::NoFilter
    } else {
        let best = least_filter(curr, prev, bpp, n - 1);
        let next = FilterType::ALL@[n - 1];
        if residual_sum(filtered_row(next, curr, prev, bpp)) < residual_sum(
            filtered_row(best, curr, prev, bpp),
        ) {
            next
        } else {
            best
        }
    }
}

/// The filter that a strategy picks for a row.
pub open spec fn picked_filter(
    strategy: FilterStrategy,
    curr: Seq<u8>,
    prev: Seq<u8>,
    bpp: int,
) -> FilterType {
    match strategy {
        FilterStrategy::Fixed(ft) => ft,
        FilterStrategy::MinSad => least_filter(curr, prev, bpp, 5),
    }
}

/// One filtered row with its leading byte.
pub open spec fn written_row(
    raw: Seq<u8>,
    info: PngInfo,
    strategy: FilterStrategy,
    y: int,
) -> Seq<u8> {
    let rb = info.row_bytes() as int;
    let bpp = info.bpp as int;
    let curr = buf_row(raw, rb, y);
    let prev = row_above(raw, rb, y);
    let ft = picked_filter(strategy, curr, prev, bpp);
    seq![ft.byte()] + filtered_row(ft, curr, prev, bpp)
}

/// The first `n` filtered rows.
pub open spec fn written_rows(
    raw: Seq<u8>,
    info: PngInfo,
    strategy: FilterStrategy,
    n: int,
) -> Seq<u8>
    decreases n,
{
    if n <= 0 {
        Seq::empty()
    } else {
        written_rows(raw, info, strategy, n - 1) + written_row(raw, info, strategy, n - 1)
    }
}

fn residual_total(row: &Vec<u8>) -> (r: u128)
    ensures
        r == residual_sum(row@),
{
    let mut sum: u128 = 0;
    let mut i: usize = 0;
    assert(row@.take(0) =~= Seq::<u8>::empty());
    while i < row.len()
        invariant
            i <= row@.len(),
            sum == residual_sum(row@.take(i as int)),
            sum <= 128 * i,
        decreases row@.len() - i,
    {
        proof {
            assert(row@.take(i + 1).drop_last() =~= row@.take(i as int));
        }
        let b: u8 = row[i];
        sum = sum + (if b < 128 {
            b as u128
        } else {
            256 - b as u128
        });
        i = i + 1;
    }
    assert(row@.take(row@.len() as int) =~= row@);
    sum
}

/// Trial every filter and return the one whose residuals have the smallest
/// sum of absolute signed values.
pub fn choose_min_sad(curr: &[u8], prev: &[u8], bpp: usize) -> (r: FilterType)
    requires
        curr@.len() == prev@.len(),
        bpp >= 1,
    ensures
        r == least_filter(curr@, prev@, bpp as int, 5),
{
    let mut best = FilterType::NoFilter;
    let mut best_sum: u128 = residual_total(&apply_filter(FilterType::NoFilter, curr, prev, bpp));
    let mut k: usize = 1;
    while k < 5
        invariant
            1 <= k <= 5,
            curr@.len() == prev@.len(),
            bpp >= 1,
            best == least_filter(curr@, prev@, bpp as int, k as int),
            best_sum == residual_sum(filtered_row(best, curr@, prev@, bpp as int)),
        decreases 5 - k,
    {
        let ft = FilterType::ALL[k];
        let sum: u128 = residual_total(&apply_filter(ft, curr, prev, bpp));
        if sum < best_sum {
            best_sum = sum;
            best = ft;
        }
        k = k + 1;
    }
    best
}

/// Apply PNG row filters forward: prepend a per-row [`FilterType`] and
/// store the filtered residuals, the inverse of [`unfilter`]. `raw` is a
/// contiguous `h * (row_stride - 1)` buffer; the result is a
/// `h * row_stride` stream ready to deflate.
pub fn filter(raw: &[u8], info: &PngInfo, strategy: FilterStrategy) -> (r: Vec<u8>)
    requires
        info.wf(),
        raw@.len() >= info.height * info.row_bytes(),
    ensures
        r@ == written_rows(raw@, *info, strategy, info.height as int),
{
    let row_bytes: usize = info.row_stride - 1;
    let bpp: usize = info.bpp;
    let mut out: Vec<u8> = Vec::new();
    let zero: Vec<u8> = zero_row(row_bytes);
    let mut y: u32 = 0;
    let mut off: usize = 0;
    let len: usize = raw.len();
    while y < info.height
        invariant
            y <= info.height,
            info.wf(),
            row_bytes == info.row_bytes(),
            bpp == info.bpp,
            len == raw@.len(),
            len >= info.height * info.row_bytes(),
            zero@ == Seq::new(row_bytes as nat, |i: int| 0u8),
            off == y * row_bytes,
            out@ == written_rows(raw@, *info, strategy, y as int),
        decreases info.height - y,
    {
        proof {
            lemma_row_inside(y as int, info.height as int, row_bytes as int);
            if y > 0 {
                lemma_row_inside(y - 1, info.height as int, row_bytes as int);
            }
        }
        let curr = vstd::slice::slice_subrange(raw, off, off + row_bytes);
        let prev: &[u8] = if y == 0 {
            zero.as_slice()
        } else {
            vstd::slice::slice_subrange(raw, off - row_bytes, off)
        };
        let ft = match strategy {
            FilterStrategy::Fixed(ft) => ft,
            FilterStrategy::MinSad => choose_min_sad(curr, prev, bpp),
        };
        let ghost before = out@;
        out.push(ft.as_byte());
        let row: Vec<u8> = apply_filter(ft, curr, prev, bpp);
        out.extend_from_slice(row.as_slice());
        proof {
            assert(prev@ =~= row_above(raw@, row_bytes as int, y as int));
            assert(out@ =~= before + written_row(raw@, *info, strategy, y as int));
        }
        off = off + row_bytes;
        y = y + 1;
    }
    out
}

proof fn lemma_written_rows(raw: Seq<u8>, info: PngInfo, strategy: FilterStrategy, n: int)
    requires
        info.wf(),
        0 <= n <= info.height,
        raw.len() == info.height * info.row_bytes(),
    ensures
        written_rows(raw, info, strategy, n).len() == n * info.row_stride,
        forall|y: int|
            0 <= y < n ==> #[trigger] row_ok(
                written_rows(raw, info, strategy, n),
                info.row_stride as int,
                info.bpp as int,
                raw,
                y,
            ),
    decreases n,
{
    let stride = info.row_stride as int;
    let rb = stride - 1;
    let bpp = info.bpp as int;
    if n > 0 {
        lemma_written_rows(raw, info, strategy, n - 1);
        let before = written_rows(raw, info, strategy, n - 1);
        let last = written_row(raw, info, strategy, n - 1);
        let all = written_rows(raw, info, strategy, n);
        lemma_row_inside(n - 1, info.height as int, rb);
        lemma_row_inside(n - 1, n, stride);
        assert(last.len() == stride);
        assert forall|y: int| 0 <= y < n implies #[trigger] row_ok(all, stride, bpp, raw, y) by {
            lemma_row_inside(y, n, stride);
            if y < n - 1 {
                lemma_rows_apart(y, n - 1, stride);
                assert(row_ok(before, stride, bpp, raw, y));
                assert(stream_row(all, stride, y) =~= stream_row(before, stride, y));
            } else {
                let curr = buf_row(raw, rb, y);
                let prev = row_above(raw, rb, y);
                let ft = picked_filter(strategy, curr, prev, bpp);
                assert(stream_row(all, stride, y) =~= filtered_row(ft, curr, prev, bpp));
                law_row_round_trip(ft, curr, prev, bpp);
            }
        }
    } else {
        assert(0 * stride == 0);
    }
}

pub proof fn lemma_no_bad_row(stream: Seq<u8>, info: PngInfo, buf: Seq<u8>, y: int)
    requires
        is_raw_of(stream, info, buf),
        0 <= y,
    ensures
        first_bad_row(stream, info.row_stride as int, info.height as int, y) is None,
    decreases info.height - y,
{
    if y < info.height {
        assert(row_ok(stream, info.row_stride as int, info.bpp as int, buf, y));
        lemma_no_bad_row(stream, info, buf, y + 1);
    }
}

/// Filtering and unfiltering is the identity, whatever filters are picked: the
/// filtered stream stands for the raw buffer, for no other, and has no bad row.
pub proof fn law_filter_round_trip(raw: Seq<u8>, info: PngInfo, strategy: FilterStrategy)
    requires
        info.wf(),
        raw.len() == info.height * info.row_bytes(),
    ensures
        ({
            let stream = written_rows(raw, info, strategy, info.height as int);
            &&& stream.len() == info.height * info.row_stride
            &&& is_raw_of(stream, info, raw)
            &&& first_bad_row(stream, info.row_stride as int, info.height as int, 0) is None
            &&& raw_of(stream, info) == raw
            &&& raw.len() <= u32::MAX ==> unfilter_of(stream, info) == Ok::<_, FilterError>(raw)
        }),
{
    let stream = written_rows(raw, info, strategy, info.height as int);
    lemma_written_rows(raw, info, strategy, info.height as int);
    lemma_no_bad_row(stream, info, raw, 0);
    assert(is_raw_of(stream, info, raw));
    lemma_raw_unique(stream, info, raw_of(stream, info), raw);
}

} // verus!
