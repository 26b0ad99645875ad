//! Row filters, both ways.

use pngbend::png::filter::{
    filter, paeth_predictor, unfilter, unfilter_rows_into, FilterError, FilterStrategy, FilterType,
};
use pngbend::png::{ColorType, PngInfo};

fn info(w: u32, h: u32, color: ColorType, bit_depth: u8) -> PngInfo {
    PngInfo::new(w, h, bit_depth, color)
}

#[test]
fn filter_none_passes_through() {
    // 2×1 RGB image, filter=0, raw bytes unchanged.
    let stream = vec![0, 10, 20, 30, 40, 50, 60];
    let info = info(2, 1, ColorType::Rgb, 8);
    let out = unfilter(&stream, &info).unwrap();
    assert_eq!(out, vec![10, 20, 30, 40, 50, 60]);
}

#[test]
fn filter_sub_recovers_left_deltas() {
    // Original row: [10, 20, 30, 40] bpp=2. Sub stores differences from
    // bpp-byte-left: [10, 20, 30-10, 40-20] = [10, 20, 20, 20].
    let stream = vec![1, 10, 20, 20, 20];
    let info = info(2, 1, ColorType::GreyAlpha, 8);
    let out = unfilter(&stream, &info).unwrap();
    assert_eq!(out, vec![10, 20, 30, 40]);
}

#[test]
fn filter_up_recovers_from_prev_row() {
    // Row 0 None: [5, 10]. Row 1 Up (filter=2) stored as [1, 3] →
    // recovered raw[i] = stored[i] + prev[i] = [1+5, 3+10] = [6, 13].
    let stream = vec![0, 5, 10, 2, 1, 3];
    let info = info(2, 2, ColorType::Greyscale, 8);
    let out = unfilter(&stream, &info).unwrap();
    assert_eq!(out, vec![5, 10, 6, 13]);
}

#[test]
fn filter_average_matches_spec() {
    // 1-pixel-wide grey image: row 0 = [10], row 1 Average stored as x
    // where x = raw - floor((left + up)/2) = raw - floor((0+10)/2) = raw - 5.
    // If raw=20, stored=15.
    let stream = vec![0, 10, 3, 15];
    let info = info(1, 2, ColorType::Greyscale, 8);
    let out = unfilter(&stream, &info).unwrap();
    assert_eq!(out, vec![10, 20]);
}

#[test]
fn filter_paeth_matches_spec() {
    // Paeth on a monotone increasing pattern: predictor picks best of
    // (left, up, upleft). For a flat image, raw=left=up=upleft, so
    // predictor=any and filtered byte = 0.
    let stream = vec![0, 42, 42, 4, 0, 0];
    let info = info(2, 2, ColorType::Greyscale, 8);
    let out = unfilter(&stream, &info).unwrap();
    assert_eq!(out, vec![42, 42, 42, 42]);
}

#[test]
fn filter_rejects_unknown_type() {
    let stream = vec![99, 0];
    let info = info(1, 1, ColorType::Greyscale, 8);
    let err = unfilter(&stream, &info).unwrap_err();
    assert!(matches!(err, FilterError::UnknownFilter { filter: 99, .. }));
}

#[test]
fn filter_rejects_truncated_row() {
    let stream = vec![0, 1]; // claims a 1×2 image (2 rows of 2 bytes each)
    let info = info(1, 2, ColorType::Greyscale, 8);
    let err = unfilter(&stream, &info).unwrap_err();
    assert!(matches!(err, FilterError::TruncatedRow { .. }));
}

#[test]
fn paeth_predictor_picks_closest() {
    // p = a + b - c, then pick whichever of (a,b,c) is closest to p with
    // ties broken a, b, c.
    assert_eq!(paeth_predictor(1, 2, 3), 1); // p=0, pa=1, pb=2, pc=3 → a
    assert_eq!(paeth_predictor(5, 10, 7), 7); // p=8, pa=3, pb=2, pc=1 → c
    assert_eq!(paeth_predictor(10, 10, 10), 10); // all equal → a
    assert_eq!(paeth_predictor(0, 255, 0), 255); // b wins cleanly
}

#[test]
fn filter_then_unfilter_round_trips_every_fixed_type() {
    // A gradient image exercises every predictor. RGB 8-bit, 5×4.
    let g = info(5, 4, ColorType::Rgb, 8);
    let row_bytes = g.row_stride - 1;
    let raw: Vec<u8> = (0..g.height as usize * row_bytes)
        .map(|i| (i * 7 + 3) as u8)
        .collect();
    for ft in FilterType::ALL {
        let stream = filter(&raw, &g, FilterStrategy::Fixed(ft));
        assert_eq!(stream.len(), g.height as usize * g.row_stride);
        assert!(stream.chunks(g.row_stride).all(|r| r[0] == ft.as_byte()));
        assert_eq!(unfilter(&stream, &g).unwrap(), raw, "filter {ft:?}");
    }
}

#[test]
fn filter_min_sad_round_trips_and_stays_valid() {
    // MinSad picks per row; the result must still invert to the original
    // and every chosen filter byte must be a legal 0..=4.
    for (w, h, color, depth) in [
        (4, 3, ColorType::Rgba, 8),
        (7, 5, ColorType::Greyscale, 8),
        (3, 3, ColorType::Rgb, 16),
    ] {
        let g = info(w, h, color, depth);
        let row_bytes = g.row_stride - 1;
        let raw: Vec<u8> = (0..h as usize * row_bytes)
            .map(|i| (i * i + 11) as u8)
            .collect();
        let stream = filter(&raw, &g, FilterStrategy::MinSad);
        assert!(stream.chunks(g.row_stride).all(|r| r[0] <= 4));
        assert_eq!(unfilter(&stream, &g).unwrap(), raw);
    }
}

#[test]
fn a_bad_row_keeps_what_stands_behind_it() {
    // One byte per row; row 1 has no such filter.
    let g = info(1, 3, ColorType::Greyscale, 8);
    let stream = vec![0, 5, 9, 6, 0, 7];
    let mut unfiltered = vec![1, 2, 3];
    let r = unfilter_rows_into(&stream, &g, &mut unfiltered, 0, &[true, true, true]);
    assert_eq!(r, Err(FilterError::UnknownFilter { row: 1, filter: 9 }));
    assert_eq!(unfiltered, vec![5, 2, 3]);
}
