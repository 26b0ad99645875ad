//! Pixel and byte coordinates.

use pngbend::coords::{ImgGeom, OutPos, PixelXY};
use pngbend::png::{ColorType, PngInfo};
use pngbend::Raster;

fn round_trips(info: PngInfo) {
    let r = Raster::new(info);
    // Every screen pixel maps to a byte that maps back to it.
    for y in 0..info.height {
        for x in 0..info.width {
            let xy = PixelXY::new(x, y);
            let pos = r.xy_to_out(xy);
            assert_eq!(r.out_to_xy(pos), Some(xy), "xy {x},{y}");
        }
    }
}

#[test]
fn coords_out_to_xy_filter_byte_returns_none() {
    let g = PngInfo::new(4, 3, 8, ColorType::Rgb);
    assert_eq!(g.out_to_xy(OutPos(0)), None);
    assert_eq!(g.out_to_xy(OutPos(g.row_stride as u32)), None);
}

#[test]
fn coords_out_to_xy_round_trips_via_xy_to_out() {
    let g = PngInfo::new(7, 5, 8, ColorType::Rgba);
    for y in 0..g.height {
        for x in 0..g.width {
            let xy = PixelXY::new(x, y);
            let pos = g.xy_to_out(xy);
            assert_eq!(g.out_to_xy(pos), Some(xy));
        }
    }
}

#[test]
fn coords_out_to_xy_past_image_returns_none() {
    let g = PngInfo::new(4, 3, 8, ColorType::Rgb);
    // pos at end of last row + 1 → row >= height
    let past = OutPos(g.height * g.row_stride as u32);
    assert!(g.out_to_xy(past).is_none());
}

#[test]
fn one_bit_greyscale_packs_eight_pixels_per_byte() {
    // 1-bit greyscale, width 16, height 1. Row is 2 data bytes plus filter.
    let g = PngInfo::new(16, 1, 1, ColorType::Greyscale);
    assert_eq!(g.bpp, 1);
    assert_eq!(g.row_stride, 3);
    assert_eq!(g.pixels_per_byte(), 8);
    // Every pixel in 0..8 collapses to byte 1 (first data byte).
    for x in 0..8 {
        assert_eq!(g.xy_to_out(PixelXY::new(x, 0)), OutPos(1));
    }
    // Pixels 8..16 land in byte 2.
    for x in 8..16 {
        assert_eq!(g.xy_to_out(PixelXY::new(x, 0)), OutPos(2));
    }
    // out_to_xy returns the first pixel of each byte's cluster.
    assert_eq!(g.out_to_xy(OutPos(1)), Some(PixelXY::new(0, 0)));
    assert_eq!(g.out_to_xy(OutPos(2)), Some(PixelXY::new(8, 0)));
}

#[test]
fn four_bit_indexed_packs_two_pixels_per_byte() {
    // 4-bit indexed, width 5, height 1. 5 pixels = 3 bytes (ceil).
    let g = PngInfo::new(5, 1, 4, ColorType::Indexed);
    assert_eq!(g.bpp, 1);
    assert_eq!(g.row_stride, 4);
    assert_eq!(g.pixels_per_byte(), 2);
    assert_eq!(g.xy_to_out(PixelXY::new(0, 0)), OutPos(1));
    assert_eq!(g.xy_to_out(PixelXY::new(1, 0)), OutPos(1));
    assert_eq!(g.xy_to_out(PixelXY::new(2, 0)), OutPos(2));
    assert_eq!(g.xy_to_out(PixelXY::new(4, 0)), OutPos(3));
}

#[test]
fn out_to_xy_filter_byte_returns_none() {
    let g = ImgGeom::new(4, 3, 3);
    assert_eq!(g.out_to_xy(OutPos(0)), None);
    assert_eq!(g.out_to_xy(OutPos(g.row_stride)), None);
}

#[test]
fn out_to_xy_round_trips_via_xy_to_out() {
    let g = ImgGeom::new(7, 5, 4);
    for y in 0..g.h {
        for x in 0..g.w {
            let xy = PixelXY::new(x, y);
            let pos = g.xy_to_out(xy);
            assert_eq!(g.out_to_xy(pos), Some(xy));
        }
    }
}

#[test]
fn out_to_xy_past_image_returns_none() {
    let g = ImgGeom::new(4, 3, 3);
    // pos at end of last row + 1 → row >= h
    let past = OutPos(g.h * g.row_stride);
    assert!(g.out_to_xy(past).is_none());
}

#[test]
fn progressive_matches_pnginfo() {
    let info = PngInfo::new(7, 5, 8, ColorType::Rgb);
    let r = Raster::new(info);
    for pos in (0..(info.height as usize * info.row_stride) as u32).map(OutPos) {
        assert_eq!(r.out_to_xy(pos), info.out_to_xy(pos));
    }
    round_trips(info);
}

#[test]
fn interlaced_round_trips_pixels() {
    for (w, h, ct, bd) in [
        (2, 2, ColorType::Greyscale, 8),
        (8, 8, ColorType::Rgb, 8),
        (13, 9, ColorType::Rgba, 8),
        (5, 7, ColorType::GreyAlpha, 16),
    ] {
        let mut info = PngInfo::new(w, h, bd, ct);
        info.interlaced = true;
        round_trips(info);
    }
}
