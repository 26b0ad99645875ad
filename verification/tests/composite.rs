//! Overlay blending.

use pngbend::composite::{
    composite_ba255_scalar, composite_ba255_simd, composite_into, composite_rgba,
    composite_rows_into,
};

fn rgba(r: u8, g: u8, b: u8, a: u8) -> [u8; 4] {
    [r, g, b, a]
}

/// Scalar reference implementation. The SIMD body must agree with
/// this byte-for-byte.
fn reference_ba255(base: &[u8], overlay: &[u8]) -> Vec<u8> {
    let mut out = vec![0u8; base.len()];
    composite_ba255_scalar(base, overlay, &mut out, 0, base.len());
    out
}

#[test]
fn simd_matches_scalar_four_pixels() {
    let base = vec![
        100, 150, 200, 255, // pixel 0
        50, 75, 125, 255, // pixel 1
        10, 20, 30, 255, // pixel 2
        200, 220, 240, 255, // pixel 3
    ];
    let overlay = vec![
        255, 0, 0, 128, // pixel 0: red at 50% alpha
        0, 255, 0, 64, // pixel 1: green at ~25%
        0, 0, 255, 200, // pixel 2: blue at ~78%
        128, 128, 128, 0, // pixel 3: transparent overlay
    ];
    let mut simd_out = Vec::new();
    composite_into(&base, &overlay, &mut simd_out);
    assert_eq!(simd_out, reference_ba255(&base, &overlay));
}

#[test]
fn simd_handles_oa_zero_and_255() {
    // Ensure edge lanes (fully opaque, fully transparent) produce the
    // right extremes: opaque → overlay, transparent → base.
    let base = [10, 20, 30, 255, 40, 50, 60, 255];
    let overlay = [200, 210, 220, 255, 100, 110, 120, 0];
    // Scalar oracle, processed end-to-end via the SIMD path's tail
    // scalar (since n_chunks = 0 for 2 pixels).
    let mut out = vec![0u8; 8];
    composite_ba255_simd(&base, &overlay, &mut out, 0, 8);
    // Pixel 0: overlay opaque → overlay RGB, alpha=255.
    assert_eq!(&out[0..4], &rgba(200, 210, 220, 255));
    // Pixel 1: overlay transparent → base RGB, alpha=255.
    assert_eq!(&out[4..8], &rgba(40, 50, 60, 255));
}

#[test]
fn simd_respects_tail_not_multiple_of_four() {
    // 5 pixels: first 4 go through SIMD body, last one through scalar tail.
    let base = vec![1u8; 5 * 4];
    let overlay = vec![2u8; 5 * 4];
    // Force overlay alpha to 128 on every pixel.
    let mut o = overlay.clone();
    for i in 0..5 {
        o[i * 4 + 3] = 128;
    }
    let mut out = Vec::new();
    composite_into(&base, &o, &mut out);
    let ref_out = reference_ba255(&base, &o);
    assert_eq!(out, ref_out);
}

#[test]
fn rows_composite_only_touches_listed_rows() {
    // 2 rows × 4 pixels, composite only row 1.
    let w = 4u32;
    let base = vec![10u8; 8 * 4];
    let overlay = vec![200u8; 8 * 4];
    let mut out = base.clone(); // pretend prior-frame composite
    composite_rows_into(&base, &overlay, &mut out, w, &[1]);
    // Row 0 unchanged.
    assert_eq!(&out[..16], &base[..16]);
    // Row 1 composited.
    let mut ref_row = vec![0u8; 16];
    composite_ba255_scalar(&base[16..32], &overlay[16..32], &mut ref_row, 0, 16);
    assert_eq!(&out[16..32], &ref_row[..]);
}
