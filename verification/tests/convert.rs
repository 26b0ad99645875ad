//! Pixel conversion to and from RGBA8.

use pngbend::png::convert::{decode_palette, pack, to_rgba8, to_rgba8_rows_into, ConvertError};
use pngbend::png::{ColorType, PngInfo};

fn info(w: u32, h: u32, color: ColorType, bit_depth: u8) -> PngInfo {
    PngInfo::new(w, h, bit_depth, color)
}

/// `to_rgba8(pack(rgba)) == rgba` for every byte-aligned non-indexed
/// type, given an input consistent with the target (grey has R==G==B,
/// alpha-less types have A==255).
#[test]
fn pack_then_decode_round_trips() {
    for (color, depth) in [
        (ColorType::Rgba, 8),
        (ColorType::Rgb, 8),
        (ColorType::Greyscale, 8),
        (ColorType::GreyAlpha, 8),
        (ColorType::Rgba, 16),
        (ColorType::Rgb, 16),
        (ColorType::Greyscale, 16),
        (ColorType::GreyAlpha, 16),
    ] {
        let (w, h) = (4usize, 3usize);
        let g = info(w as u32, h as u32, color, depth);
        let has_alpha = matches!(color, ColorType::Rgba | ColorType::GreyAlpha);
        let is_grey = matches!(color, ColorType::Greyscale | ColorType::GreyAlpha);
        let rgba: Vec<u8> = (0..w * h)
            .flat_map(|i| {
                let v = (i * 9 + 1) as u8;
                let (r, gc, b) = if is_grey {
                    (v, v, v)
                } else {
                    (v, v ^ 0x5A, v ^ 0x33)
                };
                let a = if has_alpha { (i * 4 + 2) as u8 } else { 255 };
                [r, gc, b, a]
            })
            .collect();
        let raw = pack(&rgba, &g).unwrap();
        assert_eq!(raw.len(), h * (g.row_stride - 1));
        let back = to_rgba8(&raw, &g, None).unwrap();
        assert_eq!(back, rgba, "{color:?} {depth}-bit");
    }
}

#[test]
fn pack_rejects_indexed_and_subbyte() {
    let rgba = vec![0u8; 4 * 4];
    assert!(matches!(
        pack(&rgba, &info(2, 2, ColorType::Indexed, 8)),
        Err(ConvertError::UnsupportedDepth { .. })
    ));
    assert!(matches!(
        pack(&rgba, &info(2, 2, ColorType::Greyscale, 4)),
        Err(ConvertError::UnsupportedDepth { .. })
    ));
}

#[test]
fn rgba8_passthrough() {
    let unf = vec![1, 2, 3, 4, 5, 6, 7, 8];
    let out = to_rgba8(&unf, &info(2, 1, ColorType::Rgba, 8), None).unwrap();
    assert_eq!(out, unf);
}

#[test]
fn rgb8_adds_opaque_alpha() {
    let unf = vec![10, 20, 30, 40, 50, 60];
    let out = to_rgba8(&unf, &info(2, 1, ColorType::Rgb, 8), None).unwrap();
    assert_eq!(out, vec![10, 20, 30, 255, 40, 50, 60, 255]);
}

#[test]
fn grey8_replicates_to_rgb_with_opaque_alpha() {
    let unf = vec![128];
    let out = to_rgba8(&unf, &info(1, 1, ColorType::Greyscale, 8), None).unwrap();
    assert_eq!(out, vec![128, 128, 128, 255]);
}

#[test]
fn grey_alpha_8() {
    let unf = vec![64, 200];
    let out = to_rgba8(&unf, &info(1, 1, ColorType::GreyAlpha, 8), None).unwrap();
    assert_eq!(out, vec![64, 64, 64, 200]);
}

#[test]
fn indexed_8_uses_palette() {
    let unf = vec![0, 1, 2];
    let pal = vec![[10, 20, 30, 255], [40, 50, 60, 200], [70, 80, 90, 0]];
    let out = to_rgba8(&unf, &info(3, 1, ColorType::Indexed, 8), Some(&pal)).unwrap();
    assert_eq!(out, vec![10, 20, 30, 255, 40, 50, 60, 200, 70, 80, 90, 0]);
}

#[test]
fn indexed_without_palette_errors() {
    let unf = vec![0];
    let err = to_rgba8(&unf, &info(1, 1, ColorType::Indexed, 8), None).unwrap_err();
    assert!(matches!(err, ConvertError::MissingPalette));
}

#[test]
fn one_bit_greyscale_unpacks_msb_first() {
    // One byte 0b10110001 = pixels 1, 0, 1, 1, 0, 0, 0, 1.
    let unf = vec![0b1011_0001];
    let out = to_rgba8(&unf, &info(8, 1, ColorType::Greyscale, 1), None).unwrap();
    let lumas: Vec<u8> = out.chunks_exact(4).map(|p| p[0]).collect();
    assert_eq!(lumas, vec![255, 0, 255, 255, 0, 0, 0, 255]);
}

#[test]
fn two_bit_greyscale_scales_to_eight_bit() {
    // One byte 0b00_01_10_11 = samples 0, 1, 2, 3 → lumas 0, 85, 170, 255.
    let unf = vec![0b00_01_10_11];
    let out = to_rgba8(&unf, &info(4, 1, ColorType::Greyscale, 2), None).unwrap();
    let lumas: Vec<u8> = out.chunks_exact(4).map(|p| p[0]).collect();
    assert_eq!(lumas, vec![0, 85, 170, 255]);
}

#[test]
fn four_bit_greyscale_scales_to_eight_bit() {
    // One byte 0xA5 → high nibble 0xA → luma 0xAA, low nibble 0x5 → 0x55.
    let unf = vec![0xA5];
    let out = to_rgba8(&unf, &info(2, 1, ColorType::Greyscale, 4), None).unwrap();
    let lumas: Vec<u8> = out.chunks_exact(4).map(|p| p[0]).collect();
    assert_eq!(lumas, vec![0xAA, 0x55]);
}

#[test]
fn one_bit_indexed_uses_palette() {
    // Byte 0b1010_0000, pal[0]=red, pal[1]=blue → R B R B R R R R.
    let unf = vec![0b1010_0000];
    let pal = vec![[255, 0, 0, 255], [0, 0, 255, 255]];
    let out = to_rgba8(&unf, &info(8, 1, ColorType::Indexed, 1), Some(&pal)).unwrap();
    // First pixel comes from bit 7 (MSB) = 1 → blue.
    assert_eq!(&out[0..4], &[0, 0, 255, 255]);
    assert_eq!(&out[4..8], &[255, 0, 0, 255]);
    assert_eq!(&out[8..12], &[0, 0, 255, 255]);
}

#[test]
fn four_bit_indexed_uses_palette() {
    let unf = vec![0x12];
    let mut pal = vec![[0, 0, 0, 255]; 16];
    pal[1] = [10, 20, 30, 255];
    pal[2] = [40, 50, 60, 255];
    let out = to_rgba8(&unf, &info(2, 1, ColorType::Indexed, 4), Some(&pal)).unwrap();
    assert_eq!(&out[0..4], &[10, 20, 30, 255]); // high nibble = 1
    assert_eq!(&out[4..8], &[40, 50, 60, 255]); // low nibble = 2
}

#[test]
fn sub_byte_row_padding_handled() {
    // 9-pixel 1-bit row → 2 bytes (last byte has 7 padding bits).
    // Pixels: 1 0 1 0 1 0 1 0 | 1 ? ? ? ? ? ? ?
    let unf = vec![0b1010_1010, 0b1000_0000];
    let out = to_rgba8(&unf, &info(9, 1, ColorType::Greyscale, 1), None).unwrap();
    let lumas: Vec<u8> = out.chunks_exact(4).map(|p| p[0]).collect();
    assert_eq!(lumas, vec![255, 0, 255, 0, 255, 0, 255, 0, 255]);
}

#[test]
fn rgb16_takes_high_byte() {
    // 1 RGB 16-bit pixel: R=0x1234, G=0x5678, B=0x9ABC. Stored big-endian.
    let unf = vec![0x12, 0x34, 0x56, 0x78, 0x9A, 0xBC];
    let out = to_rgba8(&unf, &info(1, 1, ColorType::Rgb, 16), None).unwrap();
    assert_eq!(out, vec![0x12, 0x56, 0x9A, 255]);
}

#[test]
fn truncated_input_errors() {
    let unf = vec![1, 2];
    let err = to_rgba8(&unf, &info(2, 1, ColorType::Rgba, 8), None).unwrap_err();
    assert!(matches!(err, ConvertError::TruncatedInput { .. }));
}

#[test]
fn decode_palette_without_trns_has_opaque_alpha() {
    let plte = vec![1, 2, 3, 4, 5, 6];
    let pal = decode_palette(&plte, None);
    assert_eq!(pal, vec![[1, 2, 3, 255], [4, 5, 6, 255]]);
}

#[test]
fn decode_palette_with_trns_sets_alpha() {
    let plte = vec![10, 20, 30, 40, 50, 60];
    let trns = vec![100, 200];
    let pal = decode_palette(&plte, Some(&trns));
    assert_eq!(pal, vec![[10, 20, 30, 100], [40, 50, 60, 200]]);
}

#[test]
fn rows_convert_into_a_longer_buffer() {
    let g = info(1, 2, ColorType::Greyscale, 8);
    let mut rgba = vec![1u8; 11];
    to_rgba8_rows_into(&[5, 6], &g, None, &mut rgba, &[1]).unwrap();
    assert_eq!(rgba, vec![1, 1, 1, 1, 6, 6, 6, 255, 1, 1, 1]);
    // A buffer that ends behind the rows asked for will do.
    let mut short = vec![1u8; 4];
    to_rgba8_rows_into(&[5, 6], &g, None, &mut short, &[0]).unwrap();
    assert_eq!(short, vec![5, 5, 5, 255]);
    // What cannot be converted leaves any buffer alone.
    let r = to_rgba8_rows_into(&[5], &g, None, &mut short, &[0, 1]);
    assert_eq!(r, Err(ConvertError::TruncatedInput { expected: 2, actual: 1 }));
    assert_eq!(short, vec![5, 5, 5, 255]);
}
