//! The zlib wrapper, and the Adam7 pass sizes.

use pngbend::png::interlace::{interlaced_output_len, pass_dims};
use pngbend::png::zlib::{
    adler32, build_zlib_stream, parse_zlib_stream, ZlibError, ZLIB_DEFAULT_HEADER,
};
use pngbend::png::{ColorType, PngInfo, Warning};

/// A zlib IDAT with the default header and a correct Adler-32 over `decoded`.
fn build_idat(decoded: &[u8], deflate: &[u8]) -> Vec<u8> {
    build_zlib_stream(deflate, ZLIB_DEFAULT_HEADER, decoded)
}

#[test]
fn adler32_known_vectors() {
    assert_eq!(adler32(b""), 1);
    assert_eq!(adler32(b"a"), 0x00620062);
    assert_eq!(adler32(b"Wikipedia"), 0x11E60398);
}

#[test]
fn adler32_handles_long_input() {
    // > 5552 bytes: exercise the batch boundary
    let data = vec![0xAAu8; 6000];
    let computed = adler32(&data);
    const MOD: u32 = 65521;
    let mut s1: u32 = 1;
    let mut s2: u32 = 0;
    for &b in &data {
        s1 = (s1 + b as u32) % MOD;
        s2 = (s2 + s1) % MOD;
    }
    assert_eq!(computed, (s2 << 16) | s1);
}

#[test]
fn parse_zlib_stream_accepts_canonical_header() {
    let idat = build_idat(b"hello", b"\x00\x01\x02");
    let parsed = parse_zlib_stream(&idat).expect("valid header");
    assert_eq!(parsed.header, [0x78, 0x9C]);
    assert_eq!(parsed.deflate_buf, b"\x00\x01\x02");
    assert_eq!(parsed.stored_adler, adler32(b"hello"));
    assert!(parsed.warnings.is_empty());
}

#[test]
fn parse_zlib_stream_rejects_truncated() {
    let err = parse_zlib_stream(&[0x78]).unwrap_err();
    assert!(matches!(err, ZlibError::Truncated { actual: 1 }));
}

#[test]
fn parse_zlib_stream_rejects_non_deflate_cm() {
    // CM=1 (reserved), CINFO=7. CMF = 0x71. Any FLG making FCHECK pass.
    let cmf = 0x71u8;
    let flg = ((31 - (u16::from(cmf) * 256) % 31) % 31) as u8;
    let mut idat = vec![cmf, flg];
    idat.extend_from_slice(&[0u8; 8]);
    let err = parse_zlib_stream(&idat).unwrap_err();
    assert!(
        matches!(err, ZlibError::BadCompressionMethod { cmf: 0x71 }),
        "got {err:?}"
    );
}

#[test]
fn parse_zlib_stream_surfaces_bad_fcheck_as_warning() {
    // CMF=0x78 valid, FLG=0x00 makes (0x78*256+0)%31 != 0. The
    // stream should still parse: FCHECK is an integrity check on
    // header bytes whose values are otherwise sane.
    let mut idat = vec![0x78, 0x00];
    idat.extend_from_slice(&[0u8; 8]);
    let parsed = parse_zlib_stream(&idat).expect("FCHECK is a warning, not an error");
    assert_eq!(parsed.warnings.len(), 1);
    assert_eq!(parsed.warnings[0], Warning::ZlibHeaderChecksum);
}

#[test]
fn parse_zlib_stream_rejects_fdict_set() {
    // CMF=0x78, FLG with FDICT bit (1<<5) set, FCHECK adjusted to pass.
    let cmf = 0x78u8;
    let mut flg = 0x20u8; // FDICT
    let target = 31 - (u16::from(cmf) * 256 + u16::from(flg & 0xE0)) % 31;
    flg = (flg & 0xE0) | (target % 31) as u8;
    assert_eq!((u16::from(cmf) * 256 + u16::from(flg)) % 31, 0);
    let mut idat = vec![cmf, flg];
    idat.extend_from_slice(&[0u8; 8]);
    let err = parse_zlib_stream(&idat).unwrap_err();
    assert!(matches!(err, ZlibError::FdictSet), "got {err:?}");
}

#[test]
fn pass_dims_for_a_2x2_image() {
    // Only passes 1, 6, 7 are non-empty for 2x2.
    let dims: Vec<(u32, u32)> = (0..7).map(|p| pass_dims(2, 2, p)).collect();
    assert_eq!(dims[0], (1, 1)); // pass 1: (0,0)
    assert_eq!(dims[1], (0, 1)); // pass 2: x0=4 > width
    assert_eq!(dims[5], (1, 1)); // pass 6: (1,0)
    assert_eq!(dims[6], (2, 1)); // pass 7: (0,1),(1,1)
}

#[test]
fn interlaced_len_sums_nonempty_passes() {
    let info = PngInfo::new(2, 2, 8, ColorType::Greyscale);
    // pass1 grey8 1x1: stride 2, 1 row = 2; pass6 1x1: 2; pass7 2x1:
    // stride 3, 1 row = 3. Total 7.
    assert_eq!(interlaced_output_len(&info), 7);
}
