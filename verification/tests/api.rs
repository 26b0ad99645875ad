//! The codec's entry points.

use pngbend::api::limits::oversized;
use pngbend::deflate::{serialize_stored, DecodeError, Event};
use pngbend::png::convert::ConvertError;
use pngbend::png::{
    build_zlib_stream, write_chunks, Chunk, ChunkType, ColorType, FilterStrategy, FilterType,
    PngInfo, Warning,
};
use pngbend::{
    decode, decode_strict, decode_with_events, encode, EncodeOptions, Image, OutputFormat, PngError,
};

/// Hand-assemble a 2×2 8-bit RGB PNG whose IDAT is a single stored
/// (uncompressed) DEFLATE block, so the fixture needs no compressor.
/// Filter byte 0 (None) on each row means the raw output *is* the
/// filtered stream, so the pixel values round-trip verbatim.
fn tiny_rgb_png() -> (Vec<u8>, [[u8; 3]; 4]) {
    let px = [[10, 20, 30], [40, 50, 60], [70, 80, 90], [100, 110, 120]];
    // row_stride = 1 filter byte + 2 px * 3 bytes = 7; two rows.
    let mut output = Vec::new();
    for row in 0..2 {
        output.push(0); // filter: None
        for col in 0..2 {
            output.extend_from_slice(&px[row * 2 + col]);
        }
    }
    // Stored DEFLATE block: BFINAL=1, BTYPE=00 -> 0x01; then LEN / NLEN.
    let len = output.len() as u16;
    let mut deflate = vec![0x01];
    deflate.extend_from_slice(&len.to_le_bytes());
    deflate.extend_from_slice(&(!len).to_le_bytes());
    deflate.extend_from_slice(&output);
    let zlib = build_zlib_stream(&deflate, [0x78, 0x01], &output);

    (png_of(2, 2, [8, 2, 0, 0, 0], zlib), px)
}

/// A PNG of one IHDR, one IDAT and the end.
fn png_of(w: u32, h: u32, tail: [u8; 5], idat: Vec<u8>) -> Vec<u8> {
    let mut ihdr = Vec::new();
    ihdr.extend_from_slice(&w.to_be_bytes());
    ihdr.extend_from_slice(&h.to_be_bytes());
    ihdr.extend_from_slice(&tail);
    write_chunks(&[
        Chunk {
            typ: ChunkType::ihdr(),
            data: ihdr,
        },
        Chunk {
            typ: ChunkType::idat(),
            data: idat,
        },
        Chunk {
            typ: ChunkType::iend(),
            data: Vec::new(),
        },
    ])
}

const FORMATS: [OutputFormat; 8] = [
    OutputFormat::Rgba8,
    OutputFormat::Rgb8,
    OutputFormat::Grey8,
    OutputFormat::GreyAlpha8,
    OutputFormat::Rgba16,
    OutputFormat::Rgb16,
    OutputFormat::Grey16,
    OutputFormat::GreyAlpha16,
];

const FILTERS: [FilterStrategy; 6] = [
    FilterStrategy::MinSad,
    FilterStrategy::Fixed(FilterType::NoFilter),
    FilterStrategy::Fixed(FilterType::Sub),
    FilterStrategy::Fixed(FilterType::Up),
    FilterStrategy::Fixed(FilterType::Average),
    FilterStrategy::Fixed(FilterType::Paeth),
];

/// Image sizes with pixels from a small generator.
fn images() -> Vec<(u32, u32, Vec<u8>)> {
    let mut out = Vec::new();
    let mut seed = 0x2545_F491u32;
    for (w, h) in [(1u32, 1u32), (1, 40), (40, 1), (7, 5), (16, 16), (40, 40), (33, 17)] {
        let mut px = Vec::new();
        for _ in 0..w * h * 4 {
            seed ^= seed << 13;
            seed ^= seed >> 17;
            seed ^= seed << 5;
            px.push((seed >> 11) as u8);
        }
        out.push((w, h, px));
    }
    out
}

/// Force RGBA8 pixels to be lossless under `fmt`: grey formats need the three
/// colour channels equal, alpha-less formats need opaque alpha.
fn normalize(pixels: &mut [u8], fmt: OutputFormat) {
    let grey = matches!(
        fmt,
        OutputFormat::Grey8
            | OutputFormat::Grey16
            | OutputFormat::GreyAlpha8
            | OutputFormat::GreyAlpha16
    );
    let opaque = matches!(
        fmt,
        OutputFormat::Rgb8 | OutputFormat::Rgb16 | OutputFormat::Grey8 | OutputFormat::Grey16
    );
    for px in pixels.chunks_exact_mut(4) {
        if grey {
            px[1] = px[0];
            px[2] = px[0];
        }
        if opaque {
            px[3] = 255;
        }
    }
}

fn round_trip(w: u32, h: u32, pixels: Vec<u8>, format: OutputFormat, filter: FilterStrategy) {
    let img = Image {
        info: PngInfo::new(w, h, 8, ColorType::Rgba),
        palette: None,
        pixels: pixels.clone(),
        warnings: Vec::new(),
    };
    let options = EncodeOptions { format, filter };
    let bytes = encode(&img, &options).expect("encode");
    let back = decode(&bytes).expect("decode round-trip");
    assert_eq!(back.info.width, w);
    assert_eq!(back.info.height, h);
    assert_eq!(back.pixels, pixels, "{format:?} filter {filter:?}");
}

/// Every supported output format round-trips exactly, using the default
/// MinSad filter selection.
#[test]
fn encode_round_trips_every_format() {
    for (w, h, pixels) in images() {
        for format in FORMATS {
            let mut pixels = pixels.clone();
            normalize(&mut pixels, format);
            round_trip(w, h, pixels, format, FilterStrategy::MinSad);
        }
    }
}

/// Every filter strategy round-trips exactly on RGBA8 (the lossless-for-
/// any-input format), exercising all five predictors and the heuristic.
#[test]
fn encode_round_trips_every_filter() {
    for (w, h, pixels) in images() {
        for filter in FILTERS {
            round_trip(w, h, pixels.clone(), OutputFormat::Rgba8, filter);
        }
    }
}

#[test]
fn strict_decode_rejects_what_plain_decode_warns_of() {
    let (mut png, _) = tiny_rgb_png();
    assert!(decode_strict(&png).is_ok());
    let last = png.len() - 1;
    png[last] ^= 1; // IEND's CRC
    let img = decode(&png).expect("a stale CRC is a warning");
    assert_eq!(
        img.warnings,
        vec![Warning::ChunkCrc {
            typ: ChunkType::iend()
        }]
    );
    let err = decode_strict(&png).unwrap_err();
    assert!(matches!(err, PngError::BadChecksum(Warning::ChunkCrc { .. })), "got {err:?}");
}

#[test]
fn each_missing_part_has_its_error() {
    let none = write_chunks(&[]);
    assert!(matches!(decode(&none), Err(PngError::MissingIhdr)));
    let no_idat = png_of(1, 1, [8, 0, 0, 0, 0], Vec::new());
    assert!(matches!(decode(&no_idat), Err(PngError::MissingIdat)));
    let bad_zlib = png_of(1, 1, [8, 0, 0, 0, 0], vec![0x78]);
    assert!(matches!(decode(&bad_zlib), Err(PngError::Zlib(_))));
    let bad_deflate = png_of(
        1,
        1,
        [8, 0, 0, 0, 0],
        build_zlib_stream(&[0x07], [0x78, 0x9C], &[]),
    );
    assert!(matches!(decode(&bad_deflate), Err(PngError::Deflate(_))));
    let filter_9 = build_zlib_stream(&serialize_stored(&[9, 1]), [0x78, 0x9C], &[9, 1]);
    assert!(matches!(
        decode(&png_of(1, 1, [8, 0, 0, 0, 0], filter_9)),
        Err(PngError::Filter(_))
    ));
    let short = build_zlib_stream(&serialize_stored(&[0]), [0x78, 0x9C], &[0]);
    assert!(decode(&png_of(1, 1, [8, 0, 0, 0, 0], short)).is_err());
    let indexed = build_zlib_stream(&serialize_stored(&[0, 1]), [0x78, 0x9C], &[0, 1]);
    assert!(matches!(
        decode(&png_of(1, 1, [8, 3, 0, 0, 0], indexed)),
        Err(PngError::Convert(_))
    ));
    let cut = build_zlib_stream(&serialize_stored(&[0, 1, 0]), [0x78, 0x9C], &[0, 1, 0]);
    assert!(matches!(
        decode(&png_of(2, 2, [8, 0, 0, 0, 1], cut)),
        Err(PngError::InterlaceTruncated)
    ));
    let huge = png_of(0x7FFF_FFFF, 0x7FFF_FFFF, [8, 6, 0, 0, 0], vec![0x78]);
    assert!(matches!(
        decode(&huge),
        Err(PngError::OutputTooLarge { .. })
    ));
}

#[test]
fn encode_rejects_a_buffer_of_the_wrong_size() {
    let img = Image {
        info: PngInfo::new(2, 2, 8, ColorType::Rgba),
        palette: None,
        pixels: vec![0; 15],
        warnings: Vec::new(),
    };
    assert!(encode(&img, &EncodeOptions::default()).is_err());
    // However large the image would be.
    let img = Image {
        info: PngInfo::new(u32::MAX, u32::MAX, 8, ColorType::Rgba),
        ..img
    };
    assert!(matches!(
        encode(&img, &EncodeOptions::default()),
        Err(PngError::Convert(ConvertError::TruncatedInput { actual: 15, .. }))
    ));
}

#[test]
fn oversized_looks_at_the_declared_size() {
    assert!(!oversized(b"not a png"));
    assert!(!oversized(&png_of(100, 100, [8, 6, 0, 0, 0], Vec::new())));
    // 2048 rows of 1 + 2048 * 4 bytes are just past 16 MiB.
    assert!(oversized(&png_of(2048, 2048, [8, 6, 0, 0, 0], Vec::new())));
    assert!(!oversized(&png_of(2047, 2048, [8, 6, 0, 0, 0], Vec::new())));
    // Width and height alone decide nothing.
    assert!(!oversized(&png_of(65_536, 1, [8, 0, 0, 0, 0], Vec::new())));
    assert!(!oversized(&png_of(70_000, 1, [8, 0, 0, 0, 0], Vec::new())));
    assert!(oversized(&png_of(u32::MAX, u32::MAX, [16, 6, 0, 0, 0], Vec::new())));
}

#[test]
fn inflation_stops_at_the_declared_size() {
    // 8×1 at one bit per pixel: a filter byte and one byte of pixels.
    let fits = [0u8, 0xAA];
    let idat = build_zlib_stream(&serialize_stored(&fits), [0x78, 0x01], &fits);
    let png = png_of(8, 1, [1, 0, 0, 0, 0], idat);
    assert_eq!(decode(&png).expect("decode").pixels.len(), 32);
    let long = [0u8, 0xAA, 0];
    let idat = build_zlib_stream(&serialize_stored(&long), [0x78, 0x01], &long);
    let png = png_of(8, 1, [1, 0, 0, 0, 0], idat);
    for r in [decode(&png).map(|_| ()), decode_with_events(&png).map(|_| ())] {
        assert!(matches!(
            r,
            Err(PngError::Deflate(DecodeError::OutputTooLarge { decoded: 3, max: 2 }))
        ));
    }
}

#[test]
fn only_indexed_pictures_keep_a_palette() {
    let with_palette = |tail: [u8; 5], output: &[u8]| {
        let mut ihdr = vec![0, 0, 0, 1, 0, 0, 0, 1];
        ihdr.extend_from_slice(&tail);
        let idat = build_zlib_stream(&serialize_stored(output), [0x78, 0x01], output);
        write_chunks(&[
            Chunk {
                typ: ChunkType::ihdr(),
                data: ihdr,
            },
            Chunk {
                typ: ChunkType::plte(),
                data: vec![1, 2, 3, 4, 5, 6],
            },
            Chunk {
                typ: ChunkType::idat(),
                data: idat,
            },
            Chunk {
                typ: ChunkType::iend(),
                data: Vec::new(),
            },
        ])
    };
    let rgb = decode(&with_palette([8, 2, 0, 0, 0], &[0, 7, 8, 9])).expect("decode");
    assert_eq!(rgb.pixels, vec![7, 8, 9, 255]);
    assert!(rgb.palette.is_none());
    let indexed = decode(&with_palette([8, 3, 0, 0, 0], &[0, 1])).expect("decode");
    assert_eq!(indexed.pixels, vec![4, 5, 6, 255]);
    assert_eq!(indexed.palette.expect("palette").len(), 2);
}

#[test]
fn both_decodes_accept_the_same_files() {
    let (png, _) = tiny_rgb_png();
    let img = decode(&png).expect("decode");
    let gb = decode_with_events(&png).expect("decode_with_events");
    assert_eq!(gb.info, img.info);
    assert_eq!(gb.warnings, img.warnings);
    let rgba: Vec<u8> = gb
        .unfiltered
        .chunks(3)
        .flat_map(|p| [p[0], p[1], p[2], 255])
        .collect();
    assert_eq!(rgba, img.pixels);
    // Every cut of the file is refused by both or by neither.
    for n in 0..png.len() {
        assert_eq!(
            decode(&png[..n]).is_err(),
            decode_with_events(&png[..n]).is_err(),
            "{n} bytes"
        );
    }
}

#[test]
fn encoded_files_are_no_longer_than_stored_ones() {
    // 40 rows of 1 + 40 * 4 bytes of noise, in one stored block at most.
    let pixels: Vec<u8> = (0..40u32 * 40 * 4)
        .map(|i| (i.wrapping_mul(2_654_435_761) >> 24) as u8)
        .collect();
    let img = Image {
        info: PngInfo::new(40, 40, 8, ColorType::Rgba),
        palette: None,
        pixels,
        warnings: Vec::new(),
    };
    let bytes = encode(&img, &EncodeOptions::default()).expect("encode");
    assert!(bytes.len() <= 57 + 6 + 5 + 40 * 161);
}

#[test]
fn api_decode_yields_rgba_pixels() {
    let (png, px) = tiny_rgb_png();
    let img = decode(&png).expect("decode");
    assert_eq!(img.info.width, 2);
    assert_eq!(img.info.height, 2);
    assert_eq!(img.pixels.len(), 2 * 2 * 4);
    for (i, expect) in px.iter().enumerate() {
        let got = &img.pixels[i * 4..i * 4 + 4];
        assert_eq!(got, &[expect[0], expect[1], expect[2], 255], "pixel {i}");
    }
    assert!(img.warnings.is_empty(), "clean fixture: {:?}", img.warnings);
}

#[test]
fn api_decode_with_events_exposes_the_stream() {
    let (png, _) = tiny_rgb_png();
    let gb = decode_with_events(&png).expect("decode_with_events");
    // Stored block emits one literal event per output byte (14 bytes).
    assert_eq!(gb.deflate.output.len(), 14);
    assert_eq!(gb.deflate.events.len(), 14);
    assert!(gb.deflate.events.iter().all(|e| matches!(e, Event::Lit(_))));
    assert_eq!(gb.deflate.num_blocks(), 1);
    assert_eq!(gb.unfiltered.len(), 2 * 2 * 3);
}

#[test]
fn api_truncated_input_is_an_error_not_a_panic() {
    assert!(matches!(decode(&[]), Err(PngError::Chunks(_))));
    assert!(matches!(decode(b"not a png"), Err(PngError::Chunks(_))));
}

#[test]
fn api_decode_applies_trns_colour_key() {
    // 3×1 greyscale [10, 20, 30] with a tRNS key of 20: the middle
    // pixel decodes transparent, the others opaque.
    let mut ihdr = Vec::new();
    ihdr.extend_from_slice(&3u32.to_be_bytes());
    ihdr.extend_from_slice(&1u32.to_be_bytes());
    ihdr.extend_from_slice(&[8, 0, 0, 0, 0]); // depth 8, greyscale
    let filtered = vec![0u8, 10, 20, 30]; // filter None + 3 samples
    let idat = build_zlib_stream(
        &serialize_stored(&filtered),
        [0x78, 0x9c],
        &filtered,
    );
    let png = write_chunks(&[
        Chunk {
            typ: ChunkType::ihdr(),
            data: ihdr,
        },
        Chunk {
            typ: ChunkType::trns(),
            data: vec![0, 20], // 16-bit BE key; low byte 20
        },
        Chunk {
            typ: ChunkType::idat(),
            data: idat,
        },
        Chunk {
            typ: ChunkType::iend(),
            data: Vec::new(),
        },
    ]);
    let img = decode(&png).expect("decode");
    assert_eq!(&img.pixels[0..4], &[10, 10, 10, 255]);
    assert_eq!(&img.pixels[4..8], &[20, 20, 20, 0]);
    assert_eq!(&img.pixels[8..12], &[30, 30, 30, 255]);
}

#[test]
fn api_decode_reassembles_adam7_interlaced() {
    // 2×2 greyscale, interlace=1. Non-empty passes are 1 (0,0), 6
    // (1,0), 7 (0,1)+(1,1); each row is filter byte 0 + samples.
    let (a, b, c, d) = (10u8, 20u8, 30u8, 40u8);
    let output = vec![0, a, 0, b, 0, c, d]; // pass1, pass6, pass7
    let mut ihdr = Vec::new();
    ihdr.extend_from_slice(&2u32.to_be_bytes());
    ihdr.extend_from_slice(&2u32.to_be_bytes());
    ihdr.extend_from_slice(&[8, 0, 0, 0, 1]); // depth 8, grey, interlace 1
    let idat = build_zlib_stream(
        &serialize_stored(&output),
        [0x78, 0x9c],
        &output,
    );
    let png = write_chunks(&[
        Chunk {
            typ: ChunkType::ihdr(),
            data: ihdr,
        },
        Chunk {
            typ: ChunkType::idat(),
            data: idat,
        },
        Chunk {
            typ: ChunkType::iend(),
            data: Vec::new(),
        },
    ]);
    let img = decode(&png).expect("decode interlaced");
    assert!(img.info.interlaced);
    assert_eq!(&img.pixels[0..4], &[a, a, a, 255]); // (0,0)
    assert_eq!(&img.pixels[4..8], &[b, b, b, 255]); // (1,0)
    assert_eq!(&img.pixels[8..12], &[c, c, c, 255]); // (0,1)
    assert_eq!(&img.pixels[12..16], &[d, d, d, 255]); // (1,1)
}

#[test]
fn api_encode_then_decode_round_trips_pixels() {
    // Arbitrary 3×2 RGBA8 image; encode with each filter strategy and
    // confirm the decoded pixels come back identical.
    let (w, h) = (3u32, 2u32);
    let pixels: Vec<u8> = (0..w * h * 4).map(|i| (i * 13 + 7) as u8).collect();
    let img = Image {
        info: PngInfo::new(w, h, 8, ColorType::Rgba),
        palette: None,
        pixels: pixels.clone(),
        warnings: Vec::new(),
    };
    for filter in [
        FilterStrategy::MinSad,
        FilterStrategy::Fixed(FilterType::Paeth),
        FilterStrategy::Fixed(FilterType::NoFilter),
    ] {
        let opts = EncodeOptions {
            filter,
            ..Default::default()
        };
        let bytes = encode(&img, &opts).expect("encode");
        let back = decode(&bytes).expect("decode");
        assert_eq!(back.info.width, w);
        assert_eq!(back.info.height, h);
        assert_eq!(back.pixels, pixels, "filter {filter:?}");
    }
}

#[test]
fn api_encode_as_rgb_drops_alpha_and_round_trips() {
    // RGB output target: input alpha 255, pixels survive the trip.
    let (w, h) = (2u32, 2u32);
    let pixels: Vec<u8> = (0..w * h)
        .flat_map(|i| [(i * 20) as u8, (i * 20 + 5) as u8, (i * 20 + 9) as u8, 255])
        .collect();
    let img = Image {
        info: PngInfo::new(w, h, 8, ColorType::Rgb),
        palette: None,
        pixels: pixels.clone(),
        warnings: Vec::new(),
    };
    let opts = EncodeOptions {
        format: OutputFormat::Rgb8,
        ..Default::default()
    };
    let back = decode(&encode(&img, &opts).unwrap()).unwrap();
    assert_eq!(back.pixels, pixels);
}

#[test]
fn decode_decode_yields_rgba_pixels() {
    let (png, px) = tiny_rgb_png();
    let img = decode(&png).expect("decode");
    assert_eq!(img.info.width, 2);
    assert_eq!(img.info.height, 2);
    assert_eq!(img.pixels.len(), 2 * 2 * 4);
    for (i, expect) in px.iter().enumerate() {
        let got = &img.pixels[i * 4..i * 4 + 4];
        assert_eq!(got, &[expect[0], expect[1], expect[2], 255], "pixel {i}");
    }
    assert!(img.warnings.is_empty(), "clean fixture: {:?}", img.warnings);
}

#[test]
fn decode_decode_with_events_exposes_the_stream() {
    let (png, _) = tiny_rgb_png();
    let gb = decode_with_events(&png).expect("decode_with_events");
    // Stored block emits one literal event per output byte (14 bytes).
    assert_eq!(gb.deflate.output.len(), 14);
    assert_eq!(gb.deflate.events.len(), 14);
    assert!(gb.deflate.events.iter().all(|e| matches!(e, Event::Lit(_))));
    assert_eq!(gb.deflate.num_blocks(), 1);
    assert_eq!(gb.unfiltered.len(), 2 * 2 * 3);
}

#[test]
fn decode_truncated_input_is_an_error_not_a_panic() {
    assert!(matches!(decode(&[]), Err(PngError::Chunks(_))));
    assert!(matches!(decode(b"not a png"), Err(PngError::Chunks(_))));
}

#[test]
fn decode_decode_applies_trns_colour_key() {
    // 3×1 greyscale [10, 20, 30] with a tRNS key of 20: the middle
    // pixel decodes transparent, the others opaque.
    let mut ihdr = Vec::new();
    ihdr.extend_from_slice(&3u32.to_be_bytes());
    ihdr.extend_from_slice(&1u32.to_be_bytes());
    ihdr.extend_from_slice(&[8, 0, 0, 0, 0]); // depth 8, greyscale
    let filtered = vec![0u8, 10, 20, 30]; // filter None + 3 samples
    let idat = build_zlib_stream(&serialize_stored(&filtered), [0x78, 0x9c], &filtered);
    let png = write_chunks(&[
        Chunk {
            typ: ChunkType::ihdr(),
            data: ihdr,
        },
        Chunk {
            typ: ChunkType::trns(),
            data: vec![0, 20], // 16-bit BE key; low byte 20
        },
        Chunk {
            typ: ChunkType::idat(),
            data: idat,
        },
        Chunk {
            typ: ChunkType::iend(),
            data: Vec::new(),
        },
    ]);
    let img = decode(&png).expect("decode");
    assert_eq!(&img.pixels[0..4], &[10, 10, 10, 255]);
    assert_eq!(&img.pixels[4..8], &[20, 20, 20, 0]);
    assert_eq!(&img.pixels[8..12], &[30, 30, 30, 255]);
}

#[test]
fn decode_decode_reassembles_adam7_interlaced() {
    // 2×2 greyscale, interlace=1. Non-empty passes are 1 (0,0), 6
    // (1,0), 7 (0,1)+(1,1); each row is filter byte 0 + samples.
    let (a, b, c, d) = (10u8, 20u8, 30u8, 40u8);
    let output = vec![0, a, 0, b, 0, c, d]; // pass1, pass6, pass7
    let mut ihdr = Vec::new();
    ihdr.extend_from_slice(&2u32.to_be_bytes());
    ihdr.extend_from_slice(&2u32.to_be_bytes());
    ihdr.extend_from_slice(&[8, 0, 0, 0, 1]); // depth 8, grey, interlace 1
    let idat = build_zlib_stream(&serialize_stored(&output), [0x78, 0x9c], &output);
    let png = write_chunks(&[
        Chunk {
            typ: ChunkType::ihdr(),
            data: ihdr,
        },
        Chunk {
            typ: ChunkType::idat(),
            data: idat,
        },
        Chunk {
            typ: ChunkType::iend(),
            data: Vec::new(),
        },
    ]);
    let img = decode(&png).expect("decode interlaced");
    assert!(img.info.interlaced);
    assert_eq!(&img.pixels[0..4], &[a, a, a, 255]); // (0,0)
    assert_eq!(&img.pixels[4..8], &[b, b, b, 255]); // (1,0)
    assert_eq!(&img.pixels[8..12], &[c, c, c, 255]); // (0,1)
    assert_eq!(&img.pixels[12..16], &[d, d, d, 255]); // (1,1)
}

#[test]
fn encode_encode_then_decode_round_trips_pixels() {
    // Arbitrary 3×2 RGBA8 image; encode with each filter strategy and
    // confirm the decoded pixels come back identical.
    let (w, h) = (3u32, 2u32);
    let pixels: Vec<u8> = (0..w * h * 4).map(|i| (i * 13 + 7) as u8).collect();
    let img = Image {
        info: PngInfo::new(w, h, 8, ColorType::Rgba),
        palette: None,
        pixels: pixels.clone(),
        warnings: Vec::new(),
    };
    for filter in [
        FilterStrategy::MinSad,
        FilterStrategy::Fixed(FilterType::Paeth),
        FilterStrategy::Fixed(FilterType::NoFilter),
    ] {
        let opts = EncodeOptions {
            filter,
            ..Default::default()
        };
        let bytes = encode(&img, &opts).expect("encode");
        let back = decode(&bytes).expect("decode");
        assert_eq!(back.info.width, w);
        assert_eq!(back.info.height, h);
        assert_eq!(back.pixels, pixels, "filter {filter:?}");
    }
}

#[test]
fn encode_encode_as_rgb_drops_alpha_and_round_trips() {
    // RGB output target: input alpha 255, pixels survive the trip.
    let (w, h) = (2u32, 2u32);
    let pixels: Vec<u8> = (0..w * h)
        .flat_map(|i| [(i * 20) as u8, (i * 20 + 5) as u8, (i * 20 + 9) as u8, 255])
        .collect();
    let img = Image {
        info: PngInfo::new(w, h, 8, ColorType::Rgb),
        palette: None,
        pixels: pixels.clone(),
        warnings: Vec::new(),
    };
    let opts = EncodeOptions {
        format: OutputFormat::Rgb8,
        ..Default::default()
    };
    let back = decode(&encode(&img, &opts).unwrap()).unwrap();
    assert_eq!(back.pixels, pixels);
}
