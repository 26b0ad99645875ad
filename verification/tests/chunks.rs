//! Chunk framing and IHDR parsing.

use pngbend::png::chunks::{
    crc32, parse_ihdr, read_chunks, verify_png_signature, write_chunks, Chunk, ChunkType,
    ChunksError, ColorType, PngInfo, Warning, PNG_SIG,
};

#[test]
fn crc32_known_vector_for_iend() {
    // PNG IEND chunk has 0-byte data; CRC of the type tag 'IEND' alone
    // equals 0xAE426082.
    assert_eq!(crc32(&ChunkType::iend(), &[]), 0xAE426082);
}

#[test]
fn channel_label_names_bytes_by_colour_mode() {
    // 8-bit RGB: one byte per channel.
    let rgb8 = PngInfo::new(1, 1, 8, ColorType::Rgb);
    assert_eq!(rgb8.channel_label(0), "R");
    assert_eq!(rgb8.channel_label(1), "G");
    assert_eq!(rgb8.channel_label(2), "B");

    // 16-bit RGB: two big-endian bytes per channel. Byte 1 must read
    // "R lo", not "G".
    let rgb16 = PngInfo::new(1, 1, 16, ColorType::Rgb);
    assert_eq!(rgb16.channel_label(0), "R hi");
    assert_eq!(rgb16.channel_label(1), "R lo");
    assert_eq!(rgb16.channel_label(2), "G hi");
    assert_eq!(rgb16.channel_label(5), "B lo");

    // Greyscale luma is Y, not R.
    assert_eq!(
        PngInfo::new(1, 1, 8, ColorType::Greyscale).channel_label(0),
        "Y"
    );
    assert_eq!(
        PngInfo::new(1, 1, 16, ColorType::GreyAlpha).channel_label(3),
        "A lo"
    );

    // Sub-byte: one packed byte, named by colour type.
    assert_eq!(
        PngInfo::new(8, 1, 1, ColorType::Greyscale).channel_label(0),
        "Y"
    );
    assert_eq!(
        PngInfo::new(8, 1, 4, ColorType::Indexed).channel_label(0),
        "idx"
    );
}

#[test]
fn read_write_chunks_round_trip() {
    let chunks = vec![
        Chunk {
            typ: ChunkType::ihdr(),
            data: vec![1, 2, 3, 4, 5, 6, 7, 8, 8, 6, 0, 0, 0],
        },
        Chunk {
            typ: ChunkType::idat(),
            data: vec![0xAA; 100],
        },
        Chunk {
            typ: ChunkType::iend(),
            data: vec![],
        },
    ];
    let bytes = write_chunks(&chunks);
    let parsed = read_chunks(&bytes).expect("parse round-tripped chunks");
    assert_eq!(parsed.chunks.len(), chunks.len());
    for (orig, got) in chunks.iter().zip(parsed.chunks.iter()) {
        assert_eq!(orig.typ, got.typ);
        assert_eq!(orig.data, got.data);
    }
}

#[test]
fn parse_ihdr_decodes_rgba8() {
    // width=2, height=3, bit_depth=8, color=6 (RGBA)
    let mut data = vec![0u8; 13];
    data[0..4].copy_from_slice(&2u32.to_be_bytes());
    data[4..8].copy_from_slice(&3u32.to_be_bytes());
    data[8] = 8;
    data[9] = 6;
    let chunks = vec![Chunk {
        typ: ChunkType::ihdr(),
        data,
    }];
    let info = parse_ihdr(&chunks).expect("parse");
    assert_eq!(info.width, 2);
    assert_eq!(info.height, 3);
    assert_eq!(info.bpp, 4);
    assert_eq!(info.row_stride, 1 + 2 * 4);
    assert_eq!(info.color_type, ColorType::Rgba);
    assert_eq!(info.bit_depth, 8);
}

#[test]
fn parse_ihdr_rejects_unknown_color_type() {
    let mut data = vec![0u8; 13];
    data[0..4].copy_from_slice(&1u32.to_be_bytes());
    data[4..8].copy_from_slice(&1u32.to_be_bytes());
    data[8] = 8;
    data[9] = 9; // unknown
    let chunks = vec![Chunk {
        typ: ChunkType::ihdr(),
        data,
    }];
    assert!(parse_ihdr(&chunks).is_none());
}

/// IHDR shorter than the full 13 bytes must be rejected: an 11- or
/// 12-byte IHDR would otherwise read past its data when validating
/// the trailing compression / filter / interlace bytes.
#[test]
fn parse_ihdr_rejects_short_ihdr_data() {
    for short_len in [0usize, 9, 10, 11, 12] {
        let chunks = vec![Chunk {
            typ: ChunkType::ihdr(),
            data: vec![0u8; short_len],
        }];
        assert!(
            parse_ihdr(&chunks).is_none(),
            "IHDR with {short_len} bytes must be rejected"
        );
    }
}

#[test]
fn parse_ihdr_rejects_zero_width_or_height() {
    // PNG spec §11.2.2 requires non-zero width and height.
    for (w, h) in [(0u32, 1u32), (1, 0), (0, 0)] {
        let mut data = vec![0u8; 13];
        data[0..4].copy_from_slice(&w.to_be_bytes());
        data[4..8].copy_from_slice(&h.to_be_bytes());
        data[8] = 8;
        data[9] = 6;
        let chunks = vec![Chunk {
            typ: ChunkType::ihdr(),
            data,
        }];
        assert!(
            parse_ihdr(&chunks).is_none(),
            "{w}×{h} IHDR must be rejected"
        );
    }
}

#[test]
fn parse_ihdr_rejects_invalid_compression_method() {
    let mut data = vec![0u8; 13];
    data[0..4].copy_from_slice(&1u32.to_be_bytes());
    data[4..8].copy_from_slice(&1u32.to_be_bytes());
    data[8] = 8;
    data[9] = 6;
    data[10] = 1; // PNG spec only defines compression-method 0
    let chunks = vec![Chunk {
        typ: ChunkType::ihdr(),
        data,
    }];
    assert!(parse_ihdr(&chunks).is_none());
}

#[test]
fn parse_ihdr_accepts_adam7_and_rejects_reserved_interlace() {
    let ihdr = |interlace: u8| {
        let mut data = vec![0u8; 13];
        data[0..4].copy_from_slice(&1u32.to_be_bytes());
        data[4..8].copy_from_slice(&1u32.to_be_bytes());
        data[8] = 8;
        data[9] = 6;
        data[12] = interlace;
        vec![Chunk {
            typ: ChunkType::ihdr(),
            data,
        }]
    };
    assert!(!parse_ihdr(&ihdr(0)).unwrap().interlaced);
    assert!(parse_ihdr(&ihdr(1)).unwrap().interlaced);
    assert!(parse_ihdr(&ihdr(2)).is_none()); // reserved
}

#[test]
fn parse_ihdr_validates_bit_depth_against_color_type() {
    let ihdr = |depth: u8, color: u8| {
        let mut data = vec![0u8; 13];
        data[0..4].copy_from_slice(&1u32.to_be_bytes());
        data[4..8].copy_from_slice(&1u32.to_be_bytes());
        data[8] = depth;
        data[9] = color;
        vec![Chunk {
            typ: ChunkType::ihdr(),
            data,
        }]
    };
    // Illegal pairings (PNG spec Table 11.1) and undefined depths.
    for (depth, color) in [
        (1, 2),  // RGB @ 1-bit
        (4, 2),  // RGB @ 4-bit
        (16, 3), // Indexed @ 16-bit
        (2, 6),  // RGBA @ 2-bit
        (4, 4),  // GreyAlpha @ 4-bit
        (3, 0),  // undefined bit depth
        (0, 0),  // undefined bit depth
    ] {
        assert!(
            parse_ihdr(&ihdr(depth, color)).is_none(),
            "depth {depth} colour {color} must be rejected"
        );
    }
    // Legal pairings still parse.
    for (depth, color) in [(1, 0), (16, 0), (8, 3), (16, 2), (8, 6)] {
        assert!(
            parse_ihdr(&ihdr(depth, color)).is_some(),
            "depth {depth} colour {color} must be accepted"
        );
    }
}

#[test]
fn read_chunks_rejects_missing_signature() {
    let buf = b"NOT_A_PNG_FILE_AT_ALL_NOPE_NOPE";
    let err = read_chunks(buf).unwrap_err();
    assert!(matches!(err, ChunksError::MissingSignature), "got {err:?}");
    assert!(!verify_png_signature(buf));
    assert!(verify_png_signature(&PNG_SIG));
}

#[test]
fn read_chunks_surfaces_bad_chunk_crc_as_warning() {
    // Build a one-chunk PNG, then flip a bit in the IEND CRC.
    // pngbend is an editor, not a viewer: a stale CRC must surface
    // as a warning so the user can still load the file.
    let chunks = vec![Chunk {
        typ: ChunkType::iend(),
        data: vec![],
    }];
    let mut bytes = write_chunks(&chunks);
    let last = bytes.len() - 1;
    bytes[last] ^= 0x01;
    let parsed = read_chunks(&bytes).expect("CRC mismatch must not fail the parse");
    assert_eq!(parsed.chunks.len(), 1);
    assert_eq!(parsed.warnings.len(), 1);
    assert_eq!(
        parsed.warnings[0],
        Warning::ChunkCrc {
            typ: ChunkType::iend()
        }
    );
}
