//! What errors and warnings say.

use pngbend::deflate::DecodeError;
use pngbend::png::{ChunkType, ChunksError, ColorType, ConvertError, FilterError, InterlaceError};
use pngbend::png::{Warning, ZlibError};
use pngbend::PngError;

#[test]
fn decode_errors() {
    let cases = [
        (
            DecodeError::InvalidHuffmanCode {
                max_bits: 9,
                code: 5,
            },
            "no Huffman match after 9 bits (code=0b101)",
        ),
        (
            DecodeError::ReservedBlockType { block_idx: 3 },
            "reserved BTYPE=11 in block 3",
        ),
        (
            DecodeError::InvalidLengthSymbol {
                sym: 286,
                block_idx: 1,
            },
            "length symbol 286 out of range in block 1",
        ),
        (
            DecodeError::InvalidDistance {
                distance: 9,
                output_len: 4,
                block_idx: 0,
            },
            "back-ref distance 9 exceeds output length 4 in block 0",
        ),
        (
            DecodeError::InvalidDistanceSymbol {
                sym: 30,
                block_idx: 2,
            },
            "reserved distance symbol 30 (>=30) in block 2",
        ),
        (
            DecodeError::InvalidStoredBlockLength {
                length: 2,
                nlen: 0xAB,
                block_idx: 0,
            },
            "stored-block LEN/NLEN mismatch in block 0 (LEN=0x0002, NLEN=0x00ab)",
        ),
        (
            DecodeError::OverSubscribedHuffman {
                max_bits: 1,
                expected: 2,
                actual: 3,
            },
            "over-subscribed Huffman code: lengths consume 3 of 2 slots at max_bits=1",
        ),
        (
            DecodeError::UnderSubscribedHuffman {
                max_bits: 2,
                actual: 2,
            },
            "under-subscribed Huffman code: lengths consume 2 of 4 slots at max_bits=2",
        ),
        (
            DecodeError::HuffmanCodeTooLong { max_bits: 16 },
            "Huffman code length 16 exceeds RFC 1951 limit of 15",
        ),
        (
            DecodeError::OutputTooLarge { decoded: 9, max: 8 },
            "deflate output would exceed cap (9 bytes, max 8)",
        ),
    ];
    for (e, text) in cases {
        assert_eq!(e.message(), text);
    }
}

#[test]
fn container_errors() {
    assert_eq!(ChunksError::MissingSignature.message(), "PNG signature missing");
    assert_eq!(ChunksError::Truncated.message(), "PNG truncated mid-chunk");
    assert_eq!(
        ZlibError::Truncated { actual: 3 }.message(),
        "zlib stream truncated (3 bytes, need ≥ 6)"
    );
    assert_eq!(
        ZlibError::BadCompressionMethod { cmf: 7 }.message(),
        "zlib CMF 0x07: PNG requires CM=8 and CINFO≤7"
    );
    assert_eq!(
        ZlibError::FdictSet.message(),
        "zlib FDICT bit set (forbidden in PNG)"
    );
}

#[test]
fn warnings_name_the_chunk() {
    assert_eq!(
        Warning::ChunkCrc {
            typ: ChunkType::idat()
        }
        .message(),
        "stale checksum on IDAT chunk"
    );
    // A type that is no text reads as question marks.
    assert_eq!(
        Warning::ChunkCrc {
            typ: ChunkType(0xFF, 0xFE, 1, 2)
        }
        .message(),
        "stale checksum on ???? chunk"
    );
    // Two letters of two bytes each.
    assert_eq!(ChunkType(0xC3, 0xA9, 0xC3, 0xA8).text(), "éè");
    assert_eq!(
        Warning::ZlibHeaderChecksum.message(),
        "stale checksum on PNG image-data header"
    );
    assert_eq!(
        Warning::StaleImageAdler.message(),
        "stale zlib checksum on PNG image data"
    );
}

#[test]
fn pixel_errors() {
    assert_eq!(
        FilterError::TruncatedRow { row: 4 }.message(),
        "row 4 truncated in PNG stream"
    );
    assert_eq!(
        FilterError::UnknownFilter { row: 1, filter: 9 }.message(),
        "unknown filter type 9 at row 1"
    );
    assert_eq!(
        ConvertError::UnsupportedDepth {
            color_type: ColorType::Rgb,
            bit_depth: 4
        }
        .message(),
        "unsupported depth 4 for color type Rgb"
    );
    assert_eq!(
        ConvertError::MissingPalette.message(),
        "indexed PNG but no palette decoded"
    );
    assert_eq!(
        InterlaceError::Truncated.message(),
        "interlaced stream ended mid-pass"
    );
    assert_eq!(
        InterlaceError::Filter(FilterError::TruncatedRow { row: 0 }).message(),
        "interlace unfilter: row 0 truncated in PNG stream"
    );
    assert_eq!(PngError::MissingIhdr.message(), "no valid IHDR chunk");
    assert_eq!(
        PngError::OutputTooLarge { output_bytes: 77 }.message(),
        "unfiltered output 77 bytes exceeds 4 GiB cap"
    );
    assert_eq!(
        PngError::BadChecksum(Warning::StaleImageAdler).message(),
        "checksum mismatch: stale zlib checksum on PNG image data"
    );
    assert_eq!(
        PngError::Deflate(DecodeError::ReservedBlockType { block_idx: 0 }).message(),
        "DEFLATE error: reserved BTYPE=11 in block 0"
    );
}
