//! DEFLATE decode errors: RFC 1951 violations (bad Huffman codes, reserved
//! symbols and block types) plus the decompression-bomb output cap.

use vstd::prelude::*;

verus! {

#[derive(Debug, Clone, Copy, PartialEq, Eq, Structural)]
pub enum DecodeError {
    InvalidHuffmanCode { max_bits: u8, code: u16 },
    ReservedBlockType { block_idx: u32 },
    InvalidLengthSymbol { sym: u16, block_idx: u32 },
    InvalidDistance { distance: u32, output_len: usize, block_idx: u32 },
    /// Distance alphabet decoded a symbol >= 30. RFC 1951 reserves 30 and
    /// 31: they must not occur in a valid stream, and `DBASE`/`DEXT` only
    /// have 30 entries.
    InvalidDistanceSymbol { sym: u16, block_idx: u32 },
    /// Stored block (BTYPE=00) whose NLEN is not the one's complement of LEN.
    InvalidStoredBlockLength { length: u16, nlen: u16, block_idx: u32 },
    /// Canonical Huffman code lengths sum to more than `2^max_bits` of
    /// codeword space.
    OverSubscribedHuffman { max_bits: u8, expected: u32, actual: u32 },
    /// Canonical Huffman code lengths use less than `2^max_bits` of
    /// codeword space, leaving valid bit patterns with no defined
    /// symbol. The single-symbol/single-bit case (RFC 1951 §3.2.2's
    /// degenerate distance alphabet) is the one allowed exception.
    UnderSubscribedHuffman { max_bits: u8, actual: u32 },
    /// A code length exceeds the 15-bit DEFLATE limit.
    HuffmanCodeTooLong { max_bits: u8 },
    /// Decoded output would grow past the caller-supplied cap. The loader
    /// passes the IHDR-derived expected size so a tiny IDAT can't
    /// expand to gigabytes (the classic decompression-bomb pattern).
    OutputTooLarge { decoded: usize, max: usize },
}

} // verus!
