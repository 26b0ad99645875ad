//! What errors and warnings say: one line each, for logs and the status bar.

use vstd::arithmetic::power2::pow2;
use vstd::prelude::*;
use vstd::string::StringExecFns;
use vstd::utf8::{decode_utf8, valid_utf8};

use crate::api::error::PngError;
use crate::deflate::error::DecodeError;
use crate::png::chunks::{ChunkType, ChunksError, ColorType, Warning};
use crate::png::convert::ConvertError;
use crate::png::filter::FilterError;
use crate::png::interlace::InterlaceError;
use crate::png::zlib::ZlibError;
use crate::text::{decimal, numeral, push_decimal, push_numeral};

verus! {

/// `std::str::from_utf8`: the text that the bytes encode in UTF-8, or nothing
/// where they are not valid UTF-8.
#[verifier::external_body]
fn utf8_text(bytes: &[u8]) -> (r: Option<String>)
    ensures
        match r {
            Some(s) => valid_utf8(bytes@) && s@ == decode_utf8(bytes@),
            None => !valid_utf8(bytes@),
        },
{
    std::str::from_utf8(bytes).ok().map(String::from)
}

/// `2^n` as a number.
fn two_to(n: u8) -> (r: u64)
    requires
        n < 64,
    ensures
        r == pow2(n as nat),
{
    let mut r: u64 = 1;
    let mut i: u8 = 0;
    proof {
        vstd::arithmetic::power2::lemma2_to64();
    }
    while i < n
        invariant
            i <= n < 64,
            r == pow2(i as nat),
        decreases n - i,
    {
        proof {
            vstd::arithmetic::power2::lemma_pow2_unfold((i + 1) as nat);
            vstd::arithmetic::power2::lemma2_to64_rest();
            vstd::arithmetic::power2::lemma2_to64();
            if i + 1 < 63 {
                vstd::arithmetic::power2::lemma_pow2_strictly_increases((i + 1) as nat, 63);
            }
        }
        r = r * 2;
        i = i + 1;
    }
    r
}

impl ChunkType {
    /// The type as text; `????` where its bytes are not UTF-8.
    pub open spec fn spec_text(self) -> Seq<char> {
        if valid_utf8(self@) {
            decode_utf8(self@)
        } else {
            "????"@
        }
    }

    /// The type as text, for messages.
    pub fn text(&self) -> (r: String)
        ensures
            r@ == self.spec_text(),
    {
        let bytes: [u8; 4] = self.as_bytes();
        match utf8_text(bytes.as_slice()) {
            Some(s) => s,
            None => String::from_str("????"),
        }
    }
}

impl ChunksError {
    pub open spec fn says(self) -> Seq<char> {
        match self {
            ChunksError::MissingSignature => "PNG signature missing"@,
            ChunksError::Truncated => "PNG truncated mid-chunk"@,
        }
    }

    pub fn message(&self) -> (r: String)
        ensures
            r@ == self.says(),
    {
        match self {
            ChunksError::MissingSignature => String::from_str("PNG signature missing"),
            ChunksError::Truncated => String::from_str("PNG truncated mid-chunk"),
        }
    }
}

impl Warning {
    pub open spec fn says(self) -> Seq<char> {
        match self {
            Warning::ChunkCrc { typ } => "stale checksum on "@ + typ.spec_text() + " chunk"@,
            Warning::ZlibHeaderChecksum => "stale checksum on PNG image-data header"@,
            Warning::StaleImageAdler => "stale zlib checksum on PNG image data"@,
        }
    }

    pub fn message(&self) -> (r: String)
        ensures
            r@ == self.says(),
    {
        match self {
            Warning::ChunkCrc { typ } => {
                let mut s: String = String::from_str("stale checksum on ");
                s.append(typ.text().as_str());
                s.append(" chunk");
                s
            },
            Warning::ZlibHeaderChecksum => String::from_str(
                "stale checksum on PNG image-data header",
            ),
            Warning::StaleImageAdler => String::from_str("stale zlib checksum on PNG image data"),
        }
    }
}

impl ZlibError {
    pub open spec fn says(self) -> Seq<char> {
        match self {
            ZlibError::Truncated { actual } => "zlib stream truncated ("@ + decimal(actual as nat)
                + " bytes, need ≥ 6)"@,
            ZlibError::BadCompressionMethod { cmf } => "zlib CMF 0x"@ + numeral(cmf as nat, 16, 2)
                + ": PNG requires CM=8 and CINFO≤7"@,
            ZlibError::FdictSet => "zlib FDICT bit set (forbidden in PNG)"@,
        }
    }

    pub fn message(&self) -> (r: String)
        ensures
            r@ == self.says(),
    {
        match self {
            ZlibError::Truncated { actual } => {
                let mut s: String = String::from_str("zlib stream truncated (");
                push_decimal(&mut s, *actual as u64);
                s.append(" bytes, need ≥ 6)");
                s
            },
            ZlibError::BadCompressionMethod { cmf } => {
                let mut s: String = String::from_str("zlib CMF 0x");
                push_numeral(&mut s, *cmf as u64, 16, 2);
                s.append(": PNG requires CM=8 and CINFO≤7");
                s
            },
            ZlibError::FdictSet => String::from_str("zlib FDICT bit set (forbidden in PNG)"),
        }
    }
}

impl FilterError {
    pub open spec fn says(self) -> Seq<char> {
        match self {
            FilterError::TruncatedRow { row } => "row "@ + decimal(row as nat)
                + " truncated in PNG stream"@,
            FilterError::UnknownFilter { row, filter } => "unknown filter type "@ + decimal(
                filter as nat,
            ) + " at row "@ + decimal(row as nat),
            FilterError::OutputTooLarge { rows, row_bytes } =>
                "unfilter output would exceed limit ("@ + decimal(rows as nat) + " rows × "@
                + decimal(row_bytes as nat) + " bytes)"@,
        }
    }

    pub fn message(&self) -> (r: String)
        ensures
            r@ == self.says(),
    {
        match self {
            FilterError::TruncatedRow { row } => {
                let mut s: String = String::from_str("row ");
                push_decimal(&mut s, *row as u64);
                s.append(" truncated in PNG stream");
                s
            },
            FilterError::UnknownFilter { row, filter } => {
                let mut s: String = String::from_str("unknown filter type ");
                push_decimal(&mut s, *filter as u64);
                s.append(" at row ");
                push_decimal(&mut s, *row as u64);
                s
            },
            FilterError::OutputTooLarge { rows, row_bytes } => {
                let mut s: String = String::from_str("unfilter output would exceed limit (");
                push_decimal(&mut s, *rows as u64);
                s.append(" rows × ");
                push_decimal(&mut s, *row_bytes as u64);
                s.append(" bytes)");
                s
            },
        }
    }
}

impl ColorType {
    /// The variant's name.
    pub open spec fn spec_name(self) -> Seq<char> {
        match self {
            ColorType::Greyscale => "Greyscale"@,
            ColorType::Rgb => "Rgb"@,
            ColorType::Indexed => "Indexed"@,
            ColorType::GreyAlpha => "GreyAlpha"@,
            ColorType::Rgba => "Rgba"@,
        }
    }

    pub fn name(&self) -> (r: &'static str)
        ensures
            r@ == self.spec_name(),
    {
        match self {
            ColorType::Greyscale => "Greyscale",
            ColorType::Rgb => "Rgb",
            ColorType::Indexed => "Indexed",
            ColorType::GreyAlpha => "GreyAlpha",
            ColorType::Rgba => "Rgba",
        }
    }
}

impl ConvertError {
    pub open spec fn says(self) -> Seq<char> {
        match self {
            ConvertError::UnsupportedDepth { color_type, bit_depth } => "unsupported depth "@
                + decimal(bit_depth as nat) + " for color type "@ + color_type.spec_name(),
            ConvertError::MissingPalette => "indexed PNG but no palette decoded"@,
            ConvertError::TruncatedInput { expected, actual } =>
                "unfiltered input too short: expected "@ + decimal(expected as nat) + ", got "@
                + decimal(actual as nat),
            ConvertError::OutputTooLarge { width, height } =>
                "RGBA output would exceed limit for "@ + decimal(width as nat) + "×"@ + decimal(
                height as nat,
            ) + " image"@,
        }
    }

    pub fn message(&self) -> (r: String)
        ensures
            r@ == self.says(),
    {
        match self {
            ConvertError::UnsupportedDepth { color_type, bit_depth } => {
                let mut s: String = String::from_str("unsupported depth ");
                push_decimal(&mut s, *bit_depth as u64);
                s.append(" for color type ");
                s.append(color_type.name());
                s
            },
            ConvertError::MissingPalette => String::from_str("indexed PNG but no palette decoded"),
            ConvertError::TruncatedInput { expected, actual } => {
                let mut s: String = String::from_str("unfiltered input too short: expected ");
                push_decimal(&mut s, *expected as u64);
                s.append(", got ");
                push_decimal(&mut s, *actual as u64);
                s
            },
            ConvertError::OutputTooLarge { width, height } => {
                let mut s: String = String::from_str("RGBA output would exceed limit for ");
                push_decimal(&mut s, *width as u64);
                s.append("×");
                push_decimal(&mut s, *height as u64);
                s.append(" image");
                s
            },
        }
    }
}

impl InterlaceError {
    pub open spec fn says(self) -> Seq<char> {
        match self {
            InterlaceError::Filter(e) => "interlace unfilter: "@ + e.says(),
            InterlaceError::Convert(e) => "interlace convert: "@ + e.says(),
            InterlaceError::Truncated => "interlaced stream ended mid-pass"@,
        }
    }

    pub fn message(&self) -> (r: String)
        ensures
            r@ == self.says(),
    {
        match self {
            InterlaceError::Filter(e) => {
                let mut s: String = String::from_str("interlace unfilter: ");
                s.append(e.message().as_str());
                s
            },
            InterlaceError::Convert(e) => {
                let mut s: String = String::from_str("interlace convert: ");
                s.append(e.message().as_str());
                s
            },
            InterlaceError::Truncated => String::from_str("interlaced stream ended mid-pass"),
        }
    }
}

impl DecodeError {
    /// The code width is one that a decoder can report.
    pub open spec fn width_ok(self) -> bool {
        self matches DecodeError::UnderSubscribedHuffman { max_bits, .. } ==> max_bits < 32
    }

    pub open spec fn says(self) -> Seq<char> {
        match self {
            DecodeError::InvalidHuffmanCode { max_bits, code } => "no Huffman match after "@
                + decimal(max_bits as nat) + " bits (code=0b"@ + numeral(code as nat, 2, 1) + ")"@,
            DecodeError::ReservedBlockType { block_idx } => "reserved BTYPE=11 in block "@
                + decimal(block_idx as nat),
            DecodeError::InvalidLengthSymbol { sym, block_idx } => "length symbol "@ + decimal(
                sym as nat,
            ) + " out of range in block "@ + decimal(block_idx as nat),
            DecodeError::InvalidDistance { distance, output_len, block_idx } =>
                "back-ref distance "@ + decimal(distance as nat) + " exceeds output length "@
                + decimal(output_len as nat) + " in block "@ + decimal(block_idx as nat),
            DecodeError::InvalidDistanceSymbol { sym, block_idx } => "reserved distance symbol "@
                + decimal(sym as nat) + " (>=30) in block "@ + decimal(block_idx as nat),
            DecodeError::InvalidStoredBlockLength { length, nlen, block_idx } =>
                "stored-block LEN/NLEN mismatch in block "@ + decimal(block_idx as nat)
                + " (LEN=0x"@ + numeral(length as nat, 16, 4) + ", NLEN=0x"@ + numeral(
                nlen as nat,
                16,
                4,
            ) + ")"@,
            DecodeError::OverSubscribedHuffman { max_bits, expected, actual } =>
                "over-subscribed Huffman code: lengths consume "@ + decimal(actual as nat) + " of "@
                + decimal(expected as nat) + " slots at max_bits="@ + decimal(max_bits as nat),
            DecodeError::UnderSubscribedHuffman { max_bits, actual } =>
                "under-subscribed Huffman code: lengths consume "@ + decimal(actual as nat)
                + " of "@ + decimal(pow2(max_bits as nat)) + " slots at max_bits="@ + decimal(
                max_bits as nat,
            ),
            DecodeError::HuffmanCodeTooLong { max_bits } => "Huffman code length "@ + decimal(
                max_bits as nat,
            ) + " exceeds RFC 1951 limit of 15"@,
            DecodeError::OutputTooLarge { decoded, max } => "deflate output would exceed cap ("@
                + decimal(decoded as nat) + " bytes, max "@ + decimal(max as nat) + ")"@,
        }
    }

    pub fn message(&self) -> (r: String)
        requires
            self.width_ok(),
        ensures
            r@ == self.says(),
    {
        let mut s: String = String::new();
        match self {
            DecodeError::InvalidHuffmanCode { max_bits, code } => {
                s = String::from_str("no Huffman match after ");
                push_decimal(&mut s, *max_bits as u64);
                s.append(" bits (code=0b");
                push_numeral(&mut s, *code as u64, 2, 1);
                s.append(")");
            },
            DecodeError::ReservedBlockType { block_idx } => {
                s = String::from_str("reserved BTYPE=11 in block ");
                push_decimal(&mut s, *block_idx as u64);
            },
            DecodeError::InvalidLengthSymbol { sym, block_idx } => {
                s = String::from_str("length symbol ");
                push_decimal(&mut s, *sym as u64);
                s.append(" out of range in block ");
                push_decimal(&mut s, *block_idx as u64);
            },
            DecodeError::InvalidDistance { distance, output_len, block_idx } => {
                s = String::from_str("back-ref distance ");
                push_decimal(&mut s, *distance as u64);
                s.append(" exceeds output length ");
                push_decimal(&mut s, *output_len as u64);
                s.append(" in block ");
                push_decimal(&mut s, *block_idx as u64);
            },
            DecodeError::InvalidDistanceSymbol { sym, block_idx } => {
                s = String::from_str("reserved distance symbol ");
                push_decimal(&mut s, *sym as u64);
                s.append(" (>=30) in block ");
                push_decimal(&mut s, *block_idx as u64);
            },
            DecodeError::InvalidStoredBlockLength { length, nlen, block_idx } => {
                s = String::from_str("stored-block LEN/NLEN mismatch in block ");
                push_decimal(&mut s, *block_idx as u64);
                s.append(" (LEN=0x");
                push_numeral(&mut s, *length as u64, 16, 4);
                s.append(", NLEN=0x");
                push_numeral(&mut s, *nlen as u64, 16, 4);
                s.append(")");
            },
            DecodeError::OverSubscribedHuffman { max_bits, expected, actual } => {
                s = String::from_str("over-subscribed Huffman code: lengths consume ");
                push_decimal(&mut s, *actual as u64);
                s.append(" of ");
                push_decimal(&mut s, *expected as u64);
                s.append(" slots at max_bits=");
                push_decimal(&mut s, *max_bits as u64);
            },
            DecodeError::UnderSubscribedHuffman { max_bits, actual } => {
                s = String::from_str("under-subscribed Huffman code: lengths consume ");
                push_decimal(&mut s, *actual as u64);
                s.append(" of ");
                push_decimal(&mut s, two_to(*max_bits));
                s.append(" slots at max_bits=");
                push_decimal(&mut s, *max_bits as u64);
            },
            DecodeError::HuffmanCodeTooLong { max_bits } => {
                s = String::from_str("Huffman code length ");
                push_decimal(&mut s, *max_bits as u64);
                s.append(" exceeds RFC 1951 limit of 15");
            },
            DecodeError::OutputTooLarge { decoded, max } => {
                s = String::from_str("deflate output would exceed cap (");
                push_decimal(&mut s, *decoded as u64);
                s.append(" bytes, max ");
                push_decimal(&mut s, *max as u64);
                s.append(")");
            },
        }
        s
    }
}

impl PngError {
    pub open spec fn says(self) -> Seq<char> {
        match self {
            PngError::Chunks(e) => "PNG chunk error: "@ + e.says(),
            PngError::MissingIhdr => "no valid IHDR chunk"@,
            PngError::MissingIdat => "no IDAT image data"@,
            PngError::OutputTooLarge { output_bytes } => "unfiltered output "@ + decimal(
                output_bytes as nat,
            ) + " bytes exceeds 4 GiB cap"@,
            PngError::Zlib(e) => "zlib error: "@ + e.says(),
            PngError::Deflate(e) => "DEFLATE error: "@ + e.says(),
            PngError::Filter(e) => "unfilter error: "@ + e.says(),
            PngError::Convert(e) => "RGBA conversion error: "@ + e.says(),
            PngError::InterlaceTruncated => "interlaced stream ended mid-pass"@,
            PngError::BadChecksum(w) => "checksum mismatch: "@ + w.says(),
        }
    }

    pub fn message(&self) -> (r: String)
        requires
            self matches PngError::Deflate(e) ==> e.width_ok(),
        ensures
            r@ == self.says(),
    {
        let mut s: String = String::new();
        match self {
            PngError::Chunks(e) => {
                s = String::from_str("PNG chunk error: ");
                s.append(e.message().as_str());
            },
            PngError::MissingIhdr => {
                s = String::from_str("no valid IHDR chunk");
            },
            PngError::MissingIdat => {
                s = String::from_str("no IDAT image data");
            },
            PngError::OutputTooLarge { output_bytes } => {
                s = String::from_str("unfiltered output ");
                push_decimal(&mut s, *output_bytes);
                s.append(" bytes exceeds 4 GiB cap");
            },
            PngError::Zlib(e) => {
                s = String::from_str("zlib error: ");
                s.append(e.message().as_str());
            },
            PngError::Deflate(e) => {
                s = String::from_str("DEFLATE error: ");
                s.append(e.message().as_str());
            },
            PngError::Filter(e) => {
                s = String::from_str("unfilter error: ");
                s.append(e.message().as_str());
            },
            PngError::Convert(e) => {
                s = String::from_str("RGBA conversion error: ");
                s.append(e.message().as_str());
            },
            PngError::InterlaceTruncated => {
                s = String::from_str("interlaced stream ended mid-pass");
            },
            PngError::BadChecksum(w) => {
                s = String::from_str("checksum mismatch: ");
                s.append(w.message().as_str());
            },
        }
        s
    }
}

} // verus!
