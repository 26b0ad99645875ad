//! The unified decode error, flattened across every pipeline stage.

use vstd::prelude::*;

use crate::deflate::error::DecodeError;
use crate::png::chunks::{ChunksError, Warning};
use crate::png::convert::ConvertError;
use crate::png::filter::FilterError;
use crate::png::interlace::InterlaceError;
use crate::png::zlib::ZlibError;

verus! {

/// Anything that can go wrong turning PNG bytes into pixels, unified across
/// the chunk / IHDR / zlib / DEFLATE / unfilter / convert stages so callers
/// match on one type.
#[derive(Debug, Clone, Copy, PartialEq, Eq, Structural)]
pub enum PngError {
    /// The chunk layer rejected the bytes (bad signature, truncation, ...).
    Chunks(ChunksError),
    /// No IHDR chunk, or its fields didn't parse.
    MissingIhdr,
    /// The image has no IDAT image data.
    MissingIdat,
    /// IHDR dimensions imply an unfiltered output larger than 4 GiB, which
    /// the codec's `u32` byte positions can't address.
    OutputTooLarge { output_bytes: u64 },
    /// The zlib wrapper around the DEFLATE data was malformed.
    Zlib(ZlibError),
    /// The DEFLATE stream failed to decode.
    Deflate(DecodeError),
    /// A row-filter type was invalid or a row was malformed.
    Filter(FilterError),
    /// Pixel bytes couldn't be converted to RGBA8 (e.g. an unsupported
    /// bit depth, a missing palette, or truncated input). An out-of-range
    /// palette index is not an error; it decodes to transparent black.
    Convert(ConvertError),
    /// An interlaced (Adam7) image's data ended mid-pass. A per-pass filter
    /// or conversion failure surfaces as [`PngError::Filter`] /
    /// [`PngError::Convert`] instead, so each leaf error has a single home.
    InterlaceTruncated,
    /// A chunk CRC or the zlib Adler-32 didn't match. Only
    /// [`decode_strict`](super::decode::decode_strict) returns this;
    /// [`decode`](super::decode::decode) tolerates the mismatch and reports it
    /// in the image's warnings instead.
    BadChecksum(Warning),
}

impl From<ChunksError> for PngError {
    fn from(e: ChunksError) -> (r: Self) {
        PngError::Chunks(e)
    }
}

impl vstd::std_specs::convert::FromSpecImpl<ChunksError> for PngError {
    open spec fn obeys_from_spec() -> bool {
        true
    }

    open spec fn from_spec(e: ChunksError) -> Self {
        PngError::Chunks(e)
    }
}

impl From<ZlibError> for PngError {
    fn from(e: ZlibError) -> (r: Self) {
        PngError::Zlib(e)
    }
}

impl vstd::std_specs::convert::FromSpecImpl<ZlibError> for PngError {
    open spec fn obeys_from_spec() -> bool {
        true
    }

    open spec fn from_spec(e: ZlibError) -> Self {
        PngError::Zlib(e)
    }
}

impl From<DecodeError> for PngError {
    fn from(e: DecodeError) -> (r: Self) {
        PngError::Deflate(e)
    }
}

impl vstd::std_specs::convert::FromSpecImpl<DecodeError> for PngError {
    open spec fn obeys_from_spec() -> bool {
        true
    }

    open spec fn from_spec(e: DecodeError) -> Self {
        PngError::Deflate(e)
    }
}

impl From<FilterError> for PngError {
    fn from(e: FilterError) -> (r: Self) {
        PngError::Filter(e)
    }
}

impl vstd::std_specs::convert::FromSpecImpl<FilterError> for PngError {
    open spec fn obeys_from_spec() -> bool {
        true
    }

    open spec fn from_spec(e: FilterError) -> Self {
        PngError::Filter(e)
    }
}

impl From<ConvertError> for PngError {
    fn from(e: ConvertError) -> (r: Self) {
        PngError::Convert(e)
    }
}

impl vstd::std_specs::convert::FromSpecImpl<ConvertError> for PngError {
    open spec fn obeys_from_spec() -> bool {
        true
    }

    open spec fn from_spec(e: ConvertError) -> Self {
        PngError::Convert(e)
    }
}

/// A per-pass filter/convert failure is the same leaf as its progressive
/// counterpart, so it goes to the flat variant rather than a nested one.
pub open spec fn flattened(e: InterlaceError) -> PngError {
    match e {
        InterlaceError::Filter(f) => PngError::Filter(f),
        InterlaceError::Convert(c) => PngError::Convert(c),
        InterlaceError::Truncated => PngError::InterlaceTruncated,
    }
}

impl From<InterlaceError> for PngError {
    fn from(e: InterlaceError) -> (r: Self) {
        match e {
            InterlaceError::Filter(f) => PngError::Filter(f),
            InterlaceError::Convert(c) => PngError::Convert(c),
            InterlaceError::Truncated => PngError::InterlaceTruncated,
        }
    }
}

impl vstd::std_specs::convert::FromSpecImpl<InterlaceError> for PngError {
    open spec fn obeys_from_spec() -> bool {
        true
    }

    open spec fn from_spec(e: InterlaceError) -> Self {
        flattened(e)
    }
}

} // verus!
