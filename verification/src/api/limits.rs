//! Cheap looks at a file before the full decode.

use vstd::prelude::*;

use crate::png::chunks::{chunks_info, parse_chunks, parse_ihdr, read_chunks, PngInfo};

verus! {

/// Sixteen mebibytes.
pub const LARGE_OUTPUT: u64 = 0x0100_0000;

/// The header that a file starts with, where its chunks parse.
pub open spec fn header_of(data: Seq<u8>) -> Option<PngInfo> {
    match parse_chunks(data) {
        Ok(parsed) => chunks_info(parsed.chunks),
        Err(_) => None,
    }
}

/// Parse just the IHDR chunk out of the first bytes of a file, to show
/// dimensions and a working-set estimate *before* committing to a multi-second
/// full load. A sniff may straddle the IHDR CRC; any chunks error is "no
/// preview, fall through to full load".
pub fn peek_header(data: &[u8]) -> (r: Option<PngInfo>)
    ensures
        r == header_of(data@),
{
    match read_chunks(data) {
        Ok(parsed) => parse_ihdr(parsed.chunks.as_slice()),
        Err(_) => None,
    }
}

/// Whether `data`'s IHDR declares more than 16 MiB of unfiltered output,
/// reckoned as `height * (1 + width * bpp)` bytes.
///
/// Decoding already caps inflation at the IHDR-implied size (so a
/// decompression bomb is rejected, not allocated), but that cap can still be
/// up to 4 GiB. Skipping the largest declared images keeps a bulk run spending
/// its time on structure rather than big-but-valid allocations.
pub fn oversized(data: &[u8]) -> (r: bool)
    ensures
        r == match header_of(data@) {
            Some(info) => info.height * (1 + info.width * info.bpp) > LARGE_OUTPUT,
            None => false,
        },
{
    match peek_header(data) {
        Some(info) => {
            proof {
                let (w, h, b) = (info.width as int, info.height as int, info.bpp as int);
                assert(0 <= w * b <= 0xFFFF_FFFF * 8) by (nonlinear_arith)
                    requires
                        0 <= w <= 0xFFFF_FFFF,
                        0 <= b <= 8,
                ;
                assert(0 <= h * (1 + w * b) <= 0xFFFF_FFFF * 0x8_0000_0000) by (nonlinear_arith)
                    requires
                        0 <= h <= 0xFFFF_FFFF,
                        0 <= w * b <= 0xFFFF_FFFF * 8,
                ;
            }
            let out: u128 = info.height as u128 * (1 + info.width as u128 * info.bpp as u128);
            out > LARGE_OUTPUT as u128
        },
        None => false,
    }
}

} // verus!
