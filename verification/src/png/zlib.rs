//! zlib wrapping (RFC 1950) around a raw DEFLATE stream.

use vstd::prelude::*;

use super::chunks::{be_bytes, be_number, lemma_be_round_trip, push_be, read_be, Warning};

verus! {

/// Fatal errors from [`parse_zlib_stream`]: cases where the wrapper
/// bytes won't slice cleanly into a deflate buffer. FCHECK and the
/// trailing Adler-32 are checksums that surface as warnings instead.
#[derive(Debug, Clone, Copy, PartialEq, Eq, Structural)]
pub enum ZlibError {
    Truncated { actual: usize },
    BadCompressionMethod { cmf: u8 },
    FdictSet,
}

/// Output of [`parse_zlib_stream`]: the three pieces of the wrapped
/// deflate stream plus any header-level warnings (currently FCHECK).
#[derive(Debug)]
pub struct ParsedZlib<'a> {
    pub header: [u8; 2],
    pub deflate_buf: &'a [u8],
    pub stored_adler: u32,
    pub warnings: Vec<Warning>,
}

/// The pieces of a zlib stream.
#[verifier::ext_equal]
pub struct ZlibParts {
    pub header: Seq<u8>,
    pub deflate: Seq<u8>,
    pub adler: u32,
    pub warnings: Seq<Warning>,
}

impl<'a> View for ParsedZlib<'a> {
    type V = ZlibParts;

    open spec fn view(&self) -> ZlibParts {
        ZlibParts {
            header: self.header@,
            deflate: self.deflate_buf@,
            adler: self.stored_adler,
            warnings: self.warnings@,
        }
    }
}

/// The two header bytes are a multiple of 31, as FCHECK makes them.
pub open spec fn fcheck_ok(cmf: u8, flg: u8) -> bool {
    (cmf * 256 + flg) % 31 == 0
}

/// What a zlib stream splits into. CM (low nibble of CMF) must be 8
/// (deflate), CINFO (high nibble) at most 7, and FDICT (bit 5 of FLG) clear.
pub open spec fn split_zlib(idat: Seq<u8>) -> Result<ZlibParts, ZlibError> {
    let n = idat.len() as int;
    if n < 6 {
        Err(ZlibError::Truncated { actual: n as usize })
    } else if idat[0] % 16 != 8 || idat[0] / 16 > 7 {
        Err(ZlibError::BadCompressionMethod { cmf: idat[0] })
    } else if idat[1] / 32 % 2 == 1 {
        Err(ZlibError::FdictSet)
    } else {
        Ok(
            ZlibParts {
                header: idat.take(2),
                deflate: idat.subrange(2, n - 4),
                adler: be_number(idat, n - 4) as u32,
                warnings: if fcheck_ok(idat[0], idat[1]) {
                    Seq::empty()
                } else {
                    seq![Warning::ZlibHeaderChecksum]
                },
            },
        )
    }
}

/// Split an IDAT-concatenated zlib stream. Fails when the slice itself
/// would be wrong (truncation, non-deflate CM, FDICT); a non-validating
/// FCHECK is returned as a warning so the file still loads.
pub fn parse_zlib_stream<'a>(idat: &'a [u8]) -> (r: Result<ParsedZlib<'a>, ZlibError>)
    ensures
        match split_zlib(idat@) {
            Ok(parts) => r matches Ok(v) && v@ == parts,
            Err(e) => r == Err::<ParsedZlib<'a>, _>(e),
        },
{
    let n: usize = idat.len();
    if n < 6 {
        return Err(ZlibError::Truncated { actual: n });
    }
    let cmf: u8 = idat[0];
    let flg: u8 = idat[1];
    // CM (low nibble) must be 8 (deflate); CINFO (high nibble) <= 7 caps the
    // window at 32 KiB. Anything else is not a PNG zlib stream.
    if cmf % 16 != 8 || cmf / 16 > 7 {
        return Err(ZlibError::BadCompressionMethod { cmf });
    }
    if flg / 32 % 2 == 1 {
        return Err(ZlibError::FdictSet);
    }
    let mut warnings: Vec<Warning> = Vec::new();
    if (cmf as u32 * 256 + flg as u32) % 31 != 0 {
        warnings.push(Warning::ZlibHeaderChecksum);
    }
    let deflate_buf = vstd::slice::slice_subrange(idat, 2, n - 4);
    let stored_adler: u32 = read_be(idat, n - 4);
    let r = ParsedZlib { header: [cmf, flg], deflate_buf, stored_adler, warnings };
    proof {
        let parts = split_zlib(idat@).unwrap();
        assert(r.header@ =~= idat@.take(2));
        assert(r.warnings@ =~= parts.warnings);
        assert(r@ =~= parts);
    }
    Ok(r)
}

/// Default zlib header the encoder writes: CMF=0x78 (deflate, 32 KiB window),
/// FLG=0x9c (default compression level, FDICT clear, FCHECK chosen so the two
/// bytes are a multiple of 31). The re-emit path instead reuses a file's own
/// header bytes, so this is only the fresh-encode default.
pub const ZLIB_DEFAULT_HEADER: [u8; 2] = [0x78, 0x9C];

/// The bytes of a zlib stream.
pub open spec fn zlib_stream(deflate: Seq<u8>, header: Seq<u8>, raw: Seq<u8>) -> Seq<u8> {
    header + deflate + be_bytes(adler_of(raw))
}

/// Wrap `deflate_buf` in a zlib stream: 2-byte `header` prefix +
/// `deflate_buf` + 4-byte Adler-32 trailer computed over `raw`. The
/// caller passes the already-decoded raw bytes so saving doesn't have
/// to re-inflate the stream just to compute the Adler-32.
pub fn build_zlib_stream(deflate_buf: &[u8], header: [u8; 2], raw: &[u8]) -> (r: Vec<u8>)
    ensures
        r@ == zlib_stream(deflate_buf@, header@, raw@),
{
    let adler: u32 = adler32(raw);
    let mut out: Vec<u8> = Vec::new();
    out.extend_from_slice(header.as_slice());
    out.extend_from_slice(deflate_buf);
    push_be(&mut out, adler);
    assert(out@ =~= zlib_stream(deflate_buf@, header@, raw@));
    out
}

// Adler-32 (RFC 1950)

/// The two running sums, modulo 65521: of the bytes (from 1), and of the first
/// sum.
pub open spec fn adler_sums(data: Seq<u8>) -> (nat, nat)
    decreases data.len(),
{
    if data.len() == 0 {
        (1, 0)
    } else {
        let (s1, s2) = adler_sums(data.drop_last());
        let t1 = (s1 + data.last() as nat) % 65521;
        (t1, (s2 + t1) % 65521)
    }
}

/// The Adler-32 checksum.
pub open spec fn adler_of(data: Seq<u8>) -> u32 {
    (adler_sums(data).1 * 0x1_0000 + adler_sums(data).0) as u32
}

/// Adler-32 of `data`.
pub fn adler32(data: &[u8]) -> (r: u32)
    ensures
        r == adler_of(data@),
{
    let mut s1: u32 = 1;
    let mut s2: u32 = 0;
    let mut i: usize = 0;
    assert(data@.take(0) =~= Seq::<u8>::empty());
    while i < data.len()
        invariant
            i <= data@.len(),
            s1 < 65521,
            s2 < 65521,
            (s1 as nat, s2 as nat) == adler_sums(data@.take(i as int)),
        decreases data@.len() - i,
    {
        proof {
            assert(data@.take(i + 1).drop_last() =~= data@.take(i as int));
        }
        s1 = (s1 + data[i] as u32) % 65521;
        s2 = (s2 + s1) % 65521;
        i = i + 1;
    }
    assert(data@.take(data@.len() as int) =~= data@);
    s2 * 0x1_0000 + s1
}

/// A header that a PNG's zlib stream may carry; its own checksum may be off.
pub open spec fn header_ok(header: Seq<u8>) -> bool {
    header.len() == 2 && header[0] % 16 == 8 && header[0] / 16 <= 7 && header[1] / 32 % 2 == 0
}

/// Splitting a built stream gives back the header, the deflate bytes and the
/// checksum of the raw bytes, when the header is one that a PNG may carry. The
/// one thing to warn of is a header whose own checksum is off.
pub proof fn law_zlib_round_trip(deflate: Seq<u8>, header: Seq<u8>, raw: Seq<u8>)
    requires
        header_ok(header),
    ensures
        split_zlib(zlib_stream(deflate, header, raw)) == Ok::<_, ZlibError>(
            ZlibParts {
                header,
                deflate,
                adler: adler_of(raw),
                warnings: if fcheck_ok(header[0], header[1]) {
                    Seq::empty()
                } else {
                    seq![Warning::ZlibHeaderChecksum]
                },
            },
        ),
{
    let all = zlib_stream(deflate, header, raw);
    let n = all.len() as int;
    assert(all.take(2) =~= header);
    assert(all.subrange(2, n - 4) =~= deflate);
    assert(all.subrange(n - 4, n) =~= be_bytes(adler_of(raw)));
    lemma_be_round_trip(all, n - 4, adler_of(raw));
}

} // verus!
