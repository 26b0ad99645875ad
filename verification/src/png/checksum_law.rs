//! What the checksums of a PNG file are, computed straight from the bytes as
//! they stand in the file.

use vstd::prelude::*;

use super::chunks::{
    all_chunk_bytes, be_bytes, be_number, chunk_bytes, chunk_crc, crc_bit, crc_bits, crc_byte,
    crc_register, file_bytes, find_chunk, idat_bytes, idat_tag, lemma_be_round_trip, lengths_fit,
    plte_tag, trns_tag, with_chunk, ChunkType, ChunkView, Parsed, PNG_SIG,
};
use super::zlib::{adler_of, adler_sums, fcheck_ok, split_zlib, zlib_stream};
use crate::bitstream::{bit_at, bits_at};

verus! {

// CRC-32.

/// The division register with one message bit more: it moves down by one bit,
/// and takes the generator polynomial off where the bit that falls out differs
/// from the message's.
pub open spec fn divided(reg: u32, bit: bool) -> u32 {
    if (reg & 1 == 1) != bit {
        (reg >> 1) ^ 0xEDB8_8320
    } else {
        reg >> 1
    }
}

/// The register after a message, given bit by bit.
pub open spec fn remainder(bits: Seq<bool>) -> u32
    decreases bits.len(),
{
    if bits.len() == 0 {
        0xFFFF_FFFF
    } else {
        divided(remainder(bits.drop_last()), bits.last())
    }
}

/// The CRC-32 of a byte string: the inverted remainder of its bits, each byte's
/// lowest first.
pub open spec fn crc_of(bytes: Seq<u8>) -> int {
    0xFFFF_FFFF - remainder(bits_at(bytes, 0, 8 * bytes.len()))
}

/// The number in the four bytes at `p`, the first the most significant.
pub open spec fn four_bytes(s: Seq<u8>, p: int) -> int {
    ((s[p] * 256 + s[p + 1]) * 256 + s[p + 2]) * 256 + s[p + 3]
}

/// Bit by bit, the register follows the bits of the byte.
proof fn lemma_divided_bits(reg: u32, b: u8, bits: Seq<bool>, k: nat)
    requires
        k <= 8,
        bits.len() >= k,
        forall|i: int|
            bits.len() - k <= i < bits.len() ==> (#[trigger] bits[i]) == ((b >> ((i - (bits.len()
                - k)) as u8)) & 1u8 == 1u8),
        remainder(bits.take(bits.len() - k)) == reg,
    ensures
        remainder(bits) ^ ((b as u32) >> (k as u32)) == crc_bits((reg ^ (b as u32)) & 0xFF, k) ^ (((
        reg >> 8) << 8) >> (k as u32)),
    decreases k,
{
    if k == 0 {
        assert(bits.take(bits.len() as int) =~= bits);
        assert(reg ^ ((b as u32) >> 0) == ((reg ^ (b as u32)) & 0xFF) ^ (((reg >> 8) << 8) >> 0))
            by (bit_vector);
    } else {
        let front = bits.drop_last();
        let j = (k - 1) as nat;
        assert(front.take(front.len() - j) =~= bits.take(bits.len() - k));
        lemma_divided_bits(reg, b, front, j);
        let x = remainder(front);
        let c = crc_bits((reg ^ (b as u32)) & 0xFF, j);
        let s = j as u32;
        let bit = (b >> (j as u8)) & 1u8 == 1u8;
        assert(bits.last() == bit);
        assert(bit == (((b as u32) >> s) & 1 == 1)) by (bit_vector)
            requires
                s < 8,
                bit == ((b >> (s as u8)) & 1u8 == 1u8),
        ;
        let y: u32 = if (x & 1 == 1) != bit {
            (x >> 1) ^ 0xEDB8_8320
        } else {
            x >> 1
        };
        let d: u32 = if c & 1 != 0 {
            0xEDB8_8320 ^ (c >> 1)
        } else {
            c >> 1
        };
        let t = k as u32;
        assert(y ^ ((b as u32) >> t) == d ^ (((reg >> 8) << 8) >> t))
            by (bit_vector)
            requires
                s < 8,
                t == s + 1,
                x ^ ((b as u32) >> s) == c ^ (((reg >> 8) << 8) >> s),
                bit == (((b as u32) >> s) & 1 == 1),
                y == (if (x & 1 == 1) != bit {
                    (x >> 1) ^ 0xEDB8_8320u32
                } else {
                    x >> 1
                }),
                d == (if c & 1 != 0 {
                    0xEDB8_8320u32 ^ (c >> 1)
                } else {
                    c >> 1
                }),
        ;
        assert(y == remainder(bits));
        assert(d == crc_bit(c));
    }
}

proof fn lemma_register(bytes: Seq<u8>)
    ensures
        crc_register(bytes) == remainder(bits_at(bytes, 0, 8 * bytes.len())),
    decreases bytes.len(),
{
    let all = bits_at(bytes, 0, 8 * bytes.len());
    if bytes.len() == 0 {
    } else {
        let front = bytes.drop_last();
        let b = bytes.last();
        lemma_register(front);
        let reg = crc_register(front);
        let n = front.len() as int;
        assert(all.take(8 * n) =~= bits_at(front, 0, 8 * front.len())) by {
            assert forall|i: int| 0 <= i < 8 * n implies bit_at(bytes, i) == bit_at(front, i) by {}
        }
        assert forall|i: int| 8 * n <= i < 8 * n + 8 implies (#[trigger] all[i]) == ((b >> ((i
            - 8 * n) as u8)) & 1u8 == 1u8) by {
            assert(i / 8 == n && i % 8 == i - 8 * n);
        }
        lemma_divided_bits(reg, b, all, 8);
        let r = remainder(all);
        let c = crc_bits((reg ^ (b as u32)) & 0xFF, 8);
        assert(r == c ^ (reg >> 8)) by (bit_vector)
            requires
                r ^ ((b as u32) >> 8u32) == c ^ (((reg >> 8) << 8) >> 8u32),
        ;
        assert(crc_byte(reg, b) == c ^ (reg >> 8));
    }
}

/// The CRC-32 that a chunk gets is that of its tag and its data, in this order.
pub proof fn law_chunk_crc(c: ChunkView)
    ensures
        chunk_crc(c.typ, c.data) == crc_of(seq![c.typ.0, c.typ.1, c.typ.2, c.typ.3] + c.data),
{
    reveal(chunk_crc);
    assert(c.typ@ =~= seq![c.typ.0, c.typ.1, c.typ.2, c.typ.3]);
    let all = c.typ@ + c.data;
    lemma_register(all);
    let r = crc_register(all);
    assert(r ^ 0xFFFF_FFFF == 0xFFFF_FFFFu32 - r) by (bit_vector);
}

proof fn lemma_chunks_before(chunks: Seq<ChunkView>, k: int)
    requires
        0 <= k < chunks.len(),
    ensures
        ({
            let p = all_chunk_bytes(chunks.take(k)).len() as int;
            let c = chunk_bytes(chunks[k]);
            &&& p + c.len() <= all_chunk_bytes(chunks).len()
            &&& all_chunk_bytes(chunks).subrange(p, p + c.len()) == c
        }),
    decreases chunks.len(),
{
    let front = chunks.drop_last();
    let p = all_chunk_bytes(chunks.take(k)).len() as int;
    let c = chunk_bytes(chunks[k]);
    if k == chunks.len() - 1 {
        assert(chunks.take(k) =~= front);
        assert(all_chunk_bytes(chunks).subrange(p, p + c.len()) =~= c);
    } else {
        lemma_chunks_before(front, k);
        assert(front.take(k) =~= chunks.take(k));
        assert(front[k] == chunks[k]);
        assert(all_chunk_bytes(chunks).subrange(p, p + c.len()) =~= all_chunk_bytes(
            front,
        ).subrange(p, p + c.len()));
    }
}

/// Where chunk `k` of a written file starts.
pub open spec fn chunk_offset(chunks: Seq<ChunkView>, k: int) -> int
    decreases k,
{
    if k <= 0 {
        8
    } else {
        chunk_offset(chunks, k - 1) + 12 + chunks[k - 1].data.len()
    }
}

proof fn lemma_offset(chunks: Seq<ChunkView>, k: int)
    requires
        0 <= k <= chunks.len(),
    ensures
        chunk_offset(chunks, k) == 8 + all_chunk_bytes(chunks.take(k)).len(),
    decreases k,
{
    if k > 0 {
        lemma_offset(chunks, k - 1);
        assert(chunks.take(k).drop_last() =~= chunks.take(k - 1));
        assert(chunk_bytes(chunks[k - 1]).len() == 12 + chunks[k - 1].data.len());
    } else {
        assert(chunks.take(0) =~= Seq::<ChunkView>::empty());
    }
}

/// Where a chunk's bytes stand, its parts stand at their places.
proof fn lemma_chunk_parts(file: Seq<u8>, p: int, c: ChunkView)
    requires
        0 <= p,
        c.data.len() <= u32::MAX,
        p + chunk_bytes(c).len() <= file.len(),
        file.subrange(p, p + chunk_bytes(c).len()) == chunk_bytes(c),
    ensures
        ({
            let n = c.data.len() as int;
            &&& chunk_bytes(c).len() == 12 + n
            &&& four_bytes(file, p) == n
            &&& file.subrange(p + 4, p + 8) == seq![c.typ.0, c.typ.1, c.typ.2, c.typ.3]
            &&& file.subrange(p + 8, p + 8 + n) == c.data
            &&& four_bytes(file, p + 8 + n) == crc_of(file.subrange(p + 4, p + 8 + n))
        }),
{
    let all = chunk_bytes(c);
    let n = c.data.len() as int;
    let part = file.subrange(p, p + all.len());
    let tag = seq![c.typ.0, c.typ.1, c.typ.2, c.typ.3];
    assert(c.typ@ =~= tag);
    let a = be_bytes(n as u32);
    let z = be_bytes(chunk_crc(c.typ, c.data));
    assert(all == a + tag + c.data + z);
    assert(all.subrange(0, 4) =~= a);
    assert(all.subrange(4, 8) =~= tag);
    assert(all.subrange(8, 8 + n) =~= c.data);
    assert(all.subrange(4, 8 + n) =~= tag + c.data);
    assert(all.subrange(8 + n, 12 + n) =~= z);
    assert(file.subrange(p, p + 4) =~= part.subrange(0, 4));
    assert(file.subrange(p + 4, p + 8) =~= part.subrange(4, 8));
    assert(file.subrange(p + 8, p + 8 + n) =~= part.subrange(8, 8 + n));
    assert(file.subrange(p + 4, p + 8 + n) =~= part.subrange(4, 8 + n));
    assert(file.subrange(p + 8 + n, p + 8 + n + 4) =~= part.subrange(8 + n, 12 + n));
    lemma_be_round_trip(file, p, n as u32);
    lemma_be_round_trip(file, p + 8 + n, chunk_crc(c.typ, c.data));
    lemma_four_bytes(file, p);
    lemma_four_bytes(file, p + 8 + n);
    law_chunk_crc(c);
}

proof fn lemma_four_bytes(s: Seq<u8>, p: int)
    ensures
        four_bytes(s, p) == be_number(s, p),
{
}

/// How a written file is laid out: the signature; then for every chunk its
/// length, its tag, its data, and the CRC-32 of the tag and data bytes as they
/// stand in the file, all numbers with their most significant byte first.
pub proof fn law_file_layout(chunks: Seq<ChunkView>, k: int)
    requires
        lengths_fit(chunks),
        0 <= k < chunks.len(),
    ensures
        ({
            let file = file_bytes(chunks);
            let p = chunk_offset(chunks, k);
            let n = chunks[k].data.len() as int;
            let typ = chunks[k].typ;
            &&& file.take(8) == seq![0x89u8, 0x50, 0x4E, 0x47, 0x0D, 0x0A, 0x1A, 0x0A]
            &&& 8 <= p
            &&& p + 12 + n <= file.len()
            &&& four_bytes(file, p) == n
            &&& file.subrange(p + 4, p + 8) == seq![typ.0, typ.1, typ.2, typ.3]
            &&& file.subrange(p + 8, p + 8 + n) == chunks[k].data
            &&& four_bytes(file, p + 8 + n) == crc_of(file.subrange(p + 4, p + 8 + n))
            &&& k == chunks.len() - 1 ==> file.len() == p + 12 + n
        }),
{
    let file = file_bytes(chunks);
    let c = chunks[k];
    assert(c.data.len() <= u32::MAX);
    lemma_offset(chunks, k);
    lemma_chunks_before(chunks, k);
    let p = chunk_offset(chunks, k);
    let all = chunk_bytes(c);
    assert(file.subrange(p, p + all.len()) =~= all_chunk_bytes(chunks).subrange(
        p - 8,
        p - 8 + all.len(),
    ));
    lemma_chunk_parts(file, p, c);
    assert(file.take(8) =~= PNG_SIG@);
    assert(PNG_SIG@ =~= seq![0x89u8, 0x50, 0x4E, 0x47, 0x0D, 0x0A, 0x1A, 0x0A]);
    if k == chunks.len() - 1 {
        assert(chunks.take(k) =~= chunks.drop_last());
    }
}

/// How a chunk is read: its length, tag and data from where they stand, and a
/// warning exactly when the number behind them is not the CRC-32 of the tag and
/// data bytes.
pub proof fn law_chunk_read(acc: Parsed, data: Seq<u8>, p: int)
    requires
        0 <= p,
        p + 12 + four_bytes(data, p) <= data.len(),
    ensures
        ({
            let n = four_bytes(data, p);
            let r = with_chunk(acc, data, p);
            &&& r.chunks.len() == acc.chunks.len() + 1
            &&& r.chunks.drop_last() == acc.chunks
            &&& r.chunks.last().typ@ == data.subrange(p + 4, p + 8)
            &&& r.chunks.last().data == data.subrange(p + 8, p + 8 + n)
            &&& r.warnings.len() == acc.warnings.len() + (if four_bytes(data, p + 8 + n) == crc_of(
                data.subrange(p + 4, p + 8 + n),
            ) {
                0int
            } else {
                1
            })
        }),
{
    let n = four_bytes(data, p);
    let r = with_chunk(acc, data, p);
    let c = r.chunks.last();
    lemma_four_bytes(data, p);
    lemma_four_bytes(data, p + 8 + n);
    assert(r.chunks.drop_last() =~= acc.chunks);
    assert(c.typ@ =~= data.subrange(p + 4, p + 8));
    assert(seq![c.typ.0, c.typ.1, c.typ.2, c.typ.3] + c.data =~= data.subrange(p + 4, p + 8 + n));
    law_chunk_crc(c);
}

// Adler-32.

/// The sum of the first `k` bytes.
pub open spec fn byte_sum(data: Seq<u8>, k: int) -> int
    decreases k,
{
    if k <= 0 {
        0
    } else {
        byte_sum(data, k - 1) + data[k - 1]
    }
}

/// The sum of the first `k` bytes, each as often as there are bytes from it on
/// to the end of `n`.
pub open spec fn weighted_sum(data: Seq<u8>, n: int, k: int) -> int
    decreases k,
{
    if k <= 0 {
        0
    } else {
        weighted_sum(data, n, k - 1) + (n - (k - 1)) * data[k - 1]
    }
}

proof fn lemma_sums_front(data: Seq<u8>, m: int, n: int, k: int)
    requires
        0 <= k <= m <= data.len(),
    ensures
        byte_sum(data.take(m), k) == byte_sum(data, k),
        weighted_sum(data.take(m), n, k) == weighted_sum(data, n, k),
        weighted_sum(data, n + 1, k) == weighted_sum(data, n, k) + byte_sum(data, k),
        0 <= byte_sum(data, k),
        n >= k ==> 0 <= weighted_sum(data, n, k),
    decreases k,
{
    if k > 0 {
        lemma_sums_front(data, m, n, k - 1);
        let d = data[k - 1] as int;
        assert((n + 1 - (k - 1)) * d == (n - (k - 1)) * d + d) by (nonlinear_arith);
        assert(n >= k ==> 0 <= (n - (k - 1)) * d) by (nonlinear_arith)
            requires
                0 <= d,
        ;
    }
}

proof fn lemma_adler_sums(data: Seq<u8>)
    ensures
        adler_sums(data).0 == (1 + byte_sum(data, data.len() as int)) % 65521,
        adler_sums(data).1 == (data.len() + weighted_sum(
            data,
            data.len() as int,
            data.len() as int,
        )) % 65521,
    decreases data.len(),
{
    let n = data.len() as int;
    if n > 0 {
        let front = data.drop_last();
        let d = data.last() as int;
        lemma_adler_sums(front);
        assert(front =~= data.take(n - 1));
        lemma_sums_front(data, n - 1, n - 1, n - 1);
        let s = 1 + byte_sum(data, n - 1);
        let w = n - 1 + weighted_sum(data, n - 1, n - 1);
        vstd::arithmetic::div_mod::lemma_add_mod_noop_right(d, s, 65521);
        assert(adler_sums(data).0 == (s + d) % 65521);
        vstd::arithmetic::div_mod::lemma_add_mod_noop(w, s + d, 65521);
        assert(adler_sums(data).1 == (w + (s + d)) % 65521);
        assert((n - (n - 1)) * d == d) by (nonlinear_arith);
        assert(weighted_sum(data, n, n) == weighted_sum(data, n - 1, n - 1) + byte_sum(data, n - 1)
            + d);
    }
}

/// The Adler-32 of a byte string: its low half is one more than the sum of the
/// bytes, its high half the length and the sum of the bytes weighted by their
/// distance from the end, both modulo 65521.
pub proof fn law_adler(data: Seq<u8>)
    ensures
        adler_of(data) % 0x1_0000 == (1 + byte_sum(data, data.len() as int)) % 65521,
        adler_of(data) / 0x1_0000 == (data.len() + weighted_sum(
            data,
            data.len() as int,
            data.len() as int,
        )) % 65521,
{
    lemma_adler_sums(data);
}

/// How a zlib stream is laid out: the two header bytes, the deflated bytes, and
/// the Adler-32 of the raw bytes with its most significant byte first.
pub proof fn law_zlib_layout(deflate: Seq<u8>, header: Seq<u8>, raw: Seq<u8>)
    requires
        header.len() == 2,
    ensures
        ({
            let out = zlib_stream(deflate, header, raw);
            let n = deflate.len() as int;
            &&& out.len() == n + 6
            &&& out.take(2) == header
            &&& out.subrange(2, 2 + n) == deflate
            &&& four_bytes(out, 2 + n) == adler_of(raw)
        }),
{
    let out = zlib_stream(deflate, header, raw);
    let n = deflate.len() as int;
    let z = be_bytes(adler_of(raw));
    assert(out.take(2) =~= header);
    assert(out.subrange(2, 2 + n) =~= deflate);
    assert(out[2 + n] == z[0] && out[3 + n] == z[1] && out[4 + n] == z[2] && out[5 + n] == z[3]);
}

/// A header's own checksum holds exactly when some multiple of 31 spells it.
pub proof fn law_fcheck(cmf: u8, flg: u8)
    ensures
        fcheck_ok(cmf, flg) <==> exists|q: int| #[trigger] (31 * q) == 256 * cmf + flg,
{
    let v = 256 * cmf + flg;
    if fcheck_ok(cmf, flg) {
        assert(31 * (v / 31) == v);
    }
}

/// Which header bytes are taken: the low half of the first says deflate, its
/// high half a window of at most 32768 bytes, and the fifth bit of the second,
/// a preset dictionary, is clear. Six bytes are the least.
pub proof fn law_zlib_header(idat: Seq<u8>)
    ensures
        split_zlib(idat) is Ok <==> idat.len() >= 6 && idat[0] & 0x0F == 8 && (1u32 << (8 + (idat[0]
            >> 4)) as u32) <= 32768 && idat[1] & 0x20 == 0,
        split_zlib(idat) matches Ok(z) ==> {
            &&& z.header + z.deflate == idat.take(idat.len() - 4)
            &&& z.header.len() == 2
            &&& z.adler == four_bytes(idat, idat.len() - 4)
            &&& z.warnings.len() == 0 <==> fcheck_ok(idat[0], idat[1])
        },
{
    if idat.len() >= 6 {
        let a = idat[0];
        let b = idat[1];
        assert(a & 0x0F == a % 16) by (bit_vector);
        assert((a >> 4) == a / 16) by (bit_vector);
        assert(b & 0x20 == 0 <==> b / 32 % 2 == 0) by (bit_vector);
        let c = (8 + (a >> 4)) as u32;
        assert(a >> 4 < 16) by (bit_vector);
        assert(c < 24 ==> ((1u32 << c) <= 32768 <==> c <= 15)) by (bit_vector);
    }
    if let Ok(z) = split_zlib(idat) {
        assert(z.header + z.deflate =~= idat.take(idat.len() - 4));
        lemma_four_bytes(idat, idat.len() - 4);
    }
}

/// The image data is the contents of the IDAT chunks one behind the other, and
/// of no others, however the stream is dealt out to them.
pub proof fn law_image_data(a: Seq<ChunkView>, b: Seq<ChunkView>, c: ChunkView)
    ensures
        idat_bytes(a + b) == idat_bytes(a) + idat_bytes(b),
        idat_bytes(seq![c]) == (if c.typ@ == seq![0x49u8, 0x44, 0x41, 0x54] {
            c.data
        } else {
            Seq::empty()
        }),
    decreases b.len(),
{
    if b.len() == 0 {
        assert(a + b =~= a);
        assert(idat_bytes(a) + idat_bytes(b) =~= idat_bytes(a));
    } else {
        law_image_data(a, b.drop_last(), c);
        assert((a + b).drop_last() =~= a + b.drop_last());
        assert((a + b).last() == b.last());
        assert(idat_bytes(a) + (idat_bytes(b.drop_last()) + b.last().data) =~= idat_bytes(a)
            + idat_bytes(b.drop_last()) + b.last().data);
    }
    let one = seq![c];
    assert(one.drop_last() =~= Seq::<ChunkView>::empty());
    assert(one.last() == c);
    assert(idat_bytes(one.drop_last()) == Seq::<u8>::empty());
    assert(Seq::<u8>::empty() + c.data =~= c.data);
    let t = c.typ@;
    if t == seq![0x49u8, 0x44, 0x41, 0x54] {
        assert(t[0] == 0x49 && t[1] == 0x44 && t[2] == 0x41 && t[3] == 0x54);
    } else if c.typ == idat_tag() {
        assert(t =~= seq![0x49u8, 0x44, 0x41, 0x54]);
    }
}

/// The chunk that a tag finds is the first with it.
pub proof fn law_first_chunk(chunks: Seq<ChunkView>, typ: ChunkType)
    ensures
        match find_chunk(chunks, typ, 0) {
            Some(c) => exists|i: int|
                0 <= i < chunks.len() && #[trigger] chunks[i] == c && c.typ == typ && forall|j: int|
                    0 <= j < i ==> (#[trigger] chunks[j]).typ != typ,
            None => forall|j: int| 0 <= j < chunks.len() ==> (#[trigger] chunks[j]).typ != typ,
        },
        plte_tag()@ == seq![0x50u8, 0x4C, 0x54, 0x45],
        trns_tag()@ == seq![0x74u8, 0x52, 0x4E, 0x53],
{
    lemma_found(chunks, typ, 0);
}

proof fn lemma_found(chunks: Seq<ChunkView>, typ: ChunkType, i: int)
    requires
        0 <= i <= chunks.len(),
        forall|j: int| 0 <= j < i ==> (#[trigger] chunks[j]).typ != typ,
    ensures
        match find_chunk(chunks, typ, i) {
            Some(c) => exists|i: int|
                0 <= i < chunks.len() && #[trigger] chunks[i] == c && c.typ == typ && forall|j: int|
                    0 <= j < i ==> (#[trigger] chunks[j]).typ != typ,
            None => forall|j: int| 0 <= j < chunks.len() ==> (#[trigger] chunks[j]).typ != typ,
        },
    decreases chunks.len() - i,
{
    if i < chunks.len() && chunks[i].typ != typ {
        lemma_found(chunks, typ, i + 1);
    }
}

} // verus!
