//! Bit-level read/write for the DEFLATE stream.
//!
//! DEFLATE packs bits LSB-first within each byte. Huffman codes are
//! conceptually MSB-first but laid down LSB-first in the byte stream;
//! [`BitReader::read_bits`] and [`write_bits`] both honour that convention
//! so a code written by the writer reads back identically.
//!
//! The mathematical model is a stream of booleans: bit `p` of a byte string
//! is bit `p % 8` of byte `p / 8`, and every bit past the end is zero.

use vstd::prelude::*;
use vstd::arithmetic::power2::pow2;

verus! {

/// Bit `p` of `data`, LSB-first within each byte; zero past the end.
pub open spec fn bit_at(data: Seq<u8>, p: int) -> bool {
    0 <= p && p / 8 < data.len() && (data[p / 8] >> ((p % 8) as u8)) & 1u8 == 1u8
}

/// The `n` bits of `data` that start at bit `p`.
pub open spec fn bits_at(data: Seq<u8>, p: int, n: nat) -> Seq<bool> {
    Seq::new(n, |i: int| bit_at(data, p + i))
}

/// A bit as a number.
pub open spec fn bit_num(b: bool) -> nat {
    if b {
        1
    } else {
        0
    }
}

/// The number whose binary digits are `s`, least significant first.
pub open spec fn lsb_value(s: Seq<bool>) -> nat
    decreases s.len(),
{
    if s.len() == 0 {
        0
    } else {
        bit_num(s[0]) + 2 * lsb_value(s.subrange(1, s.len() as int))
    }
}

/// The number whose binary digits are `s`, most significant first.
pub open spec fn msb_value(s: Seq<bool>) -> nat
    decreases s.len(),
{
    if s.len() == 0 {
        0
    } else {
        2 * msb_value(s.drop_last()) + bit_num(s.last())
    }
}

/// The low `n` binary digits of `v`, least significant first.
pub open spec fn lsb_bits(v: nat, n: nat) -> Seq<bool> {
    Seq::new(n, |i: int| (v / pow2(i as nat)) % 2 == 1)
}

/// The low `n` binary digits of `v`, most significant first.
pub open spec fn msb_bits(v: nat, n: nat) -> Seq<bool> {
    Seq::new(n, |i: int| (v / pow2((n - 1 - i) as nat)) % 2 == 1)
}

/// Bit position `pos` moved on by `n`, held at `usize::MAX`.
pub open spec fn skip_bits(pos: nat, n: nat) -> nat {
    if pos + n <= usize::MAX {
        pos + n
    } else {
        usize::MAX as nat
    }
}

/// Bit position `pos` rounded up to a byte boundary, held at `usize::MAX`.
pub open spec fn byte_aligned(pos: nat) -> nat {
    skip_bits(pos, ((8 - pos % 8) % 8) as nat)
}

pub proof fn lemma_lsb_value_bound(s: Seq<bool>)
    ensures
        lsb_value(s) < pow2(s.len()),
    decreases s.len(),
{
    vstd::arithmetic::power2::lemma2_to64();
    if s.len() > 0 {
        lemma_lsb_value_bound(s.subrange(1, s.len() as int));
        vstd::arithmetic::power2::lemma_pow2_unfold(s.len());
    }
}

/// Dropping the first of the low digits of `v` leaves those of `v / 2`.
proof fn lemma_lsb_bits_step(v: nat, n: nat)
    requires
        n > 0,
    ensures
        lsb_bits(v, n)[0] == (v % 2 == 1),
        lsb_bits(v, n).subrange(1, n as int) == lsb_bits(v / 2, (n - 1) as nat),
{
    vstd::arithmetic::power2::lemma2_to64();
    assert(v / 1 == v);
    assert forall|i: int| 0 <= i < n - 1 implies lsb_bits(v, n).subrange(1, n as int)[i]
        == lsb_bits(v / 2, (n - 1) as nat)[i] by {
        vstd::arithmetic::power2::lemma_pow2_unfold((i + 1) as nat);
        vstd::arithmetic::power2::lemma_pow2_pos(i as nat);
        vstd::arithmetic::div_mod::lemma_div_denominator(v as int, 2, pow2(i as nat) as int);
    }
    assert(lsb_bits(v, n).subrange(1, n as int) =~= lsb_bits(v / 2, (n - 1) as nat));
}

/// The digits of a number spell its value modulo `2^n`.
pub proof fn lemma_lsb_bits_value(v: nat, n: nat)
    ensures
        lsb_value(lsb_bits(v, n)) == v % pow2(n),
    decreases n,
{
    vstd::arithmetic::power2::lemma2_to64();
    if n > 0 {
        lemma_lsb_bits_step(v, n);
        lemma_lsb_bits_value(v / 2, (n - 1) as nat);
        vstd::arithmetic::power2::lemma_pow2_unfold(n);
        vstd::arithmetic::power2::lemma_pow2_pos((n - 1) as nat);
        vstd::arithmetic::div_mod::lemma_breakdown(v as int, 2, pow2((n - 1) as nat) as int);
    }
}

/// A digit sequence is recovered from its value.
pub proof fn lemma_lsb_value_bits(s: Seq<bool>)
    ensures
        lsb_bits(lsb_value(s), s.len()) == s,
    decreases s.len(),
{
    if s.len() > 0 {
        let t = s.subrange(1, s.len() as int);
        lemma_lsb_value_bits(t);
        let v = lsb_value(s);
        lemma_lsb_bits_step(v, s.len());
        assert(v / 2 == lsb_value(t));
        assert(v % 2 == bit_num(s[0]));
        assert forall|i: int| 0 <= i < s.len() implies lsb_bits(v, s.len())[i] == s[i] by {
            if i > 0 {
                assert(lsb_bits(v, s.len()).subrange(1, s.len() as int)[i - 1] == t[i - 1]);
            }
        }
    }
    assert(lsb_bits(lsb_value(s), s.len()) =~= s);
}

/// Two digit sequences of one length with one value are the same sequence.
pub proof fn lemma_lsb_value_injective(a: Seq<bool>, b: Seq<bool>)
    requires
        a.len() == b.len(),
        lsb_value(a) == lsb_value(b),
    ensures
        a == b,
{
    lemma_lsb_value_bits(a);
    lemma_lsb_value_bits(b);
}

pub proof fn lemma_lsb_value_concat(a: Seq<bool>, b: Seq<bool>)
    ensures
        lsb_value(a + b) == lsb_value(a) + pow2(a.len()) * lsb_value(b),
    decreases a.len(),
{
    vstd::arithmetic::power2::lemma2_to64();
    if a.len() == 0 {
        assert(a + b =~= b);
    } else {
        let t = a.subrange(1, a.len() as int);
        lemma_lsb_value_concat(t, b);
        assert((a + b).subrange(1, (a + b).len() as int) =~= t + b);
        vstd::arithmetic::power2::lemma_pow2_unfold(a.len());
        let p = pow2(t.len());
        let x = lsb_value(b);
        assert(2 * (p * x) == (2 * p) * x) by (nonlinear_arith);
    }
}

/// The low `m` digits' value is the whole value modulo `2^m`.
pub proof fn lemma_lsb_value_prefix(s: Seq<bool>, m: nat)
    requires
        m <= s.len(),
    ensures
        lsb_value(s.subrange(0, m as int)) == lsb_value(s) % pow2(m),
        lsb_value(s.subrange(m as int, s.len() as int)) == lsb_value(s) / pow2(m),
{
    let a = s.subrange(0, m as int);
    let b = s.subrange(m as int, s.len() as int);
    assert(a + b =~= s);
    lemma_lsb_value_concat(a, b);
    lemma_lsb_value_bound(a);
    let p = pow2(m) as int;
    vstd::arithmetic::power2::lemma_pow2_pos(m);
    vstd::arithmetic::mul::lemma_mul_is_commutative(p, lsb_value(b) as int);
    vstd::arithmetic::div_mod::lemma_fundamental_div_mod_converse(
        lsb_value(s) as int,
        p,
        lsb_value(b) as int,
        lsb_value(a) as int,
    );
}

/// The `n` bits at `p` are the first `a` of them, then the rest.
pub proof fn lemma_bits_at_split(data: Seq<u8>, p: int, a: nat, b: nat)
    ensures
        bits_at(data, p, a + b) == bits_at(data, p, a) + bits_at(data, p + a, b),
{
    assert(bits_at(data, p, a + b) =~= bits_at(data, p, a) + bits_at(data, p + a, b));
}

/// A shifted and masked byte is a quotient's last binary digit.
pub proof fn lemma_byte_digit(b: u8, i: nat)
    requires
        i < 8,
    ensures
        ((b >> (i as u8)) & 1u8 == 1u8) == ((b as nat / pow2(i)) % 2 == 1),
{
    vstd::bits::lemma_u8_shr_is_div(b, i as u8);
    let q = b >> (i as u8);
    assert(q & 1u8 == q % 2) by (bit_vector);
}

/// Byte `k` of a stream, or zero past its end.
pub open spec fn byte_or_zero(data: Seq<u8>, k: int) -> u8 {
    if 0 <= k < data.len() {
        data[k]
    } else {
        0
    }
}

/// Eight bits at a byte boundary spell that byte.
pub proof fn lemma_byte_value(data: Seq<u8>, k: int)
    requires
        0 <= k,
    ensures
        lsb_value(bits_at(data, 8 * k, 8)) == byte_or_zero(data, k),
        bits_at(data, 8 * k, 8) == lsb_bits(byte_or_zero(data, k) as nat, 8),
{
    let b = byte_or_zero(data, k);
    vstd::arithmetic::power2::lemma2_to64();
    assert forall|i: int| 0 <= i < 8 implies bits_at(data, 8 * k, 8)[i] == lsb_bits(
        b as nat,
        8,
    )[i] by {
        assert((8 * k + i) / 8 == k && (8 * k + i) % 8 == i);
        lemma_byte_digit(b, i as nat);
        vstd::arithmetic::power2::lemma_pow2_pos(i as nat);
        if k >= data.len() {
            vstd::arithmetic::div_mod::lemma_basic_div(0, pow2(i as nat) as int);
        }
    }
    assert(bits_at(data, 8 * k, 8) =~= lsb_bits(b as nat, 8));
    lemma_lsb_bits_value(b as nat, 8);
}

/// Byte strings of one length that agree on every bit are equal.
pub proof fn lemma_bytes_from_bits(a: Seq<u8>, b: Seq<u8>)
    requires
        a.len() == b.len(),
        forall|p: int| 0 <= p < 8 * a.len() ==> bit_at(a, p) == bit_at(b, p),
    ensures
        a == b,
{
    assert forall|k: int| 0 <= k < a.len() implies a[k] == b[k] by {
        lemma_byte_value(a, k);
        lemma_byte_value(b, k);
        assert(bits_at(a, 8 * k, 8) =~= bits_at(b, 8 * k, 8));
    }
    assert(a =~= b);
}

/// Five bytes from byte `k` spell the forty bits at that boundary.
proof fn lemma_window_value(data: Seq<u8>, k: int)
    requires
        0 <= k,
    ensures
        lsb_value(bits_at(data, 8 * k, 40)) == byte_or_zero(data, k) + byte_or_zero(data, k + 1)
            * 0x100 + byte_or_zero(data, k + 2) * 0x1_0000 + byte_or_zero(data, k + 3) * 0x100_0000
            + byte_or_zero(data, k + 4) * 0x1_0000_0000,
{
    vstd::arithmetic::power2::lemma2_to64();
    lemma_byte_value(data, k);
    lemma_byte_value(data, k + 1);
    lemma_byte_value(data, k + 2);
    lemma_byte_value(data, k + 3);
    lemma_byte_value(data, k + 4);
    lemma_bits_at_split(data, 8 * k, 8, 32);
    lemma_bits_at_split(data, 8 * (k + 1), 8, 24);
    lemma_bits_at_split(data, 8 * (k + 2), 8, 16);
    lemma_bits_at_split(data, 8 * (k + 3), 8, 8);
    lemma_lsb_value_concat(bits_at(data, 8 * k, 8), bits_at(data, 8 * (k + 1), 32));
    lemma_lsb_value_concat(bits_at(data, 8 * (k + 1), 8), bits_at(data, 8 * (k + 2), 24));
    lemma_lsb_value_concat(bits_at(data, 8 * (k + 2), 8), bits_at(data, 8 * (k + 3), 16));
    lemma_lsb_value_concat(bits_at(data, 8 * (k + 3), 8), bits_at(data, 8 * (k + 4), 8));
    let b1 = lsb_value(bits_at(data, 8 * (k + 1), 32));
    let b2 = lsb_value(bits_at(data, 8 * (k + 2), 24));
    let b3 = lsb_value(bits_at(data, 8 * (k + 3), 16));
    assert(8 * k + 8 == 8 * (k + 1));
    assert(8 * (k + 1) + 8 == 8 * (k + 2));
    assert(8 * (k + 2) + 8 == 8 * (k + 3));
    assert(8 * (k + 3) + 8 == 8 * (k + 4));
    assert(b3 == byte_or_zero(data, k + 3) + 256 * byte_or_zero(data, k + 4));
    assert(b2 == byte_or_zero(data, k + 2) + 256 * b3);
    assert(b1 == byte_or_zero(data, k + 1) + 256 * b2);
}

/// `n` bits at offset `s` inside `m` bits are a quotient and a remainder.
proof fn lemma_bits_at_inner(data: Seq<u8>, p: int, s: nat, n: nat, m: nat)
    requires
        s + n <= m,
    ensures
        lsb_value(bits_at(data, p + s, n)) == (lsb_value(bits_at(data, p, m)) / pow2(s)) % pow2(n),
{
    let w = bits_at(data, p, m);
    lemma_lsb_value_prefix(w, s);
    let t = w.subrange(s as int, m as int);
    lemma_lsb_value_prefix(t, n);
    assert(t.subrange(0, n as int) =~= bits_at(data, p + s, n));
}

/// Dropping the last of the low digits, most significant first, leaves those
/// of `v / 2`.
proof fn lemma_msb_bits_step(v: nat, n: nat)
    requires
        n > 0,
    ensures
        msb_bits(v, n).last() == (v % 2 == 1),
        msb_bits(v, n).drop_last() == msb_bits(v / 2, (n - 1) as nat),
{
    vstd::arithmetic::power2::lemma2_to64();
    assert(v / 1 == v);
    assert forall|i: int| 0 <= i < n - 1 implies msb_bits(v, n).drop_last()[i] == msb_bits(
        v / 2,
        (n - 1) as nat,
    )[i] by {
        let e = (n - 1 - i) as nat;
        vstd::arithmetic::power2::lemma_pow2_unfold(e);
        vstd::arithmetic::power2::lemma_pow2_pos((e - 1) as nat);
        vstd::arithmetic::div_mod::lemma_div_denominator(
            v as int,
            2,
            pow2((e - 1) as nat) as int,
        );
    }
    assert(msb_bits(v, n).drop_last() =~= msb_bits(v / 2, (n - 1) as nat));
}

pub proof fn lemma_msb_bits_value(v: nat, n: nat)
    ensures
        msb_value(msb_bits(v, n)) == v % pow2(n),
    decreases n,
{
    vstd::arithmetic::power2::lemma2_to64();
    if n > 0 {
        lemma_msb_bits_step(v, n);
        lemma_msb_bits_value(v / 2, (n - 1) as nat);
        vstd::arithmetic::power2::lemma_pow2_unfold(n);
        vstd::arithmetic::power2::lemma_pow2_pos((n - 1) as nat);
        vstd::arithmetic::div_mod::lemma_breakdown(v as int, 2, pow2((n - 1) as nat) as int);
    }
}

pub proof fn lemma_msb_value_bits(s: Seq<bool>)
    ensures
        msb_bits(msb_value(s), s.len()) == s,
        msb_value(s) < pow2(s.len()),
    decreases s.len(),
{
    vstd::arithmetic::power2::lemma2_to64();
    if s.len() > 0 {
        let t = s.drop_last();
        lemma_msb_value_bits(t);
        vstd::arithmetic::power2::lemma_pow2_unfold(s.len());
        let v = msb_value(s);
        lemma_msb_bits_step(v, s.len());
        assert(v / 2 == msb_value(t));
        assert forall|i: int| 0 <= i < s.len() implies msb_bits(v, s.len())[i] == s[i] by {
            if i < s.len() - 1 {
                assert(msb_bits(v, s.len()).drop_last()[i] == t[i]);
            }
        }
    }
    assert(msb_bits(msb_value(s), s.len()) =~= s);
}

/// The bytes that hold `bits`, the last one filled up with zero bits.
pub open spec fn pack_bits(bits: Seq<bool>) -> Seq<u8> {
    Seq::new(
        ((bits.len() + 7) / 8) as nat,
        |k: int|
            lsb_value(Seq::new(8, |i: int| 8 * k + i < bits.len() && bits[8 * k + i])) as u8,
    )
}

/// Packing keeps every bit in its place.
pub proof fn lemma_pack_bits(bits: Seq<bool>, p: int)
    ensures
        bit_at(pack_bits(bits), p) == (0 <= p < bits.len() && bits[p]),
{
    let data = pack_bits(bits);
    if 0 <= p && p / 8 < data.len() {
        let k = p / 8;
        let s = Seq::new(8, |i: int| 8 * k + i < bits.len() && bits[8 * k + i]);
        lemma_lsb_value_bound(s);
        vstd::arithmetic::power2::lemma2_to64();
        assert(data[k] == lsb_value(s));
        lemma_byte_value(data, k);
        lemma_lsb_value_injective(s, bits_at(data, 8 * k, 8));
        assert(bits_at(data, 8 * k, 8)[p % 8] == s[p % 8]);
    }
}

/// Bytes of the right length that carry `bits`, then zeros, are its packing.
pub proof fn lemma_pack_bits_unique(data: Seq<u8>, bits: Seq<bool>)
    requires
        data.len() == (bits.len() + 7) / 8,
        forall|p: int|
            0 <= p < 8 * data.len() ==> bit_at(data, p) == (p < bits.len() && bits[p]),
    ensures
        data == pack_bits(bits),
{
    assert forall|p: int| 0 <= p < 8 * data.len() implies bit_at(data, p) == bit_at(
        pack_bits(bits),
        p,
    ) by {
        lemma_pack_bits(bits, p);
    }
    lemma_bytes_from_bits(data, pack_bits(bits));
}

/// `after` is `before` with the low `n` digits of `value`, most significant
/// first, laid over the bits from `start`, as far as the buffer reaches.
pub open spec fn is_patched(
    before: Seq<u8>,
    after: Seq<u8>,
    start: int,
    value: nat,
    n: nat,
) -> bool {
    &&& after.len() == before.len()
    &&& forall|p: int|
        0 <= p < 8 * before.len() ==> #[trigger] bit_at(after, p) == (if start <= p < start + n {
            msb_bits(value, n)[p - start]
        } else {
            bit_at(before, p)
        })
}

/// Rewriting bit `j` of byte `k` changes that bit of the stream alone.
pub proof fn lemma_set_bit(data: Seq<u8>, after: Seq<u8>, k: int, j: u8, v: bool)
    requires
        0 <= k < data.len(),
        j < 8,
        after == data.update(
            k,
            if v {
                data[k] | (1u8 << j)
            } else {
                data[k] & !(1u8 << j)
            },
        ),
    ensures
        forall|p: int|
            0 <= p < 8 * data.len() ==> #[trigger] bit_at(after, p) == (if p == 8 * k + j {
                v
            } else {
                bit_at(data, p)
            }),
{
    let b = data[k];
    assert forall|p: int| 0 <= p < 8 * data.len() implies #[trigger] bit_at(after, p) == (if p == 8
        * k + j {
        v
    } else {
        bit_at(data, p)
    }) by {
        let i = (p % 8) as u8;
        if p / 8 == k {
            assert(((b | (1u8 << j)) >> i) & 1u8 == (if i == j {
                1u8
            } else {
                (b >> i) & 1u8
            })) by (bit_vector)
                requires
                    i < 8,
                    j < 8,
            ;
            assert(((b & !(1u8 << j)) >> i) & 1u8 == (if i == j {
                0u8
            } else {
                (b >> i) & 1u8
            })) by (bit_vector)
                requires
                    i < 8,
                    j < 8,
            ;
        }
    }
}

/// Patch `n` bits of `value` (MSB-first) into `buf` starting at bit position
/// `bit_start`. Sets *and* clears bits, so it is safe to call repeatedly on
/// the same byte without leaking previous values; bits past the end of `buf`
/// are dropped.
pub fn write_bits(buf: &mut [u8], bit_start: usize, value: u32, n: u8)
    requires
        n <= 32,
    ensures
        is_patched(old(buf)@, final(buf)@, bit_start as int, value as nat, n as nat),
{
    let mut byte_idx: usize = bit_start / 8;
    let mut bit_idx: u8 = (bit_start % 8) as u8;
    let mut i: u8 = 0;
    let len: usize = buf.len();
    while i < n && byte_idx < len
        invariant
            n <= 32,
            i <= n,
            bit_idx < 8,
            len == buf@.len(),
            len == old(buf)@.len(),
            8 * byte_idx + bit_idx == bit_start + i,
            forall|p: int|
                0 <= p < 8 * len ==> #[trigger] bit_at(buf@, p) == (if bit_start <= p < bit_start
                    + i {
                    msb_bits(value as nat, n as nat)[p - bit_start]
                } else {
                    bit_at(old(buf)@, p)
                }),
        decreases n - i,
    {
        let e: u8 = n - 1 - i;
        let digit: u32 = value >> (e as u32);
        proof {
            vstd::bits::lemma_u32_shr_is_div(value, e as u32);
            assert(digit & 1u32 == digit % 2) by (bit_vector);
        }
        let b: u8 = buf[byte_idx];
        let ghost data = buf@;
        if digit & 1 != 0 {
            buf[byte_idx] = b | (1u8 << bit_idx);
        } else {
            buf[byte_idx] = b & !(1u8 << bit_idx);
        }
        proof {
            lemma_set_bit(data, buf@, byte_idx as int, bit_idx, digit & 1 != 0);
        }
        i = i + 1;
        if bit_idx == 7 {
            bit_idx = 0;
            byte_idx = byte_idx + 1;
        } else {
            bit_idx = bit_idx + 1;
        }
    }
}

/// How many of the `n` bits from `start` lie inside `len` bytes.
pub open spec fn bits_inside(len: nat, start: int, n: nat) -> nat {
    if start + n <= 8 * len {
        n
    } else if start <= 8 * len {
        (8 * len - start) as nat
    } else {
        0
    }
}

/// Read up to 32 bits at an arbitrary bit position, most significant first,
/// stopping at the end of the buffer. The standalone form (vs. constructing a
/// [`BitReader`]) is for one-shot reads: capturing the bits about to be
/// overwritten by a [`write_bits`] call so the reverse patch is recoverable,
/// for example.
pub fn read_bits_at(buf: &[u8], bit_start: usize, n: u8) -> (r: u32)
    requires
        n <= 32,
    ensures
        r == msb_value(
            bits_at(buf@, bit_start as int, bits_inside(buf@.len(), bit_start as int, n as nat)),
        ),
{
    let mut value: u32 = 0;
    let mut byte_idx: usize = bit_start / 8;
    let mut bit_idx: u8 = (bit_start % 8) as u8;
    let mut i: u8 = 0;
    while i < n && byte_idx < buf.len()
        invariant
            n <= 32,
            i <= n,
            bit_idx < 8,
            8 * byte_idx + bit_idx == bit_start + i,
            i > 0 ==> bit_start + i <= 8 * buf@.len(),
            value == msb_value(bits_at(buf@, bit_start as int, i as nat)),
        decreases n - i,
    {
        let bit: u8 = (buf[byte_idx] >> bit_idx) & 1;
        proof {
            let b = buf@[byte_idx as int];
            assert((b >> bit_idx) & 1u8 == 0 || (b >> bit_idx) & 1u8 == 1) by (bit_vector);
            let now = bits_at(buf@, bit_start as int, i as nat);
            let next = bits_at(buf@, bit_start as int, (i + 1) as nat);
            assert(next.drop_last() =~= now);
            lemma_msb_value_bits(now);
            vstd::arithmetic::power2::lemma2_to64();
            if i < 31 {
                vstd::arithmetic::power2::lemma_pow2_strictly_increases(i as nat, 31);
            }
            assert(value < 0x8000_0000);
        }
        value = value * 2 + bit as u32;
        i = i + 1;
        if bit_idx == 7 {
            bit_idx = 0;
            byte_idx = byte_idx + 1;
        } else {
            bit_idx = bit_idx + 1;
        }
    }
    value
}

/// What [`write_bits`] put into a buffer, [`read_bits_at`] gives back.
pub proof fn law_write_then_read(
    before: Seq<u8>,
    after: Seq<u8>,
    start: int,
    value: nat,
    n: nat,
)
    requires
        is_patched(before, after, start, value, n),
        0 <= start,
        start + n <= 8 * before.len(),
    ensures
        msb_value(bits_at(after, start, bits_inside(after.len(), start, n))) == value % pow2(n),
{
    assert(bits_at(after, start, n) =~= msb_bits(value, n));
    lemma_msb_bits_value(value, n);
}

/// Writing back the bits read before a patch undoes the patch.
pub proof fn law_write_back_undoes(
    before: Seq<u8>,
    after: Seq<u8>,
    restored: Seq<u8>,
    start: int,
    value: nat,
    n: nat,
)
    requires
        is_patched(before, after, start, value, n),
        0 <= start,
        start + n <= 8 * before.len(),
        is_patched(
            after,
            restored,
            start,
            msb_value(bits_at(before, start, bits_inside(before.len(), start, n))),
            n,
        ),
    ensures
        restored == before,
{
    lemma_msb_value_bits(bits_at(before, start, n));
    assert forall|p: int| 0 <= p < 8 * before.len() implies bit_at(restored, p) == bit_at(
        before,
        p,
    ) by {
        assert(bit_at(after, p) == bit_at(after, p));
        if start <= p < start + n {
            assert(bits_at(before, start, n)[p - start] == bit_at(before, p));
        }
    }
    lemma_bytes_from_bits(restored, before);
}

/// Streaming reader over a deflate bit stream.
///
/// Positions are bit offsets from the start. Reads past the end yield
/// zero bits: corrupt or truncated input must be detected by whichever
/// decoder consumes the bits, not by this reader.
pub struct BitReader<'a> {
    data: &'a [u8],
    pos: usize,
}

impl<'a> BitReader<'a> {
    /// The bytes being read.
    pub closed spec fn bytes(self) -> Seq<u8> {
        self.data@
    }

    /// The bit offset of the next read.
    pub closed spec fn position(self) -> nat {
        self.pos as nat
    }

    /// A bit offset fits in a `usize`.
    pub proof fn lemma_position_fits(self)
        ensures
            self.position() <= usize::MAX,
    {
    }

    /// Wrap `data` for reading, from its first bit.
    pub fn new(data: &'a [u8]) -> (r: Self)
        ensures
            r.bytes() == data@,
            r.position() == 0,
    {
        BitReader { data, pos: 0 }
    }

    fn byte(&self, i: usize) -> (r: u8)
        ensures
            r == byte_or_zero(self.bytes(), i as int),
    {
        if i < self.data.len() {
            self.data[i]
        } else {
            0
        }
    }

    /// Read up to 32 bits, LSB-first within bytes.
    pub fn read_bits(&mut self, n: u32) -> (r: u32)
        requires
            n <= 32,
        ensures
            r == lsb_value(bits_at(old(self).bytes(), old(self).position() as int, n as nat)),
            final(self).bytes() == old(self).bytes(),
            final(self).position() == skip_bits(old(self).position(), n as nat),
    {
        let r: u32 = self.peek_bits(n);
        self.advance(n);
        r
    }

    /// Peek up to 32 bits without advancing. The Huffman decoder uses this
    /// to look up a symbol in a LUT keyed by the next `max_bits`, then
    /// advances by only the matched code length.
    pub fn peek_bits(&self, n: u32) -> (r: u32)
        requires
            n <= 32,
        ensures
            r == lsb_value(bits_at(self.bytes(), self.position() as int, n as nat)),
    {
        let k: usize = self.pos / 8;
        let s: u64 = (self.pos % 8) as u64;
        let window: u64 = self.byte(k) as u64 + self.byte(k + 1) as u64 * 0x100 + self.byte(k + 2)
            as u64 * 0x1_0000 + self.byte(k + 3) as u64 * 0x100_0000 + self.byte(k + 4) as u64
            * 0x1_0000_0000;
        let shifted: u64 = window >> s;
        proof {
            vstd::arithmetic::power2::lemma_pow2_pos(n as nat);
            vstd::bits::lemma_u64_pow2_no_overflow(n as nat);
            vstd::bits::lemma_u64_shl_is_mul(1u64, n as u64);
        }
        let mask: u64 = (1u64 << (n as u64)) - 1;
        let r: u64 = shifted & mask;
        proof {
            lemma_window_value(self.bytes(), k as int);
            lemma_bits_at_inner(self.bytes(), 8 * k as int, s as nat, n as nat, 40);
            assert(8 * k + s == self.pos);
            vstd::bits::lemma_u64_shr_is_div(window, s);
            vstd::bits::lemma_u64_low_bits_mask_is_mod(shifted, n as nat);
            lemma_lsb_value_bound(bits_at(self.bytes(), self.pos as int, n as nat));
            vstd::arithmetic::power2::lemma2_to64();
            if n < 32 {
                vstd::arithmetic::power2::lemma_pow2_strictly_increases(n as nat, 32);
            }
        }
        r as u32
    }

    /// Advance the read position by `n` bits.
    pub fn advance(&mut self, n: u32)
        ensures
            final(self).bytes() == old(self).bytes(),
            final(self).position() == skip_bits(old(self).position(), n as nat),
    {
        self.pos = self.pos.saturating_add(n as usize);
    }

    /// Move on to the next byte boundary, unless already at one.
    pub fn align_to_byte(&mut self)
        ensures
            final(self).bytes() == old(self).bytes(),
            final(self).position() == byte_aligned(old(self).position()),
    {
        let rem: usize = self.pos % 8;
        if rem != 0 {
            self.pos = self.pos.saturating_add(8 - rem);
        }
    }

    /// The bit offset of the next read.
    pub fn bit_pos(&self) -> (r: usize)
        ensures
            r == self.position(),
    {
        self.pos
    }
}

} // verus!
