//! Canonical Huffman tables for DEFLATE.
//!
//! [`build_tree`] returns a direct-indexed [`HuffmanTable`] sized to
//! `2.pow(max_code_length)` so decoding one symbol is a single peek +
//! array lookup. The encoder side ([`EncTable`]) is returned in
//! the same call so writers can re-emit codes at identical bit-lengths.

use vstd::arithmetic::power2::{lemma2_to64, lemma_pow2_pos, lemma_pow2_strictly_increases, pow2};
use vstd::prelude::*;

use super::canonical::{
    check_lengths, code_bits, code_count, code_end, coded_count, count_len, decode_symbol, enc_of,
    first_code, kraft, law_decode_symbol_of_code, lemma_code_end_bound, lemma_code_fits,
    lemma_count_len_step, lemma_kraft_is_code_end, lemma_max_len, lemma_pattern_is_symbol, max_len,
    pattern_matches, symbol_at,
};
use super::error::DecodeError;
use super::events::{EncTable, SymCode};
use crate::bitstream::{
    bit_num, bits_at, lemma_lsb_value_bound, lsb_value, msb_bits, skip_bits, BitReader,
};

verus! {

/// Decoder lookup table: slot `v` answers for the peeked pattern `v`.
#[derive(Debug, Clone)]
pub struct HuffmanTable {
    pub entries: Vec<LutEntry>,
    /// The width peeked on every decode.
    pub max_bits: u8,
}

#[derive(Debug, Clone, Copy, PartialEq, Eq, Structural)]
pub struct LutEntry {
    pub sym: u16,
    /// 0 for empty slots (no valid code).
    pub used_bits: u8,
}

impl HuffmanTable {
    /// The table has a slot for every pattern of its width.
    pub open spec fn wf(self) -> bool {
        self.max_bits == 0 || (self.max_bits <= 15 && self.entries@.len() == pow2(
            self.max_bits as nat,
        ))
    }

    /// The table decodes the canonical code that `lengths` defines.
    pub open spec fn decodes(self, lengths: Seq<u32>) -> bool {
        &&& self.max_bits == max_len(lengths)
        &&& self.max_bits > 0 ==> forall|v: int|
            0 <= v < self.entries@.len() ==> slot_decodes(
                lengths,
                lengths.len() as int,
                v,
                #[trigger] self.entries@[v],
            )
    }

    /// True when the alphabet has no codes.
    pub fn is_empty(&self) -> (r: bool)
        ensures
            r == (self.max_bits == 0),
    {
        self.max_bits == 0
    }

    /// The width peeked on every decode: the longest code length.
    pub fn max_bits(&self) -> (r: u8)
        ensures
            r == self.max_bits,
    {
        self.max_bits
    }
}

/// A slot names the symbol below `n` that its pattern begins with, or is empty
/// where there is none.
pub open spec fn slot_decodes(lengths: Seq<u32>, n: int, v: int, e: LutEntry) -> bool {
    if e.used_bits == 0 {
        forall|s: int| 0 <= s < n ==> !#[trigger] pattern_matches(lengths, s, v as nat)
    } else {
        &&& e.sym < n
        &&& pattern_matches(lengths, e.sym as int, v as nat)
        &&& e.used_bits == lengths[e.sym as int]
    }
}

/// What [`decode_sym`] does with the table and the bits at `pos`.
pub open spec fn lookup(table: HuffmanTable, data: Seq<u8>, pos: nat) -> Result<
    (u16, nat),
    DecodeError,
> {
    let v = lsb_value(bits_at(data, pos as int, table.max_bits as nat));
    let e = table.entries@[v as int];
    if table.max_bits == 0 {
        Err(DecodeError::InvalidHuffmanCode { max_bits: 0, code: 0 })
    } else if e.used_bits == 0 {
        Err(DecodeError::InvalidHuffmanCode { max_bits: table.max_bits, code: v as u16 })
    } else {
        Ok((e.sym, skip_bits(pos, e.used_bits as nat)))
    }
}

/// A table that decodes a canonical code answers as the code defines.
pub proof fn lemma_lookup_is_decode(
    table: HuffmanTable,
    lengths: Seq<u32>,
    data: Seq<u8>,
    pos: nat,
)
    requires
        table.wf(),
        table.decodes(lengths),
        check_lengths(lengths) is Ok,
    ensures
        lookup(table, data, pos) == decode_symbol(lengths, data, pos),
{
    let m = max_len(lengths);
    if m > 0 {
        let v = lsb_value(bits_at(data, pos as int, m));
        lemma_lsb_value_bound(bits_at(data, pos as int, m));
        let e = table.entries@[v as int];
        assert(slot_decodes(lengths, lengths.len() as int, v as int, e));
        if e.used_bits == 0 {
            if exists|s: int| symbol_at(lengths, data, pos as int, s) {
                let s = choose|s: int| symbol_at(lengths, data, pos as int, s);
                lemma_pattern_is_symbol(lengths, data, pos as int, s);
            }
        } else {
            lemma_pattern_is_symbol(lengths, data, pos as int, e.sym as int);
            law_decode_symbol_of_code(lengths, data, pos, e.sym as int);
        }
    }
}

/// The longest of `lengths`.
fn longest(lengths: &[u32]) -> (r: u32)
    ensures
        r == max_len(lengths@),
{
    let mut m: u32 = 0;
    let mut i: usize = 0;
    assert(lengths@.take(0) =~= Seq::<u32>::empty());
    while i < lengths.len()
        invariant
            i <= lengths@.len(),
            m == max_len(lengths@.take(i as int)),
        decreases lengths@.len() - i,
    {
        assert(lengths@.take(i + 1).drop_last() =~= lengths@.take(i as int));
        if lengths[i] > m {
            m = lengths[i];
        }
        i = i + 1;
    }
    assert(lengths@.take(lengths@.len() as int) =~= lengths@);
    m
}

/// A power of two that fits in 15 bits.
fn power_of_two(e: u32) -> (r: u32)
    requires
        e <= 15,
    ensures
        r == pow2(e as nat),
        1 <= r <= 0x8000,
{
    proof {
        lemma2_to64();
        lemma_pow2_pos(e as nat);
        if e < 15 {
            lemma_pow2_strictly_increases(e as nat, 15);
        }
        vstd::bits::lemma_u32_shl_is_mul(1u32, e);
    }
    1u32 << e
}

/// The claimed code space and the number of codes.
fn claimed_space(lengths: &[u32], m: u32) -> (r: (u32, usize))
    requires
        m == max_len(lengths@),
        m <= 15,
        lengths@.len() <= 0x1_0000,
    ensures
        r.0 == kraft(lengths@, m as nat),
        r.1 == coded_count(lengths@),
{
    let mut used: u32 = 0;
    let mut coded: usize = 0;
    let mut i: usize = 0;
    proof {
        lemma_max_len(lengths@);
        assert(lengths@.take(0) =~= Seq::<u32>::empty());
    }
    while i < lengths.len()
        invariant
            i <= lengths@.len(),
            lengths@.len() <= 0x1_0000,
            m <= 15,
            forall|s: int| 0 <= s < lengths@.len() ==> #[trigger] lengths@[s] <= m,
            used == kraft(lengths@.take(i as int), m as nat),
            used <= i * 0x8000,
            coded == coded_count(lengths@.take(i as int)),
            coded <= i,
        decreases lengths@.len() - i,
    {
        assert(lengths@.take(i + 1).drop_last() =~= lengths@.take(i as int));
        let l: u32 = lengths[i];
        if l > 0 {
            used = used + power_of_two(m - l);
            coded = coded + 1;
        }
        i = i + 1;
    }
    assert(lengths@.take(lengths@.len() as int) =~= lengths@);
    (used, coded)
}

/// The first canonical code of every length up to `m`, indexed by length.
fn first_codes(lengths: &[u32], m: u32) -> (r: Vec<u32>)
    requires
        m == max_len(lengths@),
        m <= 15,
        lengths@.len() <= 0x1_0000,
        kraft(lengths@, m as nat) <= pow2(m as nat),
    ensures
        r@.len() == m + 1,
        forall|b: int| 0 <= b <= m ==> #[trigger] r@[b] == first_code(lengths@, b as nat),
{
    let mut counts: Vec<u32> = Vec::new();
    let mut b: u32 = 0;
    while b <= m
        invariant
            b <= m + 1,
            m <= 15,
            counts@.len() == b,
            forall|j: int| 0 <= j < b ==> counts@[j] == 0,
        decreases m + 1 - b,
    {
        counts.push(0);
        b = b + 1;
    }
    let mut i: usize = 0;
    proof {
        lemma_max_len(lengths@);
        assert(lengths@.take(0) =~= Seq::<u32>::empty());
    }
    while i < lengths.len()
        invariant
            i <= lengths@.len(),
            lengths@.len() <= 0x1_0000,
            forall|s: int| 0 <= s < lengths@.len() ==> #[trigger] lengths@[s] <= m,
            counts@.len() == m + 1,
            forall|j: int|
                0 <= j <= m ==> #[trigger] counts@[j] == code_count(
                    lengths@.take(i as int),
                    j as nat,
                ),
            forall|j: int| 0 <= j <= m ==> #[trigger] counts@[j] <= i,
        decreases lengths@.len() - i,
    {
        let l: u32 = lengths[i];
        let ghost before = counts@;
        if l > 0 {
            let c: u32 = counts[l as usize];
            counts[l as usize] = c + 1;
        }
        proof {
            assert forall|j: int| 0 <= j <= m implies #[trigger] counts@[j] == code_count(
                lengths@.take(i + 1),
                j as nat,
            ) by {
                lemma_count_len_step(lengths@, i as int, j as nat);
                assert(before[j] == code_count(lengths@.take(i as int), j as nat));
            }
            assert forall|j: int| 0 <= j <= m implies #[trigger] counts@[j] <= i + 1 by {
                assert(before[j] <= i);
            }
        }
        i = i + 1;
    }
    proof {
        assert(lengths@.take(lengths@.len() as int) =~= lengths@);
        lemma_kraft_is_code_end(lengths@, m as nat);
        lemma2_to64();
    }
    let mut first: Vec<u32> = Vec::new();
    first.push(0);
    let mut k: u32 = 1;
    while k <= m
        invariant
            1 <= k <= m + 1,
            m <= 15,
            first@.len() == k,
            counts@.len() == m + 1,
            code_end(lengths@, m as nat) <= pow2(m as nat),
            forall|j: int|
                0 <= j <= m ==> #[trigger] counts@[j] == code_count(lengths@, j as nat),
            forall|j: int| 0 <= j < k ==> #[trigger] first@[j] == first_code(lengths@, j as nat),
        decreases m + 1 - k,
    {
        proof {
            lemma_code_end_bound(lengths@, m as nat, (k - 1) as nat);
            lemma2_to64();
            lemma_pow2_strictly_increases((k - 1) as nat, 16);
            assert(first@[k - 1] == first_code(lengths@, (k - 1) as nat));
            assert(counts@[k - 1] == code_count(lengths@, (k - 1) as nat));
        }
        let code: u32 = 2 * (first[(k - 1) as usize] + counts[(k - 1) as usize]);
        first.push(code);
        k = k + 1;
    }
    first
}

/// Fill every slot whose low `clen` bits are `rev`: those are the patterns
/// that begin with this code.
fn fill_slots(entries: &mut Vec<LutEntry>, rev: usize, step: usize, entry: LutEntry)
    requires
        step > 0,
        rev < step,
        old(entries)@.len() + step <= usize::MAX,
    ensures
        final(entries)@.len() == old(entries)@.len(),
        forall|v: int|
            0 <= v < old(entries)@.len() ==> #[trigger] final(entries)@[v] == (if v % (step as int)
                == rev {
                entry
            } else {
                old(entries)@[v]
            }),
{
    let size: usize = entries.len();
    let mut idx: usize = rev;
    let ghost mut turns: int = 0;
    proof {
        assert forall|v: int| 0 <= v < size implies #[trigger] entries@[v] == (if v % (step as int)
            == rev && v < idx {
            entry
        } else {
            old(entries)@[v]
        }) by {
            if v < rev {
                vstd::arithmetic::div_mod::lemma_small_mod(v as nat, step as nat);
            }
        }
    }
    while idx < size
        invariant
            step > 0,
            rev < step,
            size == entries@.len(),
            size == old(entries)@.len(),
            size + step <= usize::MAX,
            turns >= 0,
            idx == turns * step + rev,
            forall|v: int|
                0 <= v < size ==> #[trigger] entries@[v] == (if v % (step as int) == rev && v
                    < idx {
                    entry
                } else {
                    old(entries)@[v]
                }),
        decreases size + step - idx,
    {
        let ghost before = entries@;
        entries[idx] = entry;
        proof {
            let st = step as int;
            let rv = rev as int;
            assert forall|v: int| 0 <= v < size implies #[trigger] entries@[v] == (if v % st == rv
                && v < idx + step {
                entry
            } else {
                old(entries)@[v]
            }) by {
                assert(before[v] == (if v % st == rv && v < idx {
                    entry
                } else {
                    old(entries)@[v]
                }));
                vstd::arithmetic::div_mod::lemma_fundamental_div_mod_converse(
                    idx as int,
                    st,
                    turns,
                    rv,
                );
                if v % st == rv && idx <= v < idx + step {
                    vstd::arithmetic::div_mod::lemma_fundamental_div_mod(v, st);
                    let q = v / st;
                    assert(q == turns) by (nonlinear_arith)
                        requires
                            v == st * q + rv,
                            turns * st + rv <= v < turns * st + rv + st,
                            st > 0,
                    ;
                    assert(st * q == turns * st) by (nonlinear_arith)
                        requires
                            q == turns,
                    ;
                }
            }
            assert((turns + 1) * step == turns * step + step) by (nonlinear_arith);
            turns = turns + 1;
        }
        idx = idx + step;
    }
}

/// Reverse the low `len` bits of `code`.
pub fn reverse_bits(code: u16, len: u8) -> (r: u16)
    requires
        len <= 16,
    ensures
        r == lsb_value(msb_bits(code as nat, len as nat)),
{
    let mut r: u32 = 0;
    let mut i: u8 = 0;
    proof {
        lemma2_to64();
    }
    while i < len
        invariant
            i <= len <= 16,
            r == lsb_value(msb_bits(code as nat, i as nat)),
            r < pow2(i as nat),
        decreases len - i,
    {
        let q: u16 = code >> (i as u16);
        proof {
            vstd::bits::lemma_u16_shr_is_div(code, i as u16);
            assert(q & 1u16 == q % 2) by (bit_vector);
            let s = msb_bits(code as nat, (i + 1) as nat);
            assert(s.subrange(1, s.len() as int) =~= msb_bits(code as nat, i as nat));
            assert(bit_num(s[0]) == q % 2);
            lemma_lsb_value_bound(s);
            lemma2_to64();
            lemma_pow2_strictly_increases(i as nat, 17);
        }
        r = (q & 1) as u32 + 2 * r;
        i = i + 1;
    }
    proof {
        lemma2_to64();
        if len < 16 {
            lemma_pow2_strictly_increases(len as nat, 16);
        }
    }
    r as u16
}

/// Build a canonical Huffman table from per-symbol code lengths. Returns
/// the decoder LUT alongside the encoder side table. An all-zero / empty
/// length set yields a table with `max_bits == 0`, which [`decode_sym`]
/// treats as an empty alphabet.
///
/// Validates the Kraft-McMillan inequality before building: an
/// over-subscribed length set would let later symbols overwrite slots
/// assigned to earlier ones, and an under-subscribed set leaves valid peek
/// patterns with no symbol; both fail loudly here instead. The
/// single-symbol/single-bit degenerate code allowed by RFC 1951 §3.2.2 (used
/// when only one distance is referenced) is the one exception.
pub fn build_tree(lengths: &[u32]) -> (r: Result<(HuffmanTable, EncTable), DecodeError>)
    requires
        lengths@.len() <= 0x1_0000,
    ensures
        match r {
            Ok((table, enc)) => check_lengths(lengths@) is Ok && table.wf() && table.decodes(
                lengths@,
            ) && enc@ == enc_of(lengths@),
            Err(e) => check_lengths(lengths@) == Err::<(), _>(e),
        },
{
    let m: u32 = longest(lengths);
    proof {
        lemma_max_len(lengths@);
        lemma2_to64();
    }
    if m == 0 {
        let enc = EncTable::new(lengths.len());
        assert(enc@ =~= enc_of(lengths@)) by {
            assert(forall|s: int| 0 <= s < lengths@.len() ==> #[trigger] lengths@[s] == 0);
        }
        return Ok((HuffmanTable { entries: Vec::new(), max_bits: 0 }, enc));
    }
    if m > 15 {
        return Err(DecodeError::HuffmanCodeTooLong { max_bits: m as u8 });
    }
    let max_bits: u8 = m as u8;
    let kraft_full: u32 = power_of_two(m);
    let (kraft_used, coded) = claimed_space(lengths, m);
    if kraft_used > kraft_full {
        return Err(
            DecodeError::OverSubscribedHuffman {
                max_bits,
                expected: kraft_full,
                actual: kraft_used,
            },
        );
    }
    if kraft_used < kraft_full {
        let single_one_bit = coded == 1 && max_bits == 1;
        if !single_one_bit {
            return Err(DecodeError::UnderSubscribedHuffman { max_bits, actual: kraft_used });
        }
    }
    assert(check_lengths(lengths@) is Ok);
    let mut next_code: Vec<u32> = first_codes(lengths, m);
    let lut_size: usize = kraft_full as usize;
    let mut entries: Vec<LutEntry> = Vec::new();
    let empty = LutEntry { sym: 0, used_bits: 0 };
    let mut k: usize = 0;
    while k < lut_size
        invariant
            k <= lut_size,
            entries@.len() == k,
            empty.used_bits == 0,
            forall|v: int| 0 <= v < k ==> (#[trigger] entries@[v]).used_bits == 0,
        decreases lut_size - k,
    {
        entries.push(empty);
        k = k + 1;
    }
    let mut enc = EncTable::new(lengths.len());
    let mut i: usize = 0;
    proof {
        assert(lengths@.take(0) =~= Seq::<u32>::empty());
    }
    while i < lengths.len()
        invariant
            i <= lengths@.len() <= 0x1_0000,
            check_lengths(lengths@) is Ok,
            m == max_len(lengths@),
            1 <= m <= 15,
            lut_size == pow2(m as nat),
            lut_size <= 0x8000,
            entries@.len() == lut_size,
            next_code@.len() == m + 1,
            forall|b: int|
                1 <= b <= m ==> #[trigger] next_code@[b] == first_code(lengths@, b as nat)
                    + count_len(lengths@.take(i as int), b as nat),
            enc@.len() == lengths@.len(),
            forall|s: int| 0 <= s < i ==> #[trigger] enc@[s] == enc_of(lengths@)[s],
            forall|s: int| i <= s < lengths@.len() ==> #[trigger] enc@[s] == (SymCode {
                code: 0,
                len: 0,
            }),
            forall|v: int|
                0 <= v < lut_size ==> slot_decodes(lengths@, i as int, v, #[trigger] entries@[v]),
        decreases lengths@.len() - i,
    {
        let l: u32 = lengths[i];
        let ghost old_next = next_code@;
        let ghost old_entries = entries@;
        if l > 0 {
            proof {
                lemma_code_fits(lengths@, i as int);
            }
            let clen: u8 = l as u8;
            let c: u32 = next_code[l as usize];
            enc.set(i as u16, c as u16, clen);
            next_code[l as usize] = c + 1;
            let rev: u16 = reverse_bits(c as u16, clen);
            let step: u32 = power_of_two(l);
            proof {
                lemma_lsb_value_bound(code_bits(lengths@, i as int));
            }
            fill_slots(
                &mut entries,
                rev as usize,
                step as usize,
                LutEntry { sym: i as u16, used_bits: clen },
            );
        }
        proof {
            assert forall|b: int| 1 <= b <= m implies #[trigger] next_code@[b] == first_code(
                lengths@,
                b as nat,
            ) + count_len(lengths@.take(i + 1), b as nat) by {
                lemma_count_len_step(lengths@, i as int, b as nat);
                assert(old_next[b] == first_code(lengths@, b as nat) + count_len(
                    lengths@.take(i as int),
                    b as nat,
                ));
            }
            assert forall|v: int| 0 <= v < lut_size implies slot_decodes(
                lengths@,
                i + 1,
                v,
                #[trigger] entries@[v],
            ) by {
                assert(slot_decodes(lengths@, i as int, v, old_entries[v]));
                assert(pattern_matches(lengths@, i as int, v as nat) == (l > 0 && v % pow2(
                    l as nat,
                ) as int == lsb_value(code_bits(lengths@, i as int))));
            }
        }
        i = i + 1;
    }
    assert(enc@ =~= enc_of(lengths@));
    Ok((HuffmanTable { entries, max_bits }, enc))
}

/// Decode one symbol from `reader`. Returns an error if the peeked bits
/// don't match any code in the table (gap in the canonical Huffman set or
/// truncated input decoded as zeros); the position then stays where it was.
pub fn decode_sym(reader: &mut BitReader, table: &HuffmanTable) -> (r: Result<u16, DecodeError>)
    requires
        table.wf(),
    ensures
        final(reader).bytes() == old(reader).bytes(),
        match lookup(*table, old(reader).bytes(), old(reader).position()) {
            Ok((sym, pos)) => r == Ok::<_, DecodeError>(sym) && final(reader).position() == pos,
            Err(e) => r == Err::<u16, _>(e) && final(reader).position() == old(reader).position(),
        },
        forall|lengths: Seq<u32>| #[trigger]
            table.decodes(lengths) && check_lengths(lengths) is Ok ==> lookup(
                *table,
                old(reader).bytes(),
                old(reader).position(),
            ) == decode_symbol(lengths, old(reader).bytes(), old(reader).position()),
{
    proof {
        assert forall|lengths: Seq<u32>| #[trigger]
            table.decodes(lengths) && check_lengths(lengths) is Ok implies lookup(
            *table,
            old(reader).bytes(),
            old(reader).position(),
        ) == decode_symbol(lengths, old(reader).bytes(), old(reader).position()) by {
            lemma_lookup_is_decode(
                *table,
                lengths,
                old(reader).bytes(),
                old(reader).position(),
            );
        }
    }
    if table.max_bits == 0 {
        return Err(DecodeError::InvalidHuffmanCode { max_bits: 0, code: 0 });
    }
    let peek: u32 = reader.peek_bits(table.max_bits as u32);
    proof {
        lemma_lsb_value_bound(
            bits_at(reader.bytes(), reader.position() as int, table.max_bits as nat),
        );
    }
    let entry = table.entries[peek as usize];
    if entry.used_bits == 0 {
        return Err(
            DecodeError::InvalidHuffmanCode { max_bits: table.max_bits, code: peek as u16 },
        );
    }
    reader.advance(entry.used_bits as u32);
    Ok(entry.sym)
}

} // verus!
