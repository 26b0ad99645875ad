//! Canonical Huffman codes as mathematics: which code each symbol gets from
//! its length alone (RFC 1951 §3.2.2), how much of the code space a set of
//! lengths claims, and why no code is a prefix of another.

use vstd::arithmetic::power2::{
    lemma2_to64, lemma_pow2_adds, lemma_pow2_pos, lemma_pow2_strictly_increases, lemma_pow2_unfold,
    pow2,
};
use vstd::prelude::*;

use super::error::DecodeError;
use super::events::SymCode;
use crate::bitstream::{
    bits_at, lemma_lsb_value_injective, lemma_lsb_value_prefix, lemma_msb_bits_value, lsb_value,
    msb_bits, msb_value, skip_bits,
};

verus! {

/// How many symbols have a code of `b` bits.
pub open spec fn count_len(lengths: Seq<u32>, b: nat) -> nat
    decreases lengths.len(),
{
    if lengths.len() == 0 {
        0
    } else {
        count_len(lengths.drop_last(), b) + (if lengths.last() == b {
            1nat
        } else {
            0nat
        })
    }
}

/// The number of `b`-bit codes; a zero length stands for no code at all.
pub open spec fn code_count(lengths: Seq<u32>, b: nat) -> nat {
    if b == 0 {
        0
    } else {
        count_len(lengths, b)
    }
}

/// The numerically smallest code of `b` bits.
pub open spec fn first_code(lengths: Seq<u32>, b: nat) -> nat
    decreases b,
{
    if b == 0 {
        0
    } else {
        2 * (first_code(lengths, (b - 1) as nat) + code_count(lengths, (b - 1) as nat))
    }
}

/// The code of symbol `s`: codes of one length are handed out in symbol order.
pub open spec fn code_of(lengths: Seq<u32>, s: int) -> nat {
    first_code(lengths, lengths[s] as nat) + count_len(lengths.take(s), lengths[s] as nat)
}

/// The code of symbol `s` as it stands in the stream.
pub open spec fn code_bits(lengths: Seq<u32>, s: int) -> Seq<bool> {
    msb_bits(code_of(lengths, s), lengths[s] as nat)
}

/// The longest code length.
pub open spec fn max_len(lengths: Seq<u32>) -> nat
    decreases lengths.len(),
{
    if lengths.len() == 0 {
        0
    } else {
        let m = max_len(lengths.drop_last());
        if lengths.last() > m {
            lengths.last() as nat
        } else {
            m
        }
    }
}

/// The number of `m`-bit patterns that the codes claim.
pub open spec fn kraft(lengths: Seq<u32>, m: nat) -> nat
    decreases lengths.len(),
{
    if lengths.len() == 0 {
        0
    } else {
        kraft(lengths.drop_last(), m) + (if lengths.last() > 0 {
            pow2((m - lengths.last()) as nat)
        } else {
            0
        })
    }
}

/// How many symbols have a code.
pub open spec fn coded_count(lengths: Seq<u32>) -> nat
    decreases lengths.len(),
{
    if lengths.len() == 0 {
        0
    } else {
        coded_count(lengths.drop_last()) + (if lengths.last() > 0 {
            1nat
        } else {
            0nat
        })
    }
}

/// Whether a set of code lengths may be used: no code longer than 15 bits,
/// and the code space claimed exactly, but for a lone one-bit code.
pub open spec fn check_lengths(lengths: Seq<u32>) -> Result<(), DecodeError> {
    let m = max_len(lengths);
    if m == 0 {
        Ok(())
    } else if m > 15 {
        Err(DecodeError::HuffmanCodeTooLong { max_bits: m as u8 })
    } else if kraft(lengths, m) > pow2(m) {
        Err(
            DecodeError::OverSubscribedHuffman {
                max_bits: m as u8,
                expected: pow2(m) as u32,
                actual: kraft(lengths, m) as u32,
            },
        )
    } else if kraft(lengths, m) < pow2(m) && !(coded_count(lengths) == 1 && m == 1) {
        Err(
            DecodeError::UnderSubscribedHuffman {
                max_bits: m as u8,
                actual: kraft(lengths, m) as u32,
            },
        )
    } else {
        Ok(())
    }
}

/// Symbol `s` has a code, and the bits at `pos` begin with it.
pub open spec fn symbol_at(lengths: Seq<u32>, data: Seq<u8>, pos: int, s: int) -> bool {
    &&& 0 <= s < lengths.len()
    &&& lengths[s] > 0
    &&& bits_at(data, pos, lengths[s] as nat) == code_bits(lengths, s)
}

/// Decoding one symbol at `pos`: the symbol and the position behind its code.
pub open spec fn decode_symbol(lengths: Seq<u32>, data: Seq<u8>, pos: nat) -> Result<
    (u16, nat),
    DecodeError,
> {
    let m = max_len(lengths);
    if m == 0 {
        Err(DecodeError::InvalidHuffmanCode { max_bits: 0, code: 0 })
    } else if exists|s: int| symbol_at(lengths, data, pos as int, s) {
        let s = choose|s: int| symbol_at(lengths, data, pos as int, s);
        Ok((s as u16, skip_bits(pos, lengths[s] as nat)))
    } else {
        Err(
            DecodeError::InvalidHuffmanCode {
                max_bits: m as u8,
                code: lsb_value(bits_at(data, pos as int, m)) as u16,
            },
        )
    }
}

/// The encoder's table for a set of code lengths.
pub open spec fn enc_of(lengths: Seq<u32>) -> Seq<SymCode> {
    Seq::new(
        lengths.len(),
        |s: int|
            if lengths[s] == 0 {
                SymCode { code: 0, len: 0 }
            } else {
                SymCode { code: code_of(lengths, s) as u16, len: lengths[s] as u8 }
            },
    )
}

pub proof fn lemma_max_len(lengths: Seq<u32>)
    ensures
        forall|s: int| 0 <= s < lengths.len() ==> #[trigger] lengths[s] <= max_len(lengths),
        max_len(lengths) > 0 ==> exists|s: int|
            0 <= s < lengths.len() && #[trigger] lengths[s] == max_len(lengths),
    decreases lengths.len(),
{
    if lengths.len() > 0 {
        let init = lengths.drop_last();
        lemma_max_len(init);
        assert forall|s: int| 0 <= s < lengths.len() implies #[trigger] lengths[s] <= max_len(
            lengths,
        ) by {
            if s < init.len() {
                assert(lengths[s] == init[s]);
            }
        }
        if max_len(lengths) > 0 {
            if lengths.last() > max_len(init) {
                assert(lengths[lengths.len() - 1] == max_len(lengths));
            } else {
                let s = choose|s: int| 0 <= s < init.len() && #[trigger] init[s] == max_len(init);
                assert(lengths[s] == max_len(lengths));
            }
        }
    }
}

/// Codes of `b` bits end at this number.
pub open spec fn code_end(lengths: Seq<u32>, b: nat) -> nat {
    first_code(lengths, b) + code_count(lengths, b)
}

/// One more symbol of length `l` claims `2^(b - l)` of the `b`-bit patterns.
proof fn lemma_code_end_push(init: Seq<u32>, l: u32, b: nat)
    ensures
        code_end(init.push(l), b) == code_end(init, b) + (if 0 < l <= b {
            pow2((b - l) as nat)
        } else {
            0
        }),
    decreases b,
{
    lemma2_to64();
    assert(init.push(l).drop_last() =~= init);
    if b > 0 {
        lemma_code_end_push(init, l, (b - 1) as nat);
        if 0 < l < b {
            lemma_pow2_unfold((b - l) as nat);
        }
    }
}

/// The codes end where the claimed code space ends.
pub proof fn lemma_kraft_is_code_end(lengths: Seq<u32>, m: nat)
    requires
        forall|s: int| 0 <= s < lengths.len() ==> #[trigger] lengths[s] <= m,
    ensures
        code_end(lengths, m) == kraft(lengths, m),
    decreases lengths.len(),
{
    if lengths.len() == 0 {
        lemma_code_end_empty(lengths, m);
    } else {
        let init = lengths.drop_last();
        assert forall|s: int| 0 <= s < init.len() implies #[trigger] init[s] <= m by {
            assert(init[s] == lengths[s]);
        }
        lemma_kraft_is_code_end(init, m);
        lemma_code_end_push(init, lengths.last(), m);
        assert(init.push(lengths.last()) =~= lengths);
        assert(lengths[lengths.len() - 1] <= m);
    }
}

proof fn lemma_code_end_empty(lengths: Seq<u32>, b: nat)
    requires
        lengths.len() == 0,
    ensures
        code_end(lengths, b) == 0,
    decreases b,
{
    if b > 0 {
        lemma_code_end_empty(lengths, (b - 1) as nat);
    }
}

/// Codes of `b` bits begin behind everything that shorter codes claim.
pub proof fn lemma_code_end_grows(lengths: Seq<u32>, a: nat, b: nat)
    requires
        a < b,
    ensures
        code_end(lengths, a) * pow2((b - a) as nat) <= first_code(lengths, b),
    decreases b,
{
    lemma2_to64();
    lemma_pow2_unfold((b - a) as nat);
    let e = code_end(lengths, a);
    if a + 1 < b {
        lemma_code_end_grows(lengths, a, (b - 1) as nat);
        let p = pow2((b - a - 1) as nat);
        assert(e * (2 * p) == 2 * (e * p)) by (nonlinear_arith);
    } else {
        assert(e * 2 == 2 * e);
    }
}

/// Within the claimed code space, every code fits its length.
pub proof fn lemma_code_end_bound(lengths: Seq<u32>, m: nat, b: nat)
    requires
        b <= m,
        code_end(lengths, m) <= pow2(m),
    ensures
        code_end(lengths, b) <= pow2(b),
{
    if b < m {
        lemma_code_end_grows(lengths, b, m);
        lemma_pow2_adds(b, (m - b) as nat);
        lemma_pow2_pos((m - b) as nat);
        let p = pow2((m - b) as nat) as int;
        let x = code_end(lengths, b) as int;
        let y = pow2(b) as int;
        assert(x <= y) by (nonlinear_arith)
            requires
                x * p <= y * p,
                p > 0,
        ;
    }
}

proof fn lemma_count_len_take(lengths: Seq<u32>, s: int, b: nat)
    requires
        0 <= s <= lengths.len(),
    ensures
        count_len(lengths.take(s), b) <= count_len(lengths, b),
    decreases lengths.len() - s,
{
    if s == lengths.len() {
        assert(lengths.take(s) =~= lengths);
    } else {
        assert(lengths.take(s + 1).drop_last() =~= lengths.take(s));
        lemma_count_len_take(lengths, s + 1, b);
    }
}

/// Counting one symbol further.
pub proof fn lemma_count_len_step(lengths: Seq<u32>, s: int, b: nat)
    requires
        0 <= s < lengths.len(),
    ensures
        count_len(lengths.take(s + 1), b) == count_len(lengths.take(s), b) + (if lengths[s] == b {
            1nat
        } else {
            0nat
        }),
        count_len(lengths.take(s + 1), b) <= count_len(lengths, b),
{
    assert(lengths.take(s + 1).drop_last() =~= lengths.take(s));
    lemma_count_len_take(lengths, s + 1, b);
}

/// Of two symbols with codes of one length, the later one counts more
/// predecessors.
proof fn lemma_rank_grows(lengths: Seq<u32>, s: int, t: int)
    requires
        0 <= s < t < lengths.len(),
    ensures
        count_len(lengths.take(s), lengths[s] as nat) < count_len(
            lengths.take(t),
            lengths[s] as nat,
        ),
    decreases t - s,
{
    let b = lengths[s] as nat;
    if t == s + 1 {
        lemma_count_len_step(lengths, s, b);
    } else {
        lemma_rank_grows(lengths, s, t - 1);
        lemma_count_len_step(lengths, t - 1, b);
    }
}

/// Lengths that pass the check give codes that fit.
pub proof fn lemma_code_fits(lengths: Seq<u32>, s: int)
    requires
        check_lengths(lengths) is Ok,
        0 <= s < lengths.len(),
        lengths[s] > 0,
    ensures
        lengths[s] <= max_len(lengths) <= 15,
        code_of(lengths, s) + 1 <= code_end(lengths, lengths[s] as nat) <= pow2(
            lengths[s] as nat,
        ) <= 0x8000,
        code_bits(lengths, s).len() == lengths[s],
        msb_value(code_bits(lengths, s)) == code_of(lengths, s),
{
    let m = max_len(lengths);
    let b = lengths[s] as nat;
    lemma_max_len(lengths);
    lemma_kraft_is_code_end(lengths, m);
    lemma_code_end_bound(lengths, m, b);
    lemma_count_len_step(lengths, s, b);
    lemma_msb_bits_value(code_of(lengths, s), b);
    vstd::arithmetic::div_mod::lemma_small_mod(code_of(lengths, s), pow2(b));
    lemma2_to64();
    if b < 15 {
        lemma_pow2_strictly_increases(b, 15);
    }
}

/// Reading only the first `a` of the digits divides the number.
proof fn lemma_msb_value_prefix(s: Seq<bool>, a: nat)
    requires
        a <= s.len(),
    ensures
        msb_value(s.subrange(0, a as int)) == msb_value(s) / pow2((s.len() - a) as nat),
    decreases s.len() - a,
{
    lemma2_to64();
    if a == s.len() {
        assert(s.subrange(0, a as int) =~= s);
        assert(msb_value(s) / 1 == msb_value(s));
    } else {
        let t = s.drop_last();
        lemma_msb_value_prefix(t, a);
        assert(t.subrange(0, a as int) =~= s.subrange(0, a as int));
        let e = (s.len() - a) as nat;
        lemma_pow2_unfold(e);
        lemma_pow2_pos((e - 1) as nat);
        vstd::arithmetic::div_mod::lemma_div_denominator(
            msb_value(s) as int,
            2,
            pow2((e - 1) as nat) as int,
        );
        assert(msb_value(s) / 2 == msb_value(t));
    }
}

/// No bit string begins with the codes of two symbols, the first not longer.
proof fn lemma_prefix_free_ordered(lengths: Seq<u32>, w: Seq<bool>, s: int, t: int)
    requires
        check_lengths(lengths) is Ok,
        0 <= s < lengths.len(),
        0 <= t < lengths.len(),
        0 < lengths[s] <= lengths[t] <= w.len(),
        w.subrange(0, lengths[s] as int) == code_bits(lengths, s),
        w.subrange(0, lengths[t] as int) == code_bits(lengths, t),
    ensures
        s == t,
{
    let a = lengths[s] as nat;
    let b = lengths[t] as nat;
    lemma_code_fits(lengths, s);
    lemma_code_fits(lengths, t);
    let wt = w.subrange(0, b as int);
    lemma_msb_value_prefix(wt, a);
    assert(wt.subrange(0, a as int) =~= w.subrange(0, a as int));
    let cs = code_of(lengths, s) as int;
    let ct = code_of(lengths, t) as int;
    let p = pow2((b - a) as nat) as int;
    lemma_pow2_pos((b - a) as nat);
    assert(ct / p == cs);
    if a == b {
        lemma2_to64();
        assert(ct / 1 == ct);
        if s < t {
            lemma_rank_grows(lengths, s, t);
        } else if t < s {
            lemma_rank_grows(lengths, t, s);
        }
    } else {
        lemma_code_end_grows(lengths, a, b);
        let e = code_end(lengths, a) as int;
        assert((cs + 1) * p <= ct) by (nonlinear_arith)
            requires
                cs + 1 <= e,
                e * p <= ct,
                p > 0,
        ;
        assert(ct / p >= cs + 1) by (nonlinear_arith)
            requires
                (cs + 1) * p <= ct,
                p > 0,
        ;
    }
}

/// Canonical codes are prefix-free: the bits at one position begin with the
/// code of at most one symbol.
pub proof fn law_codes_prefix_free(lengths: Seq<u32>, data: Seq<u8>, pos: int, s: int, t: int)
    requires
        check_lengths(lengths) is Ok,
        symbol_at(lengths, data, pos, s),
        symbol_at(lengths, data, pos, t),
    ensures
        s == t,
{
    if lengths[s] <= lengths[t] {
        let w = bits_at(data, pos, lengths[t] as nat);
        assert(w.subrange(0, lengths[s] as int) =~= bits_at(data, pos, lengths[s] as nat));
        assert(w.subrange(0, lengths[t] as int) =~= w);
        lemma_prefix_free_ordered(lengths, w, s, t);
    } else {
        let w = bits_at(data, pos, lengths[s] as nat);
        assert(w.subrange(0, lengths[t] as int) =~= bits_at(data, pos, lengths[t] as nat));
        assert(w.subrange(0, lengths[s] as int) =~= w);
        lemma_prefix_free_ordered(lengths, w, t, s);
    }
}

/// Decoding undoes encoding: where the code of a symbol was written, that
/// symbol is read, and the position moves on by its length.
pub proof fn law_decode_symbol_of_code(lengths: Seq<u32>, data: Seq<u8>, pos: nat, s: int)
    requires
        check_lengths(lengths) is Ok,
        symbol_at(lengths, data, pos as int, s),
    ensures
        decode_symbol(lengths, data, pos) == Ok::<_, DecodeError>(
            (s as u16, skip_bits(pos, lengths[s] as nat)),
        ),
{
    lemma_max_len(lengths);
    let t = choose|t: int| symbol_at(lengths, data, pos as int, t);
    law_codes_prefix_free(lengths, data, pos as int, s, t);
}

/// A peeked pattern of `m` bits begins with the code of symbol `s`.
pub open spec fn pattern_matches(lengths: Seq<u32>, s: int, v: nat) -> bool {
    &&& 0 <= s < lengths.len()
    &&& lengths[s] > 0
    &&& v % pow2(lengths[s] as nat) == lsb_value(code_bits(lengths, s))
}

/// A symbol stands at a position exactly where the pattern peeked there
/// matches it.
pub proof fn lemma_pattern_is_symbol(lengths: Seq<u32>, data: Seq<u8>, pos: int, s: int)
    requires
        0 <= s < lengths.len(),
    ensures
        symbol_at(lengths, data, pos, s) == pattern_matches(
            lengths,
            s,
            lsb_value(bits_at(data, pos, max_len(lengths))),
        ),
{
    lemma_max_len(lengths);
    let m = max_len(lengths);
    let w = bits_at(data, pos, m);
    let l = lengths[s] as nat;
    lemma_lsb_value_prefix(w, l);
    let x = bits_at(data, pos, l);
    assert(w.subrange(0, l as int) =~= x);
    if lsb_value(x) == lsb_value(code_bits(lengths, s)) {
        lemma_lsb_value_injective(x, code_bits(lengths, s));
    }
}

} // verus!
