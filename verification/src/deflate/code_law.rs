//! The tables and the codes of DEFLATE (RFC 1951), as numbers.

use vstd::arithmetic::power2::{lemma2_to64, pow2};
use vstd::prelude::*;

use super::canonical::{
    check_lengths, code_bits, code_count, code_of, coded_count, count_len, decode_symbol,
    first_code, lemma_code_end_grows, lemma_code_fits, lemma_count_len_step,
    lemma_kraft_is_code_end, lemma_max_len, max_len, symbol_at,
};
use super::constants::{CLORDER, DBASE, DEXT, LBASE, LEXT};
use super::encode::lemma_fixed_lengths_valid;
use super::error::DecodeError;
use super::inflate_spec::{
    dynamic_lengths, field, fixed_dist_lengths, fixed_lit_lengths, length_run, length_step,
    meta_lengths,
};
use crate::bitstream::{bits_at, lemma_lsb_value_bound, lemma_msb_value_bits, msb_value, skip_bits};

verus! {

/// The length symbols share out the copy lengths from 3 on, without gap or
/// overlap: each starts where the extra bits of the one before it end. The
/// first eight have none, every four more have one bit more, and the last one
/// is 258 alone.
pub proof fn law_length_table(i: int)
    requires
        0 <= i < 29,
    ensures
        LBASE@[0] == 3,
        i < 27 ==> LBASE@[i + 1] == LBASE@[i] + pow2(LEXT@[i] as nat),
        LBASE@[28] == 258,
        LEXT@[i] == (if i < 8 || i == 28 {
            0int
        } else {
            (i - 4) / 4
        }),
{
    lemma2_to64();
}

/// The distance symbols share out the distances from 1 on in the same way:
/// the first four have no extra bits, and every two more have one bit more.
pub proof fn law_distance_table(i: int)
    requires
        0 <= i < 30,
    ensures
        DBASE@[0] == 1,
        i < 29 ==> DBASE@[i + 1] == DBASE@[i] + pow2(DEXT@[i] as nat),
        DBASE@[29] + pow2(DEXT@[29] as nat) == 32769,
        DEXT@[i] == (if i < 4 {
            0int
        } else {
            (i - 2) / 2
        }),
{
    lemma2_to64();
}

/// The code-length codes are sent the repeats first, then zero, then outwards
/// from eight: the longer one of each pair before the shorter.
pub proof fn law_code_length_order(i: int)
    requires
        0 <= i < 19,
    ensures
        CLORDER@[i] == (if i < 3 {
            16 + i
        } else if i == 3 {
            0
        } else if i % 2 == 0 {
            8 + (i - 4) / 2
        } else {
            7 - (i - 5) / 2
        }),
{
}

/// What a code-length symbol adds: itself; three to six times the length before
/// it; three to ten zeros; or eleven to 138 zeros.
pub proof fn law_code_length_step(data: Seq<u8>, pos: nat, acc: Seq<u32>, sym: u16)
    requires
        sym < 19,
    ensures
        ({
            let (r, next) = length_step(data, pos, acc, sym);
            let n = r.len() - acc.len();
            &&& r.len() >= acc.len()
            &&& r.take(acc.len() as int) == acc
            &&& sym < 16 ==> n == 1 && r.last() == sym && next == pos
            &&& sym == 16 ==> n == 3 + field(data, pos, 2) && next == skip_bits(pos, 2) && forall|
                k: int,
            |
                acc.len() <= k < r.len() ==> #[trigger] r[k] == (if acc.len() > 0 {
                    acc.last()
                } else {
                    0
                })
            &&& sym == 17 ==> n == 3 + field(data, pos, 3) && next == skip_bits(pos, 3) && forall|
                k: int,
            |
                acc.len() <= k < r.len() ==> #[trigger] r[k] == 0
            &&& sym == 18 ==> n == 11 + field(data, pos, 7) && next == skip_bits(pos, 7) && forall|
                k: int,
            |
                acc.len() <= k < r.len() ==> #[trigger] r[k] == 0
        }),
{
    let (r, next) = length_step(data, pos, acc, sym);
    assert(r.take(acc.len() as int) =~= acc);
}

// Canonical codes.

proof fn lemma_rank(lengths: Seq<u32>, s: int, t: int, b: nat)
    requires
        0 <= s <= t <= lengths.len(),
        forall|k: int| s <= k < t ==> #[trigger] lengths[k] != b,
    ensures
        count_len(lengths.take(t), b) == count_len(lengths.take(s), b),
    decreases t - s,
{
    if s < t {
        lemma_rank(lengths, s, t - 1, b);
        assert(lengths.take(t).drop_last() =~= lengths.take(t - 1));
        assert(lengths[t - 1] != b);
    }
}

proof fn lemma_first_zero(lengths: Seq<u32>, b: nat)
    requires
        forall|k: int| 0 <= k < lengths.len() ==> #[trigger] lengths[k] == 0 || lengths[k] >= b,
    ensures
        first_code(lengths, b) == 0,
    decreases b,
{
    if b > 0 {
        lemma_first_zero(lengths, (b - 1) as nat);
        if b > 1 {
            lemma_rank(lengths, 0, lengths.len() as int, (b - 1) as nat);
            assert(lengths.take(lengths.len() as int) =~= lengths);
            assert(lengths.take(0) =~= Seq::<u32>::empty());
        }
    }
}

/// How codes are handed out: one behind the other, in the order of their
/// lengths, and those of one length in the order of their symbols. The first
/// is all zeros; the next one of the same length is one more; and a longer code
/// lies behind everything that a shorter one begins.
pub proof fn law_canonical_codes(lengths: Seq<u32>, s: int, t: int)
    requires
        check_lengths(lengths) is Ok,
        0 <= s < lengths.len(),
        0 <= t < lengths.len(),
        s != t,
        lengths[s] > 0,
        lengths[t] > 0,
    ensures
        lengths[s] == lengths[t] && s < t && (forall|k: int|
            s < k < t ==> #[trigger] lengths[k] != lengths[s]) ==> code_of(lengths, t) == code_of(
            lengths,
            s,
        ) + 1,
        lengths[s] < lengths[t] ==> (code_of(lengths, s) + 1) * pow2(
            (lengths[t] - lengths[s]) as nat,
        ) <= code_of(lengths, t),
        (forall|k: int|
            0 <= k < lengths.len() ==> #[trigger] lengths[k] == 0 || lengths[k] >= lengths[s]) && (
        forall|k: int| 0 <= k < s ==> #[trigger] lengths[k] != lengths[s]) ==> code_of(lengths, s)
            == 0,
        forall|i: int|
            0 <= i < lengths[s] ==> #[trigger] code_bits(lengths, s)[i] == ((code_of(lengths, s)
                / pow2((lengths[s] - 1 - i) as nat)) % 2 == 1),
{
    let a = lengths[s] as nat;
    let b = lengths[t] as nat;
    lemma_code_fits(lengths, s);
    lemma_code_fits(lengths, t);
    if a == b && s < t && forall|k: int| s < k < t ==> #[trigger] lengths[k] != lengths[s] {
        lemma_rank(lengths, s + 1, t, a);
        assert(lengths.take(s + 1).drop_last() =~= lengths.take(s));
    }
    if a < b {
        lemma_code_end_grows(lengths, a, b);
        lemma_count_len_step(lengths, s, a);
        let x = code_of(lengths, s) + 1;
        let y = first_code(lengths, a) + code_count(lengths, a);
        let p = pow2((b - a) as nat);
        assert(x * p <= y * p) by (nonlinear_arith)
            requires
                x <= y,
        ;
    }
    if (forall|k: int| 0 <= k < lengths.len() ==> #[trigger] lengths[k] == 0 || lengths[k] >= a)
        && (forall|k: int| 0 <= k < s ==> #[trigger] lengths[k] != a) {
        lemma_first_zero(lengths, a);
        lemma_rank(lengths, 0, s, a);
        assert(lengths.take(0) =~= Seq::<u32>::empty());
    }
}

/// The symbol with `r` others of its length before it.
proof fn lemma_ranked(lengths: Seq<u32>, b: nat, r: int) -> (s: int)
    requires
        0 <= r < count_len(lengths, b),
    ensures
        0 <= s < lengths.len(),
        lengths[s] == b,
        count_len(lengths.take(s), b) == r,
    decreases lengths.len(),
{
    let front = lengths.drop_last();
    if r < count_len(front, b) {
        let s = lemma_ranked(front, b, r);
        assert(front.take(s) =~= lengths.take(s));
        s
    } else {
        assert(lengths.take(lengths.len() - 1) =~= front);
        lengths.len() - 1
    }
}

/// Where the codes up to `b` bits are not used up by smaller numbers, one of
/// them stands there.
proof fn lemma_some_code(lengths: Seq<u32>, data: Seq<u8>, pos: int, b: nat) -> (s: int)
    requires
        msb_value(bits_at(data, pos, b)) < first_code(lengths, b) + code_count(lengths, b),
    ensures
        symbol_at(lengths, data, pos, s),
    decreases b,
{
    let bits = bits_at(data, pos, b);
    let v = msb_value(bits);
    if b == 0 {
        0
    } else if v >= first_code(lengths, b) {
        let s = lemma_ranked(lengths, b, v - first_code(lengths, b));
        lemma_msb_value_bits(bits);
        assert(code_of(lengths, s) == v);
        s
    } else {
        let shorter = bits_at(data, pos, (b - 1) as nat);
        assert(bits.drop_last() =~= shorter);
        lemma_some_code(lengths, data, pos, (b - 1) as nat)
    }
}

/// A set of lengths that passes with two codes or more leaves no bit pattern
/// without a symbol: whatever the bits are, one of the codes stands there.
pub proof fn law_codes_complete(lengths: Seq<u32>, data: Seq<u8>, pos: nat)
    requires
        check_lengths(lengths) is Ok,
        coded_count(lengths) >= 2,
    ensures
        decode_symbol(lengths, data, pos) is Ok,
        exists|s: int| #[trigger] symbol_at(lengths, data, pos as int, s),
{
    let m = max_len(lengths);
    lemma_max_len(lengths);
    lemma_coded_some(lengths);
    lemma_kraft_is_code_end(lengths, m);
    let bits = bits_at(data, pos as int, m);
    lemma_msb_value_bits(bits);
    let s = lemma_some_code(lengths, data, pos as int, m);
    assert(symbol_at(lengths, data, pos as int, s));
}

proof fn lemma_coded_some(lengths: Seq<u32>)
    ensures
        coded_count(lengths) > 0 ==> max_len(lengths) > 0,
    decreases lengths.len(),
{
    if lengths.len() > 0 {
        lemma_coded_some(lengths.drop_last());
    }
}

// The fixed codes.

/// How many of the first `n` fixed literal codes have `b` bits.
proof fn lemma_fixed_count(n: int)
    requires
        0 <= n <= 288,
    ensures
        ({
            let l = fixed_lit_lengths().take(n);
            &&& count_len(l, 7) == (if n <= 256 {
                0
            } else if n <= 280 {
                n - 256
            } else {
                24
            })
            &&& count_len(l, 8) == (if n <= 144 {
                n
            } else if n <= 280 {
                144
            } else {
                n - 136
            })
            &&& count_len(l, 9) == (if n <= 144 {
                0
            } else if n <= 256 {
                n - 144
            } else {
                112
            })
            &&& forall|b: nat| b < 7 ==> #[trigger] count_len(l, b) == 0
        }),
    decreases n,
{
    let l = fixed_lit_lengths().take(n);
    if n > 0 {
        lemma_fixed_count(n - 1);
        assert(l.drop_last() =~= fixed_lit_lengths().take(n - 1));
        assert(l.last() == fixed_lit_lengths()[n - 1]);
        assert forall|b: nat| b < 7 implies #[trigger] count_len(l, b) == 0 by {
            assert(count_len(fixed_lit_lengths().take(n - 1), b) == 0);
        }
    }
}

proof fn lemma_no_short(l: Seq<u32>, b: nat)
    requires
        b <= 7,
        forall|k: nat| k < 7 ==> #[trigger] count_len(l, k) == 0,
    ensures
        first_code(l, b) == 0,
    decreases b,
{
    if b > 0 {
        lemma_no_short(l, (b - 1) as nat);
        assert(count_len(l, (b - 1) as nat) == 0);
    }
}

/// The fixed literal and length codes: eight bits from 00110000 for the symbols
/// below 144, nine from 110010000 below 256, seven from 0000000 below 280, and
/// eight from 11000000 for the rest.
pub proof fn law_fixed_literal_codes(s: int)
    requires
        0 <= s < 288,
    ensures
        code_bits(fixed_lit_lengths(), s).len() == (if s < 144 {
            8int
        } else if s < 256 {
            9
        } else if s < 280 {
            7
        } else {
            8
        }),
        code_of(fixed_lit_lengths(), s) == (if s < 144 {
            0b0011_0000 + s
        } else if s < 256 {
            0b1_1001_0000 + (s - 144)
        } else if s < 280 {
            s - 256
        } else {
            0b1100_0000 + (s - 280)
        }),
{
    let l = fixed_lit_lengths();
    lemma_fixed_lengths_valid();
    lemma_code_fits(l, s);
    lemma_fixed_count(288);
    lemma_fixed_count(s);
    assert(l.take(288) =~= l);
    lemma_no_short(l, 7);
    assert(first_code(l, 7) == 0);
    assert(first_code(l, 8) == 2 * (first_code(l, 7) + 24)) by {
        assert(code_count(l, 7) == 24);
    }
    assert(first_code(l, 9) == 2 * (first_code(l, 8) + 152)) by {
        assert(code_count(l, 8) == 152);
    }
}

proof fn lemma_fixed_dist_count(n: int, b: nat)
    requires
        0 <= n <= 32,
    ensures
        count_len(fixed_dist_lengths().take(n), b) == (if b == 5 {
            n
        } else {
            0
        }),
    decreases n,
{
    let l = fixed_dist_lengths().take(n);
    if n > 0 {
        lemma_fixed_dist_count(n - 1, b);
        assert(l.drop_last() =~= fixed_dist_lengths().take(n - 1));
        assert(l.last() == 5);
    }
}

/// The fixed distance codes are the symbols themselves in five bits.
pub proof fn law_fixed_distance_codes(s: int)
    requires
        0 <= s < 32,
    ensures
        code_bits(fixed_dist_lengths(), s).len() == 5,
        code_of(fixed_dist_lengths(), s) == s,
{
    let l = fixed_dist_lengths();
    lemma_fixed_lengths_valid();
    lemma_code_fits(l, s);
    lemma_fixed_dist_count(s, 5);
    assert forall|k: int| 0 <= k < l.len() implies #[trigger] l[k] == 0 || l[k] >= 5 by {}
    lemma_first_zero(l, 5);
}

/// Where the lengths of the code-length codes stand: three bits each, in the
/// order in which they are sent; those that are not sent are zero.
pub proof fn law_code_length_codes(data: Seq<u8>, pos: nat, n: nat, i: int)
    requires
        n <= 19,
        0 <= i < 19,
    ensures
        meta_lengths(data, pos, n).len() == 19,
        meta_lengths(data, pos, n)[CLORDER@[i] as int] == (if i < n {
            field(data, skip_bits(pos, (3 * i) as nat), 3)
        } else {
            0
        }),
    decreases n,
{
    law_code_length_order(i);
    if n > 0 {
        let m = (n - 1) as nat;
        law_code_length_codes(data, pos, m, i);
        law_code_length_order(m as int);
        lemma_lsb_value_bound(bits_at(data, skip_bits(pos, 3 * m) as int, 3));
        lemma2_to64();
    }
}

/// What a dynamic block begins with: five bits for how many literal and length
/// codes there are, from 257 on; five for the distance codes, from one on; and
/// four for the code-length codes, from four on. Behind their lengths stand
/// those of the literal codes and, in one run with them, of the distance codes.
pub proof fn law_dynamic_table(data: Seq<u8>, pos: nat)
    requires
        pos + 100 <= usize::MAX,
    ensures
        dynamic_lengths(data, pos) matches Ok((lit, dist, next)) ==> {
            let n = 4 + field(data, pos + 10, 4);
            let meta = meta_lengths(data, pos + 14, n);
            &&& lit.len() == 257 + field(data, pos, 5)
            &&& dist.len() >= 1 + field(data, pos + 5, 5)
            &&& length_run(
                meta,
                data,
                pos + 14 + 3 * n,
                Seq::empty(),
                258 + field(data, pos, 5) + field(data, pos + 5, 5),
            ) == Ok::<_, DecodeError>((lit + dist, next))
        },
{
    lemma2_to64();
    lemma_lsb_value_bound(bits_at(data, (pos + 10) as int, 4));
    let hlit = field(data, pos, 5) + 257;
    let hdist = field(data, pos + 5, 5) + 1;
    let n = field(data, pos + 10, 4) + 4;
    let meta = meta_lengths(data, pos + 14, n);
    let at = pos + 14 + 3 * n;
    lemma_run_long(meta, data, at, Seq::empty(), hlit + hdist);
    if let Ok((all, next)) = length_run(meta, data, at, Seq::empty(), hlit + hdist) {
        assert(all.take(hlit as int) + all.subrange(hlit as int, all.len() as int) =~= all);
    }
}

proof fn lemma_run_long(meta: Seq<u32>, data: Seq<u8>, pos: nat, acc: Seq<u32>, total: nat)
    ensures
        length_run(meta, data, pos, acc, total) matches Ok((all, next)) ==> all.len() >= total,
    decreases
            (if acc.len() < total {
                total - acc.len()
            } else {
                0
            }),
{
    if acc.len() < total {
        if let Ok((sym, next)) = decode_symbol(meta, data, pos) {
            let (acc2, pos2) = length_step(data, next, acc, sym);
            lemma_run_long(meta, data, pos2, acc2, total);
        }
    }
}

} // verus!
