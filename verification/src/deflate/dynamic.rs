//! Dynamic-Huffman (BTYPE=10) serialization: a block whose code lengths are
//! optimal for its own symbol frequencies, preceded by the run-length coded
//! table of those lengths.

use vstd::arithmetic::power2::{lemma2_to64, pow2};
use vstd::prelude::*;

use super::canonical::{check_lengths, coded_count, enc_of, kraft, max_len};
use super::constants::{lemma_base_index, CLORDER, LBASE};
use super::encode::{event_coded, length_to_sym, write_events};
use super::events::{EncTable, Event, SymCode};
use super::huffman::build_tree;
use super::inflate_spec::repeated;
use super::package_merge::{
    law_package_merge_complete, leaf_weights, lemma_by_weight, lemma_leaves_ascending,
    package_merge, pm_lengths, widened,
};
use super::roundtrip::{event_has_codes, lemma_enc_is_code, usable_codes};
use super::stream_spec::{
    body_bits, enc_bits, header_bits, lit_symbol, writable_event, writable_events,
};
use super::writer::DeflateWriter;
use crate::bitstream::{lsb_bits, pack_bits};

verus! {

// Run-length coding of code lengths (RFC 1951 §3.2.7).

/// How many entries at the front of `s` from `i` on equal `v`.
pub open spec fn run_end(s: Seq<u8>, v: u8, i: int) -> int
    decreases s.len() - i,
{
    if 0 <= i < s.len() && s[i] == v {
        run_end(s, v, i + 1)
    } else {
        i
    }
}

/// `n` zero lengths: 18 stands for 11..=138 of them, 17 for 3..=10.
pub open spec fn zero_run(n: int) -> Seq<(u8, u8)>
    decreases n,
{
    if n <= 0 {
        Seq::empty()
    } else if n >= 11 {
        let take = if n < 138 {
            n
        } else {
            138
        };
        seq![(18u8, (take - 11) as u8)] + zero_run(n - take)
    } else if n >= 3 {
        seq![(17u8, (n - 3) as u8)]
    } else {
        seq![(0u8, 0u8)] + zero_run(n - 1)
    }
}

/// `n` more lengths `v` behind a first one: 16 stands for 3..=6 of them.
pub open spec fn copy_run(v: u8, n: int) -> Seq<(u8, u8)>
    decreases n,
{
    if n <= 0 {
        Seq::empty()
    } else if n >= 3 {
        let take = if n < 6 {
            n
        } else {
            6
        };
        seq![(16u8, (take - 3) as u8)] + copy_run(v, n - take)
    } else {
        seq![(v, 0u8)] + copy_run(v, n - 1)
    }
}

/// One whole run.
pub open spec fn run_pairs(v: u8, n: int) -> Seq<(u8, u8)> {
    if v == 0 {
        zero_run(n)
    } else {
        seq![(v, 0u8)] + copy_run(v, n - 1)
    }
}

/// A code-length sequence as `(symbol, extra)` pairs, from entry `i` on.
pub open spec fn rle_from(s: Seq<u8>, i: int) -> Seq<(u8, u8)>
    decreases
            (if i < s.len() {
                s.len() - i
            } else {
                0
            }),
{
    if i < 0 || i >= s.len() || run_end(s, s[i], i) <= i {
        Seq::empty()
    } else {
        let e = run_end(s, s[i], i);
        run_pairs(s[i], e - i) + rle_from(s, e)
    }
}

proof fn lemma_run_end(s: Seq<u8>, v: u8, i: int)
    requires
        0 <= i <= s.len(),
    ensures
        i <= run_end(s, v, i) <= s.len(),
        forall|k: int| i <= k < run_end(s, v, i) ==> s[k] == v,
    decreases s.len() - i,
{
    if i < s.len() && s[i] == v {
        lemma_run_end(s, v, i + 1);
    }
}

/// What one pair adds to the lengths read so far.
pub open spec fn expand_pair(acc: Seq<u32>, pair: (u8, u8)) -> Seq<u32> {
    if pair.0 <= 15 {
        acc.push(pair.0 as u32)
    } else if pair.0 == 16 {
        repeated(
            acc,
            if acc.len() > 0 {
                acc.last()
            } else {
                0
            },
            (pair.1 + 3) as nat,
        )
    } else if pair.0 == 17 {
        repeated(acc, 0, (pair.1 + 3) as nat)
    } else {
        repeated(acc, 0, (pair.1 + 11) as nat)
    }
}

/// What the pairs stand for, behind the lengths read so far.
pub open spec fn expand(acc: Seq<u32>, pairs: Seq<(u8, u8)>) -> Seq<u32>
    decreases pairs.len(),
{
    if pairs.len() == 0 {
        acc
    } else {
        expand(expand_pair(acc, pairs[0]), pairs.subrange(1, pairs.len() as int))
    }
}

proof fn lemma_expand_concat(acc: Seq<u32>, a: Seq<(u8, u8)>, b: Seq<(u8, u8)>)
    ensures
        expand(acc, a + b) == expand(expand(acc, a), b),
    decreases a.len(),
{
    if a.len() == 0 {
        assert(a + b =~= b);
    } else {
        let rest = a.subrange(1, a.len() as int);
        assert((a + b).subrange(1, (a + b).len() as int) =~= rest + b);
        lemma_expand_concat(expand_pair(acc, a[0]), rest, b);
    }
}

/// A pair whose symbol is in the alphabet and whose extra value fits.
pub open spec fn pair_ok(pair: (u8, u8)) -> bool {
    &&& pair.0 <= 18
    &&& pair.0 == 16 ==> pair.1 < 4
    &&& pair.0 == 17 ==> pair.1 < 8
    &&& pair.0 == 18 ==> pair.1 < 128
}

pub open spec fn pairs_ok(pairs: Seq<(u8, u8)>) -> bool {
    forall|i: int| 0 <= i < pairs.len() ==> pair_ok(#[trigger] pairs[i])
}

proof fn lemma_expand_one(acc: Seq<u32>, p: (u8, u8), rest: Seq<(u8, u8)>)
    ensures
        expand(acc, seq![p] + rest) == expand(expand_pair(acc, p), rest),
{
    let all = seq![p] + rest;
    assert(all.subrange(1, all.len() as int) =~= rest);
}

proof fn lemma_repeated_add(acc: Seq<u32>, v: u32, a: nat, b: nat)
    ensures
        repeated(repeated(acc, v, a), v, b) == repeated(acc, v, a + b),
{
    assert(repeated(repeated(acc, v, a), v, b) =~= repeated(acc, v, a + b));
}

proof fn lemma_zero_run(acc: Seq<u32>, n: int)
    requires
        0 <= n,
    ensures
        expand(acc, zero_run(n)) == repeated(acc, 0, n as nat),
        pairs_ok(zero_run(n)),
        zero_run(n).len() <= n,
    decreases n,
{
    if n == 0 {
        assert(repeated(acc, 0, 0) =~= acc);
    } else if n >= 11 {
        let take = if n < 138 {
            n
        } else {
            138
        };
        let p = (18u8, (take - 11) as u8);
        lemma_zero_run(expand_pair(acc, p), n - take);
        lemma_expand_one(acc, p, zero_run(n - take));
        lemma_repeated_add(acc, 0, take as nat, (n - take) as nat);
    } else if n >= 3 {
        let p = (17u8, (n - 3) as u8);
        let rest = Seq::<(u8, u8)>::empty();
        assert(zero_run(n) =~= seq![p] + rest);
        lemma_expand_one(acc, p, rest);
    } else {
        let p = (0u8, 0u8);
        lemma_zero_run(expand_pair(acc, p), n - 1);
        lemma_expand_one(acc, p, zero_run(n - 1));
        assert(expand_pair(acc, p) =~= repeated(acc, 0, 1));
        lemma_repeated_add(acc, 0, 1, (n - 1) as nat);
    }
}

proof fn lemma_copy_run(acc: Seq<u32>, v: u8, n: int)
    requires
        0 <= n,
        0 < v <= 15,
        acc.len() > 0,
        acc.last() == v,
    ensures
        expand(acc, copy_run(v, n)) == repeated(acc, v as u32, n as nat),
        pairs_ok(copy_run(v, n)),
        copy_run(v, n).len() <= n,
    decreases n,
{
    if n == 0 {
        assert(repeated(acc, v as u32, 0) =~= acc);
    } else if n >= 3 {
        let take = if n < 6 {
            n
        } else {
            6
        };
        let p = (16u8, (take - 3) as u8);
        let next = expand_pair(acc, p);
        assert(next == repeated(acc, v as u32, take as nat));
        assert(next.last() == v);
        lemma_copy_run(next, v, n - take);
        lemma_expand_one(acc, p, copy_run(v, n - take));
        lemma_repeated_add(acc, v as u32, take as nat, (n - take) as nat);
    } else {
        let p = (v, 0u8);
        let next = expand_pair(acc, p);
        lemma_copy_run(next, v, n - 1);
        lemma_expand_one(acc, p, copy_run(v, n - 1));
        assert(next =~= repeated(acc, v as u32, 1));
        lemma_repeated_add(acc, v as u32, 1, (n - 1) as nat);
    }
}

proof fn lemma_rle_from(acc: Seq<u32>, s: Seq<u8>, i: int)
    requires
        0 <= i <= s.len(),
        forall|k: int| 0 <= k < s.len() ==> #[trigger] s[k] <= 15,
    ensures
        expand(acc, rle_from(s, i)) == acc + widened(s.subrange(i, s.len() as int)),
        pairs_ok(rle_from(s, i)),
        rle_from(s, i).len() <= s.len() - i,
    decreases s.len() - i,
{
    if i == s.len() {
        assert(acc + widened(s.subrange(i, s.len() as int)) =~= acc);
    } else {
        let v = s[i];
        lemma_run_end(s, v, i + 1);
        let e = run_end(s, v, i);
        let n = e - i;
        let pairs = run_pairs(v, n);
        if v == 0 {
            lemma_zero_run(acc, n);
        } else {
            let p = (v, 0u8);
            let next = expand_pair(acc, p);
            lemma_copy_run(next, v, n - 1);
            lemma_expand_one(acc, p, copy_run(v, n - 1));
            assert(next =~= repeated(acc, v as u32, 1));
            lemma_repeated_add(acc, v as u32, 1, (n - 1) as nat);
        }
        let mid = repeated(acc, v as u32, n as nat);
        assert(expand(acc, pairs) == mid);
        lemma_rle_from(mid, s, e);
        lemma_expand_concat(acc, pairs, rle_from(s, e));
        let rest = rle_from(s, e);
        assert forall|k: int| 0 <= k < (pairs + rest).len() implies pair_ok(
            #[trigger] (pairs + rest)[k],
        ) by {
            if k < pairs.len() {
                if v == 0 {
                    assert(pair_ok(zero_run(n)[k]));
                } else if k > 0 {
                    assert(pair_ok(copy_run(v, n - 1)[k - 1]));
                }
            } else {
                assert(pair_ok(rest[k - pairs.len()]));
            }
        }
        assert(mid + widened(s.subrange(e, s.len() as int)) =~= acc + widened(
            s.subrange(i, s.len() as int),
        ));
    }
}

/// Run-length coding loses nothing: the pairs stand for the lengths given.
pub proof fn law_rle_round_trip(lengths: Seq<u8>)
    requires
        forall|k: int| 0 <= k < lengths.len() ==> #[trigger] lengths[k] <= 15,
    ensures
        expand(Seq::empty(), rle_from(lengths, 0)) == widened(lengths),
        pairs_ok(rle_from(lengths, 0)),
        rle_from(lengths, 0).len() <= lengths.len(),
{
    lemma_rle_from(Seq::empty(), lengths, 0);
    assert(lengths.subrange(0, lengths.len() as int) =~= lengths);
    assert(Seq::<u32>::empty() + widened(lengths) =~= widened(lengths));
}

/// Run-length encode a code-length sequence into `(symbol, extra)` pairs
/// over the code-length alphabet (RFC 1951 §3.2.7): 16 repeats the previous
/// length 3..=6 times, 17 repeats zero 3..=10, 18 repeats zero 11..=138.
pub fn rle_code_lengths(lengths: &[u8]) -> (r: Vec<(u8, u8)>)
    ensures
        r@ == rle_from(lengths@, 0),
{
    let mut out: Vec<(u8, u8)> = Vec::new();
    let mut i: usize = 0;
    assert(out@ + rle_from(lengths@, 0) =~= rle_from(lengths@, 0));
    while i < lengths.len()
        invariant
            i <= lengths@.len(),
            out@ + rle_from(lengths@, i as int) == rle_from(lengths@, 0),
        decreases lengths@.len() - i,
    {
        let v: u8 = lengths[i];
        let ghost sofar = out@;
        let mut e: usize = i;
        while e < lengths.len() && lengths[e] == v
            invariant
                i <= e <= lengths@.len(),
                run_end(lengths@, v, i as int) == run_end(lengths@, v, e as int),
            decreases lengths@.len() - e,
        {
            e = e + 1;
        }
        proof {
            lemma_run_end(lengths@, v, i + 1);
        }
        let n: usize = e - i;
        let mut run: usize = n;
        if v == 0 {
            assert(out@ + zero_run(run as int) =~= sofar + run_pairs(v, n as int));
            while run >= 11
                invariant
                    out@ + zero_run(run as int) == sofar + run_pairs(v, n as int),
                decreases run,
            {
                let take: usize = if run < 138 {
                    run
                } else {
                    138
                };
                let ghost before = out@;
                out.push((18, (take - 11) as u8));
                assert(out@ + zero_run(run - take) =~= before + zero_run(run as int));
                run = run - take;
            }
            if run >= 3 {
                let ghost before = out@;
                out.push((17, (run - 3) as u8));
                assert(out@ + zero_run(0) =~= before + zero_run(run as int));
                run = 0;
            }
            while run > 0
                invariant
                    run < 3,
                    out@ + zero_run(run as int) == sofar + run_pairs(v, n as int),
                decreases run,
            {
                let ghost before = out@;
                out.push((0, 0));
                assert(out@ + zero_run(run - 1) =~= before + zero_run(run as int));
                run = run - 1;
            }
            assert(out@ + zero_run(0) =~= out@);
        } else {
            out.push((v, 0));
            run = run - 1;
            assert(out@ + copy_run(v, run as int) =~= sofar + run_pairs(v, n as int));
            while run >= 3
                invariant
                    out@ + copy_run(v, run as int) == sofar + run_pairs(v, n as int),
                decreases run,
            {
                let take: usize = if run < 6 {
                    run
                } else {
                    6
                };
                let ghost before = out@;
                out.push((16, (take - 3) as u8));
                assert(out@ + copy_run(v, run - take) =~= before + copy_run(v, run as int));
                run = run - take;
            }
            while run > 0
                invariant
                    run < 3,
                    out@ + copy_run(v, run as int) == sofar + run_pairs(v, n as int),
                decreases run,
            {
                let ghost before = out@;
                out.push((v, 0));
                assert(out@ + copy_run(v, run - 1) =~= before + copy_run(v, run as int));
                run = run - 1;
            }
            assert(out@ + copy_run(v, 0) =~= out@);
        }
        proof {
            assert(out@ + rle_from(lengths@, e as int) =~= sofar + rle_from(lengths@, i as int));
        }
        i = e;
    }
    assert(out@ + rle_from(lengths@, lengths@.len() as int) =~= out@);
    out
}

// Frequencies.

/// How many of the events have the literal/length symbol `sym`.
pub open spec fn lit_uses(events: Seq<Event>, sym: int) -> nat
    decreases events.len(),
{
    if events.len() == 0 {
        0
    } else {
        lit_uses(events.drop_last(), sym) + (if lit_symbol(events.last()) == sym {
            1nat
        } else {
            0nat
        })
    }
}

/// How many of the events have the distance symbol `sym`.
pub open spec fn dist_uses(events: Seq<Event>, sym: int) -> nat
    decreases events.len(),
{
    if events.len() == 0 {
        0
    } else {
        dist_uses(events.drop_last(), sym) + (match events.last() {
            Event::Ref(r) if r.dist_sym == sym => 1nat,
            _ => 0nat,
        })
    }
}

/// How many of the pairs have the code-length symbol `sym`.
pub open spec fn pair_uses(pairs: Seq<(u8, u8)>, sym: int) -> nat
    decreases pairs.len(),
{
    if pairs.len() == 0 {
        0
    } else {
        pair_uses(pairs.drop_last(), sym) + (if pairs.last().0 == sym {
            1nat
        } else {
            0nat
        })
    }
}

/// Literal/length frequencies; the end-of-block symbol is emitted once.
pub open spec fn lit_weights(events: Seq<Event>) -> Seq<u32> {
    Seq::new(
        286,
        |i: int|
            (lit_uses(events, i) + (if i == 256 {
                1nat
            } else {
                0nat
            })) as u32,
    )
}

pub open spec fn dist_weights(events: Seq<Event>) -> Seq<u32> {
    Seq::new(30, |i: int| dist_uses(events, i) as u32)
}

pub open spec fn pair_weights(pairs: Seq<(u8, u8)>) -> Seq<u32> {
    Seq::new(19, |i: int| pair_uses(pairs, i) as u32)
}

// The parts of the stream.

/// The count of entries up to the last nonzero one, at least `floor`.
pub open spec fn used(lengths: Seq<u8>, n: int, floor: int) -> int
    decreases n,
{
    if n <= floor || n <= 0 {
        floor
    } else if lengths[n - 1] != 0 {
        n
    } else {
        used(lengths, n - 1, floor)
    }
}

/// Literal/length code lengths of the block, trailing zeros dropped.
pub open spec fn block_lit_lengths(events: Seq<Event>) -> Seq<u8> {
    let all = pm_lengths(lit_weights(events), 15);
    all.take(used(all, all.len() as int, 257))
}

/// Distance code lengths, of which at least one must be present.
pub open spec fn full_dist_lengths(events: Seq<Event>) -> Seq<u8> {
    let all = pm_lengths(dist_weights(events), 15);
    if forall|i: int| 0 <= i < all.len() ==> #[trigger] all[i] == 0 {
        all.update(0, 1)
    } else {
        all
    }
}

/// Distance code lengths of the block, trailing zeros dropped.
pub open spec fn block_dist_lengths(events: Seq<Event>) -> Seq<u8> {
    let all = full_dist_lengths(events);
    all.take(used(all, all.len() as int, 1))
}

/// The run-length coded table of both alphabets' lengths.
pub open spec fn table_pairs(events: Seq<Event>) -> Seq<(u8, u8)> {
    rle_from(block_lit_lengths(events) + block_dist_lengths(events), 0)
}

/// The lengths of the codes that the table itself is written in.
pub open spec fn meta_code_lengths(events: Seq<Event>) -> Seq<u8> {
    pm_lengths(pair_weights(table_pairs(events)), 7)
}

/// How many of those lengths are transmitted, looking at the first `p` in
/// transmission order.
pub open spec fn meta_used(lengths: Seq<u8>, p: int) -> int
    decreases p,
{
    if p <= 4 {
        4
    } else if lengths[CLORDER@[p - 1] as int] != 0 {
        p
    } else {
        meta_used(lengths, p - 1)
    }
}

/// The first `n` of those lengths, three bits each, in transmission order.
pub open spec fn meta_bits(lengths: Seq<u8>, n: int) -> Seq<bool>
    decreases n,
{
    if n <= 0 {
        Seq::empty()
    } else {
        meta_bits(lengths, n - 1) + lsb_bits(lengths[CLORDER@[n - 1] as int] as nat, 3)
    }
}

/// One pair: its symbol's code and its extra bits.
pub open spec fn pair_bits(enc: Seq<SymCode>, pair: (u8, u8)) -> Seq<bool> {
    let extra: nat = if pair.0 == 16 {
        2
    } else if pair.0 == 17 {
        3
    } else if pair.0 == 18 {
        7
    } else {
        0
    };
    enc_bits(enc, pair.0 as int) + lsb_bits(pair.1 as nat, extra)
}

pub open spec fn pairs_bits(enc: Seq<SymCode>, pairs: Seq<(u8, u8)>) -> Seq<bool>
    decreases pairs.len(),
{
    if pairs.len() == 0 {
        Seq::empty()
    } else {
        pair_bits(enc, pairs[0]) + pairs_bits(enc, pairs.subrange(1, pairs.len() as int))
    }
}

/// The three counts behind the block header.
pub open spec fn count_bits(hlit: nat, hdist: nat, hclen: nat) -> Seq<bool> {
    lsb_bits((hlit - 257) as nat, 5) + lsb_bits((hdist - 1) as nat, 5) + lsb_bits(
        (hclen - 4) as nat,
        4,
    )
}

/// A dynamic-Huffman block that holds `events`, behind its header bits: the
/// table of its code lengths, and its body.
pub open spec fn dynamic_block(events: Seq<Event>) -> Seq<bool> {
    let lit = block_lit_lengths(events);
    let dist = block_dist_lengths(events);
    let meta = meta_code_lengths(events);
    let hclen = meta_used(meta, 19);
    count_bits(lit.len(), dist.len(), hclen as nat) + meta_bits(meta, hclen) + pairs_bits(
        enc_of(widened(meta)),
        table_pairs(events),
    ) + body_bits(enc_of(widened(lit)), enc_of(widened(dist)), events)
}

/// A single dynamic-Huffman block that holds `events`.
pub open spec fn dynamic_stream(events: Seq<Event>) -> Seq<bool> {
    header_bits(2) + dynamic_block(events)
}

// What holds of them.

pub proof fn lemma_lit_uses(events: Seq<Event>, sym: int)
    ensures
        lit_uses(events, sym) <= events.len(),
        forall|k: int|
            0 <= k < events.len() && lit_symbol(#[trigger] events[k]) == sym ==> lit_uses(
                events,
                sym,
            ) > 0,
    decreases events.len(),
{
    if events.len() > 0 {
        let init = events.drop_last();
        lemma_lit_uses(init, sym);
        assert forall|k: int|
            0 <= k < events.len() && lit_symbol(#[trigger] events[k]) == sym implies lit_uses(
            events,
            sym,
        ) > 0 by {
            if k < init.len() {
                assert(init[k] == events[k]);
            }
        }
    }
}

pub proof fn lemma_dist_uses(events: Seq<Event>, sym: int)
    ensures
        dist_uses(events, sym) <= events.len(),
        forall|k: int|
            0 <= k < events.len() && (#[trigger] events[k] matches Event::Ref(r) && r.dist_sym
                == sym) ==> dist_uses(events, sym) > 0,
    decreases events.len(),
{
    if events.len() > 0 {
        let init = events.drop_last();
        lemma_dist_uses(init, sym);
        assert forall|k: int|
            0 <= k < events.len() && (#[trigger] events[k] matches Event::Ref(r) && r.dist_sym
                == sym) implies dist_uses(events, sym) > 0 by {
            if k < init.len() {
                assert(init[k] == events[k]);
            }
        }
    }
}

proof fn lemma_pair_uses(pairs: Seq<(u8, u8)>, sym: int)
    ensures
        pair_uses(pairs, sym) <= pairs.len(),
        forall|k: int|
            0 <= k < pairs.len() && (#[trigger] pairs[k]).0 == sym ==> pair_uses(pairs, sym) > 0,
    decreases pairs.len(),
{
    if pairs.len() > 0 {
        let init = pairs.drop_last();
        lemma_pair_uses(init, sym);
        assert forall|k: int| 0 <= k < pairs.len() && (#[trigger] pairs[k]).0 == sym implies pair_uses(
            pairs,
            sym,
        ) > 0 by {
            if k < init.len() {
                assert(init[k] == pairs[k]);
            }
        }
    }
}

pub proof fn lemma_used(lengths: Seq<u8>, n: int, floor: int)
    requires
        0 <= floor <= n <= lengths.len(),
        forall|i: int| n <= i < lengths.len() ==> #[trigger] lengths[i] == 0,
    ensures
        floor <= used(lengths, n, floor) <= n,
        forall|i: int|
            used(lengths, n, floor) <= i < lengths.len() ==> #[trigger] lengths[i] == 0,
    decreases n,
{
    if n > floor && lengths[n - 1] == 0 {
        lemma_used(lengths, n - 1, floor);
    }
}

/// Trailing zero lengths claim nothing.
proof fn lemma_trim(lengths: Seq<u32>, n: int, m: nat)
    requires
        0 <= n <= lengths.len(),
        forall|i: int| n <= i < lengths.len() ==> #[trigger] lengths[i] == 0,
    ensures
        max_len(lengths.take(n)) == max_len(lengths),
        coded_count(lengths.take(n)) == coded_count(lengths),
        kraft(lengths.take(n), m) == kraft(lengths, m),
    decreases lengths.len(),
{
    if n == lengths.len() {
        assert(lengths.take(n) =~= lengths);
    } else {
        assert(lengths.last() == lengths[lengths.len() - 1]);
        lemma_trim(lengths.drop_last(), n, m);
        assert(lengths.drop_last().take(n) =~= lengths.take(n));
    }
}

proof fn lemma_trim_valid(lengths: Seq<u8>, n: int)
    requires
        0 <= n <= lengths.len(),
        forall|i: int| n <= i < lengths.len() ==> #[trigger] lengths[i] == 0,
        check_lengths(widened(lengths)) is Ok,
    ensures
        check_lengths(widened(lengths.take(n))) is Ok,
{
    let wide = widened(lengths);
    lemma_trim(wide, n, max_len(wide));
    assert(widened(lengths.take(n)) =~= wide.take(n));
}

pub proof fn lemma_leaves_fit(weights: Seq<u32>, depth: int)
    requires
        weights.len() <= 286,
        depth == 15 || (depth == 7 && weights.len() <= 19),
    ensures
        leaf_weights(weights).len() <= pow2(depth as nat),
{
    lemma2_to64();
    lemma_leaves_ascending(weights);
}

/// The lone distance code of a block without back-references.
proof fn lemma_lone_code(all: Seq<u8>)
    requires
        all.len() == 30,
        forall|i: int| 0 <= i < all.len() ==> #[trigger] all[i] == 0,
    ensures
        check_lengths(widened(all.update(0, 1))) is Ok,
{
    lemma2_to64();
    let lone = all.update(0, 1);
    let wide = widened(lone);
    let head = wide.take(1);
    lemma_trim(wide, 1, 1);
    assert(head.drop_last() =~= Seq::<u32>::empty());
    assert(head.last() == 1);
    reveal_with_fuel(max_len, 2);
    reveal_with_fuel(kraft, 2);
    reveal_with_fuel(coded_count, 2);
    assert(max_len(head) == 1);
    assert(kraft(head, 1) == 1);
    assert(coded_count(head) == 1);
}

/// No event is the end of the block.
proof fn lemma_no_end_symbol(events: Seq<Event>)
    requires
        writable_events(events),
    ensures
        lit_uses(events, 256) == 0,
    decreases events.len(),
{
    if events.len() > 0 {
        let front = events.drop_last();
        assert forall|k: int| 0 <= k < front.len() implies writable_event(#[trigger] front[k]) by {
            assert(front[k] == events[k]);
        }
        lemma_no_end_symbol(front);
        let e = events[events.len() - 1];
        assert(writable_event(e));
        if let Event::Ref(r) = e {
            lemma_base_index(LBASE@, r.copy_len as nat);
        }
    }
}

/// The block's lengths give every symbol in use a code.
pub proof fn lemma_block_lengths(events: Seq<Event>)
    requires
        writable_events(events),
        events.len() <= u32::MAX,
    ensures
        usable_codes(
            widened(block_lit_lengths(events)),
            widened(block_dist_lengths(events)),
            events,
        ),
        257 <= block_lit_lengths(events).len() <= 286,
        1 <= block_dist_lengths(events).len() <= 30,
        forall|i: int|
            0 <= i < block_lit_lengths(events).len() ==> #[trigger] block_lit_lengths(events)[i]
                <= 15,
        forall|i: int|
            0 <= i < block_dist_lengths(events).len() ==> #[trigger] block_dist_lengths(events)[i]
                <= 15,
{
    let lw = lit_weights(events);
    let dw = dist_weights(events);
    lemma_leaves_fit(lw, 15);
    lemma_leaves_fit(dw, 15);
    law_package_merge_complete(lw, 15);
    law_package_merge_complete(dw, 15);
    let lit_all = pm_lengths(lw, 15);
    let dist_pm = pm_lengths(dw, 15);
    let dist_all = full_dist_lengths(events);
    if forall|i: int| 0 <= i < dist_pm.len() ==> #[trigger] dist_pm[i] == 0 {
        lemma_lone_code(dist_pm);
    }
    assert(check_lengths(widened(dist_all)) is Ok);
    lemma_used(lit_all, 286, 257);
    lemma_used(dist_all, 30, 1);
    let lit = block_lit_lengths(events);
    let dist = block_dist_lengths(events);
    lemma_trim_valid(lit_all, lit.len() as int);
    lemma_trim_valid(dist_all, dist.len() as int);
    lemma_no_end_symbol(events);
    assert(lw[256] > 0);
    assert(lit_all[256] > 0);
    assert forall|k: int| 0 <= k < events.len() implies event_has_codes(
        widened(lit),
        widened(dist),
        #[trigger] events[k],
    ) by {
        let e = events[k];
        assert(writable_event(events[k]));
        let s = lit_symbol(e);
        if let Event::Ref(r) = e {
            lemma_base_index(LBASE@, r.copy_len as nat);
        }
        lemma_lit_uses(events, s);
        assert(lw[s] > 0);
        assert(lit_all[s] > 0);
        if let Event::Ref(r) = e {
            let d = r.dist_sym as int;
            lemma_dist_uses(events, d);
            assert(dw[d] > 0);
            assert(dist_pm[d] > 0);
            assert(dist_all[d] > 0);
        }
    }
}

/// The table of lengths has a code for every pair.
pub proof fn lemma_meta_lengths(events: Seq<Event>)
    requires
        writable_events(events),
        events.len() <= u32::MAX,
    ensures
        check_lengths(widened(meta_code_lengths(events))) is Ok,
        meta_code_lengths(events).len() == 19,
        forall|i: int| 0 <= i < 19 ==> #[trigger] meta_code_lengths(events)[i] <= 7,
        pairs_ok(table_pairs(events)),
        table_pairs(events).len() <= 316,
        forall|k: int|
            0 <= k < table_pairs(events).len() ==> meta_code_lengths(
                events,
            )[(#[trigger] table_pairs(events)[k]).0 as int] > 0,
        expand(Seq::empty(), table_pairs(events)) == widened(block_lit_lengths(events)) + widened(
            block_dist_lengths(events),
        ),
{
    lemma_block_lengths(events);
    let both = block_lit_lengths(events) + block_dist_lengths(events);
    let pairs = table_pairs(events);
    assert forall|k: int| 0 <= k < both.len() implies #[trigger] both[k] <= 15 by {
        if k < block_lit_lengths(events).len() {
            assert(block_lit_lengths(events)[k] <= 15);
        } else {
            assert(block_dist_lengths(events)[k - block_lit_lengths(events).len()] <= 15);
        }
    }
    law_rle_round_trip(both);
    assert(widened(both) =~= widened(block_lit_lengths(events)) + widened(
        block_dist_lengths(events),
    ));
    let w = pair_weights(pairs);
    lemma_leaves_fit(w, 7);
    law_package_merge_complete(w, 7);
    let meta = meta_code_lengths(events);
    assert forall|k: int| 0 <= k < pairs.len() implies meta[(#[trigger] pairs[k]).0 as int] > 0 by {
        assert(pair_ok(pairs[k]));
        lemma_pair_uses(pairs, pairs[k].0 as int);
        assert(w[pairs[k].0 as int] > 0);
    }
}

pub proof fn lemma_meta_used(lengths: Seq<u8>, p: int)
    requires
        4 <= p <= 19,
        forall|i: int| p <= i < 19 ==> lengths[#[trigger] CLORDER@[i] as int] == 0,
    ensures
        4 <= meta_used(lengths, p) <= p,
        forall|i: int|
            meta_used(lengths, p) <= i < 19 ==> lengths[#[trigger] CLORDER@[i] as int] == 0,
    decreases p,
{
    if p > 4 && lengths[CLORDER@[p - 1] as int] == 0 {
        lemma_meta_used(lengths, p - 1);
    }
}

// Executable part.

/// Canonical encoder table for a set of code lengths, via `build_tree`'s
/// canonical-code assignment.
pub fn enc_from_lengths(lengths: &[u8]) -> (r: EncTable)
    requires
        lengths@.len() <= 0x1_0000,
        check_lengths(widened(lengths@)) is Ok,
    ensures
        r@ == enc_of(widened(lengths@)),
{
    let mut wide: Vec<u32> = Vec::new();
    let mut i: usize = 0;
    while i < lengths.len()
        invariant
            i <= lengths@.len(),
            wide@.len() == i,
            forall|k: int| 0 <= k < i ==> wide@[k] == lengths@[k],
        decreases lengths@.len() - i,
    {
        wide.push(lengths[i] as u32);
        i = i + 1;
    }
    assert(wide@ =~= widened(lengths@));
    match build_tree(wide.as_slice()) {
        Ok((_, enc)) => enc,
        Err(_) => {
            assert(false);
            EncTable::new(0)
        },
    }
}

/// Count of `lengths` after trimming trailing zeros, floored at `floor`.
/// HLIT / HDIST are this over the lit / dist code-length arrays. Their
/// floors are the RFC 1951 minimums: 257 literal/length codes (HLIT is
/// transmitted as count - 257) and 1 distance code.
pub fn used_len(lengths: &[u8], floor: usize) -> (r: usize)
    ensures
        r == used(lengths@, lengths@.len() as int, floor as int),
{
    let mut n: usize = lengths.len();
    while n > floor && lengths[n - 1] == 0
        invariant
            n <= lengths@.len(),
            used(lengths@, lengths@.len() as int, floor as int) == used(
                lengths@,
                n as int,
                floor as int,
            ),
        decreases n,
    {
        n = n - 1;
    }
    if n <= floor {
        floor
    } else {
        n
    }
}

fn zeros(n: usize) -> (r: Vec<u32>)
    ensures
        r@.len() == n,
        forall|i: int| 0 <= i < n ==> r@[i] == 0,
{
    let mut r: Vec<u32> = Vec::new();
    let mut i: usize = 0;
    while i < n
        invariant
            i <= n,
            r@.len() == i,
            forall|k: int| 0 <= k < i ==> r@[k] == 0,
        decreases n - i,
    {
        r.push(0);
        i = i + 1;
    }
    r
}

/// Symbol frequencies of an event stream.
fn count_symbols(events: &[Event]) -> (r: (Vec<u32>, Vec<u32>))
    requires
        writable_events(events@),
        events@.len() <= u32::MAX,
    ensures
        r.0@ == lit_weights(events@),
        r.1@ == dist_weights(events@),
{
    let mut lit: Vec<u32> = zeros(286);
    let mut dist: Vec<u32> = zeros(30);
    let mut k: usize = 0;
    assert(events@.take(0) =~= Seq::<Event>::empty());
    while k < events.len()
        invariant
            k <= events@.len() <= u32::MAX,
            writable_events(events@),
            lit@.len() == 286,
            dist@.len() == 30,
            forall|i: int|
                0 <= i < 286 ==> #[trigger] lit@[i] == lit_uses(events@.take(k as int), i),
            forall|i: int|
                0 <= i < 30 ==> #[trigger] dist@[i] == dist_uses(events@.take(k as int), i),
        decreases events@.len() - k,
    {
        let ghost sofar = events@.take(k as int);
        let ghost lit0 = lit@;
        let ghost dist0 = dist@;
        let e = events[k];
        assert(writable_event(events@[k as int]));
        let sym: usize = match e {
            Event::Lit(l) => l.symbol as usize,
            Event::Ref(r) => {
                let (lsym, _, _) = length_to_sym(r.copy_len);
                lsym as usize
            },
        };
        assert(sym == lit_symbol(e));
        proof {
            assert(lit0[sym as int] == lit_uses(sofar, sym as int));
            lemma_lit_uses(sofar, sym as int);
        }
        let c: u32 = lit[sym];
        lit[sym] = c + 1;
        if let Event::Ref(r) = e {
            let d: usize = r.dist_sym as usize;
            proof {
                assert(dist0[d as int] == dist_uses(sofar, d as int));
                lemma_dist_uses(sofar, d as int);
            }
            let c2: u32 = dist[d];
            dist[d] = c2 + 1;
        }
        proof {
            let next = events@.take(k + 1);
            assert(next.drop_last() =~= sofar);
            assert(next.last() == e);
            assert forall|i: int| 0 <= i < 286 implies #[trigger] lit@[i] == lit_uses(next, i) by {
                assert(lit0[i] == lit_uses(sofar, i));
            }
            assert forall|i: int| 0 <= i < 30 implies #[trigger] dist@[i] == dist_uses(
                next,
                i,
            ) by {
                assert(dist0[i] == dist_uses(sofar, i));
            }
        }
        k = k + 1;
    }
    proof {
        assert(events@.take(events@.len() as int) =~= events@);
        lemma_no_end_symbol(events@);
        assert(lit@[256] == lit_uses(events@, 256));
    }
    let eob: u32 = lit[256];
    lit[256] = eob + 1;  // end-of-block, emitted once
    assert(lit@ =~= lit_weights(events@));
    assert(dist@ =~= dist_weights(events@));
    (lit, dist)
}

/// Code-length symbol frequencies of the table's pairs.
fn count_pairs(pairs: &Vec<(u8, u8)>) -> (r: Vec<u32>)
    requires
        pairs_ok(pairs@),
        pairs@.len() <= 316,
    ensures
        r@ == pair_weights(pairs@),
{
    let mut freq: Vec<u32> = zeros(19);
    let mut k: usize = 0;
    assert(pairs@.take(0) =~= Seq::<(u8, u8)>::empty());
    while k < pairs.len()
        invariant
            k <= pairs@.len() <= 316,
            pairs_ok(pairs@),
            freq@.len() == 19,
            forall|i: int|
                0 <= i < 19 ==> #[trigger] freq@[i] == pair_uses(pairs@.take(k as int), i),
        decreases pairs@.len() - k,
    {
        let ghost sofar = pairs@.take(k as int);
        let ghost freq0 = freq@;
        assert(pair_ok(pairs@[k as int]));
        let sym: usize = pairs[k].0 as usize;
        proof {
            assert(freq0[sym as int] == pair_uses(sofar, sym as int));
            lemma_pair_uses(sofar, sym as int);
        }
        let c: u32 = freq[sym];
        freq[sym] = c + 1;
        proof {
            let next = pairs@.take(k + 1);
            assert(next.drop_last() =~= sofar);
            assert forall|i: int| 0 <= i < 19 implies #[trigger] freq@[i] == pair_uses(next, i) by {
                assert(freq0[i] == pair_uses(sofar, i));
            }
        }
        k = k + 1;
    }
    assert(pairs@.take(pairs@.len() as int) =~= pairs@);
    assert(freq@ =~= pair_weights(pairs@));
    freq
}

fn all_zero(lengths: &Vec<u8>) -> (r: bool)
    ensures
        r == (forall|i: int| 0 <= i < lengths@.len() ==> #[trigger] lengths@[i] == 0),
{
    let mut i: usize = 0;
    while i < lengths.len()
        invariant
            i <= lengths@.len(),
            forall|k: int| 0 <= k < i ==> #[trigger] lengths@[k] == 0,
        decreases lengths@.len() - i,
    {
        if lengths[i] != 0 {
            return false;
        }
        i = i + 1;
    }
    true
}

/// Write the transmitted lengths of the code-length codes.
fn write_meta(w: &mut DeflateWriter, lengths: &Vec<u8>, hclen: usize)
    requires
        old(w).wf(),
        lengths@.len() == 19,
        hclen <= 19,
    ensures
        final(w).wf(),
        final(w)@ == old(w)@ + meta_bits(lengths@, hclen as int),
{
    let mut i: usize = 0;
    assert(w@ =~= w@ + meta_bits(lengths@, 0));
    while i < hclen
        invariant
            i <= hclen <= 19,
            w.wf(),
            lengths@.len() == 19,
            w@ == old(w)@ + meta_bits(lengths@, i as int),
        decreases hclen - i,
    {
        let slot: usize = CLORDER[i];
        assert(CLORDER@[i as int] < 19);
        w.write_lsb(lengths[slot] as u32, 3);
        i = i + 1;
        assert(w@ =~= old(w)@ + meta_bits(lengths@, i as int));
    }
}

/// Write the table's pairs.
fn write_pairs(w: &mut DeflateWriter, pairs: &Vec<(u8, u8)>, enc: &EncTable)
    requires
        old(w).wf(),
        pairs_ok(pairs@),
        enc@.len() == 19,
        forall|k: int|
            0 <= k < pairs@.len() ==> 1 <= enc@[(#[trigger] pairs@[k]).0 as int].len <= 15,
    ensures
        final(w).wf(),
        final(w)@ == old(w)@ + pairs_bits(enc@, pairs@),
{
    let mut k: usize = 0;
    let ghost all = pairs_bits(enc@, pairs@);
    assert(pairs@.subrange(0, pairs@.len() as int) =~= pairs@);
    while k < pairs.len()
        invariant
            k <= pairs@.len(),
            w.wf(),
            pairs_ok(pairs@),
            enc@.len() == 19,
            forall|j: int|
                0 <= j < pairs@.len() ==> 1 <= enc@[(#[trigger] pairs@[j]).0 as int].len <= 15,
            w@ + pairs_bits(enc@, pairs@.subrange(k as int, pairs@.len() as int)) == old(w)@ + all,
        decreases pairs@.len() - k,
    {
        let ghost before = w@;
        let ghost rest = pairs@.subrange(k as int, pairs@.len() as int);
        assert(pair_ok(pairs@[k as int]));
        let (sym, extra) = pairs[k];
        assert(enc@[pairs@[k as int].0 as int].len >= 1);
        if let Some(sc) = enc.get(sym as u16) {
            w.write_code(sc);
        }
        if sym == 16 {
            w.write_lsb(extra as u32, 2);
        } else if sym == 17 {
            w.write_lsb(extra as u32, 3);
        } else if sym == 18 {
            w.write_lsb(extra as u32, 7);
        }
        proof {
            assert(lsb_bits(extra as nat, 0) =~= Seq::<bool>::empty());
            assert(w@ =~= before + pair_bits(enc@, pairs@[k as int]));
            let after = pairs@.subrange(k + 1, pairs@.len() as int);
            assert(rest.subrange(1, rest.len() as int) =~= after);
            assert(rest[0] == pairs@[k as int]);
            assert(w@ + pairs_bits(enc@, after) =~= before + pairs_bits(enc@, rest));
        }
        k = k + 1;
    }
    assert(w@ + pairs_bits(enc@, pairs@.subrange(pairs@.len() as int, pairs@.len() as int))
        =~= w@);
}

/// Serialize an [`Event`] stream as a single dynamic-Huffman (BTYPE=10)
/// block with optimal code lengths for its symbol frequencies.
pub fn serialize_dynamic(events: &[Event]) -> (r: Vec<u8>)
    requires
        writable_events(events@),
        events@.len() <= u32::MAX,
    ensures
        r@ == pack_bits(dynamic_stream(events@)),
{
    let (lit_freq, dist_freq) = count_symbols(events);
    proof {
        lemma_by_weight(lit_freq@, lit_freq@.len() as int);
        lemma_by_weight(dist_freq@, dist_freq@.len() as int);
    }
    let mut lit_lengths: Vec<u8> = package_merge(lit_freq.as_slice(), 15);
    let mut dist_lengths: Vec<u8> = package_merge(dist_freq.as_slice(), 15);
    proof {
        lemma_leaves_fit(lit_weights(events@), 15);
        lemma_leaves_fit(dist_weights(events@), 15);
        law_package_merge_complete(lit_weights(events@), 15);
        law_package_merge_complete(dist_weights(events@), 15);
        lemma_block_lengths(events@);
        lemma_meta_lengths(events@);
    }
    if all_zero(&dist_lengths) {
        dist_lengths[0] = 1;  // DEFLATE requires at least one distance code
    }
    let hlit: usize = used_len(lit_lengths.as_slice(), 257);
    let hdist: usize = used_len(dist_lengths.as_slice(), 1);
    lit_lengths.truncate(hlit);
    dist_lengths.truncate(hdist);
    proof {
        lemma_used(pm_lengths(lit_weights(events@), 15), 286, 257);
        lemma_used(full_dist_lengths(events@), 30, 1);
        assert(lit_lengths@ =~= block_lit_lengths(events@));
        assert(dist_lengths@ =~= block_dist_lengths(events@));
    }
    let mut combined: Vec<u8> = Vec::new();
    combined.extend_from_slice(lit_lengths.as_slice());
    combined.extend_from_slice(dist_lengths.as_slice());
    assert(combined@ =~= block_lit_lengths(events@) + block_dist_lengths(events@));
    let rle: Vec<(u8, u8)> = rle_code_lengths(combined.as_slice());
    let cl_freq: Vec<u32> = count_pairs(&rle);
    proof {
        lemma_by_weight(cl_freq@, cl_freq@.len() as int);
    }
    let cl_lengths: Vec<u8> = package_merge(cl_freq.as_slice(), 7);
    let mut hclen: usize = 19;
    while hclen > 4 && cl_lengths[CLORDER[hclen - 1]] == 0
        invariant
            4 <= hclen <= 19,
            cl_lengths@.len() == 19,
            meta_used(cl_lengths@, 19) == meta_used(cl_lengths@, hclen as int),
            forall|i: int| 0 <= i < 19 ==> #[trigger] CLORDER@[i] < 19,
        decreases hclen,
    {
        hclen = hclen - 1;
    }
    let lit_enc: EncTable = enc_from_lengths(lit_lengths.as_slice());
    let dist_enc: EncTable = enc_from_lengths(dist_lengths.as_slice());
    let cl_enc: EncTable = enc_from_lengths(cl_lengths.as_slice());
    let mut w = DeflateWriter::new();
    w.write_lsb(1, 1);  // BFINAL
    w.write_lsb(2, 2);  // BTYPE = 10 (dynamic)
    w.write_lsb(hlit as u32 - 257, 5);
    w.write_lsb(hdist as u32 - 1, 5);
    w.write_lsb(hclen as u32 - 4, 4);
    let ghost head = w@;
    assert(head =~= header_bits(2) + count_bits(hlit as nat, hdist as nat, hclen as nat));
    write_meta(&mut w, &cl_lengths, hclen);
    proof {
        assert forall|k: int| 0 <= k < rle@.len() implies 1 <= cl_enc@[(#[trigger] rle@[k]).0 as int].len
            <= 15 by {
            assert(pair_ok(rle@[k]));
            lemma_enc_is_code(widened(cl_lengths@), rle@[k].0 as int);
        }
    }
    write_pairs(&mut w, &rle, &cl_enc);
    proof {
        let lit = widened(lit_lengths@);
        let dist = widened(dist_lengths@);
        assert forall|k: int| 0 <= k < events@.len() implies event_coded(
            lit_enc@,
            dist_enc@,
            #[trigger] events@[k],
        ) by {
            let e = events@[k];
            assert(event_has_codes(lit, dist, events@[k]));
            lemma_enc_is_code(lit, lit_symbol(e));
            if let Event::Ref(r) = e {
                lemma_enc_is_code(dist, r.dist_sym as int);
            }
        }
        lemma_enc_is_code(lit, 256);
    }
    write_events(&mut w, events, &lit_enc, &dist_enc);
    assert(w@ =~= dynamic_stream(events@));
    w.finish()
}

} // verus!
