//! Compression: greedy LZ77 over raw bytes, then the smallest of the three
//! encodings; and the proof that decompressing gives the bytes back.

use vstd::arithmetic::power2::lemma2_to64;
use vstd::prelude::*;

use super::canonical::{check_lengths, decode_symbol, enc_of};
use super::constants::CLORDER;
use super::decoder::DecodedDeflate;
use super::dynamic::{
    block_dist_lengths, block_lit_lengths, count_bits, dynamic_block, dynamic_stream, expand,
    expand_pair, lemma_block_lengths, lemma_meta_lengths, lemma_meta_used, meta_bits,
    meta_code_lengths, meta_used, pair_bits, pair_ok, pairs_bits, pairs_ok, serialize_dynamic,
    table_pairs,
};
use super::encode::{serialize_fixed, serialize_stored};
use super::error::DecodeError;
use super::events::Event;
use super::inflate_spec::{
    block_lengths, decode_spec, dynamic_lengths, field, inflate_spec, length_run, length_step,
    meta_lengths, output_cap,
};
use super::lz77::{greedy_events, law_lz77_replays, lz77};
use super::package_merge::widened;
use super::replay_law::{
    law_decoded_events_faithful, lemma_same_events, lemma_tiled_count, same_events, tiled,
};
use super::roundtrip::{
    body_at, law_fixed_round_trip, law_stored_round_trip, lemma_bits_part, lemma_decode_written,
    lemma_field_written, lemma_packed, lemma_single_block_decodes, same_choices, usable_codes,
};
use super::stream_spec::{
    body_bits, enc_bits, fixed_stream, header_bits, lemma_valid_event, replay, stored_stream,
    valid_events, writable_event, writable_events,
};
use crate::bitstream::{bits_at, lsb_bits, pack_bits};

verus! {

/// Valid events can be written.
pub proof fn lemma_valid_is_writable(events: Seq<Event>)
    requires
        valid_events(events),
    ensures
        writable_events(events),
{
    assert forall|k: int| 0 <= k < events.len() implies writable_event(#[trigger] events[k]) by {
        lemma_valid_event(events, k);
    }
}

proof fn lemma_expand_grows(acc: Seq<u32>, pairs: Seq<(u8, u8)>)
    ensures
        expand(acc, pairs).len() >= acc.len() + pairs.len(),
    decreases pairs.len(),
{
    if pairs.len() > 0 {
        lemma_expand_grows(expand_pair(acc, pairs[0]), pairs.subrange(1, pairs.len() as int));
    }
}

/// One pair written is one step of the table read.
proof fn lemma_pair_decodes(
    meta: Seq<u32>,
    data: Seq<u8>,
    pos: nat,
    acc: Seq<u32>,
    pair: (u8, u8),
)
    requires
        check_lengths(meta) is Ok,
        meta.len() == 19,
        pair_ok(pair),
        meta[pair.0 as int] > 0,
        bits_at(data, pos as int, pair_bits(enc_of(meta), pair).len()) == pair_bits(
            enc_of(meta),
            pair,
        ),
        pos + pair_bits(enc_of(meta), pair).len() <= usize::MAX,
    ensures
        decode_symbol(meta, data, pos) matches Ok((sym, next)) && length_step(data, next, acc, sym)
            == (expand_pair(acc, pair), pos + pair_bits(enc_of(meta), pair).len()),
{
    lemma2_to64();
    let all = pair_bits(enc_of(meta), pair);
    let code = enc_bits(enc_of(meta), pair.0 as int);
    let n: nat = if pair.0 == 16 {
        2
    } else if pair.0 == 17 {
        3
    } else if pair.0 == 18 {
        7
    } else {
        0
    };
    let extra = lsb_bits(pair.1 as nat, n);
    assert(all.subrange(0, code.len() as int) =~= code);
    assert(all.subrange(code.len() as int, (code.len() + n) as int) =~= extra);
    lemma_bits_part(data, pos as int, all, 0, code);
    lemma_bits_part(data, pos as int, all, code.len() as int, extra);
    lemma_decode_written(meta, data, pos, pair.0 as int);
    if n > 0 {
        lemma_field_written(data, pos + code.len(), pair.1 as nat, n);
    }
}

/// The pairs written are the table read.
proof fn lemma_pairs_decode(
    meta: Seq<u32>,
    data: Seq<u8>,
    pos: nat,
    acc: Seq<u32>,
    pairs: Seq<(u8, u8)>,
)
    requires
        check_lengths(meta) is Ok,
        meta.len() == 19,
        pairs_ok(pairs),
        forall|k: int| 0 <= k < pairs.len() ==> meta[(#[trigger] pairs[k]).0 as int] > 0,
        bits_at(data, pos as int, pairs_bits(enc_of(meta), pairs).len()) == pairs_bits(
            enc_of(meta),
            pairs,
        ),
        pos + pairs_bits(enc_of(meta), pairs).len() <= usize::MAX,
    ensures
        length_run(meta, data, pos, acc, expand(acc, pairs).len()) == Ok::<_, DecodeError>(
            (expand(acc, pairs), pos + pairs_bits(enc_of(meta), pairs).len()),
        ),
    decreases pairs.len(),
{
    if pairs.len() > 0 {
        let enc = enc_of(meta);
        let all = pairs_bits(enc, pairs);
        let first = pair_bits(enc, pairs[0]);
        let rest = pairs.subrange(1, pairs.len() as int);
        let tail = pairs_bits(enc, rest);
        assert(all.subrange(0, first.len() as int) =~= first);
        assert(all.subrange(first.len() as int, (first.len() + tail.len()) as int) =~= tail);
        lemma_bits_part(data, pos as int, all, 0, first);
        lemma_bits_part(data, pos as int, all, first.len() as int, tail);
        assert(pair_ok(pairs[0]));
        lemma_pair_decodes(meta, data, pos, acc, pairs[0]);
        assert forall|k: int| 0 <= k < rest.len() implies pair_ok(#[trigger] rest[k])
            && meta[rest[k].0 as int] > 0 by {
            assert(rest[k] == pairs[k + 1]);
            assert(pair_ok(pairs[k + 1]));
        }
        let acc2 = expand_pair(acc, pairs[0]);
        lemma_pairs_decode(meta, data, pos + first.len(), acc2, rest);
        lemma_expand_grows(acc, pairs);
    }
}

/// Where each code-length symbol stands in transmission order.
spec fn transmitted_at() -> Seq<int> {
    seq![3, 17, 15, 13, 11, 9, 7, 5, 4, 6, 8, 10, 12, 14, 16, 18, 0, 1, 2]
}

proof fn lemma_transmission_order()
    ensures
        forall|i: int, j: int| 0 <= i < j < 19 ==> #[trigger] CLORDER@[i] != #[trigger] CLORDER@[j],
        forall|i: int| 0 <= i < 19 ==> 0 <= #[trigger] CLORDER@[i] < 19,
        forall|s: int|
            0 <= s < 19 ==> 0 <= #[trigger] transmitted_at()[s] < 19 && CLORDER@[transmitted_at()[s]]
                == s,
{
    assert(forall|i: int| 0 <= i < 19 ==> transmitted_at()[#[trigger] CLORDER@[i] as int] == i);
}

proof fn lemma_meta_bits_len(lengths: Seq<u8>, n: int)
    requires
        0 <= n,
    ensures
        meta_bits(lengths, n).len() == 3 * n,
    decreases n,
{
    if n > 0 {
        lemma_meta_bits_len(lengths, n - 1);
    }
}

/// The lengths of the code-length codes are read as written.
proof fn lemma_meta_decodes(lengths: Seq<u8>, data: Seq<u8>, pos: nat, n: int)
    requires
        0 <= n <= 19,
        lengths.len() == 19,
        forall|i: int| 0 <= i < 19 ==> #[trigger] lengths[i] <= 7,
        bits_at(data, pos as int, meta_bits(lengths, n).len()) == meta_bits(lengths, n),
        pos + 3 * n <= usize::MAX,
    ensures
        meta_lengths(data, pos, n as nat).len() == 19,
        forall|i: int|
            0 <= i < 19 ==> meta_lengths(data, pos, n as nat)[#[trigger] CLORDER@[i] as int] == (
            if i < n {
                lengths[CLORDER@[i] as int] as u32
            } else {
                0u32
            }),
    decreases n,
{
    lemma_transmission_order();
    if n > 0 {
        lemma2_to64();
        let all = meta_bits(lengths, n);
        let init = meta_bits(lengths, n - 1);
        let v = lengths[CLORDER@[n - 1] as int];
        let last = lsb_bits(v as nat, 3);
        lemma_meta_bits_len(lengths, n - 1);
        assert(all.subrange(0, init.len() as int) =~= init);
        assert(all.subrange(init.len() as int, (init.len() + 3) as int) =~= last);
        lemma_bits_part(data, pos as int, all, 0, init);
        lemma_bits_part(data, pos as int, all, init.len() as int, last);
        lemma_meta_decodes(lengths, data, pos, n - 1);
        assert(v <= 7);
        lemma_field_written(data, (pos + 3 * (n - 1)) as nat, v as nat, 3);
    }
}

proof fn lemma_counts_decode(data: Seq<u8>, p: nat, hlit: nat, hdist: nat, hclen: nat)
    requires
        257 <= hlit <= 286,
        1 <= hdist <= 30,
        4 <= hclen <= 19,
        bits_at(data, p as int, 14) == count_bits(hlit, hdist, hclen),
    ensures
        field(data, p, 5) == hlit - 257,
        field(data, p + 5, 5) == hdist - 1,
        field(data, p + 10, 4) == hclen - 4,
{
    lemma2_to64();
    let all = count_bits(hlit, hdist, hclen);
    let a = lsb_bits((hlit - 257) as nat, 5);
    let b = lsb_bits((hdist - 1) as nat, 5);
    let c = lsb_bits((hclen - 4) as nat, 4);
    assert(all.subrange(0, 5) =~= a);
    assert(all.subrange(5, 10) =~= b);
    assert(all.subrange(10, 14) =~= c);
    lemma_bits_part(data, p as int, all, 0, a);
    lemma_bits_part(data, p as int, all, 5, b);
    lemma_bits_part(data, p as int, all, 10, c);
    lemma_field_written(data, p, (hlit - 257) as nat, 5);
    lemma_field_written(data, p + 5, (hdist - 1) as nat, 5);
    lemma_field_written(data, p + 10, (hclen - 4) as nat, 4);
}

/// Each of four parts written in a row stands at its place.
proof fn lemma_four_parts(
    data: Seq<u8>,
    p: int,
    a: Seq<bool>,
    b: Seq<bool>,
    c: Seq<bool>,
    d: Seq<bool>,
)
    requires
        bits_at(data, p, (a + b + c + d).len()) == a + b + c + d,
    ensures
        bits_at(data, p, a.len()) == a,
        bits_at(data, p + a.len(), b.len()) == b,
        bits_at(data, p + a.len() + b.len(), c.len()) == c,
        bits_at(data, p + a.len() + b.len() + c.len(), d.len()) == d,
{
    let all = a + b + c + d;
    let p1 = a.len() as int;
    let p2 = p1 + b.len();
    let p3 = p2 + c.len();
    assert(all.subrange(0, p1) =~= a);
    assert(all.subrange(p1, p2) =~= b);
    assert(all.subrange(p2, p3) =~= c);
    assert(all.subrange(p3, p3 + d.len()) =~= d);
    lemma_bits_part(data, p, all, 0, a);
    lemma_bits_part(data, p, all, p1, b);
    lemma_bits_part(data, p, all, p2, c);
    lemma_bits_part(data, p, all, p3, d);
}

/// The table of a dynamic block is read as written.
proof fn lemma_dynamic_lengths_read(
    data: Seq<u8>,
    p: nat,
    lit8: Seq<u8>,
    dist8: Seq<u8>,
    meta8: Seq<u8>,
    pairs: Seq<(u8, u8)>,
    hclen: int,
)
    requires
        257 <= lit8.len() <= 286,
        1 <= dist8.len() <= 30,
        4 <= hclen <= 19,
        meta8.len() == 19,
        forall|i: int| 0 <= i < 19 ==> #[trigger] meta8[i] <= 7,
        forall|i: int| hclen <= i < 19 ==> meta8[#[trigger] CLORDER@[i] as int] == 0,
        check_lengths(widened(meta8)) is Ok,
        pairs_ok(pairs),
        forall|k: int| 0 <= k < pairs.len() ==> meta8[(#[trigger] pairs[k]).0 as int] > 0,
        expand(Seq::empty(), pairs) == widened(lit8) + widened(dist8),
        bits_at(data, p as int, 14) == count_bits(lit8.len(), dist8.len(), hclen as nat),
        bits_at(data, (p + 14) as int, (3 * hclen) as nat) == meta_bits(meta8, hclen),
        bits_at(
            data,
            p + 14 + 3 * hclen,
            pairs_bits(enc_of(widened(meta8)), pairs).len(),
        ) == pairs_bits(enc_of(widened(meta8)), pairs),
        p + 14 + 3 * hclen + pairs_bits(enc_of(widened(meta8)), pairs).len() <= usize::MAX,
    ensures
        dynamic_lengths(data, p) == Ok::<_, DecodeError>(
            (
                widened(lit8),
                widened(dist8),
                (p + 14 + 3 * hclen + pairs_bits(enc_of(widened(meta8)), pairs).len()) as nat,
            ),
        ),
{
    let lit = widened(lit8);
    let dist = widened(dist8);
    let meta = widened(meta8);
    lemma_counts_decode(data, p, lit8.len(), dist8.len(), hclen as nat);
    lemma_meta_bits_len(meta8, hclen);
    lemma_meta_decodes(meta8, data, p + 14, hclen);
    let read = meta_lengths(data, p + 14, hclen as nat);
    assert(read =~= meta) by {
        lemma_transmission_order();
        assert forall|s: int| 0 <= s < 19 implies read[s] == meta[s] by {
            let i = transmitted_at()[s];
            assert(CLORDER@[i] == s);
        }
    }
    assert forall|k: int| 0 <= k < pairs.len() implies meta[(#[trigger] pairs[k]).0 as int] > 0 by {
        assert(pair_ok(pairs[k]));
    }
    lemma_pairs_decode(meta, data, (p + 14 + 3 * hclen) as nat, Seq::empty(), pairs);
    let all = lit + dist;
    assert(all.take(lit.len() as int) =~= lit);
    assert(all.subrange(lit.len() as int, all.len() as int) =~= dist);
}

/// Where a dynamic block was written, behind its three header bits, its code
/// lengths are read, its body stands behind them, and its events have codes.
pub proof fn lemma_dynamic_stands(data: Seq<u8>, p: nat, events: Seq<Event>)
    requires
        writable_events(events),
        events.len() <= u32::MAX,
        bits_at(data, p as int, dynamic_block(events).len()) == dynamic_block(events),
        p + dynamic_block(events).len() <= usize::MAX,
    ensures
        ({
            let lit = widened(block_lit_lengths(events));
            let dist = widened(block_dist_lengths(events));
            let body = body_bits(enc_of(lit), enc_of(dist), events);
            let at = (p + dynamic_block(events).len() - body.len()) as nat;
            &&& block_lengths(data, p, 2) == Ok::<_, DecodeError>((lit, dist, at))
            &&& body_at(lit, dist, data, at, events)
            &&& usable_codes(lit, dist, events)
        }),
{
    lemma_block_lengths(events);
    lemma_meta_lengths(events);
    let lit8 = block_lit_lengths(events);
    let dist8 = block_dist_lengths(events);
    let meta8 = meta_code_lengths(events);
    lemma_transmission_order();
    lemma_meta_used(meta8, 19);
    let hclen = meta_used(meta8, 19);
    let counts = count_bits(lit8.len(), dist8.len(), hclen as nat);
    let mb = meta_bits(meta8, hclen);
    let pb = pairs_bits(enc_of(widened(meta8)), table_pairs(events));
    let body = body_bits(enc_of(widened(lit8)), enc_of(widened(dist8)), events);
    lemma_meta_bits_len(meta8, hclen);
    lemma_four_parts(data, p as int, counts, mb, pb, body);
    lemma_dynamic_lengths_read(data, p, lit8, dist8, meta8, table_pairs(events), hclen);
}

/// What [`serialize_dynamic`] writes decodes to one block, to what the events
/// replay to, and to events that make the same choices.
pub proof fn law_dynamic_round_trip(events: Seq<Event>, max_output: Option<usize>)
    requires
        valid_events(events),
        events.len() <= u32::MAX,
        replay(events).len() <= output_cap(max_output),
        8 * pack_bits(dynamic_stream(events)).len() <= usize::MAX,
    ensures
        decode_spec(pack_bits(dynamic_stream(events)), max_output) matches Ok(d) && d.block_starts
            == seq![0u32] && d.progress.out == replay(events) && (replay(events).len() <= u32::MAX
            ==> same_choices(d.progress.events, events)),
{
    lemma_valid_is_writable(events);
    let bits = dynamic_stream(events);
    let data = pack_bits(bits);
    let block = dynamic_block(events);
    let lit = widened(block_lit_lengths(events));
    let dist = widened(block_dist_lengths(events));
    let body = body_bits(enc_of(lit), enc_of(dist), events);
    lemma_packed(bits);
    assert(bits =~= header_bits(2) + block);
    assert(bits.subrange(0, 3) =~= header_bits(2));
    assert(bits.subrange(3, (3 + block.len()) as int) =~= block);
    lemma_bits_part(data, 0, bits, 0, header_bits(2));
    lemma_bits_part(data, 0, bits, 3, block);
    lemma_dynamic_stands(data, 3, events);
    lemma_single_block_decodes(
        lit,
        dist,
        data,
        2,
        (3 + block.len() - body.len()) as nat,
        events,
        max_output,
    );
}

/// Events that tile their output survive [`serialize_dynamic`]: the stream
/// decodes to one block of the same events.
pub proof fn law_dynamic_keeps_events(events: Seq<Event>, max_output: Option<usize>)
    requires
        valid_events(events),
        tiled(events, replay(events).len() as int),
        replay(events).len() <= output_cap(max_output),
        replay(events).len() <= u32::MAX,
        8 * pack_bits(dynamic_stream(events)).len() <= usize::MAX,
    ensures
        decode_spec(pack_bits(dynamic_stream(events)), max_output) matches Ok(d) && d.block_starts
            == seq![0u32] && d.progress.out == replay(events) && same_events(
            d.progress.events,
            events,
        ),
{
    lemma_tiled_count(events, replay(events).len() as int);
    law_dynamic_round_trip(events, max_output);
    law_decoded_events_faithful(pack_bits(dynamic_stream(events)), max_output);
    let d = decode_spec(pack_bits(dynamic_stream(events)), max_output)->Ok_0;
    let n = replay(events).len() as int;
    lemma_same_events(d.progress.events, events, n, n);
}

impl DecodedDeflate {
    /// Re-serialize this decode's [`Event`] stream to a fixed-Huffman
    /// DEFLATE stream that decodes to the same bytes.
    pub fn to_deflate(&self) -> (r: Vec<u8>)
        requires
            writable_events(self.events@),
        ensures
            r@ == pack_bits(fixed_stream(self.events@)),
    {
        serialize_fixed(self.events.as_slice())
    }
}

/// Threshold below which the fixed-Huffman encoding is also trialled.
/// Dynamic Huffman is never worse than fixed on larger input (its optimal
/// codes dominate once the header amortizes), so fixed only competes on
/// small input where it avoids the per-block header table.
pub const FIXED_TRIAL_LIMIT: usize = 4096;

/// What [`compress`] writes for `data`.
pub open spec fn compressed(data: Seq<u8>) -> Seq<u8> {
    let events = greedy_events(data, 0);
    let dynamic = pack_bits(dynamic_stream(events));
    let stored = stored_stream(data);
    let fixed = pack_bits(fixed_stream(events));
    let best = if dynamic.len() <= stored.len() {
        dynamic
    } else {
        stored
    };
    if data.len() < FIXED_TRIAL_LIMIT && fixed.len() < best.len() {
        fixed
    } else {
        best
    }
}

/// Compress `data` to a DEFLATE stream via greedy LZ77, choosing the
/// smallest valid encoding. Dynamic Huffman wins on real images; stored
/// guards incompressible input, and fixed Huffman is trialled only on small
/// input (its full re-serialization isn't worth it once dynamic dominates).
pub fn compress(data: &[u8]) -> (r: Vec<u8>)
    requires
        data@.len() <= u32::MAX,
    ensures
        r@ == compressed(data@),
{
    let events: Vec<Event> = lz77(data);
    proof {
        law_lz77_replays(data@);
        lemma_valid_is_writable(events@);
    }
    let dynamic: Vec<u8> = serialize_dynamic(events.as_slice());
    let stored: Vec<u8> = serialize_stored(data);
    let mut best: Vec<u8> = if dynamic.len() <= stored.len() {
        dynamic
    } else {
        stored
    };
    if data.len() < FIXED_TRIAL_LIMIT {
        let fixed: Vec<u8> = serialize_fixed(events.as_slice());
        if fixed.len() < best.len() {
            best = fixed;
        }
    }
    best
}

/// Decompressing gives back what was compressed.
pub proof fn law_compress_round_trip(data: Seq<u8>, max_output: Option<usize>)
    requires
        data.len() <= u32::MAX,
        data.len() <= output_cap(max_output),
        8 * compressed(data).len() <= usize::MAX,
    ensures
        inflate_spec(compressed(data), max_output) == Ok::<_, DecodeError>(data),
{
    let events = greedy_events(data, 0);
    law_lz77_replays(data);
    let out = compressed(data);
    if out == pack_bits(fixed_stream(events)) {
        law_fixed_round_trip(events, max_output);
    } else if out == pack_bits(dynamic_stream(events)) {
        law_dynamic_round_trip(events, max_output);
    } else {
        law_stored_round_trip(data, max_output);
    }
}

/// The encoding chosen is no larger than a stored or a dynamic one, nor, for
/// small input, than a fixed one.
pub proof fn law_compress_picks_smallest(data: Seq<u8>)
    ensures
        compressed(data).len() <= stored_stream(data).len(),
        compressed(data).len() <= pack_bits(dynamic_stream(greedy_events(data, 0))).len(),
        data.len() < FIXED_TRIAL_LIMIT ==> compressed(data).len() <= pack_bits(
            fixed_stream(greedy_events(data, 0)),
        ).len(),
{
}

} // verus!
