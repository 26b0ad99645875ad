//! Decoding undoes serializing: what each serializer writes, the decoder
//! reads back to the same bytes.

use vstd::arithmetic::power2::{lemma2_to64, pow2};
use vstd::prelude::*;

use super::canonical::{
    check_lengths, code_bits, decode_symbol, enc_of, law_decode_symbol_of_code, lemma_code_fits,
    symbol_at,
};
use super::constants::{base_index, lemma_length_symbol, DBASE, DEXT, LBASE, LEXT};
use super::encode::lemma_fixed_lengths_valid;
use super::error::DecodeError;
use super::events::Event;
use super::inflate_spec::{
    all_blocks, block_lengths, copy_step, decode_spec, field, fixed_dist_lengths, fixed_lit_lengths,
    huffman_block, huffman_step, inflate_spec, nothing_decoded, one_block, output_cap, stored_bytes,
    with_copy, with_literal, Decoded, Progress, Step,
};
use super::decoder::{lemma_blocks_advance, lemma_step_grows};
use super::stream_spec::{
    apply_event, body_bits, enc_bits, event_bits, events_bits, fixed_stream, header_bits,
    lemma_valid_event, lit_symbol, ref_distance, replay, stored_blocks, stored_header,
    stored_stream, valid_event, valid_events,
};
use crate::bitstream::{
    bits_at, byte_aligned, lemma_bits_at_split, lemma_byte_value, lemma_lsb_bits_value,
    lemma_lsb_value_concat, lemma_pack_bits, lsb_bits, lsb_value, pack_bits, skip_bits,
};

verus! {

/// The encoder's table entry is the symbol's canonical code.
pub proof fn lemma_enc_is_code(lengths: Seq<u32>, s: int)
    requires
        check_lengths(lengths) is Ok,
        0 <= s < lengths.len(),
        lengths[s] > 0,
    ensures
        enc_bits(enc_of(lengths), s) == code_bits(lengths, s),
        enc_bits(enc_of(lengths), s).len() == lengths[s],
        1 <= enc_of(lengths)[s].len <= 15,
{
    lemma_code_fits(lengths, s);
}

/// Where the code of a symbol was written, the symbol is read.
pub proof fn lemma_decode_written(lengths: Seq<u32>, data: Seq<u8>, pos: nat, s: int)
    requires
        check_lengths(lengths) is Ok,
        0 <= s < lengths.len() <= 0x1_0000,
        lengths[s] > 0,
        bits_at(data, pos as int, enc_bits(enc_of(lengths), s).len()) == enc_bits(
            enc_of(lengths),
            s,
        ),
        pos + enc_bits(enc_of(lengths), s).len() <= usize::MAX,
    ensures
        decode_symbol(lengths, data, pos) == Ok::<_, DecodeError>(
            (s as u16, pos + enc_bits(enc_of(lengths), s).len()),
        ),
{
    lemma_enc_is_code(lengths, s);
    assert(symbol_at(lengths, data, pos as int, s));
    law_decode_symbol_of_code(lengths, data, pos, s);
}

/// Where a number was written, the number is read.
pub proof fn lemma_field_written(data: Seq<u8>, pos: nat, v: nat, n: nat)
    requires
        bits_at(data, pos as int, n) == lsb_bits(v, n),
        v < pow2(n),
    ensures
        field(data, pos, n) == v,
{
    lemma_lsb_bits_value(v, n);
    vstd::arithmetic::div_mod::lemma_small_mod(v, pow2(n));
}

/// A part of what stands at `base` stands at its offset.
pub proof fn lemma_bits_part(
    data: Seq<u8>,
    base: int,
    all: Seq<bool>,
    off: int,
    part: Seq<bool>,
)
    requires
        bits_at(data, base, all.len()) == all,
        0 <= off,
        off + part.len() <= all.len(),
        all.subrange(off, off + part.len()) == part,
    ensures
        bits_at(data, base + off, part.len()) == part,
{
    assert forall|i: int| 0 <= i < part.len() implies bits_at(data, base + off, part.len())[i]
        == part[i] by {
        assert(bits_at(data, base, all.len())[off + i] == all[off + i]);
        assert(all.subrange(off, off + part.len())[i] == all[off + i]);
    }
    assert(bits_at(data, base + off, part.len()) =~= part);
}

/// Packed bits stand at the start of the bytes.
pub proof fn lemma_packed(bits: Seq<bool>)
    ensures
        bits_at(pack_bits(bits), 0, bits.len()) == bits,
        bits.len() <= 8 * pack_bits(bits).len(),
{
    let data = pack_bits(bits);
    assert forall|i: int| 0 <= i < bits.len() implies bits_at(data, 0, bits.len())[i] == bits[i] by {
        lemma_pack_bits(bits, i);
    }
    assert(bits_at(data, 0, bits.len()) =~= bits);
}

/// Two events that make the same choice: the same literal, or the same
/// length, distance and distance symbol.
pub open spec fn same_choice(a: Event, b: Event) -> bool {
    match (a, b) {
        (Event::Lit(x), Event::Lit(y)) => x.symbol == y.symbol,
        (Event::Ref(x), Event::Ref(y)) => x.copy_len == y.copy_len && x.dist_sym == y.dist_sym
            && ref_distance(x) == ref_distance(y),
        _ => false,
    }
}

pub open spec fn same_choices(a: Seq<Event>, b: Seq<Event>) -> bool {
    a.len() == b.len() && forall|k: int|
        0 <= k < a.len() ==> same_choice(#[trigger] a[k], b[k])
}

/// The code lengths give a code to every symbol that the event needs.
pub open spec fn event_has_codes(lit: Seq<u32>, dist: Seq<u32>, e: Event) -> bool {
    &&& 0 <= lit_symbol(e) < lit.len()
    &&& lit[lit_symbol(e)] > 0
    &&& e matches Event::Ref(r) ==> r.dist_sym < dist.len() && dist[r.dist_sym as int] > 0
}

pub open spec fn usable_codes(lit: Seq<u32>, dist: Seq<u32>, events: Seq<Event>) -> bool {
    &&& check_lengths(lit) is Ok
    &&& check_lengths(dist) is Ok
    &&& 256 < lit.len() <= 0x1_0000
    &&& dist.len() <= 0x1_0000
    &&& lit[256] > 0
    &&& forall|k: int| 0 <= k < events.len() ==> event_has_codes(lit, dist, #[trigger] events[k])
}

/// Where an event was written, that event is decoded.
proof fn lemma_step_of_event(
    lit: Seq<u32>,
    dist: Seq<u32>,
    data: Seq<u8>,
    pos: nat,
    st: Progress,
    max_output: Option<usize>,
    block_idx: u32,
    e: Event,
)
    requires
        check_lengths(lit) is Ok,
        check_lengths(dist) is Ok,
        lit.len() <= 0x1_0000,
        dist.len() <= 0x1_0000,
        event_has_codes(lit, dist, e),
        valid_event(e, st.out.len()),
        bits_at(data, pos as int, event_bits(enc_of(lit), enc_of(dist), e).len()) == event_bits(
            enc_of(lit),
            enc_of(dist),
            e,
        ),
        pos + event_bits(enc_of(lit), enc_of(dist), e).len() <= usize::MAX,
        apply_event(st.out, e).len() <= output_cap(max_output),
    ensures
        huffman_step(lit, dist, data, pos, st, max_output, block_idx) matches Step::More(st2, next)
            && next == pos + event_bits(enc_of(lit), enc_of(dist), e).len() && st2.out
            == apply_event(st.out, e) && st2.events.len() == st.events.len() + 1
            && st2.events.drop_last() == st.events && (st.out.len() <= u32::MAX ==> same_choice(
            st2.events.last(),
            e,
        )),
{
    reveal(huffman_step);
    let le = enc_of(lit);
    let de = enc_of(dist);
    let all = event_bits(le, de, e);
    match e {
        Event::Lit(l) => {
            lemma_decode_written(lit, data, pos, l.symbol as int);
            assert(with_literal(st, pos, l.symbol).events.drop_last() =~= st.events);
        },
        Event::Ref(r) => {
            let i = base_index(LBASE@, r.copy_len as nat);
            let d = r.dist_sym as int;
            lemma_length_symbol(r.copy_len as nat);
            let a = enc_bits(le, 257 + i);
            let b = lsb_bits((r.copy_len - LBASE@[i]) as nat, LEXT@[i] as nat);
            let c = enc_bits(de, d);
            let x = lsb_bits((ref_distance(r) - DBASE@[d]) as nat, DEXT@[d] as nat);
            let off1 = a.len() as int;
            let off2 = off1 + b.len();
            let off3 = off2 + c.len();
            assert(all == a + b + c + x);
            assert(all.subrange(0, off1) =~= a);
            assert(all.subrange(off1, off1 + b.len()) =~= b);
            assert(all.subrange(off2, off2 + c.len()) =~= c);
            assert(all.subrange(off3, off3 + x.len()) =~= x);
            lemma_bits_part(data, pos as int, all, 0, a);
            lemma_bits_part(data, pos as int, all, off1, b);
            lemma_bits_part(data, pos as int, all, off2, c);
            lemma_bits_part(data, pos as int, all, off3, x);
            lemma_decode_written(lit, data, pos, 257 + i);
            let p1 = (pos + off1) as nat;
            lemma_field_written(data, p1, (r.copy_len - LBASE@[i]) as nat, LEXT@[i] as nat);
            let p2 = (pos + off2) as nat;
            lemma_decode_written(dist, data, p2, d);
            let p3 = (pos + off3) as nat;
            lemma_field_written(data, p3, (ref_distance(r) - DBASE@[d]) as nat, DEXT@[d] as nat);
            let st2 = with_copy(
                st,
                p2,
                r.copy_len as nat,
                d as u16,
                ref_distance(r) as nat,
            );
            assert(st2.events.drop_last() =~= st.events);
            lemma_copy_len(st.out, ref_distance(r) as nat, r.copy_len as nat);
            assert(copy_step(dist, data, (257 + i) as u16, p1, st, max_output, block_idx)
                == Step::More(st2, (pos + all.len()) as nat));
        },
    }
}

proof fn lemma_copy_len(out: Seq<u8>, distance: nat, n: nat)
    ensures
        super::inflate_spec::copy_back(out, distance, n).len() == out.len() + n,
    decreases n,
{
    if n > 0 {
        lemma_copy_len(out, distance, (n - 1) as nat);
    }
}

/// Replaying more events never shrinks the output.
pub proof fn lemma_replay_grows(events: Seq<Event>, k: int)
    requires
        0 <= k <= events.len(),
    ensures
        replay(events.take(k)).len() <= replay(events).len(),
    decreases events.len() - k,
{
    if k == events.len() {
        assert(events.take(k) =~= events);
    } else {
        lemma_replay_grows(events, k + 1);
        let t = events.take(k + 1);
        assert(t.drop_last() =~= events.take(k));
        match t.last() {
            Event::Ref(r) => {
                lemma_copy_len(
                    replay(events.take(k)),
                    ref_distance(r) as nat,
                    r.copy_len as nat,
                );
            },
            _ => {},
        }
    }
}

/// The bits of the first `k` events stand before those of the next.
proof fn lemma_events_bits_split(
    le: Seq<super::events::SymCode>,
    de: Seq<super::events::SymCode>,
    events: Seq<Event>,
    k: int,
)
    requires
        0 <= k < events.len(),
    ensures
        ({
            let done = events_bits(le, de, events.take(k)).len() as int;
            let next = event_bits(le, de, events[k]);
            let all = events_bits(le, de, events);
            &&& events_bits(le, de, events.take(k + 1)).len() == done + next.len()
            &&& done + next.len() <= all.len()
            &&& all.subrange(done, done + next.len()) == next
        }),
    decreases events.len(),
{
    let next = event_bits(le, de, events[k]);
    let all = events_bits(le, de, events);
    assert(events.take(k + 1).drop_last() =~= events.take(k));
    if k == events.len() - 1 {
        assert(events.take(k) =~= events.drop_last());
        assert(events.take(k + 1) =~= events);
        let done = events_bits(le, de, events.take(k)).len() as int;
        assert(all.subrange(done, done + next.len()) =~= next);
    } else {
        let init = events.drop_last();
        lemma_events_bits_split(le, de, init, k);
        assert(init.take(k) =~= events.take(k));
        assert(init.take(k + 1) =~= events.take(k + 1));
        let part = events_bits(le, de, init);
        let done = events_bits(le, de, events.take(k)).len() as int;
        assert(all == part + event_bits(le, de, events.last()));
        assert(all.subrange(done, done + next.len()) =~= part.subrange(done, done + next.len()));
    }
}

/// The body of a block that holds `events` stands at `base`.
pub open spec fn body_at(
    lit: Seq<u32>,
    dist: Seq<u32>,
    data: Seq<u8>,
    base: nat,
    events: Seq<Event>,
) -> bool {
    let body = body_bits(enc_of(lit), enc_of(dist), events);
    &&& bits_at(data, base as int, body.len()) == body
    &&& base + body.len() <= usize::MAX
}

/// The first `k` events have been decoded.
pub open spec fn decoded_first(st: Progress, events: Seq<Event>, k: int) -> bool {
    &&& st.out == replay(events.take(k))
    &&& replay(events).len() <= u32::MAX ==> same_choices(st.events, events.take(k))
}

/// Where the body's `k`-th event starts.
pub open spec fn event_pos(
    lit: Seq<u32>,
    dist: Seq<u32>,
    base: nat,
    events: Seq<Event>,
    k: int,
) -> nat {
    base + events_bits(enc_of(lit), enc_of(dist), events.take(k)).len()
}

/// The `k`-th event's bits stand where it starts.
proof fn lemma_event_stands(
    lit: Seq<u32>,
    dist: Seq<u32>,
    data: Seq<u8>,
    base: nat,
    events: Seq<Event>,
    k: int,
)
    requires
        body_at(lit, dist, data, base, events),
        0 <= k < events.len(),
    ensures
        ({
            let next = event_bits(enc_of(lit), enc_of(dist), events[k]);
            let pos = event_pos(lit, dist, base, events, k);
            &&& bits_at(data, pos as int, next.len()) == next
            &&& pos + next.len() <= usize::MAX
            &&& event_pos(lit, dist, base, events, k + 1) == pos + next.len()
        }),
{
    let le = enc_of(lit);
    let de = enc_of(dist);
    let body = body_bits(le, de, events);
    let all = events_bits(le, de, events);
    let done = events_bits(le, de, events.take(k)).len() as int;
    let next = event_bits(le, de, events[k]);
    lemma_events_bits_split(le, de, events, k);
    assert(body.subrange(done, done + next.len()) =~= all.subrange(done, done + next.len()));
    lemma_bits_part(data, base as int, body, done, next);
}

/// The block's events are those of the whole stream from the `from`-th on.
pub open spec fn block_of_stream(all: Seq<Event>, from: int, events: Seq<Event>) -> bool {
    &&& valid_events(all)
    &&& 0 <= from
    &&& from + events.len() <= all.len()
    &&& all.subrange(from, from + events.len()) == events
}

/// Decoding the `k`-th event leaves one event less to decode.
proof fn lemma_body_step(
    lit: Seq<u32>,
    dist: Seq<u32>,
    data: Seq<u8>,
    base: nat,
    all: Seq<Event>,
    from: int,
    events: Seq<Event>,
    k: int,
    st: Progress,
    max_output: Option<usize>,
    block_idx: u32,
) -> (st2: Progress)
    requires
        usable_codes(lit, dist, events),
        block_of_stream(all, from, events),
        0 <= k < events.len(),
        body_at(lit, dist, data, base, events),
        decoded_first(st, all, from + k),
        replay(all).len() <= output_cap(max_output),
    ensures
        decoded_first(st2, all, from + k + 1),
        huffman_block(
            lit,
            dist,
            data,
            event_pos(lit, dist, base, events, k),
            st,
            max_output,
            block_idx,
        ) == huffman_block(
            lit,
            dist,
            data,
            event_pos(lit, dist, base, events, k + 1),
            st2,
            max_output,
            block_idx,
        ),
{
    let e = events[k];
    let m = from + k;
    assert(all.subrange(from, from + events.len())[k] == all[m]);
    let pos = event_pos(lit, dist, base, events, k);
    lemma_event_stands(lit, dist, data, base, events, k);
    lemma_valid_event(all, m);
    assert(event_has_codes(lit, dist, events[k]));
    lemma_replay_grows(all, m + 1);
    lemma_replay_grows(all, m);
    let t = all.take(m + 1);
    assert(t.drop_last() =~= all.take(m));
    assert(t.last() == e);
    lemma_step_of_event(lit, dist, data, pos, st, max_output, block_idx, e);
    lemma_step_grows(lit, dist, data, pos, st, max_output, block_idx);
    let step = huffman_step(lit, dist, data, pos, st, max_output, block_idx);
    let st2 = step->More_0;
    if replay(all).len() <= u32::MAX {
        assert forall|j: int| 0 <= j < st2.events.len() implies same_choice(
            #[trigger] st2.events[j],
            t[j],
        ) by {
            if j < m {
                assert(st2.events[j] == st2.events.drop_last()[j]);
                assert(same_choice(st.events[j], all.take(m)[j]));
            }
        }
    }
    st2
}

/// Where the body of a block was written, its events are decoded, from the
/// `k`-th on.
proof fn lemma_body_decodes(
    lit: Seq<u32>,
    dist: Seq<u32>,
    data: Seq<u8>,
    base: nat,
    all: Seq<Event>,
    from: int,
    events: Seq<Event>,
    k: int,
    st: Progress,
    max_output: Option<usize>,
    block_idx: u32,
)
    requires
        usable_codes(lit, dist, events),
        block_of_stream(all, from, events),
        0 <= k <= events.len(),
        body_at(lit, dist, data, base, events),
        decoded_first(st, all, from + k),
        replay(all).len() <= output_cap(max_output),
    ensures
        huffman_block(
            lit,
            dist,
            data,
            event_pos(lit, dist, base, events, k),
            st,
            max_output,
            block_idx,
        ) matches Ok((st2, next)) && decoded_first(st2, all, from + events.len()) && next == base
            + body_bits(enc_of(lit), enc_of(dist), events).len(),
    decreases events.len() - k,
{
    if k == events.len() {
        let le = enc_of(lit);
        let body = body_bits(le, enc_of(dist), events);
        let pos = event_pos(lit, dist, base, events, k);
        assert(events.take(k) =~= events);
        let eob = enc_bits(le, 256);
        let done = pos - base;
        assert(body.subrange(done, done + eob.len()) =~= eob);
        lemma_bits_part(data, base as int, body, done, eob);
        lemma_decode_written(lit, data, pos, 256);
        assert(huffman_step(lit, dist, data, pos, st, max_output, block_idx) == Step::Done(
            pos + eob.len(),
        )) by {
            reveal(huffman_step);
        }
    } else {
        let st2 = lemma_body_step(
            lit,
            dist,
            data,
            base,
            all,
            from,
            events,
            k,
            st,
            max_output,
            block_idx,
        );
        lemma_body_decodes(
            lit,
            dist,
            data,
            base,
            all,
            from,
            events,
            k + 1,
            st2,
            max_output,
            block_idx,
        );
    }
}

/// A Huffman block anywhere in a stream decodes to its events, and the stream
/// goes on behind its end-of-block code.
pub proof fn lemma_block_decodes(
    lit: Seq<u32>,
    dist: Seq<u32>,
    data: Seq<u8>,
    block_type: nat,
    head_end: nat,
    body_pos: nat,
    all: Seq<Event>,
    from: int,
    events: Seq<Event>,
    acc: Decoded,
    max_output: Option<usize>,
    block_idx: u32,
)
    requires
        usable_codes(lit, dist, events),
        block_of_stream(all, from, events),
        block_type == 1 || block_type == 2,
        block_lengths(data, head_end, block_type) == Ok::<_, DecodeError>((lit, dist, body_pos)),
        body_at(lit, dist, data, body_pos, events),
        decoded_first(acc.progress, all, from),
        replay(all).len() <= output_cap(max_output),
    ensures
        one_block(data, head_end, block_type, acc, max_output, block_idx) matches Ok((acc2, next))
            && decoded_first(acc2.progress, all, from + events.len()) && next == body_pos
            + body_bits(enc_of(lit), enc_of(dist), events).len() && acc2.block_starts
            == acc.block_starts.push(acc.progress.events.len() as u32),
{
    assert(events.take(0) =~= Seq::<Event>::empty());
    lemma_body_decodes(
        lit,
        dist,
        data,
        body_pos,
        all,
        from,
        events,
        0,
        acc.progress,
        max_output,
        block_idx,
    );
}

/// A stream of one final Huffman block decodes to what its events replay to.
pub proof fn lemma_single_block_decodes(
    lit: Seq<u32>,
    dist: Seq<u32>,
    data: Seq<u8>,
    block_type: nat,
    body_pos: nat,
    events: Seq<Event>,
    max_output: Option<usize>,
)
    requires
        usable_codes(lit, dist, events),
        valid_events(events),
        block_type == 1 || block_type == 2,
        bits_at(data, 0, 3) == header_bits(block_type),
        block_lengths(data, 3, block_type) == Ok::<_, DecodeError>((lit, dist, body_pos)),
        body_at(lit, dist, data, body_pos, events),
        replay(events).len() <= output_cap(max_output),
    ensures
        decode_spec(data, max_output) matches Ok(d) && d.block_starts == seq![0u32]
            && d.progress.out == replay(events) && (replay(events).len() <= u32::MAX
            ==> same_choices(d.progress.events, events)),
{
    lemma2_to64();
    let head = header_bits(block_type);
    assert(head.subrange(0, 1) =~= lsb_bits(1, 1));
    assert(head.subrange(1, 3) =~= lsb_bits(block_type, 2));
    lemma_bits_part(data, 0, head, 0, lsb_bits(1, 1));
    lemma_bits_part(data, 0, head, 1, lsb_bits(block_type, 2));
    lemma_field_written(data, 0, 1, 1);
    lemma_field_written(data, 1, block_type, 2);
    let acc = nothing_decoded();
    assert(events.take(0) =~= Seq::<Event>::empty());
    assert(events.subrange(0, events.len() as int) =~= events);
    assert(acc.progress.out =~= replay(events.take(0)));
    lemma_block_decodes(
        lit,
        dist,
        data,
        block_type,
        3,
        body_pos,
        events,
        0,
        events,
        acc,
        max_output,
        0,
    );
    assert(skip_bits(0, 1) == 1 && skip_bits(1, 2) == 3);
    assert(events.take(events.len() as int) =~= events);
    assert(acc.block_starts.push(0u32) =~= seq![0u32]);
}

/// What [`super::encode::serialize_fixed`] writes decodes to one block, to what
/// the events replay to, and to events that make the same choices.
pub proof fn law_fixed_round_trip(events: Seq<Event>, max_output: Option<usize>)
    requires
        valid_events(events),
        replay(events).len() <= output_cap(max_output),
        8 * pack_bits(fixed_stream(events)).len() <= usize::MAX,
    ensures
        decode_spec(pack_bits(fixed_stream(events)), max_output) matches Ok(d) && d.block_starts
            == seq![0u32] && d.progress.out == replay(events) && (replay(events).len() <= u32::MAX
            ==> same_choices(d.progress.events, events)),
{
    let bits = fixed_stream(events);
    let data = pack_bits(bits);
    let lit = fixed_lit_lengths();
    let dist = fixed_dist_lengths();
    let head = header_bits(1);
    let body = body_bits(enc_of(lit), enc_of(dist), events);
    lemma_packed(bits);
    lemma_fixed_lengths_valid();
    assert(bits.subrange(0, 3) =~= head);
    assert(bits.subrange(3, (3 + body.len()) as int) =~= body);
    lemma_bits_part(data, 0, bits, 0, head);
    lemma_bits_part(data, 0, bits, 3, body);
    assert forall|k: int| 0 <= k < events.len() implies event_has_codes(
        lit,
        dist,
        #[trigger] events[k],
    ) by {
        lemma_valid_event(events, k);
        if let Event::Ref(r) = events[k] {
            lemma_length_symbol(r.copy_len as nat);
        }
    }
    lemma_single_block_decodes(lit, dist, data, 1, 3, events, max_output);
}

/// Sixteen bits at a byte boundary spell a little-endian number.
proof fn lemma_two_bytes(data: Seq<u8>, q: int)
    requires
        0 <= q,
        q + 1 < data.len(),
    ensures
        lsb_value(bits_at(data, 8 * q, 16)) == data[q] + 256 * data[q + 1],
{
    lemma2_to64();
    lemma_byte_value(data, q);
    lemma_byte_value(data, q + 1);
    lemma_bits_at_split(data, 8 * q, 8, 8);
    assert(8 * q + 8 == 8 * (q + 1));
    lemma_lsb_value_concat(bits_at(data, 8 * q, 8), bits_at(data, 8 * (q + 1), 8));
}

/// The bytes of a stored block come out as they stand.
proof fn lemma_stored_bytes_copy(data: Seq<u8>, q: nat, st: Progress, n: nat)
    requires
        q + n <= data.len(),
        8 * data.len() <= usize::MAX,
    ensures
        stored_bytes(data, 8 * q, st, n).0.out == st.out + data.subrange(q as int, (q + n) as int),
        stored_bytes(data, 8 * q, st, n).1 == 8 * (q + n),
    decreases n,
{
    if n == 0 {
        assert(st.out + data.subrange(q as int, q as int) =~= st.out);
    } else {
        lemma_stored_bytes_copy(data, q, st, (n - 1) as nat);
        lemma_byte_value(data, (q + n - 1) as int);
        assert((st.out + data.subrange(q as int, (q + n - 1) as int)).push(data[q + n - 1])
            =~= st.out + data.subrange(q as int, (q + n) as int));
    }
}

/// A stored block written at byte `q` is decoded.
proof fn lemma_stored_block_decodes(
    data: Seq<u8>,
    q: nat,
    last: bool,
    len: nat,
    acc: Decoded,
    max_output: Option<usize>,
    block_idx: u32,
)
    requires
        len <= 0xFFFF,
        q + 5 + len <= data.len(),
        8 * data.len() <= usize::MAX,
        data.subrange(q as int, (q + 5) as int) == stored_header(last, len),
        acc.progress.out.len() + len <= output_cap(max_output),
    ensures
        field(data, 8 * q, 1) == (if last {
            1nat
        } else {
            0nat
        }),
        skip_bits(8 * q, 1) == 8 * q + 1,
        field(data, 8 * q + 1, 2) == 0,
        skip_bits(8 * q + 1, 2) == 8 * q + 3,
        one_block(data, 8 * q + 3, 0, acc, max_output, block_idx) matches Ok((acc2, next))
            && acc2.progress.out == acc.progress.out + data.subrange(
            (q + 5) as int,
            (q + 5 + len) as int,
        ) && next == 8 * (q + 5 + len) && acc2.block_starts.len() == acc.block_starts.len() + 1,
{
    lemma2_to64();
    let h = stored_header(last, len);
    assert(data[q as int] == data.subrange(q as int, (q + 5) as int)[0]);
    assert(data[(q + 1) as int] == data.subrange(q as int, (q + 5) as int)[1]);
    assert(data[(q + 2) as int] == data.subrange(q as int, (q + 5) as int)[2]);
    assert(data[(q + 3) as int] == data.subrange(q as int, (q + 5) as int)[3]);
    assert(data[(q + 4) as int] == data.subrange(q as int, (q + 5) as int)[4]);
    lemma_byte_value(data, q as int);
    let bits = bits_at(data, 8 * q as int, 8);
    let v: nat = if last {
        1
    } else {
        0
    };
    assert(bits == lsb_bits(v, 8));
    assert(bits.subrange(0, 1) =~= lsb_bits(v, 1));
    assert(bits.subrange(1, 3) =~= lsb_bits(0, 2)) by {
        assert(bits[1] == ((v / 2) % 2 == 1) && bits[2] == ((v / 4) % 2 == 1));
        assert(lsb_bits(0, 2)[0] == ((0nat / 1) % 2 == 1));
        assert(lsb_bits(0, 2)[1] == ((0nat / 2) % 2 == 1));
    }
    lemma_bits_part(data, 8 * q as int, bits, 0, lsb_bits(v, 1));
    lemma_bits_part(data, 8 * q as int, bits, 1, lsb_bits(0, 2));
    lemma_field_written(data, 8 * q, v, 1);
    lemma_field_written(data, 8 * q + 1, 0, 2);
    assert(byte_aligned(8 * q + 3) == 8 * (q + 1)) by {
        assert((8 * q + 3) % 8 == 3);
    }
    lemma_two_bytes(data, (q + 1) as int);
    lemma_two_bytes(data, (q + 3) as int);
    assert(8 * (q + 1) + 16 == 8 * (q + 3));
    assert(8 * (q + 3) + 16 == 8 * (q + 5));
    lemma_stored_bytes_copy(data, q + 5, acc.progress, len);
}

/// A chain of stored blocks written at byte `q` is decoded to its end.
#[verifier::rlimit(60)]
proof fn lemma_stored_chain_decodes(
    data: Seq<u8>,
    q: nat,
    rest: Seq<u8>,
    acc: Decoded,
    max_output: Option<usize>,
    block_idx: u32,
)
    requires
        q <= data.len(),
        8 * data.len() <= usize::MAX,
        data.subrange(q as int, data.len() as int) == stored_stream(rest),
        acc.progress.out.len() + rest.len() <= output_cap(max_output),
    ensures
        all_blocks(data, 8 * q, acc, max_output, block_idx) matches Ok(d) && d.progress.out
            == acc.progress.out + rest && d.block_starts.len() == acc.block_starts.len()
            + stored_blocks(rest.len()),
    decreases rest.len(),
{
    let tail = data.subrange(q as int, data.len() as int);
    let last = rest.len() <= 0xFFFF;
    let len: nat = if last {
        rest.len()
    } else {
        0xFFFF
    };
    let chunk = rest.take(len as int);
    let h = stored_header(last, len);
    assert(h.len() == 5);
    if last {
        assert(chunk =~= rest);
        assert(tail == h + chunk);
    } else {
        assert(tail == h + chunk + stored_stream(rest.subrange(0xFFFF, rest.len() as int)));
    }
    assert(tail.len() >= 5 + len);
    assert(tail.subrange(0, 5) =~= h);
    assert(tail.subrange(5, (5 + len) as int) =~= chunk);
    assert(data.subrange(q as int, (q + 5) as int) =~= tail.subrange(0, 5));
    assert(data.subrange((q + 5) as int, (q + 5 + len) as int) =~= tail.subrange(
        5,
        (5 + len) as int,
    ));
    lemma_stored_block_decodes(data, q, last, len, acc, max_output, block_idx);
    lemma_blocks_advance(data, 8 * q, acc, max_output, block_idx);
    if !last {
        let (acc2, next) = one_block(data, 8 * q + 3, 0, acc, max_output, block_idx).unwrap();
        let q2 = q + 5 + len;
        let rest2 = rest.subrange(0xFFFF, rest.len() as int);
        assert(data.subrange(q2 as int, data.len() as int) =~= tail.subrange(
            (5 + len) as int,
            tail.len() as int,
        ));
        assert(tail.subrange((5 + len) as int, tail.len() as int) =~= stored_stream(rest2));
        lemma_stored_chain_decodes(
            data,
            q2,
            rest2,
            acc2,
            max_output,
            block_idx.wrapping_add(1),
        );
        assert(acc.progress.out + chunk + rest2 =~= acc.progress.out + rest);
        assert(stored_blocks(rest.len()) == stored_blocks(rest2.len()) + 1);
    }
}

/// What [`super::encode::serialize_stored`] writes decodes to the bytes given,
/// in as many blocks as their number asks for.
pub proof fn law_stored_round_trip(bytes: Seq<u8>, max_output: Option<usize>)
    requires
        bytes.len() <= output_cap(max_output),
        8 * stored_stream(bytes).len() <= usize::MAX,
    ensures
        inflate_spec(stored_stream(bytes), max_output) == Ok::<_, DecodeError>(bytes),
        decode_spec(stored_stream(bytes), max_output) matches Ok(d) && d.block_starts.len()
            == stored_blocks(bytes.len()),
{
    let data = stored_stream(bytes);
    assert(data.subrange(0, data.len() as int) =~= data);
    lemma_stored_chain_decodes(data, 0, bytes, nothing_decoded(), max_output, 0);
    assert(nothing_decoded().progress.out + bytes =~= bytes);
}

} // verus!
