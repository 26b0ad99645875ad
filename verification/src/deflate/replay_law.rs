//! The events of a decode are a faithful record: they are ones that DEFLATE
//! can express, they tile the output, and replaying them gives the output.

use vstd::prelude::*;

use super::canonical::decode_symbol;
use super::compress::lemma_valid_is_writable;
use super::constants::{lemma_distance_range, lemma_length_range, DBASE, DEXT, LBASE, LEXT};
use super::decoder::{lemma_blocks_advance, lemma_field_bound, lemma_one_block, lemma_step_grows};
use super::error::DecodeError;
use super::events::Event;
use super::inflate_spec::{
    all_blocks, bits_ahead, block_lengths, copy_back, copy_step, decode_spec, field, huffman_block,
    huffman_step, inflate_spec, nothing_decoded, one_block, output_cap, stored_bytes, with_copy,
    with_literal, Decoded, Progress, Step,
};
use super::roundtrip::{law_fixed_round_trip, same_choice, same_choices};
use super::stream_spec::{
    apply_event, fixed_stream, lemma_valid_push, replay, valid_event, valid_events, writable_events,
};
use crate::bitstream::{byte_aligned, pack_bits, skip_bits};

verus! {

/// Where an event's first output byte stands.
pub open spec fn ev_pos(e: Event) -> int {
    match e {
        Event::Lit(l) => l.out_pos as int,
        Event::Ref(r) => r.out_pos as int,
    }
}

/// How many output bytes an event produces.
pub open spec fn ev_len(e: Event) -> int {
    match e {
        Event::Lit(_) => 1,
        Event::Ref(r) => r.copy_len as int,
    }
}

/// The events cover `total` output bytes without gap or overlap, in order.
pub open spec fn tiled(events: Seq<Event>, total: int) -> bool {
    &&& events.len() == 0 ==> total == 0
    &&& events.len() > 0 ==> ev_pos(events[0]) == 0 && ev_pos(events.last()) + ev_len(
        events.last(),
    ) == total
    &&& forall|k: int| 0 <= k < events.len() ==> ev_len(#[trigger] events[k]) >= 1
    &&& forall|k: int| 0 < k < events.len() ==> #[trigger] abuts(events, k)
}

/// Event `k` starts where the one before it ends.
pub open spec fn abuts(events: Seq<Event>, k: int) -> bool {
    ev_pos(events[k]) == ev_pos(events[k - 1]) + ev_len(events[k - 1])
}

/// Every back-reference reads output that stands before it.
pub open spec fn reads_back(events: Seq<Event>) -> bool {
    forall|k: int|
        0 <= k < events.len() ==> (#[trigger] events[k] matches Event::Ref(r) ==> r.src_out_pos
            < r.out_pos)
}

/// What the events say agrees with the output, as long as output positions
/// fit in 32 bits.
pub open spec fn faithful(st: Progress) -> bool {
    st.out.len() <= u32::MAX ==> {
        &&& valid_events(st.events)
        &&& replay(st.events) == st.out
        &&& tiled(st.events, st.out.len() as int)
        &&& reads_back(st.events)
    }
}

proof fn lemma_push_event(st: Progress, st2: Progress, e: Event)
    requires
        faithful(st),
        st2.events == st.events.push(e),
        st2.out == apply_event(st.out, e),
        st2.out.len() == st.out.len() + ev_len(e),
        ev_len(e) >= 1,
        st.out.len() <= u32::MAX ==> ev_pos(e) == st.out.len() && valid_event(e, st.out.len())
            && (e matches Event::Ref(r) ==> r.src_out_pos < r.out_pos),
    ensures
        faithful(st2),
{
    if st2.out.len() <= u32::MAX {
        lemma_valid_push(st.events, e);
        assert(st2.events.drop_last() =~= st.events);
        assert(replay(st2.events) == apply_event(replay(st.events), e));
        let total = st2.out.len() as int;
        assert(tiled(st2.events, total)) by {
            assert forall|k: int| 0 < k < st2.events.len() implies #[trigger] abuts(
                st2.events,
                k,
            ) by {
                if k < st.events.len() {
                    assert(abuts(st.events, k));
                    assert(st2.events[k] == st.events[k]);
                } else {
                    assert(st2.events[k - 1] == st.events.last());
                }
            }
            assert forall|k: int| 0 <= k < st2.events.len() implies ev_len(
                #[trigger] st2.events[k],
            ) >= 1 by {
                if k < st.events.len() {
                    assert(st2.events[k] == st.events[k]);
                }
            }
        }
        assert forall|k: int| 0 <= k < st2.events.len() implies (
        #[trigger] st2.events[k] matches Event::Ref(r) ==> r.src_out_pos < r.out_pos) by {
            if k < st.events.len() {
                assert(st2.events[k] == st.events[k]);
            }
        }
    }
}

pub proof fn lemma_copy_back_len(out: Seq<u8>, distance: nat, n: nat)
    ensures
        copy_back(out, distance, n).len() == out.len() + n,
    decreases n,
{
    if n > 0 {
        lemma_copy_back_len(out, distance, (n - 1) as nat);
    }
}

proof fn lemma_copy_faithful(
    dist: Seq<u32>,
    data: Seq<u8>,
    sym: u16,
    next: nat,
    st: Progress,
    max_output: Option<usize>,
    block_idx: u32,
)
    requires
        faithful(st),
        257 <= sym < 286,
    ensures
        copy_step(dist, data, sym, next, st, max_output, block_idx) matches Step::More(st2, _)
            ==> faithful(st2),
{
    let i = sym - 257;
    let copy_len = LBASE@[i] as nat + field(data, next, LEXT@[i] as nat);
    lemma_field_bound(data, next, LEXT@[i] as nat);
    lemma_length_range(i);
    let dist_pos = skip_bits(next, LEXT@[i] as nat);
    match decode_symbol(dist, data, dist_pos) {
        Ok((d, extra_pos)) => if d < 30 {
            let distance = DBASE@[d as int] as nat + field(
                data,
                extra_pos,
                DEXT@[d as int] as nat,
            );
            lemma_field_bound(data, extra_pos, DEXT@[d as int] as nat);
            lemma_distance_range(d as int);
            lemma_copy_back_len(st.out, distance, copy_len);
            if distance <= st.out.len() {
                let st2 = with_copy(st, dist_pos, copy_len, d, distance);
                if st2.out.len() <= u32::MAX {
                    lemma_push_event(st, st2, st2.events.last());
                }
            }
        },
        Err(_) => {},
    }
}

proof fn lemma_step_faithful(
    lit: Seq<u32>,
    dist: Seq<u32>,
    data: Seq<u8>,
    pos: nat,
    st: Progress,
    max_output: Option<usize>,
    block_idx: u32,
)
    requires
        faithful(st),
    ensures
        huffman_step(lit, dist, data, pos, st, max_output, block_idx) matches Step::More(st2, _)
            ==> faithful(st2),
{
    reveal(huffman_step);
    match decode_symbol(lit, data, pos) {
        Ok((sym, next)) => if sym < 256 {
            let st2 = with_literal(st, pos, sym as u8);
            lemma_push_event(st, st2, st2.events.last());
        } else if 256 < sym < 286 {
            lemma_copy_faithful(dist, data, sym, next, st, max_output, block_idx);
        },
        Err(_) => {},
    }
}

proof fn lemma_huffman_faithful(
    lit: Seq<u32>,
    dist: Seq<u32>,
    data: Seq<u8>,
    pos: nat,
    st: Progress,
    max_output: Option<usize>,
    block_idx: u32,
)
    requires
        faithful(st),
        pos <= usize::MAX,
    ensures
        huffman_block(lit, dist, data, pos, st, max_output, block_idx) matches Ok((st2, _))
            ==> faithful(st2),
    decreases output_cap(max_output) - st.out.len(),
{
    lemma_step_faithful(lit, dist, data, pos, st, max_output, block_idx);
    lemma_step_grows(lit, dist, data, pos, st, max_output, block_idx);
    match huffman_step(lit, dist, data, pos, st, max_output, block_idx) {
        Step::More(st2, next) => {
            lemma_huffman_faithful(lit, dist, data, next, st2, max_output, block_idx);
        },
        _ => {},
    }
}

proof fn lemma_stored_faithful(data: Seq<u8>, pos: nat, st: Progress, n: nat)
    requires
        faithful(st),
    ensures
        faithful(stored_bytes(data, pos, st, n).0),
    decreases n,
{
    if n > 0 {
        lemma_stored_faithful(data, pos, st, (n - 1) as nat);
        let (st1, pos1) = stored_bytes(data, pos, st, (n - 1) as nat);
        let st2 = with_literal(st1, pos1, field(data, pos1, 8) as u8);
        lemma_push_event(st1, st2, st2.events.last());
    }
}

proof fn lemma_blocks_faithful(
    data: Seq<u8>,
    pos: nat,
    acc: Decoded,
    max_output: Option<usize>,
    block_idx: u32,
)
    requires
        faithful(acc.progress),
        pos <= usize::MAX,
        8 * data.len() <= usize::MAX,
    ensures
        all_blocks(data, pos, acc, max_output, block_idx) matches Ok(d) ==> faithful(d.progress),
    decreases bits_ahead(data, pos),
{
    let type_pos = skip_bits(pos, 1);
    let body = skip_bits(type_pos, 2);
    let block_type = field(data, type_pos, 2);
    lemma_one_block(data, body, block_type, acc, max_output, block_idx);
    lemma_blocks_advance(data, pos, acc, max_output, block_idx);
    if block_type == 0 {
        let len_pos = byte_aligned(body);
        lemma_stored_faithful(
            data,
            skip_bits(skip_bits(len_pos, 16), 16),
            acc.progress,
            field(data, len_pos, 16),
        );
    } else if block_type != 3 {
        match block_lengths(data, body, block_type) {
            Ok((lit, dist, start)) => {
                if start <= usize::MAX {
                    lemma_huffman_faithful(
                        lit,
                        dist,
                        data,
                        start,
                        acc.progress,
                        max_output,
                        block_idx,
                    );
                }
                lemma_block_start(data, body, block_type);
            },
            Err(_) => {},
        }
    }
    match one_block(data, body, block_type, acc, max_output, block_idx) {
        Ok((acc2, next)) => if field(data, pos, 1) != 1 {
            lemma_blocks_faithful(data, next, acc2, max_output, block_idx.wrapping_add(1));
        },
        Err(_) => {},
    }
}

/// A block body starts at a position that fits.
pub proof fn lemma_block_start(data: Seq<u8>, pos: nat, block_type: nat)
    requires
        pos <= usize::MAX,
    ensures
        block_lengths(data, pos, block_type) matches Ok((_, _, start)) ==> start <= usize::MAX,
{
    if block_type != 1 {
        let hlit = field(data, pos, 5) + 257;
        let pos1 = skip_bits(pos, 5);
        let hdist = field(data, pos1, 5) + 1;
        let pos2 = skip_bits(pos1, 5);
        let hclen = field(data, pos2, 4) + 4;
        let pos3 = skip_bits(pos2, 4);
        super::decoder::lemma_length_run(
            super::inflate_spec::meta_lengths(data, pos3, hclen),
            data,
            skip_bits(pos3, 3 * hclen),
            Seq::empty(),
            hlit + hdist,
        );
    }
}

/// The events of a decode can be serialized again, tile the output, and replay
/// to it.
pub proof fn law_decoded_events_faithful(data: Seq<u8>, max_output: Option<usize>)
    requires
        8 * data.len() <= usize::MAX,
    ensures
        decode_spec(data, max_output) matches Ok(d) ==> faithful(d.progress) && (
        d.progress.out.len() <= u32::MAX ==> writable_events(d.progress.events)),
{
    let st = nothing_decoded().progress;
    assert(faithful(st)) by {
        reveal(valid_events);
    }
    lemma_blocks_faithful(data, 0, nothing_decoded(), max_output, 0);
    if let Ok(d) = decode_spec(data, max_output) {
        if d.progress.out.len() <= u32::MAX {
            lemma_valid_is_writable(d.progress.events);
        }
    }
}

/// The same event, wherever its code stands in the stream.
pub open spec fn same_event(a: Event, b: Event) -> bool {
    match (a, b) {
        (Event::Lit(x), Event::Lit(y)) => x.out_pos == y.out_pos && x.symbol == y.symbol,
        (Event::Ref(x), Event::Ref(y)) => {
            &&& x.out_pos == y.out_pos
            &&& x.src_out_pos == y.src_out_pos
            &&& x.copy_len == y.copy_len
            &&& x.dist_sym == y.dist_sym
        },
        _ => false,
    }
}

/// The same events in the same order; only bit positions may differ.
pub open spec fn same_events(a: Seq<Event>, b: Seq<Event>) -> bool {
    a.len() == b.len() && forall|k: int| 0 <= k < a.len() ==> same_event(#[trigger] a[k], b[k])
}

proof fn lemma_same_place(a: Seq<Event>, b: Seq<Event>, n: int, m: int, k: int)
    requires
        same_choices(a, b),
        tiled(a, n),
        tiled(b, m),
        0 <= k < a.len(),
    ensures
        ev_pos(a[k]) == ev_pos(b[k]),
    decreases k,
{
    if k > 0 {
        lemma_same_place(a, b, n, m, k - 1);
        assert(abuts(a, k) && abuts(b, k));
        assert(same_choice(a[k - 1], b[k - 1]));
    }
}

proof fn lemma_place_bound(events: Seq<Event>, n: int, k: int)
    requires
        tiled(events, n),
        0 <= k < events.len(),
    ensures
        ev_pos(events[k]) >= k,
    decreases k,
{
    if k > 0 {
        lemma_place_bound(events, n, k - 1);
        assert(abuts(events, k));
        assert(ev_len(events[k - 1]) >= 1);
    }
}

/// Events that tile an output are no more than its bytes.
pub proof fn lemma_tiled_count(events: Seq<Event>, n: int)
    requires
        tiled(events, n),
    ensures
        events.len() <= n,
{
    if events.len() > 0 {
        lemma_place_bound(events, n, events.len() - 1);
        assert(ev_len(events[events.len() - 1]) >= 1);
    }
}

/// Events that tile the output and make the same choices stand at the same
/// places.
pub proof fn lemma_same_events(a: Seq<Event>, b: Seq<Event>, n: int, m: int)
    requires
        same_choices(a, b),
        tiled(a, n),
        tiled(b, m),
    ensures
        same_events(a, b),
{
    assert forall|k: int| 0 <= k < a.len() implies same_event(#[trigger] a[k], b[k]) by {
        lemma_same_place(a, b, n, m, k);
        assert(same_choice(a[k], b[k]));
    }
}

/// Events that tile their output survive [`super::encode::serialize_fixed`]:
/// the stream decodes to one block of the same events.
pub proof fn law_fixed_keeps_events(events: Seq<Event>, max_output: Option<usize>)
    requires
        valid_events(events),
        tiled(events, replay(events).len() as int),
        replay(events).len() <= output_cap(max_output),
        replay(events).len() <= u32::MAX,
        8 * pack_bits(fixed_stream(events)).len() <= usize::MAX,
    ensures
        decode_spec(pack_bits(fixed_stream(events)), max_output) matches Ok(d) && d.block_starts
            == seq![0u32] && d.progress.out == replay(events) && same_events(
            d.progress.events,
            events,
        ),
{
    law_fixed_round_trip(events, max_output);
    law_decoded_events_faithful(pack_bits(fixed_stream(events)), max_output);
    let d = decode_spec(pack_bits(fixed_stream(events)), max_output)->Ok_0;
    let n = replay(events).len() as int;
    lemma_same_events(d.progress.events, events, n, n);
}

/// Re-serializing a decode's events and decoding the result gives the same
/// output, in one block of the same events:
/// `decode_deflate(x.to_deflate()).output == x.output`.
pub proof fn law_to_deflate_round_trip(data: Seq<u8>, max_output: Option<usize>, d: Decoded)
    requires
        8 * data.len() <= usize::MAX,
        decode_spec(data, max_output) == Ok::<_, DecodeError>(d),
        d.progress.out.len() <= u32::MAX,
        d.progress.out.len() <= usize::MAX,
        8 * pack_bits(fixed_stream(d.progress.events)).len() <= usize::MAX,
    ensures
        inflate_spec(pack_bits(fixed_stream(d.progress.events)), None) == Ok::<_, DecodeError>(
            d.progress.out,
        ),
        decode_spec(pack_bits(fixed_stream(d.progress.events)), None) matches Ok(y)
            && y.block_starts == seq![0u32] && same_events(y.progress.events, d.progress.events),
{
    law_decoded_events_faithful(data, max_output);
    law_fixed_keeps_events(d.progress.events, None);
}

} // verus!
