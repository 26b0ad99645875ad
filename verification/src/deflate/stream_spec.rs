//! What the serializers write: the bits of an event, of a Huffman block's
//! body, and the bytes of a chain of stored blocks; and what an event list
//! stands for, the bytes it replays to.

use vstd::arithmetic::power2::pow2;
use vstd::prelude::*;

use super::canonical::enc_of;
use super::constants::{base_index, DBASE, DEXT, LBASE, LEXT};
use super::events::{Event, RefEvent, SymCode};
use super::inflate_spec::{copy_back, fixed_dist_lengths, fixed_lit_lengths};
use crate::bitstream::{lsb_bits, msb_bits};

verus! {

/// How far back a back-reference reaches.
pub open spec fn ref_distance(r: RefEvent) -> int {
    r.out_pos - r.src_out_pos
}

/// The output with one event applied to it.
pub open spec fn apply_event(out: Seq<u8>, e: Event) -> Seq<u8> {
    match e {
        Event::Lit(l) => out.push(l.symbol),
        Event::Ref(r) => copy_back(out, ref_distance(r) as nat, r.copy_len as nat),
    }
}

/// The bytes that an event list produces.
pub open spec fn replay(events: Seq<Event>) -> Seq<u8>
    decreases events.len(),
{
    if events.len() == 0 {
        Seq::empty()
    } else {
        apply_event(replay(events.drop_last()), events.last())
    }
}

/// A back-reference that DEFLATE can express, after `len` bytes of output.
pub open spec fn valid_event(e: Event, len: nat) -> bool {
    match e {
        Event::Lit(_) => true,
        Event::Ref(r) => {
            &&& 3 <= r.copy_len <= 258
            &&& r.dist_sym < 30
            &&& DBASE@[r.dist_sym as int] <= ref_distance(r) < DBASE@[r.dist_sym as int] + pow2(
                DEXT@[r.dist_sym as int] as nat,
            )
            &&& ref_distance(r) <= len
        },
    }
}

/// Every event of the list is one that DEFLATE can express where it stands.
#[verifier::opaque]
pub open spec fn valid_events(events: Seq<Event>) -> bool {
    forall|k: int|
        0 <= k < events.len() ==> valid_event(#[trigger] events[k], replay(events.take(k)).len())
}

/// The `k`-th event of a valid list is valid where it stands.
pub proof fn lemma_valid_event(events: Seq<Event>, k: int)
    requires
        valid_events(events),
        0 <= k < events.len(),
    ensures
        valid_event(events[k], replay(events.take(k)).len()),
{
    reveal(valid_events);
}

/// A valid event behind a valid list makes a valid list.
pub proof fn lemma_valid_push(events: Seq<Event>, e: Event)
    requires
        valid_events(events),
        valid_event(e, replay(events).len()),
    ensures
        valid_events(events.push(e)),
{
    reveal(valid_events);
    let longer = events.push(e);
    assert forall|k: int| 0 <= k < longer.len() implies valid_event(
        #[trigger] longer[k],
        replay(longer.take(k)).len(),
    ) by {
        assert(longer.take(k) =~= events.take(k));
        if k < events.len() {
            assert(valid_event(events[k], replay(events.take(k)).len()));
        } else {
            assert(events.take(k) =~= events);
        }
    }
}

/// An event that has a symbol, and extra bits that are not negative.
pub open spec fn writable_event(e: Event) -> bool {
    match e {
        Event::Lit(_) => true,
        Event::Ref(r) => {
            &&& 3 <= r.copy_len
            &&& r.dist_sym < 30
            &&& DBASE@[r.dist_sym as int] <= ref_distance(r)
        },
    }
}

pub open spec fn writable_events(events: Seq<Event>) -> bool {
    forall|k: int| 0 <= k < events.len() ==> writable_event(#[trigger] events[k])
}

/// The literal/length symbol of an event.
pub open spec fn lit_symbol(e: Event) -> int {
    match e {
        Event::Lit(l) => l.symbol as int,
        Event::Ref(r) => 257 + base_index(LBASE@, r.copy_len as nat),
    }
}

/// The code of `sym` in an encoder table, as it stands in the stream.
pub open spec fn enc_bits(enc: Seq<SymCode>, sym: int) -> Seq<bool> {
    msb_bits(enc[sym].code as nat, enc[sym].len as nat)
}

/// The bits of one event.
pub open spec fn event_bits(lit: Seq<SymCode>, dist: Seq<SymCode>, e: Event) -> Seq<bool> {
    match e {
        Event::Lit(l) => enc_bits(lit, l.symbol as int),
        Event::Ref(r) => {
            let i = base_index(LBASE@, r.copy_len as nat);
            let d = r.dist_sym as int;
            enc_bits(lit, 257 + i) + lsb_bits(
                (r.copy_len - LBASE@[i]) as nat,
                LEXT@[i] as nat,
            ) + enc_bits(dist, d) + lsb_bits((ref_distance(r) - DBASE@[d]) as nat, DEXT@[d] as nat)
        },
    }
}

/// The bits of an event list.
pub open spec fn events_bits(
    lit: Seq<SymCode>,
    dist: Seq<SymCode>,
    events: Seq<Event>,
) -> Seq<bool>
    decreases events.len(),
{
    if events.len() == 0 {
        Seq::empty()
    } else {
        events_bits(lit, dist, events.drop_last()) + event_bits(lit, dist, events.last())
    }
}

/// The body of a Huffman block: its events, then the end-of-block code.
pub open spec fn body_bits(lit: Seq<SymCode>, dist: Seq<SymCode>, events: Seq<Event>) -> Seq<bool> {
    events_bits(lit, dist, events) + enc_bits(lit, 256)
}

/// The header of a final block of type `block_type`.
pub open spec fn header_bits(block_type: nat) -> Seq<bool> {
    lsb_bits(1, 1) + lsb_bits(block_type, 2)
}

/// A single fixed-Huffman block that holds `events`.
pub open spec fn fixed_stream(events: Seq<Event>) -> Seq<bool> {
    header_bits(1) + body_bits(enc_of(fixed_lit_lengths()), enc_of(fixed_dist_lengths()), events)
}

/// The header bytes of a stored block of `len` bytes.
pub open spec fn stored_header(last: bool, len: nat) -> Seq<u8> {
    seq![
        if last {
            1u8
        } else {
            0u8
        },
        (len % 256) as u8,
        (len / 256) as u8,
        (255 - len % 256) as u8,
        (255 - len / 256) as u8,
    ]
}

/// `data` as a chain of stored blocks, one per 65535-byte run.
pub open spec fn stored_stream(data: Seq<u8>) -> Seq<u8>
    decreases data.len(),
{
    if data.len() <= 0xFFFF {
        stored_header(true, data.len()) + data
    } else {
        stored_header(false, 0xFFFF) + data.take(0xFFFF) + stored_stream(
            data.subrange(0xFFFF, data.len() as int),
        )
    }
}

/// How many blocks [`stored_stream`] makes of `n` bytes: at least one.
pub open spec fn stored_blocks(n: nat) -> nat {
    if n == 0 {
        1
    } else {
        (n + 0xFFFE) / 0xFFFF
    }
}

/// The length of a stored stream: the bytes, and five for each block.
pub proof fn law_stored_length(data: Seq<u8>)
    ensures
        stored_stream(data).len() == data.len() + 5 * stored_blocks(data.len()),
    decreases data.len(),
{
    if data.len() > 0xFFFF {
        let rest = data.subrange(0xFFFF, data.len() as int);
        law_stored_length(rest);
        assert(stored_blocks(data.len()) == stored_blocks(rest.len()) + 1);
    }
}

} // verus!
