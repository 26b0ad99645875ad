//! Map an output-byte offset to the event that produced it.
//!
//! Two flavours:
//! - [`event_at`]: `O(log N)` binary search over the events list, for
//!   sparse runtime queries (a few per click, a handful per visible
//!   sidebar row).
//! - [`build_pos_to_ev`]: dense `Vec<u32>` indexed by byte. Builds in
//!   `O(events)`, answers in `O(1)`, for when the same lookup runs for
//!   every byte, as `build_pixel_index` does during load.
//!
//! The decoder emits events in strictly increasing `out_pos` order and
//! each output range (`out_pos..out_pos + len`) abuts the next event's
//! start, so a binary search by `out_pos` plus a range check resolves any
//! byte to its single owning event.

use vstd::prelude::*;

use crate::deflate::events::Event;
use crate::deflate::replay_law::{abuts, ev_len, ev_pos, tiled};

verus! {

/// Sentinel in the dense [`build_pos_to_ev`] map: "no event wrote this
/// output position". A well-formed stream claims every byte with exactly
/// one event, so the sentinel only surfaces on truncated or malformed
/// input.
pub const POS_UNSET: u32 = u32::MAX;

/// Event `e` wrote output byte `pos`.
pub open spec fn covers(e: Event, pos: int) -> bool {
    ev_pos(e) <= pos < ev_pos(e) + ev_len(e)
}

/// Events come in the order of their output positions.
pub open spec fn in_order(events: Seq<Event>) -> bool {
    forall|i: int, j: int|
        0 <= i <= j < events.len() ==> ev_pos(#[trigger] events[i]) <= ev_pos(#[trigger] events[j])
}

/// Events come in order, and none overlaps a later one.
pub open spec fn disjoint(events: Seq<Event>) -> bool {
    forall|i: int, j: int|
        0 <= i < j < events.len() ==> ev_pos(#[trigger] events[i]) + ev_len(events[i]) <= ev_pos(
            #[trigger] events[j],
        )
}

/// The last event that starts at or before `pos`.
pub open spec fn last_started(events: Seq<Event>, pos: int) -> Option<int>
    decreases events.len(),
{
    if events.len() == 0 {
        None
    } else if ev_pos(events.last()) <= pos {
        Some(events.len() - 1)
    } else {
        last_started(events.drop_last(), pos)
    }
}

/// The last event that starts at or before `pos`, if it reaches `pos`.
pub open spec fn owner(events: Seq<Event>, pos: int) -> Option<int> {
    match last_started(events, pos) {
        Some(i) => if covers(events[i], pos) {
            Some(i)
        } else {
            None
        },
        None => None,
    }
}

/// What [`event_at`] finds: positions past 32 bits have no event.
pub open spec fn lookup(events: Seq<Event>, pos: int) -> Option<int> {
    if pos > u32::MAX {
        None
    } else {
        owner(events, pos)
    }
}

/// The last event that wrote byte `pos`.
pub open spec fn last_writer(events: Seq<Event>, pos: int) -> Option<int>
    decreases events.len(),
{
    if events.len() == 0 {
        None
    } else if covers(events.last(), pos) {
        Some(events.len() - 1)
    } else {
        last_writer(events.drop_last(), pos)
    }
}

/// The dense map: each byte's last writer, or the sentinel.
pub open spec fn dense_map(events: Seq<Event>, output_len: nat) -> Seq<u32> {
    Seq::new(
        output_len,
        |p: int|
            match last_writer(events, p) {
                Some(i) => i as u32,
                None => POS_UNSET,
            },
    )
}

/// What is found is an event of the list.
pub proof fn lemma_lookup_inside(events: Seq<Event>, pos: int)
    ensures
        lookup(events, pos) matches Some(i) ==> 0 <= i < events.len(),
    decreases events.len(),
{
    if events.len() > 0 && ev_pos(events.last()) > pos {
        lemma_lookup_inside(events.drop_last(), pos);
        let front = events.drop_last();
        if let Some(i) = last_started(front, pos) {
            lemma_started_inside(front, pos);
        }
    }
}

proof fn lemma_started_inside(events: Seq<Event>, pos: int)
    ensures
        last_started(events, pos) matches Some(i) ==> 0 <= i < events.len(),
    decreases events.len(),
{
    if events.len() > 0 && ev_pos(events.last()) > pos {
        lemma_started_inside(events.drop_last(), pos);
    }
}

proof fn lemma_last_started(events: Seq<Event>, pos: int, n: int)
    requires
        0 <= n <= events.len(),
        forall|i: int| 0 <= i < n ==> ev_pos(#[trigger] events[i]) <= pos,
        forall|i: int| n <= i < events.len() ==> ev_pos(#[trigger] events[i]) > pos,
    ensures
        last_started(events, pos) == (if n == 0 {
            None::<int>
        } else {
            Some(n - 1)
        }),
    decreases events.len(),
{
    if events.len() > 0 && n < events.len() {
        assert(ev_pos(events[events.len() - 1]) > pos);
        lemma_last_started(events.drop_last(), pos, n);
    }
}

/// Index of the event that produced output byte `pos`, or `None` if no
/// event covers it (e.g. truncated input). `O(log events.len())`.
///
/// `events` must be sorted by `out_pos`; the decoder emits them that way.
pub fn event_at(events: &[Event], pos: usize) -> (r: Option<u32>)
    requires
        in_order(events@),
        events@.len() <= u32::MAX,
    ensures
        match r {
            Some(i) => lookup(events@, pos as int) == Some(i as int),
            None => lookup(events@, pos as int) is None,
        },
{
    if pos > u32::MAX as usize {
        return None;
    }
    let mut lo: usize = 0;
    let mut hi: usize = events.len();
    while lo < hi
        invariant
            lo <= hi <= events@.len(),
            in_order(events@),
            forall|i: int| 0 <= i < lo ==> ev_pos(#[trigger] events@[i]) <= pos,
            forall|i: int| hi <= i < events@.len() ==> ev_pos(#[trigger] events@[i]) > pos,
        decreases hi - lo,
    {
        let mid: usize = lo + (hi - lo) / 2;
        if event_out_pos(&events[mid]) as usize <= pos {
            lo = mid + 1;
        } else {
            hi = mid;
        }
    }
    proof {
        lemma_last_started(events@, pos as int, lo as int);
    }
    if lo == 0 {
        return None;
    }
    let e: Event = events[lo - 1];
    let len: u64 = match e {
        Event::Lit(_) => 1,
        Event::Ref(r) => r.copy_len as u64,
    };
    let end: u64 = event_out_pos(&e) as u64 + len;
    if (pos as u64) < end {
        Some((lo - 1) as u32)
    } else {
        None
    }
}

fn event_out_pos(e: &Event) -> (r: u32)
    ensures
        r == ev_pos(*e),
{
    match e {
        Event::Lit(l) => l.out_pos,
        Event::Ref(r) => r.out_pos,
    }
}

/// Dense byte → event-index map. `out[i]` is the event that wrote byte
/// `i`, or `POS_UNSET` for unwritten positions. Built once during load
/// and consumed by [`super::pixel::build_pixel_index`]; not kept at runtime.
pub fn build_pos_to_ev(events: &[Event], output_len: usize) -> (r: Vec<u32>)
    requires
        events@.len() <= u32::MAX,
        forall|i: int|
            0 <= i < events@.len() ==> ev_pos(#[trigger] events@[i]) + ev_len(events@[i])
                <= output_len,
    ensures
        r@ == dense_map(events@, output_len as nat),
{
    let mut pos_to_ev: Vec<u32> = Vec::new();
    pos_to_ev.resize(output_len, POS_UNSET);
    let mut i: usize = 0;
    assert(pos_to_ev@ =~= dense_map(events@.take(0), output_len as nat));
    while i < events.len()
        invariant
            i <= events@.len(),
            events@.len() <= u32::MAX,
            forall|i: int|
                0 <= i < events@.len() ==> ev_pos(#[trigger] events@[i]) + ev_len(events@[i])
                    <= output_len,
            pos_to_ev@ == dense_map(events@.take(i as int), output_len as nat),
        decreases events@.len() - i,
    {
        let e: Event = events[i];
        let start: usize = event_out_pos(&e) as usize;
        let len: usize = match e {
            Event::Lit(_) => 1,
            Event::Ref(r) => r.copy_len as usize,
        };
        let ghost before = pos_to_ev@;
        assert(ev_pos(events@[i as int]) + ev_len(events@[i as int]) <= output_len);
        let mut k: usize = 0;
        while k < len
            invariant
                k <= len,
                start + len <= output_len,
                i < events@.len() <= u32::MAX,
                pos_to_ev@.len() == output_len,
                before.len() == output_len,
                forall|p: int|
                    0 <= p < output_len ==> #[trigger] pos_to_ev@[p] == (if start <= p < start + k {
                        i as u32
                    } else {
                        before[p]
                    }),
            decreases len - k,
        {
            pos_to_ev[start + k] = i as u32;
            k = k + 1;
        }
        proof {
            let now = events@.take(i + 1);
            assert(now.drop_last() =~= events@.take(i as int));
            assert(now.last() == e);
            assert(pos_to_ev@ =~= dense_map(now, output_len as nat));
        }
        i = i + 1;
    }
    assert(events@.take(events@.len() as int) =~= events@);
    pos_to_ev
}

proof fn lemma_single_owner(events: Seq<Event>, pos: int, i: int)
    requires
        disjoint(events),
        forall|k: int| 0 <= k < events.len() ==> ev_len(#[trigger] events[k]) >= 1,
        0 <= i < events.len(),
        covers(events[i], pos),
    ensures
        last_started(events, pos) == Some(i),
        last_writer(events, pos) == Some(i),
    decreases events.len(),
{
    if i < events.len() - 1 {
        assert(ev_pos(events[i]) + ev_len(events[i]) <= ev_pos(events[events.len() - 1]));
        lemma_single_owner(events.drop_last(), pos, i);
    }
}

proof fn lemma_no_owner(events: Seq<Event>, pos: int)
    requires
        forall|k: int| 0 <= k < events.len() ==> !covers(#[trigger] events[k], pos),
    ensures
        last_writer(events, pos) is None,
        last_started(events, pos) matches Some(i) ==> 0 <= i < events.len(),
    decreases events.len(),
{
    if events.len() > 0 {
        assert(!covers(events[events.len() - 1], pos));
        lemma_no_owner(events.drop_last(), pos);
    }
}

/// On events that do not overlap, the binary search and the dense map name
/// the same event for every byte: the one that covers it, or none.
pub proof fn law_lookups_agree(events: Seq<Event>, pos: int)
    requires
        disjoint(events),
        forall|k: int| 0 <= k < events.len() ==> ev_len(#[trigger] events[k]) >= 1,
    ensures
        owner(events, pos) == last_writer(events, pos),
        forall|i: int|
            0 <= i < events.len() ==> (owner(events, pos) == Some(i) <==> covers(
                #[trigger] events[i],
                pos,
            )),
        owner(events, pos) is None <==> (forall|i: int|
            0 <= i < events.len() ==> !covers(#[trigger] events[i], pos)),
{
    if exists|i: int| 0 <= i < events.len() && covers(#[trigger] events[i], pos) {
        let i = choose|i: int| 0 <= i < events.len() && covers(#[trigger] events[i], pos);
        lemma_single_owner(events, pos, i);
        assert forall|k: int| 0 <= k < events.len() implies (owner(events, pos) == Some(k)
            <==> covers(#[trigger] events[k], pos)) by {
            if covers(events[k], pos) {
                lemma_single_owner(events, pos, k);
            }
        }
    } else {
        lemma_no_owner(events, pos);
    }
}

proof fn lemma_tiled_gap(events: Seq<Event>, total: int, i: int, j: int)
    requires
        tiled(events, total),
        0 <= i < j < events.len(),
    ensures
        ev_pos(events[i]) + ev_len(events[i]) <= ev_pos(events[j]),
    decreases j,
{
    assert(abuts(events, j));
    if i < j - 1 {
        lemma_tiled_gap(events, total, i, j - 1);
        assert(ev_len(events[j - 1]) >= 1);
    }
}

proof fn lemma_tiled_cover(events: Seq<Event>, total: int, pos: int, n: int)
    requires
        tiled(events, total),
        0 < n <= events.len(),
        0 <= pos < ev_pos(events[n - 1]) + ev_len(events[n - 1]),
    ensures
        exists|i: int| 0 <= i < n && covers(#[trigger] events[i], pos),
    decreases n,
{
    if ev_pos(events[n - 1]) <= pos {
        assert(covers(events[n - 1], pos));
    } else {
        assert(n - 1 > 0);
        assert(abuts(events, n - 1));
        lemma_tiled_cover(events, total, pos, n - 1);
    }
}

/// Events as the decoder emits them are in order and disjoint, and every
/// output byte has exactly one owner.
pub proof fn law_tiled_owner(events: Seq<Event>, total: int, pos: int)
    requires
        tiled(events, total),
        0 <= pos < total,
    ensures
        in_order(events),
        disjoint(events),
        exists|i: int|
            0 <= i < events.len() && covers(#[trigger] events[i], pos) && owner(events, pos)
                == Some(i) && (forall|k: int|
                0 <= k < events.len() && k != i ==> !covers(#[trigger] events[k], pos)),
{
    lemma_tiled_order(events, total);
    lemma_tiled_cover(events, total, pos, events.len() as int);
    let i = choose|i: int| 0 <= i < events.len() && covers(#[trigger] events[i], pos);
    law_lookups_agree(events, pos);
    assert(covers(events[i], pos) && owner(events, pos) == Some(i));
}

/// Events that tile the output are in order and disjoint, and end inside it.
pub proof fn lemma_tiled_order(events: Seq<Event>, total: int)
    requires
        tiled(events, total),
    ensures
        in_order(events),
        disjoint(events),
        forall|i: int|
            0 <= i < events.len() ==> ev_pos(#[trigger] events[i]) + ev_len(events[i]) <= total,
        forall|i: int| 0 <= i < events.len() ==> ev_len(#[trigger] events[i]) >= 1,
{
    assert forall|i: int, j: int| 0 <= i < j < events.len() implies ev_pos(#[trigger] events[i])
        + ev_len(events[i]) <= ev_pos(#[trigger] events[j]) by {
        lemma_tiled_gap(events, total, i, j);
    }
    assert forall|i: int, j: int| 0 <= i <= j < events.len() implies ev_pos(#[trigger] events[i])
        <= ev_pos(#[trigger] events[j]) by {
        if i < j {
            lemma_tiled_gap(events, total, i, j);
            assert(ev_len(events[i]) >= 1);
        }
    }
    assert forall|i: int| 0 <= i < events.len() implies ev_pos(#[trigger] events[i]) + ev_len(
        events[i],
    ) <= total by {
        assert(ev_len(events[events.len() - 1]) >= 1);
        if i < events.len() - 1 {
            lemma_tiled_gap(events, total, i, events.len() - 1);
        }
    }
}

} // verus!
