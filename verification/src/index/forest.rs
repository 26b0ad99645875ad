//! The decoded output as a forest.
//!
//! Every output byte is either a literal or a copy of an earlier byte, so the
//! bytes form trees rooted at the literals. A byte's value is that of its root:
//! this is what lets an edit be carried through the output without decoding
//! again.

use vstd::prelude::*;

use super::pos_to_ev::{covers, law_lookups_agree, law_tiled_owner, lemma_tiled_order, owner};
use super::reverse_graph::{copies_of, copy_graph, law_edges_are_copies, reads};
use crate::deflate::events::{Event, LitEvent, RefEvent};
use crate::deflate::inflate_spec::copy_back;
use crate::deflate::replay_law::{abuts, ev_len, ev_pos, reads_back, tiled};
use crate::deflate::stream_spec::{ref_distance, replay};

verus! {

/// The event that wrote byte `p`.
pub open spec fn owner_event(events: Seq<Event>, p: int) -> Event {
    events[owner(events, p)->0]
}

/// The byte that byte `p` was copied from; none for a literal.
pub open spec fn parent(events: Seq<Event>, p: int) -> Option<int> {
    match owner_event(events, p) {
        Event::Lit(_) => None,
        Event::Ref(r) => Some(p - (r.out_pos - r.src_out_pos)),
    }
}

/// Byte `p` is `root`, or was copied from it through any number of copies.
pub open spec fn descends(events: Seq<Event>, p: int, root: int) -> bool
    decreases p,
{
    p == root || (parent(events, p) matches Some(s) && 0 <= s < p && descends(events, s, root))
}

/// What byte `p` must hold: its literal, or its parent's byte.
pub open spec fn byte_plays(events: Seq<Event>, out: Seq<u8>, p: int) -> bool {
    match owner_event(events, p) {
        Event::Lit(l) => out[p] == l.symbol,
        Event::Ref(r) => out[p] == out[p - (r.out_pos - r.src_out_pos)],
    }
}

/// `out` holds what `events` say, byte for byte.
pub open spec fn plays(events: Seq<Event>, out: Seq<u8>) -> bool {
    forall|p: int| 0 <= p < out.len() ==> #[trigger] byte_plays(events, out, p)
}

/// What the decoder's events look like: they tile `n` bytes of output, and
/// every copy reads what stands before it.
pub open spec fn stream_shape(events: Seq<Event>, n: int) -> bool {
    tiled(events, n) && reads_back(events)
}

/// The owner of a byte, and where it stands.
pub proof fn lemma_owner(events: Seq<Event>, n: int, p: int)
    requires
        stream_shape(events, n),
        0 <= p < n,
    ensures
        owner(events, p) is Some,
        0 <= owner(events, p)->0 < events.len(),
        covers(owner_event(events, p), p),
        parent(events, p) matches Some(s) ==> 0 <= s < p,
{
    law_tiled_owner(events, n, p);
    let i = owner(events, p)->0;
    assert(covers(events[i], p));
}

/// Whatever event covers a byte owns it.
pub proof fn lemma_owner_is(events: Seq<Event>, n: int, p: int, k: int)
    requires
        stream_shape(events, n),
        0 <= k < events.len(),
        covers(events[k], p),
    ensures
        owner(events, p) == Some(k),
        0 <= p < n,
{
    lemma_tiled_order(events, n);
    law_lookups_agree(events, p);
    assert(ev_pos(events[k]) + ev_len(events[k]) <= n);
}

/// The graph's edges are the parent relation.
pub proof fn lemma_edge_is_parent(events: Seq<Event>, n: int, s: int, t: u32)
    requires
        stream_shape(events, n),
        n <= u32::MAX,
        0 <= s < n,
    ensures
        copies_of(events, s).contains(t) <==> (t < n && parent(events, t as int) == Some(s)),
{
    lemma_tiled_order(events, n);
    assert forall|k: int| 0 <= k < events.len() implies (#[trigger] events[k] matches Event::Ref(r)
        ==> r.out_pos + r.copy_len <= 0x1_0000_0000) by {
        assert(ev_pos(events[k]) + ev_len(events[k]) <= n);
    }
    law_edges_are_copies(events, s, t);
    if copies_of(events, s).contains(t) {
        let k = choose|k: int|
            0 <= k < events.len() && reads(#[trigger] events[k], s) && t == ev_pos(events[k]) + (s
                - events[k]->Ref_0.src_out_pos);
        assert(covers(events[k], t as int));
        lemma_owner_is(events, n, t as int, k);
    }
    if t < n && parent(events, t as int) == Some(s) {
        lemma_owner(events, n, t as int);
        let k = owner(events, t as int)->0;
        assert(reads(events[k], s));
    }
}

/// The copies of a byte are listed in ascending order, so none twice.
pub proof fn lemma_copies_distinct(events: Seq<Event>, n: int, s: int)
    requires
        n <= u32::MAX,
        forall|i: int, j: int|
            0 <= i < j < events.len() ==> ev_pos(#[trigger] events[i]) + ev_len(events[i])
                <= ev_pos(#[trigger] events[j]),
        forall|i: int|
            0 <= i < events.len() ==> ev_pos(#[trigger] events[i]) + ev_len(events[i]) <= n,
    ensures
        copies_of(events, s).no_duplicates(),
        forall|i: int, j: int|
            0 <= i < j < copies_of(events, s).len() ==> (#[trigger] copies_of(events, s)[i]) < (
            #[trigger] copies_of(events, s)[j]),
        forall|j: int|
            0 <= j < copies_of(events, s).len() && events.len() > 0 ==> (#[trigger] copies_of(
                events,
                s,
            )[j]) < ev_pos(events.last()) + ev_len(events.last()),
    decreases events.len(),
{
    if events.len() > 0 {
        let front = events.drop_last();
        let last = events[events.len() - 1];
        lemma_copies_distinct(front, n, s);
        assert(ev_pos(last) + ev_len(last) <= n);
        let some = copies_of(front, s);
        if front.len() > 0 {
            assert(ev_pos(front[front.len() - 1]) + ev_len(front[front.len() - 1]) <= ev_pos(last));
        }
        assert(forall|j: int| 0 <= j < some.len() ==> (#[trigger] some[j]) < ev_pos(last) + 1);
        assert forall|j: int| 0 <= j < some.len() implies (#[trigger] some[j]) < ev_pos(last) by {
            if front.len() == 0 {
                assert(some.len() == 0);
            }
        }
    }
}

/// A byte's neighbours in the copy graph are the bytes that some back-reference
/// copied it to, in ascending order, as long as the events stand one behind the
/// other in the output. Where every copy reads what stands before it, they all
/// stand behind the byte itself.
pub proof fn law_neighbors(events: Seq<Event>, n: nat, s: int)
    requires
        n <= u32::MAX,
        0 <= s < n,
        forall|i: int, j: int|
            0 <= i < j < events.len() ==> ev_pos(#[trigger] events[i]) + ev_len(events[i])
                <= ev_pos(#[trigger] events[j]),
        forall|i: int|
            0 <= i < events.len() ==> ev_pos(#[trigger] events[i]) + ev_len(events[i]) <= n,
    ensures
        forall|i: int, j: int|
            0 <= i < j < copy_graph(events, n)[s].len() ==> (#[trigger] copy_graph(events, n)[s][i])
                < (#[trigger] copy_graph(events, n)[s][j]),
        forall|t: u32| #[trigger]
            copy_graph(events, n)[s].contains(t) <==> exists|k: int|
                0 <= k < events.len() && reads(#[trigger] events[k], s) && t == ev_pos(events[k])
                    + (s - events[k]->Ref_0.src_out_pos),
        forall|j: int|
            0 <= j < copy_graph(events, n)[s].len() ==> (#[trigger] copy_graph(events, n)[s][j])
                < n,
        reads_back(events) ==> forall|j: int|
            0 <= j < copy_graph(events, n)[s].len() ==> s < #[trigger] copy_graph(events, n)[s][j],
{
    lemma_copies_distinct(events, n as int, s);
    let next = copies_of(events, s);
    assert(copy_graph(events, n)[s] == next);
    assert forall|k: int| 0 <= k < events.len() implies (#[trigger] events[k] matches Event::Ref(r)
        ==> r.out_pos + r.copy_len <= 0x1_0000_0000) by {
        assert(ev_pos(events[k]) + ev_len(events[k]) <= n);
    }
    assert forall|t: u32| #[trigger] next.contains(t) <==> exists|k: int|
        0 <= k < events.len() && reads(#[trigger] events[k], s) && t == ev_pos(events[k]) + (s
            - events[k]->Ref_0.src_out_pos) by {
        law_edges_are_copies(events, s, t);
    }
    assert forall|j: int| 0 <= j < next.len() implies (#[trigger] next[j]) < n && (reads_back(
        events,
    ) ==> s < next[j]) by {
        let t = next[j];
        assert(next.contains(t));
        let k = choose|k: int|
            0 <= k < events.len() && reads(#[trigger] events[k], s) && t == ev_pos(events[k]) + (s
                - events[k]->Ref_0.src_out_pos);
        assert(ev_pos(events[k]) + ev_len(events[k]) <= n);
    }
}

proof fn lemma_copy_byte(out: Seq<u8>, distance: nat, n: nat, p: int)
    requires
        1 <= distance <= out.len(),
    ensures
        copy_back(out, distance, n).len() == out.len() + n,
        0 <= p < out.len() ==> copy_back(out, distance, n)[p] == out[p],
        out.len() <= p < out.len() + n ==> copy_back(out, distance, n)[p] == copy_back(
            out,
            distance,
            n,
        )[p - distance],
    decreases n,
{
    if n > 0 {
        let m = (n - 1) as nat;
        lemma_copy_byte(out, distance, m, p);
        let shorter = copy_back(out, distance, m);
        if p == out.len() + m {
            assert(p - distance < shorter.len());
        }
    }
}

/// All but the last event tile what stands before it.
pub proof fn lemma_tiled_front(events: Seq<Event>, n: int)
    requires
        stream_shape(events, n),
        events.len() > 0,
    ensures
        stream_shape(events.drop_last(), ev_pos(events.last())),
        ev_pos(events.last()) + ev_len(events.last()) == n,
        0 <= ev_pos(events.last()),
{
    let front = events.drop_last();
    assert forall|k: int| 0 <= k < front.len() implies front[k] == #[trigger] events[k] by {}
    if front.len() > 0 {
        assert(abuts(events, events.len() - 1));
    }
    assert forall|k: int| 0 <= k < front.len() implies ev_len(#[trigger] front[k]) >= 1 by {
        assert(ev_len(events[k]) >= 1);
    }
    assert forall|k: int| 0 < k < front.len() implies #[trigger] abuts(front, k) by {
        assert(abuts(events, k));
    }
    assert forall|k: int| 0 <= k < front.len() implies (#[trigger] front[k] matches Event::Ref(r)
        ==> r.src_out_pos < r.out_pos) by {
        assert(events[k] == front[k]);
    }
}

/// What an event list replays to plays it.
pub proof fn lemma_replay_plays(events: Seq<Event>, n: int)
    requires
        stream_shape(events, n),
    ensures
        replay(events).len() == n,
        plays(events, replay(events)),
    decreases events.len(),
{
    if events.len() > 0 {
        let front = events.drop_last();
        let e = events.last();
        let last = events.len() - 1;
        lemma_tiled_front(events, n);
        lemma_replay_plays(front, ev_pos(e));
        let before = replay(front);
        let out = replay(events);
        assert(events[last] == e);
        match e {
            Event::Lit(l) => {},
            Event::Ref(r) => {
                assert(r.src_out_pos < r.out_pos);
                lemma_copy_byte(before, ref_distance(r) as nat, r.copy_len as nat, 0);
            },
        }
        assert forall|p: int| 0 <= p < out.len() implies #[trigger] byte_plays(events, out, p) by {
            if let Event::Ref(r) = e {
                lemma_copy_byte(before, ref_distance(r) as nat, r.copy_len as nat, p);
            }
            if p < before.len() {
                lemma_owner(front, ev_pos(e), p);
                let k = owner(front, p)->0;
                assert(covers(events[k], p));
                lemma_owner_is(events, n, p, k);
                assert(byte_plays(front, before, p));
                assert(out[p] == before[p]);
                if let Event::Ref(r) = events[k] {
                    let q = p - (r.out_pos - r.src_out_pos);
                    if let Event::Ref(r2) = e {
                        lemma_copy_byte(before, ref_distance(r2) as nat, r2.copy_len as nat, q);
                    }
                }
            } else {
                assert(covers(events[last], p));
                lemma_owner_is(events, n, p, last);
            }
        }
    }
}

/// Only one output plays an event list.
pub proof fn lemma_plays_unique(events: Seq<Event>, a: Seq<u8>, b: Seq<u8>, n: int)
    requires
        stream_shape(events, n),
        a.len() == n,
        b.len() == n,
        plays(events, a),
        plays(events, b),
    ensures
        a == b,
{
    assert forall|p: int| 0 <= p < n implies a[p] == b[p] by {
        lemma_plays_byte(events, a, b, n, p);
    }
    assert(a =~= b);
}

proof fn lemma_plays_byte(events: Seq<Event>, a: Seq<u8>, b: Seq<u8>, n: int, p: int)
    requires
        stream_shape(events, n),
        a.len() == n,
        b.len() == n,
        plays(events, a),
        plays(events, b),
        0 <= p < n,
    ensures
        a[p] == b[p],
    decreases p,
{
    lemma_owner(events, n, p);
    assert(byte_plays(events, a, p) && byte_plays(events, b, p));
    if let Some(s) = parent(events, p) {
        lemma_plays_byte(events, a, b, n, s);
    }
}

/// An output that plays an event list is its replay.
pub proof fn law_plays_is_replay(events: Seq<Event>, out: Seq<u8>)
    requires
        stream_shape(events, out.len() as int),
        plays(events, out),
    ensures
        out == replay(events),
{
    lemma_replay_plays(events, out.len() as int);
    lemma_plays_unique(events, out, replay(events), out.len() as int);
}

// Event lists of the same shape.

/// The two lists have events of the same place and length.
pub open spec fn same_places(a: Seq<Event>, b: Seq<Event>) -> bool {
    &&& a.len() == b.len()
    &&& forall|k: int|
        0 <= k < a.len() ==> ev_pos(#[trigger] a[k]) == ev_pos(b[k]) && ev_len(a[k]) == ev_len(b[k])
}

/// Places decide owners.
pub proof fn lemma_same_owner(a: Seq<Event>, b: Seq<Event>, n: int, p: int)
    requires
        stream_shape(a, n),
        stream_shape(b, n),
        same_places(a, b),
        0 <= p < n,
    ensures
        owner(a, p) == owner(b, p),
{
    lemma_owner(a, n, p);
    let k = owner(a, p)->0;
    assert(covers(b[k], p)) by {
        assert(covers(a[k], p));
    }
    lemma_owner_is(b, n, p, k);
}

/// Places decide whether the list tiles the output.
pub proof fn lemma_same_shape(a: Seq<Event>, b: Seq<Event>, n: int)
    requires
        stream_shape(a, n),
        same_places(a, b),
        reads_back(b),
    ensures
        stream_shape(b, n),
{
    assert forall|k: int| 0 <= k < b.len() implies ev_len(#[trigger] b[k]) >= 1 by {
        assert(ev_len(a[k]) >= 1);
    }
    assert forall|k: int| 0 < k < b.len() implies #[trigger] abuts(b, k) by {
        assert(abuts(a, k));
        assert(ev_pos(a[k]) == ev_pos(b[k]));
        assert(ev_pos(a[k - 1]) == ev_pos(b[k - 1]));
    }
    if a.len() > 0 {
        let last = a.len() - 1;
        assert(ev_pos(a[last]) == ev_pos(b[last]));
        assert(ev_pos(a[0]) == ev_pos(b[0]));
    }
}

// A literal swapped.

/// The list with the literal at event `k` replaced.
pub open spec fn with_symbol(events: Seq<Event>, k: int, symbol: u8) -> Seq<Event> {
    events.update(k, Event::Lit(LitEvent { symbol, ..events[k]->Lit_0 }))
}

/// Swapping a literal moves nothing, and leaves the graph as it is.
pub proof fn lemma_with_symbol(events: Seq<Event>, n: int, k: int, symbol: u8)
    requires
        stream_shape(events, n),
        0 <= k < events.len(),
        events[k] is Lit,
    ensures
        same_places(events, with_symbol(events, k, symbol)),
        stream_shape(with_symbol(events, k, symbol), n),
        forall|m: nat| #[trigger]
            copy_graph(with_symbol(events, k, symbol), m) == copy_graph(events, m),
{
    let now = with_symbol(events, k, symbol);
    assert(same_places(events, now));
    assert(reads_back(now)) by {
        assert forall|i: int| 0 <= i < now.len() implies (#[trigger] now[i] matches Event::Ref(r)
            ==> r.src_out_pos < r.out_pos) by {
            if i != k {
                assert(now[i] == events[i]);
            }
        }
    }
    lemma_same_shape(events, now, n);
    assert forall|m: nat| #[trigger] copy_graph(now, m) == copy_graph(events, m) by {
        assert forall|s: int| 0 <= s < m implies copies_of(now, s) == copies_of(events, s) by {
            lemma_copies_same_refs(events, now, s);
        }
        assert(copy_graph(now, m) =~= copy_graph(events, m));
    }
}

/// Only back-references make edges.
pub proof fn lemma_copies_same_refs(a: Seq<Event>, b: Seq<Event>, s: int)
    requires
        a.len() == b.len(),
        forall|i: int|
            0 <= i < a.len() ==> (#[trigger] a[i] == b[i] || (a[i] is Lit && b[i] is Lit)),
    ensures
        copies_of(a, s) == copies_of(b, s),
    decreases a.len(),
{
    if a.len() > 0 {
        let last = a.len() - 1;
        assert(a[last] == b[last] || (a[last] is Lit && b[last] is Lit));
        assert forall|i: int| 0 <= i < a.drop_last().len() implies (#[trigger] a.drop_last()[i]
            == b.drop_last()[i] || (a.drop_last()[i] is Lit && b.drop_last()[i] is Lit)) by {
            assert(a[i] == b[i] || (a[i] is Lit && b[i] is Lit));
        }
        lemma_copies_same_refs(a.drop_last(), b.drop_last(), s);
    }
}

/// Writing a swapped literal's value to all that descends from it plays the
/// new event list.
pub proof fn lemma_swap_plays(
    events: Seq<Event>,
    out: Seq<u8>,
    k: int,
    symbol: u8,
    out2: Seq<u8>,
)
    requires
        stream_shape(events, out.len() as int),
        plays(events, out),
        0 <= k < events.len(),
        events[k] is Lit,
        out2.len() == out.len(),
        forall|p: int|
            0 <= p < out.len() ==> #[trigger] out2[p] == (if descends(
                events,
                p,
                ev_pos(events[k]),
            ) {
                symbol
            } else {
                out[p]
            }),
    ensures
        plays(with_symbol(events, k, symbol), out2),
{
    let n = out.len() as int;
    let now = with_symbol(events, k, symbol);
    let root = ev_pos(events[k]);
    lemma_with_symbol(events, n, k, symbol);
    assert(covers(events[k], root));
    lemma_owner_is(events, n, root, k);
    assert forall|p: int| 0 <= p < n implies #[trigger] byte_plays(now, out2, p) by {
        lemma_owner(events, n, p);
        lemma_same_owner(events, now, n, p);
        let i = owner(events, p)->0;
        assert(byte_plays(events, out, p));
        match events[i] {
            Event::Lit(l) => {
                if i == k {
                    assert(p == root);
                } else {
                    assert(p != root);
                    assert(!descends(events, p, root));
                }
            },
            Event::Ref(r) => {
                assert(i != k);
                assert(p != root);
                let s = p - (r.out_pos - r.src_out_pos);
                assert(parent(events, p) == Some(s));
                assert(descends(events, p, root) == descends(events, s, root));
            },
        }
    }
}

// A back-reference redirected.

/// The list with the back-reference at event `k` pointed elsewhere.
pub open spec fn with_source(events: Seq<Event>, k: int, src: u32, dist_sym: u8) -> Seq<Event> {
    events.update(
        k,
        Event::Ref(RefEvent { src_out_pos: src, dist_sym, ..events[k]->Ref_0 }),
    )
}

/// Redirecting a reference moves no event.
pub proof fn lemma_with_source(events: Seq<Event>, n: int, k: int, src: u32, dist_sym: u8)
    requires
        stream_shape(events, n),
        0 <= k < events.len(),
        events[k] is Ref,
        src < ev_pos(events[k]),
    ensures
        same_places(events, with_source(events, k, src, dist_sym)),
        stream_shape(with_source(events, k, src, dist_sym), n),
{
    let now = with_source(events, k, src, dist_sym);
    assert(same_places(events, now));
    assert(reads_back(now)) by {
        assert forall|i: int| 0 <= i < now.len() implies (#[trigger] now[i] matches Event::Ref(r)
            ==> r.src_out_pos < r.out_pos) by {
            if i != k {
                assert(now[i] == events[i]);
            }
        }
    }
    lemma_same_shape(events, now, n);
}

/// Byte `p` descends from some byte of the event `e`.
pub open spec fn descends_from_event(events: Seq<Event>, p: int, e: Event) -> bool {
    exists|q: int| covers(e, q) && #[trigger] descends(events, p, q)
}

/// Byte `p` holds what stands `d` bytes before it.
pub open spec fn copied(v: Seq<u8>, p: int, d: int) -> bool {
    v[p] == v[p - d]
}

/// A byte behind a redirected reference that does not descend from it keeps its
/// owner and its parent, and so does its parent.
pub proof fn lemma_redirect_plays(
    events: Seq<Event>,
    out: Seq<u8>,
    k: int,
    src: u32,
    dist_sym: u8,
    out2: Seq<u8>,
)
    requires
        stream_shape(events, out.len() as int),
        plays(events, out),
        0 <= k < events.len(),
        events[k] is Ref,
        src < ev_pos(events[k]),
        out2.len() == out.len(),
        // The reference's own bytes come from the new source.
        forall|p: int|
            covers(events[k], p) ==> #[trigger] copied(out2, p, ev_pos(events[k]) - src),
        // What descends from them takes its parent's value; the rest stays.
        forall|p: int|
            0 <= p < out.len() && !covers(events[k], p) ==> #[trigger] out2[p] == (
            if descends_from_event(with_source(events, k, src, dist_sym), p, events[k]) {
                out2[parent(with_source(events, k, src, dist_sym), p)->0]
            } else {
                out[p]
            }),
    ensures
        plays(with_source(events, k, src, dist_sym), out2),
{
    let n = out.len() as int;
    let now = with_source(events, k, src, dist_sym);
    lemma_with_source(events, n, k, src, dist_sym);
    assert forall|p: int| 0 <= p < n implies #[trigger] byte_plays(now, out2, p) by {
        lemma_owner(events, n, p);
        lemma_owner(now, n, p);
        lemma_same_owner(events, now, n, p);
        let i = owner(events, p)->0;
        assert(byte_plays(events, out, p));
        if i == k {
            assert(covers(events[k], p));
            assert(copied(out2, p, ev_pos(events[k]) - src));
        } else {
            assert(now[i] == events[i]);
            if covers(events[k], p) {
                lemma_owner_is(events, n, p, k);
            }
            assert(!covers(events[k], p));
            match events[i] {
                Event::Lit(l) => {
                    if descends_from_event(now, p, events[k]) {
                        let q = choose|q: int|
                            covers(events[k], q) && #[trigger] descends(now, p, q);
                        assert(p == q);
                    }
                },
                Event::Ref(r) => {
                    let s = p - (r.out_pos - r.src_out_pos);
                    assert(parent(now, p) == Some(s));
                    if !descends_from_event(now, p, events[k]) {
                        assert(!covers(events[k], s)) by {
                            if covers(events[k], s) {
                                assert(descends(now, s, s));
                                assert(descends(now, p, s));
                            }
                        }
                        assert(!descends_from_event(now, s, events[k])) by {
                            if descends_from_event(now, s, events[k]) {
                                let q = choose|q: int|
                                    covers(events[k], q) && #[trigger] descends(now, s, q);
                                assert(descends(now, p, q));
                            }
                        }
                        assert(out2[s] == out[s]);
                    }
                },
            }
        }
    }
}

} // verus!
