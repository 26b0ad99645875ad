//! Reverse LZ77 dependency graph in compressed-sparse-row form.
//!
//! For every source byte position, lists every output position copied
//! from it. The cascade BFS in [`super::cascade::CascadeScratch`] walks this
//! graph to find every byte downstream of a given output position: the
//! fan-out of an edit there.
//!
//! Two contiguous `Vec<u32>`s: `offsets` sized `output_len + 1` and `edges`
//! sized to the total ref-byte count. Drop is `O(1)` (two frees), no
//! per-source allocation.
//!
//! Build is two passes:
//!
//! - **Pass 1** counts each source position's out-degree with a
//!   range-update and prefix sum: a ref of length `L` writes two cells
//!   (at `src` and `src + L`) instead of `L` increments. For typical
//!   `copy_len ≈ 5` that's ~2.5× fewer scattered writes to cold cache
//!   lines; the closing prefix sum is a dense sequential scan.
//! - **Pass 2** fills `edges`. A `cursor` Vec (cloned from `offsets`)
//!   holds the next write index per source, so each ref byte touches one
//!   cold cache line instead of three.

use vstd::prelude::*;
use vstd::slice::slice_subrange;

use crate::deflate::events::Event;
use crate::deflate::replay_law::{ev_len, ev_pos};

verus! {

/// `e` copies byte `s` of the output somewhere.
pub open spec fn reads(e: Event, s: int) -> bool {
    e matches Event::Ref(r) && r.src_out_pos <= s < r.src_out_pos + r.copy_len
}

/// The output positions that byte `s` is copied to, in event order.
pub open spec fn copies_of(events: Seq<Event>, s: int) -> Seq<u32>
    decreases events.len(),
{
    if events.len() == 0 {
        Seq::empty()
    } else {
        let rest = copies_of(events.drop_last(), s);
        if reads(events.last(), s) {
            let r = events.last()->Ref_0;
            rest.push((r.out_pos + (s - r.src_out_pos)) as u32)
        } else {
            rest
        }
    }
}

/// The whole graph: for each of the first `n` bytes, where it is copied to.
pub open spec fn copy_graph(events: Seq<Event>, n: nat) -> Seq<Seq<u32>> {
    Seq::new(n, |s: int| copies_of(events, s))
}

/// How many bytes all back-references copy.
pub open spec fn ref_bytes(events: Seq<Event>) -> nat
    decreases events.len(),
{
    if events.len() == 0 {
        0
    } else {
        ref_bytes(events.drop_last()) + match events.last() {
            Event::Lit(_) => 0,
            Event::Ref(r) => r.copy_len as nat,
        }
    }
}

/// Every edge leads to a node of the graph.
pub open spec fn graph_closed(g: Seq<Seq<u32>>) -> bool {
    forall|s: int, j: int|
        0 <= s < g.len() && 0 <= j < g[s].len() ==> (#[trigger] g[s][j]) < g.len()
}

#[derive(Debug)]
pub struct ReverseGraph {
    /// `offsets[src..=src+1]` bounds the slice of `edges` belonging to `src`.
    /// `offsets.len() == output_len + 1`.
    offsets: Vec<u32>,
    edges: Vec<u32>,
}

impl View for ReverseGraph {
    type V = Seq<Seq<u32>>;

    closed spec fn view(&self) -> Seq<Seq<u32>> {
        Seq::new(
            if self.offsets@.len() == 0 {
                0
            } else {
                (self.offsets@.len() - 1) as nat
            },
            |s: int| self.edges@.subrange(self.offsets@[s] as int, self.offsets@[s + 1] as int),
        )
    }
}

impl Default for ReverseGraph {
    /// The graph without nodes.
    fn default() -> (r: Self)
        ensures
            r.wf(),
            r@ == Seq::<Seq<u32>>::empty(),
    {
        let r = ReverseGraph { offsets: Vec::new(), edges: Vec::new() };
        assert(r@ =~= Seq::<Seq<u32>>::empty());
        r
    }
}

impl ReverseGraph {
    /// Offsets never decrease, and stay inside `edges`.
    pub closed spec fn wf(&self) -> bool {
        forall|s: int|
            0 <= s < self.offsets@.len() - 1 ==> #[trigger] self.offsets@[s] <= self.offsets@[s + 1]
                <= self.edges@.len()
    }

    /// Every output position copied from `src`; none for a position outside
    /// the output.
    pub fn neighbors(&self, src: u32) -> (r: &[u32])
        requires
            self.wf(),
        ensures
            r@ == (if src < self@.len() {
                self@[src as int]
            } else {
                Seq::empty()
            }),
    {
        let si: usize = src as usize;
        if self.offsets.len() == 0 || si >= self.offsets.len() - 1 {
            let none: &[u32] = slice_subrange(self.edges.as_slice(), 0, 0);
            assert(none@ =~= Seq::empty());
            return none;
        }
        assert(self.offsets@[si as int] <= self.offsets@[si + 1]);
        let start: usize = self.offsets[si] as usize;
        let end: usize = self.offsets[si + 1] as usize;
        slice_subrange(self.edges.as_slice(), start, end)
    }

    pub fn len(&self) -> (r: usize)
        ensures
            r == self@.len(),
    {
        if self.offsets.len() == 0 {
            0
        } else {
            self.offsets.len() - 1
        }
    }

    pub fn is_empty(&self) -> (r: bool)
        ensures
            r == (self@.len() == 0),
    {
        self.len() == 0
    }
}

// Out-degrees.

/// How many of `events` read from byte `s` on, less how many stop there.
spec fn turn(e: Event, s: int) -> int {
    match e {
        Event::Lit(_) => 0,
        Event::Ref(r) => (if r.src_out_pos == s {
            1int
        } else {
            0
        }) - (if r.src_out_pos + r.copy_len == s {
            1int
        } else {
            0
        }),
    }
}

spec fn turns(events: Seq<Event>, s: int) -> int
    decreases events.len(),
{
    if events.len() == 0 {
        0
    } else {
        turns(events.drop_last(), s) + turn(events.last(), s)
    }
}

/// Out-degrees of the first `n` bytes, summed.
spec fn degrees(events: Seq<Event>, n: int) -> nat
    decreases n,
{
    if n <= 0 {
        0
    } else {
        degrees(events, n - 1) + copies_of(events, n - 1).len()
    }
}

proof fn lemma_degree_step(events: Seq<Event>, s: int)
    requires
        0 <= s,
    ensures
        copies_of(events, s).len() == turns(events, s) + (if s > 0 {
            copies_of(events, s - 1).len() as int
        } else {
            0
        }),
    decreases events.len(),
{
    if events.len() > 0 {
        lemma_degree_step(events.drop_last(), s);
    }
}

proof fn lemma_degree_bound(events: Seq<Event>, s: int)
    ensures
        copies_of(events, s).len() <= ref_bytes(events),
        -ref_bytes(events) <= turns(events, s) <= ref_bytes(events),
    decreases events.len(),
{
    if events.len() > 0 {
        lemma_degree_bound(events.drop_last(), s);
    }
}

/// How many of the first `n` bytes `e` reads.
spec fn part_read(e: Event, n: int) -> int {
    match e {
        Event::Lit(_) => 0,
        Event::Ref(r) => if n <= r.src_out_pos {
            0
        } else if n <= r.src_out_pos + r.copy_len {
            n - r.src_out_pos
        } else {
            r.copy_len as int
        },
    }
}

proof fn lemma_degrees_push(events: Seq<Event>, n: int)
    requires
        events.len() > 0,
        0 <= n,
    ensures
        degrees(events, n) == degrees(events.drop_last(), n) + part_read(events.last(), n),
    decreases n,
{
    if n > 0 {
        lemma_degrees_push(events, n - 1);
    }
}

proof fn lemma_degrees_bound(events: Seq<Event>, n: int)
    requires
        0 <= n,
    ensures
        degrees(events, n) <= ref_bytes(events),
    decreases events.len(),
{
    if events.len() == 0 {
        lemma_degrees_none(events, n);
    } else {
        lemma_degrees_bound(events.drop_last(), n);
        lemma_degrees_push(events, n);
    }
}

proof fn lemma_degrees_none(events: Seq<Event>, n: int)
    requires
        events.len() == 0,
    ensures
        degrees(events, n) == 0,
    decreases n,
{
    if n > 0 {
        lemma_degrees_none(events, n - 1);
    }
}

/// Buckets come one after the other.
proof fn lemma_degrees_mono(events: Seq<Event>, s: int, t: int)
    requires
        0 <= s < t,
    ensures
        degrees(events, s) + copies_of(events, s).len() <= degrees(events, t),
    decreases t,
{
    if s < t - 1 {
        lemma_degrees_mono(events, s, t - 1);
    }
}

/// A prefix's copies come first.
proof fn lemma_copies_prefix(events: Seq<Event>, k: int, s: int)
    requires
        0 <= k <= events.len(),
    ensures
        copies_of(events.take(k), s).len() <= copies_of(events, s).len(),
        forall|j: int|
            0 <= j < copies_of(events.take(k), s).len() ==> copies_of(events, s)[j] == copies_of(
                events.take(k),
                s,
            )[j],
    decreases events.len(),
{
    if k == events.len() {
        assert(events.take(k) =~= events);
    } else {
        lemma_copies_prefix(events.drop_last(), k, s);
        assert(events.drop_last().take(k) =~= events.take(k));
    }
}

/// Pass 1: each source position's out-degree, summed up to it.
fn bucket_offsets(events: &[Event], output_len: usize) -> (r: Vec<u32>)
    requires
        output_len < usize::MAX,
        ref_bytes(events@) <= u32::MAX,
        forall|k: int|
            0 <= k < events@.len() ==> (#[trigger] events@[k] matches Event::Ref(r)
                ==> r.src_out_pos + r.copy_len <= output_len),
    ensures
        r@.len() == output_len + 1,
        forall|s: int| 0 <= s <= output_len ==> #[trigger] r@[s] == degrees(events@, s),
{
    // For a ref with `src_out_pos = s, copy_len = L`, every cell in
    // `degree[s..s+L]` should gain 1. Recording the delta at the two
    // endpoints (`+1` at `s`, `-1` at `s+L`) and prefix-summing yields the
    // same degrees with `O(events)` scattered writes instead of
    // `O(sum of copy_len)`.
    let mut delta: Vec<i64> = Vec::new();
    delta.resize(output_len + 1, 0);
    let mut k: usize = 0;
    assert(events@.take(0) =~= Seq::<Event>::empty());
    while k < events.len()
        invariant
            k <= events@.len(),
            ref_bytes(events@) <= u32::MAX,
            output_len < usize::MAX,
            forall|k: int|
                0 <= k < events@.len() ==> (#[trigger] events@[k] matches Event::Ref(r)
                    ==> r.src_out_pos + r.copy_len <= output_len),
            delta@.len() == output_len + 1,
            forall|s: int|
                0 <= s <= output_len ==> #[trigger] delta@[s] == turns(events@.take(k as int), s),
        decreases events@.len() - k,
    {
        let ghost before = events@.take(k as int);
        proof {
            let now = events@.take(k + 1);
            assert(now.drop_last() =~= before);
            assert(now.last() == events@[k as int]);
            lemma_ref_bytes_prefix(events@, k as int);
        }
        if let Event::Ref(r) = events[k] {
            let s: usize = r.src_out_pos as usize;
            let end: usize = s + r.copy_len as usize;
            proof {
                lemma_degree_bound(before, s as int);
                lemma_degree_bound(before, end as int);
            }
            delta[s] = delta[s] + 1;
            delta[end] = delta[end] - 1;
        }
        k = k + 1;
    }
    assert(events@.take(k as int) =~= events@);

    // Prefix sum delta -> degree, then shift into `offsets` in the same pass.
    let mut offsets: Vec<u32> = Vec::new();
    offsets.push(0);
    let mut running: i64 = 0;
    let mut acc: u32 = 0;
    let mut i: usize = 0;
    while i < output_len
        invariant
            i <= output_len,
            output_len < usize::MAX,
            ref_bytes(events@) <= u32::MAX,
            delta@.len() == output_len + 1,
            forall|s: int| 0 <= s <= output_len ==> #[trigger] delta@[s] == turns(events@, s),
            offsets@.len() == i + 1,
            forall|s: int| 0 <= s <= i ==> #[trigger] offsets@[s] == degrees(events@, s),
            acc == degrees(events@, i as int),
            running == (if i > 0 {
                copies_of(events@, i - 1).len() as int
            } else {
                0
            }),
        decreases output_len - i,
    {
        proof {
            lemma_degree_step(events@, i as int);
            lemma_degree_bound(events@, i as int);
            lemma_degree_bound(events@, i - 1);
            lemma_degrees_bound(events@, i + 1);
        }
        running = running + delta[i];
        acc = acc + running as u32;
        offsets.push(acc);
        i = i + 1;
    }
    offsets
}

proof fn lemma_ref_bytes_prefix(events: Seq<Event>, k: int)
    requires
        0 <= k <= events.len(),
    ensures
        ref_bytes(events.take(k)) <= ref_bytes(events),
    decreases events.len(),
{
    if k == events.len() {
        assert(events.take(k) =~= events);
    } else {
        lemma_ref_bytes_prefix(events.drop_last(), k);
        assert(events.drop_last().take(k) =~= events.take(k));
    }
}

/// The next free slot of every bucket, part of the way through event `e`.
spec fn cursor_at(offsets: Seq<u32>, events: Seq<Event>, e: Event, done: int, s: int) -> int {
    offsets[s] + copies_of(events, s).len() + (if e matches Event::Ref(r) && r.src_out_pos <= s
        < r.src_out_pos + done {
        1int
    } else {
        0
    })
}

proof fn lemma_slot(events: Seq<Event>, k: int, s: int)
    requires
        0 <= k < events.len(),
        reads(events[k], s),
    ensures
        copies_of(events.take(k), s).len() < copies_of(events, s).len(),
        copies_of(events, s)[copies_of(events.take(k), s).len() as int] == (events[k]->Ref_0.out_pos
            + (s - events[k]->Ref_0.src_out_pos)) as u32,
{
    assert(events.take(k + 1).drop_last() =~= events.take(k));
    assert(events.take(k + 1).last() == events[k]);
    lemma_copies_prefix(events, k + 1, s);
    let n = copies_of(events.take(k), s).len() as int;
    assert(copies_of(events.take(k + 1), s)[n] == copies_of(events, s)[n]);
}

/// The reverse graph of a decoded stream: byte `s` leads to every byte that a
/// back-reference copied it to.
pub fn build_reverse_graph(events: &[Event], output_len: usize) -> (r: ReverseGraph)
    requires
        output_len < usize::MAX,
        ref_bytes(events@) <= u32::MAX,
        forall|k: int|
            0 <= k < events@.len() ==> (#[trigger] events@[k] matches Event::Ref(r)
                ==> r.src_out_pos + r.copy_len <= output_len && r.out_pos + r.copy_len
                <= 0x1_0000_0000),
    ensures
        r.wf(),
        r@ == copy_graph(events@, output_len as nat),
{
    let offsets: Vec<u32> = bucket_offsets(events, output_len);
    let total: u32 = offsets[output_len];

    // Pass 2: fill edges. `cursor` is a writable copy of `offsets` that
    // tracks the next free edge slot per source.
    let mut cursor: Vec<u32> = Vec::new();
    cursor.extend_from_slice(offsets.as_slice());
    let mut edges: Vec<u32> = Vec::new();
    edges.resize(total as usize, 0);
    let mut k: usize = 0;
    assert(cursor@ =~= offsets@);
    assert(events@.take(0) =~= Seq::<Event>::empty());
    while k < events.len()
        invariant
            k <= events@.len(),
            output_len < usize::MAX,
            forall|k: int|
                0 <= k < events@.len() ==> (#[trigger] events@[k] matches Event::Ref(r)
                    ==> r.src_out_pos + r.copy_len <= output_len && r.out_pos + r.copy_len
                    <= 0x1_0000_0000),
            offsets@.len() == output_len + 1,
            cursor@.len() == output_len + 1,
            edges@.len() == degrees(events@, output_len as int) <= u32::MAX,
            forall|s: int| 0 <= s <= output_len ==> #[trigger] offsets@[s] == degrees(events@, s),
            forall|s: int|
                0 <= s < output_len ==> #[trigger] cursor@[s] == offsets@[s] + copies_of(
                    events@.take(k as int),
                    s,
                ).len(),
            forall|s: int, j: int|
                0 <= s < output_len && 0 <= j < copies_of(events@.take(k as int), s).len()
                    ==> edges@[(offsets@[s] + j)] == #[trigger] copies_of(events@, s)[j],
        decreases events@.len() - k,
    {
        let ghost before = events@.take(k as int);
        if let Event::Ref(r) = events[k] {
            let src: usize = r.src_out_pos as usize;
            let mut done: usize = 0;
            while done < r.copy_len as usize
                invariant
                    done <= r.copy_len,
                    k < events@.len(),
                    before == events@.take(k as int),
                    events@[k as int] == Event::Ref(r),
                    src == r.src_out_pos,
                    src + r.copy_len <= output_len < usize::MAX,
                    r.out_pos + r.copy_len <= 0x1_0000_0000,
                    offsets@.len() == output_len + 1,
                    cursor@.len() == output_len + 1,
                    edges@.len() == degrees(events@, output_len as int) <= u32::MAX,
                    forall|s: int|
                        0 <= s <= output_len ==> #[trigger] offsets@[s] == degrees(events@, s),
                    forall|s: int|
                        0 <= s < output_len ==> #[trigger] cursor@[s] == cursor_at(
                            offsets@,
                            before,
                            Event::Ref(r),
                            done as int,
                            s,
                        ),
                    forall|s: int, j: int|
                        0 <= s < output_len && 0 <= j < cursor@[s] - offsets@[s]
                            ==> edges@[(offsets@[s] + j)] == #[trigger] copies_of(events@, s)[j],
                decreases r.copy_len - done,
            {
                let slot_idx: usize = src + done;
                proof {
                    assert(reads(events@[k as int], slot_idx as int));
                    lemma_slot(events@, k as int, slot_idx as int);
                    lemma_degrees_mono(events@, slot_idx as int, output_len as int);
                    assert(offsets@[slot_idx as int] == degrees(events@, slot_idx as int));
                    assert(cursor@[slot_idx as int] == offsets@[slot_idx as int] + copies_of(
                        before,
                        slot_idx as int,
                    ).len());
                }
                let slot: usize = cursor[slot_idx] as usize;
                let ghost edges0 = edges@;
                let ghost cursor0 = cursor@;
                edges[slot] = (r.out_pos as u64 + done as u64) as u32;
                cursor[slot_idx] = (slot + 1) as u32;
                proof {
                    assert forall|s: int, j: int|
                        0 <= s < output_len && 0 <= j < cursor@[s] - offsets@[s] implies edges@[(
                    offsets@[s] + j)] == #[trigger] copies_of(events@, s)[j] by {
                        assert(offsets@[s] == degrees(events@, s));
                        if s == slot_idx {
                            if j == slot - offsets@[s] {
                                assert(edges@[slot as int] == r.out_pos + done);
                                assert(j == copies_of(before, s).len());
                                assert(s - r.src_out_pos == done);
                                assert(copies_of(events@, s)[j] == r.out_pos + done);
                                assert(edges@[(offsets@[s] + j)] == copies_of(events@, s)[j]);
                            } else {
                                assert(j < cursor0[s] - offsets@[s]);
                                assert(edges0[(offsets@[s] + j)] == copies_of(events@, s)[j]);
                                assert(edges@[(offsets@[s] + j)] == copies_of(events@, s)[j]);
                            }
                        } else {
                            assert(edges0[(offsets@[s] + j)] == copies_of(events@, s)[j]);
                            lemma_copies_prefix(events@, k as int, s);
                            if reads(events@[k as int], s) {
                                lemma_slot(events@, k as int, s);
                            }
                            assert(cursor@[s] == cursor0[s]);
                            assert(j < copies_of(events@, s).len());
                            if s < slot_idx {
                                lemma_degrees_mono(events@, s, slot_idx as int);
                            } else {
                                lemma_degrees_mono(events@, slot_idx as int, s);
                            }
                            lemma_degrees_mono(events@, s, output_len as int);
                            assert(offsets@[s] + j != slot);
                        }
                    }
                }
                done = done + 1;
            }
        }
        proof {
            let now = events@.take(k + 1);
            assert(now.drop_last() =~= before);
            assert(now.last() == events@[k as int]);
            assert forall|s: int| 0 <= s < output_len implies #[trigger] cursor@[s] == offsets@[s]
                + copies_of(now, s).len() by {}
            assert forall|s: int, j: int|
                0 <= s < output_len && 0 <= j < copies_of(now, s).len() implies edges@[(offsets@[s]
                + j)] == #[trigger] copies_of(events@, s)[j] by {
                assert(cursor@[s] == offsets@[s] + copies_of(now, s).len());
            }
        }
        k = k + 1;
    }
    assert(events@.take(k as int) =~= events@);
    let r = ReverseGraph { offsets, edges };
    proof {
        assert forall|s: int| 0 <= s < r.offsets@.len() - 1 implies #[trigger] r.offsets@[s]
            <= r.offsets@[s + 1] <= r.edges@.len() by {
            assert(r.offsets@[s + 1] == degrees(events@, s + 1));
            if s + 1 < output_len {
                lemma_degrees_mono(events@, s + 1, output_len as int);
            }
        }
        assert forall|s: int| 0 <= s < output_len implies #[trigger] r@[s] == copies_of(
            events@,
            s,
        ) by {
            assert(r.offsets@[s] <= r.offsets@[s + 1]);
            assert(r.offsets@[s + 1] == degrees(events@, s + 1));
            let got = r@[s];
            assert forall|j: int| 0 <= j < got.len() implies got[j] == copies_of(
                events@,
                s,
            )[j] by {
                assert(edges@[(offsets@[s] + j)] == copies_of(events@, s)[j]);
            }
            assert(got =~= copies_of(events@, s));
        }
        assert(r@ =~= copy_graph(events@, output_len as nat));
    }
    r
}

/// An edge from `s` to `t` is exactly a back-reference that copied byte `s` to
/// byte `t`.
pub proof fn law_edges_are_copies(events: Seq<Event>, s: int, t: u32)
    requires
        forall|k: int|
            0 <= k < events.len() ==> (#[trigger] events[k] matches Event::Ref(r) ==> r.out_pos
                + r.copy_len <= 0x1_0000_0000),
    ensures
        copies_of(events, s).contains(t) <==> exists|k: int|
            0 <= k < events.len() && reads(#[trigger] events[k], s) && t == ev_pos(events[k]) + (s
                - events[k]->Ref_0.src_out_pos),
    decreases events.len(),
{
    if events.len() > 0 {
        let front = events.drop_last();
        law_edges_are_copies(front, s, t);
        assert forall|k: int| 0 <= k < front.len() implies front[k] == #[trigger] events[k] by {}
        let n = events.len() - 1;
        let all = copies_of(events, s);
        let some = copies_of(front, s);
        if all.contains(t) {
            let j = choose|j: int| 0 <= j < all.len() && all[j] == t;
            if j < some.len() {
                assert(some[j] == t);
                let k = choose|k: int|
                    0 <= k < front.len() && reads(#[trigger] front[k], s) && t == ev_pos(front[k])
                        + (s - front[k]->Ref_0.src_out_pos);
                assert(reads(events[k], s));
            } else {
                assert(reads(events[n], s));
            }
        }
        if exists|k: int|
            0 <= k < events.len() && reads(#[trigger] events[k], s) && t == ev_pos(events[k]) + (s
                - events[k]->Ref_0.src_out_pos) {
            let k = choose|k: int|
                0 <= k < events.len() && reads(#[trigger] events[k], s) && t == ev_pos(events[k])
                    + (s - events[k]->Ref_0.src_out_pos);
            if k < n {
                assert(reads(front[k], s));
                let j = choose|j: int| 0 <= j < some.len() && some[j] == t;
                assert(all[j] == t);
            } else {
                assert(all[some.len() as int] == t);
            }
        }
    }
}

/// Where every back-reference writes inside the output, every edge leads to a
/// node of the graph.
pub proof fn law_graph_closed(events: Seq<Event>, n: nat)
    requires
        n <= u32::MAX,
        forall|k: int|
            0 <= k < events.len() ==> ev_pos(#[trigger] events[k]) + ev_len(events[k]) <= n,
    ensures
        graph_closed(copy_graph(events, n)),
{
    let g = copy_graph(events, n);
    assert forall|s: int, j: int| 0 <= s < g.len() && 0 <= j < g[s].len() implies (
    #[trigger] g[s][j]) < g.len() by {
        assert forall|k: int| 0 <= k < events.len() implies (#[trigger] events[k] matches Event::Ref(
            r,
        ) ==> r.out_pos + r.copy_len <= 0x1_0000_0000) by {
            assert(ev_pos(events[k]) + ev_len(events[k]) <= n);
        }
        let t = g[s][j];
        assert(copies_of(events, s).contains(t));
        law_edges_are_copies(events, s, t);
    }
}

} // verus!
