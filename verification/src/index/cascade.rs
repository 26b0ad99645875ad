//! Epoch-versioned BFS scratch for the "what bytes downstream depend on
//! this edit" query.
//!
//! `CascadeScratch` is held on the app across clicks. Its `depth_map`
//! is a dense per-output-byte table allocated once per file; bumping
//! the `epoch` byte at the start of each run invalidates every stale
//! entry in O(1) without re-zeroing.
//!
//! Each slot is a packed `u16`: high byte = run epoch, low byte = BFS
//! depth (saturating at 255). 2 bytes per output byte → 24 MB for a
//! 12 MB output buffer, half what `(epoch: u32, depth: u8)` would take,
//! so the BFS reads from a table that fits in L3.
//!
//! The epoch is 8 bits and wraps every 256 runs. On wrap the map is
//! zeroed once and the epoch restarts at 1.

use vstd::prelude::*;

use super::reverse_graph::{graph_closed, ReverseGraph};

verus! {

// What a cascade is.

/// The graph has an edge from `u` to `v`.
pub open spec fn links(g: Seq<Seq<u32>>, u: int, v: int) -> bool {
    0 <= u < g.len() && exists|j: int| 0 <= j < g[u].len() && #[trigger] g[u][j] == v
}

/// `v` is one of the seeds, and a node of the graph.
pub open spec fn seeded(g: Seq<Seq<u32>>, start: Seq<u32>, v: int) -> bool {
    0 <= v < g.len() && exists|i: int| 0 <= i < start.len() && #[trigger] start[i] == v
}

/// `v` is at most `d` edges away from a seed.
pub open spec fn within(g: Seq<Seq<u32>>, start: Seq<u32>, v: int, d: nat) -> bool
    decreases d,
{
    if d == 0 {
        seeded(g, start, v)
    } else {
        within(g, start, v, (d - 1) as nat) || exists|u: int|
            within(g, start, u, (d - 1) as nat) && #[trigger] links(g, u, v)
    }
}

/// The shortest path from a seed to `v` has `k` edges.
pub open spec fn is_depth(g: Seq<Seq<u32>>, start: Seq<u32>, v: int, k: nat) -> bool {
    within(g, start, v, k) && forall|d: nat| d < k ==> !#[trigger] within(g, start, v, d)
}

/// `m` is the largest depth; 0 where nothing is reached.
pub open spec fn is_max_depth(g: Seq<Seq<u32>>, start: Seq<u32>, m: nat) -> bool {
    &&& forall|v: int, k: nat| #[trigger] is_depth(g, start, v, k) ==> k <= m
    &&& m == 0 || exists|v: int| is_depth(g, start, v, m)
}

/// `k`, or `cap` where that is less.
pub open spec fn capped(k: nat, cap: nat) -> nat {
    if k < cap {
        k
    } else {
        cap
    }
}

// Packed slots: epoch in the high byte, depth in the low one. The comparison
// the hot BFS loop does is `slot & EPOCH_MASK == epoch_shifted`.

pub const EPOCH_STEP: u16 = 0x0100;

pub const EPOCH_MASK: u16 = 0xFF00;

pub const DEPTH_MASK: u16 = 0x00FF;

proof fn lemma_slot_parts(s: u16)
    ensures
        s & 0xFF00 == (s / 0x100) * 0x100,
        s & 0x00FF == s % 0x100,
{
    assert(s & 0xFF00 == (s / 0x100) * 0x100 && s & 0x00FF == s % 0x100) by (bit_vector);
}

proof fn lemma_packed(e: u16, d: u16)
    requires
        e % 0x100 == 0,
        d <= 255,
    ensures
        e | d == e + d,
{
    assert(e | d == e + d) by (bit_vector)
        requires
            e % 0x100 == 0,
            d <= 255,
    ;
}

/// The run that a slot was stamped in.
pub open spec fn epoch_of(s: u16) -> int {
    s as int / 0x100
}

fn pack(epoch_shifted: u16, depth: u32) -> (r: u16)
    requires
        epoch_shifted % 0x100 == 0,
    ensures
        r == epoch_shifted + capped(depth as nat, 255),
{
    let d: u16 = if depth < 255 {
        depth as u16
    } else {
        255
    };
    proof {
        lemma_packed(epoch_shifted, d);
    }
    epoch_shifted | d
}

fn unpack_depth(slot: u16) -> (r: u32)
    ensures
        r == slot % 0x100,
{
    proof {
        lemma_slot_parts(slot);
    }
    (slot & DEPTH_MASK) as u32
}

/// The slot was stamped in the run of `epoch_shifted`.
fn stamped(slot: u16, epoch_shifted: u16) -> (r: bool)
    ensures
        r == (epoch_of(slot) * 0x100 == epoch_shifted),
{
    proof {
        lemma_slot_parts(slot);
    }
    slot & EPOCH_MASK == epoch_shifted
}

pub struct CascadeScratch {
    depth_map: Vec<u16>,
    /// Doubles as BFS queue and final affected-set output. Nodes are
    /// pushed FIFO; `run` walks them via a local `head` cursor. One Vec
    /// instead of a `VecDeque` frontier + a separate output array.
    affected: Vec<u32>,
    /// Stored already shifted into the high byte so the hot per-node
    /// comparison is a single `==` against `slot & EPOCH_MASK`.
    epoch_shifted: u16,
}

/// Borrowed view of a completed cascade BFS.
pub struct Cascade<'a> {
    pub affected: &'a [u32],
    pub depth_map: &'a [u16],
    pub epoch_shifted: u16,
    pub max_depth: u32,
}

impl Default for CascadeScratch {
    fn default() -> (r: Self)
        ensures
            r.wf(),
    {
        Self::new()
    }
}

/// The BFS so far: `lev` holds each reached node's depth, and the first `head`
/// nodes of the queue have had all their edges walked.
spec fn bfs(
    g: Seq<Seq<u32>>,
    start: Seq<u32>,
    slots: Seq<u16>,
    ep: u16,
    queue: Seq<u32>,
    lev: Seq<Option<nat>>,
) -> bool {
    &&& slots.len() == g.len()
    &&& lev.len() == g.len()
    &&& ep % 0x100 == 0
    &&& ep >= 0x100
    &&& forall|v: int|
        0 <= v < g.len() ==> {
            &&& epoch_of(#[trigger] slots[v]) <= epoch_of(ep)
            &&& lev[v] is Some <==> epoch_of(slots[v]) == epoch_of(ep)
            &&& lev[v] matches Some(k) ==> slots[v] == ep + capped(k, 255)
        }
    &&& forall|i: int|
        0 <= i < queue.len() ==> (#[trigger] queue[i]) < g.len() && lev[queue[i] as int] is Some
    &&& forall|v: int|
        0 <= v < g.len() && #[trigger] lev[v] is Some ==> exists|i: int|
            0 <= i < queue.len() && #[trigger] queue[i] == v
    &&& queue.no_duplicates()
    &&& forall|v: int|
        0 <= v < g.len() ==> (#[trigger] lev[v] matches Some(k) ==> within(g, start, v, k))
    &&& forall|i: int, j: int|
        0 <= i <= j < queue.len() ==> level(lev, #[trigger] queue[i]) <= level(
            lev,
            #[trigger] queue[j],
        )
}

spec fn level(lev: Seq<Option<nat>>, v: u32) -> nat {
    match lev[v as int] {
        Some(k) => k,
        None => 0,
    }
}

/// Node `v` is reached, in at most `d` steps.
spec fn reached(lev: Seq<Option<nat>>, v: int, d: nat) -> bool {
    0 <= v < lev.len() && (lev[v] matches Some(k) && k <= d)
}

/// Every edge of the first `head` queued nodes leads to a reached node.
spec fn walked(g: Seq<Seq<u32>>, queue: Seq<u32>, lev: Seq<Option<nat>>, head: int) -> bool {
    forall|i: int, v: int|
        0 <= i < head && #[trigger] links(g, queue[i] as int, v) ==> reached(
            lev,
            v,
            level(lev, queue[i]) + 1,
        )
}

/// A reached node has its depth, and no other is reached at all.
spec fn settled(g: Seq<Seq<u32>>, start: Seq<u32>, lev: Seq<Option<nat>>, v: int) -> bool {
    match lev[v] {
        Some(k) => is_depth(g, start, v, k),
        None => forall|k: nat| !#[trigger] within(g, start, v, k),
    }
}

proof fn lemma_within_node(g: Seq<Seq<u32>>, start: Seq<u32>, v: int, d: nat)
    requires
        graph_closed(g),
        within(g, start, v, d),
    ensures
        0 <= v < g.len(),
    decreases d,
{
    if d > 0 {
        if within(g, start, v, (d - 1) as nat) {
            lemma_within_node(g, start, v, (d - 1) as nat);
        } else {
            let u = choose|u: int|
                within(g, start, u, (d - 1) as nat) && #[trigger] links(g, u, v);
            let j = choose|j: int| 0 <= j < g[u].len() && #[trigger] g[u][j] == v;
            assert(g[u][j] < g.len());
        }
    }
}

proof fn lemma_complete(
    g: Seq<Seq<u32>>,
    start: Seq<u32>,
    slots: Seq<u16>,
    ep: u16,
    queue: Seq<u32>,
    lev: Seq<Option<nat>>,
    v: int,
    d: nat,
)
    requires
        bfs(g, start, slots, ep, queue, lev),
        walked(g, queue, lev, queue.len() as int),
        forall|v: int| #[trigger] seeded(g, start, v) ==> reached(lev, v, 0),
        within(g, start, v, d),
    ensures
        reached(lev, v, d),
    decreases d,
{
    if d > 0 {
        if within(g, start, v, (d - 1) as nat) {
            lemma_complete(g, start, slots, ep, queue, lev, v, (d - 1) as nat);
        } else {
            let u = choose|u: int|
                within(g, start, u, (d - 1) as nat) && #[trigger] links(g, u, v);
            lemma_complete(g, start, slots, ep, queue, lev, u, (d - 1) as nat);
            assert(lev[u] is Some);
            let i = choose|i: int| 0 <= i < queue.len() && #[trigger] queue[i] == u;
            assert(links(g, queue[i] as int, v));
        }
    }
}

proof fn lemma_exact(
    g: Seq<Seq<u32>>,
    start: Seq<u32>,
    slots: Seq<u16>,
    ep: u16,
    queue: Seq<u32>,
    lev: Seq<Option<nat>>,
    v: int,
)
    requires
        bfs(g, start, slots, ep, queue, lev),
        walked(g, queue, lev, queue.len() as int),
        forall|v: int| #[trigger] seeded(g, start, v) ==> reached(lev, v, 0),
        graph_closed(g),
    ensures
        0 <= v < g.len() ==> (lev[v] matches Some(k) ==> is_depth(g, start, v, k)),
        0 <= v < g.len() ==> lev[v] is None ==> forall|k: nat| !#[trigger] within(g, start, v, k),
        forall|k: nat| #[trigger] is_depth(g, start, v, k) ==> 0 <= v < g.len() && lev[v] == Some(
            k,
        ),
{
    assert forall|d: nat| #[trigger] within(g, start, v, d) implies reached(lev, v, d) by {
        lemma_complete(g, start, slots, ep, queue, lev, v, d);
    }
    assert forall|k: nat| #[trigger] is_depth(g, start, v, k) implies 0 <= v < g.len() && lev[v]
        == Some(k) by {
        assert(reached(lev, v, k));
        let m = lev[v]->0;
        assert(within(g, start, v, m));
    }
}

/// Queue node `v`, one step from the head.
proof fn lemma_enqueue(
    g: Seq<Seq<u32>>,
    start: Seq<u32>,
    slots: Seq<u16>,
    ep: u16,
    queue: Seq<u32>,
    lev: Seq<Option<nat>>,
    v: u32,
    k: nat,
    slots2: Seq<u16>,
)
    requires
        bfs(g, start, slots, ep, queue, lev),
        v < g.len(),
        lev[v as int] is None,
        within(g, start, v as int, k),
        queue.len() > 0 ==> level(lev, queue.last()) <= k,
        slots2 == slots.update(v as int, (ep + capped(k, 255)) as u16),
    ensures
        bfs(g, start, slots2, ep, queue.push(v), lev.update(v as int, Some(k))),
{
    let queue2 = queue.push(v);
    let lev2 = lev.update(v as int, Some(k));
    assert(ep / 0x100 <= 255);
    assert(ep == (ep / 0x100) * 0x100);
    assert forall|i: int| 0 <= i < queue.len() implies #[trigger] queue[i] != v by {}
    assert forall|u: int| 0 <= u < g.len() && #[trigger] lev2[u] is Some implies exists|i: int|
        0 <= i < queue2.len() && #[trigger] queue2[i] == u by {
        if u == v {
            assert(queue2[queue.len() as int] == u);
        } else {
            assert(lev[u] is Some);
            let i = choose|i: int| 0 <= i < queue.len() && #[trigger] queue[i] == u;
            assert(queue2[i] == u);
        }
    }
    assert forall|u: int| 0 <= u < g.len() implies {
        &&& epoch_of(#[trigger] slots2[u]) <= epoch_of(ep)
        &&& lev2[u] is Some <==> epoch_of(slots2[u]) == epoch_of(ep)
        &&& lev2[u] matches Some(k) ==> slots2[u] == ep + capped(k, 255)
    } by {
        if u != v {
            assert(slots2[u] == slots[u]);
        }
    }
    assert forall|i: int, j: int| 0 <= i <= j < queue2.len() implies level(
        lev2,
        #[trigger] queue2[i],
    ) <= level(lev2, #[trigger] queue2[j]) by {
        if i < queue.len() {
            assert(queue2[i] == queue[i]);
            if j < queue.len() {
                assert(queue2[j] == queue[j]);
            } else {
                assert(level(lev, queue[i]) <= level(lev, queue[queue.len() - 1]));
            }
        }
    }
    assert forall|i: int| 0 <= i < queue2.len() implies (#[trigger] queue2[i]) < g.len()
        && lev2[queue2[i] as int] is Some by {
        if i < queue.len() {
            assert(queue2[i] == queue[i]);
        }
    }
}

/// Reached nodes stay reached when another is queued.
proof fn lemma_walked_push(
    g: Seq<Seq<u32>>,
    queue: Seq<u32>,
    lev: Seq<Option<nat>>,
    v: u32,
    k: nat,
    head: int,
)
    requires
        walked(g, queue, lev, head),
        0 <= head <= queue.len(),
        v < lev.len(),
        lev[v as int] is None,
        forall|i: int|
            0 <= i < queue.len() ==> #[trigger] queue[i] != v && queue[i] < lev.len(),
    ensures
        walked(g, queue.push(v), lev.update(v as int, Some(k)), head),
{
    let lev2 = lev.update(v as int, Some(k));
    assert forall|i: int, u: int|
        0 <= i < head && #[trigger] links(g, queue.push(v)[i] as int, u) implies reached(
        lev2,
        u,
        level(lev2, queue.push(v)[i]) + 1,
    ) by {
        assert(queue.push(v)[i] == queue[i]);
        assert(queue[i] != v);
        assert(links(g, queue[i] as int, u));
        assert(reached(lev, u, level(lev, queue[i]) + 1));
        assert(level(lev2, queue[i]) == level(lev, queue[i]));
    }
}

impl CascadeScratch {
    /// No slot is stamped by a run later than the last.
    pub closed spec fn wf(&self) -> bool {
        &&& self.epoch_shifted % 0x100 == 0
        &&& forall|v: int|
            0 <= v < self.depth_map@.len() ==> epoch_of(#[trigger] self.depth_map@[v]) <= epoch_of(
                self.epoch_shifted,
            )
    }

    pub fn new() -> (r: Self)
        ensures
            r.wf(),
    {
        CascadeScratch { depth_map: Vec::new(), affected: Vec::new(), epoch_shifted: 0 }
    }

    /// Open a run over `n` nodes. With only 8 bits of epoch we wrap every 256
    /// runs; on wrap we zero the entire table once and restart at epoch 1 so
    /// the new run's slots are unambiguously fresh.
    fn next_epoch(&mut self, n: usize)
        requires
            old(self).wf(),
        ensures
            final(self).epoch_shifted % 0x100 == 0,
            final(self).epoch_shifted >= 0x100,
            final(self).depth_map@.len() == n,
            forall|v: int|
                0 <= v < n ==> epoch_of(#[trigger] final(self).depth_map@[v]) < epoch_of(
                    final(self).epoch_shifted,
                ),
            final(self).affected@.len() == 0,
    {
        if self.depth_map.len() != n {
            self.depth_map.clear();
            self.depth_map.resize(n, 0);
            self.epoch_shifted = 0;
        }
        self.affected.clear();
        if self.epoch_shifted == EPOCH_MASK {
            self.depth_map.clear();
            self.depth_map.resize(n, 0);
            self.epoch_shifted = EPOCH_STEP;
        } else {
            self.epoch_shifted = self.epoch_shifted + EPOCH_STEP;
        }
    }

    /// Run BFS from `start` over `rev`. The returned view borrows this
    /// scratch; reusing the scratch invalidates it. Seeds outside the graph
    /// are ignored.
    pub fn run<'a>(&'a mut self, start: &[u32], rev: &ReverseGraph) -> (r: Cascade<'a>)
        requires
            old(self).wf(),
            rev.wf(),
            graph_closed(rev@),
            rev@.len() <= u32::MAX,
        ensures
            final(self).wf(),
            forall|v: u32|
                (#[trigger] r.depth_of(v)) matches Some(d) ==> exists|k: nat| #[trigger]
                    is_depth(rev@, start@, v as int, k) && d == capped(k, 255),
            forall|v: u32, k: nat|
                #![trigger r.depth_of(v), within(rev@, start@, v as int, k)]
                r.depth_of(v) is None ==> !within(rev@, start@, v as int, k),
            r.affected@.no_duplicates(),
            forall|v: u32| #[trigger] r.affected@.contains(v) <==> r.depth_of(v) is Some,
            forall|i: int, j: int|
                0 <= i <= j < r.affected@.len() ==> r.depth_of(#[trigger] r.affected@[i])->0
                    <= r.depth_of(#[trigger] r.affected@[j])->0,
            exists|m: nat| #[trigger]
                is_max_depth(rev@, start@, m) && r.max_depth == capped(m, 256),
    {
        let n: usize = rev.len();
        self.next_epoch(n);
        let ep: u16 = self.epoch_shifted;
        let ghost g = rev@;
        let ghost mut lev: Seq<Option<nat>> = Seq::new(g.len(), |v: int| None);

        let mut i: usize = 0;
        while i < start.len()
            invariant
                i <= start@.len(),
                n == g.len() <= u32::MAX,
                self.epoch_shifted == ep,
                bfs(g, start@, self.depth_map@, ep, self.affected@, lev),
                forall|v: int| 0 <= v < n ==> (#[trigger] lev[v] matches Some(k) ==> k == 0),
                forall|j: int|
                    0 <= j < i && (#[trigger] start@[j]) < n ==> reached(lev, start@[j] as int, 0),
            decreases start@.len() - i,
        {
            let p: u32 = start[i];
            if (p as usize) < n {
                if !stamped(self.depth_map[p as usize], ep) {
                    let ghost slots0 = self.depth_map@;
                    proof {
                        assert(seeded(g, start@, start@[i as int] as int));
                        assert(within(g, start@, p as int, 0));
                        if self.affected@.len() > 0 {
                            assert(lev[self.affected@[self.affected@.len() - 1] as int] is Some);
                        }
                        lemma_enqueue(
                            g,
                            start@,
                            self.depth_map@,
                            ep,
                            self.affected@,
                            lev,
                            p,
                            0,
                            self.depth_map@.update(p as int, ep),
                        );
                    }
                    self.depth_map[p as usize] = pack(ep, 0);
                    self.affected.push(p);
                    proof {
                        lev = lev.update(p as int, Some(0nat));
                    }
                }
            }
            i = i + 1;
        }

        // BFS using `affected` itself as a Vec-queue: push at the end,
        // walk a local `head` index forward. Each node is enqueued once
        // (the visited stamp guards), so when `head` catches up to `len`
        // we're done.
        proof {
            assert forall|v: int| #[trigger] seeded(g, start@, v) implies reached(lev, v, 0) by {
                let j = choose|j: int| 0 <= j < start@.len() && #[trigger] start@[j] == v;
                assert(reached(lev, start@[j] as int, 0));
            }
        }
        let mut max_depth: u32 = 0;
        let mut head: usize = 0;
        while head < self.affected.len()
            invariant
                head <= self.affected@.len(),
                g == rev@,
                rev.wf(),
                graph_closed(g),
                n == g.len() <= u32::MAX,
                self.epoch_shifted == ep,
                bfs(g, start@, self.depth_map@, ep, self.affected@, lev),
                walked(g, self.affected@, lev, head as int),
                forall|v: int| #[trigger] seeded(g, start@, v) ==> reached(lev, v, 0),
                forall|j: int|
                    head <= j < self.affected@.len() && head > 0 ==> level(
                        lev,
                        #[trigger] self.affected@[j],
                    ) <= level(lev, self.affected@[head - 1]) + 1,
                head == 0 ==> forall|j: int|
                    0 <= j < self.affected@.len() ==> level(lev, #[trigger] self.affected@[j]) == 0,
                max_depth == (if self.affected@.len() == 0 {
                    0
                } else {
                    capped(level(lev, self.affected@.last()), 256)
                }),
            decreases n - head,
        {
            proof {
                lemma_queue_fits(g, start@, self.depth_map@, ep, self.affected@, lev);
            }
            let pos: u32 = self.affected[head];
            let ghost k = level(lev, pos);
            let ghost at = head as int;
            head = head + 1;
            let d: u32 = unpack_depth(self.depth_map[pos as usize]);
            proof {
                assert(lev[pos as int] is Some);
                assert(d == capped(k, 255));
                assert forall|j: int| 0 <= j < self.affected@.len() implies level(
                    lev,
                    #[trigger] self.affected@[j],
                ) <= k + 1 by {
                    if at > 0 {
                        assert(level(lev, self.affected@[at - 1]) <= level(lev, self.affected@[at]));
                        if j < at {
                            assert(level(lev, self.affected@[j]) <= level(lev, self.affected@[at]));
                        }
                    }
                }
            }
            let next: &[u32] = rev.neighbors(pos);
            let mut e: usize = 0;
            while e < next.len()
                invariant
                    e <= next@.len(),
                    0 <= at,
                    at + 1 == head,
                    head <= self.affected@.len(),
                    self.affected@[at] == pos,
                    pos < g.len(),
                    next@ == g[pos as int],
                    graph_closed(g),
                    n == g.len() <= u32::MAX,
                    self.epoch_shifted == ep,
                    bfs(g, start@, self.depth_map@, ep, self.affected@, lev),
                    walked(g, self.affected@, lev, at),
                    forall|v: int| #[trigger] seeded(g, start@, v) ==> reached(lev, v, 0),
                    lev[pos as int] == Some(k),
                    d == capped(k, 255),
                    forall|j: int|
                        0 <= j < self.affected@.len() ==> level(lev, #[trigger] self.affected@[j])
                            <= k + 1,
                    forall|j: int|
                        0 <= j < e ==> reached(lev, (#[trigger] next@[j]) as int, k + 1),
                    max_depth == capped(level(lev, self.affected@.last()), 256),
                decreases next@.len() - e,
            {
                let dst: u32 = next[e];
                assert(g[pos as int][e as int] < g.len());
                if !stamped(self.depth_map[dst as usize], ep) {
                    let nd: u32 = d + 1;
                    proof {
                        let v = dst as int;
                        assert(links(g, pos as int, v));
                        assert(within(g, start@, pos as int, k));
                        assert(within(g, start@, v, k + 1));
                        let last = self.affected@[self.affected@.len() - 1];
                        assert(level(lev, last) <= k + 1);
                        assert(capped(nd as nat, 255) == capped(k + 1, 255));
                        lemma_enqueue(
                            g,
                            start@,
                            self.depth_map@,
                            ep,
                            self.affected@,
                            lev,
                            dst,
                            k + 1,
                            self.depth_map@.update(v, (ep + capped(k + 1, 255)) as u16),
                        );
                        assert forall|i: int|
                            0 <= i < self.affected@.len() implies #[trigger] self.affected@[i]
                            != dst && self.affected@[i] < lev.len() by {
                            assert(lev[self.affected@[i] as int] is Some);
                        }
                        lemma_walked_push(g, self.affected@, lev, dst, k + 1, at);
                    }
                    let ghost queue0 = self.affected@;
                    let ghost lev0 = lev;
                    self.depth_map[dst as usize] = pack(ep, nd);
                    self.affected.push(dst);
                    if nd > max_depth {
                        max_depth = nd;
                    }
                    proof {
                        lev = lev.update(dst as int, Some(k + 1));
                        assert forall|j: int| 0 <= j < self.affected@.len() implies level(
                            lev,
                            #[trigger] self.affected@[j],
                        ) <= k + 1 by {
                            if j < queue0.len() {
                                assert(self.affected@[j] == queue0[j]);
                                assert(level(lev0, queue0[j]) <= k + 1);
                            }
                        }
                        assert forall|v: int| #[trigger] seeded(g, start@, v) implies reached(
                            lev,
                            v,
                            0,
                        ) by {
                            assert(reached(lev0, v, 0));
                        }
                        assert forall|j: int| 0 <= j < e implies reached(
                            lev,
                            (#[trigger] next@[j]) as int,
                            k + 1,
                        ) by {
                            assert(reached(lev0, next@[j] as int, k + 1));
                        }
                        assert(level(lev0, queue0[at]) <= level(lev0, queue0[queue0.len() - 1]));
                    }
                } else {
                    proof {
                        assert(lev[dst as int] is Some);
                        let q = choose|q: int|
                            0 <= q < self.affected@.len() && #[trigger] self.affected@[q] == dst;
                        assert(level(lev, self.affected@[q]) <= k + 1);
                    }
                }
                e = e + 1;
            }
            proof {
                assert forall|i: int, v: int|
                    0 <= i < head && #[trigger] links(g, self.affected@[i] as int, v) implies reached(
                    lev,
                    v,
                    level(lev, self.affected@[i]) + 1,
                ) by {
                    if i == at {
                        let j = choose|j: int|
                            0 <= j < g[pos as int].len() && #[trigger] g[pos as int][j] == v;
                        assert(reached(lev, next@[j] as int, k + 1));
                    }
                }
            }
        }

        proof {
            let queue = self.affected@;
            assert forall|v: int| 0 <= v < g.len() implies #[trigger] settled(
                g,
                start@,
                lev,
                v,
            ) by {
                lemma_exact(g, start@, self.depth_map@, ep, queue, lev, v);
            }
            let m: nat = if queue.len() == 0 {
                0
            } else {
                level(lev, queue.last())
            };
            assert forall|v: int, k: nat| #[trigger] is_depth(g, start@, v, k) implies k <= m by {
                lemma_exact(g, start@, self.depth_map@, ep, queue, lev, v);
                assert(lev[v] is Some);
                let i = choose|i: int| 0 <= i < queue.len() && #[trigger] queue[i] == v;
                assert(level(lev, queue[i]) <= level(lev, queue[queue.len() - 1]));
            }
            if m > 0 {
                let v = queue.last() as int;
                assert(queue[queue.len() - 1] == v);
                assert(lev[v] == Some(m));
                assert(settled(g, start@, lev, v));
                assert(is_depth(g, start@, v, m));
            }
            assert(is_max_depth(g, start@, m));
        }
        let ghost slots = self.depth_map@;
        let ghost queue = self.affected@;
        let r = Cascade {
            affected: self.affected.as_slice(),
            depth_map: self.depth_map.as_slice(),
            epoch_shifted: ep,
            max_depth,
        };
        proof {
            assert(ep / 0x100 >= 1);
            assert forall|v: u32| (#[trigger] r.depth_of(v)) is Some implies exists|k: nat|
                #[trigger] is_depth(g, start@, v as int, k) && r.depth_of(v)->0 == capped(
                    k,
                    255,
                ) by {
                let d = r.depth_of(v)->0;
                assert(epoch_of(slots[v as int]) == epoch_of(ep));
                assert(lev[v as int] is Some);
                let k = lev[v as int]->0;
                assert(settled(g, start@, lev, v as int));
                assert(is_depth(g, start@, v as int, k) && d == capped(k, 255));
            }
            assert forall|v: u32, k: nat|
                #![trigger r.depth_of(v), within(rev@, start@, v as int, k)]
                r.depth_of(v) is None implies !within(rev@, start@, v as int, k) by {
                if within(rev@, start@, v as int, k) {
                    lemma_within_node(g, start@, v as int, k);
                    assert(epoch_of(slots[v as int]) != epoch_of(ep));
                    assert(lev[v as int] is None);
                    assert(settled(g, start@, lev, v as int));
                }
            }
            assert forall|v: u32| #[trigger] r.affected@.contains(v) <==> r.depth_of(v) is Some by {
                if r.affected@.contains(v) {
                    let i = choose|i: int| 0 <= i < queue.len() && #[trigger] queue[i] == v;
                    assert(lev[queue[i] as int] is Some);
                    assert(epoch_of(slots[v as int]) == epoch_of(ep));
                }
                if r.depth_of(v) is Some {
                    assert(epoch_of(slots[v as int]) == epoch_of(ep));
                    assert(lev[v as int] is Some);
                    let i = choose|i: int| 0 <= i < queue.len() && #[trigger] queue[i] == v;
                    assert(r.affected@[i] == v);
                }
            }
            assert forall|i: int, j: int| 0 <= i <= j < r.affected@.len() implies r.depth_of(
                #[trigger] r.affected@[i],
            )->0 <= r.depth_of(#[trigger] r.affected@[j])->0 by {
                assert(level(lev, queue[i]) <= level(lev, queue[j]));
                assert(lev[queue[i] as int] is Some && lev[queue[j] as int] is Some);
                assert(epoch_of(slots[queue[i] as int]) == epoch_of(ep));
                assert(epoch_of(slots[queue[j] as int]) == epoch_of(ep));
            }
        }
        r
    }
}

/// A queue without duplicates is no longer than the graph.
proof fn lemma_queue_fits(
    g: Seq<Seq<u32>>,
    start: Seq<u32>,
    slots: Seq<u16>,
    ep: u16,
    queue: Seq<u32>,
    lev: Seq<Option<nat>>,
)
    requires
        bfs(g, start, slots, ep, queue, lev),
    ensures
        queue.len() <= g.len(),
{
    let all = queue.map_values(|v: u32| v as int);
    assert(all.no_duplicates());
    all.unique_seq_to_set();
    vstd::set_lib::lemma_int_range(0, g.len() as int);
    assert forall|v: int| all.to_set().contains(v) implies vstd::set_lib::set_int_range(
        0,
        g.len() as int,
    ).contains(v) by {
        let i = choose|i: int| 0 <= i < all.len() && all[i] == v;
        assert(queue[i] < g.len());
    }
    vstd::set_lib::lemma_len_subset(
        all.to_set(),
        vstd::set_lib::set_int_range(0, g.len() as int),
    );
}

impl<'a> Cascade<'a> {
    /// What [`Cascade::depth`] answers.
    pub open spec fn depth_of(&self, pos: u32) -> Option<u32> {
        if pos < self.depth_map@.len() && epoch_of(self.depth_map@[pos as int]) * 0x100
            == self.epoch_shifted {
            Some((self.depth_map@[pos as int] % 0x100) as u32)
        } else {
            None
        }
    }

    /// BFS depth for `pos`, or `None` if unvisited this run.
    pub fn depth(&self, pos: u32) -> (r: Option<u32>)
        ensures
            r == self.depth_of(pos),
    {
        let at: usize = pos as usize;
        if at < self.depth_map.len() {
            let slot: u16 = self.depth_map[at];
            if stamped(slot, self.epoch_shifted) {
                return Some(unpack_depth(slot));
            }
        }
        None
    }
}

proof fn lemma_within_grows(g: Seq<Seq<u32>>, start: Seq<u32>, v: int, d: nat, e: nat)
    requires
        within(g, start, v, d),
        d <= e,
    ensures
        within(g, start, v, e),
    decreases e,
{
    if d < e {
        lemma_within_grows(g, start, v, d, (e - 1) as nat);
    }
}

/// How depths go along edges: the seeds inside the graph, and only they, have
/// depth zero; an edge leads at most one deeper; and whatever is deeper than
/// zero is led to by an edge from just one less.
pub proof fn law_depths(g: Seq<Seq<u32>>, start: Seq<u32>, u: int, v: int, k: nat)
    ensures
        is_depth(g, start, v, 0) <==> 0 <= v < g.len() && exists|i: int|
            0 <= i < start.len() && #[trigger] start[i] == v,
        is_depth(g, start, u, k) && links(g, u, v) ==> exists|d: nat|
            d <= k + 1 && #[trigger] is_depth(g, start, v, d),
        is_depth(g, start, v, k) && k > 0 ==> exists|w: int| #[trigger]
            links(g, w, v) && is_depth(g, start, w, (k - 1) as nat),
{
    if is_depth(g, start, u, k) && links(g, u, v) {
        assert(within(g, start, v, k + 1));
        lemma_least_depth(g, start, v, k + 1);
    }
    if is_depth(g, start, v, k) && k > 0 {
        let j = (k - 1) as nat;
        assert(!within(g, start, v, j));
        let w = choose|w: int| within(g, start, w, j) && #[trigger] links(g, w, v);
        assert forall|d: nat| d < j implies !#[trigger] within(g, start, w, d) by {
            if within(g, start, w, d) {
                assert(within(g, start, v, d + 1));
                lemma_within_grows(g, start, v, d + 1, j);
            }
        }
        assert(is_depth(g, start, w, j));
    }
}

proof fn lemma_least_depth(g: Seq<Seq<u32>>, start: Seq<u32>, v: int, e: nat)
    requires
        within(g, start, v, e),
    ensures
        exists|d: nat| d <= e && #[trigger] is_depth(g, start, v, d),
    decreases e,
{
    if forall|d: nat| d < e ==> !#[trigger] within(g, start, v, d) {
        assert(is_depth(g, start, v, e));
    } else {
        let d = choose|d: nat| d < e && #[trigger] within(g, start, v, d);
        lemma_least_depth(g, start, v, d);
    }
}

} // verus!
