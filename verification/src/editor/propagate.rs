//! Carry an edit through the decoded output: write a byte to everything copied
//! from it, and keep track of the image rows that changed.

use vstd::prelude::*;

use super::edit::ByteWrite;
use crate::deflate::events::{Event, LitEvent, RefEvent};
use crate::deflate::replay_law::{ev_len, ev_pos};
use crate::index::forest::{
    copied, descends, descends_from_event, lemma_copies_distinct, lemma_edge_is_parent, lemma_owner,
    lemma_owner_is, lemma_redirect_plays, lemma_same_owner, lemma_swap_plays, lemma_with_source,
    lemma_with_symbol, owner_event, parent, plays, same_places, stream_shape, with_source,
    with_symbol,
};
use crate::index::pos_to_ev::{covers, event_at, lemma_tiled_order, owner};
use crate::index::reverse_graph::{
    build_reverse_graph, copies_of, copy_graph, ref_bytes, ReverseGraph,
};
use crate::png::chunks::PngInfo;

verus! {

/// Tracks which rows had any byte change during one edit, for the
/// row-scoped re-render afterwards. Bundles `touched` (per-row flag),
/// `first_affected` (lowest touched row, drives the row-scoped unfilter
/// loop's start position), and the row stride needed to classify a byte
/// position.
pub struct RowTracker {
    pub touched: Vec<bool>,
    pub first_affected: usize,
    pub row_stride: usize,
}

impl RowTracker {
    /// `first_affected` is the lowest touched row.
    pub open spec fn wf(&self) -> bool {
        &&& self.row_stride > 0
        &&& self.first_affected == usize::MAX || (self.first_affected < self.touched@.len()
            && self.touched@[self.first_affected as int])
        &&& forall|y: int|
            0 <= y < self.touched@.len() && #[trigger] self.touched@[y] ==> self.first_affected <= y
    }

    pub fn new(info: &PngInfo) -> (r: Self)
        requires
            info.row_stride > 0,
            info.height <= usize::MAX,
        ensures
            r.wf(),
            r.row_stride == info.row_stride,
            r.touched@ == Seq::new(info.height as nat, |y: int| false),
            r.first_affected == usize::MAX,
    {
        let mut touched: Vec<bool> = Vec::new();
        touched.resize(info.height as usize, false);
        assert(touched@ =~= Seq::new(info.height as nat, |y: int| false));
        RowTracker { touched, first_affected: usize::MAX, row_stride: info.row_stride }
    }

    /// Mark the row containing byte offset `pos` as touched and update
    /// `first_affected` so the re-render knows where to start.
    pub fn mark(&mut self, pos: usize)
        requires
            old(self).wf(),
        ensures
            final(self).wf(),
            final(self).row_stride == old(self).row_stride,
            final(self).touched@ == marked(
                old(self).touched@,
                pos as int / old(self).row_stride as int,
            ),
    {
        let row: usize = pos / self.row_stride;
        if row < self.touched.len() && !self.touched[row] {
            self.touched[row] = true;
            if row < self.first_affected {
                self.first_affected = row;
            }
        }
        assert(self.touched@ =~= marked(
            old(self).touched@,
            pos as int / old(self).row_stride as int,
        ));
    }
}

/// The flags with row `row` set, if there is one.
pub open spec fn marked(touched: Seq<bool>, row: int) -> Seq<bool> {
    if 0 <= row < touched.len() {
        touched.update(row, true)
    } else {
        touched
    }
}

/// `x` is in the list.
spec fn listed(s: Seq<u32>, x: int) -> bool {
    exists|i: int| 0 <= i < s.len() && #[trigger] s[i] == x
}

/// The walk so far: `seen` holds every byte pushed, `stack` those still to
/// expand.
spec fn walk(events: Seq<Event>, n: int, root: int, seen: Seq<u32>, stack: Seq<u32>) -> bool {
    &&& seen.no_duplicates()
    &&& stack.no_duplicates()
    &&& forall|i: int| 0 <= i < seen.len() ==> root <= (#[trigger] seen[i]) < n
    &&& listed(seen, root)
    &&& forall|i: int| 0 <= i < stack.len() ==> listed(seen, (#[trigger] stack[i]) as int)
    &&& forall|x: int|
        #[trigger] listed(seen, x) && x != root ==> parent(events, x) is Some && listed(
            seen,
            parent(events, x)->0,
        ) && !listed(stack, parent(events, x)->0)
    &&& forall|x: int, t: int|
        #![trigger listed(seen, x), listed(seen, t)]
        listed(seen, x) && !listed(stack, x) && 0 <= t < n && parent(events, t) == Some(x) ==> listed(
            seen,
            t,
        )
}

/// The bytes with every seen one but the root set to `b`.
spec fn written(out: Seq<u8>, seen: Seq<u32>, root: int, b: u8) -> Seq<u8> {
    Seq::new(
        out.len(),
        |p: int|
            if p != root && listed(seen, p) {
                b
            } else {
                out[p]
            },
    )
}

/// The rows with every seen byte's but the root's marked.
spec fn rows_marked(
    touched: Seq<bool>,
    now: Seq<bool>,
    seen: Seq<u32>,
    root: int,
    stride: int,
) -> bool {
    &&& now.len() == touched.len()
    &&& forall|y: int|
        0 <= y < now.len() ==> (#[trigger] now[y] <==> touched[y] || exists|p: int|
            p != root && #[trigger] listed(seen, p) && p / stride == y)
}

proof fn lemma_seen_fits(seen: Seq<u32>, n: int)
    requires
        0 <= n,
        seen.no_duplicates(),
        forall|i: int| 0 <= i < seen.len() ==> 0 <= (#[trigger] seen[i]) < n,
    ensures
        seen.len() <= n,
{
    let all = seen.map_values(|v: u32| v as int);
    assert(all.no_duplicates());
    all.unique_seq_to_set();
    vstd::set_lib::lemma_int_range(0, n);
    let range = vstd::set_lib::set_int_range(0, n);
    assert forall|v: int| all.to_set().contains(v) implies range.contains(v) by {
        let i = choose|i: int| 0 <= i < all.len() && all[i] == v;
        assert(0 <= seen[i] < n);
    }
    vstd::set_lib::lemma_len_subset(all.to_set(), range);
}

/// What has been seen when nothing is left to expand is what descends from the
/// root.
proof fn lemma_walk_done(
    events: Seq<Event>,
    n: int,
    root: int,
    seen: Seq<u32>,
    stack: Seq<u32>,
    p: int,
)
    requires
        stream_shape(events, n),
        walk(events, n, root, seen, stack),
        stack.len() == 0,
        0 <= p < n,
        0 <= root < n,
    ensures
        listed(seen, p) == descends(events, p, root),
    decreases p,
{
    lemma_owner(events, n, p);
    if p != root {
        if let Some(s) = parent(events, p) {
            lemma_walk_done(events, n, root, seen, stack, s);
            if descends(events, p, root) {
                assert(listed(seen, s) && !listed(stack, s));
                assert(listed(seen, p) || !listed(seen, p));
            }
        }
    }
}

/// Walk the LZ77 reverse graph from `out_pos`, writing `new_byte` into every
/// descendant byte. The caller owns `stack` so it can be reused across several
/// seed positions in the same edit (each invocation clears it first), and `rows`
/// accumulates the set of rows touched across the entire edit.
///
/// The walk needs no seen-set: LZ77 is a forest, so each byte is reached
/// exactly once whatever the order.
pub fn propagate_lz77(
    reverse_graph: &ReverseGraph,
    events: &[Event],
    out_pos: usize,
    new_byte: u8,
    output: &mut Vec<u8>,
    stack: &mut Vec<u32>,
    rows: &mut RowTracker,
)
    requires
        reverse_graph.wf(),
        stream_shape(events@, old(output)@.len() as int),
        old(output)@.len() <= u32::MAX,
        reverse_graph@ == copy_graph(events@, old(output)@.len()),
        out_pos < old(output)@.len(),
        old(rows).wf(),
    ensures
        final(output)@ == spread(events@, old(output)@, out_pos as int, new_byte),
        final(rows).wf(),
        final(rows).row_stride == old(rows).row_stride,
        spread_rows(
            events@,
            old(output)@.len() as int,
            old(rows).touched@,
            final(rows).touched@,
            out_pos as int,
            old(rows).row_stride as int,
        ),
{
    let ghost n = output@.len() as int;
    let ghost before = output@;
    let ghost touched0 = rows.touched@;
    let ghost root = out_pos as int;
    let ghost stride = rows.row_stride as int;
    stack.clear();
    stack.push(out_pos as u32);
    let ghost mut seen: Seq<u32> = seq![out_pos as u32];
    proof {
        lemma_tiled_order(events@, n);
        assert(seen[0] == root && stack@[0] == root);
        assert(listed(seen, root));
        assert forall|x: int| #[trigger] listed(seen, x) implies x == root by {}
        assert(listed(stack@, root));
        assert(output@ =~= written(before, seen, root, new_byte));
    }
    while stack.len() > 0
        invariant
            reverse_graph.wf(),
            stream_shape(events@, n),
            0 <= root < n <= u32::MAX,
            n == before.len(),
            reverse_graph@ == copy_graph(events@, n as nat),
            walk(events@, n, root, seen, stack@),
            output@ == written(before, seen, root, new_byte),
            rows.wf(),
            rows.row_stride == stride,
            rows_marked(touched0, rows.touched@, seen, root, stride),
        decreases n - seen.len() + stack@.len(),
    {
        let ghost stack0 = stack@;
        let ghost seen0 = seen;
        let pos: u32 = match stack.pop() {
            Some(p) => p,
            None => 0,
        };
        proof {
            assert(stack0[stack0.len() - 1] == pos);
            assert(listed(seen0, pos as int));
            assert(listed(stack0, pos as int));
            lemma_copies_distinct_tiled(events@, n, pos as int);
            assert(reverse_graph@[pos as int] == copies_of(events@, pos as int));
        }
        let ghost stack1 = stack@;
        let next: &[u32] = reverse_graph.neighbors(pos);
        let mut e: usize = 0;
        while e < next.len()
            invariant
                e <= next@.len(),
                stream_shape(events@, n),
                0 <= root < n <= u32::MAX,
                n == before.len(),
                0 <= pos < n,
                next@ == copies_of(events@, pos as int),
                next@.no_duplicates(),
                walk(events@, n, root, seen0, stack0),
                stack0.len() > 0,
                stack0.last() == pos,
                stack1 == stack0.drop_last(),
                listed(seen0, pos as int),
                listed(stack0, pos as int),
                seen == seen0 + next@.take(e as int),
                stack@ == stack1 + next@.take(e as int),
                forall|i: int|
                    0 <= i < e ==> (#[trigger] next@[i]) < n && parent(events@, next@[i] as int)
                        == Some(pos as int) && !listed(seen0, next@[i] as int),
                output@ == written(before, seen, root, new_byte),
                rows.wf(),
                rows.row_stride == stride,
                rows_marked(touched0, rows.touched@, seen, root, stride),
            decreases next@.len() - e,
        {
            let dst: u32 = next[e];
            let di: usize = dst as usize;
            let ghost seen1 = seen;
            let ghost rows1 = rows.touched@;
            proof {
                assert(copies_of(events@, pos as int).contains(dst));
                lemma_edge_is_parent(events@, n, pos as int, dst);
                lemma_owner(events@, n, dst as int);
                assert(pos < dst);
                if listed(seen0, dst as int) {
                    let i = choose|i: int| 0 <= i < seen0.len() && #[trigger] seen0[i] == pos;
                    assert(root <= seen0[i]);
                    assert(dst != root);
                    assert(!listed(stack0, parent(events@, dst as int)->0));
                }
                assert(!listed(seen0, dst as int));
            }
            output[di] = new_byte;
            rows.mark(di);
            stack.push(dst);
            proof {
                seen = seen.push(dst);
                assert(next@.take(e + 1) =~= next@.take(e as int).push(dst));
                assert(seen =~= seen0 + next@.take(e + 1));
                assert(stack@ =~= stack1 + next@.take(e + 1));
                lemma_listed_push(seen1, dst);
                let i = choose|i: int| 0 <= i < seen0.len() && #[trigger] seen0[i] == pos;
                assert(root <= seen0[i]);
                assert(dst != root);
                assert(output@ =~= written(before, seen, root, new_byte));
                assert forall|y: int| 0 <= y < rows.touched@.len() implies (
                #[trigger] rows.touched@[y] <==> touched0[y] || exists|p: int|
                    p != root && #[trigger] listed(seen, p) && p / stride == y) by {
                    assert(rows1[y] <==> touched0[y] || exists|p: int|
                        p != root && #[trigger] listed(seen1, p) && p / stride == y);
                    if dst as int / stride == y {
                        assert(listed(seen, dst as int));
                    }
                    if rows1[y] && !touched0[y] {
                        let p = choose|p: int|
                            p != root && #[trigger] listed(seen1, p) && p / stride == y;
                        assert(listed(seen, p));
                    }
                    if exists|p: int| p != root && #[trigger] listed(seen, p) && p / stride == y {
                        let p = choose|p: int|
                            p != root && #[trigger] listed(seen, p) && p / stride == y;
                        if p != dst {
                            assert(listed(seen1, p));
                        }
                    }
                }
            }
            e = e + 1;
        }
        proof {
            assert(next@.take(e as int) =~= next@);
            lemma_walk_step(events@, n, root, seen0, stack0, next@);
            lemma_seen_fits(seen, n);
        }
    }
    proof {
        assert forall|p: int| 0 <= p < n implies #[trigger] listed(seen, p) == descends(
            events@,
            p,
            root,
        ) by {
            lemma_walk_done(events@, n, root, seen, stack@, p);
        }
        assert(output@ =~= spread(events@, before, root, new_byte)) by {
            assert forall|p: int| 0 <= p < n implies output@[p] == #[trigger] spread(
                events@,
                before,
                root,
                new_byte,
            )[p] by {
                assert(listed(seen, p) == descends(events@, p, root));
            }
        }
        assert forall|y: int| 0 <= y < rows.touched@.len() implies (#[trigger] rows.touched@[y]
            <==> touched0[y] || row_spread(events@, n, root, stride, y)) by {
            if exists|p: int| p != root && #[trigger] listed(seen, p) && p / stride == y {
                let p = choose|p: int| p != root && #[trigger] listed(seen, p) && p / stride == y;
                let i = choose|i: int| 0 <= i < seen.len() && #[trigger] seen[i] == p;
                assert(root <= seen[i] < n);
                assert(descends(events@, p, root));
            }
            if row_spread(events@, n, root, stride, y) {
                let p = choose|p: int|
                    0 <= p < n && p != root && #[trigger] descends(events@, p, root) && p / stride
                        == y;
                assert(listed(seen, p));
            }
        }
    }
}

/// The output with `b` written to all that descends from `root`, but not to
/// `root` itself.
pub open spec fn spread(events: Seq<Event>, out: Seq<u8>, root: int, b: u8) -> Seq<u8> {
    Seq::new(
        out.len(),
        |p: int|
            if p != root && descends(events, p, root) {
                b
            } else {
                out[p]
            },
    )
}

/// Something that descends from `root` lies in row `y`.
pub open spec fn row_spread(events: Seq<Event>, n: int, root: int, stride: int, y: int) -> bool {
    exists|p: int|
        0 <= p < n && p != root && #[trigger] descends(events, p, root) && p / stride == y
}

/// The rows of all that descends from `root` are marked, and no others.
pub open spec fn spread_rows(
    events: Seq<Event>,
    n: int,
    before: Seq<bool>,
    after: Seq<bool>,
    root: int,
    stride: int,
) -> bool {
    &&& after.len() == before.len()
    &&& forall|y: int|
        0 <= y < after.len() ==> (#[trigger] after[y] <==> before[y] || row_spread(
            events,
            n,
            root,
            stride,
            y,
        ))
}

proof fn lemma_listed_push(s: Seq<u32>, x: u32)
    ensures
        forall|y: int| #[trigger] listed(s.push(x), y) <==> listed(s, y) || y == x,
{
    assert forall|y: int| #[trigger] listed(s.push(x), y) <==> listed(s, y) || y == x by {
        if listed(s, y) {
            let i = choose|i: int| 0 <= i < s.len() && #[trigger] s[i] == y;
            assert(s.push(x)[i] == y);
        }
        if y == x {
            assert(s.push(x)[s.len() as int] == y);
        }
        if listed(s.push(x), y) && y != x {
            let i = choose|i: int| 0 <= i < s.push(x).len() && #[trigger] s.push(x)[i] == y;
            assert(s[i] == y);
        }
    }
}

proof fn lemma_listed_add(s: Seq<u32>, t: Seq<u32>)
    ensures
        forall|y: int| #[trigger] listed(s + t, y) <==> listed(s, y) || listed(t, y),
{
    assert forall|y: int| #[trigger] listed(s + t, y) <==> listed(s, y) || listed(t, y) by {
        if listed(s, y) {
            let i = choose|i: int| 0 <= i < s.len() && #[trigger] s[i] == y;
            assert((s + t)[i] == y);
        }
        if listed(t, y) {
            let i = choose|i: int| 0 <= i < t.len() && #[trigger] t[i] == y;
            assert((s + t)[s.len() + i] == y);
        }
        if listed(s + t, y) {
            let i = choose|i: int| 0 <= i < (s + t).len() && #[trigger] (s + t)[i] == y;
            if i < s.len() {
                assert(s[i] == y);
            } else {
                assert(t[i - s.len()] == y);
            }
        }
    }
}

proof fn lemma_copies_distinct_tiled(events: Seq<Event>, n: int, s: int)
    requires
        stream_shape(events, n),
        n <= u32::MAX,
    ensures
        copies_of(events, s).no_duplicates(),
{
    lemma_tiled_order(events, n);
    lemma_copies_distinct(events, n, s);
}

/// Expanding the byte on top of the stack keeps the walk in order.
proof fn lemma_walk_step(
    events: Seq<Event>,
    n: int,
    root: int,
    seen: Seq<u32>,
    stack: Seq<u32>,
    next: Seq<u32>,
)
    requires
        stream_shape(events, n),
        0 <= root < n <= u32::MAX,
        walk(events, n, root, seen, stack),
        stack.len() > 0,
        next == copies_of(events, stack.last() as int),
        next.no_duplicates(),
        forall|i: int|
            0 <= i < next.len() ==> (#[trigger] next[i]) < n && parent(events, next[i] as int)
                == Some(stack.last() as int) && !listed(seen, next[i] as int),
    ensures
        walk(events, n, root, seen + next, stack.drop_last() + next),
{
    let pos = stack.last();
    let seen2 = seen + next;
    let stack1 = stack.drop_last();
    let stack2 = stack1 + next;
    assert(stack[stack.len() - 1] == pos);
    assert(listed(seen, pos as int));
    lemma_listed_add(seen, next);
    lemma_listed_add(stack1, next);
    let at = choose|i: int| 0 <= i < seen.len() && #[trigger] seen[i] == pos;
    assert(root <= seen[at] < n);
    assert(listed(seen2, root));
    assert forall|i: int| 0 <= i < next.len() implies root <= (#[trigger] next[i]) < n by {
        lemma_owner(events, n, next[i] as int);
    }
    assert forall|i: int| 0 <= i < seen2.len() implies root <= (#[trigger] seen2[i]) < n by {
        if i < seen.len() {
            assert(seen2[i] == seen[i]);
        } else {
            assert(seen2[i] == next[i - seen.len()]);
        }
    }
    assert(seen2.no_duplicates()) by {
        assert forall|i: int, j: int|
            0 <= i < seen2.len() && 0 <= j < seen2.len() && i != j implies seen2[i] != seen2[j] by {
            if i < seen.len() && j >= seen.len() {
                assert(!listed(seen, next[j - seen.len()] as int));
                assert(seen[i] == seen2[i]);
            }
            if j < seen.len() && i >= seen.len() {
                assert(!listed(seen, next[i - seen.len()] as int));
                assert(seen[j] == seen2[j]);
            }
        }
    }
    assert forall|y: int| #[trigger] listed(stack1, y) implies listed(stack, y) && listed(seen, y) by {
        let i = choose|i: int| 0 <= i < stack1.len() && #[trigger] stack1[i] == y;
        assert(stack[i] == y);
        assert(listed(seen, stack[i] as int));
    }
    assert(!listed(stack1, pos as int)) by {
        if listed(stack1, pos as int) {
            let i = choose|i: int| 0 <= i < stack1.len() && #[trigger] stack1[i] == pos;
            assert(stack[i] == stack[stack.len() - 1]);
        }
    }
    assert(stack2.no_duplicates()) by {
        assert forall|i: int, j: int|
            0 <= i < stack2.len() && 0 <= j < stack2.len() && i != j implies stack2[i]
            != stack2[j] by {
            if i < stack1.len() && j >= stack1.len() {
                assert(!listed(seen, next[j - stack1.len()] as int));
                assert(stack1[i] == stack2[i]);
                assert(listed(stack1, stack1[i] as int));
            }
            if j < stack1.len() && i >= stack1.len() {
                assert(!listed(seen, next[i - stack1.len()] as int));
                assert(stack1[j] == stack2[j]);
                assert(listed(stack1, stack1[j] as int));
            }
            if i < stack1.len() && j < stack1.len() {
                assert(stack[i] != stack[j]);
            }
        }
    }
    assert forall|i: int| 0 <= i < stack2.len() implies listed(
        seen2,
        (#[trigger] stack2[i]) as int,
    ) by {
        if i < stack1.len() {
            assert(listed(stack1, stack1[i] as int));
        } else {
            assert(listed(next, next[i - stack1.len()] as int));
        }
    }
    assert forall|x: int| #[trigger] listed(next, x) implies 0 <= x < n && !listed(seen, x) && parent(
        events,
        x,
    ) == Some(pos as int) by {
        let i = choose|i: int| 0 <= i < next.len() && #[trigger] next[i] == x;
        assert(next[i] < n);
    }
    assert forall|x: int| #[trigger] listed(seen2, x) && x != root implies parent(events, x) is Some
        && listed(seen2, parent(events, x)->0) && !listed(stack2, parent(events, x)->0) by {
        if listed(seen, x) {
            let s = parent(events, x)->0;
            assert(listed(seen, s) && !listed(stack, s));
        } else {
            assert(listed(next, x));
        }
    }
    assert forall|x: int, t: int|
        #![trigger listed(seen2, x), listed(seen2, t)]
        listed(seen2, x) && !listed(stack2, x) && 0 <= t < n && parent(events, t) == Some(x) implies listed(
        seen2,
        t,
    ) by {
        if x == pos {
            lemma_edge_is_parent(events, n, pos as int, t as u32);
            let i = choose|i: int| 0 <= i < next.len() && next[i] == t as u32;
            assert(listed(next, t));
        } else {
            if listed(next, x) {
                assert(listed(stack2, x));
            }
            assert(listed(seen, x));
            if listed(stack, x) {
                let i = choose|i: int| 0 <= i < stack.len() && #[trigger] stack[i] == x;
                assert(i < stack1.len());
                assert(stack1[i] == x);
                assert(listed(stack1, x));
            }
            assert(listed(seen, t) || !listed(seen, t));
        }
    }
}

// Literal swaps.

/// The event list with one literal swapped: the one that wrote `u.out_pos`.
pub open spec fn swap_one(events: Seq<Event>, u: ByteWrite) -> Seq<Event> {
    with_symbol(events, owner(events, u.out_pos as int)->0, u.value)
}

/// The event list with all of `updates` made, in order.
pub open spec fn swap_all(events: Seq<Event>, updates: Seq<ByteWrite>) -> Seq<Event>
    decreases updates.len(),
{
    if updates.len() == 0 {
        events
    } else {
        swap_one(swap_all(events, updates.drop_last()), updates.last())
    }
}

/// Every update names a byte that a literal wrote.
pub open spec fn swaps_ok(events: Seq<Event>, n: int, updates: Seq<ByteWrite>) -> bool {
    forall|i: int|
        0 <= i < updates.len() ==> (#[trigger] updates[i]).out_pos < n && owner_event(
            events,
            updates[i].out_pos as int,
        ) is Lit
}

/// Row `y` holds an updated byte, or one that descends from it.
pub open spec fn row_swapped(
    events: Seq<Event>,
    n: int,
    updates: Seq<ByteWrite>,
    stride: int,
    y: int,
) -> bool {
    exists|i: int, p: int|
        0 <= i < updates.len() && 0 <= p < n && #[trigger] descends(
            events,
            p,
            (#[trigger] updates[i]).out_pos as int,
        ) && p / stride == y
}

/// Swapping literals moves no event.
pub proof fn lemma_swap_all(events: Seq<Event>, n: int, updates: Seq<ByteWrite>)
    requires
        stream_shape(events, n),
        swaps_ok(events, n, updates),
    ensures
        stream_shape(swap_all(events, updates), n),
        same_places(events, swap_all(events, updates)),
        forall|m: nat| #[trigger]
            copy_graph(swap_all(events, updates), m) == copy_graph(events, m),
        forall|p: int|
            0 <= p < n ==> #[trigger] owner(swap_all(events, updates), p) == owner(events, p),
        forall|k: int|
            0 <= k < events.len() ==> (#[trigger] swap_all(events, updates)[k] is Lit <==> events[k]
                is Lit),
        forall|k: int|
            0 <= k < events.len() && events[k] is Ref ==> #[trigger] swap_all(events, updates)[k]
                == events[k],
    decreases updates.len(),
{
    if updates.len() > 0 {
        let front = updates.drop_last();
        let u = updates.last();
        assert(updates[updates.len() - 1] == u);
        assert(swaps_ok(events, n, front)) by {
            assert forall|i: int| 0 <= i < front.len() implies (#[trigger] front[i]).out_pos < n
                && owner_event(events, front[i].out_pos as int) is Lit by {
                assert(updates[i] == front[i]);
            }
        }
        lemma_swap_all(events, n, front);
        let mid = swap_all(events, front);
        let k = owner(mid, u.out_pos as int)->0;
        lemma_owner(events, n, u.out_pos as int);
        assert(owner(mid, u.out_pos as int) == owner(events, u.out_pos as int));
        assert(mid[k] is Lit);
        lemma_with_symbol(mid, n, k, u.value);
        let now = swap_all(events, updates);
        assert(now == with_symbol(mid, k, u.value));
        assert forall|p: int| 0 <= p < n implies #[trigger] owner(now, p) == owner(events, p) by {
            lemma_same_owner(mid, now, n, p);
            assert(owner(mid, p) == owner(events, p));
        }
        assert forall|i: int| 0 <= i < events.len() implies ev_pos(#[trigger] events[i]) == ev_pos(
            now[i],
        ) && ev_len(events[i]) == ev_len(now[i]) by {
            assert(ev_pos(mid[i]) == ev_pos(now[i]));
        }
        assert forall|m: nat| #[trigger] copy_graph(now, m) == copy_graph(events, m) by {
            assert(copy_graph(mid, m) == copy_graph(events, m));
        }
        assert forall|i: int| 0 <= i < events.len() implies (#[trigger] now[i] is Lit <==> events[i]
            is Lit) by {
            assert(mid[i] is Lit <==> events[i] is Lit);
        }
        assert forall|i: int| 0 <= i < events.len() && events[i] is Ref implies #[trigger] now[i]
            == events[i] by {
            assert(mid[i] == events[i]);
        }
    }
}

/// Who descends from whom rests on places and sources alone.
pub proof fn lemma_same_descent(a: Seq<Event>, b: Seq<Event>, n: int, p: int, root: int)
    requires
        stream_shape(a, n),
        stream_shape(b, n),
        same_places(a, b),
        forall|k: int|
            0 <= k < a.len() ==> (#[trigger] a[k] == b[k] || (a[k] is Lit && b[k] is Lit)),
        0 <= p < n,
    ensures
        descends(a, p, root) == descends(b, p, root),
    decreases p,
{
    lemma_owner(a, n, p);
    lemma_same_owner(a, b, n, p);
    let k = owner(a, p)->0;
    assert(a[k] == b[k] || (a[k] is Lit && b[k] is Lit));
    if let Some(s) = parent(a, p) {
        lemma_same_descent(a, b, n, s, root);
    }
}

/// Apply a literal swap to the decoded stream. For each patched channel: write
/// the new byte at its `out_pos`, keep the originating literal's `symbol` in
/// sync, and write the same byte at every descendant. `rows` gains the rows the
/// propagation touched.
///
/// LZ77 topology is unchanged, so the graph stays valid.
#[verifier::rlimit(40)]
pub fn swap_literals(
    byte_updates: &[ByteWrite],
    reverse_graph: &ReverseGraph,
    events: &mut Vec<Event>,
    output: &mut Vec<u8>,
    rows: &mut RowTracker,
)
    requires
        reverse_graph.wf(),
        stream_shape(old(events)@, old(output)@.len() as int),
        plays(old(events)@, old(output)@),
        old(output)@.len() <= u32::MAX,
        old(events)@.len() <= u32::MAX,
        reverse_graph@ == copy_graph(old(events)@, old(output)@.len()),
        swaps_ok(old(events)@, old(output)@.len() as int, byte_updates@),
        old(rows).wf(),
    ensures
        final(events)@ == swap_all(old(events)@, byte_updates@),
        final(output)@.len() == old(output)@.len(),
        plays(final(events)@, final(output)@),
        final(rows).wf(),
        final(rows).row_stride == old(rows).row_stride,
        final(rows).touched@.len() == old(rows).touched@.len(),
        forall|y: int|
            0 <= y < final(rows).touched@.len() ==> (#[trigger] final(rows).touched@[y] <==> old(
                rows,
            ).touched@[y] || row_swapped(
                old(events)@,
                old(output)@.len() as int,
                byte_updates@,
                old(rows).row_stride as int,
                y,
            )),
        forall|p: int|
            0 <= p < old(output)@.len() && (forall|i: int|
                0 <= i < byte_updates@.len() ==> !descends(
                    old(events)@,
                    p,
                    (#[trigger] byte_updates@[i]).out_pos as int,
                )) ==> #[trigger] final(output)@[p] == old(output)@[p],
{
    let ghost ev0 = events@;
    let ghost out0 = output@;
    let ghost n = output@.len() as int;
    let ghost rows0 = rows.touched@;
    let ghost stride = rows.row_stride as int;
    // Stack, not queue. Traversal order doesn't matter: every visited byte
    // takes the same write.
    let mut stack: Vec<u32> = Vec::new();
    let mut i: usize = 0;
    assert(byte_updates@.take(0) =~= Seq::<ByteWrite>::empty());
    while i < byte_updates.len()
        invariant
            i <= byte_updates@.len(),
            reverse_graph.wf(),
            stream_shape(ev0, n),
            n <= u32::MAX,
            ev0.len() <= u32::MAX,
            n == out0.len(),
            output@.len() == n,
            reverse_graph@ == copy_graph(ev0, n as nat),
            swaps_ok(ev0, n, byte_updates@),
            events@ == swap_all(ev0, byte_updates@.take(i as int)),
            plays(events@, output@),
            rows.wf(),
            rows.row_stride == stride,
            stride > 0,
            rows.touched@.len() == rows0.len(),
            forall|y: int|
                0 <= y < rows.touched@.len() ==> (#[trigger] rows.touched@[y] <==> rows0[y]
                    || row_swapped(ev0, n, byte_updates@.take(i as int), stride, y)),
            forall|p: int|
                0 <= p < n && (forall|j: int|
                    0 <= j < i ==> !descends(
                        ev0,
                        p,
                        (#[trigger] byte_updates@[j]).out_pos as int,
                    )) ==> #[trigger] output@[p] == out0[p],
        decreases byte_updates@.len() - i,
    {
        let u: ByteWrite = byte_updates[i];
        let pos: usize = u.out_pos as usize;
        let ghost done = byte_updates@.take(i as int);
        let ghost mid = events@;
        let ghost out1 = output@;
        let ghost rows1 = rows.touched@;
        proof {
            assert(swaps_ok(ev0, n, done)) by {
                assert forall|j: int| 0 <= j < done.len() implies (#[trigger] done[j]).out_pos < n
                    && owner_event(ev0, done[j].out_pos as int) is Lit by {
                    assert(byte_updates@[j] == done[j]);
                }
            }
            lemma_swap_all(ev0, n, done);
            lemma_tiled_order(mid, n);
            assert(byte_updates@[i as int] == u);
            lemma_owner(ev0, n, pos as int);
            lemma_owner(mid, n, pos as int);
            assert(owner(mid, pos as int) == owner(ev0, pos as int));
        }
        let ev_idx: u32 = match event_at(events.as_slice(), pos) {
            Some(k) => k,
            None => 0,
        };
        assert(owner(mid, pos as int) == Some(ev_idx as int));
        assert(mid[ev_idx as int] is Lit);
        let e: Event = events[ev_idx as usize];
        if let Event::Lit(lit) = e {
            let swapped: LitEvent = LitEvent {
                out_pos: lit.out_pos,
                bit_start: lit.bit_start,
                symbol: u.value,
            };
            events[ev_idx as usize] = Event::Lit(swapped);
            assert(events@ =~= with_symbol(mid, ev_idx as int, u.value));
        }
        proof {
            lemma_with_symbol(mid, n, ev_idx as int, u.value);
            assert(copy_graph(events@, n as nat) == copy_graph(mid, n as nat));
            assert(copy_graph(mid, n as nat) == copy_graph(ev0, n as nat));
            assert(byte_updates@.take(i + 1).drop_last() =~= done);
            assert(byte_updates@.take(i + 1).last() == u);
        }
        output[pos] = u.value;
        rows.mark(pos);
        let ghost rows2 = rows.touched@;
        let ghost out2 = output@;
        propagate_lz77(
            reverse_graph,
            events.as_slice(),
            pos,
            u.value,
            output,
            &mut stack,
            rows,
        );
        proof {
            let now = events@;
            assert(covers(mid[ev_idx as int], pos as int));
            assert(ev_pos(mid[ev_idx as int]) == pos);
            assert forall|p: int| 0 <= p < n implies descends(now, p, pos as int) == descends(
                mid,
                p,
                pos as int,
            ) && descends(ev0, p, pos as int) == descends(mid, p, pos as int) by {
                lemma_same_descent(mid, now, n, p, pos as int);
                lemma_same_descent(ev0, mid, n, p, pos as int);
            }
            assert forall|p: int| 0 <= p < n implies #[trigger] output@[p] == (if descends(
                mid,
                p,
                ev_pos(mid[ev_idx as int]),
            ) {
                u.value
            } else {
                out1[p]
            }) by {
                assert(output@[p] == spread(now, out2, pos as int, u.value)[p]);
                assert(descends(now, p, pos as int) == descends(mid, p, pos as int));
            }
            lemma_swap_plays(mid, out1, ev_idx as int, u.value, output@);
            let longer = byte_updates@.take(i + 1);
            assert forall|y: int| 0 <= y < rows.touched@.len() implies (#[trigger] rows.touched@[y]
                <==> rows0[y] || row_swapped(ev0, n, longer, stride, y)) by {
                assert(rows1[y] <==> rows0[y] || row_swapped(ev0, n, done, stride, y));
                assert(rows.touched@[y] <==> rows2[y] || row_spread(now, n, pos as int, stride, y));
                assert(rows2[y] <==> rows1[y] || pos as int / stride == y);
                if row_swapped(ev0, n, done, stride, y) {
                    let (j, p) = choose|j: int, p: int|
                        0 <= j < done.len() && 0 <= p < n && #[trigger] descends(
                            ev0,
                            p,
                            (#[trigger] done[j]).out_pos as int,
                        ) && p / stride == y;
                    assert(longer[j] == done[j]);
                    assert(descends(ev0, p, longer[j].out_pos as int));
                }
                if pos as int / stride == y {
                    assert(descends(ev0, pos as int, longer[i as int].out_pos as int));
                }
                if row_spread(now, n, pos as int, stride, y) {
                    let p = choose|p: int|
                        0 <= p < n && p != pos && #[trigger] descends(now, p, pos as int) && p
                            / stride == y;
                    assert(descends(ev0, p, longer[i as int].out_pos as int));
                }
                if row_swapped(ev0, n, longer, stride, y) {
                    let (j, p) = choose|j: int, p: int|
                        0 <= j < longer.len() && 0 <= p < n && #[trigger] descends(
                            ev0,
                            p,
                            (#[trigger] longer[j]).out_pos as int,
                        ) && p / stride == y;
                    if j < i {
                        assert(done[j] == longer[j]);
                        assert(descends(ev0, p, done[j].out_pos as int));
                        assert(row_swapped(ev0, n, done, stride, y));
                    } else if p != pos {
                        assert(descends(now, p, pos as int));
                    }
                }
            }
            assert forall|p: int|
                0 <= p < n && (forall|j: int|
                    0 <= j < i + 1 ==> !descends(
                        ev0,
                        p,
                        (#[trigger] byte_updates@[j]).out_pos as int,
                    )) implies #[trigger] output@[p] == out0[p] by {
                assert(!descends(ev0, p, byte_updates@[i as int].out_pos as int));
                assert(out1[p] == out0[p]);
            }
        }
        i = i + 1;
    }
    assert(byte_updates@.take(i as int) =~= byte_updates@);
}

// Distance redirects.

/// Row `y` holds a byte that descends from event `e`, its own bytes among them.
pub open spec fn row_redirected(
    events: Seq<Event>,
    n: int,
    e: Event,
    stride: int,
    y: int,
) -> bool {
    exists|p: int|
        0 <= p < n && #[trigger] descends_from_event(events, p, e) && p / stride == y
}

/// Of two bytes that a byte descends from, the later descends from the earlier.
proof fn lemma_descent_chain(events: Seq<Event>, p: int, a: int, b: int)
    requires
        descends(events, p, a),
        descends(events, p, b),
        a <= b,
    ensures
        descends(events, b, a),
    decreases p,
{
    if p != a && p != b {
        let s = parent(events, p)->0;
        lemma_descent_chain(events, s, a, b);
    } else if p == a && p != b {
        lemma_descent_down(events, p, b);
    }
}

proof fn lemma_descent_down(events: Seq<Event>, p: int, root: int)
    requires
        descends(events, p, root),
    ensures
        root <= p,
    decreases p,
{
    if p != root {
        lemma_descent_down(events, parent(events, p)->0, root);
    }
}

/// Inside a reference's own bytes, what descends holds what it descends from.
proof fn lemma_same_inside(
    events: Seq<Event>,
    n: int,
    v: Seq<u8>,
    k: int,
    a: int,
    b: int,
)
    requires
        stream_shape(events, n),
        v.len() == n,
        0 <= k < events.len(),
        events[k] is Ref,
        covers(events[k], a),
        covers(events[k], b),
        descends(events, b, a),
        forall|p: int|
            covers(events[k], p) ==> #[trigger] copied(
                v,
                p,
                ev_pos(events[k]) - events[k]->Ref_0.src_out_pos,
            ),
    ensures
        v[a] == v[b],
    decreases b,
{
    if a != b {
        lemma_owner_is(events, n, b, k);
        let s = parent(events, b)->0;
        lemma_descent_down(events, s, a);
        assert(covers(events[k], s));
        assert(copied(v, b, ev_pos(events[k]) - events[k]->Ref_0.src_out_pos));
        lemma_same_inside(events, n, v, k, a, s);
    }
}

/// Total bytes copied never pass the output.
pub proof fn lemma_ref_bytes_tiled(events: Seq<Event>, n: int)
    requires
        stream_shape(events, n),
    ensures
        ref_bytes(events) <= n,
    decreases events.len(),
{
    if events.len() > 0 {
        crate::index::forest::lemma_tiled_front(events, n);
        lemma_ref_bytes_tiled(events.drop_last(), ev_pos(events.last()));
    }
}

/// Every copy of a decoded stream reads and writes inside the output.
pub proof fn lemma_refs_inside(events: Seq<Event>, n: int)
    requires
        stream_shape(events, n),
        n <= u32::MAX,
    ensures
        ref_bytes(events) <= u32::MAX,
        forall|k: int|
            0 <= k < events.len() ==> (#[trigger] events[k] matches Event::Ref(r) ==> r.src_out_pos
                + r.copy_len <= n && r.out_pos + r.copy_len <= 0x1_0000_0000),
{
    lemma_ref_bytes_tiled(events, n);
    lemma_tiled_order(events, n);
    assert forall|k: int| 0 <= k < events.len() implies (#[trigger] events[k] matches Event::Ref(r)
        ==> r.src_out_pos + r.copy_len <= n && r.out_pos + r.copy_len <= 0x1_0000_0000) by {
        assert(ev_pos(events[k]) + ev_len(events[k]) <= n);
    }
}

/// Apply a distance redirect to the decoded stream.
///
/// Exactly one event's `(src_out_pos, dist_sym)` moves. Steps:
/// 1. Patch the event with the new source and symbol.
/// 2. Rebuild the reverse graph against the patched events. This must happen
///    **before** the walk in step 4: for refs whose source range overlaps their
///    destination, edges land within the destination range, and a stale graph
///    would let the walk overwrite correctly recopied bytes through wrong edges.
/// 3. Recopy the destination span from the new source, forwards, as the decoder
///    does.
/// 4. Propagate the new bytes through the fresh graph to every downstream ref
///    that copies from this destination range.
pub fn redirect_reference(
    ev_idx: u32,
    src_after: u32,
    dist_sym_after: u8,
    reverse_graph: &mut ReverseGraph,
    events: &mut Vec<Event>,
    output: &mut Vec<u8>,
    rows: &mut RowTracker,
)
    requires
        stream_shape(old(events)@, old(output)@.len() as int),
        plays(old(events)@, old(output)@),
        old(output)@.len() <= u32::MAX,
        old(output)@.len() < usize::MAX,
        ev_idx < old(events)@.len(),
        old(events)@[ev_idx as int] is Ref,
        src_after < ev_pos(old(events)@[ev_idx as int]),
        old(rows).wf(),
    ensures
        final(events)@ == with_source(old(events)@, ev_idx as int, src_after, dist_sym_after),
        final(output)@.len() == old(output)@.len(),
        plays(final(events)@, final(output)@),
        final(reverse_graph).wf(),
        final(reverse_graph)@ == copy_graph(final(events)@, old(output)@.len()),
        final(rows).wf(),
        final(rows).row_stride == old(rows).row_stride,
        final(rows).touched@.len() == old(rows).touched@.len(),
        forall|y: int|
            0 <= y < final(rows).touched@.len() ==> (#[trigger] final(rows).touched@[y] <==> old(
                rows,
            ).touched@[y] || row_redirected(
                final(events)@,
                old(output)@.len() as int,
                old(events)@[ev_idx as int],
                old(rows).row_stride as int,
                y,
            )),
        forall|p: int|
            0 <= p < old(output)@.len() && !descends_from_event(
                final(events)@,
                p,
                old(events)@[ev_idx as int],
            ) ==> #[trigger] final(output)@[p] == old(output)@[p],
{
    let ghost ev0 = events@;
    let ghost out0 = output@;
    let ghost n = output@.len() as int;
    let ghost k = ev_idx as int;
    let ghost rows0 = rows.touched@;
    let ghost stride = rows.row_stride as int;
    let e: Event = events[ev_idx as usize];
    let (dst, copy_len): (usize, usize) = match e {
        Event::Ref(r) => {
            let moved: RefEvent = RefEvent {
                out_pos: r.out_pos,
                src_out_pos: src_after,
                dist_bit_start: r.dist_bit_start,
                copy_len: r.copy_len,
                dist_sym: dist_sym_after,
            };
            events[ev_idx as usize] = Event::Ref(moved);
            (r.out_pos as usize, r.copy_len as usize)
        },
        Event::Lit(_) => (0, 0),
    };
    let ghost now = events@;
    proof {
        assert(now =~= with_source(ev0, k, src_after, dist_sym_after));
        lemma_with_source(ev0, n, k, src_after, dist_sym_after);
        lemma_refs_inside(now, n);
        lemma_tiled_order(ev0, n);
        assert(ev_pos(ev0[k]) + ev_len(ev0[k]) <= n);
    }
    let len: usize = output.len();
    *reverse_graph = build_reverse_graph(events.as_slice(), len);

    recopy(output, src_after as usize, dst, copy_len);
    let ghost v = output@;

    let mut stack: Vec<u32> = Vec::new();
    let mut at: usize = 0;
    proof {
        assert(forall|p: int| covers(now[k], p) <==> dst <= p < dst + copy_len);
        assert forall|p: int| covers(now[k], p) implies #[trigger] copied(
            v,
            p,
            ev_pos(now[k]) - now[k]->Ref_0.src_out_pos,
        ) by {
            assert(copied(v, p, dst - src_after));
        }
    }
    while at < copy_len
        invariant
            at <= copy_len,
            stream_shape(now, n),
            events@ == now,
            n <= u32::MAX,
            dst + copy_len <= n,
            output@.len() == n,
            v.len() == n,
            0 <= k < now.len(),
            now[k] is Ref,
            forall|p: int| covers(now[k], p) <==> dst <= p < dst + copy_len,
            forall|p: int|
                covers(now[k], p) ==> #[trigger] copied(
                    v,
                    p,
                    ev_pos(now[k]) - now[k]->Ref_0.src_out_pos,
                ),
            reverse_graph.wf(),
            reverse_graph@ == copy_graph(now, n as nat),
            rows.wf(),
            rows.row_stride == stride,
            stride > 0,
            rows.touched@.len() == rows0.len(),
            forall|y: int|
                0 <= y < rows.touched@.len() ==> (#[trigger] rows.touched@[y] <==> rows0[y]
                    || row_from(now, n, dst as int, dst + at, stride, y)),
            forall|p: int, q: int|
                0 <= p < n && dst <= q < dst + at && #[trigger] descends(now, p, q)
                    ==> #[trigger] output@[p] == v[q],
            forall|p: int|
                0 <= p < n && !from_range(now, p, dst as int, dst + at) ==> #[trigger] output@[p]
                    == v[p],
        decreases copy_len - at,
    {
        let pos: usize = dst + at;
        let ghost out1 = output@;
        let ghost rows1 = rows.touched@;
        proof {
            assert(covers(now[k], pos as int));
            if from_range(now, pos as int, dst as int, dst + at) {
                let q = choose|q: int|
                    dst <= q < dst + at && #[trigger] descends(now, pos as int, q);
                assert(covers(now[k], q));
                lemma_same_inside(now, n, v, k, q, pos as int);
            }
            assert(out1[pos as int] == v[pos as int]);
        }
        rows.mark(pos);
        let ghost rows2 = rows.touched@;
        let b: u8 = output[pos];
        propagate_lz77(reverse_graph, events.as_slice(), pos, b, output, &mut stack, rows);
        proof {
            assert forall|p: int, q: int|
                0 <= p < n && dst <= q < dst + at + 1 && #[trigger] descends(
                    now,
                    p,
                    q,
                ) implies #[trigger] output@[p] == v[q] by {
                assert(output@[p] == spread(now, out1, pos as int, b)[p]);
                if q < dst + at {
                    assert(out1[p] == v[q]);
                    if descends(now, p, pos as int) {
                        lemma_descent_chain(now, p, q, pos as int);
                        assert(covers(now[k], q));
                        lemma_same_inside(now, n, v, k, q, pos as int);
                    }
                }
            }
            assert forall|p: int|
                0 <= p < n && !from_range(
                    now,
                    p,
                    dst as int,
                    dst + at + 1,
                ) implies #[trigger] output@[p] == v[p] by {
                assert(output@[p] == spread(now, out1, pos as int, b)[p]);
                assert(!descends(now, p, pos as int)) by {
                    if descends(now, p, pos as int) {
                        assert(from_range(now, p, dst as int, dst + at + 1));
                    }
                }
                assert(!from_range(now, p, dst as int, dst + at)) by {
                    if from_range(now, p, dst as int, dst + at) {
                        let q = choose|q: int|
                            dst <= q < dst + at && #[trigger] descends(now, p, q);
                        assert(descends(now, p, q));
                    }
                }
            }
            assert forall|y: int| 0 <= y < rows.touched@.len() implies (#[trigger] rows.touched@[y]
                <==> rows0[y] || row_from(now, n, dst as int, dst + at + 1, stride, y)) by {
                assert(rows1[y] <==> rows0[y] || row_from(now, n, dst as int, dst + at, stride, y));
                assert(rows2[y] <==> rows1[y] || pos as int / stride == y);
                assert(rows.touched@[y] <==> rows2[y] || row_spread(now, n, pos as int, stride, y));
                lemma_row_from_step(now, n, dst as int, dst + at, stride, y);
            }
        }
        at = at + 1;
    }
    proof {
        let e0 = ev0[k];
        assert(dst == ev_pos(e0) && copy_len == ev_len(e0));
        assert forall|p: int| #[trigger] descends_from_event(now, p, e0) <==> from_range(
            now,
            p,
            dst as int,
            dst + copy_len,
        ) by {
            lemma_from_event(now, p, e0);
        }
        assert(carried(now, out0, e0, ev_pos(e0) - src_after, v, output@)) by {
            reveal(carried);
        }
        lemma_redirect_outcome(ev0, out0, k, src_after, dist_sym_after, v, output@);
        assert forall|y: int| 0 <= y < rows.touched@.len() implies (#[trigger] rows.touched@[y]
            <==> rows0[y] || row_redirected(now, n, e0, stride, y)) by {
            lemma_row_redirected(now, n, e0, stride, y);
        }
    }
}

/// Copy `copy_len` bytes from `src` to `dst`, forwards: a byte written can be
/// read again, as in a run-length expansion.
fn recopy(output: &mut Vec<u8>, src: usize, dst: usize, copy_len: usize)
    requires
        src < dst,
        dst + copy_len <= old(output)@.len(),
    ensures
        final(output)@.len() == old(output)@.len(),
        forall|p: int|
            0 <= p < old(output)@.len() && !(dst <= p < dst + copy_len) ==> #[trigger] final(output)@[p] == old(output)@[p],
        forall|p: int|
            dst <= p < dst + copy_len ==> #[trigger] copied(final(output)@, p, dst - src),
{
    let len: usize = output.len();
    let mut off: usize = 0;
    while off < copy_len
        invariant
            off <= copy_len,
            src < dst,
            len == output@.len(),
            dst + copy_len <= len,
            output@.len() == old(output)@.len(),
            forall|p: int|
                0 <= p < len && !(dst <= p < dst + off) ==> #[trigger] output@[p] == old(output)@[p],
            forall|p: int| dst <= p < dst + off ==> #[trigger] copied(output@, p, dst - src),
        decreases copy_len - off,
    {
        let ghost before = output@;
        let b: u8 = output[src + off];
        output[dst + off] = b;
        assert forall|p: int| dst <= p < dst + off + 1 implies #[trigger] copied(
            output@,
            p,
            dst - src,
        ) by {
            if p < dst + off {
                assert(copied(before, p, dst - src));
            }
        }
        off = off + 1;
    }
}

proof fn lemma_row_redirected(events: Seq<Event>, n: int, e: Event, stride: int, y: int)
    ensures
        row_from(events, n, ev_pos(e), ev_pos(e) + ev_len(e), stride, y) <==> row_redirected(
            events,
            n,
            e,
            stride,
            y,
        ),
{
    let lo = ev_pos(e);
    let hi = lo + ev_len(e);
    assert forall|p: int| #[trigger] descends_from_event(events, p, e) <==> from_range(
        events,
        p,
        lo,
        hi,
    ) by {
        lemma_from_event(events, p, e);
    }
    if row_from(events, n, lo, hi, stride, y) {
        let p = choose|p: int|
            0 <= p < n && #[trigger] from_range(events, p, lo, hi) && p / stride == y;
        assert(descends_from_event(events, p, e));
    }
    if row_redirected(events, n, e, stride, y) {
        let p = choose|p: int|
            0 <= p < n && #[trigger] descends_from_event(events, p, e) && p / stride == y;
        assert(from_range(events, p, lo, hi));
    }
}

proof fn lemma_from_event(events: Seq<Event>, p: int, e: Event)
    ensures
        descends_from_event(events, p, e) <==> from_range(
            events,
            p,
            ev_pos(e),
            ev_pos(e) + ev_len(e),
        ),
{
    let lo = ev_pos(e);
    let hi = lo + ev_len(e);
    if descends_from_event(events, p, e) {
        let q = choose|q: int| covers(e, q) && #[trigger] descends(events, p, q);
        assert(lo <= q < hi);
    }
    if from_range(events, p, lo, hi) {
        let q = choose|q: int| lo <= q < hi && #[trigger] descends(events, p, q);
        assert(covers(e, q));
    }
}

/// `v` is the output with event `e`'s bytes recopied over `d` bytes, and `out2`
/// is `v` with them carried through `now`.
#[verifier::opaque]
spec fn carried(
    now: Seq<Event>,
    out: Seq<u8>,
    e: Event,
    d: int,
    v: Seq<u8>,
    out2: Seq<u8>,
) -> bool {
    &&& v.len() == out.len()
    &&& out2.len() == out.len()
    &&& forall|p: int| 0 <= p < out.len() && !covers(e, p) ==> #[trigger] v[p] == out[p]
    &&& forall|p: int| covers(e, p) ==> #[trigger] copied(v, p, d)
    &&& forall|p: int, q: int|
        0 <= p < out.len() && covers(e, q) && #[trigger] descends(now, p, q) ==> #[trigger] out2[p]
            == v[q]
    &&& forall|p: int|
        0 <= p < out.len() && !descends_from_event(now, p, e) ==> #[trigger] out2[p] == v[p]
}

proof fn lemma_carried_from(
    now: Seq<Event>,
    out: Seq<u8>,
    e: Event,
    d: int,
    v: Seq<u8>,
    out2: Seq<u8>,
    p: int,
    q: int,
)
    requires
        carried(now, out, e, d, v, out2),
        0 <= p < out.len(),
        covers(e, q),
        descends(now, p, q),
    ensures
        out2[p] == v[q],
{
    reveal(carried);
    assert(out2[p] == v[q]);
}

proof fn lemma_carried_else(
    now: Seq<Event>,
    out: Seq<u8>,
    e: Event,
    d: int,
    v: Seq<u8>,
    out2: Seq<u8>,
    p: int,
)
    requires
        carried(now, out, e, d, v, out2),
        0 <= p < out.len(),
        !descends_from_event(now, p, e),
    ensures
        out2[p] == v[p],
        out2[p] == out[p],
{
    reveal(carried);
    assert(out2[p] == v[p]);
    assert(!covers(e, p)) by {
        if covers(e, p) {
            assert(descends(now, p, p));
        }
    }
}

proof fn lemma_carried_copy(
    now: Seq<Event>,
    out: Seq<u8>,
    e: Event,
    d: int,
    v: Seq<u8>,
    out2: Seq<u8>,
    p: int,
)
    requires
        carried(now, out, e, d, v, out2),
        covers(e, p),
        0 <= p - d < p < out.len(),
    ensures
        copied(out2, p, d),
{
    assert(copied(v, p, d)) by {
        reveal(carried);
    }
    assert(descends(now, p, p));
    lemma_carried_from(now, out, e, d, v, out2, p, p);
    let s = p - d;
    if s >= ev_pos(e) {
        assert(covers(e, s));
        assert(descends(now, s, s));
        lemma_carried_from(now, out, e, d, v, out2, s, s);
    } else {
        if descends_from_event(now, s, e) {
            let q = choose|q: int| covers(e, q) && #[trigger] descends(now, s, q);
            lemma_descent_down(now, s, q);
        }
        lemma_carried_else(now, out, e, d, v, out2, s);
    }
}

proof fn lemma_carried_parent(
    now: Seq<Event>,
    out: Seq<u8>,
    e: Event,
    d: int,
    v: Seq<u8>,
    out2: Seq<u8>,
    p: int,
)
    requires
        carried(now, out, e, d, v, out2),
        0 <= p < out.len(),
        !covers(e, p),
        descends_from_event(now, p, e),
    ensures
        out2[p] == out2[parent(now, p)->0],
{
    let q = choose|q: int| covers(e, q) && #[trigger] descends(now, p, q);
    assert(p != q);
    let s = parent(now, p)->0;
    assert(descends(now, s, q));
    lemma_carried_from(now, out, e, d, v, out2, p, q);
    lemma_carried_from(now, out, e, d, v, out2, s, q);
}

/// What recopying and propagating leave behind.
proof fn lemma_redirect_outcome(
    events: Seq<Event>,
    out: Seq<u8>,
    k: int,
    src: u32,
    dist_sym: u8,
    v: Seq<u8>,
    out2: Seq<u8>,
)
    requires
        stream_shape(events, out.len() as int),
        plays(events, out),
        0 <= k < events.len(),
        events[k] is Ref,
        src < ev_pos(events[k]),
        carried(
            with_source(events, k, src, dist_sym),
            out,
            events[k],
            ev_pos(events[k]) - src,
            v,
            out2,
        ),
    ensures
        plays(with_source(events, k, src, dist_sym), out2),
        forall|p: int|
            0 <= p < out.len() && !descends_from_event(
                with_source(events, k, src, dist_sym),
                p,
                events[k],
            ) ==> #[trigger] out2[p] == out[p],
{
    let n = out.len() as int;
    let e = events[k];
    let d = ev_pos(e) - src;
    let now = with_source(events, k, src, dist_sym);
    assert(out2.len() == out.len()) by {
        reveal(carried);
    }
    assert forall|p: int| covers(e, p) implies #[trigger] copied(out2, p, d) by {
        lemma_owner_is(events, n, p, k);
        lemma_carried_copy(now, out, e, d, v, out2, p);
    }
    assert forall|p: int|
        0 <= p < n && !descends_from_event(now, p, e) implies #[trigger] out2[p] == out[p] by {
        lemma_carried_else(now, out, e, d, v, out2, p);
    }
    assert forall|p: int| 0 <= p < n && !covers(e, p) implies #[trigger] out2[p] == (
    if descends_from_event(now, p, e) {
        out2[parent(now, p)->0]
    } else {
        out[p]
    }) by {
        if descends_from_event(now, p, e) {
            lemma_carried_parent(now, out, e, d, v, out2, p);
        }
    }
    lemma_redirect_plays(events, out, k, src, dist_sym, out2);
}

/// Byte `p` descends from one of the bytes from `lo` to `hi`.
spec fn from_range(events: Seq<Event>, p: int, lo: int, hi: int) -> bool {
    exists|q: int| lo <= q < hi && #[trigger] descends(events, p, q)
}

/// Row `y` holds a byte that descends from one of the bytes from `lo` to `hi`.
spec fn row_from(events: Seq<Event>, n: int, lo: int, hi: int, stride: int, y: int) -> bool {
    exists|p: int| 0 <= p < n && #[trigger] from_range(events, p, lo, hi) && p / stride == y
}

proof fn lemma_row_from_step(events: Seq<Event>, n: int, lo: int, hi: int, stride: int, y: int)
    requires
        lo <= hi < n,
        0 <= lo,
    ensures
        row_from(events, n, lo, hi + 1, stride, y) <==> row_from(events, n, lo, hi, stride, y) || hi
            / stride == y || row_spread(events, n, hi, stride, y),
{
    if row_from(events, n, lo, hi, stride, y) {
        let p = choose|p: int|
            0 <= p < n && #[trigger] from_range(events, p, lo, hi) && p / stride == y;
        let q = choose|q: int| lo <= q < hi && #[trigger] descends(events, p, q);
        assert(from_range(events, p, lo, hi + 1));
    }
    if hi / stride == y {
        assert(descends(events, hi, hi));
        assert(from_range(events, hi, lo, hi + 1));
    }
    if row_spread(events, n, hi, stride, y) {
        let p = choose|p: int|
            0 <= p < n && p != hi && #[trigger] descends(events, p, hi) && p / stride == y;
        assert(from_range(events, p, lo, hi + 1));
    }
    if row_from(events, n, lo, hi + 1, stride, y) {
        let p = choose|p: int|
            0 <= p < n && #[trigger] from_range(events, p, lo, hi + 1) && p / stride == y;
        let q = choose|q: int| lo <= q < hi + 1 && #[trigger] descends(events, p, q);
        if q < hi {
            assert(from_range(events, p, lo, hi));
        } else if p != hi {
            assert(descends(events, p, hi));
        }
    }
}

} // verus!
