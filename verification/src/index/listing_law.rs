//! Which pixels the list has, and what it says of them.

use vstd::prelude::*;

use super::pixel::{
    any_channel, block_classes, class_at, class_of, event_classes, EventClass, IndexInput, RowView,
};
use crate::coords::PixelXY;
use crate::deflate::events::{starts_sorted, EncTable, Event};
use crate::raster::raster_pos;

verus! {

/// One of the bytes of pixel `(x, y)` was written by an event of class `class`.
pub open spec fn written_by(ix: IndexInput, x: int, y: int, class: EventClass) -> bool {
    let base = raster_pos(ix.info, PixelXY { x: x as u32, y: y as u32 });
    exists|ch: int|
        0 <= ch < ix.info.bpp && #[trigger] class_at(ix.pos_to_ev, ix.classes, base + ch) == class
}

/// A pixel is listed as a literal where a literal wrote one of its bytes, and
/// else as a back-reference where one that can be redirected did. It has an
/// edit where one of those literals can be swapped, and always as a
/// back-reference. Its colour is that of its first three bytes.
pub proof fn law_listing(ix: IndexInput, x: int, y: int)
    requires
        raster_pos(ix.info, PixelXY { x: x as u32, y: y as u32 }) < ix.output.len(),
    ensures
        ({
            let lit = written_by(ix, x, y, EventClass::LitSwap) || written_by(
                ix,
                x,
                y,
                EventClass::LitNoSwap,
            );
            let base = raster_pos(ix.info, PixelXY { x: x as u32, y: y as u32 });
            let row = ix.row(x, y);
            &&& ix.listed(x, y, true) <==> lit
            &&& ix.listed(x, y, false) <==> !lit && written_by(ix, x, y, EventClass::RefRedir)
            &&& ix.listed(x, y, true) ==> (row.has_edit <==> written_by(
                ix,
                x,
                y,
                EventClass::LitSwap,
            ))
            &&& ix.listed(x, y, false) ==> row.has_edit
            &&& row.x == x && row.y == y
            &&& row.rgb.len() == 3 && row.rgb[0] == ix.output[base]
            &&& base + 3 <= ix.output.len() ==> row.rgb[1] == ix.output[base + 1] && row.rgb[2]
                == ix.output[base + 2]
        }),
{
    let base = raster_pos(ix.info, PixelXY { x: x as u32, y: y as u32 });
    let bpp = ix.info.bpp as int;
    assert(written_by(ix, x, y, EventClass::LitSwap) == any_channel(
        ix.pos_to_ev,
        ix.classes,
        base,
        bpp,
        EventClass::LitSwap,
    ));
    assert(written_by(ix, x, y, EventClass::LitNoSwap) == any_channel(
        ix.pos_to_ev,
        ix.classes,
        base,
        bpp,
        EventClass::LitNoSwap,
    ));
    assert(written_by(ix, x, y, EventClass::RefRedir) == any_channel(
        ix.pos_to_ev,
        ix.classes,
        base,
        bpp,
        EventClass::RefRedir,
    ));
}

proof fn lemma_row_has(ix: IndexInput, y: int, n: int, lit: bool, m: int)
    requires
        0 <= m < n,
        ix.listed(m * ix.step(), y, lit),
    ensures
        ix.row_picks(y, n, lit).contains(ix.row(m * ix.step(), y)),
    decreases n,
{
    let rest = ix.row_picks(y, n - 1, lit);
    let all = ix.row_picks(y, n, lit);
    let row = ix.row(m * ix.step(), y);
    if m == n - 1 {
        assert(all[rest.len() as int] == row);
    } else {
        lemma_row_has(ix, y, n - 1, lit, m);
        let i = choose|i: int| 0 <= i < rest.len() && rest[i] == row;
        assert(all[i] == row);
    }
}

proof fn lemma_rows_have(ix: IndexInput, h: int, lit: bool, y: int, row: RowView)
    requires
        0 <= y < h,
        ix.row_picks(y, ix.per_row(), lit).contains(row),
    ensures
        ix.picks(h, lit).contains(row),
    decreases h,
{
    let rest = ix.picks(h - 1, lit);
    let here = ix.row_picks(h - 1, ix.per_row(), lit);
    let all = ix.picks(h, lit);
    if y == h - 1 {
        let i = choose|i: int| 0 <= i < here.len() && here[i] == row;
        assert(all[rest.len() + i] == row);
    } else {
        lemma_rows_have(ix, h - 1, lit, y, row);
        let i = choose|i: int| 0 <= i < rest.len() && rest[i] == row;
        assert(all[i] == row);
    }
}

proof fn lemma_row_from(ix: IndexInput, y: int, n: int, lit: bool, i: int) -> (m: int)
    requires
        0 <= i < ix.row_picks(y, n, lit).len(),
    ensures
        0 <= m < n,
        ix.listed(m * ix.step(), y, lit),
        ix.row_picks(y, n, lit)[i] == ix.row(m * ix.step(), y),
    decreases n,
{
    let rest = ix.row_picks(y, n - 1, lit);
    if i < rest.len() {
        lemma_row_from(ix, y, n - 1, lit, i)
    } else {
        n - 1
    }
}

proof fn lemma_rows_from(ix: IndexInput, h: int, lit: bool, i: int) -> (r: (int, int))
    requires
        0 <= i < ix.picks(h, lit).len(),
    ensures
        0 <= r.1 < h,
        0 <= r.0 < ix.per_row(),
        ix.listed(r.0 * ix.step(), r.1, lit),
        ix.picks(h, lit)[i] == ix.row(r.0 * ix.step(), r.1),
    decreases h,
{
    let rest = ix.picks(h - 1, lit);
    if i < rest.len() {
        lemma_rows_from(ix, h - 1, lit, i)
    } else {
        let m = lemma_row_from(ix, h - 1, ix.per_row(), lit, i - rest.len());
        (m, h - 1)
    }
}

/// No pixel is left out of its list: every pixel that is to be listed has its
/// row, or shares that of the first pixel in its byte; and every row is that of
/// such a pixel.
pub proof fn law_every_pixel_listed(ix: IndexInput, h: int, lit: bool)
    requires
        1 <= ix.step() <= 8,
        0 <= h,
    ensures
        forall|x: int, y: int|
            0 <= x < ix.info.width && 0 <= y < h && x % ix.step() == 0 && #[trigger] ix.listed(
                x,
                y,
                lit,
            ) ==> ix.picks(h, lit).contains(ix.row(x, y)),
        forall|i: int|
            0 <= i < ix.picks(h, lit).len() ==> {
                let row = #[trigger] ix.picks(h, lit)[i];
                ix.listed(row.x, row.y, lit) && row == ix.row(row.x, row.y)
            },
{
    let step = ix.step();
    assert forall|x: int, y: int|
        0 <= x < ix.info.width && 0 <= y < h && x % step == 0 && #[trigger] ix.listed(
            x,
            y,
            lit,
        ) implies ix.picks(h, lit).contains(ix.row(x, y)) by {
        let m = x / step;
        vstd::arithmetic::div_mod::lemma_fundamental_div_mod(x, step);
        vstd::arithmetic::mul::lemma_mul_is_commutative(step, m);
        vstd::arithmetic::div_mod::lemma_div_pos_is_pos(x, step);
        assert(m < ix.per_row()) by {
            let a = ix.info.width + step - 1;
            vstd::arithmetic::div_mod::lemma_div_is_ordered(x + step, a, step);
            assert((x + step) / step == m + 1) by {
                vstd::arithmetic::div_mod::lemma_div_plus_one(x, step);
            }
        }
        lemma_row_has(ix, y, ix.per_row(), lit, m);
        lemma_rows_have(ix, h, lit, y, ix.row(x, y));
    }
    assert forall|i: int| 0 <= i < ix.picks(h, lit).len() implies {
        let row = #[trigger] ix.picks(h, lit)[i];
        ix.listed(row.x, row.y, lit) && row == ix.row(row.x, row.y)
    } by {
        let r = lemma_rows_from(ix, h, lit, i);
    }
}

/// How many events stand before block `n`.
spec fn events_before(starts: Seq<u32>, n_events: nat, n: int) -> int {
    if n < starts.len() {
        starts[n] as int
    } else {
        n_events as int
    }
}

/// The starts lie in order inside the events, from the first on.
spec fn starts_fit(starts: Seq<u32>, n_events: nat) -> bool {
    &&& 0 < starts.len()
    &&& starts[0] == 0
    &&& forall|b: int|
        0 <= b < starts.len() ==> (#[trigger] starts[b]) <= events_before(starts, n_events, b + 1)
            <= n_events
}

proof fn lemma_classes_len(
    events: Seq<Event>,
    starts: Seq<u32>,
    lit_encs: Seq<EncTable>,
    dist_encs: Seq<EncTable>,
    n: int,
)
    requires
        starts_fit(starts, events.len()),
        0 <= n <= starts.len(),
    ensures
        event_classes(events, starts, lit_encs, dist_encs, n).len() == events_before(
            starts,
            events.len(),
            n,
        ),
    decreases n,
{
    if n > 0 {
        lemma_classes_len(events, starts, lit_encs, dist_encs, n - 1);
        assert(starts[n - 1] <= events_before(starts, events.len(), n) <= events.len());
    }
}

proof fn lemma_class_of_block(
    events: Seq<Event>,
    starts: Seq<u32>,
    lit_encs: Seq<EncTable>,
    dist_encs: Seq<EncTable>,
    n: int,
    b: int,
    k: int,
)
    requires
        starts_fit(starts, events.len()),
        0 <= b < n <= starts.len(),
        starts[b] <= k < events_before(starts, events.len(), b + 1),
    ensures
        k < event_classes(events, starts, lit_encs, dist_encs, n).len(),
        event_classes(events, starts, lit_encs, dist_encs, n)[k] == class_of(
            events[k],
            b,
            lit_encs,
            dist_encs,
        ),
    decreases n,
{
    lemma_classes_len(events, starts, lit_encs, dist_encs, n - 1);
    let before = event_classes(events, starts, lit_encs, dist_encs, n - 1);
    let here = block_classes(events, starts, lit_encs, dist_encs, n - 1);
    assert(starts[n - 1] <= events_before(starts, events.len(), n) <= events.len());
    if b == n - 1 {
        assert(here[k - starts[b]] == class_of(events[k], b, lit_encs, dist_encs));
    } else {
        lemma_class_of_block(events, starts, lit_encs, dist_encs, n - 1, b, k);
    }
}

/// Every event is classed by the codes of its own block.
pub proof fn law_event_class(
    events: Seq<Event>,
    starts: Seq<u32>,
    lit_encs: Seq<EncTable>,
    dist_encs: Seq<EncTable>,
    k: int,
)
    requires
        0 < starts.len(),
        starts_sorted(starts),
        starts[0] == 0,
        forall|b: int| 0 <= b < starts.len() ==> #[trigger] starts[b] <= events.len(),
        0 <= k < events.len(),
    ensures
        event_classes(events, starts, lit_encs, dist_encs, starts.len() as int).len()
            == events.len(),
        forall|b: int|
            0 <= b < starts.len() && #[trigger] starts[b] <= k && (forall|c: int|
                b < c < starts.len() ==> #[trigger] starts[c] > k) ==> event_classes(
                events,
                starts,
                lit_encs,
                dist_encs,
                starts.len() as int,
            )[k] == class_of(events[k], b, lit_encs, dist_encs),
{
    let n = starts.len() as int;
    assert(starts_fit(starts, events.len())) by {
        assert forall|b: int| 0 <= b < n implies (#[trigger] starts[b]) <= events_before(
            starts,
            events.len(),
            b + 1,
        ) <= events.len() by {
            if b + 1 < n {
                assert(starts[b] <= starts[b + 1]);
            }
        }
    }
    lemma_classes_len(events, starts, lit_encs, dist_encs, n);
    assert forall|b: int|
        0 <= b < n && #[trigger] starts[b] <= k && (forall|c: int|
            b < c < n ==> #[trigger] starts[c] > k) implies event_classes(
        events,
        starts,
        lit_encs,
        dist_encs,
        n,
    )[k] == class_of(events[k], b, lit_encs, dist_encs) by {
        if b + 1 < n {
            assert(starts[b + 1] > k);
        }
        lemma_class_of_block(events, starts, lit_encs, dist_encs, n, b, k);
    }
}

} // verus!
