//! That the panel offers every edit a pixel has.

use vstd::prelude::*;

use super::core_data::CoreData;
use super::edit::{ByteWrite, KindView, Patch};
use super::edit_options::{
    add_site, redirect_option, redirect_options, swap_option, swap_options, swap_targets, GroupView,
};
use super::select::{
    law_swaps_complete, pixel_events, swap_symbols, ChannelEvent, LitPatchSite, OptionView,
};
use super::selection::{selection_of, walked};
use crate::coords::PixelXY;
use crate::deflate::constants::DBASE;
use crate::deflate::events::{block_index, code_len, Event, LitEvent, RefEvent};
use crate::deflate::replay_law::ev_pos;
use crate::index::alts_law::{can_redirect, has_code, law_alts_complete, redirects_to};
use crate::index::pixel::{alts_in, DistAlt};
use crate::index::pos_to_ev::lookup;
use crate::raster::raster_pixel;

verus! {

proof fn lemma_channel_listed(events: Seq<Event>, base: int, n: int, ch: int, k: int) -> (i: int)
    requires
        0 <= ch < n <= usize::MAX,
        lookup(events, base + ch) == Some(k),
        0 <= k <= usize::MAX,
    ensures
        0 <= i < pixel_events(events, base, n).len(),
        pixel_events(events, base, n)[i] == (ChannelEvent { ch: ch as usize, ev_idx: k as usize }),
    decreases n,
{
    let rest = pixel_events(events, base, n - 1);
    if ch == n - 1 {
        rest.len() as int
    } else {
        lemma_channel_listed(events, base, n - 1, ch, k)
    }
}

/// A group holds the site.
spec fn holds(g: GroupView, val: u8, block: u32, site: LitPatchSite) -> bool {
    g.val == val && g.block == block && g.sites.contains(site)
}

proof fn lemma_site_added(
    groups: Seq<GroupView>,
    val: u8,
    block: u32,
    site: LitPatchSite,
    i: int,
)
    requires
        0 <= i <= groups.len(),
    ensures
        ({
            let after = add_site(groups, val, block, site, i);
            &&& after.len() >= groups.len()
            &&& exists|j: int| 0 <= j < after.len() && holds(#[trigger] after[j], val, block, site)
            &&& forall|j: int, v: u8, b: u32, s: LitPatchSite|
                0 <= j < groups.len() && holds(groups[j], v, b, s) ==> #[trigger] holds(
                    after[j],
                    v,
                    b,
                    s,
                )
            &&& forall|j: int|
                0 <= j < after.len() ==> ((#[trigger] after[j]).val == val && after[j].block
                    == block) || (j < groups.len() && after[j].val == groups[j].val
                    && after[j].block == groups[j].block)
        }),
    decreases groups.len() - i,
{
    let after = add_site(groups, val, block, site, i);
    if i >= groups.len() {
        let last = after[groups.len() as int];
        assert(last.sites[0] == site);
        assert(holds(last, val, block, site));
    } else if groups[i].val == val && groups[i].block == block {
        let g = after[i];
        let old = groups[i].sites;
        assert(g.sites[old.len() as int] == site);
        assert(holds(g, val, block, site));
        assert forall|j: int, v: u8, b: u32, s: LitPatchSite|
            0 <= j < groups.len() && holds(groups[j], v, b, s) implies #[trigger] holds(
            after[j],
            v,
            b,
            s,
        ) by {
            if j == i {
                let q = choose|q: int| 0 <= q < old.len() && old[q] == s;
                assert(g.sites[q] == s);
            }
        }
    } else {
        lemma_site_added(groups, val, block, site, i + 1);
    }
}

/// The block of an event.
pub open spec fn event_block(c: CoreData, k: int) -> int {
    block_index(c.block_starts@, k)
}

/// Of a channel's literal, the site of its code.
spec fn lit_site(ev: ChannelEvent, l: LitEvent) -> LitPatchSite {
    LitPatchSite { ch: ev.ch, bit_start: l.bit_start, out_pos: l.out_pos }
}

/// The alternatives of a channel's back-reference.
spec fn ref_alts(c: CoreData, k: int, r: RefEvent) -> Seq<DistAlt> {
    alts_in(
        c.dist_encs@,
        event_block(c, k),
        r.dist_sym as int,
        r.out_pos as int,
        r.src_out_pos as int,
    )
}

proof fn lemma_walk_keeps(
    c: CoreData,
    sel: PixelXY,
    base: int,
    evs: Seq<ChannelEvent>,
    i: int,
)
    requires
        0 <= i < evs.len(),
    ensures
        ({
            let k = evs[i].ev_idx as int;
            let w = walked(c, sel, base, evs);
            match c.events@[k] {
                Event::Lit(l) => exists|j: int|
                    0 <= j < w.groups.len() && holds(
                        #[trigger] w.groups[j],
                        l.symbol,
                        event_block(c, k) as u32,
                        lit_site(evs[i], l),
                    ),
                Event::Ref(r) => {
                    let offered = redirect_options(
                        c,
                        r,
                        event_block(c, k),
                        c.info.label(evs[i].ch),
                        ref_alts(c, k, r),
                    );
                    forall|o: OptionView| #[trigger]
                        offered.contains(o) ==> w.build.edit_options.contains(o)
                },
            }
        }),
    decreases evs.len(),
{
    let front = evs.drop_last();
    let last = evs.last();
    let before = walked(c, sel, base, front);
    let w = walked(c, sel, base, evs);
    let k = evs[i].ev_idx as int;
    let m = last.ev_idx as int;
    if let Event::Lit(l) = c.events@[m] {
        lemma_site_added(
            before.groups,
            l.symbol,
            event_block(c, m) as u32,
            lit_site(last, l),
            0,
        );
    }
    if i < front.len() {
        lemma_walk_keeps(c, sel, base, front, i);
        match c.events@[k] {
            Event::Lit(l) => {
                let j = choose|j: int|
                    0 <= j < before.groups.len() && holds(
                        #[trigger] before.groups[j],
                        l.symbol,
                        event_block(c, k) as u32,
                        lit_site(evs[i], l),
                    );
                assert(holds(
                    w.groups[j],
                    l.symbol,
                    event_block(c, k) as u32,
                    lit_site(evs[i], l),
                ));
            },
            Event::Ref(r) => {
                let offered = redirect_options(
                    c,
                    r,
                    event_block(c, k),
                    c.info.label(evs[i].ch),
                    ref_alts(c, k, r),
                );
                assert forall|o: OptionView| #[trigger] offered.contains(o) implies
                    w.build.edit_options.contains(o) by {
                    let old = before.build.edit_options;
                    let q = choose|q: int| 0 <= q < old.len() && old[q] == o;
                    assert(w.build.edit_options[q] == o);
                }
            },
        }
    } else {
        match c.events@[k] {
            Event::Lit(l) => {
                let block = event_block(c, m) as u32;
                let after = add_site(before.groups, l.symbol, block, lit_site(last, l), 0);
                assert(w.groups == after);
                let j = choose|j: int|
                    0 <= j < after.len() && holds(
                        #[trigger] after[j],
                        l.symbol,
                        block,
                        lit_site(last, l),
                    );
                assert(holds(w.groups[j], l.symbol, block, lit_site(evs[i], l)));
            },
            Event::Ref(r) => {
                let offered = redirect_options(
                    c,
                    r,
                    event_block(c, k),
                    c.info.label(evs[i].ch),
                    ref_alts(c, k, r),
                );
                assert forall|o: OptionView| #[trigger] offered.contains(o) implies
                    w.build.edit_options.contains(o) by {
                    let old = before.build.edit_options;
                    let q = choose|q: int| 0 <= q < offered.len() && offered[q] == o;
                    assert(w.build.edit_options[old.len() + q] == o);
                }
            },
        }
    }
}

proof fn lemma_redirect_listed(
    c: CoreData,
    r: RefEvent,
    block: int,
    name: Seq<char>,
    alts: Seq<DistAlt>,
    i: int,
)
    requires
        0 <= i < alts.len(),
        code_len(c.dist_encs@[block]@, alts[i].dist_sym as int) == code_len(
            c.dist_encs@[block]@,
            r.dist_sym as int,
        ),
    ensures
        redirect_options(c, r, block, name, alts).contains(
            redirect_option(c, r, block, name, alts[i]),
        ),
    decreases alts.len(),
{
    let front = alts.drop_last();
    let rest = redirect_options(c, r, block, name, front);
    let all = redirect_options(c, r, block, name, alts);
    let o = redirect_option(c, r, block, name, alts[i]);
    if i < front.len() {
        lemma_redirect_listed(c, r, block, name, front, i);
        let q = choose|q: int| 0 <= q < rest.len() && rest[q] == o;
        assert(all[q] == o);
    } else {
        assert(all[rest.len() as int] == o);
    }
}

proof fn lemma_swap_listed(c: CoreData, groups: Seq<GroupView>, j: int, t: u16)
    requires
        0 <= j < groups.len(),
        swap_symbols(
            c.lit_encs@[groups[j].block as int]@,
            groups[j].val as int,
            256,
        ).contains(t),
    ensures
        swap_options(c, groups).contains(swap_option(c, groups[j], t)),
    decreases groups.len(),
{
    let g = groups.last();
    let rest = swap_options(c, groups.drop_last());
    let symbols = swap_symbols(c.lit_encs@[g.block as int]@, g.val as int, 256);
    let here = swap_targets(c, g, symbols);
    let all = swap_options(c, groups);
    let o = swap_option(c, groups[j], t);
    if j < groups.len() - 1 {
        lemma_swap_listed(c, groups.drop_last(), j, t);
        let q = choose|q: int| 0 <= q < rest.len() && rest[q] == o;
        assert(all[q] == o);
    } else {
        let q = choose|q: int| 0 <= q < symbols.len() && symbols[q] == t;
        assert(here[q] == o);
        assert(all[rest.len() + q] == o);
    }
}

/// The option redirects the back-reference to symbol `s`, by writing that
/// symbol's code over the current one.
pub open spec fn is_redirect(o: OptionView, c: CoreData, k: int, r: RefEvent, s: int) -> bool {
    let code = c.dist_encs@[event_block(c, k)]@[s];
    let distance = DBASE@[s] + (r.out_pos - r.src_out_pos - DBASE@[r.dist_sym as int]);
    &&& o.action.kind matches KindView::Redirect { out_pos, copy_len, src, dist_sym } && out_pos
        == r.out_pos && copy_len == r.copy_len && src == r.out_pos - distance && dist_sym == s
    &&& o.action.patches == seq![
        Patch { bit_start: r.dist_bit_start, value: code.code as u32, code_len: code.len },
    ]
}

/// The option writes the literal `s` at the place of `l`, and its code over the
/// current one.
pub open spec fn is_swap(o: OptionView, c: CoreData, k: int, l: LitEvent, s: int) -> bool {
    let code = c.lit_encs@[event_block(c, k)]@[s];
    &&& o.action.kind matches KindView::Swap(writes) && writes.contains(
        ByteWrite { out_pos: l.out_pos, value: s as u8 },
    )
    &&& o.action.patches.contains(
        Patch { bit_start: l.bit_start, value: code.code as u32, code_len: code.len },
    )
}

/// Of every byte of a pixel, every edit that keeps the stream's length is
/// offered: if a back-reference wrote it, each symbol that it can go to, and if
/// a literal did, each other literal whose code is as long.
pub proof fn law_every_edit_offered(
    c: CoreData,
    sel: PixelXY,
    base: int,
    n: int,
    ch: int,
    k: int,
)
    requires
        0 <= ch < n <= usize::MAX,
        lookup(c.events@, base + ch) == Some(k),
        0 <= k < c.events@.len() <= usize::MAX,
        0 <= event_block(c, k) <= u32::MAX,
        event_block(c, k) < c.lit_encs@.len(),
        event_block(c, k) < c.dist_encs@.len(),
    ensures
        ({
            let options = selection_of(
                c,
                sel,
                base,
                pixel_events(c.events@, base, n),
            ).edit_options;
            match c.events@[k] {
                Event::Ref(r) => {
                    let codes = c.dist_encs@[event_block(c, k)]@;
                    let distance = r.out_pos - r.src_out_pos;
                    has_code(codes, r.dist_sym as int, r.out_pos as int, distance) ==> forall|
                        s: int,
                    | #[trigger]
                        can_redirect(
                            codes,
                            r.dist_sym as int,
                            r.out_pos as int,
                            distance,
                            s,
                        ) ==> exists|i: int|
                            0 <= i < options.len() && is_redirect(
                                #[trigger] options[i],
                                c,
                                k,
                                r,
                                s,
                            )
                },
                Event::Lit(l) => {
                    let codes = c.lit_encs@[event_block(c, k)]@;
                    l.symbol < codes.len() && codes[l.symbol as int].len > 0 ==> forall|s: int|
                        0 <= s < 256 && s < codes.len() && s != l.symbol && (
                        #[trigger] codes[s]).len == codes[l.symbol as int].len ==> exists|i: int|
                            0 <= i < options.len() && is_swap(#[trigger] options[i], c, k, l, s)
                },
            }
        }),
{
    let evs = pixel_events(c.events@, base, n);
    let i = lemma_channel_listed(c.events@, base, n, ch, k);
    lemma_walk_keeps(c, sel, base, evs, i);
    let w = walked(c, sel, base, evs);
    let swaps = swap_options(c, w.groups);
    let options = selection_of(c, sel, base, evs).edit_options;
    assert(options == w.build.edit_options + swaps);
    let block = event_block(c, k);
    match c.events@[k] {
        Event::Ref(r) => {
            let codes = c.dist_encs@[block]@;
            let cur = r.dist_sym as int;
            let out_pos = r.out_pos as int;
            let distance = r.out_pos - r.src_out_pos;
            let alts = ref_alts(c, k, r);
            let name = c.info.label(evs[i].ch);
            if has_code(codes, cur, out_pos, distance) {
                law_alts_complete(c.dist_encs@, block, cur, out_pos, distance);
                assert(alts == alts_in(c.dist_encs@, block, cur, out_pos, out_pos - distance));
                assert forall|s: int| #[trigger]
                    can_redirect(codes, cur, out_pos, distance, s) implies exists|q: int|
                    0 <= q < options.len() && is_redirect(#[trigger] options[q], c, k, r, s) by {
                    let a = choose|a: int|
                        0 <= a < alts.len() && redirects_to(
                            #[trigger] alts[a],
                            cur,
                            out_pos,
                            distance,
                            s,
                        );
                    lemma_redirect_listed(c, r, block, name, alts, a);
                    let o = redirect_option(c, r, block, name, alts[a]);
                    let redirects = w.build.edit_options;
                    assert(redirects.contains(o));
                    let q = choose|q: int| 0 <= q < redirects.len() && redirects[q] == o;
                    assert(options[q] == o);
                    assert(is_redirect(options[q], c, k, r, s));
                }
            }
        },
        Event::Lit(l) => {
            let codes = c.lit_encs@[block]@;
            let val = l.symbol as int;
            let site = lit_site(evs[i], l);
            if l.symbol < codes.len() && codes[val].len > 0 {
                let j = choose|j: int|
                    0 <= j < w.groups.len() && holds(
                        #[trigger] w.groups[j],
                        l.symbol,
                        block as u32,
                        site,
                    );
                let g = w.groups[j];
                law_swaps_complete(codes, val, 256);
                assert forall|s: int|
                    0 <= s < 256 && s < codes.len() && s != l.symbol && (#[trigger] codes[s]).len
                        == codes[val].len implies exists|q: int|
                    0 <= q < options.len() && is_swap(#[trigger] options[q], c, k, l, s) by {
                    lemma_swap_listed(c, w.groups, j, s as u16);
                    let o = swap_option(c, g, s as u16);
                    let q = choose|q: int| 0 <= q < swaps.len() && swaps[q] == o;
                    let at = w.build.edit_options.len() + q;
                    assert(options[at] == o);
                    let p = choose|p: int| 0 <= p < g.sites.len() && g.sites[p] == site;
                    let code = codes[s];
                    assert(o.action.patches[p] == (Patch {
                        bit_start: l.bit_start,
                        value: code.code as u32,
                        code_len: code.len,
                    }));
                    let writes = o.action.kind->Swap_0;
                    assert(writes[p] == (ByteWrite { out_pos: l.out_pos, value: s as u8 }));
                    assert(is_swap(options[at], c, k, l, s));
                }
            }
        },
    }
}

/// What else a selection marks: a cascade starts at the place of every event
/// behind the pixel, in the order of its bytes; and the source shown is that of
/// its first copied byte whose source is a pixel.
pub proof fn law_selection_marks(
    c: CoreData,
    sel: PixelXY,
    base: int,
    evs: Seq<ChannelEvent>,
    i: int,
)
    requires
        0 <= i < evs.len(),
    ensures
        ({
            let b = selection_of(c, sel, base, evs);
            let e = c.events@[evs[i].ev_idx as int];
            &&& b.cascade_positions.len() == evs.len()
            &&& b.cascade_positions[i] == ev_pos(e)
            &&& (e matches Event::Ref(r) && raster_pixel(c.info, r.src_out_pos as int) is Some
                && forall|j: int|
                0 <= j < i ==> (#[trigger] c.events@[evs[j].ev_idx as int] matches Event::Ref(q)
                    ==> raster_pixel(c.info, q.src_out_pos as int) is None)) ==> b.backref_src
                == raster_pixel(c.info, e->Ref_0.src_out_pos as int)
            &&& (forall|j: int|
                0 <= j < evs.len() ==> !(#[trigger] c.events@[evs[j].ev_idx as int] is Ref))
                ==> b.backref_src is None
        }),
{
    lemma_marks(c, sel, base, evs, i);
}

proof fn lemma_marks(c: CoreData, sel: PixelXY, base: int, evs: Seq<ChannelEvent>, i: int)
    ensures
        ({
            let b = walked(c, sel, base, evs).build;
            &&& b.cascade_positions.len() == evs.len()
            &&& (forall|j: int|
                0 <= j < evs.len() ==> (#[trigger] c.events@[evs[j].ev_idx as int] matches Event::Ref(
                    q,
                ) ==> raster_pixel(c.info, q.src_out_pos as int) is None)) ==> b.backref_src is None
            &&& 0 <= i < evs.len() ==> {
                let e = c.events@[evs[i].ev_idx as int];
                &&& b.cascade_positions[i] == ev_pos(e)
                &&& (e matches Event::Ref(r) && raster_pixel(c.info, r.src_out_pos as int) is Some
                    && forall|j: int|
                    0 <= j < i ==> (#[trigger] c.events@[evs[j].ev_idx as int] matches Event::Ref(q)
                        ==> raster_pixel(c.info, q.src_out_pos as int) is None)) ==> b.backref_src
                    == raster_pixel(c.info, e->Ref_0.src_out_pos as int)
            }
        }),
    decreases evs.len(),
{
    if evs.len() > 0 {
        let front = evs.drop_last();
        lemma_marks(c, sel, base, front, i);
        assert forall|j: int| 0 <= j < front.len() implies #[trigger] front[j] == evs[j] by {}
        let old = walked(c, sel, base, front).build;
        if forall|j: int|
            0 <= j < evs.len() ==> (#[trigger] c.events@[evs[j].ev_idx as int] matches Event::Ref(q)
                ==> raster_pixel(c.info, q.src_out_pos as int) is None) {
            assert forall|j: int| 0 <= j < front.len() implies (
            #[trigger] c.events@[front[j].ev_idx as int] matches Event::Ref(q) ==> raster_pixel(
                c.info,
                q.src_out_pos as int,
            ) is None) by {
                assert(c.events@[evs[j].ev_idx as int] matches Event::Ref(q) ==> raster_pixel(
                    c.info,
                    q.src_out_pos as int,
                ) is None);
            }
            assert(old.backref_src is None);
            assert(c.events@[evs[evs.len() - 1].ev_idx as int] matches Event::Ref(q)
                ==> raster_pixel(c.info, q.src_out_pos as int) is None);
        }
        if i == evs.len() - 1 {
            if forall|j: int|
                0 <= j < i ==> (#[trigger] c.events@[evs[j].ev_idx as int] matches Event::Ref(q)
                    ==> raster_pixel(c.info, q.src_out_pos as int) is None) {
                assert forall|j: int| 0 <= j < front.len() implies (
                #[trigger] c.events@[front[j].ev_idx as int] matches Event::Ref(q)
                    ==> raster_pixel(c.info, q.src_out_pos as int) is None) by {
                    assert(c.events@[evs[j].ev_idx as int] matches Event::Ref(q) ==> raster_pixel(
                        c.info,
                        q.src_out_pos as int,
                    ) is None);
                }
                assert(old.backref_src is None);
            }
        } else if 0 <= i < front.len() {
            if forall|j: int|
                0 <= j < i ==> (#[trigger] c.events@[evs[j].ev_idx as int] matches Event::Ref(q)
                    ==> raster_pixel(c.info, q.src_out_pos as int) is None) {
                assert forall|j: int| 0 <= j < i implies (
                #[trigger] c.events@[front[j].ev_idx as int] matches Event::Ref(q)
                    ==> raster_pixel(c.info, q.src_out_pos as int) is None) by {
                    assert(c.events@[evs[j].ev_idx as int] matches Event::Ref(q) ==> raster_pixel(
                        c.info,
                        q.src_out_pos as int,
                    ) is None);
                }
            }
        }
    }
}

} // verus!
