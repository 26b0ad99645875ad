//! Every edit that the panel offers can be applied, and leaves a stream that
//! decodes to what is then shown.

use vstd::prelude::*;

use super::core_data::{lemma_event_count, CoreData};
use super::document::{edit_ok, edited_events};
use super::edit::{in_patch, patches_apart, ActionView, ByteWrite, Patch};
use super::edit_law::{action_fits, addressable, event_patched, patch_fits, patch_writes};
use super::edit_options::{
    add_site, redirect_option, redirect_options, swap_option, swap_options, swap_targets, GroupView,
};
use super::propagate::{lemma_swap_all, swap_all, swaps_ok};
use super::select::{
    events_inside, pixel_events, swap_symbols, ChannelEvent, LitPatchSite, OptionView,
};
use super::selection::{selection_of, walked};
use crate::coords::PixelXY;
use crate::deflate::constants::{DBASE, DEXT};
use crate::deflate::error::DecodeError;
use crate::deflate::events::{block_index, code_len, sym_code, Event, LitEvent, RefEvent};
use crate::deflate::inflate_spec::{decode_spec, Decoded};
use crate::deflate::rewrite_law::{
    changed, law_codes_in_order, site_ends, site_ok, site_table, sites_apart, stream_end,
};
use crate::index::forest::{lemma_owner, lemma_owner_is, owner_event, with_source, with_symbol};
use crate::index::pixel::{alts_in, defined_syms, law_alts_keep_width, DistAlt};
use crate::index::pos_to_ev::{covers, lemma_lookup_inside, lemma_tiled_order, lookup, owner};

verus! {

/// The option can be applied to the document, and its patches are just the
/// codes of the events that it changes.
pub open spec fn option_fits(c: CoreData, option: OptionView) -> bool {
    &&& edit_ok(c.events@, c.output@.len() as int, option.action)
    &&& action_fits(c.stream(), option.action)
}

/// All of the options do.
pub open spec fn options_fit(c: CoreData, options: Seq<OptionView>) -> bool {
    forall|i: int| 0 <= i < options.len() ==> option_fits(c, #[trigger] options[i])
}

/// The codes of the document's events are as a decode leaves them.
spec fn sites_known(c: CoreData) -> bool {
    forall|k: int| 0 <= k < c.events@.len() ==> #[trigger] site_ok(c.stream(), k)
}

/// The alternative is one that the reference's extra bits also fit.
spec fn alt_ok(r: RefEvent, alt: DistAlt) -> bool {
    &&& alt.dist_sym < 30
    &&& alt.dist_sym != r.dist_sym
    &&& DEXT@[alt.dist_sym as int] == DEXT@[r.dist_sym as int]
    &&& alt.src_out_pos + DBASE@[alt.dist_sym as int] == r.src_out_pos + DBASE@[r.dist_sym as int]
    &&& alt.src_out_pos < r.out_pos
}

proof fn lemma_block_inside(c: CoreData, k: int)
    requires
        c.wf(),
        0 <= k < c.events@.len(),
    ensures
        0 <= block_index(c.block_starts@, k) < c.block_starts@.len(),
        c.block_starts@.len() <= u32::MAX,
        c.lit_encs@.len() == c.block_starts@.len(),
        c.dist_encs@.len() == c.block_starts@.len(),
{
    assert(c.stream().lit_encs.len() == c.lit_encs@.len());
    assert(c.stream().dist_encs.len() == c.dist_encs@.len());
    assert(c.stream().block_starts.len() > 0);
    lemma_block_index_inside(c.block_starts@, k);
}

proof fn lemma_block_index_inside(starts: Seq<u32>, k: int)
    requires
        starts.len() > 0,
    ensures
        0 <= block_index(starts, k) < starts.len(),
    decreases starts.len(),
{
    if starts.len() > 1 && starts.last() > k {
        lemma_block_index_inside(starts.drop_last(), k);
    }
}

// Redirects.

proof fn lemma_redirect_fits(c: CoreData, k: int, r: RefEvent, name: Seq<char>, alt: DistAlt)
    requires
        c.wf(),
        sites_known(c),
        0 <= k < c.events@.len(),
        c.events@[k] == Event::Ref(r),
        alt_ok(r, alt),
        ({
            let table = c.dist_encs@[block_index(c.block_starts@, k)]@;
            code_len(table, alt.dist_sym as int) == code_len(table, r.dist_sym as int)
        }),
    ensures
        option_fits(c, redirect_option(c, r, block_index(c.block_starts@, k), name, alt)),
{
    let d = c.stream();
    let n = c.output@.len() as int;
    let block = block_index(c.block_starts@, k);
    let o = redirect_option(c, r, block, name, alt);
    lemma_block_inside(c, k);
    assert(site_table(d, k) == c.dist_encs@[block]@);
    assert(site_ok(d, k));
    assert(crate::deflate::replay_law::ev_len(c.events@[k]) >= 1);
    assert(covers(c.events@[k], r.out_pos as int));
    lemma_owner_is(c.events@, n, r.out_pos as int, k);
    let now = edited_events(c.events@, o.action.kind);
    assert(now == with_source(c.events@, k, alt.src_out_pos, alt.dist_sym));
    let patch = o.action.patches[0];
    assert(changed(d, now, k));
    assert(sym_code(site_table(d, k), alt.dist_sym as int) is Some);
    assert(patch_writes(d, now, patch, k));
    assert(patch_fits(d, now, patch));
    assert forall|j: int| #[trigger] changed(d, now, j) implies event_patched(
        d,
        now,
        o.action.patches,
        j,
    ) by {
        assert(j == k);
        assert(patch_writes(d, now, o.action.patches[0], k));
    }
}

proof fn lemma_redirects_fit(
    c: CoreData,
    k: int,
    r: RefEvent,
    name: Seq<char>,
    alts: Seq<DistAlt>,
)
    requires
        c.wf(),
        sites_known(c),
        0 <= k < c.events@.len(),
        c.events@[k] == Event::Ref(r),
        forall|i: int| 0 <= i < alts.len() ==> alt_ok(r, #[trigger] alts[i]),
    ensures
        options_fit(c, redirect_options(c, r, block_index(c.block_starts@, k), name, alts)),
    decreases alts.len(),
{
    if alts.len() > 0 {
        let block = block_index(c.block_starts@, k);
        let front = alts.drop_last();
        assert forall|i: int| 0 <= i < front.len() implies alt_ok(r, #[trigger] front[i]) by {
            assert(front[i] == alts[i]);
        }
        lemma_redirects_fit(c, k, r, name, front);
        assert(alt_ok(r, alts[alts.len() - 1]));
        let table = c.dist_encs@[block]@;
        if code_len(table, alts.last().dist_sym as int) == code_len(table, r.dist_sym as int) {
            lemma_redirect_fits(c, k, r, name, alts.last());
        }
    }
}

proof fn lemma_alts_ok(c: CoreData, k: int, r: RefEvent)
    requires
        c.wf(),
        sites_known(c),
        0 <= k < c.events@.len(),
        c.events@[k] == Event::Ref(r),
    ensures
        ({
            let alts = alts_in(
                c.dist_encs@,
                block_index(c.block_starts@, k),
                r.dist_sym as int,
                r.out_pos as int,
                r.src_out_pos as int,
            );
            forall|i: int| 0 <= i < alts.len() ==> alt_ok(r, #[trigger] alts[i])
        }),
{
    let block = block_index(c.block_starts@, k);
    let alts = alts_in(
        c.dist_encs@,
        block,
        r.dist_sym as int,
        r.out_pos as int,
        r.src_out_pos as int,
    );
    lemma_block_inside(c, k);
    assert(site_ok(c.stream(), k));
    assert forall|i: int| 0 <= i < alts.len() implies alt_ok(r, #[trigger] alts[i]) by {
        let table = c.dist_encs@[block]@;
        law_alts_keep_width(
            table,
            r.dist_sym as int,
            r.out_pos as int,
            r.src_out_pos as int,
            defined_syms(table),
            i,
        );
    }
}

// Swaps.

/// The site is that of a literal of the group's symbol and block.
spec fn site_of(c: CoreData, g: GroupView, s: LitPatchSite, k: int) -> bool {
    &&& 0 <= k < c.events@.len()
    &&& block_index(c.block_starts@, k) == g.block
    &&& c.events@[k] matches Event::Lit(l) && l.symbol == g.val && l.bit_start == s.bit_start
        && l.out_pos == s.out_pos
}

spec fn site_known(c: CoreData, g: GroupView, s: LitPatchSite) -> bool {
    exists|k: int| #[trigger] site_of(c, g, s, k)
}

/// Every site of the group is.
spec fn group_ok(c: CoreData, g: GroupView) -> bool {
    forall|i: int| 0 <= i < g.sites.len() ==> site_known(c, g, #[trigger] g.sites[i])
}

spec fn groups_ok(c: CoreData, groups: Seq<GroupView>) -> bool {
    forall|i: int| 0 <= i < groups.len() ==> group_ok(c, #[trigger] groups[i])
}

proof fn lemma_add_site_ok(
    c: CoreData,
    groups: Seq<GroupView>,
    k: int,
    l: LitEvent,
    site: LitPatchSite,
    i: int,
)
    requires
        c.wf(),
        0 <= i,
        groups_ok(c, groups),
        0 <= k < c.events@.len(),
        c.events@[k] == Event::Lit(l),
        site.bit_start == l.bit_start,
        site.out_pos == l.out_pos,
    ensures
        groups_ok(
            c,
            add_site(groups, l.symbol, block_index(c.block_starts@, k) as u32, site, i),
        ),
    decreases groups.len() - i,
{
    lemma_block_inside(c, k);
    let block = block_index(c.block_starts@, k) as u32;
    let now = add_site(groups, l.symbol, block, site, i);
    if i >= groups.len() {
        let g = GroupView { val: l.symbol, block, sites: seq![site] };
        assert(site_of(c, g, site, k));
        assert(group_ok(c, g));
    } else if groups[i].val == l.symbol && groups[i].block == block {
        let g = now[i];
        assert(group_ok(c, groups[i]));
        assert forall|j: int| 0 <= j < g.sites.len() implies site_known(c, g, #[trigger] g.sites[j]) by {
            if j < groups[i].sites.len() {
                assert(site_known(c, groups[i], groups[i].sites[j]));
                let m = choose|m: int| site_of(c, groups[i], groups[i].sites[j], m);
                assert(site_of(c, g, g.sites[j], m));
            } else {
                assert(site_of(c, g, site, k));
            }
        }
        assert(group_ok(c, g));
    } else {
        lemma_add_site_ok(c, groups, k, l, site, i + 1);
    }
}

/// Swapping literals for one symbol: which events change, and to what.
proof fn lemma_swap_events(events: Seq<Event>, n: int, updates: Seq<ByteWrite>, value: u8)
    requires
        crate::index::forest::stream_shape(events, n),
        swaps_ok(events, n, updates),
        forall|i: int| 0 <= i < updates.len() ==> (#[trigger] updates[i]).value == value,
    ensures
        swap_all(events, updates).len() == events.len(),
        forall|k: int|
            0 <= k < events.len() ==> #[trigger] swap_all(events, updates)[k] == events[k] || (
            exists|i: int|
                0 <= i < updates.len() && owner(events, (#[trigger] updates[i]).out_pos as int)
                    == Some(k)),
        forall|i: int|
            #![trigger updates[i]]
            0 <= i < updates.len() ==> ({
                let k = owner(events, updates[i].out_pos as int)->0;
                swap_all(events, updates)[k] == Event::Lit(
                    LitEvent { symbol: value, ..events[k]->Lit_0 },
                )
            }),
    decreases updates.len(),
{
    if updates.len() > 0 {
        let front = updates.drop_last();
        let u = updates.last();
        assert(updates[updates.len() - 1] == u);
        assert forall|i: int| 0 <= i < front.len() implies (#[trigger] front[i]).value == value
            && front[i].out_pos < n && owner_event(events, front[i].out_pos as int) is Lit by {
            assert(updates[i] == front[i]);
        }
        lemma_swap_events(events, n, front, value);
        lemma_swap_all(events, n, front);
        let mid = swap_all(events, front);
        let now = swap_all(events, updates);
        lemma_owner(events, n, u.out_pos as int);
        let m = owner(events, u.out_pos as int)->0;
        assert(owner(mid, u.out_pos as int) == owner(events, u.out_pos as int));
        assert(now == with_symbol(mid, m, u.value));
        // Whatever came before, the byte's literal keeps its place.
        assert(mid[m] == events[m] || mid[m] == Event::Lit(
            LitEvent { symbol: value, ..events[m]->Lit_0 },
        )) by {
            if mid[m] != events[m] {
                let i = choose|i: int|
                    0 <= i < front.len() && owner(events, (#[trigger] front[i]).out_pos as int)
                        == Some(m);
                assert(front[i].value == value);
            }
        }
        assert forall|k: int| 0 <= k < events.len() implies #[trigger] now[k] == events[k] || (
        exists|i: int|
            0 <= i < updates.len() && owner(events, (#[trigger] updates[i]).out_pos as int) == Some(
                k,
            )) by {
            if now[k] != events[k] {
                if k == m {
                    assert(owner(events, updates[updates.len() - 1].out_pos as int) == Some(k));
                } else {
                    assert(mid[k] != events[k]);
                    let i = choose|i: int|
                        0 <= i < front.len() && owner(events, (#[trigger] front[i]).out_pos as int)
                            == Some(k);
                    assert(updates[i] == front[i]);
                }
            }
        }
        assert forall|i: int| #![trigger updates[i]] 0 <= i < updates.len() implies ({
            let k = owner(events, updates[i].out_pos as int)->0;
            now[k] == Event::Lit(LitEvent { symbol: value, ..events[k]->Lit_0 })
        }) by {
            if i < front.len() {
                assert(front[i] == updates[i]);
                lemma_owner(events, n, updates[i].out_pos as int);
            }
        }
    }
}

proof fn lemma_swap_fits(c: CoreData, g: GroupView, tgt: u16)
    requires
        c.wf(),
        sites_known(c),
        group_ok(c, g),
        g.sites.len() > 0 ==> g.block < c.lit_encs@.len(),
        tgt < 256,
        tgt != g.val,
        ({
            let table = c.lit_encs@[g.block as int]@;
            sym_code(table, tgt as int) is Some && code_len(table, tgt as int) == code_len(
                table,
                g.val as int,
            )
        }),
    ensures
        option_fits(c, swap_option(c, g, tgt)),
{
    let d = c.stream();
    let n = c.output@.len() as int;
    let events = c.events@;
    let o = swap_option(c, g, tgt);
    let patches = o.action.patches;
    let updates = o.action.kind->Swap_0;
    let table = c.lit_encs@[g.block as int]@;
    let value = tgt as u8;
    assert forall|i: int| #![trigger updates[i]] 0 <= i < updates.len() implies updates[i].value
        == value && updates[i].out_pos < n && owner_event(events, updates[i].out_pos as int) is Lit
        && site_of(c, g, g.sites[i], owner(events, updates[i].out_pos as int)->0) by {
        assert(site_known(c, g, g.sites[i]));
        let k = choose|k: int| site_of(c, g, g.sites[i], k);
        assert(covers(events[k], updates[i].out_pos as int));
        lemma_owner_is(events, n, updates[i].out_pos as int, k);
    }
    lemma_swap_events(events, n, updates, value);
    let now = edited_events(events, o.action.kind);
    assert(now == swap_all(events, updates));
    assert forall|i: int| 0 <= i < patches.len() implies patch_writes(
        d,
        now,
        #[trigger] patches[i],
        owner(events, updates[i].out_pos as int)->0,
    ) && patches[i].code_len <= 15 by {
        let k = owner(events, updates[i].out_pos as int)->0;
        assert(site_of(c, g, g.sites[i], k));
        lemma_block_inside(c, k);
        assert(site_table(d, k) == table);
        assert(site_ok(d, k));
        assert(now[k] == Event::Lit(LitEvent { symbol: value, ..events[k]->Lit_0 }));
        assert(changed(d, now, k));
    }
    assert forall|i: int| 0 <= i < patches.len() implies patch_fits(
        d,
        now,
        #[trigger] patches[i],
    ) by {
        assert(patch_writes(d, now, patches[i], owner(events, updates[i].out_pos as int)->0));
    }
    assert forall|k: int| #[trigger] changed(d, now, k) implies event_patched(
        d,
        now,
        patches,
        k,
    ) by {
        assert(now[k] != events[k]);
        let i = choose|i: int|
            0 <= i < updates.len() && owner(events, (#[trigger] updates[i]).out_pos as int) == Some(
                k,
            );
        assert(patch_writes(d, now, patches[i], k));
    }
}

proof fn lemma_swap_symbols(entries: Seq<crate::deflate::events::SymCode>, val: int, n: int)
    requires
        0 <= n <= 256,
    ensures
        forall|i: int|
            0 <= i < swap_symbols(entries, val, n).len() ==> ({
                let t = #[trigger] swap_symbols(entries, val, n)[i];
                t < n && t != val && sym_code(entries, t as int) is Some && code_len(
                    entries,
                    t as int,
                ) == code_len(entries, val)
            }),
    decreases n,
{
    if n > 0 {
        lemma_swap_symbols(entries, val, n - 1);
    }
}

proof fn lemma_swaps_fit(c: CoreData, groups: Seq<GroupView>)
    requires
        c.wf(),
        sites_known(c),
        groups_ok(c, groups),
    ensures
        options_fit(c, swap_options(c, groups)),
    decreases groups.len(),
{
    if groups.len() > 0 {
        let g = groups.last();
        assert(group_ok(c, groups[groups.len() - 1]));
        let front = groups.drop_last();
        assert forall|i: int| 0 <= i < front.len() implies group_ok(c, #[trigger] front[i]) by {
            assert(front[i] == groups[i]);
        }
        lemma_swaps_fit(c, front);
        let table = c.lit_encs@[g.block as int]@;
        let symbols = swap_symbols(table, g.val as int, 256);
        lemma_swap_symbols(table, g.val as int, 256);
        if g.sites.len() > 0 {
            assert(site_known(c, g, g.sites[0]));
            let k = choose|k: int| site_of(c, g, g.sites[0], k);
            lemma_block_inside(c, k);
        }
        let more = swap_targets(c, g, symbols);
        assert forall|i: int| 0 <= i < more.len() implies option_fits(c, #[trigger] more[i]) by {
            assert(symbols[i] < 256);
            lemma_swap_fits(c, g, symbols[i]);
        }
        let rest = swap_options(c, front);
        assert forall|i: int| 0 <= i < (rest + more).len() implies option_fits(
            c,
            #[trigger] (rest + more)[i],
        ) by {
            if i < rest.len() {
                assert(option_fits(c, rest[i]));
            } else {
                assert(option_fits(c, more[i - rest.len()]));
            }
        }
    }
}

// The whole selection.

proof fn lemma_walk_fits(c: CoreData, sel: PixelXY, base: int, evs: Seq<ChannelEvent>)
    requires
        c.wf(),
        sites_known(c),
        events_inside(evs, c.events@.len()),
    ensures
        options_fit(c, walked(c, sel, base, evs).build.edit_options),
        groups_ok(c, walked(c, sel, base, evs).groups),
    decreases evs.len(),
{
    if evs.len() > 0 {
        let front = evs.drop_last();
        let ev = evs.last();
        assert(evs[evs.len() - 1] == ev);
        assert forall|i: int| 0 <= i < front.len() implies (#[trigger] front[i]).ev_idx
            < c.events@.len() by {
            assert(front[i] == evs[i]);
        }
        lemma_walk_fits(c, sel, base, front);
        let w = walked(c, sel, base, front);
        let k = ev.ev_idx as int;
        let block = block_index(c.block_starts@, k);
        match c.events@[k] {
            Event::Lit(l) => {
                let site = LitPatchSite { ch: ev.ch, bit_start: l.bit_start, out_pos: l.out_pos };
                lemma_add_site_ok(c, w.groups, k, l, site, 0);
            },
            Event::Ref(r) => {
                let alts = alts_in(
                    c.dist_encs@,
                    block,
                    r.dist_sym as int,
                    r.out_pos as int,
                    r.src_out_pos as int,
                );
                let name = c.info.label(ev.ch);
                lemma_alts_ok(c, k, r);
                lemma_redirects_fit(c, k, r, name, alts);
                let rest = w.build.edit_options;
                let more = redirect_options(c, r, block, name, alts);
                assert forall|i: int| 0 <= i < (rest + more).len() implies option_fits(
                    c,
                    #[trigger] (rest + more)[i],
                ) by {
                    if i < rest.len() {
                        assert(option_fits(c, rest[i]));
                    } else {
                        assert(option_fits(c, more[i - rest.len()]));
                    }
                }
            },
        }
    }
}

/// Every edit in the panel's list can be applied, and its patches are just the
/// codes of the events that it changes, each as long as the one it replaces.
pub proof fn law_offered_edits_fit(
    c: CoreData,
    data: Seq<u8>,
    max_output: Option<usize>,
    sel: PixelXY,
    base: int,
    evs: Seq<ChannelEvent>,
)
    requires
        c.wf(),
        addressable(data, max_output),
        decode_spec(data, max_output) == Ok::<_, DecodeError>(c.stream()),
        events_inside(evs, c.events@.len()),
    ensures
        options_fit(c, selection_of(c, sel, base, evs).edit_options),
{
    law_codes_in_order(data, max_output, c.stream());
    assert(sites_known(c));
    lemma_walk_fits(c, sel, base, evs);
    let w = walked(c, sel, base, evs);
    lemma_swaps_fit(c, w.groups);
    let rest = w.build.edit_options;
    let more = swap_options(c, w.groups);
    assert forall|i: int| 0 <= i < (rest + more).len() implies option_fits(
        c,
        #[trigger] (rest + more)[i],
    ) by {
        if i < rest.len() {
            assert(option_fits(c, rest[i]));
        } else {
            assert(option_fits(c, more[i - rest.len()]));
        }
    }
}

// Undoing.

/// The patches start at different bits.
spec fn starts_differ(patches: Seq<Patch>) -> bool {
    forall|i: int, j: int|
        0 <= i < j < patches.len() ==> (#[trigger] patches[i]).bit_start != (
        #[trigger] patches[j]).bit_start
}

spec fn all_starts_differ(options: Seq<OptionView>) -> bool {
    forall|i: int|
        0 <= i < options.len() ==> starts_differ((#[trigger] options[i]).action.patches)
}

/// The sites of the group are in the order of their bytes, all before `limit`.
spec fn group_spread(g: GroupView, limit: int) -> bool {
    &&& forall|i: int, j: int|
        0 <= i < j < g.sites.len() ==> (#[trigger] g.sites[i]).out_pos < (
        #[trigger] g.sites[j]).out_pos
    &&& forall|i: int| 0 <= i < g.sites.len() ==> (#[trigger] g.sites[i]).out_pos < limit
}

spec fn groups_spread(groups: Seq<GroupView>, limit: int) -> bool {
    forall|i: int| 0 <= i < groups.len() ==> group_spread(#[trigger] groups[i], limit)
}

proof fn lemma_spread_on(groups: Seq<GroupView>, limit: int, next: int)
    requires
        groups_spread(groups, limit),
        limit <= next,
    ensures
        groups_spread(groups, next),
{
    assert forall|i: int| 0 <= i < groups.len() implies group_spread(#[trigger] groups[i], next) by {
        assert(group_spread(groups[i], limit));
    }
}

proof fn lemma_add_site_spread(
    groups: Seq<GroupView>,
    val: u8,
    block: u32,
    site: LitPatchSite,
    i: int,
    limit: int,
)
    requires
        0 <= i,
        groups_spread(groups, limit),
        limit <= site.out_pos,
    ensures
        groups_spread(add_site(groups, val, block, site, i), site.out_pos + 1),
    decreases groups.len() - i,
{
    let next = site.out_pos + 1;
    lemma_spread_on(groups, limit, next);
    let now = add_site(groups, val, block, site, i);
    if i >= groups.len() {
        assert(group_spread(GroupView { val, block, sites: seq![site] }, next));
    } else if groups[i].val == val && groups[i].block == block {
        assert(group_spread(groups[i], limit));
        assert(group_spread(now[i], next));
    } else {
        lemma_add_site_spread(groups, val, block, site, i + 1, limit);
    }
}

proof fn lemma_swap_starts(c: CoreData, g: GroupView, tgt: u16, limit: int)
    requires
        c.wf(),
        group_ok(c, g),
        group_spread(g, limit),
        code_len(c.lit_encs@[g.block as int]@, g.val as int) > 0,
        forall|i: int, j: int|
            0 <= i < j < c.events@.len() ==> #[trigger] sites_apart(c.stream(), i, j),
    ensures
        starts_differ(swap_option(c, g, tgt).action.patches),
{
    let d = c.stream();
    let patches = swap_option(c, g, tgt).action.patches;
    assert forall|i: int, j: int| 0 <= i < j < patches.len() implies (
    #[trigger] patches[i]).bit_start != (#[trigger] patches[j]).bit_start by {
        assert(site_known(c, g, g.sites[i]));
        assert(site_known(c, g, g.sites[j]));
        let k = choose|k: int| site_of(c, g, g.sites[i], k);
        let m = choose|m: int| site_of(c, g, g.sites[j], m);
        lemma_block_inside(c, k);
        lemma_block_inside(c, m);
        lemma_tiled_order(c.events@, c.output@.len() as int);
        assert(g.sites[i].out_pos < g.sites[j].out_pos);
        assert(k < m);
        assert(site_table(d, k) == c.lit_encs@[g.block as int]@);
        assert(sites_apart(d, k, m));
    }
}

proof fn lemma_swaps_start(c: CoreData, groups: Seq<GroupView>, limit: int)
    requires
        c.wf(),
        groups_ok(c, groups),
        groups_spread(groups, limit),
        forall|i: int, j: int|
            0 <= i < j < c.events@.len() ==> #[trigger] sites_apart(c.stream(), i, j),
    ensures
        all_starts_differ(swap_options(c, groups)),
    decreases groups.len(),
{
    if groups.len() > 0 {
        let g = groups.last();
        assert(group_ok(c, groups[groups.len() - 1]));
        assert(group_spread(groups[groups.len() - 1], limit));
        let front = groups.drop_last();
        assert forall|i: int| 0 <= i < front.len() implies group_ok(c, #[trigger] front[i])
            && group_spread(front[i], limit) by {
            assert(front[i] == groups[i]);
        }
        lemma_swaps_start(c, front, limit);
        let table = c.lit_encs@[g.block as int]@;
        let symbols = swap_symbols(table, g.val as int, 256);
        lemma_swap_symbols(table, g.val as int, 256);
        let more = swap_targets(c, g, symbols);
        assert forall|i: int| 0 <= i < more.len() implies starts_differ(
            (#[trigger] more[i]).action.patches,
        ) by {
            assert(symbols[i] < 256);
            lemma_swap_starts(c, g, symbols[i], limit);
        }
    }
}

proof fn lemma_redirect_starts(
    c: CoreData,
    r: RefEvent,
    block: int,
    name: Seq<char>,
    alts: Seq<DistAlt>,
)
    ensures
        all_starts_differ(redirect_options(c, r, block, name, alts)),
    decreases alts.len(),
{
    if alts.len() > 0 {
        lemma_redirect_starts(c, r, block, name, alts.drop_last());
    }
}

proof fn lemma_walk_starts(c: CoreData, sel: PixelXY, base: int, n: int)
    requires
        c.wf(),
        0 <= base,
        0 <= n <= usize::MAX,
    ensures
        all_starts_differ(
            walked(c, sel, base, pixel_events(c.events@, base, n)).build.edit_options,
        ),
        groups_spread(walked(c, sel, base, pixel_events(c.events@, base, n)).groups, base + n),
        events_inside(pixel_events(c.events@, base, n), c.events@.len()),
    decreases n,
{
    if n > 0 {
        lemma_walk_starts(c, sel, base, n - 1);
        let front = pixel_events(c.events@, base, n - 1);
        let w = walked(c, sel, base, front);
        lemma_spread_on(w.groups, base + n - 1, base + n);
        if let Some(k) = lookup(c.events@, base + n - 1) {
            lemma_lookup_inside(c.events@, base + n - 1);
            lemma_event_count(c.events@, c.output@.len() as int);
            let evs = pixel_events(c.events@, base, n);
            let ev = ChannelEvent { ch: (n - 1) as usize, ev_idx: k as usize };
            assert(evs.drop_last() =~= front);
            assert(evs.last() == ev);
            let block = block_index(c.block_starts@, k);
            match c.events@[k] {
                Event::Lit(l) => {
                    let site = LitPatchSite {
                        ch: ev.ch,
                        bit_start: l.bit_start,
                        out_pos: l.out_pos,
                    };
                    assert(l.out_pos == base + n - 1);
                    lemma_add_site_spread(
                        w.groups,
                        l.symbol,
                        block as u32,
                        site,
                        0,
                        base + n - 1,
                    );
                },
                Event::Ref(r) => {
                    let alts = alts_in(
                        c.dist_encs@,
                        block,
                        r.dist_sym as int,
                        r.out_pos as int,
                        r.src_out_pos as int,
                    );
                    lemma_redirect_starts(c, r, block, c.info.label(ev.ch), alts);
                },
            }
        }
    }
}

/// Patches that fit, and start at different bits, do not overlap.
proof fn lemma_fitting_apart(
    data: Seq<u8>,
    max_output: Option<usize>,
    d: Decoded,
    action: ActionView,
)
    requires
        addressable(data, max_output),
        decode_spec(data, max_output) == Ok::<_, DecodeError>(d),
        d.progress.out.len() <= u32::MAX,
        action_fits(d, action),
        starts_differ(action.patches),
    ensures
        patches_apart(action.patches, data.len()),
{
    law_codes_in_order(data, max_output, d);
    let events = edited_events(d.progress.events, action.kind);
    let patches = action.patches;
    assert forall|i: int| 0 <= i < patches.len() implies (#[trigger] patches[i]).bit_start
        + patches[i].code_len <= 8 * data.len() by {
        assert(patch_fits(d, events, patches[i]));
        let k = choose|k: int| #[trigger] patch_writes(d, events, patches[i], k);
        assert(site_ends(d, k, stream_end(data, max_output) as int));
    }
    assert forall|i: int, j: int, p: int|
        0 <= i < patches.len() && 0 <= j < patches.len() && i != j && #[trigger] in_patch(
            patches[i],
            p,
        ) implies !#[trigger] in_patch(patches[j], p) by {
        assert(patch_fits(d, events, patches[i]));
        assert(patch_fits(d, events, patches[j]));
        let k = choose|k: int| #[trigger] patch_writes(d, events, patches[i], k);
        let m = choose|m: int| #[trigger] patch_writes(d, events, patches[j], m);
        if i < j {
            assert(patches[i].bit_start != patches[j].bit_start);
        } else {
            assert(patches[j].bit_start != patches[i].bit_start);
        }
        if k < m {
            assert(sites_apart(d, k, m));
        } else {
            assert(sites_apart(d, m, k));
        }
    }
}

/// No two patches of an edit that is offered for a pixel overlap, and all lie
/// inside the stream: undoing the edit gives back every bit.
pub proof fn law_offered_edits_undo(
    c: CoreData,
    data: Seq<u8>,
    max_output: Option<usize>,
    sel: PixelXY,
    base: int,
    i: int,
)
    requires
        c.wf(),
        addressable(data, max_output),
        decode_spec(data, max_output) == Ok::<_, DecodeError>(c.stream()),
        0 <= base,
        ({
            let evs = pixel_events(c.events@, base, c.info.bpp as int);
            0 <= i < selection_of(c, sel, base, evs).edit_options.len()
        }),
    ensures
        ({
            let evs = pixel_events(c.events@, base, c.info.bpp as int);
            let action = selection_of(c, sel, base, evs).edit_options[i].action;
            patches_apart(action.patches, data.len())
        }),
{
    let n = c.info.bpp as int;
    let evs = pixel_events(c.events@, base, n);
    let w = walked(c, sel, base, evs);
    lemma_walk_starts(c, sel, base, n);
    law_codes_in_order(data, max_output, c.stream());
    assert(sites_known(c));
    lemma_walk_fits(c, sel, base, evs);
    lemma_swaps_start(c, w.groups, base + n);
    law_offered_edits_fit(c, data, max_output, sel, base, evs);
    let rest = w.build.edit_options;
    let more = swap_options(c, w.groups);
    let option = (rest + more)[i];
    assert(selection_of(c, sel, base, evs).edit_options[i] == option);
    if i < rest.len() {
        assert(starts_differ(rest[i].action.patches));
    } else {
        assert(starts_differ(more[i - rest.len()].action.patches));
    }
    assert(option_fits(c, selection_of(c, sel, base, evs).edit_options[i]));
    lemma_fitting_apart(data, max_output, c.stream(), option.action);
}

} // verus!
