//! That a dynamic block spends no more bits on its codes than it must.

use vstd::arithmetic::power2::pow2;
use vstd::prelude::*;

use super::canonical::{enc_of, kraft};
use super::constants::{base_index, DEXT, LBASE, LEXT};
use super::dynamic::{
    block_dist_lengths, block_lit_lengths, dist_uses, dist_weights, full_dist_lengths,
    lemma_block_lengths, lemma_dist_uses, lemma_leaves_fit, lemma_lit_uses, lemma_used, lit_uses,
    lit_weights,
};
use super::events::Event;
use super::optimal_law::{codes_fit, cost, law_package_merge_optimal};
use super::package_merge::{law_package_merge_complete, pm_lengths, widened};
use super::roundtrip::{event_has_codes, lemma_enc_is_code, usable_codes};
use super::stream_spec::{body_bits, events_bits, lit_symbol, writable_event, writable_events};

verus! {

/// The bits of the literal and length codes of the events under the lengths
/// `lit`.
pub open spec fn lit_code_bits(lit: Seq<u8>, events: Seq<Event>) -> int
    decreases events.len(),
{
    if events.len() == 0 {
        0
    } else {
        lit_code_bits(lit, events.drop_last()) + lit[lit_symbol(events.last())]
    }
}

/// The bits of their distance codes under the lengths `dist`.
pub open spec fn dist_code_bits(dist: Seq<u8>, events: Seq<Event>) -> int
    decreases events.len(),
{
    if events.len() == 0 {
        0
    } else {
        dist_code_bits(dist, events.drop_last()) + match events.last() {
            Event::Lit(_) => 0int,
            Event::Ref(r) => dist[r.dist_sym as int] as int,
        }
    }
}

/// The extra bits behind the codes.
pub open spec fn extra_bits(events: Seq<Event>) -> int
    decreases events.len(),
{
    if events.len() == 0 {
        0
    } else {
        extra_bits(events.drop_last()) + match events.last() {
            Event::Lit(_) => 0int,
            Event::Ref(r) => LEXT@[base_index(LBASE@, r.copy_len as nat)]
                + DEXT@[r.dist_sym as int],
        }
    }
}

/// What the first `n` symbols cost, each as often as the events use it.
spec fn lit_cost(lit: Seq<u8>, events: Seq<Event>, n: int) -> int
    decreases n,
{
    if n <= 0 {
        0
    } else {
        lit_cost(lit, events, n - 1) + lit_uses(events, n - 1) * lit[n - 1]
    }
}

spec fn dist_cost(dist: Seq<u8>, events: Seq<Event>, n: int) -> int
    decreases n,
{
    if n <= 0 {
        0
    } else {
        dist_cost(dist, events, n - 1) + dist_uses(events, n - 1) * dist[n - 1]
    }
}

proof fn lemma_lit_cost_step(lit: Seq<u8>, events: Seq<Event>, n: int)
    requires
        events.len() > 0,
        0 <= n,
    ensures
        lit_cost(lit, events, n) == lit_cost(lit, events.drop_last(), n) + (if 0 <= lit_symbol(
            events.last(),
        ) < n {
            lit[lit_symbol(events.last())] as int
        } else {
            0
        }),
    decreases n,
{
    if n > 0 {
        lemma_lit_cost_step(lit, events, n - 1);
        let u = lit_uses(events.drop_last(), n - 1) as int;
        let l = lit[n - 1] as int;
        assert((u + 1) * l == u * l + l) by (nonlinear_arith);
    }
}

proof fn lemma_dist_cost_step(dist: Seq<u8>, events: Seq<Event>, n: int)
    requires
        events.len() > 0,
        0 <= n,
    ensures
        dist_cost(dist, events, n) == dist_cost(dist, events.drop_last(), n)
            + match events.last() {
            Event::Ref(r) if r.dist_sym < n => dist[r.dist_sym as int] as int,
            _ => 0int,
        },
    decreases n,
{
    if n > 0 {
        lemma_dist_cost_step(dist, events, n - 1);
        let u = dist_uses(events.drop_last(), n - 1) as int;
        let l = dist[n - 1] as int;
        assert((u + 1) * l == u * l + l) by (nonlinear_arith);
    }
}

proof fn lemma_lit_total(lit: Seq<u8>, events: Seq<Event>, n: int)
    requires
        0 <= n,
        forall|k: int| 0 <= k < events.len() ==> 0 <= lit_symbol(#[trigger] events[k]) < n,
    ensures
        lit_code_bits(lit, events) == lit_cost(lit, events, n),
    decreases events.len(),
{
    if events.len() > 0 {
        let front = events.drop_last();
        assert forall|k: int| 0 <= k < front.len() implies 0 <= lit_symbol(#[trigger] front[k])
            < n by {
            assert(front[k] == events[k]);
        }
        lemma_lit_total(lit, front, n);
        lemma_lit_cost_step(lit, events, n);
        assert(0 <= lit_symbol(events[events.len() - 1]) < n);
    } else {
        lemma_lit_none(lit, events, n);
    }
}

proof fn lemma_lit_none(lit: Seq<u8>, events: Seq<Event>, n: int)
    requires
        events.len() == 0,
    ensures
        lit_cost(lit, events, n) == 0,
    decreases n,
{
    if n > 0 {
        lemma_lit_none(lit, events, n - 1);
        let l = lit[n - 1] as int;
        assert(0 * l == 0);
    }
}

proof fn lemma_dist_total(dist: Seq<u8>, events: Seq<Event>, n: int)
    requires
        0 <= n,
        forall|k: int|
            0 <= k < events.len() ==> (#[trigger] events[k] matches Event::Ref(r) ==> r.dist_sym
                < n),
    ensures
        dist_code_bits(dist, events) == dist_cost(dist, events, n),
    decreases events.len(),
{
    if events.len() > 0 {
        let front = events.drop_last();
        assert forall|k: int| 0 <= k < front.len() implies (#[trigger] front[k] matches Event::Ref(
            r,
        ) ==> r.dist_sym < n) by {
            assert(front[k] == events[k]);
        }
        lemma_dist_total(dist, front, n);
        lemma_dist_cost_step(dist, events, n);
        assert(events[events.len() - 1] matches Event::Ref(r) ==> r.dist_sym < n);
    } else {
        lemma_dist_none(dist, events, n);
    }
}

proof fn lemma_dist_none(dist: Seq<u8>, events: Seq<Event>, n: int)
    requires
        events.len() == 0,
    ensures
        dist_cost(dist, events, n) == 0,
    decreases n,
{
    if n > 0 {
        lemma_dist_none(dist, events, n - 1);
        let l = dist[n - 1] as int;
        assert(0 * l == 0);
    }
}

proof fn lemma_lit_weighed(lit: Seq<u8>, events: Seq<Event>, n: int)
    requires
        0 <= n <= 286,
        events.len() < u32::MAX,
    ensures
        cost(lit_weights(events), lit, n) == lit_cost(lit, events, n) + (if n > 256 {
            lit[256] as int
        } else {
            0
        }),
    decreases n,
{
    if n > 0 {
        lemma_lit_weighed(lit, events, n - 1);
        lemma_lit_uses(events, n - 1);
        let u = lit_uses(events, n - 1) as int;
        let l = lit[n - 1] as int;
        assert((u + 1) * l == u * l + l) by (nonlinear_arith);
    }
}

proof fn lemma_dist_weighed(dist: Seq<u8>, events: Seq<Event>, n: int)
    requires
        0 <= n <= 30,
        events.len() < u32::MAX,
    ensures
        cost(dist_weights(events), dist, n) == dist_cost(dist, events, n),
    decreases n,
{
    if n > 0 {
        lemma_dist_weighed(dist, events, n - 1);
        lemma_dist_uses(events, n - 1);
    }
}

/// How long the body of a block is: its codes and the extra bits behind them.
proof fn lemma_events_len(lit: Seq<u8>, dist: Seq<u8>, events: Seq<Event>)
    requires
        usable_codes(widened(lit), widened(dist), events),
    ensures
        events_bits(enc_of(widened(lit)), enc_of(widened(dist)), events).len() == lit_code_bits(
            lit,
            events,
        ) + dist_code_bits(dist, events) + extra_bits(events),
    decreases events.len(),
{
    if events.len() > 0 {
        let front = events.drop_last();
        let e = events.last();
        let l = widened(lit);
        let d = widened(dist);
        assert forall|k: int| 0 <= k < front.len() implies event_has_codes(
            l,
            d,
            #[trigger] front[k],
        ) by {
            assert(front[k] == events[k]);
        }
        lemma_events_len(lit, dist, front);
        assert(event_has_codes(l, d, events[events.len() - 1]));
        lemma_enc_is_code(l, lit_symbol(e));
        if let Event::Ref(r) = e {
            lemma_enc_is_code(d, r.dist_sym as int);
        }
    }
}

/// The body of a dynamic block is as short as codes of at most 15 bits can make
/// it: whatever other lengths give its symbols codes, and do not claim more than
/// the code space, would spend at least as many bits on the same events.
pub proof fn law_dynamic_body_shortest(events: Seq<Event>, lit: Seq<u8>, dist: Seq<u8>)
    requires
        writable_events(events),
        events.len() < u32::MAX,
        lit.len() == 286,
        dist.len() == 30,
        forall|s: int| 0 <= s < 286 ==> #[trigger] lit[s] <= 15,
        forall|s: int| 0 <= s < 30 ==> #[trigger] dist[s] <= 15,
        lit[256] > 0,
        forall|k: int|
            0 <= k < events.len() ==> lit[lit_symbol(#[trigger] events[k])] > 0 && (
            events[k] matches Event::Ref(r) ==> dist[r.dist_sym as int] > 0),
        kraft(widened(lit), 15) <= pow2(15),
        kraft(widened(dist), 15) <= pow2(15),
    ensures
        body_bits(
            enc_of(widened(block_lit_lengths(events))),
            enc_of(widened(block_dist_lengths(events))),
            events,
        ).len() <= lit_code_bits(lit, events) + lit[256] + dist_code_bits(dist, events)
            + extra_bits(events),
{
    let bl = block_lit_lengths(events);
    let bd = block_dist_lengths(events);
    let all_l = pm_lengths(lit_weights(events), 15);
    let all_d = pm_lengths(dist_weights(events), 15);
    lemma_block_lengths(events);
    lemma_leaves_fit(lit_weights(events), 15);
    lemma_leaves_fit(dist_weights(events), 15);
    law_package_merge_complete(lit_weights(events), 15);
    law_package_merge_complete(dist_weights(events), 15);
    lemma_used(all_l, 286, 257);
    lemma_used(full_dist_lengths(events), 30, 1);
    assert(bl =~= all_l.take(bl.len() as int));
    lemma_events_len(bl, bd, events);
    lemma_enc_is_code(widened(bl), 256);
    assert(bl[256] == all_l[256]);
    assert forall|k: int| 0 <= k < events.len() implies 0 <= lit_symbol(#[trigger] events[k]) < 286
        && (events[k] matches Event::Ref(r) ==> r.dist_sym < 30) && lit_symbol(events[k])
        < bl.len() && (events[k] matches Event::Ref(r) ==> r.dist_sym < bd.len()) by {
        assert(event_has_codes(widened(bl), widened(bd), events[k]));
        assert(writable_event(events[k]));
    }
    // The literal and length codes.
    lemma_lit_total(lit, events, 286);
    lemma_lit_total(all_l, events, 286);
    lemma_lit_weighed(lit, events, 286);
    lemma_lit_weighed(all_l, events, 286);
    lemma_lit_same(bl, all_l, events);
    assert(codes_fit(lit_weights(events), lit, 15)) by {
        assert forall|s: int| 0 <= s < 286 && lit_weights(events)[s] > 0 implies #[trigger] lit[s]
            > 0 by {
            if s != 256 {
                lemma_lit_used(events, s);
                let k = choose|k: int|
                    0 <= k < events.len() && lit_symbol(#[trigger] events[k]) == s;
                assert(lit[lit_symbol(events[k])] > 0);
            }
        }
    }
    law_package_merge_optimal(lit_weights(events), lit, 15);
    // The distance codes.
    lemma_dist_total(dist, events, 30);
    lemma_dist_total(all_d, events, 30);
    lemma_dist_weighed(dist, events, 30);
    lemma_dist_weighed(all_d, events, 30);
    assert(codes_fit(dist_weights(events), dist, 15)) by {
        assert forall|s: int| 0 <= s < 30 && dist_weights(events)[s] > 0 implies #[trigger] dist[s]
            > 0 by {
            lemma_dist_used(events, s);
            let k = choose|k: int|
                0 <= k < events.len() && (#[trigger] events[k] matches Event::Ref(r) && r.dist_sym
                    == s);
            assert(lit[lit_symbol(events[k])] > 0);
        }
    }
    law_package_merge_optimal(dist_weights(events), dist, 15);
    if exists|k: int| 0 <= k < events.len() && #[trigger] events[k] is Ref {
        let k = choose|k: int| 0 <= k < events.len() && #[trigger] events[k] is Ref;
        let s = events[k]->Ref_0.dist_sym as int;
        assert(widened(bd)[s] > 0);
        lemma_dist_kept(events, k);
        assert(bd =~= all_d.take(bd.len() as int));
        lemma_dist_same(bd, all_d, events);
    } else {
        lemma_no_refs(bd, events);
        lemma_no_refs(dist, events);
    }
}

proof fn lemma_lit_used(events: Seq<Event>, s: int)
    requires
        lit_uses(events, s) > 0,
    ensures
        exists|k: int| 0 <= k < events.len() && lit_symbol(#[trigger] events[k]) == s,
    decreases events.len(),
{
    if lit_symbol(events.last()) == s {
        assert(lit_symbol(events[events.len() - 1]) == s);
    } else {
        lemma_lit_used(events.drop_last(), s);
        let k = choose|k: int|
            0 <= k < events.drop_last().len() && lit_symbol(#[trigger] events.drop_last()[k]) == s;
        assert(lit_symbol(events[k]) == s);
    }
}

proof fn lemma_dist_used(events: Seq<Event>, s: int)
    requires
        dist_uses(events, s) > 0,
    ensures
        exists|k: int|
            0 <= k < events.len() && (#[trigger] events[k] matches Event::Ref(r) && r.dist_sym
                == s),
    decreases events.len(),
{
    let here = events.last() matches Event::Ref(r) && r.dist_sym == s;
    if here {
        assert(events[events.len() - 1] matches Event::Ref(r) && r.dist_sym == s);
    } else {
        lemma_dist_used(events.drop_last(), s);
        let k = choose|k: int|
            0 <= k < events.drop_last().len() && (#[trigger] events.drop_last()[k] matches Event::Ref(
                r,
            ) && r.dist_sym == s);
        assert(events[k] matches Event::Ref(r) && r.dist_sym == s);
    }
}

/// The block's literal lengths are the front of all of them.
proof fn lemma_lit_same(bl: Seq<u8>, all: Seq<u8>, events: Seq<Event>)
    requires
        bl.len() <= all.len(),
        bl == all.take(bl.len() as int),
        forall|k: int|
            0 <= k < events.len() ==> 0 <= lit_symbol(#[trigger] events[k]) < bl.len(),
    ensures
        lit_code_bits(bl, events) == lit_code_bits(all, events),
    decreases events.len(),
{
    if events.len() > 0 {
        let front = events.drop_last();
        assert forall|k: int| 0 <= k < front.len() implies 0 <= lit_symbol(#[trigger] front[k])
            < bl.len() by {
            assert(front[k] == events[k]);
        }
        lemma_lit_same(bl, all, front);
        assert(0 <= lit_symbol(events[events.len() - 1]) < bl.len());
    }
}

proof fn lemma_dist_same(bd: Seq<u8>, all: Seq<u8>, events: Seq<Event>)
    requires
        bd.len() <= all.len(),
        bd == all.take(bd.len() as int),
        forall|k: int|
            0 <= k < events.len() ==> (#[trigger] events[k] matches Event::Ref(r) ==> r.dist_sym
                < bd.len()),
    ensures
        dist_code_bits(bd, events) == dist_code_bits(all, events),
    decreases events.len(),
{
    if events.len() > 0 {
        let front = events.drop_last();
        assert forall|k: int| 0 <= k < front.len() implies (#[trigger] front[k] matches Event::Ref(
            r,
        ) ==> r.dist_sym < bd.len()) by {
            assert(front[k] == events[k]);
        }
        lemma_dist_same(bd, all, front);
        assert(events[events.len() - 1] matches Event::Ref(r) ==> r.dist_sym < bd.len());
    }
}

proof fn lemma_no_refs(dist: Seq<u8>, events: Seq<Event>)
    requires
        forall|k: int| 0 <= k < events.len() ==> !(#[trigger] events[k] is Ref),
    ensures
        dist_code_bits(dist, events) == 0,
    decreases events.len(),
{
    if events.len() > 0 {
        let front = events.drop_last();
        assert forall|k: int| 0 <= k < front.len() implies !(#[trigger] front[k] is Ref) by {
            assert(front[k] == events[k]);
        }
        lemma_no_refs(dist, front);
        assert(!(events[events.len() - 1] is Ref));
    }
}

/// Where there is a back-reference, no distance code is made up.
proof fn lemma_dist_kept(events: Seq<Event>, k: int)
    requires
        writable_events(events),
        events.len() < u32::MAX,
        0 <= k < events.len(),
        events[k] is Ref,
    ensures
        full_dist_lengths(events) == pm_lengths(dist_weights(events), 15),
{
    let s = events[k]->Ref_0.dist_sym as int;
    let w = dist_weights(events);
    assert(writable_event(events[k]));
    lemma_dist_counted(events, k);
    lemma_dist_uses(events, s);
    assert(w[s] > 0);
    lemma_leaves_fit(w, 15);
    law_package_merge_complete(w, 15);
    assert(pm_lengths(w, 15)[s] > 0);
}

proof fn lemma_dist_counted(events: Seq<Event>, k: int)
    requires
        0 <= k < events.len(),
        events[k] is Ref,
    ensures
        dist_uses(events, events[k]->Ref_0.dist_sym as int) > 0,
    decreases events.len(),
{
    if k < events.len() - 1 {
        lemma_dist_counted(events.drop_last(), k);
    }
}

} // verus!
