//! That every edit of equal width is offered: same-length literals, and the
//! redirects of a back-reference.

use vstd::prelude::*;

use super::pixel::{
    alts_in, class_of, defined_syms, dist_alts, extra_value, law_alts_keep_width, targets, DistAlt,
    EventClass,
};
use crate::deflate::constants::{DBASE, DEXT};
use crate::deflate::events::{EncTable, Event, LitEvent, RefEvent, SymCode};

verus! {

/// A back-reference at `out_pos`, `distance` back under distance symbol `cur`,
/// can go to symbol `s` instead: the codes are equally long, the symbols have as
/// many extra bits, and with the same extra bits the source lies inside the
/// output.
pub open spec fn can_redirect(
    codes: Seq<SymCode>,
    cur: int,
    out_pos: int,
    distance: int,
    s: int,
) -> bool {
    &&& 0 <= s < 30
    &&& s < codes.len()
    &&& s != cur
    &&& codes[s].len == codes[cur].len
    &&& DEXT@[s] == DEXT@[cur]
    &&& DBASE@[s] + (distance - DBASE@[cur]) <= out_pos
}

/// `alt` is the redirect to symbol `s`.
pub open spec fn redirects_to(
    alt: DistAlt,
    cur: int,
    out_pos: int,
    distance: int,
    s: int,
) -> bool {
    &&& alt.dist_sym == s
    &&& alt.distance == DBASE@[s] + (distance - DBASE@[cur])
    &&& alt.src_out_pos == out_pos - alt.distance
}

/// A back-reference that a table can have been read with: its symbol has a code,
/// and its distance is not below the symbol's base.
pub open spec fn has_code(codes: Seq<SymCode>, cur: int, out_pos: int, distance: int) -> bool {
    &&& 0 <= cur < 30
    &&& cur < codes.len()
    &&& codes[cur].len > 0
    &&& DBASE@[cur] <= distance <= out_pos <= u32::MAX
}

proof fn lemma_target_listed(
    codes: Seq<SymCode>,
    cur: int,
    out_pos: int,
    distance: int,
    n: int,
    s: int,
) -> (i: int)
    requires
        has_code(codes, cur, out_pos, distance),
        n <= codes.len(),
        n <= 30,
        s < n,
        can_redirect(codes, cur, out_pos, distance, s),
    ensures
        0 <= i < targets(codes, cur, out_pos, out_pos - distance, n).len(),
        redirects_to(
            targets(codes, cur, out_pos, out_pos - distance, n)[i],
            cur,
            out_pos,
            distance,
            s,
        ),
    decreases n,
{
    let rest = targets(codes, cur, out_pos, out_pos - distance, n - 1);
    if s == n - 1 {
        rest.len() as int
    } else {
        lemma_target_listed(codes, cur, out_pos, distance, n - 1, s)
    }
}

proof fn lemma_targets_ascend(
    codes: Seq<SymCode>,
    cur: int,
    out_pos: int,
    src: int,
    n: int,
    i: int,
    j: int,
)
    requires
        0 <= cur < 30,
        0 <= src <= out_pos <= u32::MAX,
        n <= 30,
        0 <= i < j < targets(codes, cur, out_pos, src, n).len(),
    ensures
        targets(codes, cur, out_pos, src, n)[i].dist_sym < targets(
            codes,
            cur,
            out_pos,
            src,
            n,
        )[j].dist_sym,
    decreases n,
{
    if n > 0 {
        let rest = targets(codes, cur, out_pos, src, n - 1);
        if j < rest.len() {
            lemma_targets_ascend(codes, cur, out_pos, src, n - 1, i, j);
        } else {
            law_alts_keep_width(codes, cur, out_pos, src, n - 1, i);
        }
    }
}

/// The redirects of a back-reference are exactly the symbols that it can go to,
/// each once, in ascending order, each with the distance and the source that
/// the same extra bits give it.
pub proof fn law_alts_complete(
    dist_encs: Seq<EncTable>,
    block: int,
    cur: int,
    out_pos: int,
    distance: int,
)
    requires
        0 <= block < dist_encs.len(),
        has_code(dist_encs[block]@, cur, out_pos, distance),
    ensures
        ({
            let alts = alts_in(dist_encs, block, cur, out_pos, out_pos - distance);
            let codes = dist_encs[block]@;
            &&& forall|s: int| #[trigger]
                can_redirect(codes, cur, out_pos, distance, s) ==> exists|i: int|
                    0 <= i < alts.len() && redirects_to(
                        #[trigger] alts[i],
                        cur,
                        out_pos,
                        distance,
                        s,
                    )
            &&& forall|i: int|
                0 <= i < alts.len() ==> can_redirect(
                    codes,
                    cur,
                    out_pos,
                    distance,
                    (#[trigger] alts[i]).dist_sym as int,
                ) && redirects_to(alts[i], cur, out_pos, distance, alts[i].dist_sym as int)
            &&& forall|i: int, j: int|
                0 <= i < j < alts.len() ==> (#[trigger] alts[i]).dist_sym < (
                #[trigger] alts[j]).dist_sym
        }),
{
    let codes = dist_encs[block]@;
    let n = defined_syms(codes);
    let src = out_pos - distance;
    let alts = alts_in(dist_encs, block, cur, out_pos, src);
    assert(dist_alts(codes, cur, out_pos, src) == Some(targets(codes, cur, out_pos, src, n)));
    assert(extra_value(distance, cur) == distance - DBASE@[cur]);
    assert forall|s: int| #[trigger] can_redirect(codes, cur, out_pos, distance, s) implies exists|
        i: int,
    |
        0 <= i < alts.len() && redirects_to(#[trigger] alts[i], cur, out_pos, distance, s) by {
        let i = lemma_target_listed(codes, cur, out_pos, distance, n, s);
        assert(redirects_to(alts[i], cur, out_pos, distance, s));
    }
    assert forall|i: int| 0 <= i < alts.len() implies can_redirect(
        codes,
        cur,
        out_pos,
        distance,
        (#[trigger] alts[i]).dist_sym as int,
    ) && redirects_to(alts[i], cur, out_pos, distance, alts[i].dist_sym as int) by {
        law_alts_keep_width(codes, cur, out_pos, src, n, i);
    }
    assert forall|i: int, j: int| 0 <= i < j < alts.len() implies (#[trigger] alts[i]).dist_sym < (
    #[trigger] alts[j]).dist_sym by {
        lemma_targets_ascend(codes, cur, out_pos, src, n, i, j);
    }
}

/// Redirects go both ways: a back-reference that was redirected is offered the
/// way back to where it was.
pub proof fn law_redirect_back(
    dist_encs: Seq<EncTable>,
    block: int,
    cur: int,
    out_pos: int,
    distance: int,
    i: int,
)
    requires
        0 <= block < dist_encs.len(),
        has_code(dist_encs[block]@, cur, out_pos, distance),
        0 <= i < alts_in(dist_encs, block, cur, out_pos, out_pos - distance).len(),
    ensures
        ({
            let alt = alts_in(dist_encs, block, cur, out_pos, out_pos - distance)[i];
            let back = alts_in(
                dist_encs,
                block,
                alt.dist_sym as int,
                out_pos,
                alt.src_out_pos as int,
            );
            exists|j: int|
                0 <= j < back.len() && (#[trigger] back[j]).dist_sym == cur && back[j].distance
                    == distance && back[j].src_out_pos == out_pos - distance
        }),
{
    law_alts_complete(dist_encs, block, cur, out_pos, distance);
    let codes = dist_encs[block]@;
    let alt = alts_in(dist_encs, block, cur, out_pos, out_pos - distance)[i];
    let s = alt.dist_sym as int;
    assert(can_redirect(codes, cur, out_pos, distance, s));
    assert(redirects_to(alt, cur, out_pos, distance, s));
    law_alts_complete(dist_encs, block, s, out_pos, alt.distance as int);
    assert(can_redirect(codes, s, out_pos, alt.distance as int, cur));
    let back = alts_in(dist_encs, block, s, out_pos, alt.src_out_pos as int);
    let j = choose|j: int|
        0 <= j < back.len() && redirects_to(
            #[trigger] back[j],
            s,
            out_pos,
            alt.distance as int,
            cur,
        );
    assert(back[j].dist_sym == cur);
}

/// A back-reference counts as editable exactly when there is a symbol that it
/// can go to.
pub proof fn law_redirectable(
    r: RefEvent,
    block: int,
    lit_encs: Seq<EncTable>,
    dist_encs: Seq<EncTable>,
)
    requires
        0 <= block < dist_encs.len(),
        has_code(
            dist_encs[block]@,
            r.dist_sym as int,
            r.out_pos as int,
            r.out_pos - r.src_out_pos,
        ),
        dist_encs[block]@[r.dist_sym as int].len < 16,
    ensures
        class_of(Event::Ref(r), block, lit_encs, dist_encs) == (if exists|s: int| #[trigger]
            can_redirect(
                dist_encs[block]@,
                r.dist_sym as int,
                r.out_pos as int,
                r.out_pos - r.src_out_pos,
                s,
            ) {
            EventClass::RefRedir
        } else {
            EventClass::Skip
        }),
{
    let codes = dist_encs[block]@;
    let cur = r.dist_sym as int;
    let out_pos = r.out_pos as int;
    let distance = r.out_pos - r.src_out_pos;
    law_alts_complete(dist_encs, block, cur, out_pos, distance);
    let alts = alts_in(dist_encs, block, cur, out_pos, r.src_out_pos as int);
    assert(alts == alts_in(dist_encs, block, cur, out_pos, out_pos - distance));
    if exists|s: int| #[trigger] can_redirect(codes, cur, out_pos, distance, s) {
        let s = choose|s: int| #[trigger] can_redirect(codes, cur, out_pos, distance, s);
        let i = choose|i: int|
            0 <= i < alts.len() && redirects_to(#[trigger] alts[i], cur, out_pos, distance, s);
        assert(alts.len() > 0);
        assert(codes[s].len == codes[cur].len);
    } else {
        if alts.len() > 0 {
            assert(can_redirect(codes, cur, out_pos, distance, alts[0].dist_sym as int));
        }
    }
}

/// A literal counts as swappable exactly when another literal's code is as long.
pub proof fn law_swappable(
    l: LitEvent,
    block: int,
    lit_encs: Seq<EncTable>,
    dist_encs: Seq<EncTable>,
)
    requires
        0 <= block < lit_encs.len(),
        l.symbol < lit_encs[block]@.len(),
        0 < lit_encs[block]@[l.symbol as int].len < 16,
    ensures
        class_of(Event::Lit(l), block, lit_encs, dist_encs) == (if exists|s: u8|
            s != l.symbol && s < lit_encs[block]@.len() && (#[trigger] lit_encs[block]@[s as int]).len
                == lit_encs[block]@[l.symbol as int].len {
            EventClass::LitSwap
        } else {
            EventClass::LitNoSwap
        }),
{
    let codes = lit_encs[block]@;
    let cur = l.symbol as int;
    if class_of(Event::Lit(l), block, lit_encs, dist_encs) == EventClass::LitSwap {
        let o = choose|o: int|
            0 <= o < 256 && o < codes.len() && o != cur && (#[trigger] codes[o]).len
                == codes[cur].len;
        let s = o as u8;
        assert(codes[s as int].len == codes[cur].len);
    }
}

} // verus!
