//! Filter state for the left-panel pixel list.
//!
//! The list stores *indices* into the source [`PixelIndex`] arrays rather
//! than cloning full [`PixelRow`]s. On a multi-megapixel photo this turns
//! every filter keystroke from "clone N strings" into "copy N u32s".

use vstd::prelude::*;

use crate::index::pixel::{PixelIndex, PixelRow, RowView};

verus! {

/// Reference to a row in either the `lit` or `refs` array of the parent
/// [`PixelIndex`]. 8 bytes (one `u32` index plus the enum discriminant),
/// so the `Vec<FilterRef>` of a multi-megapixel filtered view stays
/// cheap to copy and merge.
#[derive(Debug, Clone, Copy, PartialEq, Eq, Structural)]
pub enum FilterRef {
    Lit(u32),
    Ref(u32),
}

impl FilterRef {
    /// The position in its array.
    pub open spec fn index(self) -> u32 {
        match self {
            FilterRef::Lit(i) => i,
            FilterRef::Ref(i) => i,
        }
    }

    /// The reference names a row that is there.
    pub open spec fn inside(self, pi: PixelIndex) -> bool {
        match self {
            FilterRef::Lit(i) => i < pi.lit@.len(),
            FilterRef::Ref(i) => i < pi.refs@.len(),
        }
    }

    /// The row it names.
    pub open spec fn row(self, pi: PixelIndex) -> PixelRow {
        match self {
            FilterRef::Lit(i) => pi.lit@[i as int],
            FilterRef::Ref(i) => pi.refs@[i as int],
        }
    }

    /// Resolve to the underlying row. The returned borrow has the same
    /// lifetime as `pi`.
    pub fn resolve<'a>(self, pi: &'a PixelIndex) -> (r: &'a PixelRow)
        requires
            self.inside(*pi),
        ensures
            *r == self.row(*pi),
    {
        match self {
            FilterRef::Lit(i) => &pi.lit[i as usize],
            FilterRef::Ref(i) => &pi.refs[i as usize],
        }
    }

    /// 1-based display index for the sidebar row: `i + 1` for either arm.
    pub fn display_index(self) -> (r: u32)
        requires
            self.index() < u32::MAX,
        ensures
            r == self.index() + 1,
    {
        match self {
            FilterRef::Lit(i) => i + 1,
            FilterRef::Ref(i) => i + 1,
        }
    }
}

// Filtering.

/// Those of `refs` that were decided for.
pub open spec fn kept(refs: Seq<FilterRef>, decided: Seq<bool>) -> Seq<FilterRef>
    decreases refs.len(),
{
    if refs.len() == 0 {
        Seq::empty()
    } else {
        let rest = kept(refs.drop_last(), decided.drop_last());
        if decided.last() {
            rest.push(refs.last())
        } else {
            rest
        }
    }
}

/// All literal rows.
pub open spec fn lit_refs(n: nat) -> Seq<FilterRef> {
    Seq::new(n, |i: int| FilterRef::Lit(i as u32))
}

/// All back-reference rows.
pub open spec fn ref_refs(n: nat) -> Seq<FilterRef> {
    Seq::new(n, |i: int| FilterRef::Ref(i as u32))
}

/// `(y, x)` order.
pub open spec fn row_le(a: RowView, b: RowView) -> bool {
    a.y < b.y || (a.y == b.y && a.x <= b.x)
}

/// How many of `n` rows stand from row `i` on.
pub open spec fn left(n: nat, i: int) -> nat {
    if i < n {
        (n - i) as nat
    } else {
        0
    }
}

/// The rows from `li` and `ri` on, merged by `(y, x)`; literals first on a tie.
pub open spec fn merged(pi: PixelIndex, li: int, ri: int) -> Seq<FilterRef>
    decreases left(pi.lit@.len(), li) + left(pi.refs@.len(), ri),
{
    if li < pi.lit@.len() && (ri >= pi.refs@.len() || row_le(pi.lit@[li]@, pi.refs@[ri]@)) {
        seq![FilterRef::Lit(li as u32)] + merged(pi, li + 1, ri)
    } else if ri < pi.refs@.len() {
        seq![FilterRef::Ref(ri as u32)] + merged(pi, li, ri + 1)
    } else {
        Seq::empty()
    }
}

/// The predicate decided `decided[i]` for the `i`-th of `refs`.
pub open spec fn decides<F: Fn(FilterRef, &PixelRow) -> bool>(
    pred: F,
    pi: PixelIndex,
    refs: Seq<FilterRef>,
    decided: Seq<bool>,
) -> bool {
    &&& decided.len() == refs.len()
    &&& forall|i: int|
        0 <= i < refs.len() ==> call_ensures(
            pred,
            (refs[i], &refs[i].row(pi)),
            #[trigger] decided[i],
        )
}

/// `got` holds what the predicate kept of `refs`.
pub open spec fn filtered<F: Fn(FilterRef, &PixelRow) -> bool>(
    pred: F,
    pi: PixelIndex,
    refs: Seq<FilterRef>,
    got: Seq<FilterRef>,
) -> bool {
    exists|decided: Seq<bool>| #[trigger]
        decides(pred, pi, refs, decided) && got == kept(refs, decided)
}

/// The predicate can be asked of every row.
pub open spec fn askable<F: Fn(FilterRef, &PixelRow) -> bool>(
    pred: F,
    pi: PixelIndex,
    refs: Seq<FilterRef>,
) -> bool {
    forall|i: int|
        0 <= i < refs.len() ==> call_requires(
            pred,
            ((#[trigger] refs[i]), &refs[i].row(pi)),
        )
}

proof fn lemma_kept_push(refs: Seq<FilterRef>, decided: Seq<bool>, f: FilterRef, b: bool)
    requires
        refs.len() == decided.len(),
    ensures
        kept(refs.push(f), decided.push(b)) == (if b {
            kept(refs, decided).push(f)
        } else {
            kept(refs, decided)
        }),
{
    assert(refs.push(f).drop_last() =~= refs);
    assert(decided.push(b).drop_last() =~= decided);
}

/// Those of `refs` that pass, in order.
pub fn filter_view<F: Fn(FilterRef, &PixelRow) -> bool>(
    pi: &PixelIndex,
    refs: &[FilterRef],
    pred: F,
) -> (out: Vec<FilterRef>)
    requires
        forall|i: int| 0 <= i < refs@.len() ==> (#[trigger] refs@[i]).inside(*pi),
        askable(pred, *pi, refs@),
    ensures
        filtered(pred, *pi, refs@, out@),
{
    let mut out: Vec<FilterRef> = Vec::new();
    let ghost mut decided: Seq<bool> = Seq::empty();
    let mut i: usize = 0;
    assert(refs@.take(0) =~= Seq::<FilterRef>::empty());
    assert(decides(pred, *pi, refs@.take(0), decided));
    while i < refs.len()
        invariant
            i <= refs@.len(),
            forall|i: int| 0 <= i < refs@.len() ==> (#[trigger] refs@[i]).inside(*pi),
            askable(pred, *pi, refs@),
            decides(pred, *pi, refs@.take(i as int), decided),
            out@ == kept(refs@.take(i as int), decided),
        decreases refs@.len() - i,
    {
        let f: FilterRef = refs[i];
        let row: &PixelRow = f.resolve(pi);
        let keep: bool = pred(f, row);
        let ghost before = refs@.take(i as int);
        proof {
            lemma_kept_push(before, decided, f, keep);
            assert(refs@.take(i + 1) =~= before.push(f));
            let more = decided.push(keep);
            assert forall|k: int| 0 <= k < refs@.take(i + 1).len() implies call_ensures(
                pred,
                (refs@.take(i + 1)[k], &refs@.take(i + 1)[k].row(*pi)),
                #[trigger] more[k],
            ) by {
                if k < i {
                    assert(more[k] == decided[k]);
                    assert(before[k] == refs@.take(i + 1)[k]);
                }
            }
            decided = more;
        }
        if keep {
            out.push(f);
        }
        i = i + 1;
    }
    assert(refs@.take(i as int) =~= refs@);
    out
}

/// Build a filtered view for the "Literals" radio.
pub fn filter_lit<F: Fn(FilterRef, &PixelRow) -> bool>(
    pi: &PixelIndex,
    pred: F,
) -> (out: Vec<FilterRef>)
    requires
        pi.lit@.len() <= u32::MAX,
        askable(pred, *pi, lit_refs(pi.lit@.len())),
    ensures
        filtered(pred, *pi, lit_refs(pi.lit@.len()), out@),
{
    let mut all: Vec<FilterRef> = Vec::new();
    let mut i: usize = 0;
    while i < pi.lit.len()
        invariant
            i <= pi.lit@.len() <= u32::MAX,
            all@ =~= lit_refs(i as nat),
        decreases pi.lit@.len() - i,
    {
        all.push(FilterRef::Lit(i as u32));
        i = i + 1;
    }
    filter_view(pi, all.as_slice(), pred)
}

/// Build a filtered view for the "Backrefs" radio.
pub fn filter_refs<F: Fn(FilterRef, &PixelRow) -> bool>(
    pi: &PixelIndex,
    pred: F,
) -> (out: Vec<FilterRef>)
    requires
        pi.refs@.len() <= u32::MAX,
        askable(pred, *pi, ref_refs(pi.refs@.len())),
    ensures
        filtered(pred, *pi, ref_refs(pi.refs@.len()), out@),
{
    let mut all: Vec<FilterRef> = Vec::new();
    let mut i: usize = 0;
    while i < pi.refs.len()
        invariant
            i <= pi.refs@.len() <= u32::MAX,
            all@ =~= ref_refs(i as nat),
        decreases pi.refs@.len() - i,
    {
        all.push(FilterRef::Ref(i as u32));
        i = i + 1;
    }
    filter_view(pi, all.as_slice(), pred)
}

/// Every merged reference names a row.
pub proof fn lemma_merged_inside(pi: PixelIndex, li: int, ri: int)
    requires
        0 <= li,
        0 <= ri,
        pi.lit@.len() <= u32::MAX,
        pi.refs@.len() <= u32::MAX,
    ensures
        forall|i: int|
            0 <= i < merged(pi, li, ri).len() ==> (#[trigger] merged(pi, li, ri)[i]).inside(pi),
        merged(pi, li, ri).len() == left(pi.lit@.len(), li) + left(pi.refs@.len(), ri),
    decreases left(pi.lit@.len(), li) + left(pi.refs@.len(), ri),
{
    let all = merged(pi, li, ri);
    if li < pi.lit@.len() && (ri >= pi.refs@.len() || row_le(pi.lit@[li]@, pi.refs@[ri]@)) {
        lemma_merged_inside(pi, li + 1, ri);
        assert forall|i: int| 0 <= i < all.len() implies (#[trigger] all[i]).inside(pi) by {
            if i > 0 {
                assert(all[i] == merged(pi, li + 1, ri)[i - 1]);
            }
        }
    } else if ri < pi.refs@.len() {
        lemma_merged_inside(pi, li, ri + 1);
        assert forall|i: int| 0 <= i < all.len() implies (#[trigger] all[i]).inside(pi) by {
            if i > 0 {
                assert(all[i] == merged(pi, li, ri + 1)[i - 1]);
            }
        }
    }
}

/// Build a filtered view for the "All" radio. Both source arrays are
/// individually sorted by `(y, x)`, so a merge step produces a globally
/// sorted output without ever materialising a combined `Vec<PixelRow>`.
pub fn filter_all<F: Fn(FilterRef, &PixelRow) -> bool>(
    pi: &PixelIndex,
    pred: F,
) -> (out: Vec<FilterRef>)
    requires
        pi.lit@.len() <= u32::MAX,
        pi.refs@.len() <= u32::MAX,
        askable(pred, *pi, merged(*pi, 0, 0)),
    ensures
        filtered(pred, *pi, merged(*pi, 0, 0), out@),
{
    let mut all: Vec<FilterRef> = Vec::new();
    let mut li: usize = 0;
    let mut ri: usize = 0;
    assert(all@ + merged(*pi, 0, 0) =~= merged(*pi, 0, 0));
    while li < pi.lit.len() || ri < pi.refs.len()
        invariant
            li <= pi.lit@.len() <= u32::MAX,
            ri <= pi.refs@.len() <= u32::MAX,
            all@ + merged(*pi, li as int, ri as int) == merged(*pi, 0, 0),
        decreases pi.lit@.len() - li + pi.refs@.len() - ri,
    {
        let take_lit: bool = if li >= pi.lit.len() {
            false
        } else if ri >= pi.refs.len() {
            true
        } else {
            let l: PixelRow = pi.lit[li];
            let r: PixelRow = pi.refs[ri];
            l.y() < r.y() || (l.y() == r.y() && l.x() <= r.x())
        };
        let ghost before = all@;
        let ghost (l0, r0) = (li as int, ri as int);
        if take_lit {
            all.push(FilterRef::Lit(li as u32));
            li = li + 1;
        } else {
            all.push(FilterRef::Ref(ri as u32));
            ri = ri + 1;
        }
        assert(all@ + merged(*pi, li as int, ri as int) =~= before + merged(*pi, l0, r0));
    }
    proof {
        assert(merged(*pi, li as int, ri as int) =~= Seq::<FilterRef>::empty());
        assert(all@ =~= merged(*pi, 0, 0));
        lemma_merged_inside(*pi, 0, 0);
    }
    filter_view(pi, all.as_slice(), pred)
}

/// The merged list comes in `(y, x)` order where both arrays do.
pub proof fn law_merge_in_order(pi: PixelIndex, li: int, ri: int)
    requires
        0 <= li,
        0 <= ri,
        pi.lit@.len() <= u32::MAX,
        pi.refs@.len() <= u32::MAX,
        forall|i: int, j: int|
            0 <= i <= j < pi.lit@.len() ==> row_le(
                (#[trigger] pi.lit@[i])@,
                (#[trigger] pi.lit@[j])@,
            ),
        forall|i: int, j: int|
            0 <= i <= j < pi.refs@.len() ==> row_le(
                (#[trigger] pi.refs@[i])@,
                (#[trigger] pi.refs@[j])@,
            ),
    ensures
        forall|i: int, j: int|
            0 <= i <= j < merged(pi, li, ri).len() ==> row_le(
                (#[trigger] merged(pi, li, ri)[i]).row(pi)@,
                (#[trigger] merged(pi, li, ri)[j]).row(pi)@,
            ),
        forall|i: int|
            0 <= i < merged(pi, li, ri).len() ==> match #[trigger] merged(pi, li, ri)[i] {
                FilterRef::Lit(k) => li <= k < pi.lit@.len(),
                FilterRef::Ref(k) => ri <= k < pi.refs@.len(),
            },
        merged(pi, li, ri).len() == left(pi.lit@.len(), li) + left(pi.refs@.len(), ri),
    decreases left(pi.lit@.len(), li) + left(pi.refs@.len(), ri),
{
    let all = merged(pi, li, ri);
    let lit_next = li < pi.lit@.len() && (ri >= pi.refs@.len() || row_le(
        pi.lit@[li]@,
        pi.refs@[ri]@,
    ));
    if lit_next || ri < pi.refs@.len() {
        let (l2, r2) = if lit_next {
            (li + 1, ri)
        } else {
            (li, ri + 1)
        };
        law_merge_in_order(pi, l2, r2);
        let rest = merged(pi, l2, r2);
        let first = all[0];
        assert(all =~= seq![first] + rest);
        assert forall|i: int| 0 <= i < all.len() implies match #[trigger] all[i] {
            FilterRef::Lit(k) => li <= k < pi.lit@.len(),
            FilterRef::Ref(k) => ri <= k < pi.refs@.len(),
        } by {
            if i > 0 {
                assert(all[i] == rest[i - 1]);
            }
        }
        assert forall|i: int, j: int| 0 <= i <= j < all.len() implies row_le(
            (#[trigger] all[i]).row(pi)@,
            (#[trigger] all[j]).row(pi)@,
        ) by {
            if i > 0 {
                assert(all[i] == rest[i - 1] && all[j] == rest[j - 1]);
            } else if j > 0 {
                assert(all[j] == rest[j - 1]);
                match all[j] {
                    FilterRef::Lit(k) => {
                        if !lit_next {
                            assert(row_le(pi.lit@[li]@, pi.lit@[k as int]@));
                        }
                    },
                    FilterRef::Ref(k) => {
                        if lit_next {
                            assert(row_le(pi.refs@[ri]@, pi.refs@[k as int]@));
                        }
                    },
                }
            }
        }
    }
}

} // verus!
