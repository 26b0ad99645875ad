//! What the pixel list shows, and where its keys lead.

use vstd::prelude::*;

use super::core_data::CoreData;
use super::filter_spec::{filter_of, FilterView};
use super::list::{
    law_narrowing_is_exact, passing, row_passes, source, ListState, NavKey, PixelType,
};
use super::list_filter::{law_merge_in_order, lit_refs, merged, ref_refs, row_le, FilterRef};
use crate::index::pixel::{rows_sorted, rows_view, PixelIndex};

verus! {

/// Place `i` of `all` is where the row at place `j` of the view comes from.
pub open spec fn taken_from(
    view: Seq<FilterRef>,
    all: Seq<FilterRef>,
    from: Seq<int>,
    j: int,
) -> bool {
    0 <= from[j] < all.len() && view[j] == all[from[j]]
}

/// The places that the passing rows come from.
spec fn places(c: CoreData, refs: Seq<FilterRef>, spec: FilterView, editable: bool) -> Seq<int>
    decreases refs.len(),
{
    if refs.len() == 0 {
        Seq::empty()
    } else {
        let rest = places(c, refs.drop_last(), spec, editable);
        if row_passes(c, spec, editable, refs.last()) {
            rest.push(refs.len() - 1)
        } else {
            rest
        }
    }
}

proof fn lemma_places(c: CoreData, refs: Seq<FilterRef>, spec: FilterView, editable: bool)
    ensures
        ({
            let view = passing(c, refs, spec, editable);
            let from = places(c, refs, spec, editable);
            &&& from.len() == view.len()
            &&& forall|j: int| 0 <= j < view.len() ==> #[trigger] taken_from(view, refs, from, j)
            &&& forall|i: int, j: int|
                0 <= i < j < view.len() ==> (#[trigger] from[i]) < (#[trigger] from[j])
        }),
    decreases refs.len(),
{
    if refs.len() > 0 {
        let front = refs.drop_last();
        lemma_places(c, front, spec, editable);
        let rest = passing(c, front, spec, editable);
        let old = places(c, front, spec, editable);
        let view = passing(c, refs, spec, editable);
        let from = places(c, refs, spec, editable);
        assert forall|j: int| 0 <= j < view.len() implies #[trigger] taken_from(
            view,
            refs,
            from,
            j,
        ) by {
            if j < rest.len() {
                assert(taken_from(rest, front, old, j));
            }
        }
        assert forall|i: int, j: int| 0 <= i < j < view.len() implies (#[trigger] from[i]) < (
        #[trigger] from[j]) by {
            if j >= rest.len() {
                assert(taken_from(rest, front, old, i));
            }
        }
    }
}

proof fn lemma_passing_members(
    c: CoreData,
    refs: Seq<FilterRef>,
    spec: FilterView,
    editable: bool,
    f: FilterRef,
)
    ensures
        passing(c, refs, spec, editable).contains(f) <==> refs.contains(f) && row_passes(
            c,
            spec,
            editable,
            f,
        ),
    decreases refs.len(),
{
    if refs.len() > 0 {
        let front = refs.drop_last();
        lemma_passing_members(c, front, spec, editable, f);
        let rest = passing(c, front, spec, editable);
        let view = passing(c, refs, spec, editable);
        if refs.contains(f) {
            let i = choose|i: int| 0 <= i < refs.len() && refs[i] == f;
            if i < front.len() {
                assert(front[i] == f);
            }
        }
        if front.contains(f) {
            let i = choose|i: int| 0 <= i < front.len() && front[i] == f;
            assert(refs[i] == f);
        }
        if rest.contains(f) {
            let i = choose|i: int| 0 <= i < rest.len() && rest[i] == f;
            assert(view[i] == f);
        }
        if row_passes(c, spec, editable, refs.last()) {
            assert(view[rest.len() as int] == refs.last());
            assert(refs[refs.len() - 1] == refs.last());
            if view.contains(f) {
                let i = choose|i: int| 0 <= i < view.len() && view[i] == f;
                if i < rest.len() {
                    assert(rest[i] == f);
                }
            }
        }
    }
}

proof fn lemma_merged_members(pi: PixelIndex, li: int, ri: int, f: FilterRef)
    requires
        0 <= li,
        0 <= ri,
        pi.lit@.len() <= u32::MAX,
        pi.refs@.len() <= u32::MAX,
    ensures
        merged(pi, li, ri).contains(f) <==> match f {
            FilterRef::Lit(k) => li <= k < pi.lit@.len(),
            FilterRef::Ref(k) => ri <= k < pi.refs@.len(),
        },
    decreases
            super::list_filter::left(pi.lit@.len(), li) + super::list_filter::left(
                pi.refs@.len(),
                ri,
            ),
{
    let all = merged(pi, li, ri);
    let lit_next = li < pi.lit@.len() && (ri >= pi.refs@.len() || row_le(
        pi.lit@[li]@,
        pi.refs@[ri]@,
    ));
    if lit_next || ri < pi.refs@.len() {
        let (l2, r2) = if lit_next {
            (li + 1, ri)
        } else {
            (li, ri + 1)
        };
        lemma_merged_members(pi, l2, r2, f);
        let rest = merged(pi, l2, r2);
        assert(all =~= seq![all[0]] + rest);
        if all.contains(f) {
            let i = choose|i: int| 0 <= i < all.len() && all[i] == f;
            if i > 0 {
                assert(rest[i - 1] == f);
            }
        }
        if rest.contains(f) {
            let i = choose|i: int| 0 <= i < rest.len() && rest[i] == f;
            assert(all[i + 1] == f);
        }
        assert(all[0] == f ==> all.contains(f));
    }
}

/// A row belongs to the kind of rows that the list is set to show.
pub open spec fn of_kind(kind: PixelType, f: FilterRef) -> bool {
    match kind {
        PixelType::Lit => f is Lit,
        PixelType::Ref => f is Ref,
        PixelType::All => true,
    }
}

proof fn lemma_source_members(pi: PixelIndex, kind: PixelType, f: FilterRef)
    requires
        pi.lit@.len() <= u32::MAX,
        pi.refs@.len() <= u32::MAX,
    ensures
        source(pi, kind).contains(f) <==> of_kind(kind, f) && f.inside(pi),
{
    match kind {
        PixelType::All => {
            lemma_merged_members(pi, 0, 0, f);
        },
        PixelType::Lit => {
            if f.inside(pi) && f is Lit {
                assert(lit_refs(pi.lit@.len())[f.index() as int] == f);
            }
        },
        PixelType::Ref => {
            if f.inside(pi) && f is Ref {
                assert(ref_refs(pi.refs@.len())[f.index() as int] == f);
            }
        },
    }
}

/// What a rebuilt list shows: exactly the rows of the index that are of its
/// kind, that the filter text picks, and that can be edited where only such
/// rows are asked for; from the top of the picture down, and along each of its
/// rows from the left.
pub proof fn law_list_shows(st: ListState, c: CoreData, f: FilterRef)
    requires
        st.wf(c),
        st.current(c),
        c.pixel_index.lit@.len() <= u32::MAX,
        c.pixel_index.refs@.len() <= u32::MAX,
        rows_sorted(rows_view(c.pixel_index.lit@)),
        rows_sorted(rows_view(c.pixel_index.refs@)),
    ensures
        st.rebuilt(c).contains(f) <==> {
            &&& f.inside(c.pixel_index)
            &&& of_kind(st.pixel_type, f)
            &&& filter_of(st.filter_text@).passes(
                c.info,
                c.events@,
                f,
                f.row(c.pixel_index)@,
            )
            &&& st.editable_only ==> f.row(c.pixel_index).has_edit
        },
        forall|i: int, j: int|
            0 <= i < j < st.rebuilt(c).len() ==> {
                let a = (#[trigger] st.rebuilt(c)[i]).row(c.pixel_index)@;
                let b = (#[trigger] st.rebuilt(c)[j]).row(c.pixel_index)@;
                a.y < b.y || a.y == b.y && a.x <= b.x
            },
{
    let pi = c.pixel_index;
    let spec = filter_of(st.filter_text@);
    law_narrowing_is_exact(st, c);
    let all = source(pi, st.pixel_type);
    let view = passing(c, all, spec, st.editable_only);
    lemma_passing_members(c, all, spec, st.editable_only, f);
    lemma_source_members(pi, st.pixel_type, f);
    lemma_places(c, all, spec, st.editable_only);
    let from = places(c, all, spec, st.editable_only);
    lemma_source_order(pi, st.pixel_type);
    assert forall|i: int, j: int| 0 <= i < j < view.len() implies row_le(
        (#[trigger] view[i]).row(pi)@,
        (#[trigger] view[j]).row(pi)@,
    ) by {
        assert(taken_from(view, all, from, i));
        assert(taken_from(view, all, from, j));
        assert(from[i] < from[j]);
        assert(row_le(all[from[i]].row(pi)@, all[from[j]].row(pi)@));
    }
}

proof fn lemma_source_order(pi: PixelIndex, kind: PixelType)
    requires
        pi.lit@.len() <= u32::MAX,
        pi.refs@.len() <= u32::MAX,
        rows_sorted(rows_view(pi.lit@)),
        rows_sorted(rows_view(pi.refs@)),
    ensures
        forall|i: int, j: int|
            0 <= i <= j < source(pi, kind).len() ==> row_le(
                (#[trigger] source(pi, kind)[i]).row(pi)@,
                (#[trigger] source(pi, kind)[j]).row(pi)@,
            ),
{
    assert forall|i: int, j: int| 0 <= i <= j < pi.lit@.len() implies row_le(
        (#[trigger] pi.lit@[i])@,
        (#[trigger] pi.lit@[j])@,
    ) by {
        let rows = rows_view(pi.lit@);
        assert(rows[i] == pi.lit@[i]@ && rows[j] == pi.lit@[j]@);
    }
    assert forall|i: int, j: int| 0 <= i <= j < pi.refs@.len() implies row_le(
        (#[trigger] pi.refs@[i])@,
        (#[trigger] pi.refs@[j])@,
    ) by {
        let rows = rows_view(pi.refs@);
        assert(rows[i] == pi.refs@[i]@ && rows[j] == pi.refs@[j]@);
    }
    if kind == PixelType::All {
        law_merge_in_order(pi, 0, 0);
    }
}

/// Where the keys lead: to the next or the last row, a screenful on or back, or
/// to either end; never past an end. Home and End do not look at where they
/// start, and where there is room a key and its opposite lead back.
pub proof fn law_keys(st: ListState, row: int)
    requires
        0 <= row < st.filtered_view@.len(),
    ensures
        ({
            let n = st.filtered_view@.len() as int;
            let page = st.list_viewport_rows as int;
            &&& st.nav_row(NavKey::Home, row) == 0
            &&& st.nav_row(NavKey::End, row) == n - 1
            &&& st.nav_row(NavKey::Up, 0) == 0
            &&& st.nav_row(NavKey::Down, n - 1) == n - 1
            &&& row + 1 < n ==> st.nav_row(NavKey::Down, row) == row + 1 && st.nav_row(
                NavKey::Up,
                row + 1,
            ) == row
            &&& row + page < n ==> st.nav_row(NavKey::PageDown, row) == row + page && st.nav_row(
                NavKey::PageUp,
                row + page,
            ) == row
            &&& row + page >= n ==> st.nav_row(NavKey::PageDown, row) == n - 1
            &&& row < page ==> st.nav_row(NavKey::PageUp, row) == 0
        }),
{
}

} // verus!
