//! Left-panel pixel-list state: what the user is filtering, what the
//! virtual scroll is showing, and the snapshot needed to detect filter
//! refinements between keystrokes.

use vstd::prelude::*;
use vstd::string::StringExecFns;

use super::core_data::CoreData;
use super::filter_spec::{filter_of, law_refinement_narrows, FilterSpec, FilterView};
use super::list_filter::{
    decides, filter_all, filter_lit, filter_refs, filter_view, filtered, kept, lemma_merged_inside,
    lit_refs, merged, ref_refs, FilterRef,
};
use crate::coords::PixelXY;
use crate::index::pixel::{rows_view, PixelIndex, PixelRow};
use crate::text::{decimal, push_decimal};

verus! {

/// Which rows the list shows.
#[derive(Debug, Clone, Copy, PartialEq, Eq, Structural)]
pub enum PixelType {
    Lit,
    Ref,
    All,
}

/// The predicate a rebuild ran, kept so the next call can detect a
/// refinement and re-test only the current view. The three parts describe one
/// rebuild, so they travel as a unit: present together or absent together.
pub struct FilterSnapshot {
    pub spec: FilterSpec,
    pub editable_only: bool,
    pub pixel_type: PixelType,
}

/// Left-panel pixel-list state.
pub struct ListState {
    pub pixel_type: PixelType,
    pub filter_text: String,
    pub editable_only: bool,
    /// Indices into the source [`PixelIndex`] for every row that passes
    /// the filter. `FilterRef` is 8 bytes, far cheaper to copy than
    /// the underlying [`PixelRow`] on a multi-megapixel keystroke
    /// rebuild.
    pub filtered_view: Vec<FilterRef>,
    /// Reverse map: `filtered_idx[y * w + x]` is the index in
    /// `filtered_view` of the row for pixel `(x, y)`, or `u32::MAX` if
    /// that pixel isn't currently shown. Lookup is one indexed load;
    /// resetting it between rebuilds touches only the previous view's
    /// pixels rather than the full `w * h` slot range.
    pub filtered_idx: Vec<u32>,
    /// Snapshot of the previous rebuild's predicate. When the next call is
    /// a refinement (user typed another character, flipped `editable_only`
    /// on, etc.) the rebuild re-tests only the rows in `filtered_view`
    /// rather than rescanning the full `PixelIndex`.
    pub last_filter: Option<FilterSnapshot>,
    pub list_scroll_to: Option<usize>,
    pub list_viewport_rows: usize,
}

/// All rows of the kind, in list order.
pub open spec fn source(pi: PixelIndex, kind: PixelType) -> Seq<FilterRef> {
    match kind {
        PixelType::Lit => lit_refs(pi.lit@.len()),
        PixelType::Ref => ref_refs(pi.refs@.len()),
        PixelType::All => merged(pi, 0, 0),
    }
}

/// Whether a row passes a filter, and where `editable` is set has an edit too.
pub open spec fn row_passes(c: CoreData, spec: FilterView, editable: bool, f: FilterRef) -> bool {
    let row = f.row(c.pixel_index)@;
    (editable ==> row.has_edit) && spec.passes(c.info, c.events@, f, row)
}

/// Those of `refs` that pass.
pub open spec fn passing(
    c: CoreData,
    refs: Seq<FilterRef>,
    spec: FilterView,
    editable: bool,
) -> Seq<FilterRef>
    decreases refs.len(),
{
    if refs.len() == 0 {
        Seq::empty()
    } else {
        let rest = passing(c, refs.drop_last(), spec, editable);
        if row_passes(c, spec, editable, refs.last()) {
            rest.push(refs.last())
        } else {
            rest
        }
    }
}

/// Row-major index of a pixel into a `w`-wide map.
pub open spec fn pixel_lin_of(x: int, y: int, w: int) -> int {
    y * w + x
}

/// The last place in `view` of the row for the pixel with index `p`;
/// `u32::MAX` where it has none.
pub open spec fn slot_of(pi: PixelIndex, view: Seq<FilterRef>, w: int, p: int) -> u32
    decreases view.len(),
{
    if view.len() == 0 {
        u32::MAX
    } else {
        let row = view.last().row(pi)@;
        if pixel_lin_of(row.x, row.y, w) == p {
            (view.len() - 1) as u32
        } else {
            slot_of(pi, view.drop_last(), w, p)
        }
    }
}

/// The reverse map of a view.
pub open spec fn reverse_map(c: CoreData, view: Seq<FilterRef>) -> Seq<u32> {
    let w = c.info.width as int;
    Seq::new((w * c.info.height) as nat, |p: int| slot_of(c.pixel_index, view, w, p))
}

impl FilterSnapshot {
    /// Whether a filter only got stricter: the same rows to choose from, the
    /// same or a tighter `editable`, and a refined text.
    pub open spec fn narrows_to(
        &self,
        spec: FilterView,
        editable: bool,
        pixel_type: PixelType,
    ) -> bool {
        &&& self.pixel_type == pixel_type
        &&& !self.editable_only || editable
        &&& spec.refines(self.spec@)
    }
}

impl ListState {
    /// The view names rows of the index, the reverse map is that of the view,
    /// and the last filter is well formed. (A list that no rebuild has filled
    /// has neither view nor map.)
    pub open spec fn wf(&self, c: CoreData) -> bool {
        &&& forall|i: int|
            0 <= i < self.filtered_view@.len() ==> (#[trigger] self.filtered_view@[i]).inside(
                c.pixel_index,
            )
        &&& self.filtered_view@.len() <= c.info.width * c.info.height
        &&& self.filtered_idx@ == reverse_map(c, self.filtered_view@) || (self.filtered_idx@.len()
            == 0 && self.filtered_view@.len() == 0)
        &&& (self.last_filter matches Some(prev) ==> prev.spec@.wf())
    }

    /// The view after a rebuild. Where the filter only got stricter, just the
    /// rows shown are tested again, and their edits only where `editable_only`
    /// was switched on.
    pub open spec fn rebuilt(&self, c: CoreData) -> Seq<FilterRef> {
        let spec = filter_of(self.filter_text@);
        match self.last_filter {
            Some(prev) if prev.narrows_to(spec, self.editable_only, self.pixel_type) => passing(
                c,
                self.filtered_view@,
                spec,
                self.editable_only && !prev.editable_only,
            ),
            _ => passing(c, source(c.pixel_index, self.pixel_type), spec, self.editable_only),
        }
    }

    /// The view shows what the last filter lets pass of the current document.
    pub open spec fn current(&self, c: CoreData) -> bool {
        self.last_filter matches Some(prev) ==> self.filtered_view@ == passing(
            c,
            source(c.pixel_index, prev.pixel_type),
            prev.spec@,
            prev.editable_only,
        )
    }
}

/// Narrowing is exact: a rebuild of a current view gives every row of the kind
/// that passes, in order, whichever rows it tested.
pub proof fn law_narrowing_is_exact(st: ListState, c: CoreData)
    requires
        st.wf(c),
        st.current(c),
    ensures
        st.rebuilt(c) == passing(
            c,
            source(c.pixel_index, st.pixel_type),
            filter_of(st.filter_text@),
            st.editable_only,
        ),
{
    let spec = filter_of(st.filter_text@);
    match st.last_filter {
        Some(prev) => {
            if prev.narrows_to(spec, st.editable_only, st.pixel_type) {
                lemma_filter_of_wf(st.filter_text@);
                lemma_narrowed(
                    c,
                    source(c.pixel_index, st.pixel_type),
                    prev.spec@,
                    prev.editable_only,
                    spec,
                    st.editable_only,
                );
            }
        },
        None => {},
    }
}

/// Parsed filters are well formed.
proof fn lemma_filter_of_wf(text: Seq<char>)
    ensures
        filter_of(text).wf(),
{
}

proof fn lemma_narrowed(
    c: CoreData,
    refs: Seq<FilterRef>,
    old_spec: FilterView,
    old_editable: bool,
    spec: FilterView,
    editable: bool,
)
    requires
        old_spec.wf(),
        spec.wf(),
        spec.refines(old_spec),
        !old_editable || editable,
    ensures
        passing(c, passing(c, refs, old_spec, old_editable), spec, editable && !old_editable)
            == passing(c, refs, spec, editable),
    decreases refs.len(),
{
    if refs.len() > 0 {
        let front = refs.drop_last();
        let f = refs.last();
        let row = f.row(c.pixel_index)@;
        lemma_narrowed(c, front, old_spec, old_editable, spec, editable);
        let before = passing(c, front, old_spec, old_editable);
        if spec.passes(c.info, c.events@, f, row) {
            law_refinement_narrows(spec, old_spec, c.info, c.events@, f, row);
        }
        if row_passes(c, old_spec, old_editable, f) {
            assert(before.push(f).drop_last() =~= before);
        }
    }
}

/// What passes came from the list.
proof fn lemma_passing_inside(
    c: CoreData,
    refs: Seq<FilterRef>,
    spec: FilterView,
    editable: bool,
)
    requires
        forall|i: int| 0 <= i < refs.len() ==> (#[trigger] refs[i]).inside(c.pixel_index),
    ensures
        passing(c, refs, spec, editable).len() <= refs.len(),
        forall|i: int|
            0 <= i < passing(c, refs, spec, editable).len() ==> (#[trigger] passing(
                c,
                refs,
                spec,
                editable,
            )[i]).inside(c.pixel_index),
    decreases refs.len(),
{
    if refs.len() > 0 {
        assert forall|i: int| 0 <= i < refs.drop_last().len() implies (
        #[trigger] refs.drop_last()[i]).inside(c.pixel_index) by {
            assert(refs[i] == refs.drop_last()[i]);
        }
        assert(refs[refs.len() - 1].inside(c.pixel_index));
        lemma_passing_inside(c, refs.drop_last(), spec, editable);
    }
}

/// What a predicate keeps that decides as the filter does.
proof fn lemma_kept_passes<F: Fn(FilterRef, &PixelRow) -> bool>(
    c: CoreData,
    pred: F,
    refs: Seq<FilterRef>,
    got: Seq<FilterRef>,
    spec: FilterView,
    editable: bool,
)
    requires
        filtered(pred, c.pixel_index, refs, got),
        forall|f: FilterRef, row: &PixelRow, b: bool|
            row == f.row(c.pixel_index) && #[trigger] call_ensures(pred, (f, row), b) ==> b
                == row_passes(c, spec, editable, f),
    ensures
        got == passing(c, refs, spec, editable),
{
    let decided = choose|decided: Seq<bool>| #[trigger]
        decides(pred, c.pixel_index, refs, decided) && got == kept(refs, decided);
    lemma_kept_is_passing(c, refs, decided, spec, editable);
}

proof fn lemma_kept_is_passing(
    c: CoreData,
    refs: Seq<FilterRef>,
    decided: Seq<bool>,
    spec: FilterView,
    editable: bool,
)
    requires
        decided.len() == refs.len(),
        forall|i: int|
            0 <= i < refs.len() ==> #[trigger] decided[i] == row_passes(
                c,
                spec,
                editable,
                refs[i],
            ),
    ensures
        kept(refs, decided) == passing(c, refs, spec, editable),
    decreases refs.len(),
{
    if refs.len() > 0 {
        let n = refs.len() - 1;
        assert(decided[n] == row_passes(c, spec, editable, refs[n]));
        assert forall|i: int| 0 <= i < n implies #[trigger] decided.drop_last()[i] == row_passes(
            c,
            spec,
            editable,
            refs.drop_last()[i],
        ) by {
            assert(decided[i] == decided.drop_last()[i]);
        }
        lemma_kept_is_passing(c, refs.drop_last(), decided.drop_last(), spec, editable);
    }
}

/// Every row of the index names a pixel of the image.
pub proof fn lemma_row_inside(c: CoreData, f: FilterRef)
    requires
        c.wf(),
        f.inside(c.pixel_index),
    ensures
        0 <= f.row(c.pixel_index)@.x < c.info.width,
        0 <= f.row(c.pixel_index)@.y < c.info.height,
        f.index() < u32::MAX,
        0 <= pixel_lin_of(
            f.row(c.pixel_index)@.x,
            f.row(c.pixel_index)@.y,
            c.info.width as int,
        ) < c.info.width * c.info.height <= 0xFFFE_0001,
{
    let pi = c.pixel_index;
    lemma_pixel_count(c);
    match f {
        FilterRef::Lit(i) => {
            assert(rows_view(pi.lit@)[i as int] == pi.lit@[i as int]@);
        },
        FilterRef::Ref(i) => {
            assert(rows_view(pi.refs@)[i as int] == pi.refs@[i as int]@);
        },
    }
    let row = f.row(pi)@;
    let w = c.info.width as int;
    let h = c.info.height as int;
    assert(0 <= row.y * w + row.x < w * h) by (nonlinear_arith)
        requires
            0 <= row.x < w,
            0 <= row.y < h,
    ;
}

/// Pixels of the image fit in 32 bits.
pub proof fn lemma_pixel_count(c: CoreData)
    requires
        c.wf(),
    ensures
        0 <= c.info.width * c.info.height <= 0xFFFE_0001,
{
    let w = c.info.width as int;
    let h = c.info.height as int;
    assert(0 <= w * h <= 0xFFFE_0001) by (nonlinear_arith)
        requires
            0 <= w <= 0xFFFF,
            0 <= h <= 0xFFFF,
    ;
}

/// Every row of the kind is there.
proof fn lemma_source_inside(c: CoreData, kind: PixelType)
    requires
        c.wf(),
    ensures
        forall|i: int|
            0 <= i < source(c.pixel_index, kind).len() ==> (#[trigger] source(
                c.pixel_index,
                kind,
            )[i]).inside(c.pixel_index),
        source(c.pixel_index, kind).len() <= c.info.width * c.info.height,
{
    lemma_pixel_count(c);
    lemma_merged_inside(c.pixel_index, 0, 0);
}

/// Row-major index of `xy` into a `w`-wide map.
pub fn pixel_lin(xy: PixelXY, w: u32) -> (r: u64)
    ensures
        r == pixel_lin_of(xy.x as int, xy.y as int, w as int),
{
    proof {
        let (x, y, w) = (xy.x as int, xy.y as int, w as int);
        assert(0 <= y * w <= 0xFFFF_FFFE_0000_0001) by (nonlinear_arith)
            requires
                0 <= y <= 0xFFFF_FFFF,
                0 <= w <= 0xFFFF_FFFF,
        ;
    }
    xy.y as u64 * w as u64 + xy.x as u64
}

/// A row that is shown somewhere has the slot of its last place.
proof fn lemma_slot(pi: PixelIndex, view: Seq<FilterRef>, w: int, p: int)
    requires
        view.len() < u32::MAX,
    ensures
        slot_of(pi, view, w, p) != u32::MAX ==> ({
            let i = slot_of(pi, view, w, p) as int;
            let row = view[i].row(pi)@;
            0 <= i < view.len() && pixel_lin_of(row.x, row.y, w) == p
        }),
        slot_of(pi, view, w, p) == u32::MAX ==> forall|i: int|
            0 <= i < view.len() ==> pixel_lin_of(
                (#[trigger] view[i]).row(pi)@.x,
                view[i].row(pi)@.y,
                w,
            ) != p,
    decreases view.len(),
{
    if view.len() > 0 {
        lemma_slot(pi, view.drop_last(), w, p);
        let row = view.last().row(pi)@;
        if pixel_lin_of(row.x, row.y, w) != p && slot_of(pi, view, w, p) == u32::MAX {
            assert forall|i: int| 0 <= i < view.len() implies pixel_lin_of(
                (#[trigger] view[i]).row(pi)@.x,
                view[i].row(pi)@.y,
                w,
            ) != p by {
                if i < view.len() - 1 {
                    assert(view[i] == view.drop_last()[i]);
                }
            }
        }
    }
}

impl ListState {
    /// An empty list with `list_viewport_rows` rows in view.
    pub fn new(list_viewport_rows: usize) -> (r: Self)
        ensures
            r.pixel_type == PixelType::Lit,
            r.filter_text@.len() == 0,
            !r.editable_only,
            r.filtered_view@.len() == 0,
            r.filtered_idx@.len() == 0,
            r.last_filter is None,
            r.list_scroll_to is None,
            r.list_viewport_rows == list_viewport_rows,
            forall|c: CoreData| r.wf(c),
    {
        let r = ListState {
            pixel_type: PixelType::Lit,
            filter_text: String::new(),
            editable_only: false,
            filtered_view: Vec::new(),
            filtered_idx: Vec::new(),
            last_filter: None,
            list_scroll_to: None,
            list_viewport_rows,
        };
        assert forall|c: CoreData| r.wf(c) by {
            assert(0 <= c.info.width * c.info.height) by (nonlinear_arith);
        }
        r
    }

    /// Forget the rows of the previous file: otherwise they keep showing until
    /// the new file's rebuild runs, and a stale scroll target from the prior
    /// selection can auto-scroll the new file's list to an arbitrary row.
    pub fn reset(&mut self)
        ensures
            final(self).filtered_view@.len() == 0,
            final(self).filtered_idx@.len() == 0,
            final(self).last_filter is None,
            final(self).list_scroll_to is None,
            final(self).pixel_type == old(self).pixel_type,
            final(self).filter_text == old(self).filter_text,
            final(self).editable_only == old(self).editable_only,
            final(self).list_viewport_rows == old(self).list_viewport_rows,
            forall|c: CoreData| final(self).wf(c),
    {
        self.filtered_view = Vec::new();
        self.filtered_idx = Vec::new();
        self.last_filter = None;
        self.list_scroll_to = None;
        assert forall|c: CoreData| self.wf(c) by {
            assert(0 <= c.info.width * c.info.height) by (nonlinear_arith);
        }
    }

    /// Resolve a visible-list index to the underlying [`PixelRow`]. `None`
    /// if the index is out of range or no file is loaded.
    pub fn filtered_row<'a>(&self, i: usize, core: Option<&'a CoreData>) -> (r: Option<&'a PixelRow>)
        requires
            core matches Some(c) ==> self.wf(*c),
        ensures
            match core {
                Some(c) if i < self.filtered_view@.len() => r == Some(
                    &self.filtered_view@[i as int].row(c.pixel_index),
                ),
                _ => r is None,
            },
    {
        match core {
            Some(c) => if i < self.filtered_view.len() {
                let f: FilterRef = self.filtered_view[i];
                Some(f.resolve(&c.pixel_index))
            } else {
                None
            },
            None => None,
        }
    }

    /// `(FilterRef, PixelRow)` for the visible-list index. The row is
    /// returned by value (it's `Copy`) so callers can release the borrow
    /// before they act on a click.
    pub fn filtered_row_full(&self, i: usize, core: Option<&CoreData>) -> (r: Option<
        (FilterRef, PixelRow),
    >)
        requires
            core matches Some(c) ==> self.wf(*c),
        ensures
            match core {
                Some(c) if i < self.filtered_view@.len() => r == Some(
                    (
                        self.filtered_view@[i as int],
                        self.filtered_view@[i as int].row(c.pixel_index),
                    ),
                ),
                _ => r is None,
            },
    {
        match self.filtered_row(i, core) {
            Some(row) => Some((self.filtered_view[i], *row)),
            None => None,
        }
    }

    /// Resolve a visible-list index to its pixel coordinate.
    pub fn filtered_xy(&self, i: usize, core: Option<&CoreData>) -> (r: Option<PixelXY>)
        requires
            core matches Some(c) ==> self.wf(*c),
        ensures
            match core {
                Some(c) if i < self.filtered_view@.len() => r matches Some(xy) && xy.x
                    == self.filtered_view@[i as int].row(c.pixel_index)@.x && xy.y
                    == self.filtered_view@[i as int].row(c.pixel_index)@.y,
                _ => r is None,
            },
    {
        match self.filtered_row(i, core) {
            Some(row) => Some(row.xy()),
            None => None,
        }
    }

    /// `Some(i)` if pixel `xy` is in the current filtered view at index `i`.
    pub fn filtered_pos(&self, xy: PixelXY, core: Option<&CoreData>) -> (r: Option<usize>)
        ensures
            match core {
                Some(c) => {
                    let p = pixel_lin_of(xy.x as int, xy.y as int, c.info.width as int);
                    if p < self.filtered_idx@.len() && self.filtered_idx@[p] != u32::MAX {
                        r matches Some(i) && i == self.filtered_idx@[p]
                    } else {
                        r is None
                    }
                },
                None => r is None,
            },
    {
        match core {
            Some(c) => {
                let p: u64 = pixel_lin(xy, c.info.width);
                if p >= self.filtered_idx.len() as u64 {
                    return None;
                }
                let slot: u32 = self.filtered_idx[p as usize];
                if slot != u32::MAX {
                    Some(slot as usize)
                } else {
                    None
                }
            },
            None => None,
        }
    }

    pub fn is_in_filtered(&self, xy: PixelXY, core: Option<&CoreData>) -> (r: bool)
        ensures
            r == match core {
                Some(c) => {
                    let p = pixel_lin_of(xy.x as int, xy.y as int, c.info.width as int);
                    p < self.filtered_idx@.len() && self.filtered_idx@[p] != u32::MAX
                },
                None => false,
            },
    {
        self.filtered_pos(xy, core).is_some()
    }
}

/// The reverse map agrees with the view: a pixel of the image is found at `i`
/// only where row `i` names it, and not found only where no row does.
pub proof fn law_reverse_map(st: ListState, c: CoreData, x: int, y: int)
    requires
        c.wf(),
        st.wf(c),
        0 <= x < c.info.width,
        0 <= y < c.info.height,
    ensures
        ({
            let p = pixel_lin_of(x, y, c.info.width as int);
            let found = p < st.filtered_idx@.len() && st.filtered_idx@[p] != u32::MAX;
            &&& found ==> ({
                let i = st.filtered_idx@[p] as int;
                let row = st.filtered_view@[i].row(c.pixel_index)@;
                0 <= i < st.filtered_view@.len() && row.x == x && row.y == y
            })
            &&& !found ==> forall|i: int|
                0 <= i < st.filtered_view@.len() ==> !((#[trigger] st.filtered_view@[i]).row(
                    c.pixel_index,
                )@.x == x && st.filtered_view@[i].row(c.pixel_index)@.y == y)
        }),
{
    let w = c.info.width as int;
    let h = c.info.height as int;
    let pi = c.pixel_index;
    let p = pixel_lin_of(x, y, w);
    lemma_pixel_count(c);
    assert(0 <= y * w + x < w * h) by (nonlinear_arith)
        requires
            0 <= x < w,
            0 <= y < h,
    ;
    if st.filtered_idx@.len() > 0 || st.filtered_view@.len() > 0 {
        assert(st.filtered_idx@ == reverse_map(c, st.filtered_view@));
        assert(st.filtered_idx@[p] == slot_of(pi, st.filtered_view@, w, p));
        lemma_slot(pi, st.filtered_view@, w, p);
        if st.filtered_idx@[p] != u32::MAX {
            let i = st.filtered_idx@[p] as int;
            assert(st.filtered_view@[i].inside(pi));
            lemma_row_inside(c, st.filtered_view@[i]);
            let row = st.filtered_view@[i].row(pi)@;
            assert(row.x == x && row.y == y) by (nonlinear_arith)
                requires
                    row.y * w + row.x == y * w + x,
                    0 <= x < w,
                    0 <= row.x < w,
            ;
        }
    }
}

// Rebuilding.

/// Clear the slots of a view's rows.
fn clear_slots(idx: &mut Vec<u32>, view: &[FilterRef], c: &CoreData)
    requires
        c.wf(),
        forall|i: int| 0 <= i < view@.len() ==> (#[trigger] view@[i]).inside(c.pixel_index),
        view@.len() <= c.info.width * c.info.height,
        old(idx)@ == reverse_map(*c, view@),
    ensures
        final(idx)@ == reverse_map(*c, Seq::empty()),
{
    let ghost w = c.info.width as int;
    let ghost pi = c.pixel_index;
    let ghost before = idx@;
    let mut i: usize = 0;
    while i < view.len()
        invariant
            i <= view@.len(),
            c.wf(),
            w == c.info.width,
            pi == c.pixel_index,
            forall|i: int| 0 <= i < view@.len() ==> (#[trigger] view@[i]).inside(c.pixel_index),
            idx@.len() == w * c.info.height,
            before.len() == idx@.len(),
            forall|p: int|
                0 <= p < idx@.len() ==> #[trigger] idx@[p] == before[p] || idx@[p] == u32::MAX,
            forall|k: int|
                0 <= k < i ==> idx@[pixel_lin_of(
                    (#[trigger] view@[k]).row(pi)@.x,
                    view@[k].row(pi)@.y,
                    w,
                )] == u32::MAX,
        decreases view@.len() - i,
    {
        let f: FilterRef = view[i];
        proof {
            lemma_row_inside(*c, f);
            assert forall|k: int| 0 <= k < i implies 0 <= pixel_lin_of(
                (#[trigger] view@[k]).row(pi)@.x,
                view@[k].row(pi)@.y,
                w,
            ) < idx@.len() by {
                lemma_row_inside(*c, view@[k]);
            }
        }
        let p: u64 = pixel_lin(f.resolve(&c.pixel_index).xy(), c.info.width);
        idx.set(p as usize, u32::MAX);
        i = i + 1;
    }
    proof {
        lemma_pixel_count(*c);
        assert forall|p: int| 0 <= p < idx@.len() implies #[trigger] idx@[p] == u32::MAX by {
            assert(before[p] == slot_of(pi, view@, w, p));
            lemma_slot(pi, view@, w, p);
            if before[p] != u32::MAX {
                let k = before[p] as int;
                assert(view@[k].row(pi)@ == view@[k].row(pi)@);
            }
        }
        assert(idx@ =~= reverse_map(*c, Seq::empty()));
    }
}

/// Write the slots of a view's rows.
fn set_slots(idx: &mut Vec<u32>, view: &[FilterRef], c: &CoreData)
    requires
        c.wf(),
        forall|i: int| 0 <= i < view@.len() ==> (#[trigger] view@[i]).inside(c.pixel_index),
        view@.len() <= c.info.width * c.info.height,
        old(idx)@ == reverse_map(*c, Seq::empty()),
    ensures
        final(idx)@ == reverse_map(*c, view@),
{
    let ghost w = c.info.width as int;
    proof {
        lemma_pixel_count(*c);
        assert(view@.take(0) =~= Seq::<FilterRef>::empty());
    }
    let mut i: usize = 0;
    while i < view.len()
        invariant
            i <= view@.len() <= 0xFFFE_0001,
            c.wf(),
            w == c.info.width,
            forall|i: int| 0 <= i < view@.len() ==> (#[trigger] view@[i]).inside(c.pixel_index),
            idx@ == reverse_map(*c, view@.take(i as int)),
        decreases view@.len() - i,
    {
        let f: FilterRef = view[i];
        proof {
            lemma_row_inside(*c, f);
        }
        let p: u64 = pixel_lin(f.resolve(&c.pixel_index).xy(), c.info.width);
        idx.set(p as usize, i as u32);
        proof {
            let now = view@.take(i + 1);
            assert(now.drop_last() =~= view@.take(i as int));
            assert(now.last() == f);
            assert(idx@ =~= reverse_map(*c, now));
        }
        i = i + 1;
    }
    assert(view@.take(i as int) =~= view@);
}

/// A map with no slot taken.
fn blank_map(c: &CoreData) -> (r: Vec<u32>)
    requires
        c.wf(),
    ensures
        r@ == reverse_map(*c, Seq::empty()),
{
    proof {
        lemma_pixel_count(*c);
    }
    let n: usize = (c.info.width as u64 * c.info.height as u64) as usize;
    let mut r: Vec<u32> = Vec::new();
    r.resize(n, u32::MAX);
    assert(r@ =~= reverse_map(*c, Seq::empty()));
    r
}

impl ListState {
    /// Apply the filter controls to the list.
    pub fn rebuild_filter(&mut self, core: Option<&CoreData>)
        requires
            core matches Some(c) ==> c.wf() && old(self).wf(*c),
        ensures
            match core {
                Some(c) => {
                    &&& final(self).filtered_view@ == old(self).rebuilt(*c)
                    &&& final(self).filtered_idx@ == reverse_map(*c, final(self).filtered_view@)
                    &&& final(self).last_filter matches Some(now) && now.spec@ == filter_of(
                        old(self).filter_text@,
                    ) && now.editable_only == old(self).editable_only && now.pixel_type == old(
                        self,
                    ).pixel_type
                    &&& final(self).wf(*c)
                    &&& old(self).current(*c) ==> final(self).current(*c)
                },
                None => {
                    &&& final(self).filtered_view@.len() == 0
                    &&& final(self).filtered_idx@.len() == 0
                    &&& final(self).last_filter is None
                },
            },
            final(self).pixel_type == old(self).pixel_type,
            final(self).filter_text == old(self).filter_text,
            final(self).editable_only == old(self).editable_only,
            final(self).list_scroll_to == old(self).list_scroll_to,
            final(self).list_viewport_rows == old(self).list_viewport_rows,
    {
        let c: &CoreData = match core {
            Some(c) => c,
            None => {
                self.filtered_view = Vec::new();
                self.filtered_idx = Vec::new();
                self.last_filter = None;
                return ;
            },
        };
        let ghost before = *self;
        // Parse once. Structured shapes (#hex, d=N, x,y) are O(1) per row;
        // only the `Generic` fallback formats each row.
        let new_spec: FilterSpec = FilterSpec::parse(self.filter_text.as_str());
        let new_editable: bool = self.editable_only;
        let new_type: PixelType = self.pixel_type;
        // Narrowing path: re-test *just* the current view rather than rescan
        // the full index? Two conditions: the pixel type didn't change
        // (otherwise the rows come from a different array), and the predicate
        // only got stricter.
        let (can_narrow, old_editable): (bool, bool) = match &self.last_filter {
            Some(prev) => (
                prev.pixel_type == new_type && (!prev.editable_only || new_editable)
                    && new_spec.is_refinement_of(&prev.spec),
                prev.editable_only,
            ),
            None => (false, false),
        };
        // Reset the slots that were set by the previous view. The first call
        // sizes the map; later calls do O(previous view) work.
        let mut idx: Vec<u32> = if self.filtered_idx.len() == 0 {
            blank_map(c)
        } else {
            let mut idx: Vec<u32> = Vec::new();
            std::mem::swap(&mut idx, &mut self.filtered_idx);
            clear_slots(&mut idx, self.filtered_view.as_slice(), c);
            idx
        };
        // Rows in the old view already satisfied the old editable_only (if it
        // was set), so we only have to check it when it just flipped on.
        let editable: bool = if can_narrow {
            new_editable && !old_editable
        } else {
            new_editable
        };
        let spec: &FilterSpec = &new_spec;
        let pred = |fref: FilterRef, row: &PixelRow| -> (r: bool)
            requires
                c.wf(),
                spec@.wf(),
                row@.x < c.info.width,
                row@.y < c.info.height,
                fref.index() < u32::MAX,
            ensures
                r == ((editable ==> row@.has_edit) && spec@.passes(
                    c.info,
                    c.events@,
                    fref,
                    row@,
                )),
            {
                if editable && !row.has_edit {
                    return false;
                }
                spec.accepts(fref, row, c)
            };
        proof {
            lemma_pixel_count(*c);
            lemma_source_inside(*c, new_type);
            lemma_passing_inside(*c, source(c.pixel_index, new_type), spec@, editable);
            lemma_passing_inside(*c, self.filtered_view@, spec@, editable);
            assert forall|f: FilterRef| f.inside(c.pixel_index) implies #[trigger] call_requires(
                pred,
                (f, &f.row(c.pixel_index)),
            ) by {
                lemma_row_inside(*c, f);
            }
        }
        let ghost refs = if can_narrow {
            self.filtered_view@
        } else {
            source(c.pixel_index, new_type)
        };
        let view: Vec<FilterRef> = if can_narrow {
            filter_view(&c.pixel_index, self.filtered_view.as_slice(), pred)
        } else {
            match new_type {
                PixelType::Lit => filter_lit(&c.pixel_index, pred),
                PixelType::Ref => filter_refs(&c.pixel_index, pred),
                PixelType::All => filter_all(&c.pixel_index, pred),
            }
        };
        proof {
            lemma_kept_passes(*c, pred, refs, view@, spec@, editable);
            assert(view@ == before.rebuilt(*c));
            if before.current(*c) {
                law_narrowing_is_exact(before, *c);
            }
        }
        set_slots(&mut idx, view.as_slice(), c);
        self.filtered_view = view;
        self.filtered_idx = idx;
        // Snapshot for the next call's refinement check.
        self.last_filter = Some(
            FilterSnapshot { spec: new_spec, editable_only: new_editable, pixel_type: new_type },
        );
    }
}

// Moving through the list.

/// A key that moves the selection through the list.
#[derive(Debug, Clone, Copy, PartialEq, Eq, Structural)]
pub enum NavKey {
    Up,
    Down,
    PageUp,
    PageDown,
    Home,
    End,
}

impl ListState {
    /// The row that a key leads to from row `row`, kept inside the list.
    pub open spec fn nav_row(&self, key: NavKey, row: int) -> int {
        let page = self.list_viewport_rows as int;
        let to = match key {
            NavKey::Up => row - 1,
            NavKey::Down => row + 1,
            NavKey::PageUp => row - page,
            NavKey::PageDown => row + page,
            NavKey::Home => 0,
            NavKey::End => self.filtered_view@.len() - 1,
        };
        if to < 0 {
            0
        } else if to >= self.filtered_view@.len() {
            self.filtered_view@.len() - 1
        } else {
            to
        }
    }

    /// The pixel that a key selects: the first or last row for Home and End,
    /// and the row so far from the selected one for the others. `None` where
    /// the selection would not move.
    pub fn nav_target(&self, key: NavKey, selected: Option<PixelXY>, core: Option<&CoreData>) -> (r:
        Option<PixelXY>)
        requires
            core matches Some(c) ==> c.wf() && self.wf(*c),
            selected matches Some(xy) ==> core matches Some(c) ==> xy.x < c.info.width && xy.y
                < c.info.height,
        ensures
            match core {
                None => r is None,
                Some(c) => {
                    let n = self.filtered_view@.len() as int;
                    let from = match selected {
                        Some(xy) => {
                            let p = pixel_lin_of(xy.x as int, xy.y as int, c.info.width as int);
                            if p < self.filtered_idx@.len() && self.filtered_idx@[p] != u32::MAX {
                                Some(self.filtered_idx@[p] as int)
                            } else {
                                None
                            }
                        },
                        None => None,
                    };
                    let jump = key == NavKey::Home || key == NavKey::End;
                    let to = self.nav_row(
                        key,
                        match from {
                            Some(row) => row,
                            None => 0,
                        },
                    );
                    if n > 0 && (jump || (from is Some && Some(to) != from)) {
                        &&& 0 <= to < n
                        &&& r matches Some(xy) && xy.x == self.filtered_view@[to].row(
                            c.pixel_index,
                        )@.x && xy.y == self.filtered_view@[to].row(c.pixel_index)@.y
                    } else {
                        r is None
                    }
                },
            },
    {
        let c: &CoreData = match core {
            Some(c) => c,
            None => {
                return None;
            },
        };
        let n: usize = self.filtered_view.len();
        if n == 0 {
            return None;
        }
        if key == NavKey::Home {
            return self.filtered_xy(0, core);
        }
        if key == NavKey::End {
            return self.filtered_xy(n - 1, core);
        }
        let xy: PixelXY = match selected {
            Some(xy) => xy,
            None => {
                return None;
            },
        };
        let row: usize = match self.filtered_pos(xy, core) {
            Some(row) => row,
            None => {
                return None;
            },
        };
        proof {
            law_reverse_map(*self, *c, xy.x as int, xy.y as int);
        }
        let page: usize = self.list_viewport_rows;
        let next: usize = match key {
            NavKey::Up => if row > 0 {
                row - 1
            } else {
                0
            },
            NavKey::PageUp => if row > page {
                row - page
            } else {
                0
            },
            NavKey::Down => if row < n - 1 {
                row + 1
            } else {
                n - 1
            },
            _ => if page < n - row {
                row + page
            } else {
                n - 1
            },
        };
        if next != row {
            self.filtered_xy(next, core)
        } else {
            None
        }
    }
}

// What stands above the list.

/// The line that counts the rows to choose from.
pub open spec fn count_line(kind: PixelType, pi: PixelIndex) -> Seq<char> {
    match kind {
        PixelType::Lit => "Literals: "@ + decimal(pi.lit@.len()) + "  ("@ + decimal(
            pi.n_lit_with_edit as nat,
        ) + " editable)"@,
        PixelType::Ref => "Backrefs: "@ + decimal(pi.refs@.len()),
        PixelType::All => "All: "@ + decimal(pi.lit@.len() + pi.refs@.len()),
    }
}

/// How many rows there are to choose from.
pub open spec fn total_rows(kind: PixelType, pi: PixelIndex) -> nat {
    match kind {
        PixelType::Lit => pi.lit@.len(),
        PixelType::Ref => pi.refs@.len(),
        PixelType::All => pi.lit@.len() + pi.refs@.len(),
    }
}

/// The line on what is shown, and where the selected pixel is in it; empty
/// where there is nothing to say.
pub open spec fn detail_line(shown: nat, total: nat, selected: Option<nat>) -> Seq<char> {
    match (shown < total, selected) {
        (true, Some(p)) => "showing "@ + decimal(shown) + " of "@ + decimal(total) + " • "@
            + decimal(p + 1) + " of "@ + decimal(shown),
        (true, None) => "showing "@ + decimal(shown) + " of "@ + decimal(total),
        (false, Some(p)) => "pixel "@ + decimal(p + 1) + " of "@ + decimal(shown),
        (false, None) => Seq::empty(),
    }
}

impl ListState {
    /// The two lines above the list.
    pub fn count_labels(&self, c: &CoreData, selected: Option<usize>) -> (r: (String, String))
        requires
            c.wf(),
            selected matches Some(p) ==> p < u64::MAX,
        ensures
            r.0@ == count_line(self.pixel_type, c.pixel_index),
            r.1@ == detail_line(
                self.filtered_view@.len(),
                total_rows(self.pixel_type, c.pixel_index),
                match selected {
                    Some(p) => Some(p as nat),
                    None => None,
                },
            ),
    {
        proof {
            lemma_pixel_count(*c);
        }
        let pi: &PixelIndex = &c.pixel_index;
        let mut label: String = String::new();
        let total: u64 = match self.pixel_type {
            PixelType::Lit => {
                let n: u64 = pi.lit.len() as u64;
                label = String::from_str("Literals: ");
                push_decimal(&mut label, n);
                label.append("  (");
                push_decimal(&mut label, pi.n_lit_with_edit as u64);
                label.append(" editable)");
                n
            },
            PixelType::Ref => {
                // Every entry in `refs` is editable by construction, so an
                // "(N editable)" suffix here would always read "of N".
                let n: u64 = pi.refs.len() as u64;
                label = String::from_str("Backrefs: ");
                push_decimal(&mut label, n);
                n
            },
            PixelType::All => {
                let n: u64 = pi.lit.len() as u64 + pi.refs.len() as u64;
                label = String::from_str("All: ");
                push_decimal(&mut label, n);
                n
            },
        };
        let shown: u64 = self.filtered_view.len() as u64;
        let mut detail: String = String::new();
        if shown < total {
            detail = String::from_str("showing ");
            push_decimal(&mut detail, shown);
            detail.append(" of ");
            push_decimal(&mut detail, total);
            if let Some(p) = selected {
                detail.append(" • ");
                push_decimal(&mut detail, p as u64 + 1);
                detail.append(" of ");
                push_decimal(&mut detail, shown);
            }
        } else if let Some(p) = selected {
            detail = String::from_str("pixel ");
            push_decimal(&mut detail, p as u64 + 1);
            detail.append(" of ");
            push_decimal(&mut detail, shown);
        }
        assert(detail@ =~= detail_line(
            shown as nat,
            total as nat,
            match selected {
                Some(p) => Some(p as nat),
                None => None,
            },
        ));
        (label, detail)
    }
}

} // verus!
