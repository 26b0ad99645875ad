//! The open document: what is on disk, what is shown, and apply / undo / redo.

use vstd::prelude::*;
use vstd::string::StringExecFns;

use super::core_data::{lemma_event_count, CoreData};
use super::edit::{
    apply_patches_capturing_prior, inverse_patches, is_rewritten, law_forward_then_inverse_restores,
    patches_apart, widths_ok, ActionView, ByteWrite, EditAction, EditKind, KindView, Patch,
};
use super::history::UndoHistory;
use super::load::LoadedFile;
use super::propagate::{
    lemma_swap_all, redirect_reference, row_redirected, row_swapped, swap_all, swap_literals,
    swaps_ok, RowTracker,
};
use super::render::{
    buffers_fit, lemma_shown_fits, lemma_shown_same_rows, render_affected_rows, render_result,
    repainted_raw, repainted_rgba, same_row, shown,
};
use crate::api::image::owned_palette_view;
use crate::deflate::events::Event;
use crate::deflate::layout::max_distance_of;
use crate::deflate::replay_law::ev_pos;
use crate::deflate::stream_spec::replay;
use crate::index::forest::{
    byte_plays, descends, descends_from_event, law_plays_is_replay, lemma_owner, lemma_same_owner,
    lemma_with_source, owner_event, plays, stream_shape, with_source,
};
use crate::index::pos_to_ev::{event_at, lemma_tiled_order, owner};
use crate::png::chunks::{
    chunk_views, file_bytes, idat_tag, write_chunks, Chunk, ChunkType, ChunkView,
};
use crate::png::zlib::{build_zlib_stream, zlib_stream};
use crate::text::{decimal, push_decimal};

verus! {

// What an edit does to the events.

/// The events after an edit.
pub open spec fn edited_events(events: Seq<Event>, kind: KindView) -> Seq<Event> {
    match kind {
        KindView::Swap(updates) => swap_all(events, updates),
        KindView::Redirect { out_pos, src, dist_sym, .. } => with_source(
            events,
            owner(events, out_pos as int)->0,
            src,
            dist_sym,
        ),
    }
}

/// The edit names what is there: literals for a swap, the reference itself and
/// an earlier source for a redirect.
pub open spec fn edit_ok(events: Seq<Event>, n: int, action: ActionView) -> bool {
    &&& widths_ok(action.patches)
    &&& match action.kind {
        KindView::Swap(updates) => swaps_ok(events, n, updates),
        KindView::Redirect { out_pos, copy_len, src, .. } => {
            &&& out_pos < n
            &&& owner_event(events, out_pos as int) matches Event::Ref(r) && r.out_pos == out_pos
                && r.copy_len == copy_len
            &&& src < out_pos
        },
    }
}

/// The edit that takes another back.
pub open spec fn inverse_kind(events: Seq<Event>, out: Seq<u8>, kind: KindView) -> KindView {
    match kind {
        KindView::Swap(updates) => KindView::Swap(
            updates.map_values(
                |u: ByteWrite| ByteWrite { out_pos: u.out_pos, value: out[u.out_pos as int] },
            ),
        ),
        KindView::Redirect { out_pos, copy_len, .. } => {
            let r = owner_event(events, out_pos as int)->Ref_0;
            KindView::Redirect { out_pos, copy_len, src: r.src_out_pos, dist_sym: r.dist_sym }
        },
    }
}

/// The action that takes another back, under the same label.
pub open spec fn inverse_action(
    events: Seq<Event>,
    out: Seq<u8>,
    buf: Seq<u8>,
    action: ActionView,
) -> ActionView {
    ActionView {
        patches: inverse_patches(buf, action.patches),
        label: action.label,
        kind: inverse_kind(events, out, action.kind),
    }
}

/// A stack of edits can be taken from the top, one after the other.
pub open spec fn stack_ok(events: Seq<Event>, n: int, stack: Seq<EditAction>) -> bool
    decreases stack.len(),
{
    stack.len() > 0 ==> edit_ok(events, n, stack.last()@) && stack_ok(
        edited_events(events, stack.last()@.kind),
        n,
        stack.drop_last(),
    )
}

/// A swapped list differs from the list in symbols alone.
proof fn lemma_swap_keeps(events: Seq<Event>, n: int, updates: Seq<ByteWrite>, k: int)
    requires
        stream_shape(events, n),
        swaps_ok(events, n, updates),
        0 <= k < events.len(),
    ensures
        swap_all(events, updates).len() == events.len(),
        events[k] matches Event::Lit(l) ==> (swap_all(events, updates)[k] matches Event::Lit(m)
            && m.out_pos == l.out_pos && m.bit_start == l.bit_start),
        events[k] is Ref ==> swap_all(events, updates)[k] == events[k],
        (forall|i: int|
            0 <= i < updates.len() ==> owner(events, (#[trigger] updates[i]).out_pos as int)
                != Some(k)) ==> swap_all(events, updates)[k] == events[k],
    decreases updates.len(),
{
    if updates.len() > 0 {
        let front = updates.drop_last();
        let u = updates.last();
        assert(updates[updates.len() - 1] == u);
        assert(swaps_ok(events, n, front)) by {
            assert forall|i: int| 0 <= i < front.len() implies (#[trigger] front[i]).out_pos < n
                && owner_event(events, front[i].out_pos as int) is Lit by {
                assert(updates[i] == front[i]);
            }
        }
        lemma_swap_keeps(events, n, front, k);
        lemma_swap_all(events, n, front);
        let mid = swap_all(events, front);
        assert(owner(mid, u.out_pos as int) == owner(events, u.out_pos as int));
        lemma_owner(events, n, u.out_pos as int);
        if forall|i: int|
            0 <= i < updates.len() ==> owner(events, (#[trigger] updates[i]).out_pos as int)
                != Some(k) {
            assert forall|i: int| 0 <= i < front.len() implies owner(
                events,
                (#[trigger] front[i]).out_pos as int,
            ) != Some(k) by {
                assert(updates[i] == front[i]);
            }
            assert(owner(events, updates[updates.len() - 1].out_pos as int) != Some(k));
        }
    }
}

/// Where every update of literal `k` writes the same symbol, it has that.
proof fn lemma_swap_sets(
    events: Seq<Event>,
    n: int,
    updates: Seq<ByteWrite>,
    k: int,
    symbol: u8,
)
    requires
        stream_shape(events, n),
        swaps_ok(events, n, updates),
        0 <= k < events.len(),
        events[k] is Lit,
        forall|i: int|
            0 <= i < updates.len() && owner(events, (#[trigger] updates[i]).out_pos as int) == Some(
                k,
            ) ==> updates[i].value == symbol,
        exists|i: int|
            0 <= i < updates.len() && owner(events, (#[trigger] updates[i]).out_pos as int) == Some(
                k,
            ),
    ensures
        swap_all(events, updates)[k] matches Event::Lit(m) && m.symbol == symbol,
    decreases updates.len(),
{
    let front = updates.drop_last();
    let u = updates.last();
    assert(updates[updates.len() - 1] == u);
    assert(swaps_ok(events, n, front)) by {
        assert forall|i: int| 0 <= i < front.len() implies (#[trigger] front[i]).out_pos < n
            && owner_event(events, front[i].out_pos as int) is Lit by {
            assert(updates[i] == front[i]);
        }
    }
    lemma_swap_all(events, n, front);
    lemma_swap_keeps(events, n, front, k);
    let mid = swap_all(events, front);
    lemma_owner(events, n, u.out_pos as int);
    assert(owner(mid, u.out_pos as int) == owner(events, u.out_pos as int));
    if owner(events, u.out_pos as int) != Some(k) {
        let i = choose|i: int|
            0 <= i < updates.len() && owner(events, (#[trigger] updates[i]).out_pos as int) == Some(
                k,
            );
        assert(front[i] == updates[i]);
        assert forall|j: int|
            0 <= j < front.len() && owner(events, (#[trigger] front[j]).out_pos as int) == Some(
                k,
            ) implies front[j].value == symbol by {
            assert(updates[j] == front[j]);
        }
        lemma_swap_sets(events, n, front, k, symbol);
    }
}

/// An edit can be taken back: its inverse names what is there afterwards, and
/// applying it gives the events from before.
pub proof fn law_edit_then_inverse(
    events: Seq<Event>,
    out: Seq<u8>,
    buf: Seq<u8>,
    action: ActionView,
)
    requires
        stream_shape(events, out.len() as int),
        plays(events, out),
        edit_ok(events, out.len() as int, action),
    ensures
        ({
            let n = out.len() as int;
            let after = edited_events(events, action.kind);
            let inverse = inverse_action(events, out, buf, action);
            &&& stream_shape(after, n)
            &&& edit_ok(after, n, inverse)
            &&& edited_events(after, inverse.kind) == events
        }),
{
    let n = out.len() as int;
    let after = edited_events(events, action.kind);
    let inverse = inverse_action(events, out, buf, action);
    assert(widths_ok(inverse.patches)) by {
        assert forall|i: int| 0 <= i < inverse.patches.len() implies (
        #[trigger] inverse.patches[i]).code_len <= 32 by {
            assert(action.patches[i].code_len <= 32);
        }
    }
    match action.kind {
        KindView::Swap(updates) => {
            lemma_swap_all(events, n, updates);
            let back = inverse.kind->Swap_0;
            assert forall|i: int| 0 <= i < back.len() implies (#[trigger] back[i]).out_pos < n
                && owner_event(after, back[i].out_pos as int) is Lit by {
                assert(updates[i].out_pos < n);
                assert(owner_event(events, updates[i].out_pos as int) is Lit);
                lemma_owner(events, n, updates[i].out_pos as int);
                let k = owner(events, updates[i].out_pos as int)->0;
                assert(owner(after, updates[i].out_pos as int) == Some(k));
                assert(after[k] is Lit <==> events[k] is Lit);
            }
            assert(swaps_ok(after, n, back));
            lemma_swap_all(after, n, back);
            let restored = swap_all(after, back);
            assert forall|k: int| 0 <= k < events.len() implies restored[k] == events[k] by {
                lemma_swap_keeps(events, n, updates, k);
                lemma_swap_keeps(after, n, back, k);
                if events[k] is Lit {
                    if exists|i: int|
                        0 <= i < updates.len() && owner(
                            events,
                            (#[trigger] updates[i]).out_pos as int,
                        ) == Some(k) {
                        let i = choose|i: int|
                            0 <= i < updates.len() && owner(
                                events,
                                (#[trigger] updates[i]).out_pos as int,
                            ) == Some(k);
                        let l = events[k]->Lit_0;
                        assert forall|j: int|
                            0 <= j < back.len() && owner(
                                after,
                                (#[trigger] back[j]).out_pos as int,
                            ) == Some(k) implies back[j].value == l.symbol by {
                            let p = updates[j].out_pos as int;
                            assert(owner(after, p) == owner(events, p));
                            lemma_owner(events, n, p);
                            assert(byte_plays(events, out, p));
                        }
                        assert(owner(after, back[i].out_pos as int) == owner(
                            events,
                            updates[i].out_pos as int,
                        ));
                        lemma_swap_sets(after, n, back, k, l.symbol);
                    } else {
                        assert forall|j: int| 0 <= j < back.len() implies owner(
                            after,
                            (#[trigger] back[j]).out_pos as int,
                        ) != Some(k) by {
                            let p = updates[j].out_pos as int;
                            assert(owner(after, p) == owner(events, p));
                        }
                    }
                }
            }
            assert(restored =~= events);
        },
        KindView::Redirect { out_pos, copy_len, src, dist_sym } => {
            lemma_owner(events, n, out_pos as int);
            let k = owner(events, out_pos as int)->0;
            let r = events[k]->Ref_0;
            lemma_with_source(events, n, k, src, dist_sym);
            lemma_same_owner(events, after, n, out_pos as int);
            assert(r.src_out_pos < r.out_pos);
            assert(edited_events(after, inverse.kind) =~= events);
        },
    }
}

// Saving.

/// The chunks to save: the first IDAT carries the stream, later ones go.
pub open spec fn chunks_with(chunks: Seq<ChunkView>, zlib: Seq<u8>, seen: bool) -> Seq<ChunkView>
    decreases chunks.len(),
{
    if chunks.len() == 0 {
        Seq::empty()
    } else {
        let c = chunks[0];
        let rest = chunks.subrange(1, chunks.len() as int);
        if c.typ == idat_tag() {
            if seen {
                chunks_with(rest, zlib, true)
            } else {
                seq![ChunkView { typ: idat_tag(), data: zlib }] + chunks_with(rest, zlib, true)
            }
        } else {
            seq![c] + chunks_with(rest, zlib, seen)
        }
    }
}

/// Re-emit exactly one IDAT with the (possibly edited) deflate stream;
/// copy every other chunk through unchanged.
pub fn assemble_png_bytes(chunks: &[Chunk], zlib: &[u8]) -> (r: Vec<u8>)
    ensures
        r@ == file_bytes(chunks_with(chunk_views(chunks@), zlib@, false)),
{
    let mut out: Vec<Chunk> = Vec::new();
    let mut seen: bool = false;
    let mut i: usize = 0;
    let ghost views = chunk_views(chunks@);
    assert(chunk_views(out@) + chunks_with(views, zlib@, seen) =~= chunks_with(
        views,
        zlib@,
        false,
    ));
    assert(views.subrange(0, views.len() as int) =~= views);
    while i < chunks.len()
        invariant
            i <= chunks@.len(),
            views == chunk_views(chunks@),
            chunk_views(out@) + chunks_with(
                views.subrange(i as int, views.len() as int),
                zlib@,
                seen,
            ) == chunks_with(views, zlib@, false),
        decreases chunks@.len() - i,
    {
        let typ: ChunkType = chunks[i].typ;
        let ghost before = chunk_views(out@);
        let ghost seen0 = seen;
        let ghost left = views.subrange(i as int, views.len() as int);
        let ghost rest = views.subrange(i + 1, views.len() as int);
        proof {
            assert(left.subrange(1, left.len() as int) =~= rest);
            assert(left[0] == chunks@[i as int]@);
        }
        if typ == ChunkType::idat() {
            if !seen {
                seen = true;
                let mut data: Vec<u8> = Vec::new();
                data.extend_from_slice(zlib);
                assert(data@ =~= zlib@);
                out.push(Chunk { typ, data });
                assert(chunk_views(out@) =~= before.push(
                    ChunkView { typ: idat_tag(), data: zlib@ },
                ));
            }
        } else {
            let mut data: Vec<u8> = Vec::new();
            data.extend_from_slice(chunks[i].data.as_slice());
            assert(data@ =~= chunks@[i as int].data@);
            out.push(Chunk { typ, data });
            assert(chunk_views(out@) =~= before.push(left[0]));
        }
        proof {
            assert(chunk_views(out@) + chunks_with(rest, zlib@, seen) =~= before + chunks_with(
                left,
                zlib@,
                seen0,
            ));
        }
        i = i + 1;
    }
    proof {
        assert(views.subrange(i as int, views.len() as int) =~= Seq::<ChunkView>::empty());
        assert(chunk_views(out@) =~= chunks_with(views, zlib@, false));
    }
    write_chunks(out.as_slice())
}

// The document.

/// Persistent file-document state: the bytes on disk and how to round-trip
/// them. `core` is the materialised view of `deflate_buf`; `history` is the
/// undo stack, kept here because each entry encodes a delta on `deflate_buf`.
pub struct Document {
    pub chunks: Vec<Chunk>,
    pub zlib_header: [u8; 2],
    pub deflate_buf: Vec<u8>,
    pub dirty: bool,
    pub core: CoreData,
    pub history: UndoHistory,
    /// The image as shown, without overlays.
    pub base_rgba: Vec<u8>,
}

impl Document {
    /// The indices fit the stream, the buffers fit the image, and everything on
    /// the two stacks can be applied in turn.
    pub open spec fn wf(&self) -> bool {
        let n = self.core.output@.len() as int;
        &&& self.core_ok()
        &&& stack_ok(self.core.events@, n, self.history.undos())
        &&& stack_ok(self.core.events@, n, self.history.redos())
    }

    /// The indices fit the stream, and the buffers fit the image.
    pub open spec fn core_ok(&self) -> bool {
        &&& self.core.wf()
        &&& buffers_fit(
            self.core.info,
            owned_palette_view(self.core.palette),
            self.core.unfiltered@.len(),
            self.base_rgba@.len(),
        )
    }

    /// What is shown is what the output says.
    pub open spec fn in_sync(&self) -> bool {
        shown(
            self.core.info,
            owned_palette_view(self.core.palette),
            self.core.output@,
            self.core.unfiltered@,
            self.base_rgba@,
        )
    }

    /// Everything but the events, the output, the buffers and the history.
    pub open spec fn same_file(&self, other: &Document) -> bool {
        &&& self.chunks == other.chunks
        &&& self.zlib_header == other.zlib_header
        &&& self.core.info == other.core.info
        &&& self.core.palette == other.core.palette
        &&& self.core.raster == other.core.raster
        &&& self.core.pixel_index == other.core.pixel_index
        &&& self.core.lit_encs == other.core.lit_encs
        &&& self.core.dist_encs == other.core.dist_encs
        &&& self.core.block_starts == other.core.block_starts
        &&& self.core.output@.len() == other.core.output@.len()
    }

    /// The document after one edit: bits, events and output.
    pub open spec fn is_edited(&self, before: &Document, action: ActionView) -> bool {
        &&& self.same_file(before)
        &&& is_rewritten(before.deflate_buf@, self.deflate_buf@, action.patches)
        &&& self.core.events@ == edited_events(before.core.events@, action.kind)
        &&& self.core.output@ == replay(self.core.events@)
    }

    /// A freshly loaded document: nothing to undo, nothing unsaved.
    pub fn new(loaded: LoadedFile) -> (r: Self)
        requires
            loaded.core.wf(),
            shown(
                loaded.core.info,
                owned_palette_view(loaded.core.palette),
                loaded.core.output@,
                loaded.core.unfiltered@,
                loaded.base_rgba@,
            ),
        ensures
            r.wf(),
            r.in_sync(),
            !r.dirty,
            r.chunks == loaded.chunks,
            r.zlib_header == loaded.zlib_header,
            r.deflate_buf == loaded.deflate_buf,
            r.core == loaded.core,
            r.base_rgba == loaded.base_rgba,
            r.history.undos().len() == 0,
            r.history.redos().len() == 0,
    {
        proof {
            lemma_shown_fits(
                loaded.core.info,
                loaded.core.palette,
                loaded.core.output@,
                loaded.core.unfiltered@,
                loaded.base_rgba@,
            );
        }
        Document {
            chunks: loaded.chunks,
            zlib_header: loaded.zlib_header,
            deflate_buf: loaded.deflate_buf,
            dirty: false,
            core: loaded.core,
            history: UndoHistory::default(),
            base_rgba: loaded.base_rgba,
        }
    }

    /// The file to save: the (possibly edited) stream wrapped with a fresh
    /// checksum, in place of the image data.
    pub fn png_bytes(&self) -> (r: Vec<u8>)
        ensures
            r@ == file_bytes(
                chunks_with(
                    chunk_views(self.chunks@),
                    zlib_stream(self.deflate_buf@, self.zlib_header@, self.core.output@),
                    false,
                ),
            ),
    {
        let zlib: Vec<u8> = build_zlib_stream(
            self.deflate_buf.as_slice(),
            self.zlib_header,
            self.core.output.as_slice(),
        );
        assemble_png_bytes(self.chunks.as_slice(), zlib.as_slice())
    }
}

/// The largest distance is unmoved by literal swaps.
proof fn lemma_swap_distance(a: Seq<Event>, b: Seq<Event>)
    requires
        a.len() == b.len(),
        forall|k: int|
            0 <= k < a.len() ==> (#[trigger] a[k] == b[k] || (a[k] is Lit && b[k] is Lit)),
    ensures
        max_distance_of(a) == max_distance_of(b),
    decreases a.len(),
{
    if a.len() > 0 {
        let last = a.len() - 1;
        assert(a[last] == b[last] || (a[last] is Lit && b[last] is Lit));
        assert forall|k: int| 0 <= k < a.drop_last().len() implies (#[trigger] a.drop_last()[k]
            == b.drop_last()[k] || (a.drop_last()[k] is Lit && b.drop_last()[k] is Lit)) by {
            assert(a[k] == b[k] || (a[k] is Lit && b[k] is Lit));
        }
        lemma_swap_distance(a.drop_last(), b.drop_last());
    }
}

/// The largest distance in `events`: one ref's distance changed.
fn scan_max_distance(events: &[Event]) -> (r: u32)
    requires
        forall|k: int|
            0 <= k < events@.len() ==> (#[trigger] events@[k] matches Event::Ref(r)
                ==> r.src_out_pos < r.out_pos),
    ensures
        r == max_distance_of(events@),
{
    let mut max: u32 = 1;
    let mut i: usize = 0;
    assert(events@.take(0) =~= Seq::<Event>::empty());
    while i < events.len()
        invariant
            i <= events@.len(),
            forall|k: int|
                0 <= k < events@.len() ==> (#[trigger] events@[k] matches Event::Ref(r)
                    ==> r.src_out_pos < r.out_pos),
            max == max_distance_of(events@.take(i as int)),
        decreases events@.len() - i,
    {
        proof {
            assert(events@.take(i + 1).drop_last() =~= events@.take(i as int));
        }
        if let Event::Ref(r) = events[i] {
            assert(events@[i as int] == Event::Ref(r));
            if r.out_pos - r.src_out_pos > max {
                max = r.out_pos - r.src_out_pos;
            }
        }
        i = i + 1;
    }
    assert(events@.take(i as int) =~= events@);
    max
}

/// What an edit leaves to do: which rows of the image to blend again, if it
/// changed any, or why the image couldn't be re-rendered.
pub type Rendered = Result<Option<Vec<usize>>, String>;

/// Re-rendering keeps what is shown in step with the output, where it succeeds
/// and was in step before.
pub open spec fn synced(was: Document, now: Document, before: Seq<u8>, r: Rendered) -> bool {
    (r is Ok && shown(
        was.core.info,
        owned_palette_view(was.core.palette),
        before,
        was.core.unfiltered@,
        was.base_rgba@,
    )) ==> now.in_sync()
}

/// The first marked row from `k` on; the number of rows where there is none.
pub open spec fn lowest(touched: Seq<bool>, k: int) -> int
    decreases touched.len() - k,
{
    if k < 0 || k >= touched.len() {
        touched.len() as int
    } else if touched[k] {
        k
    } else {
        lowest(touched, k + 1)
    }
}

/// What re-rendering leaves and answers. An interlaced image is reassembled
/// whenever a byte was written: its rows lie apart in the output. Any other
/// image is rendered from the first marked row on, if there is one.
pub open spec fn rendered_as(
    was: Document,
    now: Document,
    touched: Seq<bool>,
    wrote: bool,
    r: Rendered,
) -> bool {
    let info = was.core.info;
    let palette = owned_palette_view(was.core.palette);
    let output = now.core.output@;
    let raw = was.core.unfiltered@;
    let first = lowest(touched, 0);
    if info.interlaced && !wrote || !info.interlaced && first >= touched.len() {
        &&& r matches Ok(None)
        &&& now.core.unfiltered@ == raw
        &&& now.base_rgba@ == was.base_rgba@
    } else {
        &&& match render_result(info, palette, output, raw, first, touched) {
            Ok(rows) => r matches Ok(Some(v)) && v@ == rows,
            Err(e) => r matches Err(s) && s@ == e,
        }
        &&& now.core.unfiltered@ == repainted_raw(info, output, raw, first, touched)
        &&& now.base_rgba@ == repainted_rgba(
            info,
            palette,
            output,
            raw,
            was.base_rgba@,
            first,
            touched,
        )
    }
}

/// The lowest marked row is that of the tracker.
proof fn lemma_lowest(touched: Seq<bool>, first: int, k: int)
    requires
        0 <= k <= first <= touched.len(),
        first < touched.len() ==> touched[first],
        forall|y: int| 0 <= y < touched.len() && #[trigger] touched[y] ==> first <= y,
    ensures
        lowest(touched, k) == first,
    decreases touched.len() - k,
{
    if k < first {
        assert(!touched[k]);
        lemma_lowest(touched, first, k + 1);
    }
}

/// A row that holds no changed byte is the same before and after.
proof fn lemma_rows_same(
    before: Seq<u8>,
    after: Seq<u8>,
    stride: int,
    h: int,
    touched: Seq<bool>,
    first: int,
)
    requires
        stride > 0,
        touched.len() == h,
        before.len() == after.len(),
        forall|y: int| 0 <= y < h && #[trigger] touched[y] ==> first <= y,
        forall|p: int|
            0 <= p < before.len() && p / stride < h && !touched[p / stride] ==> #[trigger] after[p]
                == before[p],
    ensures
        forall|y: int|
            0 <= y < h && (y < first || !touched[y]) ==> #[trigger] same_row(
                before,
                after,
                stride,
                y,
            ),
{
    assert forall|y: int| 0 <= y < h && (y < first || !touched[y]) implies #[trigger] same_row(
        before,
        after,
        stride,
        y,
    ) by {
        assert(!touched[y]);
        crate::png::filter::lemma_row_inside(y, h, stride);
        assert forall|p: int|
            y * stride <= p < y * stride + stride && p < before.len() implies #[trigger] before[p]
            == after[p] by {
            vstd::arithmetic::div_mod::lemma_fundamental_div_mod_converse(
                p,
                stride,
                y,
                p - y * stride,
            );
        }
    }
}

impl Document {
    /// Re-render the rows that an edit touched. `wrote` says whether it wrote any
    /// byte at all.
    fn render_touched(&mut self, rows: RowTracker, wrote: bool, Ghost(before): Ghost<Seq<u8>>) -> (r:
        Rendered)
        requires
            old(self).core.info.wf(),
            rows.wf(),
            rows.row_stride == old(self).core.info.row_stride,
            rows.touched@.len() == old(self).core.info.height,
            buffers_fit(
                old(self).core.info,
                owned_palette_view(old(self).core.palette),
                old(self).core.unfiltered@.len(),
                old(self).base_rgba@.len(),
            ),
            before.len() == old(self).core.output@.len(),
            !wrote ==> old(self).core.output@ == before,
            forall|p: int|
                0 <= p < before.len() && p / (rows.row_stride as int) < rows.touched@.len()
                    && !rows.touched@[p / (rows.row_stride as int)] ==> #[trigger] old(
                    self,
                ).core.output@[p] == before[p],
        ensures
            *final(self) == (Document {
                core: CoreData { unfiltered: final(self).core.unfiltered, ..old(self).core },
                base_rgba: final(self).base_rgba,
                ..*old(self)
            }),
            buffers_fit(
                final(self).core.info,
                owned_palette_view(final(self).core.palette),
                final(self).core.unfiltered@.len(),
                final(self).base_rgba@.len(),
            ),
            synced(*old(self), *final(self), before, r),
            rendered_as(*old(self), *final(self), rows.touched@, wrote, r),
    {
        let h: usize = rows.touched.len();
        let first: usize = if rows.first_affected == usize::MAX {
            h
        } else {
            rows.first_affected
        };
        proof {
            if rows.first_affected == usize::MAX {
                assert forall|y: int| 0 <= y < rows.touched@.len() implies !(
                #[trigger] rows.touched@[y]) by {}
            }
            lemma_lowest(rows.touched@, first as int, 0);
            lemma_rows_same(
                before,
                self.core.output@,
                rows.row_stride as int,
                h as int,
                rows.touched@,
                first as int,
            );
        }
        let nothing: bool = if self.core.info.interlaced {
            !wrote
        } else {
            first == h
        };
        if nothing {
            proof {
                if !self.core.info.interlaced && shown(
                    self.core.info,
                    owned_palette_view(self.core.palette),
                    before,
                    self.core.unfiltered@,
                    self.base_rgba@,
                ) {
                    lemma_shown_same_rows(
                        self.core.info,
                        owned_palette_view(self.core.palette),
                        before,
                        self.core.output@,
                        self.core.unfiltered@,
                        self.base_rgba@,
                    );
                }
            }
            return Ok(None);
        }
        match render_affected_rows(
            &self.core.info,
            &self.core.palette,
            self.core.output.as_slice(),
            &mut self.core.unfiltered,
            &mut self.base_rgba,
            first,
            rows.touched.as_slice(),
            Ghost(before),
        ) {
            Ok(rebuilt) => Ok(Some(rebuilt)),
            Err(e) => Err(e),
        }
    }
}

/// Which rows an edit marks.
pub open spec fn row_edited(events: Seq<Event>, n: int, kind: KindView, stride: int, y: int) -> bool {
    match kind {
        KindView::Swap(updates) => row_swapped(events, n, updates, stride, y),
        KindView::Redirect { out_pos, .. } => row_redirected(
            edited_events(events, kind),
            n,
            owner_event(events, out_pos as int),
            stride,
            y,
        ),
    }
}

/// The rows that an edit marks.
pub open spec fn edited_rows(was: Document, kind: KindView) -> Seq<bool> {
    Seq::new(
        was.core.info.height as nat,
        |y: int|
            row_edited(
                was.core.events@,
                was.core.output@.len() as int,
                kind,
                was.core.info.row_stride as int,
                y,
            ),
    )
}

/// The edit writes a byte: all do but a swap of no literals.
pub open spec fn edit_writes(kind: KindView) -> bool {
    match kind {
        KindView::Swap(updates) => updates.len() > 0,
        KindView::Redirect { .. } => true,
    }
}

/// What an edit leaves on screen and answers: the rows of the new output that
/// were rendered, or why they could not be.
pub open spec fn answered(was: Document, now: Document, kind: KindView, r: Rendered) -> bool {
    rendered_as(was, now, edited_rows(was, kind), edit_writes(kind), r)
}

impl Document {
    /// Apply a literal swap. Re-runs the inverse PNG filter and RGBA
    /// conversion over only the rows the propagation touched.
    fn apply_literal_swap_incremental(&mut self, byte_updates: &[ByteWrite]) -> (r: Rendered)
        requires
            old(self).core_ok(),
            swaps_ok(
                old(self).core.events@,
                old(self).core.output@.len() as int,
                byte_updates@,
            ),
        ensures
            final(self).core_ok(),
            final(self).same_file(&*old(self)),
            final(self).deflate_buf == old(self).deflate_buf,
            final(self).history == old(self).history,
            final(self).dirty == old(self).dirty,
            final(self).core.events@ == swap_all(old(self).core.events@, byte_updates@),
            final(self).core.output@ == replay(final(self).core.events@),
            synced(*old(self), *final(self), old(self).core.output@, r),
            answered(*old(self), *final(self), KindView::Swap(byte_updates@), r),
    {
        let ghost was = *self;
        let ghost ev0 = self.core.events@;
        let ghost before = self.core.output@;
        let ghost n = before.len() as int;
        let ghost stride = self.core.info.row_stride as int;
        proof {
            lemma_event_count(ev0, n);
        }
        let mut rows: RowTracker = RowTracker::new(&self.core.info);
        swap_literals(
            byte_updates,
            &self.core.reverse_graph,
            &mut self.core.events,
            &mut self.core.output,
            &mut rows,
        );
        proof {
            lemma_swap_all(ev0, n, byte_updates@);
            lemma_swap_refs(ev0, n, byte_updates@);
            law_plays_is_replay(self.core.events@, self.core.output@);
            lemma_swap_distance(ev0, self.core.events@);
            assert forall|p: int|
                0 <= p < n && p / stride < rows.touched@.len() && !rows.touched@[p
                    / stride] implies #[trigger] self.core.output@[p] == before[p] by {
                vstd::arithmetic::div_mod::lemma_div_pos_is_pos(p, stride);
                assert forall|i: int| 0 <= i < byte_updates@.len() implies !descends(
                    ev0,
                    p,
                    (#[trigger] byte_updates@[i]).out_pos as int,
                ) by {
                    if descends(ev0, p, byte_updates@[i].out_pos as int) {
                        assert(row_swapped(ev0, n, byte_updates@, stride, p / stride));
                    }
                }
            }
        }
        proof {
            if byte_updates@.len() == 0 {
                assert(self.core.output@ =~= before);
            }
            assert(rows.touched@ =~= edited_rows(was, KindView::Swap(byte_updates@)));
        }
        self.render_touched(rows, byte_updates.len() > 0, Ghost(before))
    }

    /// Apply a distance redirect: exactly one event's source moves. Refreshes
    /// the cached largest distance, and re-renders the touched rows.
    fn apply_dist_redirect_incremental(
        &mut self,
        ev_idx: u32,
        src_after: u32,
        dist_sym_after: u8,
    ) -> (r: Rendered)
        requires
            old(self).core_ok(),
            ev_idx < old(self).core.events@.len(),
            old(self).core.events@[ev_idx as int] is Ref,
            src_after < ev_pos(old(self).core.events@[ev_idx as int]),
        ensures
            final(self).core_ok(),
            final(self).same_file(&*old(self)),
            final(self).deflate_buf == old(self).deflate_buf,
            final(self).history == old(self).history,
            final(self).dirty == old(self).dirty,
            final(self).core.events@ == with_source(
                old(self).core.events@,
                ev_idx as int,
                src_after,
                dist_sym_after,
            ),
            final(self).core.output@ == replay(final(self).core.events@),
            synced(*old(self), *final(self), old(self).core.output@, r),
            rendered_as(
                *old(self),
                *final(self),
                Seq::new(
                    old(self).core.info.height as nat,
                    |y: int|
                        row_redirected(
                            final(self).core.events@,
                            old(self).core.output@.len() as int,
                            old(self).core.events@[ev_idx as int],
                            old(self).core.info.row_stride as int,
                            y,
                        ),
                ),
                true,
                r,
            ),
    {
        let ghost ev0 = self.core.events@;
        let ghost before = self.core.output@;
        let ghost n = before.len() as int;
        let ghost stride = self.core.info.row_stride as int;
        let ghost e0 = ev0[ev_idx as int];
        let mut rows: RowTracker = RowTracker::new(&self.core.info);
        redirect_reference(
            ev_idx,
            src_after,
            dist_sym_after,
            &mut self.core.reverse_graph,
            &mut self.core.events,
            &mut self.core.output,
            &mut rows,
        );
        proof {
            lemma_with_source(ev0, n, ev_idx as int, src_after, dist_sym_after);
            law_plays_is_replay(self.core.events@, self.core.output@);
            assert forall|p: int|
                0 <= p < n && p / stride < rows.touched@.len() && !rows.touched@[p
                    / stride] implies #[trigger] self.core.output@[p] == before[p] by {
                vstd::arithmetic::div_mod::lemma_div_pos_is_pos(p, stride);
                if descends_from_event(self.core.events@, p, e0) {
                    assert(row_redirected(self.core.events@, n, e0, stride, p / stride));
                }
            }
        }
        self.core.max_distance = scan_max_distance(self.core.events.as_slice());
        let ghost now = self.core.events@;
        assert(rows.touched@ =~= Seq::new(
            self.core.info.height as nat,
            |y: int| row_redirected(now, n, e0, stride, y),
        ));
        self.render_touched(rows, true, Ghost(before))
    }

    /// Execute `action` and return an [`EditAction`] that inverts it,
    /// suitable for pushing onto the undo stack.
    pub fn apply_and_capture_inverse(&mut self, action: EditAction) -> (r: (EditAction, Rendered))
        requires
            old(self).core_ok(),
            edit_ok(old(self).core.events@, old(self).core.output@.len() as int, action@),
        ensures
            final(self).core_ok(),
            final(self).is_edited(&*old(self), action@),
            final(self).history == old(self).history,
            final(self).dirty == old(self).dirty,
            r.0@ == inverse_action(
                old(self).core.events@,
                old(self).core.output@,
                old(self).deflate_buf@,
                action@,
            ),
            synced(*old(self), *final(self), old(self).core.output@, r.1),
            answered(*old(self), *final(self), action@.kind, r.1),
    {
        let ghost was = *self;
        let ghost view = action@;
        let ghost n = self.core.output@.len() as int;
        let EditAction { patches, label, kind } = action;
        let inverse: Vec<Patch> = apply_patches_capturing_prior(
            self.deflate_buf.as_mut_slice(),
            patches.as_slice(),
        );
        let ghost mid = *self;
        match kind {
            EditKind::LiteralSwap { byte_updates } => {
                // Capture the pre-edit byte at each patched position before
                // mutating the output: undo writes these back.
                let mut prior: Vec<ByteWrite> = Vec::new();
                let mut i: usize = 0;
                while i < byte_updates.len()
                    invariant
                        i <= byte_updates@.len(),
                        *self == mid,
                        mid.core == was.core,
                        n == was.core.output@.len(),
                        swaps_ok(was.core.events@, n, byte_updates@),
                        prior@.len() == i,
                        forall|k: int|
                            0 <= k < i ==> #[trigger] prior@[k] == (ByteWrite {
                                out_pos: byte_updates@[k].out_pos,
                                value: was.core.output@[byte_updates@[k].out_pos as int],
                            }),
                    decreases byte_updates@.len() - i,
                {
                    let u: ByteWrite = byte_updates[i];
                    assert(byte_updates@[i as int].out_pos < n);
                    prior.push(
                        ByteWrite { out_pos: u.out_pos, value: self.core.output[u.out_pos as usize] },
                    );
                    i = i + 1;
                }
                let outcome = self.apply_literal_swap_incremental(byte_updates.as_slice());
                proof {
                    assert(prior@ =~= inverse_kind(
                        was.core.events@,
                        was.core.output@,
                        view.kind,
                    )->Swap_0);
                    assert(edited_rows(mid, KindView::Swap(byte_updates@)) =~= edited_rows(
                        was,
                        view.kind,
                    ));
                }
                (
                    EditAction {
                        patches: inverse,
                        label,
                        kind: EditKind::LiteralSwap { byte_updates: prior },
                    },
                    outcome,
                )
            },
            EditKind::DistRedirect { out_pos, copy_len, src_after, dist_sym_after } => {
                // Capture the redirected ref's pre-edit source and symbol so
                // undo flips back to them.
                proof {
                    lemma_tiled_order(was.core.events@, n);
                    lemma_event_count(was.core.events@, n);
                    lemma_owner(was.core.events@, n, out_pos as int);
                }
                let ev_idx: u32 = match event_at(self.core.events.as_slice(), out_pos as usize) {
                    Some(k) => k,
                    None => 0,
                };
                assert(owner(was.core.events@, out_pos as int) == Some(ev_idx as int));
                let (src_before, dist_sym_before): (u32, u8) = match self.core.events[ev_idx as usize] {
                    Event::Ref(r) => (r.src_out_pos, r.dist_sym),
                    Event::Lit(_) => (0, 0),
                };
                let outcome = self.apply_dist_redirect_incremental(
                    ev_idx,
                    src_after,
                    dist_sym_after,
                );
                proof {
                    let stride = was.core.info.row_stride as int;
                    let e0 = was.core.events@[ev_idx as int];
                    assert(edited_rows(was, view.kind) =~= Seq::new(
                        was.core.info.height as nat,
                        |y: int| row_redirected(self.core.events@, n, e0, stride, y),
                    ));
                }
                (
                    EditAction {
                        patches: inverse,
                        label,
                        kind: EditKind::DistRedirect {
                            out_pos,
                            copy_len,
                            src_after: src_before,
                            dist_sym_after: dist_sym_before,
                        },
                    },
                    outcome,
                )
            },
        }
    }
}

/// References stay, literals stay literals.
proof fn lemma_swap_refs(events: Seq<Event>, n: int, updates: Seq<ByteWrite>)
    requires
        stream_shape(events, n),
        swaps_ok(events, n, updates),
    ensures
        forall|k: int|
            0 <= k < events.len() ==> (#[trigger] events[k] == swap_all(events, updates)[k] || (
            events[k] is Lit && swap_all(events, updates)[k] is Lit)),
{
    lemma_swap_all(events, n, updates);
    assert forall|k: int| 0 <= k < events.len() implies (#[trigger] events[k] == swap_all(
        events,
        updates,
    )[k] || (events[k] is Lit && swap_all(events, updates)[k] is Lit)) by {
        assert(swap_all(events, updates)[k] is Lit <==> events[k] is Lit);
        if events[k] is Ref {
            assert(swap_all(events, updates)[k] == events[k]);
        }
    }
}

/// Both stacks after an edit was put onto one of them: each can be taken from
/// the top.
proof fn lemma_stack_push(
    events: Seq<Event>,
    out: Seq<u8>,
    buf: Seq<u8>,
    action: ActionView,
    stack: Seq<EditAction>,
    inverse: EditAction,
)
    requires
        stream_shape(events, out.len() as int),
        plays(events, out),
        edit_ok(events, out.len() as int, action),
        inverse@ == inverse_action(events, out, buf, action),
        stack_ok(events, out.len() as int, stack),
    ensures
        stack_ok(edited_events(events, action.kind), out.len() as int, stack.push(inverse)),
{
    law_edit_then_inverse(events, out, buf, action);
    assert(stack.push(inverse).drop_last() =~= stack);
}

impl Document {
    /// Apply a new edit: its inverse goes onto the undo stack, and there is
    /// nothing left to redo.
    pub fn apply_edit(&mut self, action: EditAction) -> (r: Rendered)
        requires
            old(self).wf(),
            edit_ok(old(self).core.events@, old(self).core.output@.len() as int, action@),
        ensures
            final(self).wf(),
            final(self).is_edited(&*old(self), action@),
            final(self).dirty,
            final(self).history.undos().len() == old(self).history.undos().len() + 1,
            final(self).history.undos().drop_last() == old(self).history.undos(),
            final(self).history.undos().last()@ == inverse_action(
                old(self).core.events@,
                old(self).core.output@,
                old(self).deflate_buf@,
                action@,
            ),
            final(self).history.redos().len() == 0,
            synced(*old(self), *final(self), old(self).core.output@, r),
            answered(*old(self), *final(self), action@.kind, r),
    {
        let ghost was = *self;
        let ghost view = action@;
        let (inverse, outcome) = self.apply_and_capture_inverse(action);
        proof {
            lemma_stack_push(
                was.core.events@,
                was.core.output@,
                was.deflate_buf@,
                view,
                was.history.undos(),
                inverse,
            );
            assert(was.history.undos().push(inverse).drop_last() =~= was.history.undos());
        }
        self.history.record(inverse);
        self.dirty = true;
        outcome
    }

    /// Take the last edit back. Returns its label, or nothing where there is
    /// nothing to undo.
    pub fn undo(&mut self) -> (r: Option<(String, Rendered)>)
        requires
            old(self).wf(),
        ensures
            final(self).wf(),
            old(self).history.undos().len() == 0 ==> r is None && *final(self) == *old(self),
            old(self).history.undos().len() > 0 ==> (r matches Some((label, outcome)) && {
                let entry = old(self).history.undos().last()@;
                &&& label@ == entry.label
                &&& final(self).is_edited(&*old(self), entry)
                &&& final(self).history.undos() == old(self).history.undos().drop_last()
                &&& final(self).history.redos().len() == old(self).history.redos().len() + 1
                &&& final(self).history.redos().drop_last() == old(self).history.redos()
                &&& final(self).history.redos().last()@ == inverse_action(
                    old(self).core.events@,
                    old(self).core.output@,
                    old(self).deflate_buf@,
                    entry,
                )
                &&& final(self).dirty == (final(self).history.undos().len() > 0)
                &&& synced(*old(self), *final(self), old(self).core.output@, outcome)
                &&& answered(*old(self), *final(self), entry.kind, outcome)
            }),
    {
        if !self.history.can_undo() {
            return None;
        }
        let ghost was = *self;
        let entry: EditAction = match self.history.pop_undo() {
            Some(e) => e,
            None => {
                return None;
            },
        };
        let ghost view = entry@;
        let ghost mid = *self;
        let label: String = entry.label.clone();
        let (inverse, outcome) = self.apply_and_capture_inverse(entry);
        proof {
            lemma_stack_push(
                was.core.events@,
                was.core.output@,
                was.deflate_buf@,
                view,
                was.history.redos(),
                inverse,
            );
            assert(was.history.redos().push(inverse).drop_last() =~= was.history.redos());
        }
        self.history.push_redo(inverse);
        self.dirty = self.history.can_undo();
        Some((label, outcome))
    }

    /// Make the last undone edit again. Returns its label, or nothing where
    /// there is nothing to redo.
    pub fn redo(&mut self) -> (r: Option<(String, Rendered)>)
        requires
            old(self).wf(),
        ensures
            final(self).wf(),
            old(self).history.redos().len() == 0 ==> r is None && *final(self) == *old(self),
            old(self).history.redos().len() > 0 ==> (r matches Some((label, outcome)) && {
                let entry = old(self).history.redos().last()@;
                &&& label@ == entry.label
                &&& final(self).is_edited(&*old(self), entry)
                &&& final(self).history.redos() == old(self).history.redos().drop_last()
                &&& final(self).history.undos().len() == old(self).history.undos().len() + 1
                &&& final(self).history.undos().drop_last() == old(self).history.undos()
                &&& final(self).history.undos().last()@ == inverse_action(
                    old(self).core.events@,
                    old(self).core.output@,
                    old(self).deflate_buf@,
                    entry,
                )
                &&& final(self).dirty
                &&& synced(*old(self), *final(self), old(self).core.output@, outcome)
                &&& answered(*old(self), *final(self), entry.kind, outcome)
            }),
    {
        if !self.history.can_redo() {
            return None;
        }
        let ghost was = *self;
        let entry: EditAction = match self.history.pop_redo() {
            Some(e) => e,
            None => {
                return None;
            },
        };
        let ghost view = entry@;
        let label: String = entry.label.clone();
        let (inverse, outcome) = self.apply_and_capture_inverse(entry);
        proof {
            lemma_stack_push(
                was.core.events@,
                was.core.output@,
                was.deflate_buf@,
                view,
                was.history.undos(),
                inverse,
            );
            assert(was.history.undos().push(inverse).drop_last() =~= was.history.undos());
        }
        self.history.push_undo(inverse);
        self.dirty = true;
        Some((label, outcome))
    }

    /// What the status bar says after an undo or a redo.
    pub fn history_text(&self, done: &str, label: &str) -> (r: String)
        ensures
            r@ == done@ + ": "@ + label@ + "  |  undo: "@ + decimal(
                self.history.undos().len(),
            ) + ", redo: "@ + decimal(self.history.redos().len()),
    {
        let mut s: String = String::from_str(done);
        s.append(": ");
        s.append(label);
        s.append("  |  undo: ");
        push_decimal(&mut s, self.history.undo_len() as u64);
        s.append(", redo: ");
        push_decimal(&mut s, self.history.redo_len() as u64);
        s
    }
}

/// Undoing an edit restores the document: the same compressed bytes, the same
/// events, and the same output. Real patches are inside the stream and do not
/// overlap.
pub proof fn law_undo_restores(
    before: Document,
    edited: Document,
    undone: Document,
    action: ActionView,
)
    requires
        before.core_ok(),
        edit_ok(before.core.events@, before.core.output@.len() as int, action),
        patches_apart(action.patches, before.deflate_buf@.len()),
        edited.is_edited(&before, action),
        undone.is_edited(
            &edited,
            inverse_action(
                before.core.events@,
                before.core.output@,
                before.deflate_buf@,
                action,
            ),
        ),
    ensures
        undone.deflate_buf@ == before.deflate_buf@,
        undone.core.events@ == before.core.events@,
        undone.core.output@ == before.core.output@,
        undone.same_file(&before),
{
    law_edit_then_inverse(
        before.core.events@,
        before.core.output@,
        before.deflate_buf@,
        action,
    );
    law_plays_is_replay(before.core.events@, before.core.output@);
    law_forward_then_inverse_restores(
        before.deflate_buf@,
        edited.deflate_buf@,
        undone.deflate_buf@,
        action.patches,
    );
}

} // verus!
