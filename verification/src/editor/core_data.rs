//! All decoded state for one open PNG.

use vstd::prelude::*;

use crate::deflate::decoder::{enc_views, DecodedDeflate};
use crate::deflate::events::{EncTable, Event};
use crate::deflate::inflate_spec::Decoded;
use crate::deflate::layout::laid_out;
use crate::deflate::replay_law::{ev_len, ev_pos};
use crate::editor::propagate::lemma_refs_inside;
use crate::index::forest::{plays, stream_shape};
use crate::index::pixel::{
    build_pixel_index, count_edits, event_classes, law_picks_in_raster_order, law_picks_once,
    lemma_step_size, refs_look_back, rows_inside, rows_sorted, rows_view, IndexInput, PixelIndex,
};
use crate::index::pos_to_ev::{build_pos_to_ev, dense_map, lemma_tiled_order};
use crate::index::reverse_graph::{build_reverse_graph, copy_graph, ReverseGraph};
use crate::png::chunks::PngInfo;
use crate::png::convert::PaletteEntry;
use crate::raster::{raster_len, Raster};

verus! {

/// All decoded state for one open PNG. Three groups: the decoded DEFLATE
/// stream (flattened from [`DecodedDeflate`] so hot paths read `events` /
/// `output` directly, not through a nested field), the indices derived from
/// it, and the IHDR-derived image metadata.
pub struct CoreData {
    // image metadata
    /// IHDR-derived metadata + layout: colour type and bit depth for
    /// codec dispatch, geometry fields and the pixel↔byte coordinate
    /// methods for everything else.
    pub info: PngInfo,
    /// Output-byte <-> screen-pixel projection. Equivalent to `info`'s
    /// coordinate methods for progressive images, and pass-aware for Adam7
    /// interlaced ones. Everything mapping pixels to bytes goes through it.
    pub raster: Raster,
    /// Optional decoded PLTE+tRNS (present for indexed-color PNGs).
    pub palette: Option<Vec<PaletteEntry>>,
    // decoded DEFLATE stream
    pub output: Vec<u8>,
    pub events: Vec<Event>,
    pub lit_encs: Vec<EncTable>,
    pub dist_encs: Vec<EncTable>,
    /// Per-block event-start indices; used with
    /// [`crate::deflate::events::block_of`] to resolve a clicked event's block
    /// for the per-block Huffman-table lookup.
    pub block_starts: Vec<u32>,
    /// Largest LZ77 back-reference distance in `events`, cached so the
    /// distance overlay renderer doesn't rescan the event list each time
    /// its cache entry is (re)built.
    pub max_distance: u32,
    // indices derived from the stream + metadata
    pub pixel_index: PixelIndex,
    pub reverse_graph: ReverseGraph,
    /// Full unfiltered PNG pixel bytes (`h * (row_stride - 1)` bytes). Held
    /// across edits so the incremental apply path can re-run only the
    /// affected rows through the row-filter inverse.
    pub unfiltered: Vec<u8>,
}

/// An image that the editor's positions and coordinates can address.
pub open spec fn image_fits(info: PngInfo) -> bool {
    &&& info.legal()
    &&& info.width <= u16::MAX
    &&& info.height <= u16::MAX
    &&& raster_len(info) <= u32::MAX
    &&& raster_len(info) < usize::MAX
}

/// A decode that the editor can index: events that tile and play the output,
/// and blocks that lie inside them.
pub open spec fn stream_ok(d: Decoded) -> bool {
    &&& d.progress.out.len() <= u32::MAX
    &&& d.progress.out.len() < usize::MAX
    &&& stream_shape(d.progress.events, d.progress.out.len() as int)
    &&& plays(d.progress.events, d.progress.out)
    &&& laid_out(d)
    &&& d.block_starts.len() <= u32::MAX
}

/// Events that tile an output are no more than its bytes.
pub proof fn lemma_event_count(events: Seq<Event>, n: int)
    requires
        stream_shape(events, n),
    ensures
        events.len() <= n,
    decreases events.len(),
{
    if events.len() > 0 {
        crate::index::forest::lemma_tiled_front(events, n);
        lemma_event_count(events.drop_last(), ev_pos(events.last()));
        assert(ev_len(events[events.len() - 1]) >= 1);
    }
}

impl CoreData {
    /// The decoded stream.
    pub open spec fn stream(&self) -> Decoded {
        Decoded {
            progress: crate::deflate::inflate_spec::Progress {
                out: self.output@,
                events: self.events@,
                max_distance: self.max_distance,
            },
            lit_encs: enc_views(self.lit_encs@),
            dist_encs: enc_views(self.dist_encs@),
            block_starts: self.block_starts@,
        }
    }

    /// The list rows name pixels of the image, in raster order.
    pub open spec fn index_ok(&self) -> bool {
        let w = self.info.width as int;
        let h = self.info.height as int;
        &&& rows_sorted(rows_view(self.pixel_index.lit@))
        &&& rows_sorted(rows_view(self.pixel_index.refs@))
        &&& rows_inside(rows_view(self.pixel_index.lit@), w, h)
        &&& rows_inside(rows_view(self.pixel_index.refs@), w, h)
        &&& self.pixel_index.lit@.len() + self.pixel_index.refs@.len() <= w * h
    }

    /// What the pixel index was built from, if the stream was not edited since.
    pub open spec fn index_input(&self) -> IndexInput {
        IndexInput {
            info: self.info,
            output: self.output@,
            pos_to_ev: dense_map(self.events@, self.output@.len()),
            classes: event_classes(
                self.events@,
                self.block_starts@,
                self.lit_encs@,
                self.dist_encs@,
                self.block_starts@.len() as int,
            ),
        }
    }

    /// The pixel index lists just the pixels of the stream, each with whether it
    /// can be edited.
    pub open spec fn indexed(&self) -> bool {
        let h = self.info.height as int;
        &&& rows_view(self.pixel_index.lit@) == self.index_input().picks(h, true)
        &&& rows_view(self.pixel_index.refs@) == self.index_input().picks(h, false)
        &&& self.pixel_index.n_lit_with_edit == count_edits(self.index_input().picks(h, true))
    }

    /// The image, the stream and the indices belong together.
    pub open spec fn wf(&self) -> bool {
        &&& image_fits(self.info)
        &&& self.raster.wf()
        &&& self.raster.geometry() == self.info
        &&& stream_ok(self.stream())
        &&& self.reverse_graph.wf()
        &&& self.reverse_graph@ == copy_graph(self.events@, self.output@.len())
        &&& self.index_ok()
    }

    /// Number of DEFLATE blocks: one `block_starts` entry per block.
    pub fn num_blocks(&self) -> (r: usize)
        ensures
            r == self.block_starts@.len(),
    {
        self.block_starts.len()
    }

    /// Whether pixel overlays can be shown. They project output positions
    /// through the progressive layout, so they're gated to non-interlaced
    /// images until the overlay renderers become pass-aware.
    pub fn overlays_supported(&self) -> (r: bool)
        ensures
            r == !self.info.interlaced,
    {
        !self.info.interlaced
    }
}

/// Build a fully-indexed [`CoreData`] from a freshly decoded DEFLATE
/// stream plus IHDR info and palette. Leaves [`CoreData::unfiltered`]
/// empty; the caller fills it after running the row-filter inverse.
#[verifier::rlimit(60)]
pub fn build_core_from_decoded(
    decoded: DecodedDeflate,
    info: PngInfo,
    palette: Option<Vec<PaletteEntry>>,
) -> (r: CoreData)
    requires
        image_fits(info),
        stream_ok(decoded@),
    ensures
        r.wf(),
        r.stream() == decoded@,
        r.info == info,
        r.palette == palette,
        r.unfiltered@.len() == 0,
        r.indexed(),
{
    proof {
        let n = decoded.output@.len() as int;
        lemma_tiled_order(decoded.events@, n);
        lemma_event_count(decoded.events@, n);
        lemma_refs_inside(decoded.events@, n);
    }
    let raster: Raster = Raster::new(info);
    let len: usize = decoded.output.len();
    // `pos_to_ev` lives only for the duration of this function. The
    // pixel-index build does `bpp` lookups per pixel, where the dense `Vec<u32>`
    // is ~100x faster than the `O(log events)` queries at runtime.
    let pos_to_ev: Vec<u32> = build_pos_to_ev(decoded.events.as_slice(), len);
    let reverse_graph: ReverseGraph = build_reverse_graph(decoded.events.as_slice(), len);
    proof {
        assert forall|k: int| 0 <= k < decoded.events@.len() implies (
        #[trigger] decoded.events@[k] matches Event::Ref(r) ==> r.src_out_pos <= r.out_pos) by {}
        assert(refs_look_back(decoded.events@));
    }
    let pixel_index: PixelIndex = build_pixel_index(
        decoded.events.as_slice(),
        decoded.output.as_slice(),
        pos_to_ev.as_slice(),
        decoded.lit_encs.as_slice(),
        decoded.dist_encs.as_slice(),
        decoded.block_starts.as_slice(),
        &raster,
    );
    let ghost ix = IndexInput {
        info,
        output: decoded.output@,
        pos_to_ev: dense_map(decoded.events@, decoded.output@.len()),
        classes: event_classes(
            decoded.events@,
            decoded.block_starts@,
            decoded.lit_encs@,
            decoded.dist_encs@,
            decoded.block_starts@.len() as int,
        ),
    };
    proof {
        lemma_step_size(info);
        law_picks_in_raster_order(ix, info.height as int, true);
        law_picks_in_raster_order(ix, info.height as int, false);
        law_picks_once(ix, info.height as int);
        assert(rows_view(pixel_index.lit@).len() == pixel_index.lit@.len());
        assert(rows_view(pixel_index.refs@).len() == pixel_index.refs@.len());
        assert(info.height * info.width == info.width * info.height) by (nonlinear_arith);
    }
    CoreData {
        info,
        raster,
        palette,
        output: decoded.output,
        events: decoded.events,
        lit_encs: decoded.lit_encs,
        dist_encs: decoded.dist_encs,
        block_starts: decoded.block_starts,
        max_distance: decoded.max_distance,
        pixel_index,
        reverse_graph,
        unfiltered: Vec::new(),
    }
}

} // verus!
