//! The selected pixel and what the side panel says of it.

use vstd::prelude::*;
use vstd::string::StringExecFns;

use super::core_data::CoreData;
use super::edit_options::{
    add_site, build_lit_swap_edits, build_ref_redirect_edits, groups_view, put_site,
    redirect_options, swap_options, GroupView, LitGroup,
};
use super::list::{lemma_pixel_count, lemma_row_inside, pixel_lin_of, ListState};
use super::list_filter::FilterRef;
use super::overlay_cache::OverlayMode;
use super::select::{
    block_at, events_inside, find_pixel_row, fmt_pixel, gather_pixel_events, lines_view,
    options_view, pixel_events, pixel_text, row_at, same_len_lit_swaps, swap_symbols, ChannelEvent,
    EditOption, LitPatchSite, OptionView, SelectSource,
};
use crate::coords::{OutPos, PixelXY};
use crate::deflate::events::{block_index, code_len, Event, RefEvent};
use crate::index::cascade::{capped, is_max_depth, within, CascadeScratch};
use crate::index::pixel::{alts_in, lemma_step_size, rows_view, valid_dist_alts, DistAlt, RowView};
use crate::index::pos_to_ev::lemma_tiled_order;
use crate::index::reverse_graph::law_graph_closed;
use crate::png::chunks::PngInfo;
use crate::raster::{law_raster_round_trip, raster_pixel, raster_pos};
use crate::text::{decimal, push_decimal};

verus! {

// What the panel says.

/// The place of a pixel in one of the lists, counted from one.
pub open spec fn place_in(rows: Seq<RowView>, sel: PixelXY) -> Option<int> {
    if exists|i: int| #[trigger] row_at(rows, sel.x as int, sel.y as int, i) {
        Some((choose|i: int| #[trigger] row_at(rows, sel.x as int, sel.y as int, i)) + 1)
    } else {
        None
    }
}

/// The first line: the pixel, and its place in the literal or the reference
/// list.
pub open spec fn head_line(c: CoreData, sel: PixelXY) -> Seq<char> {
    let at = "Pixel ("@ + decimal(sel.x as nat) + ", "@ + decimal(sel.y as nat) + ")"@;
    match (
        place_in(rows_view(c.pixel_index.lit@), sel),
        place_in(rows_view(c.pixel_index.refs@), sel),
    ) {
        (Some(i), _) => at + "  lit #"@ + decimal(i as nat),
        (None, Some(i)) => at + "  ref #"@ + decimal(i as nat),
        (None, None) => at,
    }
}

/// How many pixels share a byte.
pub open spec fn pixels_per_byte_of(info: PngInfo) -> int {
    if info.bits_per_pixel >= 8 {
        1
    } else {
        8int / info.bits_per_pixel as int
    }
}

/// The end of the cluster that starts at `x`: a row may cut it short.
pub open spec fn cluster_end_of(info: PngInfo, x: int) -> int {
    if x + pixels_per_byte_of(info) < info.width {
        x + pixels_per_byte_of(info)
    } else {
        info.width as int
    }
}

/// The line that warns of pixels sharing a byte.
pub open spec fn cluster_line(info: PngInfo, sel: PixelXY) -> Seq<char> {
    let end = cluster_end_of(info, sel.x as int);
    let n = end - sel.x;
    "  (this byte encodes "@ + decimal(n as nat) + (if n > 1 {
        " pixels at y="@
    } else {
        " pixel at y="@
    }) + decimal(sel.y as nat) + ", x="@ + decimal(sel.x as nat) + ".."@ + decimal(
        (end - 1) as nat,
    ) + "; edits affect all of them)"@
}

/// The line of a literal channel.
pub open spec fn lit_line(name: Seq<char>, val: u8, block: int, clen: u8, swaps: nat) -> Seq<char> {
    "  "@ + name + ": LITERAL  val="@ + decimal(val as nat) + "  block="@ + decimal(block as nat)
        + "  "@ + decimal(clen as nat) + "-bit  "@ + decimal(swaps) + " swap options"@
}

/// The line of a back-reference channel.
pub open spec fn ref_line(
    name: Seq<char>,
    val: u8,
    block: int,
    src: Option<PixelXY>,
    r: RefEvent,
    alts: nat,
) -> Seq<char> {
    "  "@ + name + ": BACKREF  val="@ + decimal(val as nat) + "  block="@ + decimal(block as nat)
        + "  from="@ + pixel_text(src) + "  dist="@ + decimal((r.out_pos - r.src_out_pos) as nat)
        + "  len="@ + decimal(r.copy_len as nat) + "  "@ + decimal(alts) + " redirect options"@
}

/// What a selection is made of.
pub struct SelectionBuild {
    pub info_lines: Vec<String>,
    pub edit_options: Vec<EditOption>,
    pub backref_src: Option<PixelXY>,
    pub cascade_positions: Vec<u32>,
}

/// A [`SelectionBuild`] as plain values.
pub struct BuildView {
    pub info_lines: Seq<Seq<char>>,
    pub edit_options: Seq<OptionView>,
    pub backref_src: Option<PixelXY>,
    pub cascade_positions: Seq<u32>,
}

impl View for SelectionBuild {
    type V = BuildView;

    open spec fn view(&self) -> BuildView {
        BuildView {
            info_lines: lines_view(self.info_lines@),
            edit_options: options_view(self.edit_options@),
            backref_src: self.backref_src,
            cascade_positions: self.cascade_positions@,
        }
    }
}

/// A selection while its channels are walked.
pub struct Walk {
    pub build: BuildView,
    pub groups: Seq<GroupView>,
}

/// The selection before any channel.
pub open spec fn walk_start(c: CoreData, sel: PixelXY) -> Walk {
    let head = seq![head_line(c, sel)];
    Walk {
        build: BuildView {
            info_lines: if pixels_per_byte_of(c.info) > 1 {
                head.push(cluster_line(c.info, sel))
            } else {
                head
            },
            edit_options: Seq::empty(),
            backref_src: None,
            cascade_positions: Seq::empty(),
        },
        groups: Seq::empty(),
    }
}

/// The byte of the output at `p`; zero past its end.
pub open spec fn byte_at(output: Seq<u8>, p: int) -> u8 {
    if 0 <= p < output.len() {
        output[p]
    } else {
        0
    }
}

/// One more channel: a line, where its bytes come from, and its redirects; a
/// literal joins the group of its symbol and block.
pub open spec fn walk_step(c: CoreData, base: int, w: Walk, ev: ChannelEvent) -> Walk {
    let name = c.info.label(ev.ch);
    let block = block_index(c.block_starts@, ev.ev_idx as int);
    let b = w.build;
    match c.events@[ev.ev_idx as int] {
        Event::Lit(lit) => {
            let table = c.lit_encs@[block]@;
            Walk {
                build: BuildView {
                    info_lines: b.info_lines.push(
                        lit_line(
                            name,
                            lit.symbol,
                            block,
                            code_len(table, lit.symbol as int),
                            swap_symbols(table, lit.symbol as int, 256).len(),
                        ),
                    ),
                    cascade_positions: b.cascade_positions.push(lit.out_pos),
                    ..b
                },
                groups: add_site(
                    w.groups,
                    lit.symbol,
                    block as u32,
                    LitPatchSite { ch: ev.ch, bit_start: lit.bit_start, out_pos: lit.out_pos },
                    0,
                ),
            }
        },
        Event::Ref(r) => {
            let src = raster_pixel(c.info, r.src_out_pos as int);
            let alts = alts_in(
                c.dist_encs@,
                block,
                r.dist_sym as int,
                r.out_pos as int,
                r.src_out_pos as int,
            );
            Walk {
                build: BuildView {
                    info_lines: b.info_lines.push(
                        ref_line(
                            name,
                            byte_at(c.output@, base + ev.ch),
                            block,
                            src,
                            r,
                            alts.len(),
                        ),
                    ),
                    edit_options: b.edit_options + redirect_options(c, r, block, name, alts),
                    backref_src: if b.backref_src is None {
                        src
                    } else {
                        b.backref_src
                    },
                    cascade_positions: b.cascade_positions.push(r.out_pos),
                },
                groups: w.groups,
            }
        },
    }
}

/// The selection after all of `evs`.
pub open spec fn walked(c: CoreData, sel: PixelXY, base: int, evs: Seq<ChannelEvent>) -> Walk
    decreases evs.len(),
{
    if evs.len() == 0 {
        walk_start(c, sel)
    } else {
        walk_step(c, base, walked(c, sel, base, evs.drop_last()), evs.last())
    }
}

/// What the panel shows of a pixel: the walk over its channels, with the
/// literal swaps behind the redirects.
pub open spec fn selection_of(
    c: CoreData,
    sel: PixelXY,
    base: int,
    evs: Seq<ChannelEvent>,
) -> BuildView {
    let w = walked(c, sel, base, evs);
    BuildView { edit_options: w.build.edit_options + swap_options(c, w.groups), ..w.build }
}

fn head_text(c: &CoreData, sel: PixelXY) -> (s: String)
    requires
        c.wf(),
    ensures
        s@ == head_line(*c, sel),
{
    proof {
        lemma_pixel_count(*c);
    }
    let mut s: String = String::from_str("Pixel (");
    push_decimal(&mut s, sel.x as u64);
    s.append(", ");
    push_decimal(&mut s, sel.y as u64);
    s.append(")");
    let ghost lit = rows_view(c.pixel_index.lit@);
    let ghost refs = rows_view(c.pixel_index.refs@);
    // Both lists are sorted by `(y, x)`, so resolving the selected pixel's row
    // in either is one binary search rather than a linear scan.
    match find_pixel_row(c.pixel_index.lit.as_slice(), sel) {
        Some(i) => {
            proof {
                lemma_one_row(lit, sel, i as int);
            }
            s.append("  lit #");
            push_decimal(&mut s, i as u64 + 1);
        },
        None => {
            match find_pixel_row(c.pixel_index.refs.as_slice(), sel) {
                Some(i) => {
                    proof {
                        lemma_one_row(refs, sel, i as int);
                    }
                    s.append("  ref #");
                    push_decimal(&mut s, i as u64 + 1);
                },
                None => {},
            }
        },
    }
    s
}

/// No two rows name the same pixel.
proof fn lemma_one_row(rows: Seq<RowView>, sel: PixelXY, i: int)
    requires
        crate::index::pixel::rows_sorted(rows),
        row_at(rows, sel.x as int, sel.y as int, i),
    ensures
        place_in(rows, sel) == Some(i + 1),
{
    let k = choose|k: int| #[trigger] row_at(rows, sel.x as int, sel.y as int, k);
    if k < i {
        assert(rows[k].y < rows[i].y || rows[k].x < rows[i].x);
    } else if i < k {
        assert(rows[i].y < rows[k].y || rows[i].x < rows[k].x);
    }
}

fn cluster_text(c: &CoreData, sel: PixelXY) -> (s: String)
    requires
        c.wf(),
        sel.x < c.info.width,
    ensures
        s@ == cluster_line(c.info, sel),
{
    proof {
        lemma_step_size(c.info);
    }
    let ppb: u32 = c.raster.pixels_per_byte();
    let end: u32 = if sel.x + ppb < c.info.width {
        sel.x + ppb
    } else {
        c.info.width
    };
    let n: u32 = end - sel.x;
    let mut s: String = String::from_str("  (this byte encodes ");
    push_decimal(&mut s, n as u64);
    if n > 1 {
        s.append(" pixels at y=");
    } else {
        s.append(" pixel at y=");
    }
    push_decimal(&mut s, sel.y as u64);
    s.append(", x=");
    push_decimal(&mut s, sel.x as u64);
    s.append("..");
    push_decimal(&mut s, end as u64 - 1);
    s.append("; edits affect all of them)");
    s
}

fn lit_text(name: &str, val: u8, block: u32, clen: u8, swaps: usize) -> (s: String)
    ensures
        s@ == lit_line(name@, val, block as int, clen, swaps as nat),
{
    let mut s: String = String::from_str("  ");
    s.append(name);
    s.append(": LITERAL  val=");
    push_decimal(&mut s, val as u64);
    s.append("  block=");
    push_decimal(&mut s, block as u64);
    s.append("  ");
    push_decimal(&mut s, clen as u64);
    s.append("-bit  ");
    push_decimal(&mut s, swaps as u64);
    s.append(" swap options");
    s
}

fn ref_text(name: &str, val: u8, block: u32, src: Option<PixelXY>, r: &RefEvent, alts: usize) -> (s:
    String)
    requires
        r.src_out_pos <= r.out_pos,
    ensures
        s@ == ref_line(name@, val, block as int, src, *r, alts as nat),
{
    let mut s: String = String::from_str("  ");
    s.append(name);
    s.append(": BACKREF  val=");
    push_decimal(&mut s, val as u64);
    s.append("  block=");
    push_decimal(&mut s, block as u64);
    s.append("  from=");
    s.append(fmt_pixel(src).as_str());
    s.append("  dist=");
    push_decimal(&mut s, (r.out_pos - r.src_out_pos) as u64);
    s.append("  len=");
    push_decimal(&mut s, r.copy_len as u64);
    s.append("  ");
    push_decimal(&mut s, alts as u64);
    s.append(" redirect options");
    s
}

/// Every group names a block that is there.
spec fn groups_inside(groups: Seq<GroupView>, n: nat) -> bool {
    forall|i: int| 0 <= i < groups.len() ==> (#[trigger] groups[i]).block < n
}

proof fn lemma_add_site_inside(
    groups: Seq<GroupView>,
    val: u8,
    block: u32,
    site: LitPatchSite,
    i: int,
    n: nat,
)
    requires
        0 <= i,
        groups_inside(groups, n),
        block < n,
    ensures
        groups_inside(add_site(groups, val, block, site, i), n),
    decreases groups.len() - i,
{
    if i < groups.len() && !(groups[i].val == val && groups[i].block == block) {
        lemma_add_site_inside(groups, val, block, site, i + 1, n);
    }
}

/// Walk one channel.
fn step(
    c: &CoreData,
    base_raw: usize,
    build: &mut SelectionBuild,
    groups: &mut Vec<LitGroup>,
    ev: ChannelEvent,
)
    requires
        c.wf(),
        ev.ev_idx < c.events@.len(),
        groups_inside(groups_view(old(groups)@), c.lit_encs@.len()),
    ensures
        ({
            let w = walk_step(
                *c,
                base_raw as int,
                Walk { build: old(build)@, groups: groups_view(old(groups)@) },
                ev,
            );
            &&& final(build)@ == w.build
            &&& groups_view(final(groups)@) == w.groups
        }),
        groups_inside(groups_view(final(groups)@), c.lit_encs@.len()),
{
    let name: String = c.info.channel_label(ev.ch);
    let block: u32 = block_at(c, ev.ev_idx);
    let ghost b = build@;
    match &c.events[ev.ev_idx] {
        Event::Lit(lit) => {
            let le = &c.lit_encs[block as usize];
            let clen: u8 = match le.get(lit.symbol as u16) {
                Some(sc) => sc.len,
                None => 0,
            };
            let same_count: usize = same_len_lit_swaps(le, lit.symbol as u16).len();
            let line: String = lit_text(name.as_str(), lit.symbol, block, clen, same_count);
            let ghost lines = build.info_lines@;
            build.info_lines.push(line);
            build.cascade_positions.push(lit.out_pos);
            let site = LitPatchSite { ch: ev.ch, bit_start: lit.bit_start, out_pos: lit.out_pos };
            proof {
                lemma_add_site_inside(
                    groups_view(groups@),
                    lit.symbol,
                    block,
                    site,
                    0,
                    c.lit_encs@.len(),
                );
                assert(lines_view(build.info_lines@) =~= lines_view(lines).push(line@));
            }
            put_site(groups, lit.symbol, block, site);
        },
        Event::Ref(r) => {
            assert(c.events@[ev.ev_idx as int] == Event::Ref(*r));
            assert(r.src_out_pos < r.out_pos);
            let src: Option<PixelXY> = c.raster.out_to_xy(OutPos(r.src_out_pos));
            let alts: Vec<DistAlt> = valid_dist_alts(
                block,
                r.dist_sym,
                r.out_pos,
                r.src_out_pos,
                c.dist_encs.as_slice(),
            );
            let val: u8 = if ev.ch <= usize::MAX - base_raw && base_raw + ev.ch < c.output.len() {
                c.output[base_raw + ev.ch]
            } else {
                0
            };
            let line: String = ref_text(name.as_str(), val, block, src, r, alts.len());
            let ghost lines = build.info_lines@;
            let ghost options = build.edit_options@;
            build.info_lines.push(line);
            build.cascade_positions.push(r.out_pos);
            if build.backref_src.is_none() {
                build.backref_src = src;
            }
            let mut more: Vec<EditOption> = build_ref_redirect_edits(
                c,
                r,
                block,
                name.as_str(),
                alts.as_slice(),
            );
            let ghost added = more@;
            build.edit_options.append(&mut more);
            proof {
                assert(lines_view(build.info_lines@) =~= lines_view(lines).push(line@));
                assert(options_view(build.edit_options@) =~= options_view(options) + options_view(
                    added,
                ));
            }
        },
    }
}

/// What the panel shows of the pixel `sel` whose bytes start at `base_raw`.
pub fn build_selection_data(
    c: &CoreData,
    evs: &[ChannelEvent],
    sel: PixelXY,
    base_raw: usize,
) -> (r: SelectionBuild)
    requires
        c.wf(),
        events_inside(evs@, c.events@.len()),
        sel.x < c.info.width,
        sel.y < c.info.height,
    ensures
        r@ == selection_of(*c, sel, base_raw as int, evs@),
{
    proof {
        lemma_step_size(c.info);
    }
    let mut build = SelectionBuild {
        info_lines: Vec::new(),
        edit_options: Vec::new(),
        backref_src: None,
        cascade_positions: Vec::new(),
    };
    build.info_lines.push(head_text(c, sel));
    // Sub-byte PNGs pack several pixels into one byte; warn the user so
    // they understand a "literal swap" here recolours the whole cluster.
    if c.raster.pixels_per_byte() > 1 {
        build.info_lines.push(cluster_text(c, sel));
    }
    let mut groups: Vec<LitGroup> = Vec::new();
    let mut i: usize = 0;
    proof {
        assert(evs@.take(0) =~= Seq::<ChannelEvent>::empty());
        let start = walk_start(*c, sel);
        assert(build@.info_lines =~= start.build.info_lines);
        assert(build@.edit_options =~= start.build.edit_options);
        assert(groups_view(groups@) =~= start.groups);
    }
    while i < evs.len()
        invariant
            i <= evs@.len(),
            c.wf(),
            events_inside(evs@, c.events@.len()),
            groups_inside(groups_view(groups@), c.lit_encs@.len()),
            build@ == walked(*c, sel, base_raw as int, evs@.take(i as int)).build,
            groups_view(groups@) == walked(*c, sel, base_raw as int, evs@.take(i as int)).groups,
        decreases evs@.len() - i,
    {
        proof {
            let now = evs@.take(i + 1);
            assert(now.drop_last() =~= evs@.take(i as int));
            assert(now.last() == evs@[i as int]);
        }
        step(c, base_raw, &mut build, &mut groups, evs[i]);
        i = i + 1;
    }
    assert(evs@.take(i as int) =~= evs@);
    let ghost options = build.edit_options@;
    proof {
        assert forall|k: int| 0 <= k < groups@.len() implies (#[trigger] groups@[k]).block
            < c.lit_encs@.len() by {
            assert(groups_view(groups@)[k] == groups@[k]@);
        }
    }
    let mut more: Vec<EditOption> = build_lit_swap_edits(c, groups.as_slice());
    let ghost added = more@;
    build.edit_options.append(&mut more);
    assert(options_view(build.edit_options@) =~= options_view(options) + options_view(added));
    build
}

// Selecting.

/// The currently selected pixel and the edit options derived from it.
pub struct Selection {
    pub sel_pixel: Option<PixelXY>,
    pub backref_src: Option<PixelXY>,
    pub info_text: String,
    pub edit_options: Vec<EditOption>,
    pub selected_edit: Option<usize>,
}

/// What becomes of the cascade overlay.
pub enum CascadeChange {
    /// It stays as it is.
    Keep,
    /// There is none any more.
    Clear,
    /// It starts anew from these output positions.
    Rebuild(Vec<u32>),
}

impl CascadeChange {
    /// The overlay mode after the change. A new cascade shows itself until the
    /// user has picked a mode; a picked mode stays, no overlay included.
    pub fn mode_after(&self, mode: OverlayMode, user_set: bool) -> (r: OverlayMode)
        ensures
            r == (if *self is Rebuild && !user_set {
                OverlayMode::Cascade
            } else {
                mode
            }),
    {
        match self {
            CascadeChange::Rebuild(_) if !user_set => OverlayMode::Cascade,
            _ => mode,
        }
    }
}

/// The lines with line breaks between.
pub open spec fn joined(lines: Seq<Seq<char>>) -> Seq<char>
    decreases lines.len(),
{
    if lines.len() == 0 {
        Seq::empty()
    } else if lines.len() == 1 {
        lines[0]
    } else {
        joined(lines.drop_last()) + "\n"@ + lines.last()
    }
}

fn join_lines(lines: &[String]) -> (s: String)
    ensures
        s@ == joined(lines_view(lines@)),
{
    let ghost all = lines_view(lines@);
    let mut s: String = String::new();
    let mut i: usize = 0;
    assert(s@ =~= joined(all.take(0)));
    while i < lines.len()
        invariant
            i <= lines@.len(),
            all == lines_view(lines@),
            s@ == joined(all.take(i as int)),
        decreases lines@.len() - i,
    {
        if i > 0 {
            s.append("\n");
        }
        s.append(lines[i].as_str());
        proof {
            let now = all.take(i + 1);
            assert(now.drop_last() =~= all.take(i as int));
            assert(now.last() == lines@[i as int]@);
            if i == 0 {
                assert(s@ =~= lines@[0]@);
            }
        }
        i = i + 1;
    }
    assert(all.take(i as int) =~= all);
    s
}

/// Squared distance between a row's pixel and another.
pub open spec fn distance_sq(row: RowView, xy: PixelXY) -> int {
    (row.x - xy.x) * (row.x - xy.x) + (row.y - xy.y) * (row.y - xy.y)
}

/// The first of the `n` first rows of a view that is nearest to a pixel.
pub open spec fn nearest(c: CoreData, view: Seq<FilterRef>, xy: PixelXY, n: int) -> int
    decreases n,
{
    if n <= 1 {
        0
    } else {
        let k = nearest(c, view, xy, n - 1);
        if distance_sq(view[n - 1].row(c.pixel_index)@, xy) < distance_sq(
            view[k].row(c.pixel_index)@,
            xy,
        ) {
            n - 1
        } else {
            k
        }
    }
}

/// The pixel is shown in the list.
pub open spec fn is_listed(list: ListState, c: CoreData, xy: PixelXY) -> bool {
    let p = pixel_lin_of(xy.x as int, xy.y as int, c.info.width as int);
    p < list.filtered_idx@.len() && list.filtered_idx@[p] != u32::MAX
}

/// The listed pixel nearest to a click; the click itself where it is listed or
/// the list is empty.
pub open spec fn snapped(list: ListState, c: CoreData, xy: PixelXY) -> PixelXY {
    let view = list.filtered_view@;
    if view.len() == 0 || is_listed(list, c, xy) {
        xy
    } else {
        let row = view[nearest(c, view, xy, view.len() as int)].row(c.pixel_index)@;
        PixelXY { x: row.x as u32, y: row.y as u32 }
    }
}

/// The first pixel of a row's cluster.
pub open spec fn cluster_head(info: PngInfo, xy: PixelXY) -> PixelXY {
    let step = pixels_per_byte_of(info);
    PixelXY { x: (xy.x as int / step * step) as u32, y: xy.y }
}

/// The pixel that a request selects.
pub open spec fn chosen(
    list: ListState,
    core: Option<&CoreData>,
    xy: PixelXY,
    source: SelectSource,
) -> PixelXY {
    match core {
        Some(c) => cluster_head(
            c.info,
            if source == SelectSource::ImageClick {
                snapped(list, *c, xy)
            } else {
                xy
            },
        ),
        None => xy,
    }
}

/// The nearest row is one of them, none is nearer, and it is the first of those
/// as near.
pub proof fn law_nearest(c: CoreData, view: Seq<FilterRef>, xy: PixelXY, n: int)
    requires
        1 <= n <= view.len(),
    ensures
        ({
            let k = nearest(c, view, xy, n);
            let d = distance_sq(view[k].row(c.pixel_index)@, xy);
            &&& 0 <= k < n
            &&& forall|i: int|
                0 <= i < n ==> distance_sq((#[trigger] view[i]).row(c.pixel_index)@, xy) >= d
            &&& forall|i: int|
                0 <= i < k ==> distance_sq((#[trigger] view[i]).row(c.pixel_index)@, xy) > d
        }),
    decreases n,
{
    if n > 1 {
        law_nearest(c, view, xy, n - 1);
    }
}

/// Find the filtered-view pixel whose coordinate is closest (by
/// squared Euclidean distance) to the click. Falls through to the
/// raw click if the filtered view is empty or already contains it.
pub fn snap_to_nearest_filtered(list: &ListState, c: &CoreData, xy: PixelXY) -> (r: PixelXY)
    requires
        c.wf(),
        list.wf(*c),
        xy.x < c.info.width,
        xy.y < c.info.height,
    ensures
        r == snapped(*list, *c, xy),
        r.x < c.info.width,
        r.y < c.info.height,
{
    if list.filtered_view.len() == 0 || list.is_in_filtered(xy, Some(c)) {
        return xy;
    }
    let ghost view = list.filtered_view@;
    let mut best: usize = 0;
    let mut best_d: i64 = row_distance(c, list.filtered_view[0], xy);
    let mut i: usize = 1;
    while i < list.filtered_view.len()
        invariant
            1 <= i <= view.len(),
            best < i,
            view == list.filtered_view@,
            c.wf(),
            list.wf(*c),
            xy.x < c.info.width,
            xy.y < c.info.height,
            best == nearest(*c, view, xy, i as int),
            best_d == distance_sq(view[best as int].row(c.pixel_index)@, xy),
        decreases view.len() - i,
    {
        let d: i64 = row_distance(c, list.filtered_view[i], xy);
        if d < best_d {
            best = i;
            best_d = d;
        }
        i = i + 1;
    }
    let f: FilterRef = list.filtered_view[best];
    proof {
        lemma_row_inside(*c, f);
    }
    f.resolve(&c.pixel_index).xy()
}

fn row_distance(c: &CoreData, f: FilterRef, xy: PixelXY) -> (r: i64)
    requires
        c.wf(),
        f.inside(c.pixel_index),
        xy.x < c.info.width,
        xy.y < c.info.height,
    ensures
        r == distance_sq(f.row(c.pixel_index)@, xy),
{
    proof {
        lemma_row_inside(*c, f);
    }
    let p: PixelXY = f.resolve(&c.pixel_index).xy();
    let dx: i64 = p.x as i64 - xy.x as i64;
    let dy: i64 = p.y as i64 - xy.y as i64;
    proof {
        assert(0 <= dx * dx <= 0x1_0000_0000 && 0 <= dy * dy <= 0x1_0000_0000) by (nonlinear_arith)
            requires
                -0x1_0000 <= dx <= 0x1_0000,
                -0x1_0000 <= dy <= 0x1_0000,
        ;
    }
    dx * dx + dy * dy
}

/// The lines of a selection, with a note where nothing can be edited.
pub open spec fn noted(b: BuildView) -> Seq<Seq<char>> {
    if b.edit_options.len() == 0 {
        b.info_lines.push("  (no valid edits for this pixel)"@)
    } else {
        b.info_lines
    }
}

/// What a selection does to the cascade overlay: it projects output positions
/// to pixels via the progressive layout, so interlaced images have none.
pub open spec fn cascade_after(
    source: SelectSource,
    interlaced: bool,
    positions: Seq<u32>,
    change: CascadeChange,
) -> bool {
    if source == SelectSource::AfterLiteralSwap {
        change is Keep
    } else if positions.len() == 0 || interlaced {
        change is Clear
    } else {
        change matches CascadeChange::Rebuild(v) && v@ == positions
    }
}

impl Selection {
    /// Nothing selected.
    pub fn new() -> (r: Self)
        ensures
            r.sel_pixel is None,
            r.backref_src is None,
            r.info_text@ == "Click a pixel to inspect it."@,
            r.edit_options@.len() == 0,
            r.selected_edit is None,
    {
        Selection {
            sel_pixel: None,
            backref_src: None,
            info_text: String::from_str("Click a pixel to inspect it."),
            edit_options: Vec::new(),
            selected_edit: None,
        }
    }

    pub fn reset_edit_state(&mut self)
        ensures
            final(self).selected_edit is None,
            final(self).edit_options@.len() == 0,
            final(self).backref_src is None,
            final(self).sel_pixel == old(self).sel_pixel,
            final(self).info_text == old(self).info_text,
    {
        self.selected_edit = None;
        self.edit_options = Vec::new();
        self.backref_src = None;
    }

    /// Add a line to the panel's text.
    pub fn add_line(&mut self, line: &str)
        ensures
            final(self).info_text@ == old(self).info_text@ + "\n"@ + line@,
            final(self).sel_pixel == old(self).sel_pixel,
            final(self).backref_src == old(self).backref_src,
            final(self).edit_options == old(self).edit_options,
            final(self).selected_edit == old(self).selected_edit,
    {
        self.info_text.append("\n");
        self.info_text.append(line);
    }

    /// Select a pixel: snap it, find the events behind it, and build the panel's
    /// text and options. Returns what becomes of the cascade overlay; `None`
    /// where no file is loaded, which leaves the text as it is.
    pub fn select_pixel(
        &mut self,
        list: &mut ListState,
        core: Option<&CoreData>,
        xy: PixelXY,
        source: SelectSource,
    ) -> (r: Option<CascadeChange>)
        requires
            core matches Some(c) ==> c.wf() && old(list).wf(*c) && xy.x < c.info.width && xy.y
                < c.info.height,
        ensures
            final(self).sel_pixel == Some(chosen(*old(list), core, xy, source)),
            final(self).selected_edit is None,
            match core {
                None => {
                    &&& r is None
                    &&& final(self).info_text == old(self).info_text
                    &&& final(self).edit_options@.len() == 0
                    &&& final(self).backref_src is None
                    &&& *final(list) == *old(list)
                },
                Some(c) => {
                    let sel = chosen(*old(list), core, xy, source);
                    let base = raster_pos(c.info, sel);
                    let evs = pixel_events(c.events@, base, c.info.bpp as int);
                    let b = selection_of(*c, sel, base, evs);
                    if evs.len() == 0 {
                        &&& final(self).info_text@ == "No event for pixel ("@ + decimal(
                            sel.x as nat,
                        ) + ", "@ + decimal(sel.y as nat) + ")"@
                        &&& final(self).edit_options@.len() == 0
                        &&& final(self).backref_src is None
                        &&& *final(list) == *old(list)
                        &&& r matches Some(change) && cascade_after(
                            source,
                            c.info.interlaced,
                            Seq::empty(),
                            change,
                        )
                    } else {
                        &&& final(self).info_text@ == joined(noted(b))
                        &&& options_view(final(self).edit_options@) == b.edit_options
                        &&& final(self).backref_src == b.backref_src
                        &&& r matches Some(change) && cascade_after(
                            source,
                            c.info.interlaced,
                            b.cascade_positions,
                            change,
                        )
                        &&& final(list).list_scroll_to == (if (source == SelectSource::ImageClick
                            || source == SelectSource::ListNav) && is_listed(*old(list), *c, sel) {
                            Some(
                                old(list).filtered_idx@[pixel_lin_of(
                                    sel.x as int,
                                    sel.y as int,
                                    c.info.width as int,
                                )] as usize,
                            )
                        } else {
                            old(list).list_scroll_to
                        })
                    }
                },
            },
            final(list).pixel_type == old(list).pixel_type,
            final(list).filter_text == old(list).filter_text,
            final(list).editable_only == old(list).editable_only,
            final(list).filtered_view == old(list).filtered_view,
            final(list).filtered_idx == old(list).filtered_idx,
            final(list).last_filter == old(list).last_filter,
            final(list).list_viewport_rows == old(list).list_viewport_rows,
    {
        let mut sel: PixelXY = xy;
        if let Some(c) = core {
            if source.snaps_to_filtered() {
                sel = snap_to_nearest_filtered(list, c, xy);
            }
            // Snap to the byte's cluster start so the sidebar row, info
            // text, and cascade highlight all agree on which cluster was
            // clicked. For ≥ 8-bit depths this is a no-op.
            proof {
                lemma_step_size(c.info);
            }
            let ppb: u32 = c.raster.pixels_per_byte();
            proof {
                let (x, p) = (sel.x as int, ppb as int);
                assert(0 <= x / p * p <= x) by (nonlinear_arith)
                    requires
                        0 <= x,
                        1 <= p,
                ;
            }
            sel = PixelXY { x: sel.x / ppb * ppb, y: sel.y };
        }
        self.reset_edit_state();
        self.sel_pixel = Some(sel);
        let c: &CoreData = match core {
            Some(c) => c,
            None => {
                return None;
            },
        };
        proof {
            law_raster_round_trip(c.info, sel);
        }
        let base_raw: usize = c.raster.xy_to_out(sel).0 as usize;
        let evs: Vec<ChannelEvent> = gather_pixel_events(c, base_raw);
        if evs.len() == 0 {
            let mut s: String = String::from_str("No event for pixel (");
            push_decimal(&mut s, sel.x as u64);
            s.append(", ");
            push_decimal(&mut s, sel.y as u64);
            s.append(")");
            self.info_text = s;
            return Some(
                if source.rebuilds_cascade() {
                    CascadeChange::Clear
                } else {
                    CascadeChange::Keep
                },
            );
        }
        let build: SelectionBuild = build_selection_data(c, evs.as_slice(), sel, base_raw);
        let SelectionBuild { info_lines, edit_options, backref_src, cascade_positions } = build;
        let mut info_lines: Vec<String> = info_lines;
        let ghost b = selection_of(*c, sel, base_raw as int, evs@);
        let ghost lines = info_lines@;
        if edit_options.len() == 0 {
            info_lines.push(String::from_str("  (no valid edits for this pixel)"));
        }
        assert(lines_view(info_lines@) =~= noted(b));
        self.backref_src = backref_src;
        self.edit_options = edit_options;
        let change: CascadeChange = if !source.rebuilds_cascade() {
            CascadeChange::Keep
        } else if cascade_positions.len() == 0 || !c.overlays_supported() {
            CascadeChange::Clear
        } else {
            CascadeChange::Rebuild(cascade_positions)
        };
        if source.scrolls_list() {
            if let Some(row) = list.filtered_pos(sel, Some(c)) {
                list.list_scroll_to = Some(row);
            }
        }
        self.info_text = join_lines(info_lines.as_slice());
        Some(change)
    }
}

// The cascade.

/// The bytes that depend on the given positions, directly or not.
pub open spec fn reached_bytes(g: Seq<Seq<u32>>, start: Seq<u32>) -> Set<u32> {
    Set::new(|v: u32| exists|k: nat| #[trigger] within(g, start, v as int, k))
}

/// Those of the bytes that are no per-row filter bytes.
pub open spec fn pixel_bytes(bytes: Set<u32>, row_stride: usize) -> Set<u32> {
    bytes.filter(|v: u32| v as usize % row_stride != 0)
}

/// How far an edit at `positions` reaches: the bytes that depend on it, not
/// counting the rows' filter bytes, and the longest chain of copies (capped).
pub fn cascade_reach(c: &CoreData, scratch: &mut CascadeScratch, positions: &[u32]) -> (r: (
    usize,
    u32,
))
    requires
        c.wf(),
        old(scratch).wf(),
    ensures
        final(scratch).wf(),
        r.0 == pixel_bytes(
            reached_bytes(c.reverse_graph@, positions@),
            c.info.row_stride,
        ).len(),
        exists|m: nat| #[trigger]
            is_max_depth(c.reverse_graph@, positions@, m) && r.1 == capped(m, 256),
{
    proof {
        lemma_tiled_order(c.events@, c.output@.len() as int);
        law_graph_closed(c.events@, c.output@.len());
    }
    let cascade = scratch.run(positions, &c.reverse_graph);
    let stride: usize = c.info.row_stride;
    let ghost g = c.reverse_graph@;
    let ghost mut picked: Seq<u32> = Seq::empty();
    let mut n: usize = 0;
    let mut i: usize = 0;
    while i < cascade.affected.len()
        invariant
            i <= cascade.affected@.len(),
            stride > 0,
            n == picked.len(),
            n <= i,
            cascade.affected@.no_duplicates(),
            picked.no_duplicates(),
            forall|v: u32| #[trigger]
                picked.contains(v) <==> (v as usize % stride != 0 && exists|k: int|
                    0 <= k < i && #[trigger] cascade.affected@[k] == v),
        decreases cascade.affected@.len() - i,
    {
        let p: u32 = cascade.affected[i];
        if p as usize % stride != 0 {
            n = n + 1;
            proof {
                let before = picked;
                assert(!before.contains(p)) by {
                    if before.contains(p) {
                        let k = choose|k: int| 0 <= k < i && #[trigger] cascade.affected@[k] == p;
                        assert(cascade.affected@[k] != cascade.affected@[i as int]);
                    }
                }
                picked = before.push(p);
                assert forall|v: u32| #[trigger] picked.contains(v) <==> (v as usize % stride != 0
                    && exists|k: int| 0 <= k < i + 1 && #[trigger] cascade.affected@[k] == v) by {
                    if picked.contains(v) {
                        let j = choose|j: int| 0 <= j < picked.len() && picked[j] == v;
                        if j < before.len() {
                            assert(before[j] == v);
                            assert(before.contains(v));
                        } else {
                            assert(cascade.affected@[i as int] == v);
                        }
                    } else if v as usize % stride != 0 && exists|k: int|
                        0 <= k < i + 1 && #[trigger] cascade.affected@[k] == v {
                        let k = choose|k: int|
                            0 <= k < i + 1 && #[trigger] cascade.affected@[k] == v;
                        if k < i {
                            assert(before.contains(v));
                            let j = choose|j: int| 0 <= j < before.len() && before[j] == v;
                            assert(picked[j] == v);
                        } else {
                            assert(picked[before.len() as int] == v);
                        }
                    }
                }
            }
        }
        i = i + 1;
    }
    proof {
        picked.unique_seq_to_set();
        let want = pixel_bytes(reached_bytes(g, positions@), stride);
        assert forall|v: u32| picked.to_set().contains(v) <==> want.contains(v) by {
            if picked.contains(v) {
                assert(cascade.affected@.contains(v));
                assert(cascade.depth_of(v) is Some);
                assert(reached_bytes(g, positions@).contains(v));
            }
            if want.contains(v) {
                let k = choose|k: nat| #[trigger] within(g, positions@, v as int, k);
                assert(cascade.depth_of(v) is Some);
                assert(cascade.affected@.contains(v));
                let j = choose|j: int|
                    0 <= j < cascade.affected@.len() && cascade.affected@[j] == v;
                assert(cascade.affected@[j] == v);
                assert(picked.contains(v));
            }
        }
        assert(picked.to_set() =~= want);
    }
    (n, cascade.max_depth)
}

/// The panel's text on the copies in a cascade.
pub open spec fn reach_note(n_affected: nat, max_depth: nat) -> Seq<char> {
    "\n  LZ77 cascade: "@ + decimal(n_affected) + " bytes  (max depth "@ + decimal(max_depth)
        + ")"@
}

/// The panel's text on a cascade.
pub open spec fn cascade_note(n_affected: nat, max_depth: nat, n_filter: nat) -> Seq<char> {
    reach_note(n_affected, max_depth) + "\n  filter halo: ~"@ + decimal(n_filter)
        + " px (faint blue)"@
}

/// The panel's text on a cascade of `n_affected` bytes that is `max_depth`
/// copies deep.
pub fn reach_text(n_affected: usize, max_depth: u32) -> (s: String)
    ensures
        s@ == reach_note(n_affected as nat, max_depth as nat),
{
    let mut s: String = String::from_str("\n  LZ77 cascade: ");
    push_decimal(&mut s, n_affected as u64);
    s.append(" bytes  (max depth ");
    push_decimal(&mut s, max_depth as u64);
    s.append(")");
    s
}

/// The panel's text on a cascade of `n_affected` bytes that is `max_depth`
/// copies deep, with a halo of `n_filter` pixels that row filters touch.
pub fn cascade_text(n_affected: usize, max_depth: u32, n_filter: u32) -> (s: String)
    ensures
        s@ == cascade_note(n_affected as nat, max_depth as nat, n_filter as nat),
{
    let mut s: String = reach_text(n_affected, max_depth);
    s.append("\n  filter halo: ~");
    push_decimal(&mut s, n_filter as u64);
    s.append(" px (faint blue)");
    s
}

/// How many pixels the row filters touch: in each of the given rows, those from
/// the given column on.
pub open spec fn halo_of(rows: Seq<(u32, u32)>, width: u32) -> nat
    decreases rows.len(),
{
    if rows.len() == 0 {
        0
    } else {
        halo_of(rows.drop_last(), width) + (if width > rows.last().1 {
            (width - rows.last().1) as nat
        } else {
            0
        })
    }
}

fn halo_pixels(rows: &[(u32, u32)], width: u32) -> (r: u32)
    requires
        width <= u16::MAX,
        rows@.len() <= u16::MAX,
    ensures
        r == halo_of(rows@, width),
{
    let mut sum: u32 = 0;
    let mut i: usize = 0;
    assert(rows@.take(0) =~= Seq::<(u32, u32)>::empty());
    while i < rows.len()
        invariant
            i <= rows@.len(),
            width <= u16::MAX,
            rows@.len() <= u16::MAX,
            sum == halo_of(rows@.take(i as int), width),
            sum <= i * 0xFFFF,
        decreases rows@.len() - i,
    {
        proof {
            assert(rows@.take(i + 1).drop_last() =~= rows@.take(i as int));
        }
        sum = sum + width.saturating_sub(rows[i].1);
        i = i + 1;
    }
    assert(rows@.take(i as int) =~= rows@);
    sum
}

/// What the panel says of the cascade of an edit at `positions`. `filter_rows`
/// names the rows whose filters carry the change on, each once, with the first
/// column that it reaches.
pub fn compute_cascade_for_pixel(
    c: &CoreData,
    scratch: &mut CascadeScratch,
    positions: &[u32],
    filter_rows: &[(u32, u32)],
) -> (s: String)
    requires
        c.wf(),
        old(scratch).wf(),
        filter_rows@.len() <= c.info.height,
    ensures
        final(scratch).wf(),
        exists|m: nat| #[trigger]
            is_max_depth(c.reverse_graph@, positions@, m) && s@ == cascade_note(
                pixel_bytes(
                    reached_bytes(c.reverse_graph@, positions@),
                    c.info.row_stride,
                ).len(),
                capped(m, 256) as nat,
                halo_of(filter_rows@, c.info.width),
            ),
{
    let (n_affected, max_depth) = cascade_reach(c, scratch, positions);
    let n_filter: u32 = halo_pixels(filter_rows, c.info.width);
    cascade_text(n_affected, max_depth, n_filter)
}

/// The pixel that stands for a pixel's byte in the list: in the same row, the
/// first of as many as a byte holds.
pub proof fn law_cluster_head(info: PngInfo, xy: PixelXY)
    requires
        info.legal(),
    ensures
        ({
            let head = cluster_head(info, xy);
            let n = pixels_per_byte_of(info);
            &&& head.y == xy.y
            &&& head.x <= xy.x < head.x + n
            &&& head.x as int % n == 0
            &&& info.bits_per_pixel >= 8 ==> head == xy
        }),
{
    lemma_step_size(info);
    let n = pixels_per_byte_of(info);
    let x = xy.x as int;
    vstd::arithmetic::div_mod::lemma_fundamental_div_mod(x, n);
    vstd::arithmetic::div_mod::lemma_mod_bound(x, n);
    vstd::arithmetic::div_mod::lemma_div_pos_is_pos(x, n);
    let q = x / n;
    assert(q * n == n * q) by (nonlinear_arith);
    assert(0 <= q * n) by (nonlinear_arith)
        requires
            0 <= q,
            1 <= n,
    ;
    vstd::arithmetic::div_mod::lemma_mod_multiples_basic(q, n);
}

} // verus!
