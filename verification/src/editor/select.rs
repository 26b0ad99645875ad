//! Pixel selection: from a clicked pixel to what the side panel shows.
//!
//! Every selection is tagged with a [`SelectSource`] describing how the user
//! got here. The variants drive three decisions: whether to snap to the nearest
//! visible filtered pixel, whether to scroll the list, and whether to rebuild
//! the cascade overlay.

use vstd::prelude::*;
use vstd::string::StringExecFns;

use super::core_data::{lemma_event_count, CoreData};
use super::edit::{ActionView, EditAction};
use crate::coords::PixelXY;
use crate::deflate::events::{
    block_index, block_of, code_len, lemma_block_index, sym_code, EncTable, Event, SymCode,
};
use crate::index::pixel::{rows_sorted, rows_view, PixelRow, RowView};
use crate::index::pos_to_ev::{event_at, in_order, lemma_lookup_inside, lemma_tiled_order, lookup};
use crate::text::{decimal, push_decimal};

verus! {

/// What triggered a selection. Drives snapping, list scrolling, and
/// cascade-overlay rebuild.
#[derive(Debug, Clone, Copy, PartialEq, Eq, Structural)]
pub enum SelectSource {
    /// User clicked the image. Snap to the nearest filtered pixel; scroll
    /// the list to follow.
    ImageClick,
    /// Keyboard navigation through the list (arrows / PgUp / PgDn / Home /
    /// End). The list owns focus; we scroll to keep the new selection in
    /// view but don't snap.
    ListNav,
    /// Selection re-derives from existing state: a list-row click or a
    /// post-redirect refocus. The originator already has focus, so neither
    /// snap nor scroll.
    Refocus,
    /// Side-panel refresh after an in-place literal swap. LZ77 topology is
    /// unchanged, so the cascade overlay painted on screen is still
    /// correct; keep it instead of rebuilding.
    AfterLiteralSwap,
}

impl SelectSource {
    pub fn snaps_to_filtered(self) -> (r: bool)
        ensures
            r == (self == SelectSource::ImageClick),
    {
        self == SelectSource::ImageClick
    }

    pub fn scrolls_list(self) -> (r: bool)
        ensures
            r == (self == SelectSource::ImageClick || self == SelectSource::ListNav),
    {
        self == SelectSource::ImageClick || self == SelectSource::ListNav
    }

    pub fn rebuilds_cascade(self) -> (r: bool)
        ensures
            r == (self != SelectSource::AfterLiteralSwap),
    {
        self != SelectSource::AfterLiteralSwap
    }
}

/// One entry in the side-panel "Available edits" list. `action` is what
/// gets applied; the rest is for the row's visual presentation.
pub struct EditOption {
    pub label: String,
    /// Background, red green blue.
    pub bg_color: [u8; 3],
    /// Text colour; `None` for whichever of black and white contrasts.
    pub fg_color: Option<[u8; 3]>,
    pub action: EditAction,
}

/// An [`EditOption`] as plain values.
pub struct OptionView {
    pub label: Seq<char>,
    pub bg_color: Seq<u8>,
    pub fg_color: Option<Seq<u8>>,
    pub action: ActionView,
}

impl View for EditOption {
    type V = OptionView;

    open spec fn view(&self) -> OptionView {
        OptionView {
            label: self.label@,
            bg_color: self.bg_color@,
            fg_color: match self.fg_color {
                Some(fg) => Some(fg@),
                None => None,
            },
            action: self.action@,
        }
    }
}

/// What a list of options holds.
pub open spec fn options_view(options: Seq<EditOption>) -> Seq<OptionView> {
    options.map_values(|o: EditOption| o@)
}

/// What a list of lines holds.
pub open spec fn lines_view(lines: Seq<String>) -> Seq<Seq<char>> {
    lines.map_values(|s: String| s@)
}

/// One channel of the clicked pixel whose literal could be swapped.
/// Captured once at selection time so the apply path doesn't have to
/// re-resolve the event for each candidate edit.
#[derive(Debug, Clone, Copy, PartialEq, Eq, Structural)]
pub struct LitPatchSite {
    /// Channel index within the pixel (0..bpp).
    pub ch: usize,
    /// Bit position in the deflate stream where this literal's code lives.
    pub bit_start: u32,
    /// Output-byte position this literal produces.
    pub out_pos: u32,
}

/// A byte of the clicked pixel and the event that produced it: `ch` is
/// the channel byte offset within the pixel (`0..bpp`), `ev_idx` indexes
/// [`CoreData::events`].
#[derive(Debug, Clone, Copy, PartialEq, Eq, Structural)]
pub struct ChannelEvent {
    pub ch: usize,
    pub ev_idx: usize,
}

// Small parts.

/// An optional pixel position as text.
pub open spec fn pixel_text(p: Option<PixelXY>) -> Seq<char> {
    match p {
        Some(p) => "("@ + decimal(p.x as nat) + ", "@ + decimal(p.y as nat) + ")"@,
        None => "off-image"@,
    }
}

/// Render an optional pixel position for the UI as `(x, y)`, or `off-image`
/// when the byte doesn't map to a pixel (a filter byte, or a source that
/// falls outside the image).
pub fn fmt_pixel(p: Option<PixelXY>) -> (r: String)
    ensures
        r@ == pixel_text(p),
{
    match p {
        Some(p) => {
            let mut s: String = String::from_str("(");
            push_decimal(&mut s, p.x as u64);
            s.append(", ");
            push_decimal(&mut s, p.y as u64);
            s.append(")");
            s
        },
        None => String::from_str("off-image"),
    }
}

/// Row `i` is the one at `(x, y)`.
pub open spec fn row_at(rows: Seq<RowView>, x: int, y: int, i: int) -> bool {
    0 <= i < rows.len() && rows[i].x == x && rows[i].y == y
}

/// Binary-search a [`PixelRow`] slice sorted by `(y, x)` for the row at
/// `xy`. Both lists of the index are built in raster order.
pub fn find_pixel_row(rows: &[PixelRow], xy: PixelXY) -> (r: Option<usize>)
    requires
        rows_sorted(rows_view(rows@)),
    ensures
        match r {
            Some(i) => row_at(rows_view(rows@), xy.x as int, xy.y as int, i as int),
            None => forall|i: int|
                !#[trigger] row_at(rows_view(rows@), xy.x as int, xy.y as int, i),
        },
{
    let ghost all = rows_view(rows@);
    let mut lo: usize = 0;
    let mut hi: usize = rows.len();
    while lo < hi
        invariant
            lo <= hi <= rows@.len(),
            all == rows_view(rows@),
            rows_sorted(all),
            forall|i: int|
                0 <= i < lo ==> (#[trigger] all[i]).y < xy.y || (all[i].y == xy.y && all[i].x
                    < xy.x),
            forall|i: int|
                hi <= i < rows@.len() ==> (#[trigger] all[i]).y > xy.y || (all[i].y == xy.y
                    && all[i].x > xy.x),
        decreases hi - lo,
    {
        let mid: usize = lo + (hi - lo) / 2;
        let row: PixelRow = rows[mid];
        let y: u32 = row.y();
        let x: u32 = row.x();
        assert(all[mid as int] == row@);
        if y == xy.y && x == xy.x {
            return Some(mid);
        }
        if y < xy.y || (y == xy.y && x < xy.x) {
            lo = mid + 1;
        } else {
            hi = mid;
        }
    }
    None
}

/// The bytes among the first `n` of the pixel at `base` that have an event.
pub open spec fn pixel_events(events: Seq<Event>, base: int, n: int) -> Seq<ChannelEvent>
    decreases n,
{
    if n <= 0 {
        Seq::empty()
    } else {
        let rest = pixel_events(events, base, n - 1);
        match lookup(events, base + n - 1) {
            Some(k) => rest.push(ChannelEvent { ch: (n - 1) as usize, ev_idx: k as usize }),
            None => rest,
        }
    }
}

/// The events behind the bytes of a pixel.
pub fn gather_pixel_events(c: &CoreData, base_raw: usize) -> (r: Vec<ChannelEvent>)
    requires
        c.wf(),
    ensures
        r@ == pixel_events(c.events@, base_raw as int, c.info.bpp as int),
        events_inside(r@, c.events@.len()),
{
    proof {
        lemma_tiled_order(c.events@, c.output@.len() as int);
        lemma_event_count(c.events@, c.output@.len() as int);
    }
    let mut out: Vec<ChannelEvent> = Vec::new();
    let bpp: usize = c.info.bpp;
    let mut ch: usize = 0;
    while ch < bpp
        invariant
            ch <= bpp,
            in_order(c.events@),
            c.events@.len() <= u32::MAX,
            events_inside(out@, c.events@.len()),
            out@ == pixel_events(c.events@, base_raw as int, ch as int),
        decreases bpp - ch,
    {
        // A position that doesn't fit has no event.
        if ch <= usize::MAX - base_raw {
            if let Some(k) = event_at(c.events.as_slice(), base_raw + ch) {
                proof {
                    lemma_lookup_inside(c.events@, base_raw + ch);
                }
                out.push(ChannelEvent { ch, ev_idx: k as usize });
            }
        }
        ch = ch + 1;
    }
    out
}

/// Every channel event names an event.
pub open spec fn events_inside(evs: Seq<ChannelEvent>, n: nat) -> bool {
    forall|i: int| 0 <= i < evs.len() ==> (#[trigger] evs[i]).ev_idx < n
}

/// The block of an event of a document.
pub fn block_at(c: &CoreData, ev_idx: usize) -> (r: u32)
    requires
        c.wf(),
        ev_idx < c.events@.len(),
    ensures
        r == block_index(c.block_starts@, ev_idx as int),
        r < c.lit_encs@.len(),
        r < c.dist_encs@.len(),
{
    proof {
        lemma_event_count(c.events@, c.output@.len() as int);
    }
    let b: u32 = block_of(c.block_starts.as_slice(), ev_idx as u32);
    proof {
        let d = c.stream();
        assert(d.block_starts.len() > 0);
        assert(d.lit_encs.len() == c.lit_encs@.len());
        assert(d.dist_encs.len() == c.dist_encs@.len());
        lemma_block_index(c.block_starts@, ev_idx as int, b as int);
    }
    b
}

/// The literal symbols below `n`, other than `val`, with a code of its length.
pub open spec fn swap_symbols(entries: Seq<SymCode>, val: int, n: int) -> Seq<u16>
    decreases n,
{
    if n <= 0 {
        Seq::empty()
    } else {
        let rest = swap_symbols(entries, val, n - 1);
        if sym_code(entries, n - 1) is Some && code_len(entries, n - 1) == code_len(entries, val)
            && n - 1 != val {
            rest.push((n - 1) as u16)
        } else {
            rest
        }
    }
}

/// Literal symbols in `le` that share `val`'s Huffman code length (so
/// swapping one in keeps the bitstream length unchanged), excluding `val`
/// itself, in ascending order. The enumeration form of the same-length-swap
/// rule; the pixel-index build encodes the same rule as a bitset.
pub fn same_len_lit_swaps(le: &EncTable, val: u16) -> (r: Vec<u16>)
    ensures
        r@ == swap_symbols(le@, val as int, 256),
{
    let clen: u8 = match le.get(val) {
        Some(sc) => sc.len,
        None => 0,
    };
    let mut out: Vec<u16> = Vec::new();
    let mut s: u16 = 0;
    while s < 256
        invariant
            s <= 256,
            clen == code_len(le@, val as int),
            out@ == swap_symbols(le@, val as int, s as int),
        decreases 256 - s,
    {
        if let Some(sc) = le.get(s) {
            if sc.len == clen && s != val {
                out.push(s);
            }
        }
        s = s + 1;
    }
    out
}

/// Every swap symbol is a literal with a code as long as `val`'s, and is not
/// `val`.
pub proof fn law_swaps_keep_width(entries: Seq<SymCode>, val: int, n: int, i: int)
    requires
        n <= 256,
        0 <= i < swap_symbols(entries, val, n).len(),
    ensures
        ({
            let s = swap_symbols(entries, val, n)[i] as int;
            &&& 0 <= s < n
            &&& s != val
            &&& sym_code(entries, s) is Some
            &&& code_len(entries, s) == code_len(entries, val)
        }),
    decreases n,
{
    let rest = swap_symbols(entries, val, n - 1);
    if i < rest.len() {
        law_swaps_keep_width(entries, val, n - 1, i);
    }
}

/// The swap symbols below `n` are listed in ascending order, and none is left
/// out: every other literal whose code is as long as `val`'s is among them.
pub proof fn law_swaps_complete(entries: Seq<SymCode>, val: int, n: int)
    requires
        0 <= n <= 256,
        0 <= val < entries.len(),
    ensures
        forall|s: int|
            0 <= s < n && s < entries.len() && s != val && (#[trigger] entries[s]).len
                == entries[val].len && entries[s].len > 0 ==> swap_symbols(
                entries,
                val,
                n,
            ).contains(s as u16),
        forall|i: int, j: int|
            0 <= i < j < swap_symbols(entries, val, n).len() ==> (#[trigger] swap_symbols(
                entries,
                val,
                n,
            )[i]) < (#[trigger] swap_symbols(entries, val, n)[j]),
    decreases n,
{
    if n > 0 {
        law_swaps_complete(entries, val, n - 1);
        let rest = swap_symbols(entries, val, n - 1);
        let all = swap_symbols(entries, val, n);
        assert forall|s: int|
            0 <= s < n && s < entries.len() && s != val && (#[trigger] entries[s]).len
                == entries[val].len && entries[s].len > 0 implies all.contains(s as u16) by {
            if s < n - 1 {
                let i = choose|i: int| 0 <= i < rest.len() && rest[i] == s as u16;
                assert(all[i] == s as u16);
            } else {
                assert(all[all.len() - 1] == s as u16);
            }
        }
        assert forall|i: int, j: int| 0 <= i < j < all.len() implies (#[trigger] all[i]) < (
        #[trigger] all[j]) by {
            if j == rest.len() {
                law_swaps_keep_width(entries, val, n - 1, i);
            }
        }
    }
}

/// Swaps go both ways: a literal that was swapped in is offered the way back.
pub proof fn law_swap_back(entries: Seq<SymCode>, val: int, i: int)
    requires
        0 <= val < 256,
        val < entries.len(),
        entries[val].len > 0,
        0 <= i < swap_symbols(entries, val, 256).len(),
    ensures
        swap_symbols(entries, swap_symbols(entries, val, 256)[i] as int, 256).contains(val as u16),
{
    law_swaps_keep_width(entries, val, 256, i);
    let s = swap_symbols(entries, val, 256)[i] as int;
    law_swaps_complete(entries, s, 256);
    assert(entries[val].len == entries[s].len);
}

} // verus!
