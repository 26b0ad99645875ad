//! Formats a single pixel-list row's display text on demand. Two
//! callers:
//!
//! - The sidebar's virtual-scroll callback runs this once per visible
//!   row per frame (~25 rows / frame).
//! - [`super::filter_spec::FilterSpec::Generic`] runs it per candidate
//!   row when the filter text doesn't match a structured shape.
//!
//! Formatting is per-call rather than baked into [`PixelRow`] so the
//! index never holds millions of strings the user won't see.

use vstd::prelude::*;
use vstd::string::StringExecFns;

use super::core_data::{lemma_event_count, CoreData};
use super::list_filter::FilterRef;
use crate::coords::PixelXY;
use crate::deflate::events::{Event, RefEvent};
use crate::index::pixel::{lemma_step_size, PixelRow, RowView};
use crate::index::pos_to_ev::{event_at, lemma_lookup_inside, lemma_tiled_order, lookup};
use crate::png::chunks::PngInfo;
use crate::raster::{law_raster_round_trip, raster_pos};
use crate::text::{decimal, numeral, padded, push_decimal, push_numeral, push_padded};

verus! {

/// The first back-reference among the `bpp` bytes from `base` on, from byte
/// `ch`.
pub open spec fn first_ref(events: Seq<Event>, base: int, bpp: int, ch: int) -> Option<RefEvent>
    decreases bpp - ch,
{
    if ch >= bpp {
        None
    } else {
        match lookup(events, base + ch) {
            Some(k) => match events[k] {
                Event::Ref(r) => Some(r),
                Event::Lit(_) => first_ref(events, base, bpp, ch + 1),
            },
            None => first_ref(events, base, bpp, ch + 1),
        }
    }
}

/// Distance and copy length of a pixel's first back-reference.
pub open spec fn ref_metrics(info: PngInfo, events: Seq<Event>, x: int, y: int) -> Option<
    (int, int),
> {
    match first_ref(
        events,
        raster_pos(info, PixelXY { x: x as u32, y: y as u32 }),
        info.bpp as int,
        0,
    ) {
        Some(r) => Some((r.out_pos - r.src_out_pos, r.copy_len as int)),
        None => None,
    }
}

/// How many pixels share the byte of pixel `x`: the last cluster of a row may
/// be smaller.
pub open spec fn cluster_size(info: PngInfo, x: int) -> int {
    let step = if info.bits_per_pixel >= 8 {
        1
    } else {
        8int / info.bits_per_pixel as int
    };
    if x + step < info.width {
        step
    } else {
        info.width - x
    }
}

/// The coordinates, and a "×N" tag where a byte holds several pixels.
pub open spec fn xy_text(info: PngInfo, x: int, y: int) -> Seq<char> {
    let at = "("@ + padded(x as nat, 4) + ","@ + padded(y as nat, 4) + ")"@;
    if cluster_size(info, x) > 1 {
        at + "×"@ + decimal(cluster_size(info, x) as nat)
    } else {
        at
    }
}

/// The sidebar text of a row.
pub open spec fn row_text(
    info: PngInfo,
    events: Seq<Event>,
    fref: FilterRef,
    row: RowView,
) -> Seq<char> {
    let head = padded((fref.index() + 1) as nat, 5) + "  "@ + xy_text(info, row.x, row.y) + "  "@;
    match fref {
        FilterRef::Lit(_) => if info.bpp >= 3 {
            head + "#"@ + numeral(row.rgb[0] as nat, 16, 2) + numeral(row.rgb[1] as nat, 16, 2)
                + numeral(row.rgb[2] as nat, 16, 2)
        } else {
            head + padded(row.rgb[0] as nat, 3)
        },
        FilterRef::Ref(_) => {
            let (dist, len) = match ref_metrics(info, events, row.x, row.y) {
                Some(m) => m,
                None => (0, 0),
            };
            head + "d="@ + padded(dist as nat, 5) + " len="@ + decimal(len as nat)
        },
    }
}

/// Append the sidebar display text for this row to `out`. `out` is not
/// cleared: callers that reuse a scratch buffer across rows must clear
/// it themselves.
pub fn append_row_text(out: &mut String, fref: FilterRef, row: &PixelRow, c: &CoreData)
    requires
        c.wf(),
        row@.x < c.info.width,
        row@.y < c.info.height,
        fref.index() < u32::MAX,
    ensures
        final(out)@ == old(out)@ + row_text(c.info, c.events@, fref, row@),
{
    let idx: u32 = fref.display_index();
    let x: u32 = row.x();
    let y: u32 = row.y();
    proof {
        lemma_step_size(c.info);
    }
    let step: u32 = c.raster.pixels_per_byte();
    // At sub-byte depths one byte holds several pixels: append a "×N"
    // cluster-size tag so the user sees the edit's reach. The last cluster of
    // a row may be smaller when the image width isn't a clean multiple.
    let cluster: u32 = if x + step < c.info.width {
        step
    } else {
        c.info.width - x
    };
    let mut s: String = String::new();
    push_padded(&mut s, idx as u64, 5);
    assert(s@ =~= padded((fref.index() + 1) as nat, 5));
    s.append("  ");
    let mut at: String = String::from_str("(");
    push_padded(&mut at, x as u64, 4);
    at.append(",");
    push_padded(&mut at, y as u64, 4);
    at.append(")");
    if cluster > 1 {
        at.append("×");
        push_decimal(&mut at, cluster as u64);
    }
    assert(at@ == xy_text(c.info, row@.x, row@.y));
    s.append(at.as_str());
    s.append("  ");
    match fref {
        FilterRef::Lit(_) => {
            let r: u8 = row.rgb[0];
            if c.info.bpp >= 3 {
                s.append("#");
                push_numeral(&mut s, r as u64, 16, 2);
                push_numeral(&mut s, row.rgb[1] as u64, 16, 2);
                push_numeral(&mut s, row.rgb[2] as u64, 16, 2);
            } else {
                push_padded(&mut s, r as u64, 3);
            }
        },
        FilterRef::Ref(_) => {
            let (dist, copy_len): (usize, u16) = match lookup_ref_metrics(c, row.xy()) {
                Some(m) => m,
                None => (0, 0),
            };
            s.append("d=");
            push_padded(&mut s, dist as u64, 5);
            s.append(" len=");
            push_decimal(&mut s, copy_len as u64);
        },
    }
    assert(s@ == row_text(c.info, c.events@, fref, row@));
    out.append(s.as_str());
}

/// Walk the pixel's channels to find the first back-reference event and
/// return its distance + copy length. The sidebar is virtual-scrolled, so
/// this runs only per rendered or filter-matched row: a few `event_at`
/// binary searches per call.
pub fn lookup_ref_metrics(c: &CoreData, xy: PixelXY) -> (r: Option<(usize, u16)>)
    requires
        c.wf(),
        xy.x < c.info.width,
        xy.y < c.info.height,
    ensures
        match r {
            Some((d, l)) => ref_metrics(c.info, c.events@, xy.x as int, xy.y as int) == Some(
                (d as int, l as int),
            ),
            None => ref_metrics(c.info, c.events@, xy.x as int, xy.y as int) is None,
        },
{
    proof {
        law_raster_round_trip(c.info, xy);
        lemma_tiled_order(c.events@, c.output@.len() as int);
        lemma_event_count(c.events@, c.output@.len() as int);
        assert(xy == (PixelXY { x: xy.x as int as u32, y: xy.y as int as u32 }));
    }
    let base: u64 = c.raster.xy_to_out(xy).0 as u64;
    let bpp: usize = c.info.bpp;
    let ghost all = first_ref(c.events@, base as int, bpp as int, 0);
    let mut ch: usize = 0;
    while ch < bpp && ch as u64 <= u32::MAX as u64 - base
        invariant
            ch <= bpp,
            base <= u32::MAX,
            base == raster_pos(c.info, xy),
            bpp == c.info.bpp,
            c.wf(),
            crate::index::pos_to_ev::in_order(c.events@),
            c.events@.len() <= u32::MAX,
            all == first_ref(c.events@, base as int, bpp as int, 0),
            all == first_ref(c.events@, base as int, bpp as int, ch as int),
        decreases bpp - ch,
    {
        let pos: usize = (base + ch as u64) as usize;
        if let Some(k) = event_at(c.events.as_slice(), pos) {
            proof {
                lemma_lookup_inside(c.events@, pos as int);
            }
            if let Event::Ref(r) = c.events[k as usize] {
                assert(c.events@[k as int] == Event::Ref(r));
                assert(r.src_out_pos < r.out_pos);
                return Some(((r.out_pos - r.src_out_pos) as usize, r.copy_len));
            }
        }
        ch = ch + 1;
    }
    proof {
        lemma_past_end(c.events@, base as int, bpp as int, ch as int);
    }
    None
}

/// Positions past 32 bits have no event.
proof fn lemma_past_end(events: Seq<Event>, base: int, bpp: int, ch: int)
    requires
        ch >= bpp || base + ch > u32::MAX,
    ensures
        first_ref(events, base, bpp, ch) is None,
    decreases bpp - ch,
{
    if ch < bpp {
        lemma_past_end(events, base, bpp, ch + 1);
    }
}

} // verus!
