//! Pixel-level summaries for the side panel.
//!
//! Walks the image in raster order, consults [`super::pos_to_ev`]'s dense map
//! for the event that produced each pixel's first byte, and splits pixels
//! into:
//! - **literal rows**: any channel is a literal whose Huffman code has a
//!   same-length swap alternative within this block.
//! - **back-reference rows**: no channel is a literal, at least one is
//!   produced by a redirectable back-ref.
//!
//! Rows store only structural data (`xy`, `rgb`, `editable`); the
//! sidebar's virtual-scroll callback formats each visible row's display
//! text on demand, so the index never holds per-row `String`s for
//! millions of unseen pixels. The filter UI matches against a reused
//! scratch `String` for the same reason.
//!
//! Per-block editability is summarised up front: a `[bool; 256]` per lit
//! alphabet (one slot per literal symbol) and a `u32` bitmask per dist
//! alphabet (30 symbols → 30 bits). Each entry is one load / bit-test in
//! the per-pixel inner loop. The literal sets are built in `O(alphabet)` per
//! block by counting Huffman-length buckets, not `O(alphabet²)`.

use rayon::iter::{IntoParallelIterator, ParallelIterator};
use vstd::prelude::*;

use crate::coords::{lemma_bits_ok, PixelXY};
use crate::deflate::constants::{DBASE, DEXT};
use crate::deflate::events::{starts_sorted, sym_code, EncTable, Event, RefEvent, SymCode};
use crate::png::chunks::PngInfo;
use crate::raster::{law_raster_round_trip, raster_len, raster_pos, Raster};

verus! {

/// One row in the pixel-list side panel: image-space coordinates, the
/// pixel's RGB swatch colour, and whether it has at least one valid edit.
/// `Copy` is cheap (8 bytes) so call sites pass by value.
///
/// Coordinates are packed as `u16`: image dimensions are capped at
/// `u16::MAX` at load, saving 4 bytes per row vs. two `u32`s on a
/// multi-megapixel index. The [`PixelRow::xy`] accessor returns a
/// [`PixelXY`] for the coordinate-safe app surface.
#[derive(Debug, Clone, Copy)]
pub struct PixelRow {
    pub xy: (u16, u16),
    pub rgb: [u8; 3],
    /// `true` when this pixel has at least one applicable edit: a
    /// same-Huffman-width literal swap, or a redirectable back-ref
    /// alternative. The sidebar greys non-`has_edit` rows out; the
    /// "Editable only" filter hides them.
    pub has_edit: bool,
}

/// A [`PixelRow`] as plain values.
pub struct RowView {
    pub x: int,
    pub y: int,
    pub rgb: Seq<u8>,
    pub has_edit: bool,
}

impl View for PixelRow {
    type V = RowView;

    open spec fn view(&self) -> RowView {
        RowView {
            x: self.xy.0 as int,
            y: self.xy.1 as int,
            rgb: self.rgb@,
            has_edit: self.has_edit,
        }
    }
}

impl PixelRow {
    pub fn new(xy: PixelXY, rgb: [u8; 3], has_edit: bool) -> (r: Self)
        requires
            xy.x <= u16::MAX,
            xy.y <= u16::MAX,
        ensures
            r@ == (RowView { x: xy.x as int, y: xy.y as int, rgb: rgb@, has_edit }),
    {
        PixelRow { xy: (xy.x as u16, xy.y as u16), rgb, has_edit }
    }

    pub fn xy(self) -> (r: PixelXY)
        ensures
            r.x == self@.x,
            r.y == self@.y,
    {
        PixelXY::new(self.xy.0 as u32, self.xy.1 as u32)
    }

    pub fn x(self) -> (r: u32)
        ensures
            r == self@.x,
    {
        self.xy.0 as u32
    }

    pub fn y(self) -> (r: u32)
        ensures
            r == self@.y,
    {
        self.xy.1 as u32
    }
}

/// What a list of rows holds.
pub open spec fn rows_view(rows: Seq<PixelRow>) -> Seq<RowView> {
    rows.map_values(|r: PixelRow| r@)
}

/// How many rows have an edit.
pub open spec fn count_edits(rows: Seq<RowView>) -> nat
    decreases rows.len(),
{
    if rows.len() == 0 {
        0
    } else {
        count_edits(rows.drop_last()) + (if rows.last().has_edit {
            1nat
        } else {
            0
        })
    }
}

/// Per-pixel summaries for the "Literals" and "Backrefs" radio buttons.
/// `n_lit_with_edit` is counted during build so the sidebar's pixel-count
/// label needs no second pass over `lit`. Every entry in `refs` is already
/// filtered to redirectable refs, so each is editable by construction.
pub struct PixelIndex {
    pub lit: Vec<PixelRow>,
    pub refs: Vec<PixelRow>,
    pub n_lit_with_edit: usize,
}

// Which symbols have an alternative.

/// The code lengths that swaps and redirects look at.
pub open spec fn listed_len(len: u8) -> bool {
    0 < len < 16
}

/// Literal `sym` has another literal with a code of the same length.
pub open spec fn lit_swappable(entries: Seq<SymCode>, sym: int) -> bool {
    &&& 0 <= sym < 256
    &&& sym < entries.len()
    &&& listed_len(entries[sym].len)
    &&& exists|o: int|
        0 <= o < 256 && o < entries.len() && o != sym && (#[trigger] entries[o]).len
            == entries[sym].len
}

/// Distance symbol `sym` has another with a code of the same length and as many
/// extra bits.
pub open spec fn dist_redirectable(entries: Seq<SymCode>, sym: int) -> bool {
    &&& 0 <= sym < 30
    &&& sym < entries.len()
    &&& listed_len(entries[sym].len)
    &&& exists|o: int|
        0 <= o < 30 && o < entries.len() && o != sym && (#[trigger] entries[o]).len
            == entries[sym].len && DEXT@[o] == DEXT@[sym]
}

/// How many of the first `n` symbols have a code of length `len`.
spec fn bucket_size(entries: Seq<SymCode>, n: int, len: u8) -> nat
    decreases n,
{
    if n <= 0 {
        0
    } else {
        bucket_size(entries, n - 1, len) + (if entries[n - 1].len == len {
            1nat
        } else {
            0
        })
    }
}

proof fn lemma_bucket_some(entries: Seq<SymCode>, n: int, sym: int)
    requires
        0 <= sym < n,
    ensures
        bucket_size(entries, n, entries[sym].len) >= 1,
        bucket_size(entries, n, entries[sym].len) <= n,
        bucket_size(entries, n, entries[sym].len) > 1 <==> exists|o: int|
            0 <= o < n && o != sym && (#[trigger] entries[o]).len == entries[sym].len,
    decreases n,
{
    let c = entries[sym].len;
    lemma_bucket_bound(entries, n, c);
    if sym == n - 1 {
        if bucket_size(entries, n - 1, c) > 0 {
            let o = lemma_bucket_witness(entries, n - 1, c);
            assert(entries[o].len == entries[sym].len);
        } else {
            assert forall|o: int| 0 <= o < n - 1 implies (#[trigger] entries[o]).len != c by {
                if entries[o].len == c {
                    lemma_bucket_some(entries, n - 1, o);
                }
            }
        }
    } else {
        lemma_bucket_some(entries, n - 1, sym);
        assert(entries[n - 1].len == c || entries[n - 1].len != c);
        if bucket_size(entries, n - 1, c) > 1 {
            let o = choose|o: int|
                0 <= o < n - 1 && o != sym && (#[trigger] entries[o]).len == entries[sym].len;
            assert(entries[o].len == c);
        }
    }
}

proof fn lemma_bucket_bound(entries: Seq<SymCode>, n: int, len: u8)
    ensures
        bucket_size(entries, n, len) <= (if n < 0 {
            0
        } else {
            n
        }),
    decreases n,
{
    if n > 0 {
        lemma_bucket_bound(entries, n - 1, len);
    }
}

proof fn lemma_bucket_witness(entries: Seq<SymCode>, n: int, len: u8) -> (o: int)
    requires
        bucket_size(entries, n, len) > 0,
    ensures
        0 <= o < n,
        entries[o].len == len,
    decreases n,
{
    if entries[n - 1].len == len {
        n - 1
    } else {
        lemma_bucket_witness(entries, n - 1, len)
    }
}

/// Which literal symbols (0..=255) of one block have at least one
/// same-length alternative in its Huffman alphabet. `counts[c]` is the
/// number of literal symbols with Huffman length `c`; a symbol is swappable
/// iff its bucket has more than one entry. Two `O(alphabet)` passes (count,
/// then mark).
fn lit_swap_set(le: &EncTable) -> (r: [bool; 256])
    ensures
        forall|s: int| 0 <= s < 256 ==> #[trigger] r@[s] == lit_swappable(le@, s),
{
    let raw: &[SymCode] = le.raw();
    let n: usize = if raw.len() < 256 {
        raw.len()
    } else {
        256
    };
    let mut counts: [u16; 16] = [0; 16];
    let mut i: usize = 0;
    while i < n
        invariant
            i <= n <= 256,
            n <= raw@.len(),
            forall|c: int|
                0 < c < 16 ==> #[trigger] counts@[c] == bucket_size(raw@, i as int, c as u8),
        decreases n - i,
    {
        let clen: u8 = raw[i].len;
        if clen != 0 && clen < 16 {
            proof {
                lemma_bucket_bound(raw@, i as int, clen);
            }
            counts[clen as usize] = counts[clen as usize] + 1;
        }
        i = i + 1;
    }
    let mut valid: [bool; 256] = [false; 256];
    let mut sym: usize = 0;
    while sym < n
        invariant
            sym <= n <= 256,
            n <= raw@.len(),
            n == 256 || n == raw@.len(),
            raw@ == le@,
            forall|c: int|
                0 < c < 16 ==> #[trigger] counts@[c] == bucket_size(raw@, n as int, c as u8),
            forall|s: int| 0 <= s < sym ==> #[trigger] valid@[s] == lit_swappable(le@, s),
            forall|s: int| sym <= s < 256 ==> !(#[trigger] valid@[s]),
        decreases n - sym,
    {
        let clen: u8 = raw[sym].len;
        proof {
            lemma_bucket_some(raw@, n as int, sym as int);
        }
        if clen != 0 && clen < 16 && counts[clen as usize] > 1 {
            proof {
                let o = choose|o: int|
                    0 <= o < n && o != sym && (#[trigger] raw@[o]).len == raw@[sym as int].len;
                assert(le@[o].len == le@[sym as int].len);
                assert(lit_swappable(le@, sym as int));
            }
            valid[sym] = true;
        } else {
            assert(!lit_swappable(le@, sym as int));
        }
        sym = sym + 1;
    }
    valid
}

/// For each block, which literal symbols have a same-length alternative.
pub fn precompute_lit_swap_syms(lit_encs: &[EncTable]) -> (r: Vec<[bool; 256]>)
    ensures
        r@.len() == lit_encs@.len(),
        forall|b: int, s: int|
            0 <= b < r@.len() && 0 <= s < 256 ==> #[trigger] r@[b]@[s] == lit_swappable(
                lit_encs@[b]@,
                s,
            ),
{
    let mut out: Vec<[bool; 256]> = Vec::new();
    let mut b: usize = 0;
    while b < lit_encs.len()
        invariant
            b <= lit_encs@.len(),
            out@.len() == b,
            forall|c: int, s: int|
                0 <= c < b && 0 <= s < 256 ==> #[trigger] out@[c]@[s] == lit_swappable(
                    lit_encs@[c]@,
                    s,
                ),
        decreases lit_encs@.len() - b,
    {
        out.push(lit_swap_set(&lit_encs[b]));
        b = b + 1;
    }
    out
}

proof fn lemma_set_bit(mask: u32, s: u32, t: u32)
    requires
        s < 32,
        t < 32,
    ensures
        ((mask | (1u32 << s)) & (1u32 << t) != 0) == (s == t || mask & (1u32 << t) != 0),
{
    assert(((mask | (1u32 << s)) & (1u32 << t) != 0) == (s == t || mask & (1u32 << t) != 0))
        by (bit_vector)
        requires
            s < 32,
            t < 32,
    ;
}

/// Whether symbol `sym` shares its bucket, by `(clen, dext)`, with another.
fn shares_bucket(raw: &[SymCode], n: usize, sym: usize) -> (r: bool)
    requires
        sym < n <= 30,
        n <= raw@.len(),
    ensures
        r == exists|o: int|
            0 <= o < n && o != sym && (#[trigger] raw@[o]).len == raw@[sym as int].len && DEXT@[o]
                == DEXT@[sym as int],
{
    let mut o: usize = 0;
    while o < n
        invariant
            o <= n,
            sym < n <= 30,
            n <= raw@.len(),
            forall|q: int|
                0 <= q < o && q != sym ==> !((#[trigger] raw@[q]).len == raw@[sym as int].len
                    && DEXT@[q] == DEXT@[sym as int]),
        decreases n - o,
    {
        if o != sym && raw[o].len == raw[sym].len && DEXT[o] == DEXT[sym] {
            assert(raw@[o as int].len == raw@[sym as int].len);
            return true;
        }
        o = o + 1;
    }
    false
}

/// The distance symbols of one block with a compatible redirect target (same
/// Huffman length AND same extra-bits count), one bit each.
fn dist_redir_mask(de: &EncTable) -> (mask: u32)
    ensures
        forall|s: u32|
            s < 32 ==> (mask & #[trigger] (1u32 << s) != 0) == dist_redirectable(de@, s as int),
{
    let raw: &[SymCode] = de.raw();
    // Symbols 30/31 are reserved (RFC 1951); ignore them even if a
    // fixed-Huffman block's `EncTable` allocates 32 slots, since `DEXT` is
    // only defined for 0..30.
    let n: usize = if raw.len() < 30 {
        raw.len()
    } else {
        30
    };
    let mut mask: u32 = 0;
    let mut sym: usize = 0;
    assert forall|s: u32| s < 32 implies 0u32 & #[trigger] (1u32 << s) == 0 by {
        assert(0u32 & (1u32 << s) == 0) by (bit_vector);
    }
    while sym < n
        invariant
            sym <= n <= 30,
            n <= raw@.len(),
            n == 30 || n == raw@.len(),
            raw@ == de@,
            forall|s: u32|
                s < 32 ==> (mask & #[trigger] (1u32 << s) != 0) == (s < sym && dist_redirectable(
                    de@,
                    s as int,
                )),
        decreases n - sym,
    {
        let clen: u8 = raw[sym].len;
        let ghost mask0 = mask;
        if clen != 0 && clen < 16 && shares_bucket(raw, n, sym) {
            assert(dist_redirectable(de@, sym as int));
            mask = mask | (1u32 << (sym as u32));
            proof {
                assert forall|s: u32| s < 32 implies (mask & #[trigger] (1u32 << s) != 0) == (s
                    < sym + 1 && dist_redirectable(de@, s as int)) by {
                    lemma_set_bit(mask0, sym as u32, s);
                }
            }
        } else {
            assert(!dist_redirectable(de@, sym as int));
        }
        sym = sym + 1;
    }
    mask
}

/// For each block, which dist-symbols have a compatible redirect target.
/// Returns a `u32` mask per block; bit `i` = dist-symbol `i` is editable.
pub fn precompute_redirectable_dist_syms(dist_encs: &[EncTable]) -> (r: Vec<u32>)
    ensures
        masks_ok(r@, dist_encs@),
{
    let mut out: Vec<u32> = Vec::new();
    let mut b: usize = 0;
    while b < dist_encs.len()
        invariant
            b <= dist_encs@.len(),
            out@.len() == b,
            forall|c: int, s: u32|
                0 <= c < b && s < 32 ==> (#[trigger] out@[c] & #[trigger] (1u32 << s) != 0)
                    == dist_redirectable(dist_encs@[c]@, s as int),
        decreases dist_encs@.len() - b,
    {
        out.push(dist_redir_mask(&dist_encs[b]));
        b = b + 1;
    }
    out
}

/// Bit `s` of mask `b` says whether symbol `s` of block `b` is redirectable.
pub open spec fn masks_ok(masks: Seq<u32>, dist_encs: Seq<EncTable>) -> bool {
    &&& masks.len() == dist_encs.len()
    &&& forall|b: int, s: u32|
        0 <= b < masks.len() && s < 32 ==> (#[trigger] masks[b] & #[trigger] (1u32 << s) != 0)
            == dist_redirectable(dist_encs[b]@, s as int)
}

// Redirect targets.

/// A redirect target for a back-reference: point it at `dist_sym` and its
/// source moves to `src_out_pos`, `distance` bytes back. `src_out_pos` and
/// `distance` are both `u32`, so the named fields keep them from being
/// transposed at a call site.
#[derive(Debug, Clone, Copy, PartialEq, Eq, Default, Structural)]
pub struct DistAlt {
    pub dist_sym: u8,
    pub src_out_pos: u32,
    pub distance: u32,
}

/// The extra-bits value that a distance carries under symbol `cur`.
pub open spec fn extra_value(distance: int, cur: int) -> int {
    if distance >= DBASE@[cur] {
        distance - DBASE@[cur]
    } else {
        0
    }
}

/// `sym` is a redirect target: another symbol with a code of the same length
/// and as many extra bits, whose source is not before the output.
pub open spec fn is_target(
    entries: Seq<SymCode>,
    cur: int,
    out_pos: int,
    src_out_pos: int,
    sym: int,
) -> bool {
    &&& sym != cur
    &&& entries[sym].len != 0
    &&& entries[sym].len == entries[cur].len
    &&& DEXT@[sym] == DEXT@[cur]
    &&& DBASE@[sym] + extra_value(out_pos - src_out_pos, cur) <= out_pos
}

/// The redirect targets among the first `n` symbols, in symbol order.
pub open spec fn targets(
    entries: Seq<SymCode>,
    cur: int,
    out_pos: int,
    src_out_pos: int,
    n: int,
) -> Seq<DistAlt>
    decreases n,
{
    if n <= 0 {
        Seq::empty()
    } else {
        let rest = targets(entries, cur, out_pos, src_out_pos, n - 1);
        let distance = DBASE@[n - 1] + extra_value(out_pos - src_out_pos, cur);
        if is_target(entries, cur, out_pos, src_out_pos, n - 1) {
            rest.push(
                DistAlt {
                    dist_sym: (n - 1) as u8,
                    src_out_pos: (out_pos - distance) as u32,
                    distance: distance as u32,
                },
            )
        } else {
            rest
        }
    }
}

/// How many distance symbols a table defines: 30 at most.
pub open spec fn defined_syms(entries: Seq<SymCode>) -> int {
    if entries.len() < 30 {
        entries.len() as int
    } else {
        30
    }
}

/// All redirect targets; none at all where the current symbol is not in the
/// table.
pub open spec fn dist_alts(
    entries: Seq<SymCode>,
    cur: int,
    out_pos: int,
    src_out_pos: int,
) -> Option<Seq<DistAlt>> {
    if cur >= 30 || sym_code(entries, cur) is None {
        None
    } else {
        Some(targets(entries, cur, out_pos, src_out_pos, defined_syms(entries)))
    }
}

/// The dist-symbols in `de` that are valid redirect targets for the
/// back-reference at `(out_pos, src_out_pos)` with current symbol `cur_sym`.
/// Valid: same Huffman length, same `DEXT` extra-bits class, and a
/// non-negative new source position.
///
/// `None` only when `cur_sym` isn't present in `de`: nothing to redirect
/// from.
fn compatible_dist_alts(
    de: &EncTable,
    cur_sym: u8,
    out_pos: u32,
    src_out_pos: u32,
) -> (r: Option<Vec<DistAlt>>)
    requires
        src_out_pos <= out_pos,
    ensures
        match r {
            Some(v) => dist_alts(de@, cur_sym as int, out_pos as int, src_out_pos as int) == Some(
                v@,
            ),
            None => dist_alts(de@, cur_sym as int, out_pos as int, src_out_pos as int) is None,
        },
{
    // Symbols 30/31 are reserved (RFC 1951) and have no `DEXT`/`DBASE`
    // entries; refuse them up front.
    if cur_sym >= 30 {
        return None;
    }
    let cur_clen: u8 = match de.get(cur_sym as u16) {
        Some(sc) => sc.len,
        None => return None,
    };
    let cur_dext: u32 = DEXT[cur_sym as usize];
    let distance: u32 = out_pos - src_out_pos;
    let base: u32 = DBASE[cur_sym as usize];
    let extra_val: u32 = if distance >= base {
        distance - base
    } else {
        0
    };
    let raw: &[SymCode] = de.raw();
    // `de.raw()` may run to 32 entries for a fixed-Huffman block, but
    // `DBASE`/`DEXT` are only defined for 0..30, so clip the iteration.
    let n: usize = if raw.len() < 30 {
        raw.len()
    } else {
        30
    };
    let mut out: Vec<DistAlt> = Vec::new();
    let mut sym: usize = 0;
    while sym < n
        invariant
            sym <= n <= 30,
            n <= raw@.len(),
            raw@ == de@,
            cur_sym < 30,
            cur_sym < raw@.len(),
            cur_clen == raw@[cur_sym as int].len,
            cur_dext == DEXT@[cur_sym as int],
            src_out_pos <= out_pos,
            extra_val == extra_value(out_pos - src_out_pos, cur_sym as int),
            out@ == targets(
                de@,
                cur_sym as int,
                out_pos as int,
                src_out_pos as int,
                sym as int,
            ),
        decreases n - sym,
    {
        let clen: u8 = raw[sym].len;
        if clen != 0 && sym != cur_sym as usize && clen == cur_clen && DEXT[sym] == cur_dext {
            let new_dist: u64 = DBASE[sym] as u64 + extra_val as u64;
            if new_dist <= out_pos as u64 {
                out.push(
                    DistAlt {
                        dist_sym: sym as u8,
                        src_out_pos: (out_pos as u64 - new_dist) as u32,
                        distance: new_dist as u32,
                    },
                );
            }
        }
        sym = sym + 1;
    }
    Some(out)
}

/// Redirect alternatives for a single back-reference.
pub fn valid_dist_alts(
    block: u32,
    dist_sym: u8,
    out_pos: u32,
    src_out_pos: u32,
    dist_encs: &[EncTable],
) -> (r: Vec<DistAlt>)
    requires
        src_out_pos <= out_pos,
    ensures
        r@ == alts_in(
            dist_encs@,
            block as int,
            dist_sym as int,
            out_pos as int,
            src_out_pos as int,
        ),
{
    if (block as usize) < dist_encs.len() {
        match compatible_dist_alts(&dist_encs[block as usize], dist_sym, out_pos, src_out_pos) {
            Some(v) => v,
            None => Vec::new(),
        }
    } else {
        Vec::new()
    }
}

/// What [`valid_dist_alts`] lists.
pub open spec fn alts_in(
    dist_encs: Seq<EncTable>,
    block: int,
    dist_sym: int,
    out_pos: int,
    src_out_pos: int,
) -> Seq<DistAlt> {
    if block < dist_encs.len() {
        match dist_alts(dist_encs[block]@, dist_sym, out_pos, src_out_pos) {
            Some(v) => v,
            None => Seq::empty(),
        }
    } else {
        Seq::empty()
    }
}

/// Every alternative is a symbol of the same width and as many extra bits,
/// other than the current one, and its distance and source agree.
pub proof fn law_alts_keep_width(
    entries: Seq<SymCode>,
    cur: int,
    out_pos: int,
    src_out_pos: int,
    n: int,
    i: int,
)
    requires
        0 <= cur < 30,
        0 <= src_out_pos <= out_pos <= u32::MAX,
        n <= 30,
        0 <= i < targets(entries, cur, out_pos, src_out_pos, n).len(),
    ensures
        ({
            let alt = targets(entries, cur, out_pos, src_out_pos, n)[i];
            &&& alt.dist_sym < n
            &&& alt.dist_sym != cur
            &&& entries[alt.dist_sym as int].len == entries[cur].len
            &&& DEXT@[alt.dist_sym as int] == DEXT@[cur]
            &&& alt.distance == DBASE@[alt.dist_sym as int] + extra_value(
                out_pos - src_out_pos,
                cur,
            )
            &&& alt.src_out_pos + alt.distance == out_pos
        }),
    decreases n,
{
    if n > 0 {
        if i < targets(entries, cur, out_pos, src_out_pos, n - 1).len() {
            law_alts_keep_width(entries, cur, out_pos, src_out_pos, n - 1, i);
        }
    }
}

// Classifying events.

/// Per-event class for the pixel index's hot loop, one byte each. Encodes only
/// what the per-pixel classifier needs (literal vs redirectable ref, plus
/// whether a literal has a same-length swap), so the loop reads one byte per
/// channel and never touches `events` or the per-block Huffman tables. A
/// non-redirectable ref is `Skip`, like an unowned channel.
#[derive(Debug, Clone, Copy, PartialEq, Eq, Structural)]
pub enum EventClass {
    Skip,
    LitNoSwap,
    LitSwap,
    RefRedir,
}

/// The back-reference has a target to go to.
pub open spec fn ref_redirectable(r: RefEvent, block: int, dist_encs: Seq<EncTable>) -> bool {
    &&& 0 <= block < dist_encs.len()
    &&& dist_redirectable(dist_encs[block]@, r.dist_sym as int)
    &&& alts_in(
        dist_encs,
        block,
        r.dist_sym as int,
        r.out_pos as int,
        r.src_out_pos as int,
    ).len() > 0
}

fn is_ref_redirectable(
    r: &RefEvent,
    block: usize,
    blk_redir_syms: &[u32],
    dist_encs: &[EncTable],
) -> (b: bool)
    requires
        masks_ok(blk_redir_syms@, dist_encs@),
        r.src_out_pos <= r.out_pos,
    ensures
        b == ref_redirectable(*r, block as int, dist_encs@),
{
    // Per-block bitset rules out symbols that have no alternatives anywhere
    // in the table, before we touch the per-event distance math.
    if block >= blk_redir_syms.len() || r.dist_sym >= 32 {
        return false;
    }
    let s: u32 = r.dist_sym as u32;
    if blk_redir_syms[block] & (1u32 << s) == 0 {
        assert(!dist_redirectable(dist_encs@[block as int]@, s as int));
        return false;
    }
    assert(dist_redirectable(dist_encs@[block as int]@, s as int));
    match compatible_dist_alts(&dist_encs[block], r.dist_sym, r.out_pos, r.src_out_pos) {
        Some(v) => v.len() > 0,
        None => false,
    }
}

/// The class of an event of block `block`.
pub open spec fn class_of(
    e: Event,
    block: int,
    lit_encs: Seq<EncTable>,
    dist_encs: Seq<EncTable>,
) -> EventClass {
    match e {
        Event::Lit(l) => if block < lit_encs.len() && lit_swappable(
            lit_encs[block]@,
            l.symbol as int,
        ) {
            EventClass::LitSwap
        } else {
            EventClass::LitNoSwap
        },
        Event::Ref(r) => if ref_redirectable(r, block, dist_encs) {
            EventClass::RefRedir
        } else {
            EventClass::Skip
        },
    }
}

/// The event that block `block` ends before.
pub open spec fn block_end(block_starts: Seq<u32>, n_events: nat, block: int) -> int {
    if block + 1 < block_starts.len() {
        block_starts[block + 1] as int
    } else {
        n_events as int
    }
}

/// The classes of one block's events.
pub open spec fn block_classes(
    events: Seq<Event>,
    block_starts: Seq<u32>,
    lit_encs: Seq<EncTable>,
    dist_encs: Seq<EncTable>,
    block: int,
) -> Seq<EventClass> {
    events.subrange(
        block_starts[block] as int,
        block_end(block_starts, events.len(), block),
    ).map_values(|e: Event| class_of(e, block, lit_encs, dist_encs))
}

/// The classes of the first `n` blocks' events.
pub open spec fn event_classes(
    events: Seq<Event>,
    block_starts: Seq<u32>,
    lit_encs: Seq<EncTable>,
    dist_encs: Seq<EncTable>,
    n: int,
) -> Seq<EventClass>
    decreases n,
{
    if n <= 0 {
        Seq::empty()
    } else {
        event_classes(events, block_starts, lit_encs, dist_encs, n - 1) + block_classes(
            events,
            block_starts,
            lit_encs,
            dist_encs,
            n - 1,
        )
    }
}

/// `rayon`'s `into_par_iter`, `map` and `collect` over an index range: the work
/// items run on a thread pool, and the results come back as one `Vec` in index
/// order, whatever order they were computed in. Each is what `f` returned for
/// its index.
#[verifier::external_body]
fn par_map<T: Send, F: Fn(usize) -> T + Sync + Send>(n: usize, f: F) -> (r: Vec<T>)
    requires
        forall|i: usize| i < n ==> call_requires(f, (i,)),
    ensures
        r@.len() == n,
        forall|i: usize| i < n ==> call_ensures(f, (i,), #[trigger] r@[i as int]),
{
    (0..n).into_par_iter().map(f).collect()
}

fn classify_block(
    events: &[Event],
    block_starts: &[u32],
    block: usize,
    lit_swap_syms: &[[bool; 256]],
    blk_redir_syms: &[u32],
    dist_encs: &[EncTable],
    lit_encs: &[EncTable],
) -> (r: Vec<EventClass>)
    requires
        block < block_starts@.len(),
        block_starts@[block as int] <= block_end(block_starts@, events@.len(), block as int)
            <= events@.len(),
        lit_swap_syms@.len() == lit_encs@.len(),
        forall|b: int, s: int|
            0 <= b < lit_swap_syms@.len() && 0 <= s < 256 ==> #[trigger] lit_swap_syms@[b]@[s]
                == lit_swappable(lit_encs@[b]@, s),
        masks_ok(blk_redir_syms@, dist_encs@),
        refs_look_back(events@),
    ensures
        r@ == block_classes(events@, block_starts@, lit_encs@, dist_encs@, block as int),
{
    let start: usize = block_starts[block] as usize;
    let end: usize = if block + 1 < block_starts.len() {
        block_starts[block + 1] as usize
    } else {
        events.len()
    };
    let mut out: Vec<EventClass> = Vec::new();
    let mut i: usize = start;
    while i < end
        invariant
            start <= i <= end <= events@.len(),
            lit_swap_syms@.len() == lit_encs@.len(),
            forall|b: int, s: int|
                0 <= b < lit_swap_syms@.len() && 0 <= s < 256 ==> #[trigger] lit_swap_syms@[b]@[s]
                    == lit_swappable(lit_encs@[b]@, s),
            masks_ok(blk_redir_syms@, dist_encs@),
            refs_look_back(events@),
            out@.len() == i - start,
            forall|k: int|
                0 <= k < out@.len() ==> #[trigger] out@[k] == class_of(
                    events@[start + k],
                    block as int,
                    lit_encs@,
                    dist_encs@,
                ),
        decreases end - i,
    {
        let class: EventClass = match events[i] {
            Event::Lit(lit) => {
                if block < lit_swap_syms.len() && lit_swap_syms[block][lit.symbol as usize] {
                    assert(lit_swap_syms@[block as int]@[lit.symbol as int]);
                    EventClass::LitSwap
                } else {
                    assert(block < lit_swap_syms@.len() ==> !lit_swap_syms@[block as int]@[lit.symbol as int]);
                    EventClass::LitNoSwap
                }
            },
            Event::Ref(r) => {
                assert(events@[i as int] == Event::Ref(r));
                if is_ref_redirectable(&r, block, blk_redir_syms, dist_encs) {
                    EventClass::RefRedir
                } else {
                    EventClass::Skip
                }
            },
        };
        out.push(class);
        i = i + 1;
    }
    assert(out@ =~= block_classes(events@, block_starts@, lit_encs@, dist_encs@, block as int));
    out
}

/// No back-reference reads from behind its own position.
pub open spec fn refs_look_back(events: Seq<Event>) -> bool {
    forall|k: int|
        0 <= k < events.len() ==> (#[trigger] events[k] matches Event::Ref(r) ==> r.src_out_pos
            <= r.out_pos)
}

// Classifying pixels.

#[derive(Debug, Clone, Copy, PartialEq, Eq, Structural)]
pub enum PixelKind {
    /// A literal pixel. `has_swap` is true when the block's alphabet holds
    /// at least one other literal with the same Huffman code length, so the
    /// byte can be rewritten without disturbing bit-alignment.
    Lit { has_swap: bool },
    /// A back-reference pixel. Only emitted for refs whose distance has at
    /// least one same-width alternative, so every `Ref` row is editable.
    Ref,
}

/// The class of the event that owns byte `p`; `Skip` where none does.
pub open spec fn class_at(pos_to_ev: Seq<u32>, classes: Seq<EventClass>, p: int) -> EventClass {
    if p < pos_to_ev.len() && pos_to_ev[p] != u32::MAX && pos_to_ev[p] < classes.len() {
        classes[pos_to_ev[p] as int]
    } else {
        EventClass::Skip
    }
}

/// One of the `bpp` bytes from `base` on has class `class`.
pub open spec fn any_channel(
    pos_to_ev: Seq<u32>,
    classes: Seq<EventClass>,
    base: int,
    bpp: int,
    class: EventClass,
) -> bool {
    exists|ch: int| 0 <= ch < bpp && #[trigger] class_at(pos_to_ev, classes, base + ch) == class
}

/// What kind of pixel stands at `base`:
/// - any channel owned by a literal event: `Lit`, `has_swap` if one of those
///   literals has a same-length swap alternative;
/// - else any channel owned by a redirectable back-ref: `Ref`;
/// - else the pixel is invisible to the side panel.
pub open spec fn pixel_kind(
    pos_to_ev: Seq<u32>,
    classes: Seq<EventClass>,
    base: int,
    bpp: int,
) -> Option<PixelKind> {
    if any_channel(pos_to_ev, classes, base, bpp, EventClass::LitSwap) {
        Some(PixelKind::Lit { has_swap: true })
    } else if any_channel(pos_to_ev, classes, base, bpp, EventClass::LitNoSwap) {
        Some(PixelKind::Lit { has_swap: false })
    } else if any_channel(pos_to_ev, classes, base, bpp, EventClass::RefRedir) {
        Some(PixelKind::Ref)
    } else {
        None
    }
}

/// Classify a pixel from its channel-owning events' class bytes.
pub fn classify_pixel(
    base: usize,
    bpp: usize,
    pos_to_ev: &[u32],
    event_class: &[EventClass],
) -> (r: Option<PixelKind>)
    ensures
        r == pixel_kind(pos_to_ev@, event_class@, base as int, bpp as int),
{
    let mut no_swap_seen: bool = false;
    let mut swap_seen: bool = false;
    let mut ref_seen: bool = false;
    let mut ch: usize = 0;
    while ch < bpp
        invariant
            ch <= bpp,
            no_swap_seen == any_channel(
                pos_to_ev@,
                event_class@,
                base as int,
                ch as int,
                EventClass::LitNoSwap,
            ),
            swap_seen == any_channel(
                pos_to_ev@,
                event_class@,
                base as int,
                ch as int,
                EventClass::LitSwap,
            ),
            ref_seen == any_channel(
                pos_to_ev@,
                event_class@,
                base as int,
                ch as int,
                EventClass::RefRedir,
            ),
        decreases bpp - ch,
    {
        let mut class: EventClass = EventClass::Skip;
        if base < pos_to_ev.len() && ch < pos_to_ev.len() - base {
            let ev_idx: u32 = pos_to_ev[base + ch];
            if ev_idx != u32::MAX && (ev_idx as usize) < event_class.len() {
                class = event_class[ev_idx as usize];
            }
        }
        proof {
            assert(class == class_at(pos_to_ev@, event_class@, base + ch));
            lemma_channel_step(pos_to_ev@, event_class@, base as int, ch as int, class);
        }
        match class {
            EventClass::LitNoSwap => {
                no_swap_seen = true;
            },
            EventClass::LitSwap => {
                swap_seen = true;
            },
            EventClass::RefRedir => {
                ref_seen = true;
            },
            EventClass::Skip => {},
        }
        ch = ch + 1;
    }
    if swap_seen {
        Some(PixelKind::Lit { has_swap: true })
    } else if no_swap_seen {
        Some(PixelKind::Lit { has_swap: false })
    } else if ref_seen {
        Some(PixelKind::Ref)
    } else {
        None
    }
}

proof fn lemma_channel_step(
    pos_to_ev: Seq<u32>,
    classes: Seq<EventClass>,
    base: int,
    ch: int,
    class: EventClass,
)
    requires
        0 <= ch,
        class == class_at(pos_to_ev, classes, base + ch),
    ensures
        forall|c: EventClass| #[trigger]
            any_channel(pos_to_ev, classes, base, ch + 1, c) == (any_channel(
                pos_to_ev,
                classes,
                base,
                ch,
                c,
            ) || c == class),
{
    assert forall|c: EventClass| #[trigger]
        any_channel(pos_to_ev, classes, base, ch + 1, c) == (any_channel(
            pos_to_ev,
            classes,
            base,
            ch,
            c,
        ) || c == class) by {
        if any_channel(pos_to_ev, classes, base, ch, c) {
            let k = choose|k: int|
                0 <= k < ch && #[trigger] class_at(pos_to_ev, classes, base + k) == c;
            assert(class_at(pos_to_ev, classes, base + k) == c);
        }
    }
}

// The image in raster order.

/// The value of byte `p` of the output, or `r` past its end.
pub open spec fn byte_or(output: Seq<u8>, p: int, r: u8) -> u8 {
    if p < output.len() {
        output[p]
    } else {
        r
    }
}

/// What the index is built from.
pub struct IndexInput {
    pub info: PngInfo,
    pub output: Seq<u8>,
    pub pos_to_ev: Seq<u32>,
    pub classes: Seq<EventClass>,
}

impl IndexInput {
    /// The kind of the pixel at `(x, y)`; none past the end of the output.
    pub open spec fn kind(self, x: int, y: int) -> Option<PixelKind> {
        let base = raster_pos(self.info, PixelXY { x: x as u32, y: y as u32 });
        if base >= self.output.len() {
            None
        } else {
            pixel_kind(self.pos_to_ev, self.classes, base, self.info.bpp as int)
        }
    }

    /// The list row of the pixel at `(x, y)`. The swatch takes the first three
    /// bytes; a byte past the end of the output repeats the first.
    pub open spec fn row(self, x: int, y: int) -> RowView {
        let base = raster_pos(self.info, PixelXY { x: x as u32, y: y as u32 });
        let r = self.output[base];
        RowView {
            x,
            y,
            rgb: seq![r, byte_or(self.output, base + 1, r), byte_or(self.output, base + 2, r)],
            has_edit: self.kind(x, y) != Some(PixelKind::Lit { has_swap: false }),
        }
    }

    /// Whether the pixel at `(x, y)` belongs to the literal list, or to the
    /// back-reference list.
    pub open spec fn listed(self, x: int, y: int, lit: bool) -> bool {
        match self.kind(x, y) {
            Some(PixelKind::Lit { .. }) => lit,
            Some(PixelKind::Ref) => !lit,
            None => false,
        }
    }

    /// Pixels that share a byte.
    pub open spec fn step(self) -> int {
        if self.info.bits_per_pixel >= 8 {
            1
        } else {
            8int / self.info.bits_per_pixel as int
        }
    }

    /// Bytes, each named by its first pixel, in a row.
    pub open spec fn per_row(self) -> int {
        (self.info.width + self.step() - 1) / self.step()
    }

    /// The rows of the first `n` bytes of image row `y`.
    pub open spec fn row_picks(self, y: int, n: int, lit: bool) -> Seq<RowView>
        decreases n,
    {
        if n <= 0 {
            Seq::empty()
        } else {
            let rest = self.row_picks(y, n - 1, lit);
            let x = (n - 1) * self.step();
            if self.listed(x, y, lit) {
                rest.push(self.row(x, y))
            } else {
                rest
            }
        }
    }

    /// The rows of the first `h` image rows, in raster order.
    pub open spec fn picks(self, h: int, lit: bool) -> Seq<RowView>
        decreases h,
    {
        if h <= 0 {
            Seq::empty()
        } else {
            self.picks(h - 1, lit) + self.row_picks(h - 1, self.per_row(), lit)
        }
    }
}

/// Per-row scratch the parallel build_pixel_index loop produces. Stitching
/// these back in `y` order preserves the raster sort order downstream.
struct RowBuckets {
    lit: Vec<PixelRow>,
    refs: Vec<PixelRow>,
    n_lit_with_edit: usize,
}

/// The buckets hold image row `y`.
spec fn is_row(ix: IndexInput, y: int, b: RowBuckets) -> bool {
    &&& rows_view(b.lit@) == ix.row_picks(y, ix.per_row(), true)
    &&& rows_view(b.refs@) == ix.row_picks(y, ix.per_row(), false)
    &&& b.n_lit_with_edit == count_edits(ix.row_picks(y, ix.per_row(), true))
}

proof fn lemma_count_bound(rows: Seq<RowView>)
    ensures
        count_edits(rows) <= rows.len(),
    decreases rows.len(),
{
    if rows.len() > 0 {
        lemma_count_bound(rows.drop_last());
    }
}

proof fn lemma_count_push(rows: Seq<RowView>, r: RowView)
    ensures
        count_edits(rows.push(r)) == count_edits(rows) + (if r.has_edit {
            1nat
        } else {
            0
        }),
{
    assert(rows.push(r).drop_last() =~= rows);
}

proof fn lemma_count_add(a: Seq<RowView>, b: Seq<RowView>)
    ensures
        count_edits(a + b) == count_edits(a) + count_edits(b),
    decreases b.len(),
{
    if b.len() == 0 {
        assert(a + b =~= a);
    } else {
        lemma_count_add(a, b.drop_last());
        assert((a + b).drop_last() =~= a + b.drop_last());
    }
}

#[verifier::rlimit(40)]
fn pixel_row_buckets(
    y: usize,
    output: &[u8],
    pos_to_ev: &[u32],
    event_class: &[EventClass],
    raster: &Raster,
) -> (r: RowBuckets)
    requires
        raster.wf(),
        raster_len(raster.geometry()) <= u32::MAX,
        raster.geometry().width <= 0x1_0000,
        raster.geometry().height <= 0x1_0000,
        y < raster.geometry().height,
        raster.geometry().legal(),
    ensures
        is_row(
            IndexInput {
                info: raster.geometry(),
                output: output@,
                pos_to_ev: pos_to_ev@,
                classes: event_class@,
            },
            y as int,
            r,
        ),
{
    let info: PngInfo = *raster.info();
    let ghost ix = IndexInput {
        info,
        output: output@,
        pos_to_ev: pos_to_ev@,
        classes: event_class@,
    };
    proof {
        lemma_bits_ok(info);
    }
    let w: usize = info.width as usize;
    let step: usize = raster.pixels_per_byte() as usize;
    proof {
        lemma_step_size(info);
    }
    let mut b = RowBuckets { lit: Vec::new(), refs: Vec::new(), n_lit_with_edit: 0 };
    let mut x: usize = 0;
    let ghost mut n: int = 0;
    assert(rows_view(b.lit@) =~= Seq::empty());
    assert(rows_view(b.refs@) =~= Seq::empty());
    proof {
        if w == 0 {
            vstd::arithmetic::div_mod::lemma_basic_div(step - 1, step as int);
        } else {
            lemma_next_step(w as int, step as int, 0);
        }
    }
    while x < w
        invariant
            raster.wf(),
            info == raster.geometry(),
            info.legal(),
            raster_len(info) <= u32::MAX,
            w == info.width <= 0x1_0000,
            y < info.height <= 0x1_0000,
            step == ix.step(),
            1 <= step <= 8,
            x == n * step,
            0 <= n,
            n <= ix.per_row(),
            x >= w ==> n == ix.per_row(),
            x < w ==> n < ix.per_row(),
            ix == (IndexInput {
                info,
                output: output@,
                pos_to_ev: pos_to_ev@,
                classes: event_class@,
            }),
            rows_view(b.lit@) == ix.row_picks(y as int, n, true),
            rows_view(b.refs@) == ix.row_picks(y as int, n, false),
            b.n_lit_with_edit == count_edits(ix.row_picks(y as int, n, true)),
        decreases w + 8 - x,
    {
        let xy: PixelXY = PixelXY::new(x as u32, y as u32);
        proof {
            law_raster_round_trip(info, xy);
        }
        let base: usize = raster.xy_to_out(xy).0 as usize;
        let ghost lit0 = b.lit@;
        let ghost refs0 = b.refs@;
        proof {
            lemma_count_bound(rows_view(b.lit@));
            assert(b.lit@.len() == rows_view(b.lit@).len());
        }
        if base < output.len() {
            let kind: Option<PixelKind> = classify_pixel(base, info.bpp, pos_to_ev, event_class);
            assert(kind == ix.kind(x as int, y as int));
            if let Some(kind) = kind {
                let r: u8 = output[base];
                let left: usize = output.len() - base;
                let g: u8 = if left > 1 {
                    output[base + 1]
                } else {
                    r
                };
                let bl: u8 = if left > 2 {
                    output[base + 2]
                } else {
                    r
                };
                let has_edit: bool = match kind {
                    PixelKind::Lit { has_swap } => has_swap,
                    PixelKind::Ref => true,
                };
                let row: PixelRow = PixelRow::new(xy, [r, g, bl], has_edit);
                proof {
                    assert(row@.rgb =~= ix.row(x as int, y as int).rgb);
                    assert(row@ == ix.row(x as int, y as int));
                    lemma_count_push(ix.row_picks(y as int, n, true), row@);
                }
                match kind {
                    PixelKind::Lit { has_swap } => {
                        b.lit.push(row);
                        assert(rows_view(b.lit@) =~= rows_view(lit0).push(row@));
                        let total: usize = b.lit.len();
                        if has_swap {
                            b.n_lit_with_edit = b.n_lit_with_edit + 1;
                        }
                    },
                    PixelKind::Ref => {
                        b.refs.push(row);
                        assert(rows_view(b.refs@) =~= rows_view(refs0).push(row@));
                    },
                }
            }
        }
        proof {
            lemma_next_step(w as int, step as int, n);
            assert((n + 1) * step == n * step + step) by (nonlinear_arith);
            n = n + 1;
        }
        x = x + step;
    }
    b
}

/// A byte holds one, two, four or eight pixels.
pub proof fn lemma_step_size(info: PngInfo)
    requires
        info.legal(),
    ensures
        info.bits_per_pixel >= 1,
        info.bits_per_pixel < 8 ==> 1 <= 8int / info.bits_per_pixel as int <= 8,
{
    lemma_bits_ok(info);
    let bits = info.bits_per_pixel as int;
    if bits == 1 {
        assert(8int / bits == 8) by (nonlinear_arith)
            requires
                bits == 1,
        ;
    } else if bits == 2 {
        assert(8int / bits == 4) by (nonlinear_arith)
            requires
                bits == 2,
        ;
    } else if bits == 4 {
        assert(8int / bits == 2) by (nonlinear_arith)
            requires
                bits == 4,
        ;
    }
}

proof fn lemma_next_step(w: int, step: int, n: int)
    requires
        1 <= step <= 8,
        0 <= n,
        n * step < w,
    ensures
        n + 1 <= (w + step - 1) / step,
        (n + 1) * step >= w ==> n + 1 == (w + step - 1) / step,
        (n + 1) * step < w ==> n + 1 < (w + step - 1) / step,
{
    let q = (w + step - 1) / step;
    vstd::arithmetic::div_mod::lemma_fundamental_div_mod(w + step - 1, step);
    vstd::arithmetic::div_mod::lemma_mod_bound(w + step - 1, step);
    let m = (w + step - 1) % step;
    assert(n + 1 <= q && ((n + 1) * step >= w ==> n + 1 == q) && ((n + 1) * step < w ==> n + 1 < q))
        by (nonlinear_arith)
        requires
            w + step - 1 == step * q + m,
            0 <= m < step,
            1 <= step,
            n * step < w,
    ;
}

/// The side panel's two lists, in raster order. Event classification and the
/// pixel walk both fan out across threads.
///
/// At sub-byte depths multiple x-values share one byte, hence one event.
/// Step `x` by `pixels_per_byte` so the list emits one entry per byte, named
/// by the cluster's first pixel.
pub fn build_pixel_index(
    events: &[Event],
    output: &[u8],
    pos_to_ev: &[u32],
    lit_encs: &[EncTable],
    dist_encs: &[EncTable],
    block_starts: &[u32],
    raster: &Raster,
) -> (r: PixelIndex)
    requires
        refs_look_back(events@),
        starts_sorted(block_starts@),
        forall|b: int| 0 <= b < block_starts@.len() ==> #[trigger] block_starts@[b] <= events@.len(),
        raster.wf(),
        raster.geometry().legal(),
        raster_len(raster.geometry()) <= u32::MAX,
        raster.geometry().width <= 0x1_0000,
        raster.geometry().height <= 0x1_0000,
    ensures
        ({
            let ix = IndexInput {
                info: raster.geometry(),
                output: output@,
                pos_to_ev: pos_to_ev@,
                classes: event_classes(
                    events@,
                    block_starts@,
                    lit_encs@,
                    dist_encs@,
                    block_starts@.len() as int,
                ),
            };
            let h = raster.geometry().height as int;
            &&& rows_view(r.lit@) == ix.picks(h, true)
            &&& rows_view(r.refs@) == ix.picks(h, false)
            &&& r.n_lit_with_edit == count_edits(ix.picks(h, true))
        }),
{
    let info: PngInfo = *raster.info();
    let h: usize = info.height as usize;
    let lit_swap_syms: Vec<[bool; 256]> = precompute_lit_swap_syms(lit_encs);
    let blk_redir_syms: Vec<u32> = precompute_redirectable_dist_syms(dist_encs);

    // Blocks own disjoint, contiguous event ranges, so classification fans
    // out across them with the block index as a free per-range constant, no
    // per-event block lookup.
    let swaps: &[[bool; 256]] = lit_swap_syms.as_slice();
    let masks: &[u32] = blk_redir_syms.as_slice();
    let one_block = |block: usize| -> (v: Vec<EventClass>)
        requires
            block_starts@.len() > block,
        ensures
            v@ == block_classes(events@, block_starts@, lit_encs@, dist_encs@, block as int),
    {
        classify_block(events, block_starts, block, swaps, masks, dist_encs, lit_encs)
    };
    let per_block: Vec<Vec<EventClass>> = par_map(block_starts.len(), one_block);
    let mut event_class: Vec<EventClass> = Vec::new();
    let mut block: usize = 0;
    while block < per_block.len()
        invariant
            block <= per_block@.len(),
            per_block@.len() == block_starts@.len(),
            forall|b: usize|
                b < per_block@.len() ==> (#[trigger] per_block@[b as int])@ == block_classes(
                    events@,
                    block_starts@,
                    lit_encs@,
                    dist_encs@,
                    b as int,
                ),
            event_class@ == event_classes(
                events@,
                block_starts@,
                lit_encs@,
                dist_encs@,
                block as int,
            ),
        decreases per_block@.len() - block,
    {
        event_class.extend_from_slice(per_block[block].as_slice());
        assert(event_class@ =~= event_classes(
            events@,
            block_starts@,
            lit_encs@,
            dist_encs@,
            block + 1,
        ));
        block = block + 1;
    }

    let ghost ix = IndexInput {
        info,
        output: output@,
        pos_to_ev: pos_to_ev@,
        classes: event_class@,
    };
    // Rows are independent after the two precomputes: stitch the per-row
    // collections back in `y` order so `lit` / `refs` stay sorted by `(y, x)`
    // as downstream code (binary search in selection, merge in the list
    // filter) expects.
    let classes: &[EventClass] = event_class.as_slice();
    let one_row = |y: usize| -> (b: RowBuckets)
        requires
            info.height > y,
        ensures
            is_row(
                (IndexInput {
                    info,
                    output: output@,
                    pos_to_ev: pos_to_ev@,
                    classes: classes@,
                }),
                y as int,
                b,
            ),
    {
        pixel_row_buckets(y, output, pos_to_ev, classes, raster)
    };
    let per_row: Vec<RowBuckets> = par_map(h, one_row);
    let mut lit: Vec<PixelRow> = Vec::new();
    let mut refs: Vec<PixelRow> = Vec::new();
    let mut n_lit_with_edit: usize = 0;
    let mut y: usize = 0;
    assert(rows_view(lit@) =~= Seq::empty());
    assert(rows_view(refs@) =~= Seq::empty());
    while y < per_row.len()
        invariant
            y <= per_row@.len(),
            per_row@.len() == h,
            forall|k: usize| k < h ==> is_row(ix, k as int, #[trigger] per_row@[k as int]),
            rows_view(lit@) == ix.picks(y as int, true),
            rows_view(refs@) == ix.picks(y as int, false),
            n_lit_with_edit == count_edits(ix.picks(y as int, true)),
        decreases per_row@.len() - y,
    {
        let b: &RowBuckets = &per_row[y];
        let ghost lit0 = lit@;
        let ghost refs0 = refs@;
        lit.extend_from_slice(b.lit.as_slice());
        refs.extend_from_slice(b.refs.as_slice());
        proof {
            assert(is_row(ix, y as int, per_row@[y as int]));
            assert(rows_view(lit@) =~= rows_view(lit0) + rows_view(b.lit@));
            assert(rows_view(refs@) =~= rows_view(refs0) + rows_view(b.refs@));
            lemma_count_add(ix.picks(y as int, true), rows_view(b.lit@));
            lemma_count_bound(rows_view(lit@));
            assert(rows_view(lit@).len() == lit@.len());
        }
        let total: usize = lit.len();
        n_lit_with_edit = n_lit_with_edit + b.n_lit_with_edit;
        y = y + 1;
    }
    PixelIndex { lit, refs, n_lit_with_edit }
}

/// Rows come in raster order, each pixel once.
pub open spec fn rows_sorted(rows: Seq<RowView>) -> bool {
    forall|i: int, j: int|
        0 <= i < j < rows.len() ==> (#[trigger] rows[i]).y < (#[trigger] rows[j]).y || (rows[i].y
            == rows[j].y && rows[i].x < rows[j].x)
}

/// Every row names a pixel of a `w` by `h` image.
pub open spec fn rows_inside(rows: Seq<RowView>, w: int, h: int) -> bool {
    forall|i: int|
        0 <= i < rows.len() ==> 0 <= (#[trigger] rows[i]).x < w && 0 <= rows[i].y < h
}

proof fn lemma_row_picks(ix: IndexInput, y: int, n: int, lit: bool)
    requires
        ix.step() >= 1,
    ensures
        rows_sorted(ix.row_picks(y, n, lit)),
        forall|i: int|
            0 <= i < ix.row_picks(y, n, lit).len() ==> 0 <= (#[trigger] ix.row_picks(y, n, lit)[i]).x
                <= (n - 1) * ix.step() && ix.row_picks(y, n, lit)[i].y == y,
        ix.row_picks(y, n, lit).len() <= (if n > 0 {
            n
        } else {
            0
        }),
    decreases n,
{
    if n > 0 {
        lemma_row_picks(ix, y, n - 1, lit);
        let step = ix.step();
        assert((n - 2) * step < (n - 1) * step) by (nonlinear_arith)
            requires
                step >= 1,
        ;
        assert(0 <= (n - 1) * step) by (nonlinear_arith)
            requires
                step >= 1,
                n >= 1,
        ;
        let rest = ix.row_picks(y, n - 1, lit);
        let all = ix.row_picks(y, n, lit);
        assert forall|i: int| 0 <= i < all.len() implies 0 <= (#[trigger] all[i]).x <= (n - 1) * step
            && all[i].y == y by {
            if i < rest.len() {
                assert(all[i] == rest[i]);
            }
        }
        assert forall|i: int, j: int| 0 <= i < j < all.len() implies (#[trigger] all[i]).y < (
        #[trigger] all[j]).y || (all[i].y == all[j].y && all[i].x < all[j].x) by {
            assert(all[i] == rest[i]);
            if j < rest.len() {
                assert(all[j] == rest[j]);
            }
        }
    }
}

/// Both lists come in raster order, each pixel once, and every row names a
/// pixel of the image.
pub proof fn law_picks_in_raster_order(ix: IndexInput, h: int, lit: bool)
    requires
        ix.step() >= 1,
        0 <= h,
    ensures
        rows_sorted(ix.picks(h, lit)),
        rows_inside(ix.picks(h, lit), ix.info.width as int, h),
        ix.picks(h, lit).len() <= h * ix.info.width,
    decreases h,
{
    if h > 0 {
        law_picks_in_raster_order(ix, h - 1, lit);
        let n = ix.per_row();
        let w = ix.info.width as int;
        lemma_row_picks(ix, h - 1, n, lit);
        lemma_last_step(w, ix.step());
        let rest = ix.picks(h - 1, lit);
        let row = ix.row_picks(h - 1, n, lit);
        let all = ix.picks(h, lit);
        assert((h - 1) * w + w == h * w) by (nonlinear_arith);
        assert forall|i: int| 0 <= i < all.len() implies 0 <= (#[trigger] all[i]).x < w && 0
            <= all[i].y < h by {
            if i < rest.len() {
                assert(all[i] == rest[i]);
            } else {
                assert(all[i] == row[i - rest.len()]);
            }
        }
        assert forall|i: int, j: int| 0 <= i < j < all.len() implies (#[trigger] all[i]).y < (
        #[trigger] all[j]).y || (all[i].y == all[j].y && all[i].x < all[j].x) by {
            if j < rest.len() {
                assert(all[i] == rest[i] && all[j] == rest[j]);
            } else {
                assert(all[j] == row[j - rest.len()]);
                if i < rest.len() {
                    assert(all[i] == rest[i]);
                } else {
                    assert(all[i] == row[i - rest.len()]);
                }
            }
        }
    }
}

proof fn lemma_row_picks_once(ix: IndexInput, y: int, n: int)
    ensures
        ix.row_picks(y, n, true).len() + ix.row_picks(y, n, false).len() <= (if n > 0 {
            n
        } else {
            0
        }),
    decreases n,
{
    if n > 0 {
        lemma_row_picks_once(ix, y, n - 1);
    }
}

/// No pixel is in both lists, so together they have no more rows than the image
/// has pixels.
pub proof fn law_picks_once(ix: IndexInput, h: int)
    requires
        ix.step() >= 1,
        0 <= h,
    ensures
        ix.picks(h, true).len() + ix.picks(h, false).len() <= h * ix.info.width,
    decreases h,
{
    if h > 0 {
        law_picks_once(ix, h - 1);
        let w = ix.info.width as int;
        lemma_row_picks_once(ix, h - 1, ix.per_row());
        lemma_last_step(w, ix.step());
        assert((h - 1) * w + w == h * w) by (nonlinear_arith);
    }
}

proof fn lemma_last_step(w: int, step: int)
    requires
        step >= 1,
        w >= 0,
    ensures
        ({
            let n = (w + step - 1) / step;
            &&& 0 <= n <= w
            &&& n > 0 ==> (n - 1) * step < w
        }),
{
    let n = (w + step - 1) / step;
    vstd::arithmetic::div_mod::lemma_fundamental_div_mod(w + step - 1, step);
    vstd::arithmetic::div_mod::lemma_mod_bound(w + step - 1, step);
    let m = (w + step - 1) % step;
    assert(0 <= n <= w && (n > 0 ==> (n - 1) * step < w)) by (nonlinear_arith)
        requires
            w + step - 1 == step * n + m,
            0 <= m < step,
            1 <= step,
            0 <= w,
    ;
}

} // verus!
