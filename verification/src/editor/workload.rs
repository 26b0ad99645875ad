//! Edits and filter passes to drive a profiling session with.

use vstd::prelude::*;
use vstd::string::{StrSliceExecFns, StringExecFns};

use super::core_data::CoreData;
use super::filter_spec::{ascii_lowercase, contains_text, lower, text_contains};
use super::select::{block_at, same_len_lit_swaps, swap_symbols};
use crate::deflate::events::{block_index, code_len, sym_code, EncTable, Event};
use crate::index::pixel::{alts_in, valid_dist_alts, DistAlt, PixelIndex, PixelRow, RowView};
use crate::text::{numeral, padded, push_numeral, push_padded};

verus! {

/// A literal and the first symbol it can be swapped for.
#[derive(Debug, Clone, Copy, PartialEq, Eq, Structural)]
pub struct LiteralSwap {
    pub bit_start: u32,
    pub code_len: u8,
    pub new_code: u16,
    pub out_pos: u32,
    pub new_symbol: u8,
}

/// A redirect target: the bits to flip and what the redirected reference then
/// reads.
#[derive(Debug, Clone, Copy, PartialEq, Eq, Structural)]
pub struct RedirectSwap {
    pub event_idx: usize,
    pub bit_start: u32,
    pub code_len: u8,
    pub new_code: u16,
    pub out_pos: u32,
    pub copy_len: usize,
    pub old_src: u32,
    pub old_dist_sym: u8,
    pub new_src: u32,
    pub new_dist_sym: u8,
}

/// The first swap of event `k`, where it is a literal that has one.
pub open spec fn first_swap(c: CoreData, k: int) -> Option<LiteralSwap> {
    match c.events@[k] {
        Event::Lit(lit) => {
            let table = c.lit_encs@[block_index(c.block_starts@, k)]@;
            let swaps = swap_symbols(table, lit.symbol as int, 256);
            if swaps.len() > 0 {
                Some(
                    LiteralSwap {
                        bit_start: lit.bit_start,
                        code_len: code_len(table, lit.symbol as int),
                        new_code: table[swaps[0] as int].code,
                        out_pos: lit.out_pos,
                        new_symbol: swaps[0] as u8,
                    },
                )
            } else {
                None
            }
        },
        Event::Ref(_) => None,
    }
}

/// The first swaps of the first `k` events, `n` at most.
pub open spec fn first_swaps(c: CoreData, k: int, n: nat) -> Seq<LiteralSwap>
    decreases k,
{
    if k <= 0 {
        Seq::empty()
    } else {
        let rest = first_swaps(c, k - 1, n);
        match first_swap(c, k - 1) {
            Some(s) if rest.len() < n => rest.push(s),
            _ => rest,
        }
    }
}

/// Find up to `n` literal events whose Huffman code has at least one
/// same-length alternative: exactly the set of pixels the app would
/// list as "editable literal".
pub fn find_literal_swaps(c: &CoreData, n: usize) -> (out: Vec<LiteralSwap>)
    requires
        c.wf(),
    ensures
        out@ == first_swaps(*c, c.events@.len() as int, n as nat),
{
    let mut out: Vec<LiteralSwap> = Vec::new();
    let mut k: usize = 0;
    while k < c.events.len()
        invariant
            k <= c.events@.len(),
            c.wf(),
            out@ == first_swaps(*c, k as int, n as nat),
        decreases c.events@.len() - k,
    {
        if out.len() < n {
            if let Event::Lit(lit) = c.events[k] {
                let block: u32 = block_at(c, k);
                let le: &EncTable = &c.lit_encs[block as usize];
                let swaps: Vec<u16> = same_len_lit_swaps(le, lit.symbol as u16);
                if swaps.len() > 0 {
                    proof {
                        super::select::law_swaps_keep_width(le@, lit.symbol as int, 256, 0);
                    }
                    let s: u16 = swaps[0];
                    match le.get(s) {
                        Some(sc) => {
                            out.push(
                                LiteralSwap {
                                    bit_start: lit.bit_start,
                                    code_len: sc.len,
                                    new_code: sc.code,
                                    out_pos: lit.out_pos,
                                    new_symbol: s as u8,
                                },
                            );
                        },
                        None => {
                            assert(false);
                        },
                    }
                }
            }
        }
        k = k + 1;
    }
    out
}

/// The first redirect of event `k`, where it is a reference that has one.
pub open spec fn first_redirect(c: CoreData, k: int) -> Option<RedirectSwap> {
    match c.events@[k] {
        Event::Ref(r) => {
            let block = block_index(c.block_starts@, k);
            let table = c.dist_encs@[block]@;
            let alts = alts_in(
                c.dist_encs@,
                block,
                r.dist_sym as int,
                r.out_pos as int,
                r.src_out_pos as int,
            );
            if alts.len() > 0 && sym_code(table, alts[0].dist_sym as int) is Some {
                let code = table[alts[0].dist_sym as int];
                Some(
                    RedirectSwap {
                        event_idx: k as usize,
                        bit_start: r.dist_bit_start,
                        code_len: code.len,
                        new_code: code.code,
                        out_pos: r.out_pos,
                        copy_len: r.copy_len as usize,
                        old_src: r.src_out_pos,
                        old_dist_sym: r.dist_sym,
                        new_src: alts[0].src_out_pos,
                        new_dist_sym: alts[0].dist_sym,
                    },
                )
            } else {
                None
            }
        },
        Event::Lit(_) => None,
    }
}

/// The first redirects of the first `k` events, `n` at most.
pub open spec fn first_redirects(c: CoreData, k: int, n: nat) -> Seq<RedirectSwap>
    decreases k,
{
    if k <= 0 {
        Seq::empty()
    } else {
        let rest = first_redirects(c, k - 1, n);
        match first_redirect(c, k - 1) {
            Some(s) if rest.len() < n => rest.push(s),
            _ => rest,
        }
    }
}

/// Find up to `n` ref events with at least one valid redirect target:
/// the same predicate the side panel uses when listing alternatives.
pub fn find_redirect_swaps(c: &CoreData, n: usize) -> (out: Vec<RedirectSwap>)
    requires
        c.wf(),
    ensures
        out@ == first_redirects(*c, c.events@.len() as int, n as nat),
{
    let mut out: Vec<RedirectSwap> = Vec::new();
    let mut k: usize = 0;
    while k < c.events.len()
        invariant
            k <= c.events@.len(),
            c.wf(),
            out@ == first_redirects(*c, k as int, n as nat),
        decreases c.events@.len() - k,
    {
        if out.len() < n {
            if let Event::Ref(r) = c.events[k] {
                assert(c.events@[k as int] == Event::Ref(r));
                assert(r.src_out_pos < r.out_pos);
                let block: u32 = block_at(c, k);
                let alts: Vec<DistAlt> = valid_dist_alts(
                    block,
                    r.dist_sym,
                    r.out_pos,
                    r.src_out_pos,
                    c.dist_encs.as_slice(),
                );
                if alts.len() > 0 {
                    let alt: DistAlt = alts[0];
                    if let Some(sc) = c.dist_encs[block as usize].get(alt.dist_sym as u16) {
                        out.push(
                            RedirectSwap {
                                event_idx: k,
                                bit_start: r.dist_bit_start,
                                code_len: sc.len,
                                new_code: sc.code,
                                out_pos: r.out_pos,
                                copy_len: r.copy_len as usize,
                                old_src: r.src_out_pos,
                                old_dist_sym: r.dist_sym,
                                new_src: alt.src_out_pos,
                                new_dist_sym: alt.dist_sym,
                            },
                        );
                    }
                }
            }
        }
        k = k + 1;
    }
    out
}

// Filter passes.

/// The text of row `i` (counted from zero) that a pass searches.
pub open spec fn plain_row(row: RowView, i: nat, is_lit: bool) -> Seq<char> {
    let head = padded(i + 1, 5) + "  ("@ + padded(row.x as nat, 4) + ","@ + padded(row.y as nat, 4);
    if is_lit {
        head + ")  #"@ + numeral(row.rgb[0] as nat, 16, 2) + numeral(row.rgb[1] as nat, 16, 2)
            + numeral(row.rgb[2] as nat, 16, 2)
    } else {
        head + ")  d=    0 len=0"@
    }
}

/// Test a single row against a generic needle. Needle is expected to be
/// already lower-cased. Returns true if the formatted row text contains the
/// needle.
pub fn row_matches_generic(row: &PixelRow, i: u32, is_lit: bool, needle: &str) -> (r: bool)
    ensures
        r == (needle@.len() == 0 || contains_text(
            lower(plain_row(row@, i as nat, is_lit)),
            needle@,
        )),
{
    if needle.unicode_len() == 0 {
        return true;
    }
    let mut s: String = String::new();
    push_padded(&mut s, i as u64 + 1, 5);
    assert(s@ =~= padded((i + 1) as nat, 5));
    s.append("  (");
    push_padded(&mut s, row.x() as u64, 4);
    s.append(",");
    push_padded(&mut s, row.y() as u64, 4);
    if is_lit {
        s.append(")  #");
        push_numeral(&mut s, row.rgb[0] as u64, 16, 2);
        push_numeral(&mut s, row.rgb[1] as u64, 16, 2);
        push_numeral(&mut s, row.rgb[2] as u64, 16, 2);
    } else {
        s.append(")  d=    0 len=0");
    }
    let low: String = ascii_lowercase(s.as_str());
    text_contains(low.as_str(), needle)
}

/// How many of the first `n` rows pass.
pub open spec fn passing_rows(
    rows: Seq<PixelRow>,
    is_lit: bool,
    needle: Seq<char>,
    editable: bool,
    n: int,
) -> nat
    decreases n,
{
    if n <= 0 {
        0
    } else {
        let row = rows[n - 1]@;
        passing_rows(rows, is_lit, needle, editable, n - 1) + (if (editable ==> row.has_edit) && (
        needle.len() == 0 || contains_text(lower(plain_row(row, (n - 1) as nat, is_lit)), needle)) {
            1nat
        } else {
            0
        })
    }
}

fn count_rows(rows: &[PixelRow], is_lit: bool, needle: &str, editable_only: bool) -> (r: usize)
    requires
        rows@.len() <= u32::MAX,
    ensures
        r == passing_rows(rows@, is_lit, needle@, editable_only, rows@.len() as int),
        r <= rows@.len(),
{
    let mut count: usize = 0;
    let mut i: usize = 0;
    while i < rows.len()
        invariant
            i <= rows@.len() <= u32::MAX,
            count <= i,
            count == passing_rows(rows@, is_lit, needle@, editable_only, i as int),
        decreases rows@.len() - i,
    {
        let row: PixelRow = rows[i];
        if (!editable_only || row.has_edit) && row_matches_generic(
            &row,
            i as u32,
            is_lit,
            needle,
        ) {
            count = count + 1;
        }
        i = i + 1;
    }
    count
}

/// One filter keystroke over both lists: how many rows hold the text.
pub fn run_filter(pi: &PixelIndex, text: &str, editable_only: bool) -> (r: usize)
    requires
        pi.lit@.len() + pi.refs@.len() <= u32::MAX,
    ensures
        r == passing_rows(pi.lit@, true, lower(text@), editable_only, pi.lit@.len() as int)
            + passing_rows(pi.refs@, false, lower(text@), editable_only, pi.refs@.len() as int),
{
    let needle: String = ascii_lowercase(text);
    let lits: usize = count_rows(pi.lit.as_slice(), true, needle.as_str(), editable_only);
    let refs: usize = count_rows(pi.refs.as_slice(), false, needle.as_str(), editable_only);
    lits + refs
}

} // verus!
