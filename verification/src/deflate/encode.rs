//! DEFLATE serialization, the inverse of [`super::decoder::decode_deflate`].
//!
//! Emits a raw DEFLATE stream (no zlib wrapper) three ways:
//! - [`serialize_stored`]: BTYPE=00 uncompressed blocks from raw bytes, one
//!   per 65535-byte run.
//! - [`serialize_fixed`]: single BTYPE=01 fixed-Huffman block from an
//!   [`Event`] stream, preserving its back-references.

use vstd::arithmetic::power2::lemma2_to64;
use vstd::prelude::*;

use super::canonical::{check_lengths, enc_of, kraft, lemma_max_len, max_len};
use super::constants::{base_index, lemma_base_index, symbol_index, DBASE, DEXT, LBASE, LEXT};
use super::decoder::fixed_code_lengths;
use super::events::{EncTable, Event, SymCode};
use super::huffman::build_tree;
use super::inflate_spec::{fixed_dist_lengths, fixed_lit_lengths};
use super::stream_spec::{
    body_bits, event_bits, events_bits, fixed_stream, lit_symbol, stored_header, stored_stream,
    writable_event, writable_events,
};
use super::writer::DeflateWriter;
use crate::bitstream::pack_bits;

verus! {

/// Map a copy length (3..=258) to its `(length symbol, extra value, extra
/// bit count)`. The on-wire literal-alphabet symbol is `257 + i`.
pub fn length_to_sym(len: u16) -> (r: (u16, u32, u32))
    requires
        len >= 3,
    ensures
        r.0 == 257 + base_index(LBASE@, len as nat),
        r.1 == len - LBASE@[base_index(LBASE@, len as nat)],
        r.2 == LEXT@[base_index(LBASE@, len as nat)],
        257 <= r.0 <= 285,
        r.2 <= 5,
{
    proof {
        lemma_base_index(LBASE@, len as nat);
    }
    let i: usize = symbol_index(LBASE.as_slice(), len as u32);
    assert(LEXT@[i as int] <= 5);
    (257 + i as u16, len as u32 - LBASE[i], LEXT[i])
}

proof fn lemma_fixed_lit_kraft(n: int)
    requires
        0 <= n <= 288,
    ensures
        kraft(fixed_lit_lengths().take(n), 9) == (if n <= 144 {
            2 * n
        } else if n <= 256 {
            288 + (n - 144)
        } else if n <= 280 {
            400 + 4 * (n - 256)
        } else {
            496 + 2 * (n - 280)
        }),
    decreases n,
{
    lemma2_to64();
    if n > 0 {
        lemma_fixed_lit_kraft(n - 1);
        let t = fixed_lit_lengths().take(n);
        assert(t.drop_last() =~= fixed_lit_lengths().take(n - 1));
        assert(t.last() == fixed_lit_lengths()[n - 1]);
    }
}

proof fn lemma_fixed_dist_kraft(n: int)
    requires
        0 <= n <= 32,
    ensures
        kraft(fixed_dist_lengths().take(n), 5) == n,
    decreases n,
{
    lemma2_to64();
    if n > 0 {
        lemma_fixed_dist_kraft(n - 1);
        let t = fixed_dist_lengths().take(n);
        assert(t.drop_last() =~= fixed_dist_lengths().take(n - 1));
        assert(t.last() == 5);
    }
}

/// The fixed codes are complete.
pub proof fn lemma_fixed_lengths_valid()
    ensures
        check_lengths(fixed_lit_lengths()) is Ok,
        check_lengths(fixed_dist_lengths()) is Ok,
        max_len(fixed_lit_lengths()) == 9,
        max_len(fixed_dist_lengths()) == 5,
{
    lemma2_to64();
    let ll = fixed_lit_lengths();
    let dl = fixed_dist_lengths();
    lemma_max_len(ll);
    lemma_max_len(dl);
    assert(ll[144] == 9 && dl[0] == 5);
    assert(forall|s: int| 0 <= s < ll.len() ==> #[trigger] ll[s] <= 9);
    lemma_fixed_lit_kraft(288);
    assert(ll.take(288) =~= ll);
    lemma_fixed_dist_kraft(32);
    assert(dl.take(32) =~= dl);
}

/// The fixed lit/dist Huffman encoder tables (RFC 1951 §3.2.6), built once
/// per call from the shared [`fixed_code_lengths`].
pub fn fixed_tables() -> (r: (EncTable, EncTable))
    ensures
        r.0@ == enc_of(fixed_lit_lengths()),
        r.1@ == enc_of(fixed_dist_lengths()),
{
    let (ll, dl) = fixed_code_lengths();
    proof {
        lemma_fixed_lengths_valid();
    }
    match (build_tree(ll.as_slice()), build_tree(dl.as_slice())) {
        (Ok((_, lit_enc)), Ok((_, dist_enc))) => (lit_enc, dist_enc),
        _ => {
            assert(false);
            (EncTable::new(0), EncTable::new(0))
        },
    }
}

/// Every symbol that an event needs has a code of at most 15 bits.
pub open spec fn event_coded(lit: Seq<SymCode>, dist: Seq<SymCode>, e: Event) -> bool {
    &&& 0 <= lit_symbol(e) < lit.len()
    &&& 1 <= lit[lit_symbol(e)].len <= 15
    &&& e matches Event::Ref(r) ==> r.dist_sym < dist.len() && 1 <= dist[r.dist_sym as int].len
        <= 15
}

/// Emit an [`Event`] stream followed by the end-of-block symbol, using
/// `lit_enc` for literals and length symbols and `dist_enc` for distances.
/// Shared by the fixed- and dynamic-Huffman serializers.
pub fn write_events(
    w: &mut DeflateWriter,
    events: &[Event],
    lit_enc: &EncTable,
    dist_enc: &EncTable,
)
    requires
        old(w).wf(),
        writable_events(events@),
        forall|k: int|
            0 <= k < events@.len() ==> event_coded(lit_enc@, dist_enc@, #[trigger] events@[k]),
        lit_enc@.len() > 256,
        1 <= lit_enc@[256].len <= 15,
    ensures
        final(w).wf(),
        final(w)@ == old(w)@ + body_bits(lit_enc@, dist_enc@, events@),
{
    let mut k: usize = 0;
    proof {
        assert(events@.take(0) =~= Seq::<Event>::empty());
        assert(w@ =~= w@ + events_bits(lit_enc@, dist_enc@, events@.take(0)));
    }
    while k < events.len()
        invariant
            k <= events@.len(),
            w.wf(),
            writable_events(events@),
            forall|j: int|
                0 <= j < events@.len() ==> event_coded(lit_enc@, dist_enc@, #[trigger] events@[j]),
            w@ == old(w)@ + events_bits(lit_enc@, dist_enc@, events@.take(k as int)),
        decreases events@.len() - k,
    {
        let ghost sofar = w@;
        let e = events[k];
        assert(writable_event(events@[k as int]));
        assert(event_coded(lit_enc@, dist_enc@, events@[k as int]));
        match e {
            Event::Lit(l) => {
                if let Some(sc) = lit_enc.get(l.symbol as u16) {
                    w.write_code(sc);
                }
            },
            Event::Ref(r) => {
                let (lsym, lextra, lnbits) = length_to_sym(r.copy_len);
                if let Some(sc) = lit_enc.get(lsym) {
                    w.write_code(sc);
                }
                w.write_lsb(lextra, lnbits);
                if let Some(sc) = dist_enc.get(r.dist_sym as u16) {
                    w.write_code(sc);
                }
                let dist: u32 = r.out_pos - r.src_out_pos;
                let d: usize = r.dist_sym as usize;
                assert(DEXT@[d as int] <= 13);
                w.write_lsb(dist - DBASE[d], DEXT[d]);
            },
        }
        proof {
            assert(w@ =~= sofar + event_bits(lit_enc@, dist_enc@, e));
            assert(events@.take(k + 1).drop_last() =~= events@.take(k as int));
            assert(w@ =~= old(w)@ + events_bits(lit_enc@, dist_enc@, events@.take(k + 1)));
        }
        k = k + 1;
    }
    if let Some(sc) = lit_enc.get(256) {
        w.write_code(sc);
    }
    proof {
        assert(events@.take(events@.len() as int) =~= events@);
        assert(w@ =~= old(w)@ + body_bits(lit_enc@, dist_enc@, events@));
    }
}

/// Serialize `output` as a chain of uncompressed (BTYPE=00) blocks, one per
/// 65535-byte run. Correct for any bytes; no compression.
pub fn serialize_stored(output: &[u8]) -> (r: Vec<u8>)
    ensures
        r@ == stored_stream(output@),
{
    let mut out: Vec<u8> = Vec::new();
    let mut start: usize = 0;
    proof {
        assert(output@.subrange(0, output@.len() as int) =~= output@);
    }
    loop
        invariant_except_break
            start <= output@.len(),
            out@ + stored_stream(output@.subrange(start as int, output@.len() as int))
                == stored_stream(output@),
        ensures
            out@ == stored_stream(output@),
        decreases output@.len() - start,
    {
        let left: usize = output.len() - start;
        let is_final = left <= 0xFFFF;
        let len: usize = if is_final {
            left
        } else {
            0xFFFF
        };
        let ghost before = out@;
        let ghost rest = output@.subrange(start as int, output@.len() as int);
        out.push(
            if is_final {
                1
            } else {
                0
            },
        );
        out.push((len % 256) as u8);
        out.push((len / 256) as u8);
        out.push((255 - len % 256) as u8);
        out.push((255 - len / 256) as u8);
        out.extend_from_slice(vstd::slice::slice_subrange(output, start, start + len));
        proof {
            assert(out@ =~= before + stored_header(is_final, len as nat) + output@.subrange(
                start as int,
                start + len,
            ));
            assert(output@.subrange(start as int, start + len) =~= rest.take(len as int));
        }
        if is_final {
            proof {
                assert(rest.take(len as int) =~= rest);
                assert(out@ =~= before + stored_stream(rest));
            }
            break;
        }
        proof {
            let after = output@.subrange(start + len, output@.len() as int);
            assert(rest.subrange(0xFFFF, rest.len() as int) =~= after);
            assert(out@ + stored_stream(after) =~= before + stored_stream(rest));
        }
        start = start + len;
    }
    out
}

/// Serialize an [`Event`] stream as a single fixed-Huffman (BTYPE=01)
/// block, preserving its literals and back-references.
pub fn serialize_fixed(events: &[Event]) -> (r: Vec<u8>)
    requires
        writable_events(events@),
    ensures
        r@ == pack_bits(fixed_stream(events@)),
{
    let (lit_enc, dist_enc) = fixed_tables();
    let mut w = DeflateWriter::new();
    w.write_lsb(1, 1);  // BFINAL = 1 (single block)
    w.write_lsb(1, 2);  // BTYPE = 01 (fixed Huffman)
    proof {
        assert forall|k: int| 0 <= k < events@.len() implies event_coded(
            lit_enc@,
            dist_enc@,
            #[trigger] events@[k],
        ) by {
            assert(writable_event(events@[k]));
            if let Event::Ref(r) = events@[k] {
                lemma_base_index(LBASE@, r.copy_len as nat);
            }
        }
    }
    let ghost head = w@;
    write_events(&mut w, events, &lit_enc, &dist_enc);
    proof {
        assert(w@ =~= fixed_stream(events@));
    }
    w.finish()
}

} // verus!
