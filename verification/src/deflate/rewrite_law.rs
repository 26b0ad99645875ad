//! Rewriting a code in place: what a stream decodes to after codes of some
//! events were replaced by codes of the same length.
//!
//! Both decodes run in step: every symbol stands where it stood, so the same
//! blocks, tables and positions come out, and only the events whose codes were
//! replaced differ.

use vstd::prelude::*;

use super::canonical::{
    check_lengths, code_bits, decode_symbol, enc_of, law_decode_symbol_of_code, lemma_code_fits,
    symbol_at,
};
use super::constants::{DBASE, DEXT, LBASE, LEXT};
use super::decoder::{
    lemma_blocks_advance, lemma_field_bound, lemma_huffman_block_advances, lemma_length_run,
    lemma_one_block, lemma_step_grows, lemma_stored_bytes,
};
use super::error::DecodeError;
use super::events::{block_index, code_len, lemma_block_index, no_codes, sym_code, Event, SymCode};
use super::replay_law::lemma_copy_back_len;
use super::inflate_spec::{
    all_blocks, bits_ahead, block_lengths, copy_step, decode_spec, field, huffman_block,
    huffman_step, length_run, length_step, meta_lengths, nothing_decoded, one_block, output_cap,
    stored_bytes, with_copy, with_literal, Decoded, Progress, Step,
};
use crate::bitstream::{bit_at, bits_at, byte_aligned, msb_bits, skip_bits};

verus! {

// What a decode reads.

/// The same bits from `from` up to `to`.
pub open spec fn same_bits(a: Seq<u8>, b: Seq<u8>, from: int, to: int) -> bool {
    forall|p: int| from <= p < to ==> #[trigger] bit_at(a, p) == bit_at(b, p)
}

/// Two streams of a size whose bits can be counted.
pub open spec fn same_size(a: Seq<u8>, b: Seq<u8>) -> bool {
    a.len() == b.len() && 8 * a.len() <= usize::MAX
}

/// Past the end there are no set bits.
proof fn lemma_past_end(a: Seq<u8>, p: int)
    requires
        p >= 8 * a.len(),
    ensures
        !bit_at(a, p),
{
    assert(p / 8 >= a.len());
}

proof fn lemma_bits_same(a: Seq<u8>, b: Seq<u8>, pos: nat, n: nat)
    requires
        same_size(a, b),
        same_bits(a, b, pos as int, skip_bits(pos, n) as int),
    ensures
        bits_at(a, pos as int, n) == bits_at(b, pos as int, n),
        field(a, pos, n) == field(b, pos, n),
{
    let (x, y) = (bits_at(a, pos as int, n), bits_at(b, pos as int, n));
    assert forall|i: int| 0 <= i < n implies #[trigger] x[i] == y[i] by {
        assert(bit_at(a, pos + i) == x[i]);
        if pos + i >= skip_bits(pos, n) {
            lemma_past_end(a, pos + i);
            lemma_past_end(b, pos + i);
        }
    }
    assert(x =~= y);
}

proof fn lemma_symbol_same(lengths: Seq<u32>, a: Seq<u8>, b: Seq<u8>, pos: nat)
    requires
        same_size(a, b),
        check_lengths(lengths) is Ok,
        decode_symbol(lengths, a, pos) matches Ok((_, next)) && same_bits(
            a,
            b,
            pos as int,
            next as int,
        ),
    ensures
        decode_symbol(lengths, b, pos) == decode_symbol(lengths, a, pos),
{
    let s = choose|s: int| symbol_at(lengths, a, pos as int, s);
    lemma_bits_same(a, b, pos, lengths[s] as nat);
    assert(symbol_at(lengths, b, pos as int, s));
    law_decode_symbol_of_code(lengths, b, pos, s);
}

proof fn lemma_meta_same(a: Seq<u8>, b: Seq<u8>, pos: nat, n: nat)
    requires
        same_size(a, b),
        same_bits(a, b, pos as int, skip_bits(pos, 3 * n) as int),
    ensures
        meta_lengths(a, pos, n) == meta_lengths(b, pos, n),
    decreases n,
{
    if n > 0 {
        lemma_meta_same(a, b, pos, (n - 1) as nat);
        lemma_bits_same(a, b, skip_bits(pos, (3 * (n - 1)) as nat), 3);
    }
}

proof fn lemma_run_same(
    meta: Seq<u32>,
    a: Seq<u8>,
    b: Seq<u8>,
    pos: nat,
    acc: Seq<u32>,
    total: nat,
)
    requires
        same_size(a, b),
        pos <= usize::MAX,
        check_lengths(meta) is Ok,
        length_run(meta, a, pos, acc, total) matches Ok((_, next)) && same_bits(
            a,
            b,
            pos as int,
            next as int,
        ),
    ensures
        length_run(meta, b, pos, acc, total) == length_run(meta, a, pos, acc, total),
        length_run(meta, a, pos, acc, total) matches Ok((all, _)) && all.len() <= (if acc.len()
            < total {
            total + 138
        } else {
            acc.len()
        }),
    decreases
            (if acc.len() < total {
                total - acc.len()
            } else {
                0
            }),
{
    if acc.len() < total {
        match decode_symbol(meta, a, pos) {
            Ok((sym, next)) => {
                let (acc2, pos2) = length_step(a, next, acc, sym);
                lemma_length_run(meta, a, pos2, acc2, total);
                lemma_symbol_same(meta, a, b, pos);
                vstd::arithmetic::power2::lemma2_to64();
                lemma_field_bound(a, next, 2);
                lemma_field_bound(a, next, 3);
                lemma_field_bound(a, next, 7);
                if sym == 16 {
                    lemma_bits_same(a, b, next, 2);
                } else if sym == 17 {
                    lemma_bits_same(a, b, next, 3);
                } else if sym > 17 {
                    lemma_bits_same(a, b, next, 7);
                }
                if acc2.len() < total {
                    lemma_run_same(meta, a, b, pos2, acc2, total);
                }
            },
            Err(_) => {},
        }
    }
}

/// The code lengths of a block are read from the bits in front of its body.
proof fn lemma_lengths_same(a: Seq<u8>, b: Seq<u8>, pos: nat, block_type: nat)
    requires
        same_size(a, b),
        pos <= usize::MAX,
        block_lengths(a, pos, block_type) matches Ok((_, _, body)) && same_bits(
            a,
            b,
            pos as int,
            body as int,
        ),
    ensures
        block_lengths(b, pos, block_type) == block_lengths(a, pos, block_type),
        block_lengths(a, pos, block_type) matches Ok((lit, dist, body)) && lit.len() <= 0x1_0000
            && dist.len() <= 0x1_0000 && pos <= body <= usize::MAX,
{
    if block_type != 1 {
        vstd::arithmetic::power2::lemma2_to64();
        let hlit = field(a, pos, 5) + 257;
        let pos1 = skip_bits(pos, 5);
        let hdist = field(a, pos1, 5) + 1;
        let pos2 = skip_bits(pos1, 5);
        let hclen = field(a, pos2, 4) + 4;
        let pos3 = skip_bits(pos2, 4);
        let meta = meta_lengths(a, pos3, hclen);
        let start = skip_bits(pos3, 3 * hclen);
        lemma_field_bound(a, pos, 5);
        lemma_field_bound(a, pos1, 5);
        lemma_length_run(meta, a, start, Seq::empty(), hlit + hdist);
        lemma_bits_same(a, b, pos, 5);
        lemma_bits_same(a, b, pos1, 5);
        lemma_bits_same(a, b, pos2, 4);
        lemma_meta_same(a, b, pos3, hclen);
        lemma_run_same(meta, a, b, start, Seq::empty(), hlit + hdist);
    }
}

// Which codes may stand for which.

/// Where the rewritable code of an event starts: a literal's code, or a
/// back-reference's distance code.
pub open spec fn site_pos(e: Event) -> int {
    match e {
        Event::Lit(l) => l.bit_start as int,
        Event::Ref(r) => r.dist_bit_start as int,
    }
}

/// The symbol of that code.
pub open spec fn site_symbol(e: Event) -> int {
    match e {
        Event::Lit(l) => l.symbol as int,
        Event::Ref(r) => r.dist_sym as int,
    }
}

/// The table of that code: that of the event's block.
pub open spec fn site_table(d: Decoded, k: int) -> Seq<SymCode> {
    let b = block_index(d.block_starts, k);
    match d.progress.events[k] {
        Event::Lit(_) => d.lit_encs[b],
        Event::Ref(_) => d.dist_encs[b],
    }
}

/// The length of that code.
pub open spec fn site_len(d: Decoded, k: int) -> int {
    code_len(site_table(d, k), site_symbol(d.progress.events[k])) as int
}

/// `e` differs from event `k` in the symbol alone: another literal, or another
/// distance symbol with as many extra bits and the source that these then give.
/// Both symbols have codes of the same length.
pub open spec fn stands_for(d: Decoded, k: int, e: Event) -> bool {
    let table = site_table(d, k);
    &&& sym_code(table, site_symbol(e)) is Some
    &&& code_len(table, site_symbol(e)) == site_len(d, k)
    &&& match (d.progress.events[k], e) {
        (Event::Lit(l), Event::Lit(m)) => m.out_pos == l.out_pos && m.bit_start == l.bit_start,
        (Event::Ref(r), Event::Ref(q)) => {
            &&& q.out_pos == r.out_pos
            &&& q.copy_len == r.copy_len
            &&& q.dist_bit_start == r.dist_bit_start
            &&& q.dist_sym < 30
            &&& r.dist_sym < 30
            &&& DEXT@[q.dist_sym as int] == DEXT@[r.dist_sym as int]
            &&& q.src_out_pos + DBASE@[q.dist_sym as int] == r.src_out_pos + DBASE@[r.dist_sym as int]
        },
        _ => false,
    }
}

/// The code of `e` stands where that of event `k` stood.
pub open spec fn code_written(data: Seq<u8>, d: Decoded, k: int, e: Event) -> bool {
    let code = site_table(d, k)[site_symbol(e)];
    bits_at(data, site_pos(e), code.len as nat) == msb_bits(code.code as nat, code.len as nat)
}

/// Bit `p` lies in the code of event `k`.
pub open spec fn in_site(d: Decoded, k: int, p: int) -> bool {
    let at = site_pos(d.progress.events[k]);
    at <= p < at + site_len(d, k)
}

/// Event `k` is not what it was.
pub open spec fn changed(d: Decoded, events: Seq<Event>, k: int) -> bool {
    0 <= k < events.len() && events[k] != d.progress.events[k]
}

/// `after` is `before`, which decodes to `d`, with the codes of some events
/// replaced, so that the events should be `events`.
pub open spec fn is_recoded(
    before: Seq<u8>,
    after: Seq<u8>,
    d: Decoded,
    events: Seq<Event>,
) -> bool {
    &&& after.len() == before.len()
    &&& events.len() == d.progress.events.len()
    &&& forall|k: int| #[trigger]
        changed(d, events, k) ==> stands_for(d, k, events[k]) && code_written(
            after,
            d,
            k,
            events[k],
        )
    &&& forall|p: int| #[trigger]
        bit_at(before, p) != bit_at(after, p) ==> exists|k: int| #[trigger]
            changed(d, events, k) && in_site(d, k, p)
}

// One symbol.

proof fn lemma_table_entry(lengths: Seq<u32>, s: int)
    requires
        check_lengths(lengths) is Ok,
        sym_code(enc_of(lengths), s) is Some,
    ensures
        0 <= s < lengths.len(),
        0 < lengths[s] <= 15,
        enc_of(lengths)[s].len == lengths[s],
        code_len(enc_of(lengths), s) == lengths[s],
        msb_bits(enc_of(lengths)[s].code as nat, lengths[s] as nat) == code_bits(lengths, s),
{
    if lengths[s] > 0 {
        lemma_code_fits(lengths, s);
    }
}

/// A symbol that was read has a code, and the position moved on by its length.
proof fn lemma_symbol_read(lengths: Seq<u32>, data: Seq<u8>, pos: nat)
    requires
        check_lengths(lengths) is Ok,
        lengths.len() <= 0x1_0000,
        decode_symbol(lengths, data, pos) is Ok,
    ensures
        decode_symbol(lengths, data, pos) matches Ok((s, next)) && s < lengths.len() && 0
            < lengths[s as int] <= 15 && next == skip_bits(pos, lengths[s as int] as nat)
            && code_len(enc_of(lengths), s as int) == lengths[s as int],
{
    let s = choose|s: int| symbol_at(lengths, data, pos as int, s);
    lemma_code_fits(lengths, s);
}

/// Where the code of symbol `t` stands in place of one as long, `t` is read and
/// the position moves on as before.
proof fn lemma_symbol_replaced(lengths: Seq<u32>, a: Seq<u8>, b: Seq<u8>, pos: nat, t: int)
    requires
        check_lengths(lengths) is Ok,
        lengths.len() <= 0x1_0000,
        decode_symbol(lengths, a, pos) matches Ok((s, _)) && code_len(
            enc_of(lengths),
            s as int,
        ) == code_len(enc_of(lengths), t),
        sym_code(enc_of(lengths), t) is Some,
        ({
            let code = enc_of(lengths)[t];
            bits_at(b, pos as int, code.len as nat) == msb_bits(code.code as nat, code.len as nat)
        }),
    ensures
        decode_symbol(lengths, a, pos) matches Ok((_, next)) && decode_symbol(lengths, b, pos)
            == Ok::<_, DecodeError>((t as u16, next)),
{
    lemma_symbol_read(lengths, a, pos);
    lemma_table_entry(lengths, t);
    assert(symbol_at(lengths, b, pos as int, t));
    law_decode_symbol_of_code(lengths, b, pos, t);
}

// One event.

/// Where two streams differ from `from` up to `to`, they differ in the changed
/// code of event `k`.
spec fn differs_at(
    a: Seq<u8>,
    b: Seq<u8>,
    d: Decoded,
    events: Seq<Event>,
    k: int,
    from: int,
    to: int,
) -> bool {
    forall|p: int|
        from <= p < to && #[trigger] bit_at(a, p) != bit_at(b, p) ==> changed(d, events, k)
            && in_site(d, k, p)
}

/// The table of event `k` is one of its block's.
spec fn table_is(d: Decoded, k: int, lit: Seq<u32>, dist: Seq<u32>) -> bool {
    site_table(d, k) == (match d.progress.events[k] {
        Event::Lit(_) => enc_of(lit),
        Event::Ref(_) => enc_of(dist),
    })
}

/// Two decodes that have come equally far.
spec fn level(x: Progress, y: Progress) -> bool {
    x.out.len() == y.out.len() && x.events.len() == y.events.len()
}

proof fn lemma_copy_in_step(
    dist: Seq<u32>,
    a: Seq<u8>,
    b: Seq<u8>,
    sym: u16,
    pos: nat,
    st: Progress,
    stb: Progress,
    max_output: Option<usize>,
    block_idx: u32,
    d: Decoded,
    events: Seq<Event>,
)
    requires
        same_size(a, b),
        pos <= usize::MAX,
        257 <= sym < 286,
        check_lengths(dist) is Ok,
        dist.len() <= 0x1_0000,
        is_recoded(a, b, d, events),
        level(st, stb),
        copy_step(dist, a, sym, pos, st, max_output, block_idx) matches Step::More(st1, next)
            && next <= u32::MAX && st1.out.len() <= u32::MAX && st.events.len()
            < d.progress.events.len() && d.progress.events[st.events.len() as int]
            == st1.events.last() && site_table(d, st.events.len() as int) == enc_of(dist)
            && differs_at(a, b, d, events, st.events.len() as int, pos as int, next as int),
    ensures
        copy_step(dist, a, sym, pos, st, max_output, block_idx) matches Step::More(st1, next) && (
        copy_step(dist, b, sym, pos, stb, max_output, block_idx) matches Step::More(st2, next2)
            && next2 == next && level(st1, st2) && st2.events == stb.events.push(
            events[st.events.len() as int],
        )),
{
    let k = st.events.len() as int;
    let i = sym - 257;
    let n_len = LEXT@[i] as nat;
    let copy_len = LBASE@[i] as nat + field(a, pos, n_len);
    let dist_pos = skip_bits(pos, n_len);
    lemma_symbol_read(dist, a, dist_pos);
    let (s, extra_pos) = decode_symbol(dist, a, dist_pos)->Ok_0;
    let n_ext = DEXT@[s as int] as nat;
    let distance = DBASE@[s as int] as nat + field(a, extra_pos, n_ext);
    let next = skip_bits(extra_pos, n_ext);
    let st1 = with_copy(st, dist_pos, copy_len, s, distance);
    assert(copy_step(dist, a, sym, pos, st, max_output, block_idx) == Step::More(st1, next));
    let r = st1.events.last()->Ref_0;
    assert(st1.events.last() == Event::Ref(r));
    assert(d.progress.events[k] == Event::Ref(r));
    assert(site_len(d, k) == dist[s as int]);
    lemma_copy_back_len(st.out, distance, copy_len);
    if changed(d, events, k) {
        let q = events[k]->Ref_0;
        assert(stands_for(d, k, events[k]));
        assert(events[k] == Event::Ref(q));
        assert(same_bits(a, b, pos as int, dist_pos as int));
        assert(same_bits(a, b, extra_pos as int, next as int));
        lemma_bits_same(a, b, pos, n_len);
        lemma_symbol_replaced(dist, a, b, dist_pos, q.dist_sym as int);
        lemma_bits_same(a, b, extra_pos, n_ext);
        let distance2 = DBASE@[q.dist_sym as int] as nat + field(b, extra_pos, n_ext);
        assert(q.src_out_pos == st.out.len() - distance2);
        lemma_copy_back_len(stb.out, distance2, copy_len);
        let st2 = with_copy(stb, dist_pos, copy_len, q.dist_sym as u16, distance2);
        assert(st2.events =~= stb.events.push(events[k]));
    } else {
        assert(same_bits(a, b, pos as int, next as int));
        assert(events[k] == Event::Ref(r));
        lemma_bits_same(a, b, pos, n_len);
        lemma_symbol_same(dist, a, b, dist_pos);
        lemma_bits_same(a, b, extra_pos, n_ext);
        lemma_copy_back_len(stb.out, distance, copy_len);
        let st2 = with_copy(stb, dist_pos, copy_len, s, distance);
        assert(st2.events =~= stb.events.push(events[k]));
    }
}

/// One step of both decodes.
proof fn lemma_step_in_step(
    lit: Seq<u32>,
    dist: Seq<u32>,
    a: Seq<u8>,
    b: Seq<u8>,
    pos: nat,
    st: Progress,
    stb: Progress,
    max_output: Option<usize>,
    block_idx: u32,
    d: Decoded,
    events: Seq<Event>,
)
    requires
        same_size(a, b),
        pos <= usize::MAX,
        check_lengths(lit) is Ok,
        check_lengths(dist) is Ok,
        lit.len() <= 0x1_0000,
        dist.len() <= 0x1_0000,
        is_recoded(a, b, d, events),
        level(st, stb),
        match huffman_step(lit, dist, a, pos, st, max_output, block_idx) {
            Step::Done(next) => same_bits(a, b, pos as int, next as int),
            Step::More(st1, next) => next <= u32::MAX && st1.out.len() <= u32::MAX
                && st.events.len() < d.progress.events.len()
                && d.progress.events[st.events.len() as int] == st1.events.last() && table_is(
                d,
                st.events.len() as int,
                lit,
                dist,
            ) && differs_at(a, b, d, events, st.events.len() as int, pos as int, next as int),
            Step::Fail(_) => false,
        },
    ensures
        match huffman_step(lit, dist, a, pos, st, max_output, block_idx) {
            Step::Done(next) => huffman_step(lit, dist, b, pos, stb, max_output, block_idx)
                == Step::Done(next),
            Step::More(st1, next) => huffman_step(
                lit,
                dist,
                b,
                pos,
                stb,
                max_output,
                block_idx,
            ) matches Step::More(st2, next2) && next2 == next && level(st1, st2) && st2.events
                == stb.events.push(events[st.events.len() as int]),
            Step::Fail(_) => false,
        },
{
    reveal(huffman_step);
    lemma_step_grows(lit, dist, a, pos, st, max_output, block_idx);
    lemma_symbol_read(lit, a, pos);
    let (sym, next) = decode_symbol(lit, a, pos)->Ok_0;
    let k = st.events.len() as int;
    if sym == 256 {
        lemma_symbol_same(lit, a, b, pos);
    } else if sym < 256 {
        let st1 = with_literal(st, pos, sym as u8);
        let e = st1.events.last();
        assert(site_len(d, k) == lit[sym as int]);
        if changed(d, events, k) {
            assert(stands_for(d, k, events[k]));
            let m = events[k]->Lit_0;
            assert(events[k] == Event::Lit(m));
            lemma_symbol_replaced(lit, a, b, pos, m.symbol as int);
            assert(with_literal(stb, pos, m.symbol).events =~= stb.events.push(events[k]));
        } else {
            assert(same_bits(a, b, pos as int, next as int));
            lemma_symbol_same(lit, a, b, pos);
            assert(with_literal(stb, pos, sym as u8).events =~= stb.events.push(events[k]));
        }
    } else {
        let next2 = huffman_step(lit, dist, a, pos, st, max_output, block_idx)->More_1;
        let i = sym - 257;
        let dist_pos = skip_bits(next, LEXT@[i] as nat);
        lemma_symbol_read(dist, a, dist_pos);
        let st1 = huffman_step(lit, dist, a, pos, st, max_output, block_idx)->More_0;
        assert(st1.events.last() is Ref);
        assert(st1.events.last()->Ref_0.dist_bit_start == dist_pos);
        assert(same_bits(a, b, pos as int, next as int));
        lemma_symbol_same(lit, a, b, pos);
        assert(differs_at(a, b, d, events, k, next as int, next2 as int));
        lemma_copy_in_step(
            dist,
            a,
            b,
            sym,
            next,
            st,
            stb,
            max_output,
            block_idx,
            d,
            events,
        );
    }
}

// Blocks.

/// One state grew out of another: its events begin with the other's, each new
/// one wrote at least a byte, and has its code at or behind bit `pos`.
#[verifier::opaque]
spec fn grew(st: Progress, e: Progress, pos: int) -> bool {
    &&& st.events.len() <= e.events.len()
    &&& e.events.take(st.events.len() as int) == st.events
    &&& e.events.len() - st.events.len() <= e.out.len() - st.out.len()
    &&& forall|j: int| st.events.len() <= j < e.events.len() ==> site_pos(#[trigger] e.events[j]) >= pos
}

proof fn lemma_grew_self(st: Progress, pos: int)
    ensures
        grew(st, st, pos),
{
    reveal(grew);
    assert(st.events.take(st.events.len() as int) =~= st.events);
}

proof fn lemma_grew_on(st: Progress, mid: Progress, e: Progress, pos: int, pos1: int)
    requires
        grew(st, mid, pos),
        grew(mid, e, pos1),
        pos <= pos1,
    ensures
        grew(st, e, pos),
{
    reveal(grew);
    assert(e.events.take(st.events.len() as int) =~= mid.events.take(st.events.len() as int));
    assert forall|j: int| st.events.len() <= j < e.events.len() implies site_pos(
        #[trigger] e.events[j],
    ) >= pos by {
        if j < mid.events.len() {
            assert(e.events.take(mid.events.len() as int)[j] == mid.events[j]);
        }
    }
}

/// A step's event has its code between the step's ends.
proof fn lemma_step_site(
    lit: Seq<u32>,
    dist: Seq<u32>,
    data: Seq<u8>,
    pos: nat,
    st: Progress,
    max_output: Option<usize>,
    block_idx: u32,
)
    requires
        pos <= usize::MAX,
        check_lengths(lit) is Ok,
        check_lengths(dist) is Ok,
        lit.len() <= 0x1_0000,
        dist.len() <= 0x1_0000,
        huffman_step(lit, dist, data, pos, st, max_output, block_idx) matches Step::More(_, next)
            && next <= u32::MAX,
    ensures
        huffman_step(lit, dist, data, pos, st, max_output, block_idx) matches Step::More(st1, next)
            && grew(st, st1, pos as int) && st1.events.len() == st.events.len() + 1 && ({
            let e = st1.events.last();
            let len = code_len(
                match e {
                    Event::Lit(_) => enc_of(lit),
                    Event::Ref(_) => enc_of(dist),
                },
                site_symbol(e),
            );
            skip_bits(site_pos(e) as nat, len as nat) <= next
        }),
{
    reveal(huffman_step);
    reveal(grew);
    lemma_step_grows(lit, dist, data, pos, st, max_output, block_idx);
    lemma_symbol_read(lit, data, pos);
    let (sym, next) = decode_symbol(lit, data, pos)->Ok_0;
    let st1 = huffman_step(lit, dist, data, pos, st, max_output, block_idx)->More_0;
    if sym > 256 {
        let dist_pos = skip_bits(next, LEXT@[sym - 257] as nat);
        lemma_symbol_read(dist, data, dist_pos);
    }
    assert(st1.events.take(st.events.len() as int) =~= st.events);
}

proof fn lemma_huffman_grew(
    lit: Seq<u32>,
    dist: Seq<u32>,
    data: Seq<u8>,
    pos: nat,
    st: Progress,
    max_output: Option<usize>,
    block_idx: u32,
)
    requires
        pos <= usize::MAX,
        check_lengths(lit) is Ok,
        check_lengths(dist) is Ok,
        lit.len() <= 0x1_0000,
        dist.len() <= 0x1_0000,
        huffman_block(lit, dist, data, pos, st, max_output, block_idx) matches Ok((_, next))
            && next <= u32::MAX,
    ensures
        huffman_block(lit, dist, data, pos, st, max_output, block_idx) matches Ok((e, next)) && grew(
            st,
            e,
            pos as int,
        ) && pos <= next && st.out.len() <= e.out.len(),
    decreases output_cap(max_output) - st.out.len(),
{
    lemma_step_grows(lit, dist, data, pos, st, max_output, block_idx);
    lemma_huffman_block_advances(lit, dist, data, pos, st, max_output, block_idx);
    match huffman_step(lit, dist, data, pos, st, max_output, block_idx) {
        Step::Done(_) => {
            lemma_grew_self(st, pos as int);
        },
        Step::More(st1, n1) => {
            lemma_huffman_block_advances(lit, dist, data, n1, st1, max_output, block_idx);
            lemma_huffman_grew(lit, dist, data, n1, st1, max_output, block_idx);
            lemma_step_site(lit, dist, data, pos, st, max_output, block_idx);
            let e = huffman_block(lit, dist, data, n1, st1, max_output, block_idx)->Ok_0.0;
            lemma_grew_on(st, st1, e, pos as int, n1 as int);
        },
        Step::Fail(_) => {},
    }
}

/// The changed codes of the events before `k` lie before bit `pos`.
spec fn settled(
    a: Seq<u8>,
    b: Seq<u8>,
    d: Decoded,
    events: Seq<Event>,
    k: int,
    pos: int,
) -> bool {
    forall|j: int, p: int|
        0 <= j < k && #[trigger] changed(d, events, j) && #[trigger] in_site(d, j, p) && bit_at(
            a,
            p,
        ) != bit_at(b, p) ==> p < pos
}

/// The codes of the events from `k` on lie at or behind bit `pos`.
spec fn to_come(d: Decoded, k: int, pos: int) -> bool {
    forall|j: int|
        k <= j < d.progress.events.len() ==> site_pos(#[trigger] d.progress.events[j]) >= pos
}

/// The events of `e` are the first of `d`'s.
spec fn leads(e: Progress, d: Decoded) -> bool {
    e.events.len() <= d.progress.events.len() && d.progress.events.take(e.events.len() as int)
        == e.events
}

/// Where the two streams differ, it is in a changed code.
proof fn lemma_difference(a: Seq<u8>, b: Seq<u8>, d: Decoded, events: Seq<Event>, p: int) -> (j:
    int)
    requires
        is_recoded(a, b, d, events),
        bit_at(a, p) != bit_at(b, p),
    ensures
        changed(d, events, j),
        in_site(d, j, p),
        0 <= j < d.progress.events.len(),
        site_pos(d.progress.events[j]) <= p < 8 * a.len(),
{
    if p >= 8 * a.len() {
        lemma_past_end(a, p);
        lemma_past_end(b, p);
    }
    choose|k: int| #[trigger] changed(d, events, k) && in_site(d, k, p)
}

/// Between settled codes and those to come nothing differs.
proof fn lemma_quiet(
    a: Seq<u8>,
    b: Seq<u8>,
    d: Decoded,
    events: Seq<Event>,
    k: int,
    pos: int,
    to: int,
)
    requires
        is_recoded(a, b, d, events),
        settled(a, b, d, events, k, pos),
        to_come(d, k, to),
    ensures
        same_bits(a, b, pos, to),
{
    assert forall|p: int| pos <= p < to implies #[trigger] bit_at(a, p) == bit_at(b, p) by {
        if bit_at(a, p) != bit_at(b, p) {
            let j = lemma_difference(a, b, d, events, p);
            if j < k {
                assert(p < pos);
            }
        }
    }
}

proof fn lemma_huffman_in_step(
    lit: Seq<u32>,
    dist: Seq<u32>,
    a: Seq<u8>,
    b: Seq<u8>,
    pos: nat,
    st: Progress,
    stb: Progress,
    max_output: Option<usize>,
    block_idx: u32,
    d: Decoded,
    events: Seq<Event>,
)
    requires
        same_size(a, b),
        pos <= usize::MAX,
        check_lengths(lit) is Ok,
        check_lengths(dist) is Ok,
        lit.len() <= 0x1_0000,
        dist.len() <= 0x1_0000,
        is_recoded(a, b, d, events),
        level(st, stb),
        stb.events == events.take(st.events.len() as int),
        settled(a, b, d, events, st.events.len() as int, pos as int),
        huffman_block(lit, dist, a, pos, st, max_output, block_idx) matches Ok((e, next)) && next
            <= u32::MAX && e.out.len() <= u32::MAX && leads(e, d) && to_come(
            d,
            e.events.len() as int,
            next as int,
        ) && (forall|j: int|
            st.events.len() <= j < e.events.len() ==> #[trigger] table_is(d, j, lit, dist)),
    ensures
        huffman_block(lit, dist, a, pos, st, max_output, block_idx) matches Ok((e, next)) && (
        huffman_block(lit, dist, b, pos, stb, max_output, block_idx) matches Ok((eb, nextb))
            && nextb == next && level(e, eb) && eb.events == events.take(e.events.len() as int)
            && settled(a, b, d, events, e.events.len() as int, next as int)),
    decreases output_cap(max_output) - st.out.len(),
{
    let k = st.events.len() as int;
    let (e, next) = huffman_block(lit, dist, a, pos, st, max_output, block_idx)->Ok_0;
    lemma_step_grows(lit, dist, a, pos, st, max_output, block_idx);
    match huffman_step(lit, dist, a, pos, st, max_output, block_idx) {
        Step::Done(n) => {
            lemma_quiet(a, b, d, events, k, pos as int, next as int);
            lemma_step_in_step(
                lit,
                dist,
                a,
                b,
                pos,
                st,
                stb,
                max_output,
                block_idx,
                d,
                events,
            );
        },
        Step::More(st1, n1) => {
            lemma_huffman_block_advances(lit, dist, a, n1, st1, max_output, block_idx);
            lemma_huffman_grew(lit, dist, a, n1, st1, max_output, block_idx);
            lemma_step_site(lit, dist, a, pos, st, max_output, block_idx);
            reveal(grew);
            assert(e.events.take(k + 1) == st1.events);
            assert(e.events[k] == e.events.take(k + 1)[k]);
            assert(d.progress.events[k] == d.progress.events.take(e.events.len() as int)[k]);
            assert(table_is(d, k, lit, dist));
            assert(to_come(d, k + 1, n1 as int)) by {
                assert forall|j: int| k + 1 <= j < d.progress.events.len() implies site_pos(
                    #[trigger] d.progress.events[j],
                ) >= n1 by {
                    if j < e.events.len() {
                        assert(d.progress.events.take(e.events.len() as int)[j] == e.events[j]);
                    }
                }
            }
            assert(differs_at(a, b, d, events, k, pos as int, n1 as int)) by {
                assert forall|p: int|
                    pos <= p < n1 && #[trigger] bit_at(a, p) != bit_at(b, p) implies changed(
                    d,
                    events,
                    k,
                ) && in_site(d, k, p) by {
                    let j = lemma_difference(a, b, d, events, p);
                    if j < k {
                        assert(p < pos);
                    }
                }
            }
            lemma_step_in_step(
                lit,
                dist,
                a,
                b,
                pos,
                st,
                stb,
                max_output,
                block_idx,
                d,
                events,
            );
            let stb1 = huffman_step(lit, dist, b, pos, stb, max_output, block_idx)->More_0;
            assert(events.take(k).push(events[k]) =~= events.take(k + 1));
            assert(settled(a, b, d, events, k + 1, n1 as int)) by {
                assert forall|j: int, p: int|
                    0 <= j < k + 1 && #[trigger] changed(d, events, j) && #[trigger] in_site(
                        d,
                        j,
                        p,
                    ) && bit_at(a, p) != bit_at(b, p) implies p < n1 by {
                    let i = lemma_difference(a, b, d, events, p);
                    if j < k {
                        assert(p < pos);
                    }
                }
            }
            lemma_huffman_in_step(
                lit,
                dist,
                a,
                b,
                n1,
                st1,
                stb1,
                max_output,
                block_idx,
                d,
                events,
            );
        },
        Step::Fail(_) => {},
    }
}

proof fn lemma_stored_grew(data: Seq<u8>, pos: nat, st: Progress, n: nat)
    requires
        pos <= usize::MAX,
        stored_bytes(data, pos, st, n).1 <= u32::MAX,
    ensures
        grew(st, stored_bytes(data, pos, st, n).0, pos as int),
        stored_bytes(data, pos, st, n).0.events.len() == st.events.len() + n,
        pos <= stored_bytes(data, pos, st, n).1,
    decreases n,
{
    lemma_stored_bytes(data, pos, st, n);
    if n == 0 {
        lemma_grew_self(st, pos as int);
    } else {
        let m = (n - 1) as nat;
        lemma_stored_bytes(data, pos, st, m);
        lemma_stored_grew(data, pos, st, m);
        let (st1, pos1) = stored_bytes(data, pos, st, m);
        let st2 = stored_bytes(data, pos, st, n).0;
        assert(grew(st1, st2, pos1 as int)) by {
            reveal(grew);
            assert(st2.events.take(st1.events.len() as int) =~= st1.events);
        }
        lemma_grew_on(st, st1, st2, pos as int, pos1 as int);
    }
}

/// Stored bytes are read alike where the streams do not differ.
proof fn lemma_stored_in_step(
    a: Seq<u8>,
    b: Seq<u8>,
    pos: nat,
    st: Progress,
    stb: Progress,
    n: nat,
    events: Seq<Event>,
)
    requires
        same_size(a, b),
        pos <= usize::MAX,
        level(st, stb),
        stb.events == events.take(st.events.len() as int),
        same_bits(a, b, pos as int, stored_bytes(a, pos, st, n).1 as int),
        stored_bytes(a, pos, st, n).1 <= u32::MAX,
        st.events.len() + n <= events.len(),
        forall|j: int|
            st.events.len() <= j < st.events.len() + n ==> #[trigger] events[j] == stored_bytes(
                a,
                pos,
                st,
                n,
            ).0.events[j],
    ensures
        stored_bytes(b, pos, stb, n).1 == stored_bytes(a, pos, st, n).1,
        level(stored_bytes(a, pos, st, n).0, stored_bytes(b, pos, stb, n).0),
        stored_bytes(b, pos, stb, n).0.events == events.take((st.events.len() + n) as int),
    decreases n,
{
    if n > 0 {
        let m = (n - 1) as nat;
        lemma_stored_bytes(a, pos, st, m);
        lemma_stored_grew(a, pos, st, m);
        let (st1, pos1) = stored_bytes(a, pos, st, m);
        let st2 = stored_bytes(a, pos, st, n).0;
        let k = (st.events.len() + m) as int;
        assert forall|j: int| st.events.len() <= j < k implies #[trigger] events[j]
            == st1.events[j] by {
            assert(st2.events[j] == st1.events[j]);
        }
        lemma_stored_in_step(a, b, pos, st, stb, m, events);
        lemma_bits_same(a, b, pos1, 8);
        let stb1 = stored_bytes(b, pos, stb, m).0;
        assert(events[k] == st2.events[k]);
        assert(events.take(k).push(events[k]) =~= events.take(k + 1));
        assert(with_literal(stb1, pos1, field(b, pos1, 8) as u8).events =~= stb1.events.push(
            events[k],
        ));
    } else {
        assert(events.take((st.events.len() + 0) as int) =~= events.take(st.events.len() as int));
    }
}

/// What a block adds to a decode.
#[verifier::opaque]
spec fn added(acc: Decoded, acc2: Decoded, pos: int) -> bool {
    &&& grew(acc.progress, acc2.progress, pos)
    &&& acc2.block_starts == acc.block_starts.push(acc.progress.events.len() as u32)
    &&& acc2.lit_encs.drop_last() == acc.lit_encs
    &&& acc2.dist_encs.drop_last() == acc.dist_encs
    &&& acc2.lit_encs.len() == acc.lit_encs.len() + 1
    &&& acc2.dist_encs.len() == acc.dist_encs.len() + 1
}

proof fn lemma_block_added(
    data: Seq<u8>,
    pos: nat,
    block_type: nat,
    acc: Decoded,
    max_output: Option<usize>,
    block_idx: u32,
)
    requires
        pos <= usize::MAX,
        8 * data.len() <= usize::MAX,
        one_block(data, pos, block_type, acc, max_output, block_idx) matches Ok((_, next)) && next
            <= u32::MAX,
    ensures
        one_block(data, pos, block_type, acc, max_output, block_idx) matches Ok((acc2, next))
            && added(acc, acc2, pos as int) && pos <= next && acc.progress.out.len()
            <= acc2.progress.out.len(),
{
    reveal(added);
    let (acc2, next) = one_block(data, pos, block_type, acc, max_output, block_idx)->Ok_0;
    lemma_one_block(data, pos, block_type, acc, max_output, block_idx);
    if block_type == 0 {
        let len_pos = byte_aligned(pos);
        let nlen_pos = skip_bits(len_pos, 16);
        let start = skip_bits(nlen_pos, 16);
        let n = field(data, len_pos, 16);
        lemma_stored_bytes(data, start, acc.progress, n);
        lemma_stored_grew(data, start, acc.progress, n);
        lemma_grew_self(acc.progress, pos as int);
        lemma_grew_on(acc.progress, acc.progress, acc2.progress, pos as int, start as int);
    } else {
        let (lit, dist, body) = block_lengths(data, pos, block_type)->Ok_0;
        lemma_lengths_same(data, data, pos, block_type);
        lemma_huffman_block_advances(lit, dist, data, body, acc.progress, max_output, block_idx);
        lemma_huffman_grew(lit, dist, data, body, acc.progress, max_output, block_idx);
        lemma_grew_self(acc.progress, pos as int);
        lemma_grew_on(acc.progress, acc.progress, acc2.progress, pos as int, body as int);
    }
    assert(acc2.lit_encs.drop_last() =~= acc.lit_encs);
    assert(acc2.dist_encs.drop_last() =~= acc.dist_encs);
}

/// Where the last block of a stream ends.
pub open spec fn blocks_end(
    data: Seq<u8>,
    pos: nat,
    acc: Decoded,
    max_output: Option<usize>,
    block_idx: u32,
) -> nat
    decreases bits_ahead(data, pos),
{
    let type_pos = skip_bits(pos, 1);
    match one_block(
        data,
        skip_bits(type_pos, 2),
        field(data, type_pos, 2),
        acc,
        max_output,
        block_idx,
    ) {
        Err(_) => pos,
        Ok((acc2, next)) => if field(data, pos, 1) == 1 {
            next
        } else if bits_ahead(data, next) < bits_ahead(data, pos) {
            blocks_end(data, next, acc2, max_output, block_idx.wrapping_add(1))
        } else {
            next
        },
    }
}

/// Where a decode stops reading.
pub open spec fn stream_end(data: Seq<u8>, max_output: Option<usize>) -> nat {
    blocks_end(data, 0, nothing_decoded(), max_output, 0)
}

/// A decode began with another.
#[verifier::opaque]
spec fn began(acc: Decoded, d: Decoded, pos: int) -> bool {
    let n = acc.block_starts.len() as int;
    &&& grew(acc.progress, d.progress, pos)
    &&& n <= d.block_starts.len()
    &&& acc.lit_encs.len() == n
    &&& acc.dist_encs.len() == n
    &&& d.lit_encs.len() == d.block_starts.len()
    &&& d.dist_encs.len() == d.block_starts.len()
    &&& d.block_starts.take(n) == acc.block_starts
    &&& d.lit_encs.take(n) == acc.lit_encs
    &&& d.dist_encs.take(n) == acc.dist_encs
    &&& forall|i: int|
        n <= i < d.block_starts.len() ==> #[trigger] d.block_starts[i] >= acc.progress.events.len()
}

proof fn lemma_began(
    data: Seq<u8>,
    pos: nat,
    acc: Decoded,
    max_output: Option<usize>,
    block_idx: u32,
)
    requires
        pos <= usize::MAX,
        8 * data.len() <= usize::MAX,
        acc.lit_encs.len() == acc.block_starts.len(),
        acc.dist_encs.len() == acc.block_starts.len(),
        acc.progress.events.len() <= acc.progress.out.len(),
        blocks_end(data, pos, acc, max_output, block_idx) <= u32::MAX,
        all_blocks(data, pos, acc, max_output, block_idx) matches Ok(d) && d.progress.out.len()
            <= u32::MAX,
    ensures
        all_blocks(data, pos, acc, max_output, block_idx) matches Ok(d) && began(
            acc,
            d,
            pos as int,
        ),
        pos <= blocks_end(data, pos, acc, max_output, block_idx),
        all_blocks(data, pos, acc, max_output, block_idx) matches Ok(d) && acc.progress.out.len()
            <= d.progress.out.len(),
    decreases bits_ahead(data, pos),
{
    let type_pos = skip_bits(pos, 1);
    let body = skip_bits(type_pos, 2);
    let block_type = field(data, type_pos, 2);
    let d = all_blocks(data, pos, acc, max_output, block_idx)->Ok_0;
    lemma_blocks_advance(data, pos, acc, max_output, block_idx);
    lemma_one_block(data, body, block_type, acc, max_output, block_idx);
    let (acc2, next) = one_block(data, body, block_type, acc, max_output, block_idx)->Ok_0;
    if field(data, pos, 1) == 1 {
        lemma_block_added(data, body, block_type, acc, max_output, block_idx);
        lemma_began_one(acc, acc2, pos as int, body as int);
    } else {
        lemma_next_end(data, next, acc2, max_output, block_idx.wrapping_add(1));
        lemma_block_added(data, body, block_type, acc, max_output, block_idx);
        assert(acc2.progress.events.len() <= acc2.progress.out.len()) by {
            reveal(added);
            reveal(grew);
        }
        assert(acc2.lit_encs.len() == acc2.block_starts.len() && acc2.dist_encs.len()
            == acc2.block_starts.len()) by {
            reveal(added);
        }
        lemma_began(data, next, acc2, max_output, block_idx.wrapping_add(1));
        lemma_began_more(acc, acc2, d, pos as int, body as int, next as int);
    }
}

/// A block starts no later than the stream ends.
proof fn lemma_next_end(
    data: Seq<u8>,
    pos: nat,
    acc: Decoded,
    max_output: Option<usize>,
    block_idx: u32,
)
    requires
        pos <= usize::MAX,
        8 * data.len() <= usize::MAX,
    ensures
        pos <= blocks_end(data, pos, acc, max_output, block_idx),
    decreases bits_ahead(data, pos),
{
    let type_pos = skip_bits(pos, 1);
    let body = skip_bits(type_pos, 2);
    let block_type = field(data, type_pos, 2);
    lemma_one_block(data, body, block_type, acc, max_output, block_idx);
    match one_block(data, body, block_type, acc, max_output, block_idx) {
        Ok((acc2, next)) => {
            if field(data, pos, 1) != 1 && bits_ahead(data, next) < bits_ahead(data, pos) {
                lemma_next_end(data, next, acc2, max_output, block_idx.wrapping_add(1));
            }
        },
        Err(_) => {},
    }
}

proof fn lemma_began_one(acc: Decoded, acc2: Decoded, pos: int, body: int)
    requires
        added(acc, acc2, body),
        pos <= body,
        acc.lit_encs.len() == acc.block_starts.len(),
        acc.dist_encs.len() == acc.block_starts.len(),
        acc.progress.events.len() <= u32::MAX,
    ensures
        began(acc, acc2, pos),
{
    reveal(added);
    reveal(began);
    lemma_grew_self(acc.progress, pos);
    lemma_grew_on(acc.progress, acc.progress, acc2.progress, pos, body);
    let n = acc.block_starts.len() as int;
    assert(acc2.block_starts.take(n) =~= acc.block_starts);
    assert(acc2.lit_encs.take(n) =~= acc2.lit_encs.drop_last());
    assert(acc2.dist_encs.take(n) =~= acc2.dist_encs.drop_last());
}

proof fn lemma_began_more(
    acc: Decoded,
    acc2: Decoded,
    d: Decoded,
    pos: int,
    body: int,
    next: int,
)
    requires
        added(acc, acc2, body),
        began(acc2, d, next),
        pos <= body <= next,
        acc.lit_encs.len() == acc.block_starts.len(),
        acc.dist_encs.len() == acc.block_starts.len(),
        acc.progress.events.len() <= u32::MAX,
    ensures
        began(acc, d, pos),
{
    reveal(added);
    reveal(began);
    lemma_grew_self(acc.progress, pos);
    lemma_grew_on(acc.progress, acc.progress, acc2.progress, pos, body);
    lemma_grew_on(acc.progress, acc2.progress, d.progress, pos, next);
    let n = acc.block_starts.len() as int;
    assert(d.block_starts.take(n) =~= acc2.block_starts.take(n)) by {
        assert(acc2.block_starts =~= d.block_starts.take(n + 1));
    }
    assert(acc2.block_starts.take(n) =~= acc.block_starts);
    assert(d.lit_encs.take(n) =~= acc2.lit_encs.drop_last()) by {
        assert(acc2.lit_encs =~= d.lit_encs.take(n + 1));
    }
    assert(d.dist_encs.take(n) =~= acc2.dist_encs.drop_last()) by {
        assert(acc2.dist_encs =~= d.dist_encs.take(n + 1));
    }
    assert forall|i: int| n <= i < d.block_starts.len() implies #[trigger] d.block_starts[i]
        >= acc.progress.events.len() by {
        reveal(grew);
        if i == n {
            assert(d.block_starts[n] == d.block_starts.take(n + 1)[n]);
        }
    }
}

/// Two decodes that have come equally far, with the same blocks.
spec fn abreast(acc: Decoded, accb: Decoded, events: Seq<Event>) -> bool {
    &&& level(acc.progress, accb.progress)
    &&& accb.progress.events == events.take(acc.progress.events.len() as int)
    &&& accb.lit_encs == acc.lit_encs
    &&& accb.dist_encs == acc.dist_encs
    &&& accb.block_starts == acc.block_starts
}

/// The events from `k` to `n` belong to a block with these tables.
spec fn tables_are(d: Decoded, k: int, n: int, lit: Seq<SymCode>, dist: Seq<SymCode>) -> bool {
    forall|j: int|
        k <= j < n ==> #[trigger] site_table(d, j) == (match d.progress.events[j] {
            Event::Lit(_) => lit,
            Event::Ref(_) => dist,
        })
}

proof fn lemma_stored_block_in_step(
    a: Seq<u8>,
    b: Seq<u8>,
    pos: nat,
    acc: Decoded,
    accb: Decoded,
    max_output: Option<usize>,
    block_idx: u32,
    d: Decoded,
    events: Seq<Event>,
)
    requires
        same_size(a, b),
        pos <= usize::MAX,
        is_recoded(a, b, d, events),
        abreast(acc, accb, events),
        settled(a, b, d, events, acc.progress.events.len() as int, pos as int),
        one_block(a, pos, 0, acc, max_output, block_idx) matches Ok((acc2, next)) && next
            <= u32::MAX && leads(acc2.progress, d) && to_come(
            d,
            acc2.progress.events.len() as int,
            next as int,
        ) && tables_are(
            d,
            acc.progress.events.len() as int,
            acc2.progress.events.len() as int,
            acc2.lit_encs.last(),
            acc2.dist_encs.last(),
        ),
    ensures
        one_block(a, pos, 0, acc, max_output, block_idx) matches Ok((acc2, next)) && (one_block(
            b,
            pos,
            0,
            accb,
            max_output,
            block_idx,
        ) matches Ok((accb2, nextb)) && nextb == next && abreast(acc2, accb2, events) && settled(
            a,
            b,
            d,
            events,
            acc2.progress.events.len() as int,
            next as int,
        )),
{
    let (acc2, next) = one_block(a, pos, 0, acc, max_output, block_idx)->Ok_0;
    let k = acc.progress.events.len() as int;
    let n1 = acc2.progress.events.len() as int;
    let len_pos = byte_aligned(pos);
    let nlen_pos = skip_bits(len_pos, 16);
    let start = skip_bits(nlen_pos, 16);
    let n = field(a, len_pos, 16);
    lemma_stored_bytes(a, start, acc.progress, n);
    lemma_stored_grew(a, start, acc.progress, n);
    assert forall|j: int| k <= j < n1 implies !#[trigger] changed(d, events, j) by {
        if changed(d, events, j) {
            assert(stands_for(d, j, events[j]));
            assert(site_table(d, j) == no_codes(288) || site_table(d, j) == no_codes(30));
        }
    }
    assert(same_bits(a, b, pos as int, next as int)) by {
        assert forall|p: int| pos <= p < next implies #[trigger] bit_at(a, p) == bit_at(b, p) by {
            if bit_at(a, p) != bit_at(b, p) {
                let j = lemma_difference(a, b, d, events, p);
                if j < k {
                    assert(p < pos);
                }
            }
        }
    }
    lemma_bits_same(a, b, len_pos, 16);
    lemma_bits_same(a, b, nlen_pos, 16);
    assert forall|j: int| k <= j < k + n implies #[trigger] events[j] == acc2.progress.events[j] by {
        assert(!changed(d, events, j));
        assert(d.progress.events.take(n1)[j] == d.progress.events[j]);
    }
    lemma_stored_in_step(a, b, start, acc.progress, accb.progress, n, events);
}

proof fn lemma_block_in_step(
    a: Seq<u8>,
    b: Seq<u8>,
    pos: nat,
    block_type: nat,
    acc: Decoded,
    accb: Decoded,
    max_output: Option<usize>,
    block_idx: u32,
    d: Decoded,
    events: Seq<Event>,
)
    requires
        same_size(a, b),
        pos <= usize::MAX,
        is_recoded(a, b, d, events),
        abreast(acc, accb, events),
        settled(a, b, d, events, acc.progress.events.len() as int, pos as int),
        one_block(a, pos, block_type, acc, max_output, block_idx) matches Ok((acc2, next)) && next
            <= u32::MAX && acc2.progress.out.len() <= u32::MAX && leads(acc2.progress, d)
            && to_come(d, acc2.progress.events.len() as int, next as int) && tables_are(
            d,
            acc.progress.events.len() as int,
            acc2.progress.events.len() as int,
            acc2.lit_encs.last(),
            acc2.dist_encs.last(),
        ),
    ensures
        one_block(a, pos, block_type, acc, max_output, block_idx) matches Ok((acc2, next)) && (
        one_block(b, pos, block_type, accb, max_output, block_idx) matches Ok((accb2, nextb))
            && nextb == next && abreast(acc2, accb2, events) && settled(
            a,
            b,
            d,
            events,
            acc2.progress.events.len() as int,
            next as int,
        )),
{
    if block_type == 0 {
        lemma_stored_block_in_step(a, b, pos, acc, accb, max_output, block_idx, d, events);
    } else {
        let (acc2, next) = one_block(a, pos, block_type, acc, max_output, block_idx)->Ok_0;
        let k = acc.progress.events.len() as int;
        let n1 = acc2.progress.events.len() as int;
        let (lit, dist, body) = block_lengths(a, pos, block_type)->Ok_0;
        lemma_lengths_same(a, a, pos, block_type);
        lemma_huffman_grew(lit, dist, a, body, acc.progress, max_output, block_idx);
        assert(to_come(d, k, body as int)) by {
            reveal(grew);
            assert forall|j: int| k <= j < d.progress.events.len() implies site_pos(
                #[trigger] d.progress.events[j],
            ) >= body by {
                if j < n1 {
                    assert(d.progress.events.take(n1)[j] == acc2.progress.events[j]);
                }
            }
        }
        lemma_quiet(a, b, d, events, k, pos as int, body as int);
        lemma_lengths_same(a, b, pos, block_type);
        assert forall|j: int| k <= j < n1 implies #[trigger] table_is(d, j, lit, dist) by {
            assert(site_table(d, j) == site_table(d, j));
        }
        lemma_huffman_in_step(
            lit,
            dist,
            a,
            b,
            body,
            acc.progress,
            accb.progress,
            max_output,
            block_idx,
            d,
            events,
        );
    }
}

/// How a block's events stand in the whole decode.
proof fn lemma_frame(acc: Decoded, acc2: Decoded, d: Decoded, body: int, next: int)
    requires
        added(acc, acc2, body),
        began(acc2, d, next),
        body <= next,
        acc.lit_encs.len() == acc.block_starts.len(),
        acc.dist_encs.len() == acc.block_starts.len(),
        acc.progress.events.len() <= u32::MAX,
        acc2.progress.events.len() <= u32::MAX,
    ensures
        leads(acc2.progress, d),
        to_come(d, acc2.progress.events.len() as int, next),
        to_come(d, acc.progress.events.len() as int, body),
        tables_are(
            d,
            acc.progress.events.len() as int,
            acc2.progress.events.len() as int,
            acc2.lit_encs.last(),
            acc2.dist_encs.last(),
        ),
{
    reveal(added);
    reveal(began);
    reveal(grew);
    let k = acc.progress.events.len() as int;
    let n1 = acc2.progress.events.len() as int;
    let n = acc.block_starts.len() as int;
    assert forall|j: int| k <= j < d.progress.events.len() implies site_pos(
        #[trigger] d.progress.events[j],
    ) >= body by {
        if j < n1 {
            assert(d.progress.events.take(n1)[j] == acc2.progress.events[j]);
        }
    }
    assert(acc2.block_starts[n] == d.block_starts.take(n + 1)[n]);
    assert(acc2.lit_encs[n] == d.lit_encs.take(n + 1)[n]);
    assert(acc2.dist_encs[n] == d.dist_encs.take(n + 1)[n]);
    assert forall|j: int| k <= j < n1 implies #[trigger] site_table(d, j) == (
    match d.progress.events[j] {
        Event::Lit(_) => acc2.lit_encs.last(),
        Event::Ref(_) => acc2.dist_encs.last(),
    }) by {
        lemma_block_index(d.block_starts, j, n);
    }
}

/// One block of a whole decode: where it stands, and what comes behind it.
spec fn block_framed(
    a: Seq<u8>,
    pos: nat,
    acc: Decoded,
    max_output: Option<usize>,
    block_idx: u32,
    d: Decoded,
) -> bool {
    let type_pos = skip_bits(pos, 1);
    let body = skip_bits(type_pos, 2);
    let k = acc.progress.events.len() as int;
    one_block(a, body, field(a, type_pos, 2), acc, max_output, block_idx) matches Ok((acc2, next))
        && {
        let n1 = acc2.progress.events.len() as int;
        let idx = block_idx.wrapping_add(1);
        &&& body <= next <= blocks_end(a, pos, acc, max_output, block_idx) <= u32::MAX
        &&& k <= n1 <= acc2.progress.out.len() <= u32::MAX
        &&& acc2.lit_encs.len() == acc2.block_starts.len()
        &&& acc2.dist_encs.len() == acc2.block_starts.len()
        &&& leads(acc2.progress, d)
        &&& to_come(d, n1, next as int)
        &&& to_come(d, k, body as int)
        &&& tables_are(d, k, n1, acc2.lit_encs.last(), acc2.dist_encs.last())
        &&& if field(a, pos, 1) == 1 {
            acc2 == d && next == blocks_end(a, pos, acc, max_output, block_idx)
        } else {
            &&& bits_ahead(a, next) < bits_ahead(a, pos)
            &&& all_blocks(a, next, acc2, max_output, idx) == Ok::<_, DecodeError>(d)
            &&& blocks_end(a, next, acc2, max_output, idx) == blocks_end(
                a,
                pos,
                acc,
                max_output,
                block_idx,
            )
        }
    }
}

proof fn lemma_block_framed(
    a: Seq<u8>,
    pos: nat,
    acc: Decoded,
    max_output: Option<usize>,
    block_idx: u32,
    d: Decoded,
)
    requires
        8 * a.len() <= usize::MAX,
        pos <= usize::MAX,
        acc.lit_encs.len() == acc.block_starts.len(),
        acc.dist_encs.len() == acc.block_starts.len(),
        acc.progress.events.len() <= acc.progress.out.len(),
        blocks_end(a, pos, acc, max_output, block_idx) <= u32::MAX,
        all_blocks(a, pos, acc, max_output, block_idx) == Ok::<_, DecodeError>(d),
        d.progress.out.len() <= u32::MAX,
    ensures
        block_framed(a, pos, acc, max_output, block_idx, d),
{
    let type_pos = skip_bits(pos, 1);
    let body = skip_bits(type_pos, 2);
    let block_type = field(a, type_pos, 2);
    lemma_blocks_advance(a, pos, acc, max_output, block_idx);
    lemma_one_block(a, body, block_type, acc, max_output, block_idx);
    lemma_began(a, pos, acc, max_output, block_idx);
    let (acc2, next) = one_block(a, body, block_type, acc, max_output, block_idx)->Ok_0;
    let last = field(a, pos, 1) == 1;
    if !last {
        lemma_next_end(a, next, acc2, max_output, block_idx.wrapping_add(1));
    }
    lemma_block_added(a, body, block_type, acc, max_output, block_idx);
    assert(acc.progress.events.len() <= acc2.progress.events.len()
        && acc2.progress.events.len() <= acc2.progress.out.len() && acc2.lit_encs.len()
        == acc2.block_starts.len() && acc2.dist_encs.len() == acc2.block_starts.len()) by {
        reveal(added);
        reveal(grew);
    }
    if last {
        assert(began(acc2, d, next as int)) by {
            reveal(began);
            lemma_grew_self(d.progress, next as int);
            assert(d.block_starts.take(d.block_starts.len() as int) =~= d.block_starts);
            assert(d.lit_encs.take(d.lit_encs.len() as int) =~= d.lit_encs);
            assert(d.dist_encs.take(d.dist_encs.len() as int) =~= d.dist_encs);
        }
    } else {
        lemma_began(a, next, acc2, max_output, block_idx.wrapping_add(1));
    }
    lemma_frame(acc, acc2, d, body as int, next as int);
}

proof fn lemma_blocks_in_step(
    a: Seq<u8>,
    b: Seq<u8>,
    pos: nat,
    acc: Decoded,
    accb: Decoded,
    max_output: Option<usize>,
    block_idx: u32,
    d: Decoded,
    events: Seq<Event>,
)
    requires
        same_size(a, b),
        pos <= usize::MAX,
        is_recoded(a, b, d, events),
        abreast(acc, accb, events),
        acc.lit_encs.len() == acc.block_starts.len(),
        acc.dist_encs.len() == acc.block_starts.len(),
        acc.progress.events.len() <= acc.progress.out.len(),
        settled(a, b, d, events, acc.progress.events.len() as int, pos as int),
        blocks_end(a, pos, acc, max_output, block_idx) <= u32::MAX,
        all_blocks(a, pos, acc, max_output, block_idx) == Ok::<_, DecodeError>(d),
        d.progress.out.len() <= u32::MAX,
    ensures
        all_blocks(b, pos, accb, max_output, block_idx) matches Ok(db) && abreast(d, db, events),
        blocks_end(b, pos, accb, max_output, block_idx) == blocks_end(
            a,
            pos,
            acc,
            max_output,
            block_idx,
        ),
    decreases bits_ahead(a, pos),
{
    lemma_block_framed(a, pos, acc, max_output, block_idx, d);
    let type_pos = skip_bits(pos, 1);
    let body = skip_bits(type_pos, 2);
    let block_type = field(a, type_pos, 2);
    let (acc2, next) = one_block(a, body, block_type, acc, max_output, block_idx)->Ok_0;
    lemma_quiet(a, b, d, events, acc.progress.events.len() as int, pos as int, body as int);
    lemma_bits_same(a, b, pos, 1);
    lemma_bits_same(a, b, type_pos, 2);
    lemma_block_in_step(a, b, body, block_type, acc, accb, max_output, block_idx, d, events);
    if field(a, pos, 1) != 1 {
        let accb2 = one_block(b, body, block_type, accb, max_output, block_idx)->Ok_0.0;
        let idx = block_idx.wrapping_add(1);
        lemma_blocks_in_step(a, b, next, acc2, accb2, max_output, idx, d, events);
    }
}

/// Replacing codes in place by others of the same length changes just the
/// events that they belong to: the stream decodes to the new events, with the
/// same blocks and tables, and to an output of the same length. Bit positions
/// are 32 bits wide, so the decode has to end where they still fit.
pub proof fn law_recoded_stream_decodes(
    before: Seq<u8>,
    after: Seq<u8>,
    max_output: Option<usize>,
    d: Decoded,
    events: Seq<Event>,
)
    requires
        8 * before.len() <= usize::MAX,
        decode_spec(before, max_output) == Ok::<_, DecodeError>(d),
        d.progress.out.len() <= u32::MAX,
        stream_end(before, max_output) <= u32::MAX,
        is_recoded(before, after, d, events),
    ensures
        decode_spec(after, max_output) matches Ok(d2) && d2.progress.events == events
            && d2.progress.out.len() == d.progress.out.len() && d2.lit_encs == d.lit_encs
            && d2.dist_encs == d.dist_encs && d2.block_starts == d.block_starts,
        stream_end(after, max_output) == stream_end(before, max_output),
{
    let start = nothing_decoded();
    assert(events.take(0) =~= Seq::<Event>::empty());
    lemma_blocks_in_step(before, after, 0, start, start, max_output, 0, d, events);
    assert(events.take(d.progress.events.len() as int) =~= events);
}

// Where the codes stand.

/// The code of event `k` is a short one, and a back-reference has one: its
/// source is at least as far back as its distance symbol says.
pub open spec fn site_ok(d: Decoded, k: int) -> bool {
    &&& site_len(d, k) <= 15
    &&& d.progress.events[k] matches Event::Ref(r) ==> {
        &&& r.dist_sym < 30
        &&& site_len(d, k) > 0
        &&& r.src_out_pos + DBASE@[r.dist_sym as int] <= r.out_pos
    }
}

/// The code of event `i`, if it has one, ends before that of event `j` starts.
pub open spec fn sites_apart(d: Decoded, i: int, j: int) -> bool {
    site_len(d, i) > 0 ==> site_pos(d.progress.events[i]) + site_len(d, i) <= site_pos(
        d.progress.events[j],
    )
}

/// The code of event `k`, if it has one, ends by bit `pos`.
pub open spec fn site_ends(d: Decoded, k: int, pos: int) -> bool {
    site_len(d, k) > 0 ==> site_pos(d.progress.events[k]) + site_len(d, k) <= pos
}

/// The codes of the first `k` events are in order, and end by bit `pos`.
#[verifier::opaque]
spec fn sites_until(d: Decoded, k: int, pos: int) -> bool {
    &&& forall|j: int| 0 <= j < k ==> #[trigger] site_ok(d, j)
    &&& forall|j: int| 0 <= j < k ==> #[trigger] site_ends(d, j, pos)
    &&& forall|i: int, j: int| 0 <= i < j < k ==> #[trigger] sites_apart(d, i, j)
}

/// One more event, with its code between `pos` and `next`.
proof fn lemma_one_more_site(d: Decoded, k: int, pos: int, next: int)
    requires
        0 <= k,
        sites_until(d, k, pos),
        pos <= next,
        site_ok(d, k),
        site_ends(d, k, next),
        pos <= site_pos(d.progress.events[k]),
    ensures
        sites_until(d, k + 1, next),
{
    reveal(sites_until);
    assert forall|j: int| 0 <= j < k + 1 implies #[trigger] site_ends(d, j, next) by {
        if j < k {
            assert(site_ends(d, j, pos));
        }
    }
    assert forall|i: int, j: int| 0 <= i < j < k + 1 implies #[trigger] sites_apart(d, i, j) by {
        if j == k {
            assert(site_ends(d, i, pos));
        }
    }
}

/// What a step says of its event.
proof fn lemma_step_coded(
    lit: Seq<u32>,
    dist: Seq<u32>,
    data: Seq<u8>,
    pos: nat,
    st: Progress,
    max_output: Option<usize>,
    block_idx: u32,
)
    requires
        pos <= usize::MAX,
        check_lengths(lit) is Ok,
        check_lengths(dist) is Ok,
        lit.len() <= 0x1_0000,
        dist.len() <= 0x1_0000,
        huffman_step(lit, dist, data, pos, st, max_output, block_idx) matches Step::More(st1, next)
            && next <= u32::MAX && st1.out.len() <= u32::MAX,
    ensures
        huffman_step(lit, dist, data, pos, st, max_output, block_idx) matches Step::More(st1, next)
            && (match st1.events.last() {
            Event::Lit(l) => code_len(enc_of(lit), l.symbol as int) <= 15,
            Event::Ref(r) => 0 < code_len(enc_of(dist), r.dist_sym as int) <= 15 && r.dist_sym < 30
                && r.src_out_pos + DBASE@[r.dist_sym as int] <= r.out_pos,
        }),
{
    reveal(huffman_step);
    lemma_step_grows(lit, dist, data, pos, st, max_output, block_idx);
    lemma_symbol_read(lit, data, pos);
    let (sym, next) = decode_symbol(lit, data, pos)->Ok_0;
    if sym > 256 {
        let n_len = LEXT@[sym - 257] as nat;
        let dist_pos = skip_bits(next, n_len);
        lemma_symbol_read(dist, data, dist_pos);
        let (s, extra_pos) = decode_symbol(dist, data, dist_pos)->Ok_0;
        let copy_len = LBASE@[sym - 257] as nat + field(data, next, n_len);
        let distance = DBASE@[s as int] as nat + field(data, extra_pos, DEXT@[s as int] as nat);
        lemma_copy_back_len(st.out, distance, copy_len);
    }
}

proof fn lemma_huffman_sites(
    lit: Seq<u32>,
    dist: Seq<u32>,
    a: Seq<u8>,
    pos: nat,
    st: Progress,
    max_output: Option<usize>,
    block_idx: u32,
    d: Decoded,
)
    requires
        pos <= usize::MAX,
        check_lengths(lit) is Ok,
        check_lengths(dist) is Ok,
        lit.len() <= 0x1_0000,
        dist.len() <= 0x1_0000,
        sites_until(d, st.events.len() as int, pos as int),
        huffman_block(lit, dist, a, pos, st, max_output, block_idx) matches Ok((e, next)) && next
            <= u32::MAX && next < usize::MAX && e.out.len() <= u32::MAX && leads(e, d) && (forall|j: int|
            st.events.len() <= j < e.events.len() ==> #[trigger] table_is(d, j, lit, dist)),
    ensures
        huffman_block(lit, dist, a, pos, st, max_output, block_idx) matches Ok((e, next))
            && sites_until(d, e.events.len() as int, next as int),
    decreases output_cap(max_output) - st.out.len(),
{
    let k = st.events.len() as int;
    let (e, next) = huffman_block(lit, dist, a, pos, st, max_output, block_idx)->Ok_0;
    lemma_step_grows(lit, dist, a, pos, st, max_output, block_idx);
    match huffman_step(lit, dist, a, pos, st, max_output, block_idx) {
        Step::Done(n) => {
            reveal(sites_until);
            assert forall|j: int| 0 <= j < k implies #[trigger] site_ends(d, j, n as int) by {
                assert(site_ends(d, j, pos as int));
            }
        },
        Step::More(st1, n1) => {
            lemma_huffman_block_advances(lit, dist, a, n1, st1, max_output, block_idx);
            lemma_huffman_grew(lit, dist, a, n1, st1, max_output, block_idx);
            lemma_step_site(lit, dist, a, pos, st, max_output, block_idx);
            lemma_step_coded(lit, dist, a, pos, st, max_output, block_idx);
            assert(e.events.take(k + 1) == st1.events && k + 1 <= e.events.len() && site_pos(
                st1.events[k],
            ) >= pos) by {
                reveal(grew);
            }
            assert(e.events[k] == e.events.take(k + 1)[k]);
            assert(d.progress.events[k] == d.progress.events.take(e.events.len() as int)[k]);
            assert(table_is(d, k, lit, dist));
            lemma_one_more_site(d, k, pos as int, n1 as int);
            lemma_huffman_sites(lit, dist, a, n1, st1, max_output, block_idx, d);
        },
        Step::Fail(_) => {},
    }
}

proof fn lemma_block_sites(
    a: Seq<u8>,
    pos: nat,
    block_type: nat,
    acc: Decoded,
    max_output: Option<usize>,
    block_idx: u32,
    d: Decoded,
)
    requires
        8 * a.len() <= usize::MAX,
        pos <= usize::MAX,
        sites_until(d, acc.progress.events.len() as int, pos as int),
        to_come(d, acc.progress.events.len() as int, pos as int),
        one_block(a, pos, block_type, acc, max_output, block_idx) matches Ok((acc2, next)) && pos
            <= next <= u32::MAX && next < usize::MAX && acc2.progress.out.len() <= u32::MAX
            && leads(acc2.progress, d) && tables_are(
            d,
            acc.progress.events.len() as int,
            acc2.progress.events.len() as int,
            acc2.lit_encs.last(),
            acc2.dist_encs.last(),
        ),
    ensures
        one_block(a, pos, block_type, acc, max_output, block_idx) matches Ok((acc2, next))
            && sites_until(d, acc2.progress.events.len() as int, next as int),
{
    let (acc2, next) = one_block(a, pos, block_type, acc, max_output, block_idx)->Ok_0;
    let k = acc.progress.events.len() as int;
    let n1 = acc2.progress.events.len() as int;
    if block_type == 0 {
        let start = skip_bits(skip_bits(byte_aligned(pos), 16), 16);
        let n = field(a, byte_aligned(pos), 16);
        lemma_stored_bytes(a, start, acc.progress, n);
        lemma_stored_literals(a, start, acc.progress, n);
        assert forall|j: int| k <= j < n1 implies #[trigger] site_len(d, j) == 0
            && d.progress.events[j] is Lit by {
            assert(d.progress.events.take(n1)[j] == acc2.progress.events[j]);
            assert(site_table(d, j) == no_codes(288));
        }
        reveal(sites_until);
        assert forall|j: int| 0 <= j < n1 implies #[trigger] site_ok(d, j) by {
            if j >= k {
                assert(site_len(d, j) == 0);
            }
        }
        assert forall|j: int| 0 <= j < n1 implies #[trigger] site_ends(d, j, next as int) by {
            if j >= k {
                assert(site_len(d, j) == 0);
            } else {
                assert(site_ends(d, j, pos as int));
            }
        }
        assert forall|i: int, j: int| 0 <= i < j < n1 implies #[trigger] sites_apart(d, i, j) by {
            if i >= k {
                assert(site_len(d, i) == 0);
            } else if j >= k {
                assert(site_ends(d, i, pos as int));
            }
        }
    } else {
        let (lit, dist, body) = block_lengths(a, pos, block_type)->Ok_0;
        lemma_lengths_same(a, a, pos, block_type);
        assert(sites_until(d, k, body as int)) by {
            reveal(sites_until);
            assert forall|j: int| 0 <= j < k implies #[trigger] site_ends(d, j, body as int) by {
                assert(site_ends(d, j, pos as int));
            }
        }
        assert forall|j: int| k <= j < n1 implies #[trigger] table_is(d, j, lit, dist) by {
            assert(site_table(d, j) == site_table(d, j));
        }
        lemma_huffman_sites(lit, dist, a, body, acc.progress, max_output, block_idx, d);
    }
}

/// Stored bytes are literals.
proof fn lemma_stored_literals(data: Seq<u8>, pos: nat, st: Progress, n: nat)
    ensures
        stored_bytes(data, pos, st, n).0.events.len() == st.events.len() + n,
        forall|j: int|
            st.events.len() <= j < st.events.len() + n ==> #[trigger] stored_bytes(
                data,
                pos,
                st,
                n,
            ).0.events[j] is Lit,
    decreases n,
{
    if n > 0 {
        lemma_stored_literals(data, pos, st, (n - 1) as nat);
        let st1 = stored_bytes(data, pos, st, (n - 1) as nat).0;
        assert forall|j: int| st.events.len() <= j < st.events.len() + n implies #[trigger]
            stored_bytes(data, pos, st, n).0.events[j] is Lit by {
            if j < st.events.len() + n - 1 {
                assert(stored_bytes(data, pos, st, n).0.events[j] == st1.events[j]);
            }
        }
    }
}

proof fn lemma_blocks_sites(
    a: Seq<u8>,
    pos: nat,
    acc: Decoded,
    max_output: Option<usize>,
    block_idx: u32,
    d: Decoded,
)
    requires
        8 * a.len() <= usize::MAX,
        pos <= usize::MAX,
        acc.lit_encs.len() == acc.block_starts.len(),
        acc.dist_encs.len() == acc.block_starts.len(),
        acc.progress.events.len() <= acc.progress.out.len(),
        sites_until(d, acc.progress.events.len() as int, pos as int),
        blocks_end(a, pos, acc, max_output, block_idx) <= u32::MAX,
        blocks_end(a, pos, acc, max_output, block_idx) < usize::MAX,
        all_blocks(a, pos, acc, max_output, block_idx) == Ok::<_, DecodeError>(d),
        d.progress.out.len() <= u32::MAX,
    ensures
        sites_until(
            d,
            d.progress.events.len() as int,
            blocks_end(a, pos, acc, max_output, block_idx) as int,
        ),
    decreases bits_ahead(a, pos),
{
    lemma_block_framed(a, pos, acc, max_output, block_idx, d);
    let type_pos = skip_bits(pos, 1);
    let body = skip_bits(type_pos, 2);
    let block_type = field(a, type_pos, 2);
    let (acc2, next) = one_block(a, body, block_type, acc, max_output, block_idx)->Ok_0;
    let k = acc.progress.events.len() as int;
    assert(sites_until(d, k, body as int)) by {
        reveal(sites_until);
        assert forall|j: int| 0 <= j < k implies #[trigger] site_ends(d, j, body as int) by {
            assert(site_ends(d, j, pos as int));
        }
    }
    lemma_block_sites(a, body, block_type, acc, max_output, block_idx, d);
    if field(a, pos, 1) != 1 {
        lemma_blocks_sites(a, next, acc2, max_output, block_idx.wrapping_add(1), d);
    }
}

/// The codes of a stream's events stand in the order of the events, none
/// overlaps the next, and all lie before the end of the stream. The stream has
/// to end inside the data: a code past its end cannot be said to stand there.
pub proof fn law_codes_in_order(data: Seq<u8>, max_output: Option<usize>, d: Decoded)
    requires
        8 * data.len() <= usize::MAX,
        decode_spec(data, max_output) == Ok::<_, DecodeError>(d),
        d.progress.out.len() <= u32::MAX,
        stream_end(data, max_output) <= u32::MAX,
        stream_end(data, max_output) <= 8 * data.len(),
    ensures
        forall|k: int| 0 <= k < d.progress.events.len() ==> #[trigger] site_ok(d, k),
        forall|k: int|
            0 <= k < d.progress.events.len() ==> #[trigger] site_ends(
                d,
                k,
                stream_end(data, max_output) as int,
            ),
        forall|i: int, j: int|
            0 <= i < j < d.progress.events.len() ==> #[trigger] sites_apart(d, i, j),
{
    reveal(sites_until);
    lemma_blocks_sites(data, 0, nothing_decoded(), max_output, 0, d);
}

} // verus!
