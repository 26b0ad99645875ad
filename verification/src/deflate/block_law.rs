//! Streams of many blocks: each is read on its own, wherever it stands.

use vstd::arithmetic::power2::lemma2_to64;
use vstd::prelude::*;

use super::canonical::{check_lengths, decode_symbol, enc_of};
use super::compress::lemma_dynamic_stands;
use super::constants::{lemma_length_range, lemma_length_symbol, DBASE, DEXT, LBASE, LEXT};
use super::decoder::{lemma_blocks_advance, lemma_step_grows};
use super::dynamic::{block_dist_lengths, block_lit_lengths, dynamic_block};
use super::encode::lemma_fixed_lengths_valid;
use super::error::DecodeError;
use super::events::Event;
use super::inflate_spec::{
    all_blocks, block_lengths, copy_back, decode_spec, dynamic_lengths, field, fixed_dist_lengths,
    fixed_lit_lengths, huffman_block, huffman_step, length_run, length_step, nothing_decoded,
    one_block, output_cap, stored_bytes, Decoded, Progress, Step,
};
use super::package_merge::widened;
use super::replay_law::lemma_block_start;
use super::roundtrip::{
    block_of_stream, decoded_first, event_has_codes, lemma_bits_part, lemma_block_decodes,
    lemma_field_written, lemma_packed, lemma_replay_grows, same_choice, same_choices,
};
use super::stream_spec::{
    body_bits, lemma_valid_event, replay, valid_events, writable_event, writable_events,
};
use crate::bitstream::{
    bits_at, byte_aligned, lemma_lsb_value_bound, lsb_bits, pack_bits, skip_bits,
};

verus! {

/// One block of a stream, by what it holds and how it is coded.
pub enum Block {
    /// Literals only, byte for byte.
    Stored(Seq<Event>),
    Fixed(Seq<Event>),
    Dynamic(Seq<Event>),
}

impl Block {
    pub open spec fn events(self) -> Seq<Event> {
        match self {
            Block::Stored(events) => events,
            Block::Fixed(events) => events,
            Block::Dynamic(events) => events,
        }
    }

    /// The two type bits as a number.
    pub open spec fn kind(self) -> nat {
        match self {
            Block::Stored(_) => 0,
            Block::Fixed(_) => 1,
            Block::Dynamic(_) => 2,
        }
    }

    /// What a block can hold.
    pub open spec fn fits(self) -> bool {
        match self {
            Block::Stored(events) => events.len() <= 0xFFFF && forall|k: int|
                0 <= k < events.len() ==> #[trigger] events[k] is Lit,
            Block::Fixed(_) => true,
            Block::Dynamic(events) => events.len() <= u32::MAX,
        }
    }
}

/// The symbols of literals, eight bits each.
pub open spec fn symbol_bits(events: Seq<Event>) -> Seq<bool>
    decreases events.len(),
{
    if events.len() == 0 {
        Seq::empty()
    } else {
        symbol_bits(events.drop_last()) + lsb_bits(events.last()->Lit_0.symbol as nat, 8)
    }
}

/// The bits of a block behind its three header bits, which end at bit `at`.
pub open spec fn content_bits(b: Block, at: nat) -> Seq<bool> {
    match b {
        Block::Stored(events) => Seq::new(((8 - at % 8) % 8) as nat, |i: int| false) + lsb_bits(
            events.len(),
            16,
        ) + lsb_bits((0xFFFF - events.len()) as nat, 16) + symbol_bits(events),
        Block::Fixed(events) => body_bits(
            enc_of(fixed_lit_lengths()),
            enc_of(fixed_dist_lengths()),
            events,
        ),
        Block::Dynamic(events) => dynamic_block(events),
    }
}

/// The header bits of a block: whether it is the last, and its type.
pub open spec fn head_bits(b: Block, last: bool) -> Seq<bool> {
    lsb_bits(
        if last {
            1
        } else {
            0
        },
        1,
    ) + lsb_bits(b.kind(), 2)
}

/// The first `n` of `blocks`, one behind the other; the last of all is marked.
pub open spec fn chain_bits(blocks: Seq<Block>, n: int) -> Seq<bool>
    decreases n,
{
    if n <= 0 {
        Seq::empty()
    } else {
        let before = chain_bits(blocks, n - 1);
        before + head_bits(blocks[n - 1], n == blocks.len()) + content_bits(
            blocks[n - 1],
            before.len() + 3,
        )
    }
}

/// The events of the first `n` blocks.
pub open spec fn chain_events(blocks: Seq<Block>, n: int) -> Seq<Event>
    decreases n,
{
    if n <= 0 {
        Seq::empty()
    } else {
        chain_events(blocks, n - 1) + blocks[n - 1].events()
    }
}

/// The literals of a stored block are read, up to the `n`-th.
proof fn lemma_stored_run(
    data: Seq<u8>,
    base: nat,
    all: Seq<Event>,
    from: int,
    events: Seq<Event>,
    st: Progress,
    n: int,
)
    requires
        block_of_stream(all, from, events),
        forall|k: int| 0 <= k < events.len() ==> #[trigger] events[k] is Lit,
        0 <= n <= events.len(),
        bits_at(data, base as int, symbol_bits(events.take(n)).len()) == symbol_bits(
            events.take(n),
        ),
        base + 8 * n <= usize::MAX,
        decoded_first(st, all, from),
    ensures
        symbol_bits(events.take(n)).len() == 8 * n,
        decoded_first(stored_bytes(data, base, st, n as nat).0, all, from + n),
        stored_bytes(data, base, st, n as nat).1 == base + 8 * n,
    decreases n,
{
    lemma2_to64();
    if n > 0 {
        let t = events.take(n);
        let front = events.take(n - 1);
        let e = events[n - 1];
        let sym = e->Lit_0.symbol;
        assert(t.drop_last() =~= front);
        assert(t.last() == e);
        let bits = symbol_bits(t);
        let done = symbol_bits(front);
        let last = lsb_bits(sym as nat, 8);
        assert(bits == done + last);
        assert(bits.subrange(0, done.len() as int) =~= done);
        assert(bits.subrange(done.len() as int, (done.len() + 8) as int) =~= last);
        lemma_bits_part(data, base as int, bits, 0, done);
        lemma_bits_part(data, base as int, bits, done.len() as int, last);
        lemma_stored_run(data, base, all, from, events, st, n - 1);
        let (st1, pos1) = stored_bytes(data, base, st, (n - 1) as nat);
        lemma_field_written(data, pos1, sym as nat, 8);
        let st2 = stored_bytes(data, base, st, n as nat).0;
        let m = from + n - 1;
        assert(all.subrange(from, from + events.len())[n - 1] == all[m]);
        assert(all.take(m + 1).drop_last() =~= all.take(m));
        assert(all.take(m + 1).last() == e);
        assert(st2.out == st1.out.push(sym));
        if replay(all).len() <= u32::MAX {
            assert forall|j: int| 0 <= j < st2.events.len() implies same_choice(
                #[trigger] st2.events[j],
                all.take(m + 1)[j],
            ) by {
                if j < m {
                    assert(same_choice(st1.events[j], all.take(m)[j]));
                }
            }
        }
    } else {
        assert(events.take(0) =~= Seq::<Event>::empty());
    }
}

/// A stored block is read.
proof fn lemma_stored_reads(
    data: Seq<u8>,
    p: nat,
    all: Seq<Event>,
    from: int,
    events: Seq<Event>,
    acc: Decoded,
    max_output: Option<usize>,
    block_idx: u32,
)
    requires
        block_of_stream(all, from, events),
        Block::Stored(events).fits(),
        bits_at(data, p as int, content_bits(Block::Stored(events), p).len()) == content_bits(
            Block::Stored(events),
            p,
        ),
        p + content_bits(Block::Stored(events), p).len() <= usize::MAX,
        decoded_first(acc.progress, all, from),
        replay(all).len() <= output_cap(max_output),
    ensures
        one_block(data, p, 0, acc, max_output, block_idx) matches Ok((acc2, next))
            && decoded_first(acc2.progress, all, from + events.len()) && next == p + content_bits(
            Block::Stored(events),
            p,
        ).len() && acc2.block_starts.len() == acc.block_starts.len() + 1,
{
    lemma2_to64();
    let n = events.len();
    let pad = ((8 - p % 8) % 8) as nat;
    let zeros = Seq::new(pad, |i: int| false);
    let a = lsb_bits(n, 16);
    let b = lsb_bits((0xFFFF - n) as nat, 16);
    let c = symbol_bits(events);
    let bits = content_bits(Block::Stored(events), p);
    assert(bits == zeros + a + b + c);
    let p1 = pad as int;
    assert(bits.subrange(p1, p1 + 16) =~= a);
    assert(bits.subrange(p1 + 16, p1 + 32) =~= b);
    assert(bits.subrange(p1 + 32, p1 + 32 + c.len()) =~= c);
    lemma_bits_part(data, p as int, bits, p1, a);
    lemma_bits_part(data, p as int, bits, p1 + 16, b);
    lemma_bits_part(data, p as int, bits, p1 + 32, c);
    let at = p + pad;
    lemma_field_written(data, at, n, 16);
    lemma_field_written(data, at + 16, (0xFFFF - n) as nat, 16);
    assert(byte_aligned(p) == at);
    assert(events.take(n as int) =~= events);
    lemma_symbol_len(events);
    lemma_stored_run(data, at + 32, all, from, events, acc.progress, n as int);
    lemma_replay_grows(all, from + n);
    let st2 = stored_bytes(data, at + 32, acc.progress, n).0;
    lemma_stored_len(data, at + 32, acc.progress, n);
}

proof fn lemma_symbol_len(events: Seq<Event>)
    ensures
        symbol_bits(events).len() == 8 * events.len(),
    decreases events.len(),
{
    if events.len() > 0 {
        lemma_symbol_len(events.drop_last());
    }
}

proof fn lemma_stored_len(data: Seq<u8>, pos: nat, st: Progress, n: nat)
    ensures
        stored_bytes(data, pos, st, n).0.out.len() == st.out.len() + n,
    decreases n,
{
    if n > 0 {
        lemma_stored_len(data, pos, st, (n - 1) as nat);
    }
}

/// A block is read, whatever its kind and wherever it stands, and the stream
/// goes on behind it.
proof fn lemma_block_reads(
    data: Seq<u8>,
    p: nat,
    all: Seq<Event>,
    from: int,
    b: Block,
    acc: Decoded,
    max_output: Option<usize>,
    block_idx: u32,
)
    requires
        block_of_stream(all, from, b.events()),
        b.fits(),
        bits_at(data, p as int, content_bits(b, p).len()) == content_bits(b, p),
        p + content_bits(b, p).len() <= usize::MAX,
        decoded_first(acc.progress, all, from),
        replay(all).len() <= output_cap(max_output),
    ensures
        one_block(data, p, b.kind(), acc, max_output, block_idx) matches Ok((acc2, next))
            && decoded_first(acc2.progress, all, from + b.events().len()) && next == p
            + content_bits(b, p).len() && acc2.block_starts.len() == acc.block_starts.len() + 1,
{
    let events = b.events();
    assert forall|k: int| 0 <= k < events.len() implies writable_event(#[trigger] events[k]) && (
    events[k] matches Event::Ref(r) ==> r.copy_len <= 258) by {
        assert(all.subrange(from, from + events.len())[k] == all[from + k]);
        lemma_valid_event(all, from + k);
    }
    match b {
        Block::Stored(_) => {
            lemma_stored_reads(data, p, all, from, events, acc, max_output, block_idx);
        },
        Block::Fixed(_) => {
            let lit = fixed_lit_lengths();
            let dist = fixed_dist_lengths();
            lemma_fixed_lengths_valid();
            assert forall|k: int| 0 <= k < events.len() implies event_has_codes(
                lit,
                dist,
                #[trigger] events[k],
            ) by {
                assert(writable_event(events[k]));
                if let Event::Ref(r) = events[k] {
                    lemma_length_symbol(r.copy_len as nat);
                }
            }
            lemma_block_decodes(
                lit,
                dist,
                data,
                1,
                p,
                p,
                all,
                from,
                events,
                acc,
                max_output,
                block_idx,
            );
        },
        Block::Dynamic(_) => {
            assert(writable_events(events));
            lemma_dynamic_stands(data, p, events);
            let lit = widened(block_lit_lengths(events));
            let dist = widened(block_dist_lengths(events));
            let body = body_bits(enc_of(lit), enc_of(dist), events);
            lemma_block_decodes(
                lit,
                dist,
                data,
                2,
                p,
                (p + dynamic_block(events).len() - body.len()) as nat,
                all,
                from,
                events,
                acc,
                max_output,
                block_idx,
            );
        },
    }
}

/// Block `j` stands in the chain where the blocks before it end, and its events
/// among all events where theirs end.
proof fn lemma_chain_part(blocks: Seq<Block>, j: int, n: int)
    requires
        0 <= j < n <= blocks.len(),
    ensures
        ({
            let at = chain_bits(blocks, j).len() as int;
            let b = blocks[j];
            let head = head_bits(b, j + 1 == blocks.len());
            let content = content_bits(b, (at + 3) as nat);
            let from = chain_events(blocks, j).len() as int;
            &&& head.len() == 3
            &&& chain_bits(blocks, j + 1).len() == at + 3 + content.len()
            &&& at + 3 + content.len() <= chain_bits(blocks, n).len()
            &&& chain_bits(blocks, n).subrange(at, at + 3) == head
            &&& chain_bits(blocks, n).subrange(at + 3, at + 3 + content.len()) == content
            &&& chain_events(blocks, j + 1).len() == from + b.events().len()
            &&& from + b.events().len() <= chain_events(blocks, n).len()
            &&& chain_events(blocks, n).subrange(from, from + b.events().len()) == b.events()
        }),
    decreases n,
{
    let at = chain_bits(blocks, j).len() as int;
    let b = blocks[j];
    let head = head_bits(b, j + 1 == blocks.len());
    let content = content_bits(b, (at + 3) as nat);
    let from = chain_events(blocks, j).len() as int;
    let k = b.events().len();
    let all = chain_bits(blocks, n);
    let evs = chain_events(blocks, n);
    if j == n - 1 {
        assert(all.subrange(at, at + 3) =~= head);
        assert(all.subrange(at + 3, at + 3 + content.len()) =~= content);
        assert(evs.subrange(from, from + k) =~= b.events());
    } else {
        lemma_chain_part(blocks, j, n - 1);
        let before = chain_bits(blocks, n - 1);
        assert(all.subrange(at, at + 3) =~= before.subrange(at, at + 3));
        assert(all.subrange(at + 3, at + 3 + content.len()) =~= before.subrange(
            at + 3,
            at + 3 + content.len(),
        ));
        assert(evs.subrange(from, from + k) =~= chain_events(blocks, n - 1).subrange(
            from,
            from + k,
        ));
    }
}

/// The blocks from the `j`-th on are read.
proof fn lemma_chain_reads(
    data: Seq<u8>,
    blocks: Seq<Block>,
    j: int,
    acc: Decoded,
    max_output: Option<usize>,
    block_idx: u32,
)
    requires
        0 <= j < blocks.len(),
        forall|i: int| 0 <= i < blocks.len() ==> (#[trigger] blocks[i]).fits(),
        valid_events(chain_events(blocks, blocks.len() as int)),
        replay(chain_events(blocks, blocks.len() as int)).len() <= output_cap(max_output),
        bits_at(data, 0, chain_bits(blocks, blocks.len() as int).len()) == chain_bits(
            blocks,
            blocks.len() as int,
        ),
        chain_bits(blocks, blocks.len() as int).len() <= 8 * data.len() <= usize::MAX,
        decoded_first(
            acc.progress,
            chain_events(blocks, blocks.len() as int),
            chain_events(blocks, j).len() as int,
        ),
        acc.block_starts.len() == j,
    ensures
        all_blocks(data, chain_bits(blocks, j).len(), acc, max_output, block_idx) matches Ok(d)
            && d.block_starts.len() == blocks.len() && decoded_first(
            d.progress,
            chain_events(blocks, blocks.len() as int),
            chain_events(blocks, blocks.len() as int).len() as int,
        ),
    decreases blocks.len() - j,
{
    lemma2_to64();
    let n = blocks.len() as int;
    let bits = chain_bits(blocks, n);
    let all = chain_events(blocks, n);
    let b = blocks[j];
    let last = j + 1 == n;
    let at = chain_bits(blocks, j).len();
    let from = chain_events(blocks, j).len() as int;
    let head = head_bits(b, last);
    let content = content_bits(b, at + 3);
    lemma_chain_part(blocks, j, n);
    lemma_bits_part(data, 0, bits, at as int, head);
    lemma_bits_part(data, 0, bits, (at + 3) as int, content);
    let flag: nat = if last {
        1
    } else {
        0
    };
    assert(head.subrange(0, 1) =~= lsb_bits(flag, 1));
    assert(head.subrange(1, 3) =~= lsb_bits(b.kind(), 2));
    lemma_bits_part(data, at as int, head, 0, lsb_bits(flag, 1));
    lemma_bits_part(data, at as int, head, 1, lsb_bits(b.kind(), 2));
    lemma_field_written(data, at, flag, 1);
    lemma_field_written(data, at + 1, b.kind(), 2);
    lemma_block_reads(data, at + 3, all, from, b, acc, max_output, block_idx);
    lemma_blocks_advance(data, at, acc, max_output, block_idx);
    assert(skip_bits(at, 1) == at + 1 && skip_bits(at + 1, 2) == at + 3);
    if !last {
        let (acc2, next) = one_block(data, at + 3, b.kind(), acc, max_output, block_idx)->Ok_0;
        lemma_chain_reads(data, blocks, j + 1, acc2, max_output, block_idx.wrapping_add(1));
    }
}

/// Any chain of stored, fixed and dynamic blocks, in whatever order and number,
/// inflates to what their events replay to, one behind the other; every block
/// counts as one, and the events make the choices that were written.
pub proof fn law_block_chain(blocks: Seq<Block>, max_output: Option<usize>)
    requires
        blocks.len() > 0,
        forall|i: int| 0 <= i < blocks.len() ==> (#[trigger] blocks[i]).fits(),
        valid_events(chain_events(blocks, blocks.len() as int)),
        replay(chain_events(blocks, blocks.len() as int)).len() <= output_cap(max_output),
        8 * pack_bits(chain_bits(blocks, blocks.len() as int)).len() <= usize::MAX,
    ensures
        ({
            let all = chain_events(blocks, blocks.len() as int);
            decode_spec(pack_bits(chain_bits(blocks, blocks.len() as int)), max_output) matches Ok(d)
                && d.progress.out == replay(all) && d.block_starts.len() == blocks.len() && (replay(
                all,
            ).len() <= u32::MAX ==> same_choices(d.progress.events, all))
        }),
{
    let bits = chain_bits(blocks, blocks.len() as int);
    let all = chain_events(blocks, blocks.len() as int);
    lemma_packed(bits);
    assert(all.take(0) =~= Seq::<Event>::empty());
    assert(nothing_decoded().progress.out =~= replay(all.take(0)));
    lemma_chain_reads(pack_bits(bits), blocks, 0, nothing_decoded(), max_output, 0);
    assert(all.take(all.len() as int) =~= all);
}

// The block's number.

/// The error is that of a reserved block type.
pub open spec fn is_reserved(e: DecodeError) -> bool {
    e is ReservedBlockType
}

proof fn lemma_symbol_error(lengths: Seq<u32>, data: Seq<u8>, pos: nat)
    ensures
        decode_symbol(lengths, data, pos) matches Err(e) ==> !is_reserved(e),
        check_lengths(lengths) matches Err(e) ==> !is_reserved(e),
{
}

proof fn lemma_step_same(
    lit: Seq<u32>,
    dist: Seq<u32>,
    data: Seq<u8>,
    pos: nat,
    st: Progress,
    max_output: Option<usize>,
    i: u32,
    j: u32,
)
    ensures
        match (
            huffman_step(lit, dist, data, pos, st, max_output, i),
            huffman_step(lit, dist, data, pos, st, max_output, j),
        ) {
            (Step::Fail(e), Step::Fail(f)) => !is_reserved(e) && !is_reserved(f),
            (a, b) => a == b,
        },
{
    reveal(huffman_step);
    lemma_symbol_error(lit, data, pos);
    if let Ok((sym, next)) = decode_symbol(lit, data, pos) {
        let k = sym - 257;
        if sym > 256 && sym < 286 {
            let p = skip_bits(next, super::constants::LEXT@[k] as nat);
            lemma_symbol_error(dist, data, p);
        }
    }
}

proof fn lemma_huffman_same(
    lit: Seq<u32>,
    dist: Seq<u32>,
    data: Seq<u8>,
    pos: nat,
    st: Progress,
    max_output: Option<usize>,
    i: u32,
    j: u32,
)
    requires
        pos <= usize::MAX,
    ensures
        match (
            huffman_block(lit, dist, data, pos, st, max_output, i),
            huffman_block(lit, dist, data, pos, st, max_output, j),
        ) {
            (Err(e), Err(f)) => !is_reserved(e) && !is_reserved(f),
            (a, b) => a == b,
        },
    decreases output_cap(max_output) - st.out.len(),
{
    lemma_step_same(lit, dist, data, pos, st, max_output, i, j);
    lemma_step_grows(lit, dist, data, pos, st, max_output, i);
    if let Step::More(st2, next) = huffman_step(lit, dist, data, pos, st, max_output, i) {
        lemma_huffman_same(lit, dist, data, next, st2, max_output, i, j);
    }
}

proof fn lemma_run_error(meta: Seq<u32>, data: Seq<u8>, pos: nat, acc: Seq<u32>, total: nat)
    ensures
        length_run(meta, data, pos, acc, total) matches Err(e) ==> !is_reserved(e),
    decreases
            (if acc.len() < total {
                total - acc.len()
            } else {
                0
            }),
{
    lemma_symbol_error(meta, data, pos);
    if acc.len() < total {
        if let Ok((sym, next)) = decode_symbol(meta, data, pos) {
            let (acc2, pos2) = length_step(data, next, acc, sym);
            lemma_run_error(meta, data, pos2, acc2, total);
        }
    }
}

/// Whether a block is read, and what it adds, does not rest on how many blocks
/// stand before it; and a block is refused for its type exactly when its two
/// type bits are both set.
pub proof fn law_block_number(
    data: Seq<u8>,
    p: nat,
    block_type: nat,
    acc: Decoded,
    max_output: Option<usize>,
    i: u32,
    j: u32,
)
    requires
        block_type < 4,
        p <= usize::MAX,
    ensures
        one_block(data, p, block_type, acc, max_output, i) is Ok <==> one_block(
            data,
            p,
            block_type,
            acc,
            max_output,
            j,
        ) is Ok,
        one_block(data, p, block_type, acc, max_output, i) is Ok ==> one_block(
            data,
            p,
            block_type,
            acc,
            max_output,
            i,
        ) == one_block(data, p, block_type, acc, max_output, j),
        (one_block(data, p, block_type, acc, max_output, i) matches Err(e) && is_reserved(e))
            <==> block_type == 3,
{
    if block_type == 1 || block_type == 2 {
        match block_lengths(data, p, block_type) {
            Ok((lit, dist, body)) => {
                lemma_block_start(data, p, block_type);
                lemma_symbol_error(lit, data, body);
                lemma_symbol_error(dist, data, body);
                lemma_huffman_same(lit, dist, data, body, acc.progress, max_output, i, j);
            },
            Err(e) => {
                lemma_dynamic_error(data, p);
            },
        }
    }
}

proof fn lemma_dynamic_error(data: Seq<u8>, pos: nat)
    ensures
        dynamic_lengths(data, pos) matches Err(e) ==> !is_reserved(e),
{
    let hlit = field(data, pos, 5) + 257;
    let pos1 = skip_bits(pos, 5);
    let hdist = field(data, pos1, 5) + 1;
    let pos2 = skip_bits(pos1, 5);
    let hclen = field(data, pos2, 4) + 4;
    let pos3 = skip_bits(pos2, 4);
    let meta = super::inflate_spec::meta_lengths(data, pos3, hclen);
    lemma_symbol_error(meta, data, pos3);
    lemma_run_error(meta, data, skip_bits(pos3, 3 * hclen), Seq::empty(), hlit + hdist);
}

/// A stored block is taken exactly when the second copy of its length is the
/// first with every bit turned over.
pub proof fn law_stored_length_check(
    data: Seq<u8>,
    p: nat,
    acc: Decoded,
    max_output: Option<usize>,
    block_idx: u32,
)
    ensures
        ({
            let at = byte_aligned(p);
            let a = field(data, at, 16) as u16;
            let b = field(data, skip_bits(at, 16), 16) as u16;
            (one_block(data, p, 0, acc, max_output, block_idx) matches Err(e)
                && e is InvalidStoredBlockLength) <==> a ^ b != 0xFFFF
        }),
{
    lemma2_to64();
    let at = byte_aligned(p);
    lemma_lsb_value_bound(bits_at(data, at as int, 16));
    lemma_lsb_value_bound(bits_at(data, skip_bits(at, 16) as int, 16));
    let a = field(data, at, 16) as u16;
    let b = field(data, skip_bits(at, 16), 16) as u16;
    assert(a ^ b == 0xFFFF <==> a == 0xFFFFu16 - b) by (bit_vector);
}

/// What one symbol of a block leads to. A literal adds its byte; 256 ends the
/// block; and a length symbol is followed by the extra bits of the length, the
/// code of a distance symbol, and the extra bits of the distance, each of which
/// adds to its symbol's base. The copy is made from that far back.
pub proof fn law_symbol_read(
    lit: Seq<u32>,
    dist: Seq<u32>,
    data: Seq<u8>,
    pos: nat,
    st: Progress,
    max_output: Option<usize>,
    block_idx: u32,
    sym: u16,
    next: nat,
)
    requires
        decode_symbol(lit, data, pos) == Ok::<_, DecodeError>((sym, next)),
        st.out.len() + 258 <= output_cap(max_output),
        next + 100 <= usize::MAX,
    ensures
        ({
            let step = huffman_step(lit, dist, data, pos, st, max_output, block_idx);
            let i = sym - 257;
            let at = next + LEXT@[i];
            let d = decode_symbol(dist, data, at as nat);
            let far = DBASE@[d->Ok_0.0 as int] + field(
                data,
                d->Ok_0.1,
                DEXT@[d->Ok_0.0 as int] as nat,
            );
            let len = LBASE@[i] + field(data, next, LEXT@[i] as nat);
            &&& sym < 256 ==> (step matches Step::More(st2, p) && p == next && st2.out
                == st.out.push(sym as u8))
            &&& sym == 256 ==> step == Step::Done(next)
            &&& 257 <= sym < 286 && d is Ok && d->Ok_0.0 < 30 && far <= st.out.len()
                && d->Ok_0.1 + 13 <= usize::MAX ==> (step matches Step::More(st2, p) && p
                == d->Ok_0.1 + DEXT@[d->Ok_0.0 as int] && st2.out.len() == st.out.len() + len
                && st2.out.take(st.out.len() as int) == st.out && forall|k: int|
                0 <= k < len ==> #[trigger] st2.out[st.out.len() + k] == st2.out[st.out.len() + k
                    - far])
        }),
{
    reveal(huffman_step);
    lemma2_to64();
    let i = sym - 257;
    if 257 <= sym < 286 {
        let at = (next + LEXT@[i]) as nat;
        let len = LBASE@[i] as nat + field(data, next, LEXT@[i] as nat);
        lemma_length_range(i);
        lemma_lsb_value_bound(bits_at(data, next as int, LEXT@[i] as nat));
        assert(LEXT@[i] <= 5);
        assert(len <= 258);
        assert(skip_bits(next, LEXT@[i] as nat) == at);
        if let Ok((d, p3)) = decode_symbol(dist, data, at) {
            if d < 30 {
                let far = DBASE@[d as int] as nat + field(data, p3, DEXT@[d as int] as nat);
                assert(1 <= DBASE@[d as int]);
                assert(DEXT@[d as int] <= 13);
                if far <= st.out.len() {
                    lemma_copied(st.out, far, len);
                }
            }
        }
    }
}

proof fn lemma_copied(out: Seq<u8>, far: nat, n: nat)
    requires
        1 <= far <= out.len(),
    ensures
        copy_back(out, far, n).len() == out.len() + n,
        copy_back(out, far, n).take(out.len() as int) == out,
        forall|k: int|
            0 <= k < n ==> #[trigger] copy_back(out, far, n)[out.len() + k] == copy_back(
                out,
                far,
                n,
            )[out.len() + k - far],
    decreases n,
{
    if n > 0 {
        let m = (n - 1) as nat;
        lemma_copied(out, far, m);
        let shorter = copy_back(out, far, m);
        let all = copy_back(out, far, n);
        assert(all.take(out.len() as int) =~= shorter.take(out.len() as int));
        assert forall|k: int| 0 <= k < n implies #[trigger] all[out.len() + k] == all[out.len() + k
            - far] by {
            if k < m {
                assert(shorter[out.len() + k] == shorter[out.len() + k - far]);
            }
        }
    } else {
        assert(out.take(out.len() as int) =~= out);
    }
}

} // verus!
