//! How a decode's blocks, tables and events fit together.

use vstd::prelude::*;

use super::decoder::{lemma_blocks_advance, lemma_one_block, lemma_step_grows};
use super::events::{starts_sorted, Event};
use super::inflate_spec::{
    all_blocks, block_lengths, decode_spec, field, huffman_block, huffman_step, nothing_decoded,
    one_block, output_cap, stored_bytes, Decoded, Progress, Step,
};
use super::replay_law::lemma_block_start;
use crate::bitstream::{byte_aligned, skip_bits};

verus! {

/// The largest distance of a back-reference, or 1 where there is none.
pub open spec fn max_distance_of(events: Seq<Event>) -> u32
    decreases events.len(),
{
    if events.len() == 0 {
        1
    } else {
        let rest = max_distance_of(events.drop_last());
        match events.last() {
            Event::Lit(_) => rest,
            Event::Ref(r) => if r.out_pos - r.src_out_pos > rest {
                (r.out_pos - r.src_out_pos) as u32
            } else {
                rest
            },
        }
    }
}

/// The tables and starts of the blocks go together, the starts are in order and
/// lie inside the event list, and the largest distance is that of the events.
pub open spec fn laid_out(d: Decoded) -> bool {
    &&& d.lit_encs.len() == d.block_starts.len()
    &&& d.dist_encs.len() == d.block_starts.len()
    &&& d.progress.events.len() <= u32::MAX ==> {
        &&& starts_sorted(d.block_starts)
        &&& forall|b: int|
            0 <= b < d.block_starts.len() ==> (#[trigger] d.block_starts[b])
                <= d.progress.events.len()
    }
    &&& d.block_starts.len() > 0 ==> d.block_starts[0] == 0
    &&& d.block_starts.len() == 0 ==> d.progress.events.len() == 0
    &&& tallied(d.progress)
}

/// The largest distance is that of the events.
pub open spec fn tallied(st: Progress) -> bool {
    st.out.len() <= u32::MAX ==> st.max_distance == max_distance_of(st.events)
}

/// One state grown out of another.
pub open spec fn grown(st: Progress, st2: Progress) -> bool {
    &&& st.events.len() <= st2.events.len()
    &&& st.out.len() <= st2.out.len()
    &&& tallied(st) ==> tallied(st2)
}

proof fn lemma_step_layout(
    lit: Seq<u32>,
    dist: Seq<u32>,
    data: Seq<u8>,
    pos: nat,
    st: Progress,
    max_output: Option<usize>,
    block_idx: u32,
)
    requires
        pos <= usize::MAX,
    ensures
        huffman_step(lit, dist, data, pos, st, max_output, block_idx) matches Step::More(st2, _)
            ==> grown(st, st2),
{
    lemma_step_grows(lit, dist, data, pos, st, max_output, block_idx);
    reveal(huffman_step);
    if let Step::More(st2, _) = huffman_step(lit, dist, data, pos, st, max_output, block_idx) {
        assert(st2.events.drop_last() =~= st.events);
        if st2.out.len() <= u32::MAX {
            if let Event::Ref(r) = st2.events.last() {
                assert(r.out_pos == st.out.len());
            }
        }
    }
}

proof fn lemma_huffman_layout(
    lit: Seq<u32>,
    dist: Seq<u32>,
    data: Seq<u8>,
    pos: nat,
    st: Progress,
    max_output: Option<usize>,
    block_idx: u32,
)
    requires
        pos <= usize::MAX,
    ensures
        huffman_block(lit, dist, data, pos, st, max_output, block_idx) matches Ok((st2, _))
            ==> grown(st, st2),
    decreases output_cap(max_output) - st.out.len(),
{
    lemma_step_layout(lit, dist, data, pos, st, max_output, block_idx);
    lemma_step_grows(lit, dist, data, pos, st, max_output, block_idx);
    match huffman_step(lit, dist, data, pos, st, max_output, block_idx) {
        Step::More(st2, next) => {
            lemma_huffman_layout(lit, dist, data, next, st2, max_output, block_idx);
        },
        _ => {},
    }
}

proof fn lemma_stored_layout(data: Seq<u8>, pos: nat, st: Progress, n: nat)
    ensures
        grown(st, stored_bytes(data, pos, st, n).0),
    decreases n,
{
    if n > 0 {
        lemma_stored_layout(data, pos, st, (n - 1) as nat);
        let (st1, pos1) = stored_bytes(data, pos, st, (n - 1) as nat);
        let st2 = stored_bytes(data, pos, st, n).0;
        assert(st2.events.drop_last() =~= st1.events);
    }
}

proof fn lemma_block_layout(acc: Decoded, acc2: Decoded)
    requires
        laid_out(acc),
        grown(acc.progress, acc2.progress),
        acc2.lit_encs.len() == acc.lit_encs.len() + 1,
        acc2.dist_encs.len() == acc.dist_encs.len() + 1,
        acc2.block_starts == acc.block_starts.push(acc.progress.events.len() as u32),
    ensures
        laid_out(acc2),
{
    if acc2.progress.events.len() <= u32::MAX {
        assert forall|i: int, j: int|
            0 <= i <= j < acc2.block_starts.len() implies acc2.block_starts[i]
            <= acc2.block_starts[j] by {
            if j < acc.block_starts.len() {
                assert(acc.block_starts[i] <= acc.block_starts[j]);
            } else if i < j {
                assert(acc.block_starts[i] <= acc.progress.events.len());
            }
        }
        assert forall|b: int| 0 <= b < acc2.block_starts.len() implies (
        #[trigger] acc2.block_starts[b]) <= acc2.progress.events.len() by {
            if b < acc.block_starts.len() {
                assert(acc.block_starts[b] <= acc.progress.events.len());
            }
        }
    }
}

proof fn lemma_blocks_layout(
    data: Seq<u8>,
    pos: nat,
    acc: Decoded,
    max_output: Option<usize>,
    block_idx: u32,
)
    requires
        laid_out(acc),
        pos <= usize::MAX,
        8 * data.len() <= usize::MAX,
    ensures
        all_blocks(data, pos, acc, max_output, block_idx) matches Ok(d) ==> laid_out(d)
            && d.block_starts.len() > 0,
    decreases super::inflate_spec::bits_ahead(data, pos),
{
    let type_pos = skip_bits(pos, 1);
    let body = skip_bits(type_pos, 2);
    let block_type = field(data, type_pos, 2);
    lemma_one_block(data, body, block_type, acc, max_output, block_idx);
    lemma_blocks_advance(data, pos, acc, max_output, block_idx);
    if block_type == 0 {
        let len_pos = byte_aligned(body);
        lemma_stored_layout(
            data,
            skip_bits(skip_bits(len_pos, 16), 16),
            acc.progress,
            field(data, len_pos, 16),
        );
    } else if block_type != 3 {
        match block_lengths(data, body, block_type) {
            Ok((lit, dist, start)) => {
                lemma_block_start(data, body, block_type);
                lemma_huffman_layout(
                    lit,
                    dist,
                    data,
                    start,
                    acc.progress,
                    max_output,
                    block_idx,
                );
            },
            Err(_) => {},
        }
    }
    match one_block(data, body, block_type, acc, max_output, block_idx) {
        Ok((acc2, next)) => {
            lemma_block_layout(acc, acc2);
            if field(data, pos, 1) != 1 {
                lemma_blocks_layout(data, next, acc2, max_output, block_idx.wrapping_add(1));
            }
        },
        Err(_) => {},
    }
}

/// Every decode has one start and one pair of tables per block, at least one
/// block, and starts that are in order and inside the event list.
pub proof fn law_decode_laid_out(data: Seq<u8>, max_output: Option<usize>)
    requires
        8 * data.len() <= usize::MAX,
    ensures
        decode_spec(data, max_output) matches Ok(d) ==> laid_out(d) && d.block_starts.len() > 0,
{
    lemma_blocks_layout(data, 0, nothing_decoded(), max_output, 0);
}

} // verus!
