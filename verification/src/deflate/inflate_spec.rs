//! What a DEFLATE stream means (RFC 1951): the output bytes, the events that
//! produce them, and the error of a stream that breaks a rule.
//!
//! Every function here starts at a bit position and says what is found there
//! and where the stream goes on.

use vstd::prelude::*;

use super::canonical::{check_lengths, decode_symbol, enc_of};
use super::constants::{CLORDER, DBASE, DEXT, LBASE, LEXT};
use super::error::DecodeError;
use super::events::{no_codes, Event, LitEvent, RefEvent, SymCode};
use crate::bitstream::{bits_at, byte_aligned, lsb_value, skip_bits};

verus! {

/// The number in the next `n` bits, least significant bit first.
pub open spec fn field(data: Seq<u8>, pos: nat, n: nat) -> nat {
    lsb_value(bits_at(data, pos as int, n))
}

/// What has been decoded so far.
#[verifier::ext_equal]
pub struct Progress {
    pub out: Seq<u8>,
    pub events: Seq<Event>,
    pub max_distance: u32,
}

/// The most bytes that may be produced.
pub open spec fn output_cap(max_output: Option<usize>) -> nat {
    match max_output {
        Some(max) => max as nat,
        None => usize::MAX as nat,
    }
}

/// The error of growing `len` bytes by `additional`, if that passes the cap.
pub open spec fn no_room(len: nat, additional: nat, max_output: Option<usize>) -> Option<
    DecodeError,
> {
    let cap = output_cap(max_output);
    if len + additional > cap {
        Some(
            DecodeError::OutputTooLarge {
                decoded: if len + additional <= usize::MAX {
                    (len + additional) as usize
                } else {
                    usize::MAX
                },
                max: cap as usize,
            },
        )
    } else {
        None
    }
}

/// One literal more, whose code starts at bit `pos`.
pub open spec fn with_literal(st: Progress, pos: nat, symbol: u8) -> Progress {
    Progress {
        out: st.out.push(symbol),
        events: st.events.push(
            Event::Lit(
                LitEvent { out_pos: st.out.len() as u32, bit_start: pos as u32, symbol },
            ),
        ),
        max_distance: st.max_distance,
    }
}

/// `out` grown by `n` bytes, each a copy of the one `distance` before it.
pub open spec fn copy_back(out: Seq<u8>, distance: nat, n: nat) -> Seq<u8>
    decreases n,
{
    if n == 0 {
        out
    } else {
        let shorter = copy_back(out, distance, (n - 1) as nat);
        shorter.push(shorter[shorter.len() - distance])
    }
}

/// One back-reference more, whose distance code starts at bit `pos`.
pub open spec fn with_copy(
    st: Progress,
    pos: nat,
    copy_len: nat,
    dist_sym: u16,
    distance: nat,
) -> Progress {
    Progress {
        out: copy_back(st.out, distance, copy_len),
        events: st.events.push(
            Event::Ref(
                RefEvent {
                    out_pos: st.out.len() as u32,
                    src_out_pos: (st.out.len() - distance) as u32,
                    dist_bit_start: pos as u32,
                    copy_len: copy_len as u16,
                    dist_sym: dist_sym as u8,
                },
            ),
        ),
        max_distance: if distance > st.max_distance {
            distance as u32
        } else {
            st.max_distance
        },
    }
}

/// What one literal/length symbol of a Huffman block leads to.
pub enum Step {
    /// End of block; the stream goes on at this position.
    Done(nat),
    /// One event more, and the position behind it.
    More(Progress, nat),
    Fail(DecodeError),
}

/// The back-reference behind the length symbol `sym`, whose extra bits start
/// at `pos`.
pub open spec fn copy_step(
    dist: Seq<u32>,
    data: Seq<u8>,
    sym: u16,
    pos: nat,
    st: Progress,
    max_output: Option<usize>,
    block_idx: u32,
) -> Step {
    let i = sym - 257;
    let copy_len = LBASE@[i] as nat + field(data, pos, LEXT@[i] as nat);
    let dist_pos = skip_bits(pos, LEXT@[i] as nat);
    match decode_symbol(dist, data, dist_pos) {
        Err(e) => Step::Fail(e),
        Ok((d, extra_pos)) => if d >= 30 {
            Step::Fail(DecodeError::InvalidDistanceSymbol { sym: d, block_idx })
        } else {
            let distance = DBASE@[d as int] as nat + field(data, extra_pos, DEXT@[d as int] as nat);
            if distance > st.out.len() {
                Step::Fail(
                    DecodeError::InvalidDistance {
                        distance: distance as u32,
                        output_len: st.out.len() as usize,
                        block_idx,
                    },
                )
            } else {
                match no_room(st.out.len(), copy_len, max_output) {
                    Some(e) => Step::Fail(e),
                    None => Step::More(
                        with_copy(st, dist_pos, copy_len, d, distance),
                        skip_bits(extra_pos, DEXT@[d as int] as nat),
                    ),
                }
            }
        },
    }
}

/// One step of a Huffman block whose codes have the lengths `lit` and `dist`.
#[verifier::opaque]
pub open spec fn huffman_step(
    lit: Seq<u32>,
    dist: Seq<u32>,
    data: Seq<u8>,
    pos: nat,
    st: Progress,
    max_output: Option<usize>,
    block_idx: u32,
) -> Step {
    match decode_symbol(lit, data, pos) {
        Err(e) => Step::Fail(e),
        Ok((sym, next)) => if sym == 256 {
            Step::Done(next)
        } else if sym < 256 {
            match no_room(st.out.len(), 1, max_output) {
                Some(e) => Step::Fail(e),
                None => Step::More(with_literal(st, pos, sym as u8), next),
            }
        } else if sym >= 286 {
            Step::Fail(DecodeError::InvalidLengthSymbol { sym, block_idx })
        } else {
            copy_step(dist, data, sym, next, st, max_output, block_idx)
        },
    }
}

/// The rest of a Huffman block.
pub open spec fn huffman_block(
    lit: Seq<u32>,
    dist: Seq<u32>,
    data: Seq<u8>,
    pos: nat,
    st: Progress,
    max_output: Option<usize>,
    block_idx: u32,
) -> Result<(Progress, nat), DecodeError>
    decreases output_cap(max_output) - st.out.len(),
{
    match huffman_step(lit, dist, data, pos, st, max_output, block_idx) {
        Step::Done(next) => Ok((st, next)),
        Step::Fail(e) => Err(e),
        Step::More(st2, next) => if st.out.len() < st2.out.len() <= output_cap(max_output) {
            huffman_block(lit, dist, data, next, st2, max_output, block_idx)
        } else {
            // Never: every block, and every event in it, moves the stream on.
            arbitrary()
        },
    }
}

/// `n` bytes of a stored block.
pub open spec fn stored_bytes(data: Seq<u8>, pos: nat, st: Progress, n: nat) -> (Progress, nat)
    decreases n,
{
    if n == 0 {
        (st, pos)
    } else {
        let (st1, pos1) = stored_bytes(data, pos, st, (n - 1) as nat);
        (with_literal(st1, pos1, field(data, pos1, 8) as u8), skip_bits(pos1, 8))
    }
}

/// A stored block (BTYPE=00), from behind its three header bits.
pub open spec fn stored_block(
    data: Seq<u8>,
    pos: nat,
    st: Progress,
    max_output: Option<usize>,
    block_idx: u32,
) -> Result<(Progress, nat), DecodeError> {
    let len_pos = byte_aligned(pos);
    let length = field(data, len_pos, 16);
    let nlen_pos = skip_bits(len_pos, 16);
    let nlen = field(data, nlen_pos, 16);
    if length + nlen != 0xFFFF {
        Err(
            DecodeError::InvalidStoredBlockLength {
                length: length as u16,
                nlen: nlen as u16,
                block_idx,
            },
        )
    } else {
        match no_room(st.out.len(), length, max_output) {
            Some(e) => Err(e),
            None => Ok(stored_bytes(data, skip_bits(nlen_pos, 16), st, length)),
        }
    }
}

/// The fixed literal/length code lengths (RFC 1951 §3.2.6).
pub open spec fn fixed_lit_lengths() -> Seq<u32> {
    Seq::new(
        288,
        |i: int|
            if i < 144 {
                8u32
            } else if i < 256 {
                9u32
            } else if i < 280 {
                7u32
            } else {
                8u32
            },
    )
}

/// The fixed distance code lengths (RFC 1951 §3.2.6).
pub open spec fn fixed_dist_lengths() -> Seq<u32> {
    Seq::new(32, |i: int| 5u32)
}

/// The lengths of the code-length codes, of which the first `n` in
/// transmission order are present.
pub open spec fn meta_lengths(data: Seq<u8>, pos: nat, n: nat) -> Seq<u32>
    decreases n,
{
    if n == 0 {
        Seq::new(19, |i: int| 0u32)
    } else {
        meta_lengths(data, pos, (n - 1) as nat).update(
            CLORDER@[n - 1] as int,
            field(data, skip_bits(pos, (3 * (n - 1)) as nat), 3) as u32,
        )
    }
}

/// `acc` followed by `n` times `v`.
pub open spec fn repeated(acc: Seq<u32>, v: u32, n: nat) -> Seq<u32> {
    acc + Seq::new(n, |i: int| v)
}

/// One code-length symbol applied to the lengths read so far (RFC 1951
/// §3.2.7), and the position behind its extra bits.
pub open spec fn length_step(data: Seq<u8>, pos: nat, acc: Seq<u32>, sym: u16) -> (Seq<u32>, nat) {
    if sym <= 15 {
        (acc.push(sym as u32), pos)
    } else if sym == 16 {
        let last = if acc.len() > 0 {
            acc.last()
        } else {
            0
        };
        (repeated(acc, last, field(data, pos, 2) + 3), skip_bits(pos, 2))
    } else if sym == 17 {
        (repeated(acc, 0, field(data, pos, 3) + 3), skip_bits(pos, 3))
    } else {
        (repeated(acc, 0, field(data, pos, 7) + 11), skip_bits(pos, 7))
    }
}

/// Code lengths read until there are at least `total` of them.
pub open spec fn length_run(
    meta: Seq<u32>,
    data: Seq<u8>,
    pos: nat,
    acc: Seq<u32>,
    total: nat,
) -> Result<(Seq<u32>, nat), DecodeError>
    decreases
            (if acc.len() < total {
                total - acc.len()
            } else {
                0
            }),
{
    if acc.len() >= total {
        Ok((acc, pos))
    } else {
        match decode_symbol(meta, data, pos) {
            Err(e) => Err(e),
            Ok((sym, next)) => {
                let (acc2, pos2) = length_step(data, next, acc, sym);
                length_run(meta, data, pos2, acc2, total)
            },
        }
    }
}

/// The literal/length and distance code lengths of a dynamic block (BTYPE=10),
/// from behind its three header bits.
pub open spec fn dynamic_lengths(data: Seq<u8>, pos: nat) -> Result<
    (Seq<u32>, Seq<u32>, nat),
    DecodeError,
> {
    let hlit = field(data, pos, 5) + 257;
    let pos1 = skip_bits(pos, 5);
    let hdist = field(data, pos1, 5) + 1;
    let pos2 = skip_bits(pos1, 5);
    let hclen = field(data, pos2, 4) + 4;
    let pos3 = skip_bits(pos2, 4);
    let meta = meta_lengths(data, pos3, hclen);
    match check_lengths(meta) {
        Err(e) => Err(e),
        Ok(_) => match length_run(
            meta,
            data,
            skip_bits(pos3, 3 * hclen),
            Seq::empty(),
            hlit + hdist,
        ) {
            Err(e) => Err(e),
            Ok((all, next)) => Ok(
                (all.take(hlit as int), all.subrange(hlit as int, all.len() as int), next),
            ),
        },
    }
}

/// The code lengths of a Huffman block of type 1 or 2.
pub open spec fn block_lengths(data: Seq<u8>, pos: nat, block_type: nat) -> Result<
    (Seq<u32>, Seq<u32>, nat),
    DecodeError,
> {
    if block_type == 1 {
        Ok((fixed_lit_lengths(), fixed_dist_lengths(), pos))
    } else {
        dynamic_lengths(data, pos)
    }
}

/// A whole decode: the progress, and for every block its encoder tables and
/// the index of its first event.
#[verifier::ext_equal]
pub struct Decoded {
    pub progress: Progress,
    pub lit_encs: Seq<Seq<SymCode>>,
    pub dist_encs: Seq<Seq<SymCode>>,
    pub block_starts: Seq<u32>,
}

/// Nothing decoded yet.
pub open spec fn nothing_decoded() -> Decoded {
    Decoded {
        progress: Progress { out: Seq::empty(), events: Seq::empty(), max_distance: 1 },
        lit_encs: Seq::empty(),
        dist_encs: Seq::empty(),
        block_starts: Seq::empty(),
    }
}

/// One block more, of type `block_type`, from behind its header bits.
pub open spec fn one_block(
    data: Seq<u8>,
    pos: nat,
    block_type: nat,
    acc: Decoded,
    max_output: Option<usize>,
    block_idx: u32,
) -> Result<(Decoded, nat), DecodeError> {
    let starts = acc.block_starts.push(acc.progress.events.len() as u32);
    if block_type == 0 {
        match stored_block(data, pos, acc.progress, max_output, block_idx) {
            Err(e) => Err(e),
            Ok((progress, next)) => Ok(
                (
                    Decoded {
                        progress,
                        lit_encs: acc.lit_encs.push(no_codes(288)),
                        dist_encs: acc.dist_encs.push(no_codes(30)),
                        block_starts: starts,
                    },
                    next,
                ),
            ),
        }
    } else if block_type == 3 {
        Err(DecodeError::ReservedBlockType { block_idx })
    } else {
        match block_lengths(data, pos, block_type) {
            Err(e) => Err(e),
            Ok((lit, dist, body)) => match check_lengths(lit) {
                Err(e) => Err(e),
                Ok(_) => match check_lengths(dist) {
                    Err(e) => Err(e),
                    Ok(_) => match huffman_block(
                        lit,
                        dist,
                        data,
                        body,
                        acc.progress,
                        max_output,
                        block_idx,
                    ) {
                        Err(e) => Err(e),
                        Ok((progress, next)) => Ok(
                            (
                                Decoded {
                                    progress,
                                    lit_encs: acc.lit_encs.push(enc_of(lit)),
                                    dist_encs: acc.dist_encs.push(enc_of(dist)),
                                    block_starts: starts,
                                },
                                next,
                            ),
                        ),
                    },
                },
            },
        }
    }
}

/// How much of the stream is ahead of `pos`.
pub open spec fn bits_ahead(data: Seq<u8>, pos: nat) -> nat {
    if pos < 8 * data.len() {
        (8 * data.len() - pos) as nat
    } else {
        0
    }
}

/// The blocks from `pos` to the end of the stream.
pub open spec fn all_blocks(
    data: Seq<u8>,
    pos: nat,
    acc: Decoded,
    max_output: Option<usize>,
    block_idx: u32,
) -> Result<Decoded, DecodeError>
    decreases bits_ahead(data, pos),
{
    let last = field(data, pos, 1) == 1;
    let type_pos = skip_bits(pos, 1);
    match one_block(
        data,
        skip_bits(type_pos, 2),
        field(data, type_pos, 2),
        acc,
        max_output,
        block_idx,
    ) {
        Err(e) => Err(e),
        Ok((acc2, next)) => if last {
            Ok(acc2)
        } else if bits_ahead(data, next) < bits_ahead(data, pos) {
            all_blocks(data, next, acc2, max_output, block_idx.wrapping_add(1))
        } else {
            // Never: every block, and every event in it, moves the stream on.
            arbitrary()
        },
    }
}

/// What a raw DEFLATE stream decodes to, under a cap on the output size.
pub open spec fn decode_spec(data: Seq<u8>, max_output: Option<usize>) -> Result<
    Decoded,
    DecodeError,
> {
    all_blocks(data, 0, nothing_decoded(), max_output, 0)
}

/// What a raw DEFLATE stream inflates to, under a cap on the output size.
pub open spec fn inflate_spec(data: Seq<u8>, max_output: Option<usize>) -> Result<
    Seq<u8>,
    DecodeError,
> {
    match decode_spec(data, max_output) {
        Ok(d) => Ok(d.progress.out),
        Err(e) => Err(e),
    }
}

} // verus!
