//! DEFLATE block-scanning driver.
//!
//! Decodes each BTYPE 0/1/2 block, records every literal and back-reference
//! as an [`Event`], and keeps per-block encoder tables so writers can re-emit
//! edits without rebuilding Huffman trees.

use vstd::arithmetic::power2::{lemma2_to64, pow2};
use vstd::prelude::*;

use super::canonical::{check_lengths, decode_symbol};
use super::constants::{CLORDER, DBASE, DEXT, LBASE, LEXT};
use super::error::DecodeError;
use super::events::{EncTable, Event, LitEvent, RefEvent, SymCode};
use super::huffman::{build_tree, decode_sym, HuffmanTable};
use super::inflate_spec::{
    all_blocks, bits_ahead, block_lengths, copy_back, copy_step, decode_spec, field,
    fixed_dist_lengths, fixed_lit_lengths, huffman_block, huffman_step, inflate_spec, length_run,
    length_step, meta_lengths, no_room, nothing_decoded, one_block, output_cap, repeated,
    stored_block, stored_bytes, with_copy, with_literal, Decoded, Progress, Step,
};
use crate::bitstream::{bits_at, byte_aligned, lemma_lsb_value_bound, skip_bits, BitReader};

verus! {

/// A decoded stream: the bytes, the events that produced them, and for every
/// block its encoder tables and where its events start.
#[derive(Debug)]
pub struct DecodedDeflate {
    pub output: Vec<u8>,
    pub events: Vec<Event>,
    pub lit_encs: Vec<EncTable>,
    pub dist_encs: Vec<EncTable>,
    /// Index of each block's first event.
    pub block_starts: Vec<u32>,
    /// Largest LZ77 back-reference distance found in `events`, or 1 if
    /// no back-references were emitted. Cached here so consumers (e.g.
    /// the distance-overlay colour scaler) don't need a second event scan.
    pub max_distance: u32,
}

/// The contents of a list of encoder tables.
pub open spec fn enc_views(encs: Seq<EncTable>) -> Seq<Seq<SymCode>> {
    Seq::new(encs.len(), |i: int| encs[i]@)
}

impl View for DecodedDeflate {
    type V = Decoded;

    open spec fn view(&self) -> Decoded {
        Decoded {
            progress: Progress {
                out: self.output@,
                events: self.events@,
                max_distance: self.max_distance,
            },
            lit_encs: enc_views(self.lit_encs@),
            dist_encs: enc_views(self.dist_encs@),
            block_starts: self.block_starts@,
        }
    }
}

impl DecodedDeflate {
    /// Number of blocks in the stream.
    pub fn num_blocks(&self) -> (r: usize)
        ensures
            r == self@.block_starts.len(),
    {
        self.block_starts.len()
    }
}

/// Mutable state threaded through the per-block decoders: the output
/// buffer, event log, running max-distance, and the optional output cap.
pub struct DecodeState {
    pub output: Vec<u8>,
    pub events: Vec<Event>,
    pub max_distance: u32,
    pub max_output: Option<usize>,
    pub record: bool,
    /// Every event decoded, kept or not.
    pub log: Ghost<Seq<Event>>,
}

impl View for DecodeState {
    type V = Progress;

    open spec fn view(&self) -> Progress {
        Progress { out: self.output@, events: self.log@, max_distance: self.max_distance }
    }
}

impl DecodeState {
    /// Whether `events` keeps every event decoded.
    pub open spec fn recording(&self) -> bool {
        self.record
    }

    /// A recording state holds exactly the events decoded.
    pub open spec fn wf(&self) -> bool {
        self.record ==> self.events@ == self.log@
    }

    /// A state with nothing decoded yet. With `record` off, events are
    /// decoded but not kept.
    pub fn new(max_output: Option<usize>, record: bool) -> (r: Self)
        ensures
            r.wf(),
            r@ == nothing_decoded().progress,
            r.max_output == max_output,
            r.recording() == record,
    {
        DecodeState {
            output: Vec::new(),
            events: Vec::new(),
            max_distance: 1,
            max_output,
            record,
            log: Ghost(Seq::empty()),
        }
    }

    /// Bail when extending `output` by `additional` bytes would exceed
    /// the cap.
    pub fn check_room(&self, additional: usize) -> (r: Result<(), DecodeError>)
        ensures
            match r {
                Ok(_) => self.max_output is Some ==> no_room(
                    self@.out.len(),
                    additional as nat,
                    self.max_output,
                ) is None,
                Err(e) => no_room(self@.out.len(), additional as nat, self.max_output) == Some(e),
            },
    {
        if let Some(max) = self.max_output {
            let len: usize = self.output.len();
            if additional > max || len > max - additional {
                return Err(
                    DecodeError::OutputTooLarge { decoded: len.saturating_add(additional), max },
                );
            }
        }
        Ok(())
    }

    /// Append a literal whose code starts at bit `pos`.
    fn emit_literal(&mut self, pos: usize, symbol: u8)
        requires
            old(self).wf(),
        ensures
            final(self).wf(),
            final(self)@ == with_literal(old(self)@, pos as nat, symbol),
            final(self).max_output == old(self).max_output,
            final(self).recording() == old(self).recording(),
            final(self)@.out.len() <= usize::MAX,
    {
        let event = Event::Lit(
            LitEvent {
                out_pos: self.output.len() as u32,
                bit_start: pos as u32,
                symbol,
            },
        );
        if self.record {
            self.events.push(event);
        }
        self.log = Ghost(self.log@.push(event));
        self.output.push(symbol);
        assert(self.output.len() <= usize::MAX);
    }

    /// Append a back-reference whose distance code starts at bit `dist_pos`.
    ///
    /// When `distance < copy_len` the source range overlaps the destination,
    /// and each push extends the bytes a later iteration will read: the
    /// run-length pattern that makes "copy 64 bytes from one byte back"
    /// expand a single byte into 64.
    fn emit_copy(&mut self, dist_pos: usize, copy_len: u32, dist_sym: u16, distance: u32)
        requires
            old(self).wf(),
            1 <= distance <= old(self)@.out.len(),
        ensures
            final(self).wf(),
            final(self)@ == with_copy(
                old(self)@,
                dist_pos as nat,
                copy_len as nat,
                dist_sym,
                distance as nat,
            ),
            final(self).max_output == old(self).max_output,
            final(self).recording() == old(self).recording(),
            final(self)@.out.len() <= usize::MAX,
    {
        if distance > self.max_distance {
            self.max_distance = distance;
        }
        let src_start: usize = self.output.len() - distance as usize;
        let event = Event::Ref(
            RefEvent {
                out_pos: self.output.len() as u32,
                src_out_pos: src_start as u32,
                dist_bit_start: dist_pos as u32,
                copy_len: copy_len as u16,
                dist_sym: dist_sym as u8,
            },
        );
        if self.record {
            self.events.push(event);
        }
        self.log = Ghost(self.log@.push(event));
        let mut i: u32 = 0;
        while i < copy_len
            invariant
                i <= copy_len,
                1 <= distance <= old(self)@.out.len(),
                src_start == old(self)@.out.len() - distance,
                self.output@ == copy_back(old(self)@.out, distance as nat, i as nat),
                self.output@.len() == old(self)@.out.len() + i,
                self.wf(),
                self.log@ == old(self)@.events.push(event),
                self.max_distance == (if distance > old(self)@.max_distance {
                    distance
                } else {
                    old(self)@.max_distance
                }),
                self.max_output == old(self).max_output,
                self.recording() == old(self).recording(),
            decreases copy_len - i,
        {
            assert(self.output.len() <= usize::MAX);
            let byte: u8 = self.output[src_start + i as usize];
            self.output.push(byte);
            i = i + 1;
        }
        assert(self.output.len() <= usize::MAX);
    }
}

/// What a block decoder reports, against what the stream means.
pub open spec fn block_outcome(
    expected: Result<(Progress, nat), DecodeError>,
    r: Result<(), DecodeError>,
    st: Progress,
    pos: nat,
) -> bool {
    match expected {
        Ok((st2, pos2)) => r is Ok && st == st2 && pos == pos2,
        Err(e) => r == Err::<(), _>(e),
    }
}

proof fn lemma_copy_back_len(out: Seq<u8>, distance: nat, n: nat)
    ensures
        copy_back(out, distance, n).len() == out.len() + n,
    decreases n,
{
    if n > 0 {
        lemma_copy_back_len(out, distance, (n - 1) as nat);
    }
}

/// A step that decodes an event grows the output, within the cap, and does
/// not move back.
pub proof fn lemma_step_grows(
    lit: Seq<u32>,
    dist: Seq<u32>,
    data: Seq<u8>,
    pos: nat,
    st: Progress,
    max_output: Option<usize>,
    block_idx: u32,
)
    requires
        pos <= usize::MAX,
    ensures
        match huffman_step(lit, dist, data, pos, st, max_output, block_idx) {
            Step::Done(next) => pos <= next <= usize::MAX,
            Step::More(st2, next) => pos <= next <= usize::MAX && st.out.len() < st2.out.len()
                <= output_cap(max_output),
            Step::Fail(_) => true,
        },
{
    reveal(huffman_step);
    match decode_symbol(lit, data, pos) {
        Ok((sym, next)) => if 256 < sym < 286 {
            let i = sym - 257;
            let copy_len = LBASE@[i] as nat + field(data, next, LEXT@[i] as nat);
            assert(LBASE@[i] >= 3);
            let dist_pos = skip_bits(next, LEXT@[i] as nat);
            match decode_symbol(dist, data, dist_pos) {
                Ok((d, extra_pos)) => if d < 30 {
                    let distance = DBASE@[d as int] as nat + field(
                        data,
                        extra_pos,
                        DEXT@[d as int] as nat,
                    );
                    lemma_copy_back_len(st.out, distance, copy_len);
                },
                Err(_) => {},
            }
        },
        Err(_) => {},
    }
}

/// A Huffman block ends no earlier than it starts.
pub proof fn lemma_huffman_block_advances(
    lit: Seq<u32>,
    dist: Seq<u32>,
    data: Seq<u8>,
    pos: nat,
    st: Progress,
    max_output: Option<usize>,
    block_idx: u32,
)
    requires
        pos <= usize::MAX,
    ensures
        huffman_block(lit, dist, data, pos, st, max_output, block_idx) matches Ok((st2, next))
            ==> pos <= next <= usize::MAX && st.out.len() <= st2.out.len() && (st.out.len()
            <= output_cap(max_output) ==> st2.out.len() <= output_cap(max_output)),
    decreases output_cap(max_output) - st.out.len(),
{
    lemma_step_grows(lit, dist, data, pos, st, max_output, block_idx);
    match huffman_step(lit, dist, data, pos, st, max_output, block_idx) {
        Step::More(st2, next) => {
            lemma_huffman_block_advances(lit, dist, data, next, st2, max_output, block_idx);
        },
        _ => {},
    }
}

/// Bits past the end of a stream are zero.
pub proof fn lemma_field_past_end(data: Seq<u8>, pos: nat, n: nat)
    requires
        pos >= 8 * data.len(),
    ensures
        field(data, pos, n) == 0,
    decreases n,
{
    let s = bits_at(data, pos as int, n);
    if n > 0 {
        lemma_field_past_end(data, pos + 1, (n - 1) as nat);
        assert(s.subrange(1, n as int) =~= bits_at(data, (pos + 1) as int, (n - 1) as nat));
        assert(!s[0]);
    }
}

pub proof fn lemma_field_bound(data: Seq<u8>, pos: nat, n: nat)
    ensures
        field(data, pos, n) < pow2(n),
{
    lemma_lsb_value_bound(bits_at(data, pos as int, n));
}

pub proof fn lemma_stored_bytes(data: Seq<u8>, pos: nat, st: Progress, n: nat)
    requires
        pos <= usize::MAX,
    ensures
        stored_bytes(data, pos, st, n).0.out.len() == st.out.len() + n,
        pos <= stored_bytes(data, pos, st, n).1 <= usize::MAX,
    decreases n,
{
    if n > 0 {
        lemma_stored_bytes(data, pos, st, (n - 1) as nat);
    }
}

pub proof fn lemma_length_run(
    meta: Seq<u32>,
    data: Seq<u8>,
    pos: nat,
    acc: Seq<u32>,
    total: nat,
)
    requires
        pos <= usize::MAX,
    ensures
        length_run(meta, data, pos, acc, total) matches Ok((all, next)) ==> pos <= next
            <= usize::MAX && total <= all.len(),
    decreases
            (if acc.len() < total {
                total - acc.len()
            } else {
                0
            }),
{
    if acc.len() < total {
        match decode_symbol(meta, data, pos) {
            Ok((sym, next)) => {
                let (acc2, pos2) = length_step(data, next, acc, sym);
                lemma_length_run(meta, data, pos2, acc2, total);
            },
            Err(_) => {},
        }
    }
}

/// A block ends no earlier than it starts, keeps the output under the cap,
/// and past the end of the stream there is none.
pub proof fn lemma_one_block(
    data: Seq<u8>,
    pos: nat,
    block_type: nat,
    acc: Decoded,
    max_output: Option<usize>,
    block_idx: u32,
)
    requires
        pos <= usize::MAX,
        8 * data.len() <= usize::MAX,
    ensures
        one_block(data, pos, block_type, acc, max_output, block_idx) matches Ok((acc2, next))
            ==> pos <= next <= usize::MAX && (acc.progress.out.len() <= output_cap(max_output)
            ==> acc2.progress.out.len() <= output_cap(max_output)),
        pos >= 8 * data.len() && block_type == 0 ==> one_block(
            data,
            pos,
            block_type,
            acc,
            max_output,
            block_idx,
        ) is Err,
{
    if block_type == 0 {
        let len_pos = byte_aligned(pos);
        let nlen_pos = skip_bits(len_pos, 16);
        if pos >= 8 * data.len() {
            lemma_field_past_end(data, len_pos, 16);
            lemma_field_past_end(data, nlen_pos, 16);
        }
        lemma_stored_bytes(
            data,
            skip_bits(nlen_pos, 16),
            acc.progress,
            field(data, len_pos, 16),
        );
    } else if block_type != 3 {
        if block_type != 1 {
            let hlit = field(data, pos, 5) + 257;
            let pos1 = skip_bits(pos, 5);
            let hdist = field(data, pos1, 5) + 1;
            let pos2 = skip_bits(pos1, 5);
            let hclen = field(data, pos2, 4) + 4;
            let pos3 = skip_bits(pos2, 4);
            lemma_length_run(
                meta_lengths(data, pos3, hclen),
                data,
                skip_bits(pos3, 3 * hclen),
                Seq::empty(),
                hlit + hdist,
            );
        }
        match block_lengths(data, pos, block_type) {
            Ok((lit, dist, body)) => {
                lemma_huffman_block_advances(
                    lit,
                    dist,
                    data,
                    body,
                    acc.progress,
                    max_output,
                    block_idx,
                );
            },
            Err(_) => {},
        }
    }
}

/// A block that does not end the stream brings it closer to the end.
pub proof fn lemma_blocks_advance(
    data: Seq<u8>,
    pos: nat,
    acc: Decoded,
    max_output: Option<usize>,
    block_idx: u32,
)
    requires
        pos <= usize::MAX,
        8 * data.len() <= usize::MAX,
    ensures
        one_block(
            data,
            skip_bits(skip_bits(pos, 1), 2),
            field(data, skip_bits(pos, 1), 2),
            acc,
            max_output,
            block_idx,
        ) matches Ok((_, next)) ==> bits_ahead(data, next) < bits_ahead(data, pos),
{
    let type_pos = skip_bits(pos, 1);
    let body = skip_bits(type_pos, 2);
    let block_type = field(data, type_pos, 2);
    lemma_one_block(data, body, block_type, acc, max_output, block_idx);
    if pos >= 8 * data.len() {
        lemma_field_past_end(data, type_pos, 2);
    }
}

/// The fixed literal/distance code lengths (RFC 1951 §3.2.6), shared by the
/// BTYPE=01 decoder and the fixed-Huffman serializer so the two can't drift.
pub fn fixed_code_lengths() -> (r: (Vec<u32>, Vec<u32>))
    ensures
        r.0@ == fixed_lit_lengths(),
        r.1@ == fixed_dist_lengths(),
{
    let mut ll: Vec<u32> = Vec::new();
    let mut i: usize = 0;
    while i < 288
        invariant
            i <= 288,
            ll@ =~= fixed_lit_lengths().take(i as int),
        decreases 288 - i,
    {
        ll.push(
            if i < 144 {
                8
            } else if i < 256 {
                9
            } else if i < 280 {
                7
            } else {
                8
            },
        );
        i = i + 1;
    }
    let mut dl: Vec<u32> = Vec::new();
    let mut j: usize = 0;
    while j < 32
        invariant
            j <= 32,
            dl@ =~= fixed_dist_lengths().take(j as int),
        decreases 32 - j,
    {
        dl.push(5);
        j = j + 1;
    }
    (ll, dl)
}

/// Decode a stored block (BTYPE=00): byte-align, LEN and NLEN, then LEN
/// literals.
pub fn decode_stored_block(
    reader: &mut BitReader,
    state: &mut DecodeState,
    block_idx: u32,
) -> (r: Result<(), DecodeError>)
    requires
        old(state).wf(),
        8 * old(reader).bytes().len() <= usize::MAX,
    ensures
        final(reader).bytes() == old(reader).bytes(),
        final(state).wf(),
        final(state).max_output == old(state).max_output,
        final(state).recording() == old(state).recording(),
        block_outcome(
            stored_block(
                old(reader).bytes(),
                old(reader).position(),
                old(state)@,
                old(state).max_output,
                block_idx,
            ),
            r,
            final(state)@,
            final(reader).position(),
        ),
{
    reader.align_to_byte();
    let ghost len_pos = reader.position();
    let length: u32 = reader.read_bits(16);
    let ghost nlen_pos = reader.position();
    let nlen: u32 = reader.read_bits(16);
    proof {
        lemma_field_bound(reader.bytes(), len_pos, 16);
        lemma_field_bound(reader.bytes(), nlen_pos, 16);
        lemma2_to64();
    }
    // RFC 1951 §3.2.4: NLEN is the one's complement of LEN. Without this
    // check, a corrupt stored block silently emits up to 65535 garbage
    // literal events.
    if length + nlen != 0xFFFF {
        return Err(
            DecodeError::InvalidStoredBlockLength {
                length: length as u16,
                nlen: nlen as u16,
                block_idx,
            },
        );
    }
    match state.check_room(length as usize) {
        Ok(_) => {},
        Err(e) => {
            return Err(e);
        },
    }
    let ghost body = reader.position();
    proof {
        reader.lemma_position_fits();
        assert(state.output.len() <= usize::MAX);
    }
    let mut i: u32 = 0;
    while i < length
        invariant
            i <= length,
            state.wf(),
            reader.bytes() == old(reader).bytes(),
            state.max_output == old(state).max_output,
            state.recording() == old(state).recording(),
            state@.out.len() <= usize::MAX,
            (state@, reader.position()) == stored_bytes(
                old(reader).bytes(),
                body,
                old(state)@,
                i as nat,
            ),
        decreases length - i,
    {
        let bit_start: usize = reader.bit_pos();
        let byte: u32 = reader.read_bits(8);
        proof {
            lemma_field_bound(reader.bytes(), bit_start as nat, 8);
            lemma2_to64();
        }
        state.emit_literal(bit_start, byte as u8);
        i = i + 1;
    }
    proof {
        lemma_stored_bytes(old(reader).bytes(), body, old(state)@, length as nat);
    }
    Ok(())
}

/// Read the lengths of the code-length codes.
fn read_meta_lengths(reader: &mut BitReader, hclen: u32) -> (r: Vec<u32>)
    requires
        hclen <= 19,
    ensures
        r@ == meta_lengths(old(reader).bytes(), old(reader).position(), hclen as nat),
        r@.len() == 19,
        final(reader).bytes() == old(reader).bytes(),
        final(reader).position() == skip_bits(old(reader).position(), 3 * hclen as nat),
{
    let mut cl: Vec<u32> = Vec::new();
    let mut k: usize = 0;
    while k < 19
        invariant
            k <= 19,
            cl@.len() == k,
            forall|j: int| 0 <= j < k ==> cl@[j] == 0,
        decreases 19 - k,
    {
        cl.push(0);
        k = k + 1;
    }
    proof {
        reader.lemma_position_fits();
        assert(cl@ =~= meta_lengths(reader.bytes(), reader.position(), 0));
    }
    let mut i: u32 = 0;
    while i < hclen
        invariant
            i <= hclen <= 19,
            cl@.len() == 19,
            cl@ == meta_lengths(old(reader).bytes(), old(reader).position(), i as nat),
            reader.bytes() == old(reader).bytes(),
            reader.position() == skip_bits(old(reader).position(), 3 * i as nat),
            old(reader).position() <= usize::MAX,
        decreases hclen - i,
    {
        let slot: usize = CLORDER[i as usize];
        assert(CLORDER@[i as int] < 19);
        let v: u32 = reader.read_bits(3);
        cl[slot] = v;
        i = i + 1;
    }
    cl
}

/// Append `n` times `v`.
fn push_repeated(all: &mut Vec<u32>, v: u32, n: u32)
    ensures
        final(all)@ == repeated(old(all)@, v, n as nat),
{
    let mut i: u32 = 0;
    assert(all@ =~= repeated(all@, v, 0));
    while i < n
        invariant
            i <= n,
            all@ == repeated(old(all)@, v, i as nat),
        decreases n - i,
    {
        all.push(v);
        i = i + 1;
        assert(all@ =~= repeated(old(all)@, v, i as nat));
    }
}

/// Parse either the fixed Huffman table (BTYPE=01) or the dynamic
/// per-block length codes + repeats (BTYPE=10). Returns the length arrays
/// ready to feed to [`build_tree`].
pub fn read_huffman_code_lengths(reader: &mut BitReader, block_type: u32) -> (r: Result<
    (Vec<u32>, Vec<u32>),
    DecodeError,
>)
    ensures
        final(reader).bytes() == old(reader).bytes(),
        match block_lengths(old(reader).bytes(), old(reader).position(), block_type as nat) {
            Ok((lit, dist, next)) => r matches Ok((ll, dl)) && ll@ == lit && dl@ == dist && ll@.len()
                <= 0x1_0000 && dl@.len() <= 0x1_0000 && final(reader).position() == next,
            Err(e) => r == Err::<(Vec<u32>, Vec<u32>), _>(e),
        },
{
    if block_type == 0b01 {
        return Ok(fixed_code_lengths());
    }
    let ghost data = reader.bytes();
    let ghost pos = reader.position();
    proof {
        lemma_field_bound(data, pos, 5);
        lemma_field_bound(data, skip_bits(pos, 5), 5);
        lemma_field_bound(data, skip_bits(skip_bits(pos, 5), 5), 4);
        lemma2_to64();
    }
    let hlit: u32 = reader.read_bits(5) + 257;
    let hdist: u32 = reader.read_bits(5) + 1;
    let hclen: u32 = reader.read_bits(4) + 4;
    let meta: Vec<u32> = read_meta_lengths(reader, hclen);
    let cl_tab: HuffmanTable = match build_tree(meta.as_slice()) {
        Ok((table, _)) => table,
        Err(e) => {
            return Err(e);
        },
    };
    let total: usize = (hlit + hdist) as usize;
    let ghost lengths = block_lengths(data, pos, block_type as nat);
    let mut all: Vec<u32> = Vec::new();
    let ghost start = reader.position();
    proof {
        reader.lemma_position_fits();
    }
    while all.len() < total
        invariant
            total <= 320,
            all@.len() < total + 138,
            reader.bytes() == data,
            data == old(reader).bytes(),
            lengths == block_lengths(
                old(reader).bytes(),
                old(reader).position(),
                block_type as nat,
            ),
            length_run(meta@, data, start, Seq::empty(), total as nat) matches Err(e)
                ==> lengths == Err::<(Seq<u32>, Seq<u32>, nat), _>(e),
            cl_tab.wf(),
            cl_tab.decodes(meta@),
            check_lengths(meta@) is Ok,
            length_run(meta@, data, start, Seq::empty(), total as nat) == length_run(
                meta@,
                data,
                reader.position(),
                all@,
                total as nat,
            ),
        decreases total + 138 - all@.len(),
    {
        let sym: u16 = match decode_sym(reader, &cl_tab) {
            Ok(sym) => sym,
            Err(e) => {
                return Err(e);
            },
        };
        let ghost at = reader.position();
        proof {
            lemma_field_bound(data, at, 2);
            lemma_field_bound(data, at, 3);
            lemma_field_bound(data, at, 7);
            lemma2_to64();
        }
        if sym <= 15 {
            all.push(sym as u32);
        } else if sym == 16 {
            let last: u32 = if all.len() > 0 {
                all[all.len() - 1]
            } else {
                0
            };
            let rep: u32 = reader.read_bits(2) + 3;
            push_repeated(&mut all, last, rep);
        } else if sym == 17 {
            let rep: u32 = reader.read_bits(3) + 3;
            push_repeated(&mut all, 0, rep);
        } else {
            let rep: u32 = reader.read_bits(7) + 11;
            push_repeated(&mut all, 0, rep);
        }
    }
    // First `hlit` entries are literal-alphabet code lengths, the rest
    // are distance-alphabet code lengths.
    let dl: Vec<u32> = all.split_off(hlit as usize);
    Ok((all, dl))
}

/// Decode the back-reference behind the length symbol `sym`.
fn decode_copy(
    reader: &mut BitReader,
    state: &mut DecodeState,
    block_idx: u32,
    sym: u16,
    dist: &HuffmanTable,
) -> (r: Result<(), DecodeError>)
    requires
        old(state).wf(),
        dist.wf(),
        257 <= sym < 286,
    ensures
        final(reader).bytes() == old(reader).bytes(),
        final(state).wf(),
        final(state).max_output == old(state).max_output,
        final(state).recording() == old(state).recording(),
        final(state)@.out.len() <= usize::MAX,
        r is Ok ==> final(state)@.out.len() > old(state)@.out.len(),
        forall|dl: Seq<u32>| #[trigger]
            dist.decodes(dl) && check_lengths(dl) is Ok ==> match copy_step(
                dl,
                old(reader).bytes(),
                sym,
                old(reader).position(),
                old(state)@,
                old(state).max_output,
                block_idx,
            ) {
                Step::More(st, next) => r is Ok && final(state)@ == st && final(reader).position()
                    == next,
                Step::Fail(e) => r == Err::<(), _>(e),
                Step::Done(_) => false,
            },
{
    let ghost data = reader.bytes();
    let ghost next = reader.position();
    let ghost st = state@;
    assert(state.output.len() <= usize::MAX);
    let len_idx: usize = (sym - 257) as usize;
    assert(LEXT@[len_idx as int] <= 5 && 3 <= LBASE@[len_idx as int] <= 258);
    proof {
        lemma_field_bound(data, next, LEXT@[len_idx as int] as nat);
        lemma2_to64();
    }
    let copy_len: u32 = LBASE[len_idx] + reader.read_bits(LEXT[len_idx]);
    let dist_bit_start: usize = reader.bit_pos();
    let dist_sym: u16 = match decode_sym(reader, dist) {
        Ok(sym) => sym,
        Err(e) => {
            return Err(e);
        },
    };
    // RFC 1951: distance alphabet is 30 symbols (0..=29). Symbols
    // 30 and 31 are reserved and must not occur in valid data.
    if dist_sym >= 30 {
        return Err(DecodeError::InvalidDistanceSymbol { sym: dist_sym, block_idx });
    }
    assert(DEXT@[dist_sym as int] <= 13 && 1 <= DBASE@[dist_sym as int] <= 24577);
    proof {
        lemma_field_bound(data, reader.position(), DEXT@[dist_sym as int] as nat);
        lemma2_to64();
    }
    let distance: u32 = DBASE[dist_sym as usize] + reader.read_bits(DEXT[dist_sym as usize]);
    if distance as usize > state.output.len() {
        return Err(
            DecodeError::InvalidDistance {
                distance,
                output_len: state.output.len(),
                block_idx,
            },
        );
    }
    match state.check_room(copy_len as usize) {
        Ok(_) => {},
        Err(e) => {
            return Err(e);
        },
    }
    state.emit_copy(dist_bit_start, copy_len, dist_sym, distance);
    proof {
        lemma_copy_back_len(st.out, distance as nat, copy_len as nat);
        assert(no_room(st.out.len(), copy_len as nat, state.max_output) is None);
    }
    Ok(())
}

/// Decode the body of a Huffman block, up to and including its end-of-block
/// symbol.
pub fn decode_huffman_block(
    reader: &mut BitReader,
    state: &mut DecodeState,
    block_idx: u32,
    lit: &HuffmanTable,
    dist: &HuffmanTable,
) -> (r: Result<(), DecodeError>)
    requires
        old(state).wf(),
        lit.wf(),
        dist.wf(),
    ensures
        final(reader).bytes() == old(reader).bytes(),
        final(state).wf(),
        final(state).max_output == old(state).max_output,
        final(state).recording() == old(state).recording(),
        forall|ll: Seq<u32>, dl: Seq<u32>|
            (#[trigger] lit.decodes(ll) && #[trigger] dist.decodes(dl) && check_lengths(ll) is Ok
                && check_lengths(dl) is Ok) ==> block_outcome(
                huffman_block(
                    ll,
                    dl,
                    old(reader).bytes(),
                    old(reader).position(),
                    old(state)@,
                    old(state).max_output,
                    block_idx,
                ),
                r,
                final(state)@,
                final(reader).position(),
            ),
{
    let ghost data = reader.bytes();
    let ghost pos0 = reader.position();
    let ghost st0 = state@;
    let ghost max_output = state.max_output;
    proof {
        assert(state.output.len() <= usize::MAX);
        reader.lemma_position_fits();
    }
    loop
        invariant
            state.wf(),
            lit.wf(),
            dist.wf(),
            reader.bytes() == data,
            reader.position() <= usize::MAX,
            data == old(reader).bytes(),
            pos0 == old(reader).position(),
            st0 == old(state)@,
            max_output == old(state).max_output,
            state.max_output == max_output,
            state.recording() == old(state).recording(),
            state@.out.len() <= usize::MAX,
            forall|ll: Seq<u32>, dl: Seq<u32>|
                (#[trigger] lit.decodes(ll) && #[trigger] dist.decodes(dl) && check_lengths(
                    ll,
                ) is Ok && check_lengths(dl) is Ok) ==> huffman_block(
                    ll,
                    dl,
                    data,
                    pos0,
                    st0,
                    max_output,
                    block_idx,
                ) == huffman_block(
                    ll,
                    dl,
                    data,
                    reader.position(),
                    state@,
                    max_output,
                    block_idx,
                ),
        decreases usize::MAX - state@.out.len(),
    {
        let ghost st1 = state@;
        let ghost pos1 = reader.position();
        proof {
            reveal(huffman_step);
        }
        let sym_bit_start: usize = reader.bit_pos();
        let sym: u16 = match decode_sym(reader, lit) {
            Ok(sym) => sym,
            Err(e) => {
                return Err(e);
            },
        };
        let ghost next = reader.position();
        if sym == 256 {
            return Ok(());
        }
        if sym < 256 {
            match state.check_room(1) {
                Ok(_) => {},
                Err(e) => {
                    return Err(e);
                },
            }
            state.emit_literal(sym_bit_start, sym as u8);
            proof {
                assert(no_room(st1.out.len(), 1, max_output) is None);
            }
        } else {
            if sym >= 286 {
                return Err(DecodeError::InvalidLengthSymbol { sym, block_idx });
            }
            match decode_copy(reader, state, block_idx, sym, dist) {
                Ok(_) => {},
                Err(e) => {
                    return Err(e);
                },
            }
        }
        proof {
            reader.lemma_position_fits();
            assert forall|ll: Seq<u32>, dl: Seq<u32>|
                (#[trigger] lit.decodes(ll) && #[trigger] dist.decodes(dl) && check_lengths(
                    ll,
                ) is Ok && check_lengths(dl) is Ok) implies huffman_block(
                ll,
                dl,
                data,
                pos0,
                st0,
                max_output,
                block_idx,
            ) == huffman_block(
                ll,
                dl,
                data,
                reader.position(),
                state@,
                max_output,
                block_idx,
            ) by {
                lemma_step_grows(ll, dl, data, pos1, st1, max_output, block_idx);
                assert(huffman_step(ll, dl, data, pos1, st1, max_output, block_idx) == Step::More(
                    state@,
                    reader.position(),
                ));
            }
        }
    }
}

/// Decode one block of type `block_type` from behind its header bits, and
/// return its encoder tables.
fn decode_block(
    reader: &mut BitReader,
    state: &mut DecodeState,
    block_type: u32,
    block_idx: u32,
    Ghost(acc): Ghost<Decoded>,
) -> (r: Result<(EncTable, EncTable), DecodeError>)
    requires
        old(state).wf(),
        old(state)@ == acc.progress,
        block_type <= 3,
        8 * old(reader).bytes().len() <= usize::MAX,
    ensures
        final(reader).bytes() == old(reader).bytes(),
        final(state).wf(),
        final(state).max_output == old(state).max_output,
        final(state).recording() == old(state).recording(),
        match one_block(
            old(reader).bytes(),
            old(reader).position(),
            block_type as nat,
            acc,
            old(state).max_output,
            block_idx,
        ) {
            Ok((acc2, next)) => r matches Ok((lit, dist)) && final(state)@ == acc2.progress
                && final(reader).position() == next && acc2.lit_encs == acc.lit_encs.push(lit@)
                && acc2.dist_encs == acc.dist_encs.push(dist@) && acc2.block_starts
                == acc.block_starts.push(acc.progress.events.len() as u32),
            Err(e) => r == Err::<(EncTable, EncTable), _>(e),
        },
{
    if block_type == 0b00 {
        return match decode_stored_block(reader, state, block_idx) {
            // A stored block carries no Huffman alphabet, but downstream code
            // looks tables up by block. Placeholder empty tables sized to the
            // standard alphabets keep that indexing valid.
            Ok(_) => Ok((EncTable::new(288), EncTable::new(30))),
            Err(e) => Err(e),
        };
    }
    if block_type == 0b11 {
        return Err(DecodeError::ReservedBlockType { block_idx });
    }
    let (lit_lengths, dist_lengths) = match read_huffman_code_lengths(reader, block_type) {
        Ok(lengths) => lengths,
        Err(e) => {
            return Err(e);
        },
    };
    let (lit_tab, lit_enc) = match build_tree(lit_lengths.as_slice()) {
        Ok(tables) => tables,
        Err(e) => {
            return Err(e);
        },
    };
    let (dist_tab, dist_enc) = match build_tree(dist_lengths.as_slice()) {
        Ok(tables) => tables,
        Err(e) => {
            return Err(e);
        },
    };
    match decode_huffman_block(reader, state, block_idx, &lit_tab, &dist_tab) {
        Ok(_) => Ok((lit_enc, dist_enc)),
        Err(e) => Err(e),
    }
}

/// Scan the blocks of `data`; `record` says whether events are kept.
fn scan_blocks(data: &[u8], max_output: Option<usize>, record: bool) -> (r: Result<
    DecodedDeflate,
    DecodeError,
>)
    requires
        8 * data@.len() <= usize::MAX,
    ensures
        match decode_spec(data@, max_output) {
            Ok(d) => r matches Ok(v) && v.output@ == d.progress.out && (record ==> v@ == d),
            Err(e) => r == Err::<DecodedDeflate, _>(e),
        },
{
    let mut reader = BitReader::new(data);
    let mut state = DecodeState::new(max_output, record);
    let mut lit_encs: Vec<EncTable> = Vec::new();
    let mut dist_encs: Vec<EncTable> = Vec::new();
    let mut block_starts: Vec<u32> = Vec::new();
    let mut block_idx: u32 = 0;
    let ghost mut acc: Decoded = nothing_decoded();
    proof {
        assert(enc_views(lit_encs@) =~= acc.lit_encs);
        assert(enc_views(dist_encs@) =~= acc.dist_encs);
    }
    loop
        invariant_except_break
            reader.bytes() == data@,
            8 * data@.len() <= usize::MAX,
            state.wf(),
            state.max_output == max_output,
            state.recording() == record,
            state@ == acc.progress,
            enc_views(lit_encs@) == acc.lit_encs,
            enc_views(dist_encs@) == acc.dist_encs,
            record ==> block_starts@ == acc.block_starts,
            all_blocks(data@, reader.position(), acc, max_output, block_idx) == decode_spec(
                data@,
                max_output,
            ),
        ensures
            state.wf(),
            state.recording() == record,
            state@ == acc.progress,
            enc_views(lit_encs@) == acc.lit_encs,
            enc_views(dist_encs@) == acc.dist_encs,
            record ==> block_starts@ == acc.block_starts,
            decode_spec(data@, max_output) == Ok::<_, DecodeError>(acc),
        decreases bits_ahead(data@, reader.position()),
    {
        let ghost pos = reader.position();
        proof {
            reader.lemma_position_fits();
            lemma_field_bound(data@, pos, 1);
            lemma_field_bound(data@, skip_bits(pos, 1), 2);
            lemma2_to64();
            lemma_blocks_advance(data@, pos, acc, max_output, block_idx);
        }
        let is_final: u32 = reader.read_bits(1);
        let block_type: u32 = reader.read_bits(2);
        block_starts.push(state.events.len() as u32);
        match decode_block(&mut reader, &mut state, block_type, block_idx, Ghost(acc)) {
            Ok((lit_enc, dist_enc)) => {
                let ghost old_lit = lit_encs@;
                let ghost old_dist = dist_encs@;
                lit_encs.push(lit_enc);
                dist_encs.push(dist_enc);
                proof {
                    let done = one_block(
                        data@,
                        skip_bits(skip_bits(pos, 1), 2),
                        block_type as nat,
                        acc,
                        max_output,
                        block_idx,
                    );
                    acc = done.unwrap().0;
                    assert(enc_views(lit_encs@) =~= enc_views(old_lit).push(lit_enc@));
                    assert(enc_views(dist_encs@) =~= enc_views(old_dist).push(dist_enc@));
                }
            },
            Err(e) => {
                return Err(e);
            },
        }
        if is_final != 0 {
            break;
        }
        block_idx = block_idx.wrapping_add(1);
    }
    Ok(
        DecodedDeflate {
            output: state.output,
            events: state.events,
            lit_encs,
            dist_encs,
            block_starts,
            max_distance: state.max_distance,
        },
    )
}

/// Decode a raw deflate stream. `max_output` caps the inflated size in
/// bytes (`None` for unbounded); the loader passes the IHDR-derived
/// expected output so a malicious IDAT can't pump the decoder into
/// gigabytes of allocation.
pub fn decode_deflate(data: &[u8], max_output: Option<usize>) -> (r: Result<
    DecodedDeflate,
    DecodeError,
>)
    requires
        8 * data@.len() <= usize::MAX,
    ensures
        match decode_spec(data@, max_output) {
            Ok(d) => r matches Ok(v) && v@ == d,
            Err(e) => r == Err::<DecodedDeflate, _>(e),
        },
{
    scan_blocks(data, max_output, true)
}

/// Inflate a raw deflate stream to its bytes alone, keeping no events: the
/// output and the errors are those of [`decode_deflate`].
pub fn inflate(data: &[u8], max_output: Option<usize>) -> (r: Result<Vec<u8>, DecodeError>)
    requires
        8 * data@.len() <= usize::MAX,
    ensures
        match inflate_spec(data@, max_output) {
            Ok(out) => r matches Ok(v) && v@ == out,
            Err(e) => r == Err::<Vec<u8>, _>(e),
        },
{
    match scan_blocks(data, max_output, false) {
        Ok(decoded) => Ok(decoded.output),
        Err(e) => Err(e),
    }
}

/// What is decoded never passes the cap.
proof fn lemma_all_blocks_capped(
    data: Seq<u8>,
    pos: nat,
    acc: Decoded,
    max_output: Option<usize>,
    block_idx: u32,
)
    requires
        pos <= usize::MAX,
        8 * data.len() <= usize::MAX,
        acc.progress.out.len() <= output_cap(max_output),
    ensures
        all_blocks(data, pos, acc, max_output, block_idx) matches Ok(d) ==> d.progress.out.len()
            <= output_cap(max_output),
    decreases bits_ahead(data, pos),
{
    let type_pos = skip_bits(pos, 1);
    let body = skip_bits(type_pos, 2);
    let block_type = field(data, type_pos, 2);
    lemma_one_block(data, body, block_type, acc, max_output, block_idx);
    lemma_blocks_advance(data, pos, acc, max_output, block_idx);
    match one_block(data, body, block_type, acc, max_output, block_idx) {
        Ok((acc2, next)) => if field(data, pos, 1) != 1 {
            lemma_all_blocks_capped(data, next, acc2, max_output, block_idx.wrapping_add(1));
        },
        Err(_) => {},
    }
}

/// A capped decode never produces more than the cap.
pub proof fn law_output_within_cap(data: Seq<u8>, max_output: Option<usize>)
    requires
        8 * data.len() <= usize::MAX,
    ensures
        decode_spec(data, max_output) matches Ok(d) ==> d.progress.out.len() <= output_cap(
            max_output,
        ),
{
    lemma_all_blocks_capped(data, 0, nothing_decoded(), max_output, 0);
}

} // verus!
