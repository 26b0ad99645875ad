//! One record per literal or back-reference emitted by the decoder.
//!
//! Also houses [`EncTable`], the encoder-side companion to
//! [`super::huffman::HuffmanTable`]. Writers use it to re-emit codes at the
//! same bit-lengths as the stream they edit; downstream indices use it to
//! find swap / redirect alternatives for each symbol.

use vstd::prelude::*;

verus! {

/// A symbol's canonical Huffman encoding: the `code` bits and their bit
/// `len`. Returned by [`EncTable::get`]. A present symbol always has
/// `len >= 1` (DEFLATE never assigns a zero-length code).
#[derive(Debug, Clone, Copy, PartialEq, Eq, Structural)]
pub struct SymCode {
    pub code: u16,
    pub len: u8,
}

impl Default for SymCode {
    fn default() -> (r: Self)
        ensures
            r == (SymCode { code: 0, len: 0 }),
    {
        SymCode { code: 0, len: 0 }
    }
}

/// Dense encoder-side table: symbol → `(canonical code, code length in
/// bits)`, indexed directly by symbol. Lit blocks have alphabet 0..=287,
/// dist blocks 0..=29.
///
/// `len == 0` is the sentinel for "symbol not present in this block";
/// unambiguous because DEFLATE never assigns a zero-length code to a
/// present symbol (1 bit is the minimum).
#[derive(Debug, Clone)]
pub struct EncTable {
    entries: Vec<SymCode>,
}

impl View for EncTable {
    type V = Seq<SymCode>;

    closed spec fn view(&self) -> Seq<SymCode> {
        self.entries@
    }
}

/// The code that `entries` holds for `sym`, if the symbol is present.
pub open spec fn sym_code(entries: Seq<SymCode>, sym: int) -> Option<SymCode> {
    if 0 <= sym < entries.len() && entries[sym].len != 0 {
        Some(entries[sym])
    } else {
        None
    }
}

/// The code length of a symbol; zero where it has no code.
pub open spec fn code_len(entries: Seq<SymCode>, sym: int) -> u8 {
    match sym_code(entries, sym) {
        Some(sc) => sc.len,
        None => 0,
    }
}

/// The present symbols of `entries`, in symbol order, with their codes.
pub open spec fn present_codes(entries: Seq<SymCode>) -> Seq<(u16, SymCode)>
    decreases entries.len(),
{
    if entries.len() == 0 {
        Seq::empty()
    } else {
        let rest = present_codes(entries.drop_last());
        if entries.last().len != 0 {
            rest.push(((entries.len() - 1) as u16, entries.last()))
        } else {
            rest
        }
    }
}

/// The table of an alphabet of `n` symbols, all absent.
pub open spec fn no_codes(n: nat) -> Seq<SymCode> {
    Seq::new(n, |i: int| SymCode { code: 0, len: 0 })
}

impl Default for EncTable {
    /// The table of an empty alphabet.
    fn default() -> (r: Self)
        ensures
            r@ == Seq::<SymCode>::empty(),
    {
        EncTable { entries: Vec::new() }
    }
}

impl EncTable {
    /// Table for an `n_symbols` alphabet; all symbols start absent
    /// (`len == 0`).
    pub fn new(n_symbols: usize) -> (r: Self)
        ensures
            r@ == no_codes(n_symbols as nat),
    {
        let absent = SymCode { code: 0, len: 0 };
        let mut entries: Vec<SymCode> = Vec::new();
        let mut i: usize = 0;
        while i < n_symbols
            invariant
                i <= n_symbols,
                absent == (SymCode { code: 0, len: 0 }),
                entries@ =~= no_codes(i as nat),
            decreases n_symbols - i,
        {
            entries.push(absent);
            i = i + 1;
        }
        EncTable { entries }
    }

    /// Insert or overwrite `sym`'s entry. No-op if `sym` is outside the
    /// table's alphabet.
    pub fn set(&mut self, sym: u16, code: u16, len: u8)
        ensures
            final(self)@ == (if sym < old(self)@.len() {
                old(self)@.update(sym as int, SymCode { code, len })
            } else {
                old(self)@
            }),
    {
        let slot: usize = sym as usize;
        if slot < self.entries.len() {
            self.entries[slot] = SymCode { code, len };
        }
    }

    /// The [`SymCode`] for `sym`, or `None` if the symbol is absent from
    /// this block's alphabet.
    pub fn get(&self, sym: u16) -> (r: Option<SymCode>)
        ensures
            r == sym_code(self@, sym as int),
    {
        let slot: usize = sym as usize;
        if slot < self.entries.len() {
            let sc = self.entries[slot];
            if sc.len != 0 {
                return Some(sc);
            }
        }
        None
    }

    /// True when no symbol has been assigned a code (either a freshly
    /// constructed empty table or a stored block's placeholder).
    pub fn is_empty(&self) -> (r: bool)
        ensures
            r == (forall|i: int| 0 <= i < self@.len() ==> (#[trigger] self@[i]).len == 0),
    {
        let mut i: usize = 0;
        while i < self.entries.len()
            invariant
                i <= self.entries@.len(),
                forall|j: int| 0 <= j < i ==> (#[trigger] self.entries@[j]).len == 0,
            decreases self.entries@.len() - i,
        {
            if self.entries[i].len != 0 {
                assert(self@[i as int].len != 0);
                return false;
            }
            i = i + 1;
        }
        true
    }

    /// `(symbol, SymCode)` for every present symbol, in symbol order.
    pub fn iter(&self) -> (r: Vec<(u16, SymCode)>)
        requires
            self@.len() <= 0x1_0000,
        ensures
            r@ == present_codes(self@),
    {
        let mut out: Vec<(u16, SymCode)> = Vec::new();
        let mut i: usize = 0;
        assert(self.entries@.take(0) =~= Seq::<SymCode>::empty());
        while i < self.entries.len()
            invariant
                i <= self.entries@.len(),
                self.entries@.len() <= 0x1_0000,
                out@ == present_codes(self.entries@.take(i as int)),
            decreases self.entries@.len() - i,
        {
            proof {
                assert(self.entries@.take(i + 1).drop_last() =~= self.entries@.take(i as int));
            }
            let sc = self.entries[i];
            if sc.len != 0 {
                out.push((i as u16, sc));
            }
            i = i + 1;
        }
        assert(self.entries@.take(self.entries@.len() as int) =~= self.entries@);
        out
    }

    /// Raw [`SymCode`] slice indexed by symbol. Lets tight loops scan `len`
    /// directly; absent slots have `len == 0` so the present-check is a single
    /// comparison rather than a branch through `Option`.
    pub fn raw(&self) -> (r: &[SymCode])
        ensures
            r@ == self@,
    {
        self.entries.as_slice()
    }
}

/// One literal symbol emitted by the decoder.
///
/// Position fields are `u32`: the loader rejects images whose unfiltered
/// output would exceed 4 GiB, so byte and bit offsets always fit in 32
/// bits. There is no `block` field: a block is a contiguous *range* of
/// events, recorded once as [`super::decoder::DecodedDeflate::block_starts`]
/// rather than stamped onto every element.
#[derive(Debug, Clone, Copy, PartialEq, Eq, Structural)]
pub struct LitEvent {
    pub out_pos: u32,
    pub bit_start: u32,
    pub symbol: u8,
}

/// One back-reference: `copy_len` bytes copied from `src_out_pos`.
#[derive(Debug, Clone, Copy, PartialEq, Eq, Structural)]
pub struct RefEvent {
    pub out_pos: u32,
    pub src_out_pos: u32,
    pub dist_bit_start: u32,
    pub copy_len: u16,
    pub dist_sym: u8,
}

#[derive(Debug, Clone, Copy, PartialEq, Eq, Structural)]
pub enum Event {
    Lit(LitEvent),
    Ref(RefEvent),
}

/// Block starts come in order.
pub open spec fn starts_sorted(block_starts: Seq<u32>) -> bool {
    forall|i: int, j: int|
        0 <= i <= j < block_starts.len() ==> block_starts[i] <= block_starts[j]
}

/// The block of an event: the last that starts at or before it.
pub open spec fn block_index(block_starts: Seq<u32>, ev: int) -> int
    decreases block_starts.len(),
{
    if block_starts.len() <= 1 {
        0
    } else if block_starts.last() <= ev {
        block_starts.len() - 1
    } else {
        block_index(block_starts.drop_last(), ev)
    }
}

pub proof fn lemma_block_index(block_starts: Seq<u32>, ev: int, b: int)
    requires
        0 <= b < block_starts.len(),
        block_starts[b] <= ev,
        forall|k: int| b < k < block_starts.len() ==> block_starts[k] > ev,
    ensures
        block_index(block_starts, ev) == b,
    decreases block_starts.len(),
{
    if b < block_starts.len() - 1 {
        assert(block_starts[block_starts.len() - 1] > ev);
        lemma_block_index(block_starts.drop_last(), ev, b);
    }
}

/// Given the per-block event-start indices (`block_starts[b]` is the
/// index of block `b`'s first event) and an event index, return the
/// block that event belongs to: the last one that starts at or before it.
pub fn block_of(block_starts: &[u32], ev_idx: u32) -> (r: u32)
    requires
        starts_sorted(block_starts@),
        block_starts@.len() <= u32::MAX,
    ensures
        block_starts@.len() == 0 || block_starts@[0] > ev_idx ==> r == 0,
        block_starts@.len() > 0 && block_starts@[0] <= ev_idx ==> r < block_starts@.len()
            && block_starts@[r as int] <= ev_idx && (forall|b: int|
            r < b < block_starts@.len() ==> block_starts@[b] > ev_idx),
{
    let mut lo: usize = 0;
    let mut hi: usize = block_starts.len();
    while lo < hi
        invariant
            lo <= hi <= block_starts@.len(),
            starts_sorted(block_starts@),
            forall|b: int| 0 <= b < lo ==> block_starts@[b] <= ev_idx,
            forall|b: int| hi <= b < block_starts@.len() ==> block_starts@[b] > ev_idx,
        decreases hi - lo,
    {
        let mid: usize = lo + (hi - lo) / 2;
        if block_starts[mid] <= ev_idx {
            lo = mid + 1;
        } else {
            hi = mid;
        }
    }
    if lo == 0 {
        0
    } else {
        (lo - 1) as u32
    }
}

} // verus!
