//! Growable bit sink for a DEFLATE stream.
//!
//! Bit-ordering hazard, contained here: Huffman codes go out MSB-first
//! (matching the decoder's reversed-peek LUT); every other field (block
//! header, extra bits) goes out LSB-first so
//! `BitReader::read_bits` recovers it.

use vstd::prelude::*;

use super::events::SymCode;
use crate::bitstream::{
    bit_at, bits_at, lemma_pack_bits_unique, lemma_set_bit, lsb_bits, msb_bits, pack_bits,
};

verus! {

/// Growable bit sink; its view is the bits written so far.
pub struct DeflateWriter {
    buf: Vec<u8>,
    /// Unwritten bits of the last byte.
    free: u8,
}

impl View for DeflateWriter {
    type V = Seq<bool>;

    closed spec fn view(&self) -> Seq<bool> {
        bits_at(self.buf@, 0, (8 * self.buf@.len() - self.free) as nat)
    }
}

impl DeflateWriter {
    /// Fewer than eight bits of the last byte are unwritten, and they are zero.
    pub closed spec fn wf(&self) -> bool {
        &&& self.free < 8
        &&& self.free <= 8 * self.buf@.len()
        &&& forall|p: int|
            8 * self.buf@.len() - self.free <= p < 8 * self.buf@.len() ==> !bit_at(self.buf@, p)
    }

    pub fn new() -> (r: Self)
        ensures
            r.wf(),
            r@ == Seq::<bool>::empty(),
    {
        let r = DeflateWriter { buf: Vec::new(), free: 0 };
        assert(r@ =~= Seq::<bool>::empty());
        r
    }

    fn write_bit(&mut self, bit: bool)
        requires
            old(self).wf(),
        ensures
            final(self).wf(),
            final(self)@ == old(self)@.push(bit),
    {
        let ghost before = self.buf@;
        let ghost seen = self@;
        if self.free == 0 {
            self.buf.push(0);
            self.free = 8;
            proof {
                assert forall|p: int| 0 <= p < 8 * self.buf@.len() implies #[trigger] bit_at(
                    self.buf@,
                    p,
                ) == (p < 8 * before.len() && bit_at(before, p)) by {
                    let i = (p % 8) as u8;
                    assert((0u8 >> i) & 1u8 == 0u8) by (bit_vector);
                }
            }
        }
        let ghost grown = self.buf@;
        let last: usize = self.buf.len() - 1;
        let k: u8 = 8 - self.free;
        let b: u8 = self.buf[last];
        if bit {
            self.buf[last] = b | (1u8 << k);
        } else {
            self.buf[last] = b & !(1u8 << k);
        }
        self.free = self.free - 1;
        proof {
            lemma_set_bit(grown, self.buf@, last as int, k, bit);
            assert(self@ =~= seen.push(bit));
        }
    }

    /// Emit a Huffman codeword MSB-first (the decoder LUT is keyed on the
    /// reversed peek).
    pub fn write_code(&mut self, sc: SymCode)
        requires
            old(self).wf(),
            sc.len <= 16,
        ensures
            final(self).wf(),
            final(self)@ == old(self)@ + msb_bits(sc.code as nat, sc.len as nat),
    {
        let mut i: u8 = 0;
        let ghost all = msb_bits(sc.code as nat, sc.len as nat);
        assert(self@ =~= self@ + all.take(0));
        while i < sc.len
            invariant
                i <= sc.len <= 16,
                self.wf(),
                all == msb_bits(sc.code as nat, sc.len as nat),
                self@ == old(self)@ + all.take(i as int),
            decreases sc.len - i,
        {
            let e: u16 = (sc.len - 1 - i) as u16;
            let digit: u16 = sc.code >> e;
            proof {
                vstd::bits::lemma_u16_shr_is_div(sc.code, e);
                assert(digit & 1u16 == digit % 2) by (bit_vector);
            }
            self.write_bit(digit & 1 != 0);
            i = i + 1;
            assert(self@ =~= old(self)@ + all.take(i as int));
        }
        assert(all.take(all.len() as int) =~= all);
    }

    /// Emit `n` low bits of `value` LSB-first, so `read_bits(n)` recovers it.
    pub fn write_lsb(&mut self, value: u32, n: u32)
        requires
            old(self).wf(),
            n <= 32,
        ensures
            final(self).wf(),
            final(self)@ == old(self)@ + lsb_bits(value as nat, n as nat),
    {
        let mut i: u32 = 0;
        let ghost all = lsb_bits(value as nat, n as nat);
        assert(self@ =~= self@ + all.take(0));
        while i < n
            invariant
                i <= n <= 32,
                self.wf(),
                all == lsb_bits(value as nat, n as nat),
                self@ == old(self)@ + all.take(i as int),
            decreases n - i,
        {
            let digit: u32 = value >> i;
            proof {
                vstd::bits::lemma_u32_shr_is_div(value, i);
                assert(digit & 1u32 == digit % 2) by (bit_vector);
            }
            self.write_bit(digit & 1 != 0);
            i = i + 1;
            assert(self@ =~= old(self)@ + all.take(i as int));
        }
        assert(all.take(all.len() as int) =~= all);
    }

    /// The bytes written, the last one filled up with zero bits.
    pub fn finish(self) -> (r: Vec<u8>)
        requires
            self.wf(),
        ensures
            r@ == pack_bits(self@),
    {
        proof {
            lemma_pack_bits_unique(self.buf@, self@);
        }
        self.buf
    }
}

} // verus!
