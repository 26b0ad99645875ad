//! Edits that have been built, ready to apply.
//!
//! Two edit kinds, both applied in place without re-decoding: a **literal
//! swap** (same-length Huffman code, LZ77 topology unchanged) and a **distance
//! redirect** (one back-reference's source moves). Each keeps most of the index
//! valid and re-renders only the affected rows.

use vstd::prelude::*;

use crate::bitstream::{
    bit_at, bits_at, bits_inside, lemma_bytes_from_bits, lemma_msb_value_bits, msb_bits, msb_value,
    read_bits_at, write_bits,
};

verus! {

/// One bit-precise rewrite in the deflate buffer: `value` is written
/// into the `code_len` bits starting at `bit_start`. Pairs with
/// [`apply_patches_capturing_prior`], which returns a Vec of these
/// describing the inverse rewrite for undo.
#[derive(Debug, Clone, Copy, PartialEq, Eq, Structural)]
pub struct Patch {
    pub bit_start: u32,
    pub value: u32,
    pub code_len: u8,
}

/// The output-buffer side of a literal swap: byte at `out_pos` takes
/// `value`. Captured alongside the deflate-stream [`Patch`] so the
/// incremental apply path can update `output` (and its LZ77 descendants)
/// without re-decoding, and so undo can restore the prior bytes.
#[derive(Debug, Clone, Copy, PartialEq, Eq, Structural)]
pub struct ByteWrite {
    pub out_pos: u32,
    pub value: u8,
}

/// The patches + kind needed to apply an edit forward and to derive its
/// inverse for undo/redo.
#[derive(Debug, Clone)]
pub struct EditAction {
    /// Low-level bit writes that realise the edit in the deflate stream.
    /// Always the source of truth for what changes on disk.
    pub patches: Vec<Patch>,
    pub label: String,
    pub kind: EditKind,
}

/// Structural classification of an edit.
#[derive(Debug, Clone)]
pub enum EditKind {
    /// Same-length Huffman-code literal swap. One entry per patched
    /// channel, naming the output byte and the new symbol value. Every
    /// patch maps to an `Event::Lit`; no LZ77 topology changes.
    LiteralSwap { byte_updates: Vec<ByteWrite> },
    /// Distance-symbol redirect. The LZ77 source moves but the rest of
    /// the topology (event count, every other event's `out_pos` /
    /// `copy_len` / channel role) is unchanged: same-length Huffman codes
    /// guarantee that.
    DistRedirect {
        /// Output-byte offset of the redirected ref. Doubles as the
        /// "nothing before this can have changed" floor for
        /// row-scoped re-render.
        out_pos: u32,
        copy_len: u16,
        /// Target `src_out_pos` for this edit. For undo of a redirect,
        /// this is the *previous* src.
        src_after: u32,
        /// Target `dist_sym` to write into the event.
        dist_sym_after: u8,
    },
}

/// An [`EditAction`] as plain values.
pub struct ActionView {
    pub patches: Seq<Patch>,
    pub label: Seq<char>,
    pub kind: KindView,
}

/// An [`EditKind`] as plain values.
pub enum KindView {
    Swap(Seq<ByteWrite>),
    Redirect { out_pos: u32, copy_len: u16, src: u32, dist_sym: u8 },
}

impl View for EditKind {
    type V = KindView;

    open spec fn view(&self) -> KindView {
        match self {
            EditKind::LiteralSwap { byte_updates } => KindView::Swap(byte_updates@),
            EditKind::DistRedirect { out_pos, copy_len, src_after, dist_sym_after } =>
                KindView::Redirect {
                out_pos: *out_pos,
                copy_len: *copy_len,
                src: *src_after,
                dist_sym: *dist_sym_after,
            },
        }
    }
}

impl View for EditAction {
    type V = ActionView;

    open spec fn view(&self) -> ActionView {
        ActionView { patches: self.patches@, label: self.label@, kind: self.kind@ }
    }
}

// Rewriting bits.

/// Bit `p` lies in the patch.
pub open spec fn in_patch(patch: Patch, p: int) -> bool {
    patch.bit_start <= p < patch.bit_start + patch.code_len
}

/// Bit `p` of `before` after all of `patches`: the last patch over it decides.
pub open spec fn bit_with(before: Seq<u8>, patches: Seq<Patch>, p: int) -> bool
    decreases patches.len(),
{
    if patches.len() == 0 {
        bit_at(before, p)
    } else if in_patch(patches.last(), p) {
        msb_bits(patches.last().value as nat, patches.last().code_len as nat)[p
            - patches.last().bit_start]
    } else {
        bit_with(before, patches.drop_last(), p)
    }
}

/// `after` is `before` with all of `patches` written.
pub open spec fn is_rewritten(before: Seq<u8>, after: Seq<u8>, patches: Seq<Patch>) -> bool {
    &&& after.len() == before.len()
    &&& forall|p: int|
        0 <= p < 8 * before.len() ==> #[trigger] bit_at(after, p) == bit_with(before, patches, p)
}

/// The patch that puts back what patch `i` overwrote.
pub open spec fn inverse_patch(before: Seq<u8>, patches: Seq<Patch>, i: int) -> Patch {
    let patch = patches[i];
    let n = bits_inside(before.len(), patch.bit_start as int, patch.code_len as nat);
    Patch {
        bit_start: patch.bit_start,
        value: msb_value(
            Seq::new(n, |j: int| bit_with(before, patches.take(i), patch.bit_start + j)),
        ) as u32,
        code_len: patch.code_len,
    }
}

/// The patches that put back what `patches` overwrite.
pub open spec fn inverse_patches(before: Seq<u8>, patches: Seq<Patch>) -> Seq<Patch> {
    Seq::new(patches.len(), |i: int| inverse_patch(before, patches, i))
}

/// No patch is wider than a word.
pub open spec fn widths_ok(patches: Seq<Patch>) -> bool {
    forall|i: int| 0 <= i < patches.len() ==> (#[trigger] patches[i]).code_len <= 32
}

/// Every patch lies inside a buffer of `len` bytes, and no two overlap.
pub open spec fn patches_apart(patches: Seq<Patch>, len: nat) -> bool {
    &&& forall|i: int|
        0 <= i < patches.len() ==> (#[trigger] patches[i]).bit_start + patches[i].code_len <= 8
            * len
    &&& forall|i: int, j: int, p: int|
        0 <= i < patches.len() && 0 <= j < patches.len() && i != j && #[trigger] in_patch(
            patches[i],
            p,
        ) ==> !#[trigger] in_patch(patches[j], p)
}

/// Write each patch into `buf`, capturing the bits that were overwritten
/// so the caller can stash the inverse patch list onto the undo stack.
pub fn apply_patches_capturing_prior(buf: &mut [u8], patches: &[Patch]) -> (inverse: Vec<Patch>)
    requires
        widths_ok(patches@),
    ensures
        is_rewritten(old(buf)@, final(buf)@, patches@),
        inverse@ == inverse_patches(old(buf)@, patches@),
{
    let ghost before = buf@;
    let mut inverse: Vec<Patch> = Vec::new();
    let mut i: usize = 0;
    while i < patches.len()
        invariant
            i <= patches@.len(),
            widths_ok(patches@),
            before == old(buf)@,
            is_rewritten(before, buf@, patches@.take(i as int)),
            inverse@ =~= inverse_patches(before, patches@).take(i as int),
        decreases patches@.len() - i,
    {
        let patch: Patch = patches[i];
        let bs: usize = patch.bit_start as usize;
        let ghost mid = buf@;
        let prev: u32 = read_bits_at(buf, bs, patch.code_len);
        proof {
            let n = bits_inside(before.len(), bs as int, patch.code_len as nat);
            assert(bits_at(mid, bs as int, n) =~= Seq::new(
                n,
                |j: int| bit_with(before, patches@.take(i as int), patch.bit_start + j),
            ));
            assert(prev == inverse_patch(before, patches@, i as int).value);
        }
        inverse.push(Patch { bit_start: patch.bit_start, value: prev, code_len: patch.code_len });
        write_bits(buf, bs, patch.value, patch.code_len);
        proof {
            let now = patches@.take(i + 1);
            assert(now.drop_last() =~= patches@.take(i as int));
            assert(now.last() == patch);
            assert forall|p: int| 0 <= p < 8 * before.len() implies #[trigger] bit_at(buf@, p)
                == bit_with(before, now, p) by {
                assert(bit_at(mid, p) == bit_with(before, patches@.take(i as int), p));
            }
        }
        i = i + 1;
    }
    assert(patches@.take(i as int) =~= patches@);
    assert(inverse_patches(before, patches@).take(i as int) =~= inverse_patches(before, patches@));
    inverse
}

/// Where no patch lies over bit `p`, it stays.
proof fn lemma_untouched(before: Seq<u8>, patches: Seq<Patch>, p: int)
    requires
        forall|i: int| 0 <= i < patches.len() ==> !in_patch(#[trigger] patches[i], p),
    ensures
        bit_with(before, patches, p) == bit_at(before, p),
    decreases patches.len(),
{
    if patches.len() > 0 {
        assert(!in_patch(patches[patches.len() - 1], p));
        lemma_untouched(before, patches.drop_last(), p);
    }
}

/// Where just patch `k` lies over bit `p`, it decides.
proof fn lemma_one_patch(before: Seq<u8>, patches: Seq<Patch>, p: int, k: int)
    requires
        0 <= k < patches.len(),
        in_patch(patches[k], p),
        forall|i: int| k < i < patches.len() ==> !in_patch(#[trigger] patches[i], p),
    ensures
        bit_with(before, patches, p) == msb_bits(
            patches[k].value as nat,
            patches[k].code_len as nat,
        )[p - patches[k].bit_start],
    decreases patches.len(),
{
    if k < patches.len() - 1 {
        assert(!in_patch(patches[patches.len() - 1], p));
        lemma_one_patch(before, patches.drop_last(), p, k);
    }
}

/// The undo invariant: applying an edit's patches forward, then applying the
/// captured inverse, restores the buffer byte for byte. Real patches are inside
/// the buffer and do not overlap (one per channel for literal swaps, one per
/// redirect).
pub proof fn law_forward_then_inverse_restores(
    before: Seq<u8>,
    mid: Seq<u8>,
    after: Seq<u8>,
    patches: Seq<Patch>,
)
    requires
        widths_ok(patches),
        patches_apart(patches, before.len()),
        is_rewritten(before, mid, patches),
        is_rewritten(mid, after, inverse_patches(before, patches)),
    ensures
        after == before,
{
    let inverse = inverse_patches(before, patches);
    assert forall|p: int| 0 <= p < 8 * before.len() implies bit_at(after, p) == bit_at(
        before,
        p,
    ) by {
        assert(bit_at(after, p) == bit_with(mid, inverse, p));
        assert(bit_at(mid, p) == bit_with(before, patches, p));
        if exists|k: int| 0 <= k < patches.len() && in_patch(#[trigger] patches[k], p) {
            let k = choose|k: int| 0 <= k < patches.len() && in_patch(#[trigger] patches[k], p);
            let patch = patches[k];
            assert forall|i: int| k < i < inverse.len() implies !in_patch(
                #[trigger] inverse[i],
                p,
            ) by {
                assert(!in_patch(patches[i], p));
            }
            assert(in_patch(inverse[k], p));
            lemma_one_patch(mid, inverse, p, k);
            let n = patch.code_len as nat;
            assert(patch.bit_start + n <= 8 * before.len());
            assert(bits_inside(before.len(), patch.bit_start as int, n) == n);
            let old_bits = Seq::new(
                n,
                |j: int| bit_with(before, patches.take(k), patch.bit_start + j),
            );
            lemma_msb_value_bits(old_bits);
            lemma_word_fits(old_bits);
            assert(old_bits[p - patch.bit_start] == bit_with(before, patches.take(k), p));
            assert forall|i: int| 0 <= i < patches.take(k).len() implies !in_patch(
                #[trigger] patches.take(k)[i],
                p,
            ) by {
                assert(!in_patch(patches[i], p));
            }
            lemma_untouched(before, patches.take(k), p);
        } else {
            assert forall|i: int| 0 <= i < inverse.len() implies !in_patch(
                #[trigger] inverse[i],
                p,
            ) by {
                assert(!in_patch(patches[i], p));
            }
            lemma_untouched(mid, inverse, p);
            lemma_untouched(before, patches, p);
        }
    }
    lemma_bytes_from_bits(after, before);
}

/// Up to 32 bits fit in a word.
proof fn lemma_word_fits(s: Seq<bool>)
    requires
        s.len() <= 32,
    ensures
        msb_value(s) <= u32::MAX,
{
    lemma_msb_value_bits(s);
    vstd::arithmetic::power2::lemma2_to64();
    if s.len() < 32 {
        vstd::arithmetic::power2::lemma_pow2_strictly_increases(s.len(), 32);
    }
}

} // verus!
