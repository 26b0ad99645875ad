//! What an edit does to the file: the rewritten stream decodes to what the
//! document shows, and every edit that is offered is of that kind.

use vstd::prelude::*;

use super::document::{edited_events, Document};
use super::edit::{bit_with, in_patch, is_rewritten, ActionView, Patch};
use crate::bitstream::{bit_at, bits_at, msb_bits};
use crate::deflate::error::DecodeError;
use crate::deflate::events::Event;
use crate::deflate::inflate_spec::{decode_spec, Decoded};
use crate::deflate::layout::{laid_out, law_decode_laid_out};
use crate::deflate::replay_law::law_decoded_events_faithful;
use crate::deflate::rewrite_law::{
    changed, code_written, in_site, is_recoded, law_codes_in_order, law_recoded_stream_decodes,
    site_ends, site_len, site_pos, site_symbol, site_table, sites_apart, stands_for, stream_end,
};

verus! {

/// The patch writes the code of the changed event `k` where the old one stood.
pub open spec fn patch_writes(d: Decoded, events: Seq<Event>, patch: Patch, k: int) -> bool {
    let code = site_table(d, k)[site_symbol(events[k])];
    &&& changed(d, events, k)
    &&& stands_for(d, k, events[k])
    &&& patch.bit_start == site_pos(d.progress.events[k])
    &&& patch.value == code.code
    &&& patch.code_len == code.len
}

/// The patch writes the code of some changed event.
pub open spec fn patch_fits(d: Decoded, events: Seq<Event>, patch: Patch) -> bool {
    exists|k: int| #[trigger] patch_writes(d, events, patch, k)
}

/// The code of event `k` is written by one of the patches.
pub open spec fn event_patched(
    d: Decoded,
    events: Seq<Event>,
    patches: Seq<Patch>,
    k: int,
) -> bool {
    exists|i: int| 0 <= i < patches.len() && #[trigger] patch_writes(d, events, patches[i], k)
}

/// The patches of an edit are just the codes of the events that it changes,
/// each for a symbol with a code as long as the old one.
pub open spec fn action_fits(d: Decoded, action: ActionView) -> bool {
    let events = edited_events(d.progress.events, action.kind);
    &&& events.len() == d.progress.events.len()
    &&& forall|i: int|
        0 <= i < action.patches.len() ==> patch_fits(d, events, #[trigger] action.patches[i])
    &&& forall|k: int| #[trigger]
        changed(d, events, k) ==> event_patched(d, events, action.patches, k)
}

/// A stream whose bits the editor can address, all of it inside `data`.
pub open spec fn addressable(data: Seq<u8>, max_output: Option<usize>) -> bool {
    &&& 8 * data.len() <= usize::MAX
    &&& stream_end(data, max_output) <= 8 * data.len()
    &&& stream_end(data, max_output) <= u32::MAX
}

/// The last patch over a bit decides it: which one, if any.
proof fn lemma_deciding_patch(before: Seq<u8>, patches: Seq<Patch>, p: int) -> (i: int)
    ensures
        i < patches.len(),
        i >= 0 ==> in_patch(patches[i], p) && bit_with(before, patches, p) == msb_bits(
            patches[i].value as nat,
            patches[i].code_len as nat,
        )[p - patches[i].bit_start],
        i < 0 ==> bit_with(before, patches, p) == bit_at(before, p) && (forall|j: int|
            0 <= j < patches.len() ==> !in_patch(#[trigger] patches[j], p)),
    decreases patches.len(),
{
    if patches.len() == 0 {
        -1
    } else if in_patch(patches.last(), p) {
        patches.len() - 1
    } else {
        let i = lemma_deciding_patch(before, patches.drop_last(), p);
        assert forall|j: int| i < 0 && 0 <= j < patches.len() implies !in_patch(
            #[trigger] patches[j],
            p,
        ) by {
            if j < patches.len() - 1 {
                assert(patches.drop_last()[j] == patches[j]);
            }
        }
        i
    }
}

/// A patch that writes the code of event `k` covers that code.
proof fn lemma_patch_covers(d: Decoded, events: Seq<Event>, patch: Patch, k: int, p: int)
    requires
        patch_writes(d, events, patch, k),
    ensures
        in_patch(patch, p) <==> in_site(d, k, p),
        site_len(d, k) > 0,
        site_pos(events[k]) == site_pos(d.progress.events[k]),
        site_len(d, k) == site_table(d, k)[site_symbol(events[k])].len,
{
}

/// Writing the patches of an edit replaces the codes of the events that it
/// changes, and nothing else.
pub proof fn law_patches_recode(
    before: Seq<u8>,
    after: Seq<u8>,
    max_output: Option<usize>,
    d: Decoded,
    action: ActionView,
)
    requires
        addressable(before, max_output),
        decode_spec(before, max_output) == Ok::<_, DecodeError>(d),
        d.progress.out.len() <= u32::MAX,
        action_fits(d, action),
        is_rewritten(before, after, action.patches),
    ensures
        is_recoded(before, after, d, edited_events(d.progress.events, action.kind)),
{
    let events = edited_events(d.progress.events, action.kind);
    let patches = action.patches;
    law_codes_in_order(before, max_output, d);
    assert forall|p: int| #[trigger] bit_at(before, p) != bit_at(after, p) implies exists|k: int|
        #[trigger] changed(d, events, k) && in_site(d, k, p) by {
        assert(0 <= p < 8 * before.len());
        let i = lemma_deciding_patch(before, patches, p);
        assert(bit_at(after, p) == bit_with(before, patches, p));
        assert(i >= 0);
        assert(patch_fits(d, events, patches[i]));
        let k = choose|k: int| #[trigger] patch_writes(d, events, patches[i], k);
        lemma_patch_covers(d, events, patches[i], k, p);
        assert(changed(d, events, k) && in_site(d, k, p));
    }
    assert forall|k: int| #[trigger] changed(d, events, k) implies stands_for(d, k, events[k])
        && code_written(after, d, k, events[k]) by {
        assert(event_patched(d, events, patches, k));
        let i0 = choose|i: int|
            0 <= i < patches.len() && #[trigger] patch_writes(d, events, patches[i], k);
        let code = site_table(d, k)[site_symbol(events[k])];
        let at = site_pos(events[k]);
        lemma_patch_covers(d, events, patches[i0], k, at);
        assert(site_ends(d, k, stream_end(before, max_output) as int));
        assert forall|j: int| 0 <= j < code.len implies #[trigger] bit_at(after, at + j)
            == msb_bits(code.code as nat, code.len as nat)[j] by {
            let p = at + j;
            assert(0 <= p < 8 * before.len());
            lemma_patch_covers(d, events, patches[i0], k, p);
            let i = lemma_deciding_patch(before, patches, p);
            assert(i >= 0);
            assert(patch_fits(d, events, patches[i]));
            let m = choose|m: int| #[trigger] patch_writes(d, events, patches[i], m);
            lemma_patch_covers(d, events, patches[i], m, p);
            if m < k {
                assert(sites_apart(d, m, k));
            } else if k < m {
                assert(sites_apart(d, k, m));
            }
            assert(m == k);
        }
        assert(bits_at(after, at, code.len as nat) =~= msb_bits(
            code.code as nat,
            code.len as nat,
        ));
    }
}

impl Document {
    /// What the file's stream decodes to is what the document holds.
    pub open spec fn decodes(&self, max_output: Option<usize>) -> bool {
        decode_spec(self.deflate_buf@, max_output) == Ok::<_, DecodeError>(self.core.stream())
    }
}

/// An edit changes the file as it changes what is shown: the rewritten stream
/// decodes to the events and the output that the document then holds, and ends
/// where it did. So a saved edit is what loading the file gives back.
pub proof fn law_edited_file_decodes(
    before: Document,
    after: Document,
    max_output: Option<usize>,
    action: ActionView,
)
    requires
        before.core_ok(),
        after.core_ok(),
        addressable(before.deflate_buf@, max_output),
        before.decodes(max_output),
        action_fits(before.core.stream(), action),
        after.is_edited(&before, action),
    ensures
        after.decodes(max_output),
        addressable(after.deflate_buf@, max_output),
{
    let d = before.core.stream();
    let data = before.deflate_buf@;
    let now = after.deflate_buf@;
    law_patches_recode(data, now, max_output, d, action);
    law_recoded_stream_decodes(data, now, max_output, d, after.core.events@);
    law_decoded_events_faithful(now, max_output);
    law_decode_laid_out(now, max_output);
    let d2 = decode_spec(now, max_output)->Ok_0;
    assert(d2.progress.out == after.core.output@);
    assert(laid_out(after.core.stream()));
    assert(d2.progress.max_distance == after.core.max_distance);
    assert(d2 == after.core.stream());
}

} // verus!
