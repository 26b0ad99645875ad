//! What the image view uploads: the picture, or the picture with the active
//! overlay blended in.

use vstd::prelude::*;

use super::overlay_cache::{cached, EventOverlay, OverlayCache, OverlayMode};
use crate::composite::{composite_into, composite_rows_into, composited, rows_composited};

verus! {

/// The overlay that a mode shows, where there is one.
pub open spec fn active_of(
    mode: OverlayMode,
    cascade: Option<Seq<u8>>,
    cache: Option<(EventOverlay, Seq<u8>)>,
) -> Option<Seq<u8>> {
    match mode.shows() {
        Some(overlay) => cached(cache, overlay),
        None => if mode == OverlayMode::Cascade {
            cascade
        } else {
            None
        },
    }
}

/// The buffer of the overlay that `mode` shows.
pub fn active_overlay<'a>(
    mode: OverlayMode,
    cascade: &'a Option<Vec<u8>>,
    cache: &'a OverlayCache,
) -> (r: Option<&'a Vec<u8>>)
    ensures
        match r {
            Some(bytes) => active_of(
                mode,
                match *cascade {
                    Some(v) => Some(v@),
                    None => None,
                },
                cache@,
            ) == Some(bytes@),
            None => active_of(
                mode,
                match *cascade {
                    Some(v) => Some(v@),
                    None => None,
                },
                cache@,
            ) is None,
        },
{
    match mode.event_overlay() {
        Some(overlay) => cache.get(overlay),
        None => if mode == OverlayMode::Cascade {
            cascade.as_ref()
        } else {
            None
        },
    }
}

/// If there is an overlay to composite, blend it into `scratch` and return
/// `true`. Otherwise leave the scratch alone and return `false`: the caller
/// uploads the picture directly.
///
/// When `partial_rows` is set (by an incremental edit) and the scratch still
/// holds a frame of this size, only those rows are refreshed: the others still
/// hold last frame's valid composite.
pub fn compose_into_scratch(
    base: &[u8],
    overlay: Option<&Vec<u8>>,
    scratch: &mut Vec<u8>,
    partial_rows: Option<Vec<usize>>,
    w: u32,
) -> (r: bool)
    requires
        base@.len() % 4 == 0,
        overlay matches Some(ov) ==> ov@.len() == base@.len(),
    ensures
        r == (overlay is Some),
        final(scratch)@ == (match (overlay, partial_rows) {
            (None, _) => old(scratch)@,
            (Some(ov), Some(rows)) if old(scratch)@.len() == base@.len() => rows_composited(
                base@,
                ov@,
                old(scratch)@,
                4 * w as int,
                rows@,
                0,
            ),
            (Some(ov), _) => composited(base@, ov@),
        }),
{
    let ov: &Vec<u8> = match overlay {
        Some(ov) => ov,
        None => {
            return false;
        },
    };
    if scratch.len() == base.len() {
        if let Some(rows) = partial_rows {
            composite_rows_into(
                base,
                ov.as_slice(),
                scratch.as_mut_slice(),
                w,
                rows.as_slice(),
            );
            return true;
        }
    }
    composite_into(base, ov.as_slice(), scratch);
    true
}

} // verus!
