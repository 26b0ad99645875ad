//! Single-slot cache for the event-driven overlay buffers (Literals /
//! Distance / Blocks), keyed by which one is currently shown.

use vstd::prelude::*;

verus! {

#[derive(Debug, PartialEq, Eq, Clone, Copy, Structural)]
pub enum OverlayMode {
    /// Nothing over the image.
    NoOverlay,
    Literals,
    Distance,
    Blocks,
    Cascade,
}

/// The overlays rendered from the event stream and cached: the cacheable
/// subset of [`OverlayMode`] (which also has `NoOverlay` and the per-click
/// `Cascade`). Keying [`OverlayCache`] on this makes the "only these three"
/// rule a type rather than a runtime guard.
#[derive(Debug, PartialEq, Eq, Clone, Copy, Structural)]
pub enum EventOverlay {
    Literals,
    Distance,
    Blocks,
}

impl OverlayMode {
    /// All modes the user can pick in the UI.
    pub const ALL: [OverlayMode; 5] = [
        OverlayMode::NoOverlay,
        OverlayMode::Literals,
        OverlayMode::Distance,
        OverlayMode::Blocks,
        OverlayMode::Cascade,
    ];

    /// The name in the overlay selector.
    pub open spec fn name(self) -> Seq<char> {
        match self {
            OverlayMode::NoOverlay => "None"@,
            OverlayMode::Literals => "Literals"@,
            OverlayMode::Distance => "Distance"@,
            OverlayMode::Blocks => "Blocks"@,
            OverlayMode::Cascade => "Cascade"@,
        }
    }

    /// The cached overlay that the mode shows.
    pub open spec fn shows(self) -> Option<EventOverlay> {
        match self {
            OverlayMode::Literals => Some(EventOverlay::Literals),
            OverlayMode::Distance => Some(EventOverlay::Distance),
            OverlayMode::Blocks => Some(EventOverlay::Blocks),
            OverlayMode::NoOverlay => None,
            OverlayMode::Cascade => None,
        }
    }

    pub fn label(self) -> (r: &'static str)
        ensures
            r@ == self.name(),
    {
        match self {
            OverlayMode::NoOverlay => "None",
            OverlayMode::Literals => "Literals",
            OverlayMode::Distance => "Distance",
            OverlayMode::Blocks => "Blocks",
            OverlayMode::Cascade => "Cascade",
        }
    }

    /// The cacheable event-driven overlay for this mode, or `None` for the
    /// modes without a cached buffer (`NoOverlay` renders nothing; `Cascade` is
    /// rebuilt per click).
    pub fn event_overlay(self) -> (r: Option<EventOverlay>)
        ensures
            r == self.shows(),
    {
        match self {
            OverlayMode::Literals => Some(EventOverlay::Literals),
            OverlayMode::Distance => Some(EventOverlay::Distance),
            OverlayMode::Blocks => Some(EventOverlay::Blocks),
            OverlayMode::NoOverlay => None,
            OverlayMode::Cascade => None,
        }
    }
}

/// Single-slot cache holding the most recently rendered overlay buffer.
///
/// Each event-driven overlay is `w * h * 4` bytes: 16 MB on a 4 MP RGB
/// photo, 256 MB on a 64 MP one. The user sees one overlay at a time
/// and re-rendering takes ~50 ms, so a single slot trades "instant mode
/// switch" for two-thirds of the overlay working set back.
///
/// On a switch the previous entry drops first, then the new one renders.
pub struct OverlayCache {
    entry: Option<(EventOverlay, Vec<u8>)>,
}

impl View for OverlayCache {
    type V = Option<(EventOverlay, Seq<u8>)>;

    closed spec fn view(&self) -> Option<(EventOverlay, Seq<u8>)> {
        match self.entry {
            Some((overlay, bytes)) => Some((overlay, bytes@)),
            None => None,
        }
    }
}

/// The bytes that a cache holds for an overlay.
pub open spec fn cached(cache: Option<(EventOverlay, Seq<u8>)>, overlay: EventOverlay) -> Option<
    Seq<u8>,
> {
    match cache {
        Some((held, bytes)) if held == overlay => Some(bytes),
        _ => None,
    }
}

impl Default for OverlayCache {
    fn default() -> (r: Self)
        ensures
            r@ is None,
    {
        OverlayCache { entry: None }
    }
}

impl OverlayCache {
    pub fn clear(&mut self)
        ensures
            final(self)@ is None,
    {
        self.entry = None;
    }

    /// Drop the cached overlay only when it's the distance one. After
    /// a redirect edit, the redirected ref's distance changes,
    /// which recolours its pixels in the distance heatmap, but leaves
    /// literal and block overlays valid (literals didn't move, every
    /// event kept its block). Specialised over `clear` so the common
    /// case (current cache is Literals or Blocks) skips the eviction.
    pub fn invalidate_distance(&mut self)
        ensures
            final(self)@ == (match old(self)@ {
                Some((EventOverlay::Distance, _)) => None,
                other => other,
            }),
    {
        let stale: bool = match &self.entry {
            Some((EventOverlay::Distance, _)) => true,
            _ => false,
        };
        if stale {
            self.entry = None;
        }
    }

    pub fn get(&self, overlay: EventOverlay) -> (r: Option<&Vec<u8>>)
        ensures
            match r {
                Some(bytes) => cached(self@, overlay) == Some(bytes@),
                None => cached(self@, overlay) is None,
            },
    {
        match &self.entry {
            Some((held, bytes)) => if *held == overlay {
                Some(bytes)
            } else {
                None
            },
            None => None,
        }
    }

    /// Render `overlay` if it isn't already the cached entry, evicting
    /// whatever was cached before, then return the cached bytes.
    pub fn ensure<F: FnOnce(EventOverlay) -> Vec<u8>>(
        &mut self,
        overlay: EventOverlay,
        render: F,
    ) -> (r: Option<&Vec<u8>>)
        requires
            cached(old(self)@, overlay) is None ==> call_requires(render, (overlay,)),
        ensures
            match cached(old(self)@, overlay) {
                Some(_) => final(self)@ == old(self)@,
                None => exists|bytes: Vec<u8>| #[trigger]
                    call_ensures(render, (overlay,), bytes) && final(self)@ == Some(
                        (overlay, bytes@),
                    ),
            },
            r matches Some(bytes) && cached(final(self)@, overlay) == Some(bytes@),
    {
        let already_cached: bool = match &self.entry {
            Some((held, _)) => *held == overlay,
            None => false,
        };
        if !already_cached {
            // Drop the previous slot before rendering the new one so peak
            // memory during the switch stays at one buffer, not two.
            self.entry = None;
            let bytes: Vec<u8> = render(overlay);
            self.entry = Some((overlay, bytes));
        }
        match &self.entry {
            Some((_, bytes)) => Some(bytes),
            None => None,
        }
    }
}

} // verus!
