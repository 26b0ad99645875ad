//! Derived indices over a decoded DEFLATE stream: event lookup tables, the
//! LZ77 reverse graph, the cascade BFS scratch, and the side-panel pixel
//! summary.

pub mod alts_law;
pub mod cascade;
pub mod forest;
pub mod listing_law;
pub mod pixel;
pub mod pos_to_ev;
pub mod reverse_graph;

pub use cascade::{Cascade, CascadeScratch};
pub use pixel::{build_pixel_index, valid_dist_alts, DistAlt, PixelIndex, PixelRow};
pub use pos_to_ev::{build_pos_to_ev, event_at};
pub use reverse_graph::{build_reverse_graph, ReverseGraph};
