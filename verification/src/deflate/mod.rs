//! DEFLATE (RFC 1951) codec, both directions.
//!
//! Decode (`decoder`) scans blocks and records every literal and
//! back-reference as an `Event` so callers can map pixels back to the bits
//! that produced them. Encode is split by concern: `lz77` finds matches,
//! `huffman` and `package_merge` build code tables in both directions (decode
//! LUT and optimal lengths), and `encode` serializes the three block types.
//! `constants` holds the shared length/distance tables.
//!
//! `inflate_spec` says what a stream means and `stream_spec` what the
//! serializers write.

pub mod block_law;
pub mod body_law;
pub mod canonical;
pub mod code_law;
pub mod compress;
pub mod constants;
pub mod decoder;
pub mod dynamic;
pub mod encode;
pub mod error;
pub mod events;
pub mod huffman;
pub mod inflate_spec;
pub mod layout;
pub mod lz77;
pub mod optimal_law;
pub mod package_merge;
pub mod replay_law;
pub mod rewrite_law;
pub mod roundtrip;
pub mod stream_spec;
pub mod writer;

pub use compress::compress;
pub use constants::{DBASE, DEXT};
pub use decoder::{decode_deflate, inflate, DecodedDeflate};
pub use dynamic::serialize_dynamic;
pub use encode::{serialize_fixed, serialize_stored};
pub use error::DecodeError;
pub use events::{block_of, EncTable, Event, LitEvent, RefEvent, SymCode};
