//! A PNG codec that keeps every DEFLATE event addressable, and the glitch
//! editor built on it.
//!
//! - [`deflate`]: RFC 1951 block decoder that records an event per literal and
//!   back-reference, plus the inverse (greedy LZ77 and stored / fixed / dynamic
//!   Huffman serializers, whichever is smallest).
//! - [`png`]: chunk framing, IHDR / PLTE / tRNS, row filtering both ways, RGBA
//!   conversion and its inverse, Adam7, and the zlib / CRC re-emit path.
//! - [`coords`] and [`raster`]: pixel to byte geometry.
//! - [`api`]: the entry points [`decode`], [`decode_strict`],
//!   [`decode_with_events`] and [`encode`].
//! - [`index`]: event lookup, the LZ77 reverse graph, cascades, and the pixel
//!   summary.
//! - [`composite`]: overlay blending.
//! - [`editor`]: the loaded document, its edits and undo, the pixel list and the
//!   selection.
//!
//! Every function states what it returns over mathematical models of the data;
//! the public proof functions named `law_*` state what holds across functions.

pub mod api;
pub mod bit_law;
pub mod bitstream;
pub mod composite;
pub mod coords;
pub mod deflate;
pub mod editor;
pub mod index;
pub mod messages;
pub mod png;
pub mod raster;
pub mod text;

pub use api::decode::{decode, decode_strict, decode_with_events};
pub use api::encode::{encode, EncodeOptions, OutputFormat};
pub use api::error::PngError;
pub use api::image::{GlassBox, Image};
pub use png::chunks::Warning;
pub use raster::Raster;
