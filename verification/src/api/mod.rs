//! The codec's entry points: bytes to pixels and back.

pub mod accept_law;
pub mod decode;
pub mod encode;
pub mod error;
pub mod file_law;
pub mod image;
pub mod limits;
pub mod prep;
pub mod roundtrip;
