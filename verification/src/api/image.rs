//! The public decode result types.

use vstd::prelude::*;

use crate::deflate::decoder::DecodedDeflate;
use crate::deflate::inflate_spec::Decoded;
use crate::png::chunks::{PngInfo, Warning};
use crate::png::convert::{entry_views, PaletteEntry};

verus! {

/// A decoded image: metadata plus tightly-packed RGBA8 pixels
/// (`info.width * info.height * 4` bytes, row-major, no padding).
#[derive(Debug, Clone)]
pub struct Image {
    pub info: PngInfo,
    /// Decoded palette for indexed PNGs; `None` for every other colour type.
    pub palette: Option<Vec<PaletteEntry>>,
    /// RGBA8, one `[r, g, b, a]` per pixel in raster order.
    pub pixels: Vec<u8>,
    /// Non-fatal issues found while decoding, e.g. a chunk whose CRC doesn't
    /// match or a stale zlib Adler-32. Advisory; the image still decoded.
    pub warnings: Vec<Warning>,
}

/// The colours of an owned palette.
pub open spec fn owned_palette_view(palette: Option<Vec<PaletteEntry>>) -> Option<Seq<Seq<u8>>> {
    match palette {
        Some(p) => Some(entry_views(p@)),
        None => None,
    }
}

/// What an image holds.
#[verifier::ext_equal]
pub struct ImageView {
    pub info: PngInfo,
    pub palette: Option<Seq<Seq<u8>>>,
    pub pixels: Seq<u8>,
    pub warnings: Seq<Warning>,
}

impl View for Image {
    type V = ImageView;

    open spec fn view(&self) -> ImageView {
        ImageView {
            info: self.info,
            palette: owned_palette_view(self.palette),
            pixels: self.pixels@,
            warnings: self.warnings@,
        }
    }
}

/// A glass-box decode: everything [`Image`] needs plus the compressed
/// representation itself. Pair the (possibly edited) `deflate.output` with
/// [`crate::png::zlib::build_zlib_stream`] and
/// [`crate::png::chunks::write_chunks`] to re-emit a valid PNG.
#[derive(Debug)]
pub struct GlassBox {
    pub info: PngInfo,
    pub palette: Option<Vec<PaletteEntry>>,
    /// The decoded DEFLATE stream: raw filtered `output` bytes, the per-
    /// literal / per-back-reference event log, the per-block Huffman encoder
    /// tables, and block boundaries.
    pub deflate: DecodedDeflate,
    /// The `output` bytes with the per-row PNG filters undone
    /// (`height * (row_stride - 1)` bytes): the input to RGBA conversion.
    pub unfiltered: Vec<u8>,
    pub warnings: Vec<Warning>,
}

/// What a glass-box decode holds.
#[verifier::ext_equal]
pub struct GlassView {
    pub info: PngInfo,
    pub palette: Option<Seq<Seq<u8>>>,
    pub deflate: Decoded,
    pub unfiltered: Seq<u8>,
    pub warnings: Seq<Warning>,
}

impl View for GlassBox {
    type V = GlassView;

    open spec fn view(&self) -> GlassView {
        GlassView {
            info: self.info,
            palette: owned_palette_view(self.palette),
            deflate: self.deflate@,
            unfiltered: self.unfiltered@,
            warnings: self.warnings@,
        }
    }
}

} // verus!
