//! PNG format handling: chunk I/O, IHDR parsing, zlib wrapping, row-filter
//! unfiltering, and any-color-type → RGBA8 conversion.

pub mod checksum_law;
pub mod chunks;
pub mod convert;
pub mod filter;
pub mod filter_law;
pub mod interlace;
pub mod pixel_law;
pub mod zlib;

pub use chunks::{
    concat_idat, parse_ihdr, read_chunks, write_chunks, Chunk, ChunkType, ChunksError, ColorType,
    ParsedChunks, PngInfo, Warning,
};
pub use convert::{
    apply_color_key, decode_palette, pack, to_rgba8, to_rgba8_rows_into, ConvertError, PaletteEntry,
    TrnsKey,
};
pub use filter::{filter, unfilter, unfilter_rows_into, FilterError, FilterStrategy, FilterType};
pub use interlace::{
    deinterlace_to_rgba8, deinterlace_unfilter, interlaced_output_len, InterlaceError,
};
pub use zlib::{
    adler32, build_zlib_stream, parse_zlib_stream, ParsedZlib, ZlibError, ZLIB_DEFAULT_HEADER,
};
