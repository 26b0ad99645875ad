//! PNG chunk parsing and IHDR interpretation.

use vstd::prelude::*;
use vstd::string::StringExecFns;

verus! {

/// A four-byte PNG chunk type tag (`IHDR`, `IDAT`, ...), so comparisons read
/// `c.typ == ChunkType::idat()` and the named tags live in one place.
#[derive(Debug, Clone, Copy, PartialEq, Eq, Hash, Structural)]
pub struct ChunkType(pub u8, pub u8, pub u8, pub u8);

/// `IHDR`
pub open spec fn ihdr_tag() -> ChunkType {
    ChunkType(0x49, 0x48, 0x44, 0x52)
}

/// `IDAT`
pub open spec fn idat_tag() -> ChunkType {
    ChunkType(0x49, 0x44, 0x41, 0x54)
}

/// `IEND`
pub open spec fn iend_tag() -> ChunkType {
    ChunkType(0x49, 0x45, 0x4E, 0x44)
}

/// `PLTE`
pub open spec fn plte_tag() -> ChunkType {
    ChunkType(0x50, 0x4C, 0x54, 0x45)
}

/// `tRNS`
pub open spec fn trns_tag() -> ChunkType {
    ChunkType(0x74, 0x52, 0x4E, 0x53)
}

impl View for ChunkType {
    type V = Seq<u8>;

    open spec fn view(&self) -> Seq<u8> {
        seq![self.0, self.1, self.2, self.3]
    }
}

impl ChunkType {
    pub fn ihdr() -> (r: ChunkType)
        ensures
            r == ihdr_tag(),
    {
        ChunkType(0x49, 0x48, 0x44, 0x52)
    }

    pub fn idat() -> (r: ChunkType)
        ensures
            r == idat_tag(),
    {
        ChunkType(0x49, 0x44, 0x41, 0x54)
    }

    pub fn iend() -> (r: ChunkType)
        ensures
            r == iend_tag(),
    {
        ChunkType(0x49, 0x45, 0x4E, 0x44)
    }

    pub fn plte() -> (r: ChunkType)
        ensures
            r == plte_tag(),
    {
        ChunkType(0x50, 0x4C, 0x54, 0x45)
    }

    pub fn trns() -> (r: ChunkType)
        ensures
            r == trns_tag(),
    {
        ChunkType(0x74, 0x52, 0x4E, 0x53)
    }

    /// The tag's four bytes.
    pub fn as_bytes(&self) -> (r: [u8; 4])
        ensures
            r@ == self@,
    {
        let r: [u8; 4] = [self.0, self.1, self.2, self.3];
        assert(r@ =~= self@);
        r
    }
}

#[derive(Debug)]
pub struct Chunk {
    pub typ: ChunkType,
    pub data: Vec<u8>,
}

/// A chunk's tag and contents.
#[verifier::ext_equal]
pub struct ChunkView {
    pub typ: ChunkType,
    pub data: Seq<u8>,
}

impl View for Chunk {
    type V = ChunkView;

    open spec fn view(&self) -> ChunkView {
        ChunkView { typ: self.typ, data: self.data@ }
    }
}

/// The contents of a chunk list.
pub open spec fn chunk_views(chunks: Seq<Chunk>) -> Seq<ChunkView> {
    Seq::new(chunks.len(), |i: int| chunks[i]@)
}

/// PNG color type per the IHDR spec. Carried on [`PngInfo`] so the
/// row-filter inverse and the colour-type → RGBA converter can dispatch
/// off it without re-parsing IHDR each call.
#[derive(Debug, Clone, Copy, PartialEq, Eq, Structural)]
pub enum ColorType {
    Greyscale,
    Rgb,
    Indexed,
    GreyAlpha,
    Rgba,
}

/// The colour type of an IHDR byte.
pub open spec fn color_of_byte(b: u8) -> Option<ColorType> {
    if b == 0 {
        Some(ColorType::Greyscale)
    } else if b == 2 {
        Some(ColorType::Rgb)
    } else if b == 3 {
        Some(ColorType::Indexed)
    } else if b == 4 {
        Some(ColorType::GreyAlpha)
    } else if b == 6 {
        Some(ColorType::Rgba)
    } else {
        None
    }
}

impl ColorType {
    pub open spec fn spec_to_byte(self) -> u8 {
        match self {
            ColorType::Greyscale => 0,
            ColorType::Rgb => 2,
            ColorType::Indexed => 3,
            ColorType::GreyAlpha => 4,
            ColorType::Rgba => 6,
        }
    }

    pub open spec fn spec_channels(self) -> nat {
        match self {
            ColorType::Greyscale => 1,
            ColorType::Indexed => 1,
            ColorType::GreyAlpha => 2,
            ColorType::Rgb => 3,
            ColorType::Rgba => 4,
        }
    }

    /// Whether `bit_depth` is legal for this colour type.
    pub open spec fn depth_allowed(self, bit_depth: u8) -> bool {
        match self {
            ColorType::Greyscale => bit_depth == 1 || bit_depth == 2 || bit_depth == 4 || bit_depth
                == 8 || bit_depth == 16,
            ColorType::Indexed => bit_depth == 1 || bit_depth == 2 || bit_depth == 4 || bit_depth
                == 8,
            _ => bit_depth == 8 || bit_depth == 16,
        }
    }

    /// Per-channel display name of sample `i`.
    pub open spec fn channel_name(self, i: usize) -> Seq<char> {
        match (self, i) {
            (ColorType::Greyscale, 0) => "Y"@,
            (ColorType::GreyAlpha, 0) => "Y"@,
            (ColorType::GreyAlpha, 1) => "A"@,
            (ColorType::Rgb, 0) => "R"@,
            (ColorType::Rgb, 1) => "G"@,
            (ColorType::Rgb, 2) => "B"@,
            (ColorType::Rgba, 0) => "R"@,
            (ColorType::Rgba, 1) => "G"@,
            (ColorType::Rgba, 2) => "B"@,
            (ColorType::Rgba, 3) => "A"@,
            (ColorType::Indexed, 0) => "idx"@,
            _ => "?"@,
        }
    }

    pub fn from_byte(b: u8) -> (r: Option<Self>)
        ensures
            r == color_of_byte(b),
    {
        match b {
            0 => Some(ColorType::Greyscale),
            2 => Some(ColorType::Rgb),
            3 => Some(ColorType::Indexed),
            4 => Some(ColorType::GreyAlpha),
            6 => Some(ColorType::Rgba),
            _ => None,
        }
    }

    /// IHDR colour-type byte (PNG spec Table 11.1).
    pub fn to_byte(self) -> (r: u8)
        ensures
            r == self.spec_to_byte(),
            color_of_byte(r) == Some(self),
    {
        match self {
            ColorType::Greyscale => 0,
            ColorType::Rgb => 2,
            ColorType::Indexed => 3,
            ColorType::GreyAlpha => 4,
            ColorType::Rgba => 6,
        }
    }

    /// Samples per pixel.
    pub fn channels(self) -> (r: u32)
        ensures
            r == self.spec_channels(),
    {
        match self {
            ColorType::Greyscale => 1,
            ColorType::Indexed => 1,
            ColorType::GreyAlpha => 2,
            ColorType::Rgb => 3,
            ColorType::Rgba => 4,
        }
    }

    /// Whether `bit_depth` is legal for this colour type (PNG spec Table
    /// 11.1). Greyscale allows 1/2/4/8/16, indexed 1/2/4/8, and the
    /// truecolour and alpha types only 8/16.
    pub fn allows_bit_depth(self, bit_depth: u8) -> (r: bool)
        ensures
            r == self.depth_allowed(bit_depth),
    {
        match self {
            ColorType::Greyscale => bit_depth == 1 || bit_depth == 2 || bit_depth == 4 || bit_depth
                == 8 || bit_depth == 16,
            ColorType::Indexed => bit_depth == 1 || bit_depth == 2 || bit_depth == 4 || bit_depth
                == 8,
            _ => bit_depth == 8 || bit_depth == 16,
        }
    }

    /// Display name of sample `i` in output order. Greyscale luma is `Y`;
    /// indexed samples are palette indices; `?` past the last sample.
    fn sample_name(self, i: usize) -> (r: &'static str)
        ensures
            r@ == self.channel_name(i),
    {
        match (self, i) {
            (ColorType::Greyscale, 0) => "Y",
            (ColorType::GreyAlpha, 0) => "Y",
            (ColorType::GreyAlpha, 1) => "A",
            (ColorType::Rgb, 0) => "R",
            (ColorType::Rgb, 1) => "G",
            (ColorType::Rgb, 2) => "B",
            (ColorType::Rgba, 0) => "R",
            (ColorType::Rgba, 1) => "G",
            (ColorType::Rgba, 2) => "B",
            (ColorType::Rgba, 3) => "A",
            (ColorType::Indexed, 0) => "idx",
            _ => "?",
        }
    }
}

/// Parsed IHDR plus every derived layout quantity the rest of the app
/// needs. This is the single geometry type: codec dispatch reads
/// `color_type` / `bit_depth`, buffer indexing reads `bpp` /
/// `row_stride`, and the pixel↔byte coordinate methods (defined in
/// [`crate::coords`]) read `bits_per_pixel`.
///
/// The derived fields are computed in exactly one place
/// ([`PngInfo::new`]) so the row-layout formula cannot drift between
/// call sites. Construct via `new`; the fields are `pub` for read
/// access.
#[derive(Debug, Clone, Copy, PartialEq, Eq, Structural)]
pub struct PngInfo {
    pub width: u32,
    pub height: u32,
    pub bit_depth: u8,
    pub color_type: ColorType,
    /// Bytes per pixel rounded up to whole bytes (PNG spec §9.4: the
    /// filter-offset bytes-per-pixel, `1` for sub-byte depths).
    pub bpp: usize,
    /// True bits per pixel: `bit_depth * channels`. 1/2/4 for sub-byte
    /// greyscale and indexed; 8/16/24/32/48/64 for the byte-aligned
    /// types. Drives the pixel↔byte coordinate arithmetic.
    pub bits_per_pixel: u32,
    /// `1 + ceil(width * bits_per_pixel / 8)`: leading filter byte
    /// plus the row's packed data bytes. For interlaced images this is the
    /// stride of the *full* image; each Adam7 pass has its own smaller
    /// stride (see [`crate::png::interlace`]).
    pub row_stride: usize,
    /// Adam7 interlacing (IHDR interlace-method 1). When set, the decoded
    /// `output` is seven concatenated sub-images rather than one raster,
    /// and `row_stride` describes only the reassembled full image.
    pub interlaced: bool,
}

/// `ceil(n / 8)`.
pub open spec fn bytes_for_bits(n: nat) -> nat {
    (n + 7) / 8
}

/// The bytes of one row, its leading filter byte included.
pub open spec fn stride_of(width: nat, bit_depth: nat, channels: nat) -> nat {
    1 + bytes_for_bits(width * (bit_depth * channels))
}

/// The geometry that four IHDR quantities define.
pub open spec fn info_of(width: u32, height: u32, bit_depth: u8, color_type: ColorType) -> PngInfo {
    let bits = bit_depth as nat * color_type.spec_channels();
    let bytes = bytes_for_bits(bits);
    PngInfo {
        width,
        height,
        bit_depth,
        color_type,
        bpp: if bytes < 1 {
            1
        } else {
            bytes as usize
        },
        bits_per_pixel: bits as u32,
        row_stride: stride_of(
            width as nat,
            bit_depth as nat,
            color_type.spec_channels(),
        ) as usize,
        interlaced: false,
    }
}

impl PngInfo {
    /// The derived fields are those that the IHDR quantities define.
    pub open spec fn wf(self) -> bool {
        &&& stride_of(
            self.width as nat,
            self.bit_depth as nat,
            self.color_type.spec_channels(),
        ) <= usize::MAX
        &&& self == (PngInfo {
            interlaced: self.interlaced,
            ..info_of(self.width, self.height, self.bit_depth, self.color_type)
        })
    }

    /// The depth is one that the colour type allows.
    pub open spec fn legal(self) -> bool {
        self.wf() && self.color_type.depth_allowed(self.bit_depth)
    }

    /// Data bytes per row, without the filter byte.
    pub open spec fn row_bytes(self) -> nat {
        (self.row_stride - 1) as nat
    }

    /// What [`PngInfo::channel_label`] says.
    pub open spec fn label(self, byte_offset: usize) -> Seq<char> {
        if self.bit_depth < 8 {
            self.color_type.channel_name(0)
        } else {
            let per_sample = (self.bit_depth / 8) as usize;
            let name = self.color_type.channel_name(byte_offset / per_sample);
            if per_sample == 2 {
                name + (if byte_offset % 2 == 0 {
                    " hi"@
                } else {
                    " lo"@
                })
            } else {
                name
            }
        }
    }

    /// Human label for the `byte_offset`-th byte within a pixel, for the
    /// selection info panel. `byte_offset` is a byte index in `0..bpp`
    /// (the unit the event loop walks), *not* a channel index; the two
    /// coincide only at 8-bit depth.
    ///
    /// - 8-bit: one byte per channel → the channel name (`R`, `G`, ...).
    /// - 16-bit: two big-endian bytes per channel → the channel name
    ///   plus ` hi` / ` lo`, so byte 1 of 16-bit RGB reads `R lo`, not
    ///   the wrong `G`.
    /// - Sub-byte: the whole pixel cluster lives in one byte; there is
    ///   no per-channel offset, so it's named by colour type.
    pub fn channel_label(&self, byte_offset: usize) -> (r: String)
        ensures
            r@ == self.label(byte_offset),
    {
        if self.bit_depth < 8 {
            return String::from_str(self.color_type.sample_name(0));
        }
        let bytes_per_sample: usize = (self.bit_depth / 8) as usize;
        let sample: usize = byte_offset / bytes_per_sample;
        let mut label: String = String::from_str(self.color_type.sample_name(sample));
        if bytes_per_sample == 2 {
            if byte_offset % 2 == 0 {
                label.append(" hi");
            } else {
                label.append(" lo");
            }
        }
        label
    }

    /// Compute every derived layout field from the four IHDR quantities.
    /// The only place the row-layout formulas live.
    pub fn new(width: u32, height: u32, bit_depth: u8, color_type: ColorType) -> (r: Self)
        requires
            stride_of(width as nat, bit_depth as nat, color_type.spec_channels()) <= usize::MAX,
        ensures
            r == info_of(width, height, bit_depth, color_type),
            r.wf(),
    {
        let ch: u32 = color_type.channels();
        proof {
            assert(0 <= bit_depth * ch <= 1020) by (nonlinear_arith)
                requires
                    bit_depth <= 255,
                    ch <= 4,
            ;
        }
        let bits_per_pixel: u32 = bit_depth as u32 * ch;
        // PNG spec §9.4: filter-byte offset uses bytes-per-pixel rounded
        // up to whole bytes (so 1 for sub-byte depths).
        let bytes: u32 = (bits_per_pixel + 7) / 8;
        let bpp: usize = if bytes < 1 {
            1
        } else {
            bytes as usize
        };
        proof {
            assert(width * bits_per_pixel <= 0xFFFF_FFFF * 0x400) by (nonlinear_arith)
                requires
                    width <= 0xFFFF_FFFF,
                    bits_per_pixel <= 0x400,
            ;
        }
        // Row data bytes round up too: 9 pixels at 1 bit/pixel is 2 bytes.
        let row_data_bytes: u64 = (width as u64 * bits_per_pixel as u64 + 7) / 8;
        PngInfo {
            width,
            height,
            bit_depth,
            color_type,
            bpp,
            bits_per_pixel,
            row_stride: 1 + row_data_bytes as usize,
            interlaced: false,
        }
    }
}

pub const PNG_SIG: [u8; 8] = [0x89, 0x50, 0x4E, 0x47, 0x0D, 0x0A, 0x1A, 0x0A];

/// Fatal parse errors from [`read_chunks`]. Bad CRCs aren't here; they
/// surface as a [`Warning`] inside [`ParsedChunks`] so a glitched file with
/// stale checksums still loads.
#[derive(Debug, Clone, Copy, PartialEq, Eq, Structural)]
pub enum ChunksError {
    MissingSignature,
    Truncated,
}

/// Output of [`read_chunks`]: the chunk list plus any per-chunk CRC
/// warnings.
#[derive(Debug)]
pub struct ParsedChunks {
    pub chunks: Vec<Chunk>,
    pub warnings: Vec<Warning>,
}

impl Default for ParsedChunks {
    fn default() -> (r: Self)
        ensures
            r.chunks@.len() == 0,
            r.warnings@.len() == 0,
    {
        ParsedChunks { chunks: Vec::new(), warnings: Vec::new() }
    }
}

/// A non-fatal integrity issue found while decoding: the image still decoded,
/// but a checksum didn't match. [`crate::api::decode`] collects these; every
/// variant is a checksum/CRC mismatch, which is what lets `decode_strict`
/// reject a non-empty warning list as a bad checksum.
#[derive(Debug, Clone, Copy, PartialEq, Eq, Structural)]
pub enum Warning {
    /// A chunk's CRC-32 didn't match its data.
    ChunkCrc { typ: ChunkType },
    /// The zlib header's FCHECK bits don't validate.
    ZlibHeaderChecksum,
    /// The zlib Adler-32 trailer didn't match the decoded image data.
    StaleImageAdler,
}

// Big-endian numbers.

/// A 32-bit number as four bytes, most significant first.
pub open spec fn be_bytes(v: u32) -> Seq<u8> {
    seq![
        (v / 0x100_0000) as u8,
        (v / 0x1_0000 % 0x100) as u8,
        (v / 0x100 % 0x100) as u8,
        (v % 0x100) as u8,
    ]
}

/// The number that the four bytes at `p` spell, most significant first.
pub open spec fn be_number(s: Seq<u8>, p: int) -> nat {
    (s[p] * 0x100_0000 + s[p + 1] * 0x1_0000 + s[p + 2] * 0x100 + s[p + 3]) as nat
}

pub proof fn lemma_be_round_trip(s: Seq<u8>, p: int, v: u32)
    requires
        0 <= p,
        p + 4 <= s.len(),
        s.subrange(p, p + 4) == be_bytes(v),
    ensures
        be_number(s, p) == v,
{
    let t = s.subrange(p, p + 4);
    assert(s[p] == t[0] && s[p + 1] == t[1] && s[p + 2] == t[2] && s[p + 3] == t[3]);
}

pub fn push_be(out: &mut Vec<u8>, v: u32)
    ensures
        final(out)@ == old(out)@ + be_bytes(v),
{
    out.push((v / 0x100_0000) as u8);
    out.push((v / 0x1_0000 % 0x100) as u8);
    out.push((v / 0x100 % 0x100) as u8);
    out.push((v % 0x100) as u8);
    assert(out@ =~= old(out)@ + be_bytes(v));
}

pub fn read_be(data: &[u8], p: usize) -> (r: u32)
    requires
        p + 4 <= data@.len(),
    ensures
        r == be_number(data@, p as int),
{
    data[p] as u32 * 0x100_0000 + data[p + 1] as u32 * 0x1_0000 + data[p + 2] as u32 * 0x100
        + data[p + 3] as u32
}

// CRC-32 (ISO 3309 / PNG)

/// One bit of the CRC-32 division; 0xEDB88320 is the reversed polynomial (PNG
/// spec 15.3).
pub open spec fn crc_bit(c: u32) -> u32 {
    if c & 1 != 0 {
        0xEDB8_8320 ^ (c >> 1)
    } else {
        c >> 1
    }
}

/// `n` bits of it.
pub open spec fn crc_bits(c: u32, n: nat) -> u32
    decreases n,
{
    if n == 0 {
        c
    } else {
        crc_bit(crc_bits(c, (n - 1) as nat))
    }
}

/// One byte of it.
pub open spec fn crc_byte(crc: u32, b: u8) -> u32 {
    crc_bits((crc ^ (b as u32)) & 0xFF, 8) ^ (crc >> 8)
}

/// The register after `bytes`.
pub open spec fn crc_register(bytes: Seq<u8>) -> u32
    decreases bytes.len(),
{
    if bytes.len() == 0 {
        0xFFFF_FFFF
    } else {
        crc_byte(crc_register(bytes.drop_last()), bytes.last())
    }
}

/// The CRC-32 of a chunk: over its tag and its data.
#[verifier::opaque]
pub open spec fn chunk_crc(typ: ChunkType, data: Seq<u8>) -> u32 {
    crc_register(typ@ + data) ^ 0xFFFF_FFFF
}

fn crc_table() -> (t: Vec<u32>)
    ensures
        t@.len() == 256,
        forall|n: int| 0 <= n < 256 ==> #[trigger] t@[n] == crc_bits(n as u32, 8),
{
    let mut t: Vec<u32> = Vec::new();
    let mut n: u32 = 0;
    while n < 256
        invariant
            n <= 256,
            t@.len() == n,
            forall|k: int| 0 <= k < n ==> #[trigger] t@[k] == crc_bits(k as u32, 8),
        decreases 256 - n,
    {
        let mut c: u32 = n;
        let mut i: u32 = 0;
        while i < 8
            invariant
                i <= 8,
                c == crc_bits(n, i as nat),
            decreases 8 - i,
        {
            if c & 1 != 0 {
                c = 0xEDB8_8320 ^ (c >> 1);
            } else {
                c = c >> 1;
            }
            i = i + 1;
        }
        t.push(c);
        n = n + 1;
    }
    t
}

/// CRC-32 over a chunk's tag and data.
pub fn crc32(typ: &ChunkType, data: &[u8]) -> (r: u32)
    ensures
        r == chunk_crc(*typ, data@),
{
    proof {
        reveal(chunk_crc);
    }
    let table: Vec<u32> = crc_table();
    let tag: [u8; 4] = typ.as_bytes();
    let mut crc: u32 = 0xFFFF_FFFF;
    let mut i: usize = 0;
    let ghost all = typ@ + data@;
    assert(all.take(0) =~= Seq::<u8>::empty());
    let len: usize = data.len();
    while i < 4
        invariant
            i <= 4,
            tag@ == typ@,
            all == typ@ + data@,
            table@.len() == 256,
            forall|n: int| 0 <= n < 256 ==> #[trigger] table@[n] == crc_bits(n as u32, 8),
            crc == crc_register(all.take(i as int)),
        decreases 4 - i,
    {
        let b: u8 = tag[i];
        let k: u32 = (crc ^ (b as u32)) & 0xFF;
        assert((crc ^ (b as u32)) & 0xFF < 256) by (bit_vector);
        crc = table[k as usize] ^ (crc >> 8);
        proof {
            assert(all.take(i + 1).drop_last() =~= all.take(i as int));
            assert(all.take(i + 1).last() == b);
        }
        i = i + 1;
    }
    let mut j: usize = 0;
    while j < len
        invariant
            j <= len,
            len == data@.len(),
            all == typ@ + data@,
            table@.len() == 256,
            forall|n: int| 0 <= n < 256 ==> #[trigger] table@[n] == crc_bits(n as u32, 8),
            crc == crc_register(all.take(4 + j)),
        decreases len - j,
    {
        let b: u8 = data[j];
        let k: u32 = (crc ^ (b as u32)) & 0xFF;
        assert((crc ^ (b as u32)) & 0xFF < 256) by (bit_vector);
        crc = table[k as usize] ^ (crc >> 8);
        proof {
            assert(all.take(4 + j + 1).drop_last() =~= all.take(4 + j));
            assert(all.take(4 + j + 1).last() == b);
        }
        j = j + 1;
    }
    assert(all.take(4 + len) =~= all);
    crc ^ 0xFFFF_FFFF
}

// The chunk stream.

/// `data` begins with the PNG signature.
pub open spec fn has_signature(data: Seq<u8>) -> bool {
    data.len() >= 8 && data.take(8) == PNG_SIG@
}

/// Returns `true` if `data` begins with the 8-byte PNG signature.
pub fn verify_png_signature(data: &[u8]) -> (r: bool)
    ensures
        r == has_signature(data@),
{
    if data.len() < 8 {
        return false;
    }
    let mut i: usize = 0;
    while i < 8
        invariant
            i <= 8,
            data@.len() >= 8,
            forall|k: int| 0 <= k < i ==> data@[k] == PNG_SIG@[k],
        decreases 8 - i,
    {
        if data[i] != PNG_SIG[i] {
            proof {
                assert(data@.take(8)[i as int] != PNG_SIG@[i as int]);
            }
            return false;
        }
        i = i + 1;
    }
    assert(data@.take(8) =~= PNG_SIG@);
    true
}

/// The chunks of a stream and the warnings on their checksums.
#[verifier::ext_equal]
pub struct Parsed {
    pub chunks: Seq<ChunkView>,
    pub warnings: Seq<Warning>,
}

impl View for ParsedChunks {
    type V = Parsed;

    open spec fn view(&self) -> Parsed {
        Parsed { chunks: chunk_views(self.chunks@), warnings: self.warnings@ }
    }
}

/// The tag at `p`.
pub open spec fn tag_at(data: Seq<u8>, p: int) -> ChunkType {
    ChunkType(data[p], data[p + 1], data[p + 2], data[p + 3])
}

/// One chunk more, read at `pos`; the stream goes on behind it.
pub open spec fn with_chunk(acc: Parsed, data: Seq<u8>, pos: int) -> Parsed {
    let length = be_number(data, pos) as int;
    let typ = tag_at(data, pos + 4);
    let body = data.subrange(pos + 8, pos + 8 + length);
    Parsed {
        chunks: acc.chunks.push(ChunkView { typ, data: body }),
        warnings: if be_number(data, pos + 8 + length) == chunk_crc(typ, body) {
            acc.warnings
        } else {
            acc.warnings.push(Warning::ChunkCrc { typ })
        },
    }
}

/// The chunks from `pos` on. Fewer than twelve bytes at the end are ignored.
pub open spec fn chunks_from(data: Seq<u8>, pos: int, acc: Parsed) -> Result<Parsed, ChunksError>
    decreases
            (if pos < data.len() {
                data.len() - pos
            } else {
                0
            }),
{
    if pos < 0 || pos + 12 > data.len() {
        Ok(acc)
    } else if pos + 12 + be_number(data, pos) > data.len() {
        Err(ChunksError::Truncated)
    } else {
        chunks_from(data, pos + 12 + be_number(data, pos) as int, with_chunk(acc, data, pos))
    }
}

/// What [`read_chunks`] makes of a file.
pub open spec fn parse_chunks(data: Seq<u8>) -> Result<Parsed, ChunksError> {
    if has_signature(data) {
        chunks_from(data, 8, Parsed { chunks: Seq::empty(), warnings: Seq::empty() })
    } else {
        Err(ChunksError::MissingSignature)
    }
}

/// Split a PNG file into its chunks.
pub fn read_chunks(data: &[u8]) -> (r: Result<ParsedChunks, ChunksError>)
    ensures
        match parse_chunks(data@) {
            Ok(p) => r matches Ok(v) && v@ == p,
            Err(e) => r == Err::<ParsedChunks, _>(e),
        },
{
    if !verify_png_signature(data) {
        return Err(ChunksError::MissingSignature);
    }
    let mut chunks: Vec<Chunk> = Vec::new();
    let mut warnings: Vec<Warning> = Vec::new();
    let mut pos: usize = 8;  // skip signature
    let len: usize = data.len();
    let ghost mut acc = Parsed { chunks: Seq::empty(), warnings: Seq::empty() };
    assert(chunk_views(chunks@) =~= acc.chunks);
    while len - pos >= 12
        invariant
            8 <= pos <= len,
            len == data@.len(),
            chunk_views(chunks@) == acc.chunks,
            warnings@ == acc.warnings,
            chunks_from(data@, pos as int, acc) == parse_chunks(data@),
        decreases len - pos,
    {
        let length: u32 = read_be(data, pos);
        let typ = ChunkType(data[pos + 4], data[pos + 5], data[pos + 6], data[pos + 7]);
        let room: usize = len - pos - 12;
        if length as u64 > room as u64 {
            return Err(ChunksError::Truncated);
        }
        let end: usize = pos + 8 + length as usize;
        let body = vstd::slice::slice_subrange(data, pos + 8, end);
        let stored: u32 = read_be(data, end);
        let computed: u32 = crc32(&typ, body);
        if stored != computed {
            warnings.push(Warning::ChunkCrc { typ });
        }
        let mut owned: Vec<u8> = Vec::new();
        owned.extend_from_slice(body);
        let ghost before = chunks@;
        let chunk = Chunk { typ, data: owned };
        chunks.push(chunk);
        proof {
            assert(owned@ =~= body@);
            acc = with_chunk(acc, data@, pos as int);
            assert(chunk_views(chunks@) =~= chunk_views(before).push(chunk@));
        }
        pos = end + 4;  // skip CRC
    }
    Ok(ParsedChunks { chunks, warnings })
}

/// The payloads of every `IDAT` chunk, in order.
pub open spec fn idat_bytes(chunks: Seq<ChunkView>) -> Seq<u8>
    decreases chunks.len(),
{
    if chunks.len() == 0 {
        Seq::empty()
    } else {
        let init = idat_bytes(chunks.drop_last());
        if chunks.last().typ == idat_tag() {
            init + chunks.last().data
        } else {
            init
        }
    }
}

/// Concatenate every `IDAT` chunk's payload into a single buffer. The
/// deflate stream is split across IDATs arbitrarily, so it only makes sense
/// joined.
pub fn concat_idat(chunks: &[Chunk]) -> (r: Vec<u8>)
    ensures
        r@ == idat_bytes(chunk_views(chunks@)),
{
    let mut out: Vec<u8> = Vec::new();
    let mut i: usize = 0;
    let ghost views = chunk_views(chunks@);
    assert(views.take(0) =~= Seq::<ChunkView>::empty());
    while i < chunks.len()
        invariant
            i <= chunks@.len(),
            views == chunk_views(chunks@),
            out@ == idat_bytes(views.take(i as int)),
        decreases chunks@.len() - i,
    {
        proof {
            assert(views.take(i + 1).drop_last() =~= views.take(i as int));
        }
        let ghost before = out@;
        if chunks[i].typ == ChunkType::idat() {
            out.extend_from_slice(chunks[i].data.as_slice());
            assert(out@ =~= before + chunks@[i as int].data@);
        }
        i = i + 1;
    }
    assert(views.take(views.len() as int) =~= views);
    out
}

/// One chunk on the wire.
pub open spec fn chunk_bytes(c: ChunkView) -> Seq<u8> {
    be_bytes(c.data.len() as u32) + c.typ@ + c.data + be_bytes(chunk_crc(c.typ, c.data))
}

pub open spec fn all_chunk_bytes(chunks: Seq<ChunkView>) -> Seq<u8>
    decreases chunks.len(),
{
    if chunks.len() == 0 {
        Seq::empty()
    } else {
        all_chunk_bytes(chunks.drop_last()) + chunk_bytes(chunks.last())
    }
}

/// A PNG file made of `chunks`.
pub open spec fn file_bytes(chunks: Seq<ChunkView>) -> Seq<u8> {
    PNG_SIG@ + all_chunk_bytes(chunks)
}

/// Serialize chunks back to a PNG file, recomputing every CRC.
pub fn write_chunks(chunks: &[Chunk]) -> (r: Vec<u8>)
    ensures
        r@ == file_bytes(chunk_views(chunks@)),
{
    let mut out: Vec<u8> = Vec::new();
    out.extend_from_slice(PNG_SIG.as_slice());
    let mut i: usize = 0;
    let ghost views = chunk_views(chunks@);
    assert(views.take(0) =~= Seq::<ChunkView>::empty());
    assert(out@ =~= PNG_SIG@ + all_chunk_bytes(views.take(0)));
    while i < chunks.len()
        invariant
            i <= chunks@.len(),
            views == chunk_views(chunks@),
            out@ == PNG_SIG@ + all_chunk_bytes(views.take(i as int)),
        decreases chunks@.len() - i,
    {
        let ghost before = out@;
        let chunk = &chunks[i];
        push_be(&mut out, chunk.data.len() as u32);
        let tag: [u8; 4] = chunk.typ.as_bytes();
        out.extend_from_slice(tag.as_slice());
        out.extend_from_slice(chunk.data.as_slice());
        let crc: u32 = crc32(&chunk.typ, chunk.data.as_slice());
        push_be(&mut out, crc);
        proof {
            assert(out@ =~= before + chunk_bytes(views[i as int]));
            assert(views.take(i + 1).drop_last() =~= views.take(i as int));
            assert(out@ =~= PNG_SIG@ + all_chunk_bytes(views.take(i + 1)));
        }
        i = i + 1;
    }
    assert(views.take(views.len() as int) =~= views);
    out
}

/// Every chunk's length fits its 32-bit length field.
pub open spec fn lengths_fit(chunks: Seq<ChunkView>) -> bool {
    forall|i: int| 0 <= i < chunks.len() ==> (#[trigger] chunks[i]).data.len() <= u32::MAX
}

/// A written chunk is read back.
proof fn lemma_chunk_read(data: Seq<u8>, pos: int, c: ChunkView, acc: Parsed)
    requires
        0 <= pos,
        c.data.len() <= u32::MAX,
        pos + chunk_bytes(c).len() <= data.len(),
        data.subrange(pos, pos + chunk_bytes(c).len()) == chunk_bytes(c),
    ensures
        chunk_bytes(c).len() == 12 + c.data.len(),
        be_number(data, pos) == c.data.len(),
        with_chunk(acc, data, pos) == (Parsed {
            chunks: acc.chunks.push(c),
            warnings: acc.warnings,
        }),
{
    let all = chunk_bytes(c);
    let n = c.data.len() as int;
    let part = data.subrange(pos, pos + all.len());
    assert(part =~= all);
    let a = be_bytes(n as u32);
    let z = be_bytes(chunk_crc(c.typ, c.data));
    assert(data.subrange(pos, pos + 4) =~= part.subrange(0, 4));
    assert(all.subrange(0, 4) =~= a);
    lemma_be_round_trip(data, pos, n as u32);
    assert(data[pos + 4] == part[4] && data[pos + 5] == part[5] && data[pos + 6] == part[6]
        && data[pos + 7] == part[7]);
    assert(all[4] == c.typ@[0] && all[5] == c.typ@[1] && all[6] == c.typ@[2] && all[7]
        == c.typ@[3]);
    assert(tag_at(data, pos + 4) == c.typ);
    assert(data.subrange(pos + 8, pos + 8 + n) =~= part.subrange(8, 8 + n));
    assert(all.subrange(8, 8 + n) =~= c.data);
    assert(data.subrange(pos + 8 + n, pos + 8 + n + 4) =~= part.subrange(8 + n, 12 + n));
    assert(all.subrange(8 + n, 12 + n) =~= z);
    lemma_be_round_trip(data, pos + 8 + n, chunk_crc(c.typ, c.data));
}

/// The chunks from the `k`-th on are read back.
proof fn lemma_chunks_read(data: Seq<u8>, chunks: Seq<ChunkView>, k: int)
    requires
        data == file_bytes(chunks),
        lengths_fit(chunks),
        0 <= k <= chunks.len(),
    ensures
        chunks_from(
            data,
            8 + all_chunk_bytes(chunks.take(k)).len() as int,
            Parsed { chunks: chunks.take(k), warnings: Seq::empty() },
        ) == Ok::<_, ChunksError>(Parsed { chunks, warnings: Seq::empty() }),
        8 + all_chunk_bytes(chunks.take(k)).len() <= data.len(),
        data.take(8 + all_chunk_bytes(chunks.take(k)).len() as int) == PNG_SIG@ + all_chunk_bytes(
            chunks.take(k),
        ),
    decreases chunks.len() - k,
{
    let sofar = all_chunk_bytes(chunks.take(k));
    if k == chunks.len() {
        assert(chunks.take(k) =~= chunks);
        assert(data.take(8 + sofar.len() as int) =~= data);
    } else {
        let c = chunks[k];
        let t = chunks.take(k + 1);
        assert(t.drop_last() =~= chunks.take(k));
        assert(t.last() == c);
        assert(c.data.len() <= u32::MAX);
        lemma_chunks_read(data, chunks, k + 1);
        let next = all_chunk_bytes(t);
        let pos = 8 + sofar.len() as int;
        let cb = chunk_bytes(c);
        assert(next == sofar + cb);
        let head = data.take(8 + next.len() as int);
        assert(head == PNG_SIG@ + next);
        assert(data.subrange(pos, pos + cb.len()) =~= head.subrange(pos, pos + cb.len()));
        assert(head.subrange(pos, pos + cb.len()) =~= cb);
        assert(data.take(pos) =~= head.take(pos));
        assert(head.take(pos) =~= PNG_SIG@ + sofar);
        let acc = Parsed { chunks: chunks.take(k), warnings: Seq::empty() };
        lemma_chunk_read(data, pos, c, acc);
        assert(chunks.take(k).push(c) =~= t);
    }
}

/// Reading a written file gives the chunks back, without a warning.
pub proof fn law_chunks_round_trip(chunks: Seq<ChunkView>)
    requires
        lengths_fit(chunks),
    ensures
        parse_chunks(file_bytes(chunks)) == Ok::<_, ChunksError>(
            Parsed { chunks, warnings: Seq::empty() },
        ),
{
    let data = file_bytes(chunks);
    lemma_chunks_read(data, chunks, 0);
    assert(chunks.take(0) =~= Seq::<ChunkView>::empty());
    assert(PNG_SIG@ + Seq::<u8>::empty() =~= PNG_SIG@);
}

// IHDR.

/// The first chunk with tag `typ`.
pub open spec fn find_chunk(chunks: Seq<ChunkView>, typ: ChunkType, i: int) -> Option<ChunkView>
    decreases chunks.len() - i,
{
    if i < 0 || i >= chunks.len() {
        None
    } else if chunks[i].typ == typ {
        Some(chunks[i])
    } else {
        find_chunk(chunks, typ, i + 1)
    }
}

/// The first chunk with tag `typ`.
pub fn find_tag<'a>(chunks: &'a [Chunk], typ: ChunkType) -> (r: Option<&'a Chunk>)
    ensures
        match r {
            Some(c) => find_chunk(chunk_views(chunks@), typ, 0) == Some(c@),
            None => find_chunk(chunk_views(chunks@), typ, 0) is None,
        },
{
    let mut i: usize = 0;
    while i < chunks.len()
        invariant
            i <= chunks@.len(),
            find_chunk(chunk_views(chunks@), typ, 0) == find_chunk(
                chunk_views(chunks@),
                typ,
                i as int,
            ),
        decreases chunks@.len() - i,
    {
        if chunks[i].typ == typ {
            return Some(&chunks[i]);
        }
        i = i + 1;
    }
    None
}

/// The geometry that 13 IHDR bytes define, if they are legal: nonzero
/// dimensions, a depth that the colour type allows, the only compression and
/// filter methods there are, a known interlace method, and rows that fit in
/// memory.
pub open spec fn ihdr_info(d: Seq<u8>) -> Option<PngInfo> {
    if d.len() < 13 || be_number(d, 0) == 0 || be_number(d, 4) == 0 {
        None
    } else {
        match color_of_byte(d[9]) {
            None => None,
            Some(ct) => if !ct.depth_allowed(d[8]) || d[10] != 0 || d[11] != 0 || d[12] > 1
                || stride_of(be_number(d, 0), d[8] as nat, ct.spec_channels()) > usize::MAX {
                None
            } else {
                Some(
                    PngInfo {
                        interlaced: d[12] == 1,
                        ..info_of(be_number(d, 0) as u32, be_number(d, 4) as u32, d[8], ct)
                    },
                )
            },
        }
    }
}

/// The geometry of a chunk list, from its first IHDR.
pub open spec fn chunks_info(chunks: Seq<ChunkView>) -> Option<PngInfo> {
    match find_chunk(chunks, ihdr_tag(), 0) {
        None => None,
        Some(c) => ihdr_info(c.data),
    }
}

/// Such a geometry is legal, and has pixels.
pub proof fn lemma_chunks_info(chunks: Seq<ChunkView>)
    ensures
        chunks_info(chunks) matches Some(info) ==> info.legal() && info.width > 0 && info.height
            > 0,
{
}

/// Interpret the first IHDR chunk; `None` if there is none or it is not legal.
pub fn parse_ihdr(chunks: &[Chunk]) -> (r: Option<PngInfo>)
    ensures
        r == chunks_info(chunk_views(chunks@)),
        r matches Some(info) ==> info.legal() && info.width > 0 && info.height > 0,
{
    let ihdr: &Chunk = match find_tag(chunks, ChunkType::ihdr()) {
        Some(c) => c,
        None => {
            return None;
        },
    };
    let d = ihdr.data.as_slice();
    // IHDR is exactly 13 bytes per the PNG spec: 4 width, 4 height,
    // bit-depth, color-type, compression-method, filter-method,
    // interlace-method. Anything shorter is a malformed chunk.
    if d.len() < 13 {
        return None;
    }
    let width: u32 = read_be(d, 0);
    let height: u32 = read_be(d, 4);
    // PNG spec §11.2.2: "Zero is an invalid value." Reject before any
    // downstream arithmetic that would divide or multiply by them.
    if width == 0 || height == 0 {
        return None;
    }
    let bit_depth: u8 = d[8];
    let color_type = match ColorType::from_byte(d[9]) {
        Some(ct) => ct,
        None => {
            return None;
        },
    };
    // Reject bit-depth / colour-type pairings the spec forbids (PNG spec
    // Table 11.1) at the header, so no illegal `PngInfo` reaches the
    // converter.
    if !color_type.allows_bit_depth(bit_depth) {
        return None;
    }
    // PNG spec: compression-method and filter-method must each be 0 (the
    // only values defined). Interlace-method is 0 (none) or 1 (Adam7).
    if d[10] != 0 || d[11] != 0 || d[12] > 1 {
        return None;
    }
    let ch: u64 = color_type.channels() as u64;
    proof {
        assert(0 <= bit_depth * ch <= 0x400) by (nonlinear_arith)
            requires
                0 <= bit_depth <= 255,
                0 <= ch <= 4,
        ;
    }
    let bits: u64 = bit_depth as u64 * ch;
    proof {
        assert(width * bits <= 0xFFFF_FFFF * 0x400) by (nonlinear_arith)
            requires
                width <= 0xFFFF_FFFF,
                bits <= 0x400,
        ;
    }
    let row: u64 = (width as u64 * bits + 7) / 8;
    if row > (usize::MAX - 1) as u64 {
        return None;
    }
    let mut info = PngInfo::new(width, height, bit_depth, color_type);
    info.interlaced = d[12] == 1;
    Some(info)
}

} // verus!
