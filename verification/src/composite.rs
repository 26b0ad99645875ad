//! Alpha compositor: the final step of the texture-rebuild pipeline,
//! consuming a base RGBA buffer and an overlay RGBA buffer.
//!
//! Integer math end-to-end. The hot loop blends four RGBA pixels per
//! iteration via `wide::u32x4` (16-byte SIMD on every target).
//!
//! All blending assumes the *base* is fully opaque (`ba == 255`). That holds
//! for every output of [`crate::png::convert::to_rgba8`] and its interlaced
//! counterpart (RGB, greyscale, and indexed without tRNS), the buffers the
//! GUI passes here. Under it the source-over formula collapses to
//! `out_rgb = (fo*oa + fb*(255 - oa)) / 255`, with no per-pixel divide.
//! RGBA / greyscale-alpha / palette+tRNS sources don't satisfy it; output
//! is still well-defined (`out_a = 255`) and fine for overlay
//! visualisation.

use vstd::prelude::*;

verus! {

// What compositing means.

/// One channel: overlay `fo` at alpha `oa` over an opaque base `fb`.
pub open spec fn blended(fo: u8, fb: u8, oa: u8) -> u8 {
    ((fo * oa + fb * (255 - oa)) / 255) as u8
}

/// Byte `i` of the composite: a blended channel, or opaque alpha.
pub open spec fn composite_byte(base: Seq<u8>, overlay: Seq<u8>, i: int) -> u8 {
    if i % 4 == 3 {
        255
    } else {
        blended(overlay[i], base[i], overlay[i - i % 4 + 3])
    }
}

/// The composite of two buffers.
pub open spec fn composited(base: Seq<u8>, overlay: Seq<u8>) -> Seq<u8> {
    Seq::new(base.len(), |i: int| composite_byte(base, overlay, i))
}

/// `out` with the bytes from `start` to `end` composited.
pub open spec fn span_composited(
    base: Seq<u8>,
    overlay: Seq<u8>,
    out: Seq<u8>,
    start: int,
    end: int,
) -> Seq<u8> {
    Seq::new(
        out.len(),
        |i: int|
            if start <= i < end {
                composite_byte(base, overlay, i)
            } else {
                out[i]
            },
    )
}

/// `out` with the listed rows composited, from the `k`-th on, up to the first
/// that reaches past the end.
pub open spec fn rows_composited(
    base: Seq<u8>,
    overlay: Seq<u8>,
    out: Seq<u8>,
    row_bytes: int,
    rows: Seq<usize>,
    k: int,
) -> Seq<u8>
    decreases rows.len() - k,
{
    if k < 0 || k >= rows.len() || rows[k] * row_bytes + row_bytes > out.len() {
        out
    } else {
        rows_composited(
            base,
            overlay,
            span_composited(
                base,
                overlay,
                out,
                rows[k] * row_bytes,
                rows[k] * row_bytes + row_bytes,
            ),
            row_bytes,
            rows,
            k + 1,
        )
    }
}

// Four lanes at a time.

/// `wide::u32x4`'s `*`: every lane is the product of the two lanes, modulo
/// `2^32`.
#[verifier::external_body]
fn lanes_mul(a: [u32; 4], b: [u32; 4]) -> (r: [u32; 4])
    ensures
        forall|j: int| 0 <= j < 4 ==> #[trigger] r@[j] == (a@[j] * b@[j]) % 0x1_0000_0000,
{
    (wide::u32x4::new(a) * wide::u32x4::new(b)).to_array()
}

/// `wide::u32x4`'s `+`: every lane is the sum of the two lanes, modulo `2^32`.
#[verifier::external_body]
fn lanes_add(a: [u32; 4], b: [u32; 4]) -> (r: [u32; 4])
    ensures
        forall|j: int| 0 <= j < 4 ==> #[trigger] r@[j] == (a@[j] + b@[j]) % 0x1_0000_0000,
{
    (wide::u32x4::new(a) + wide::u32x4::new(b)).to_array()
}

/// `wide::u32x4`'s `-`: every lane is the difference of the two lanes, modulo
/// `2^32`.
#[verifier::external_body]
fn lanes_sub(a: [u32; 4], b: [u32; 4]) -> (r: [u32; 4])
    ensures
        forall|j: int| 0 <= j < 4 ==> #[trigger] r@[j] == (a@[j] - b@[j]) % 0x1_0000_0000,
{
    (wide::u32x4::new(a) - wide::u32x4::new(b)).to_array()
}

/// `wide::u32x4`'s `>>` by a bit count: every lane is shifted by it. Stated for
/// counts below the lane width, where the shift does not wrap.
#[verifier::external_body]
fn lanes_shr(a: [u32; 4], n: u32) -> (r: [u32; 4])
    requires
        n < 32,
    ensures
        forall|j: int| 0 <= j < 4 ==> #[trigger] r@[j] == a@[j] >> n,
{
    (wide::u32x4::new(a) >> n).to_array()
}

/// `wide::u32x4`'s `<<` by a bit count: every lane is shifted by it. Stated for
/// counts below the lane width, where the shift does not wrap.
#[verifier::external_body]
fn lanes_shl(a: [u32; 4], n: u32) -> (r: [u32; 4])
    requires
        n < 32,
    ensures
        forall|j: int| 0 <= j < 4 ==> #[trigger] r@[j] == a@[j] << n,
{
    (wide::u32x4::new(a) << n).to_array()
}

/// `wide::u32x4`'s `&`: lane by lane.
#[verifier::external_body]
fn lanes_and(a: [u32; 4], b: [u32; 4]) -> (r: [u32; 4])
    ensures
        forall|j: int| 0 <= j < 4 ==> #[trigger] r@[j] == a@[j] & b@[j],
{
    (wide::u32x4::new(a) & wide::u32x4::new(b)).to_array()
}

/// `wide::u32x4`'s `|`: lane by lane.
#[verifier::external_body]
fn lanes_or(a: [u32; 4], b: [u32; 4]) -> (r: [u32; 4])
    ensures
        forall|j: int| 0 <= j < 4 ==> #[trigger] r@[j] == a@[j] | b@[j],
{
    (wide::u32x4::new(a) | wide::u32x4::new(b)).to_array()
}

/// The four bytes at `p` as one number, least significant first.
pub open spec fn le_word(s: Seq<u8>, p: int) -> u32 {
    (s[p] + s[p + 1] * 0x100 + s[p + 2] * 0x1_0000 + s[p + 3] * 0x100_0000) as u32
}

/// Masking and shifting a word takes its bytes apart.
proof fn lemma_word_bytes(s: Seq<u8>, p: int)
    ensures
        ({
            let x = le_word(s, p);
            &&& x & 0xFF == s[p]
            &&& (x >> 8) & 0xFF == s[p + 1]
            &&& (x >> 16) & 0xFF == s[p + 2]
            &&& (x >> 24) & 0xFF == s[p + 3]
        }),
{
    let x = le_word(s, p);
    let (a, b, c, d) = (s[p], s[p + 1], s[p + 2], s[p + 3]);
    assert(x == a + b * 0x100 + c * 0x1_0000 + d * 0x100_0000);
    assert(x & 0xFF == a && (x >> 8) & 0xFF == b && (x >> 16) & 0xFF == c && (x >> 24) & 0xFF == d)
        by (bit_vector)
        requires
            x == a + b * 0x100 + c * 0x1_0000 + d * 0x100_0000,
    ;
}

/// The exact integer form of the division by 255: bit-exact up to 65025.
proof fn lemma_div_255(s: u32)
    requires
        s <= 65025,
    ensures
        (((s + 1 + (s >> 8)) as u32) >> 8) == s / 255,
{
    assert((((s + 1 + (s >> 8)) as u32) >> 8) == s / 255) by (bit_vector)
        requires
            s <= 65025,
    ;
}

/// A blend's weighted sum never passes `255 * 255`.
proof fn lemma_blend_bound(fo: int, fb: int, oa: int)
    requires
        0 <= fo <= 255,
        0 <= fb <= 255,
        0 <= oa <= 255,
    ensures
        0 <= fo * oa <= 65025,
        0 <= fb * (255 - oa) <= 65025,
        0 <= fo * oa + fb * (255 - oa) <= 65025,
{
    assert(0 <= fo * oa <= 255 * oa) by (nonlinear_arith)
        requires
            0 <= fo <= 255,
            0 <= oa,
    ;
    assert(0 <= fb * (255 - oa) <= 255 * (255 - oa)) by (nonlinear_arith)
        requires
            0 <= fb <= 255,
            0 <= 255 - oa,
    ;
}

/// Blend one channel of four pixels: `(fo*oa + fb*inv) / 255` per lane.
fn blend_lanes(fo: [u32; 4], fb: [u32; 4], oa: [u32; 4], inv: [u32; 4]) -> (r: [u32; 4])
    requires
        forall|j: int| 0 <= j < 4 ==> #[trigger] fo@[j] <= 255,
        forall|j: int| 0 <= j < 4 ==> #[trigger] fb@[j] <= 255,
        forall|j: int| 0 <= j < 4 ==> #[trigger] oa@[j] <= 255,
        forall|j: int| 0 <= j < 4 ==> #[trigger] inv@[j] == 255 - oa@[j],
    ensures
        forall|j: int|
            0 <= j < 4 ==> #[trigger] r@[j] == (fo@[j] * oa@[j] + fb@[j] * (255 - oa@[j])) / 255,
{
    let one: [u32; 4] = [1, 1, 1, 1];
    let x: [u32; 4] = lanes_mul(fo, oa);
    let y: [u32; 4] = lanes_mul(fb, inv);
    let s: [u32; 4] = lanes_add(x, y);
    let t: [u32; 4] = lanes_add(lanes_add(s, one), lanes_shr(s, 8));
    let r: [u32; 4] = lanes_shr(t, 8);
    proof {
        assert forall|j: int| 0 <= j < 4 implies #[trigger] r@[j] == (fo@[j] * oa@[j] + fb@[j] * (255
            - oa@[j])) / 255 by {
            assert(fo@[j] <= 255 && fb@[j] <= 255 && oa@[j] <= 255 && inv@[j] == 255 - oa@[j]);
            lemma_blend_bound(fo@[j] as int, fb@[j] as int, oa@[j] as int);
            let sj = s@[j];
            assert(x@[j] == fo@[j] * oa@[j]);
            assert(y@[j] == fb@[j] * inv@[j]);
            assert(sj == fo@[j] * oa@[j] + fb@[j] * (255 - oa@[j]));
            assert(sj >> 8 <= sj) by (bit_vector);
            assert(one@[j] == 1);
            assert(t@[j] == sj + 1 + (sj >> 8));
            lemma_div_255(sj);
        }
    }
    r
}

fn load_word(s: &[u8], p: usize) -> (r: u32)
    requires
        p + 4 <= s@.len(),
    ensures
        r == le_word(s@, p as int),
{
    s[p] as u32 + s[p + 1] as u32 * 0x100 + s[p + 2] as u32 * 0x1_0000 + s[p + 3] as u32
        * 0x100_0000
}

/// Load four little-endian pixels. Reads are explicit little-endian so the
/// source RGBA byte order matches the lane layout the math expects regardless
/// of host endianness.
fn load_lanes(s: &[u8], p: usize) -> (r: [u32; 4])
    requires
        p + 16 <= s@.len(),
    ensures
        forall|j: int| 0 <= j < 4 ==> #[trigger] r@[j] == le_word(s@, p + 4 * j),
{
    let len: usize = s.len();
    [load_word(s, p), load_word(s, p + 4), load_word(s, p + 8), load_word(s, p + 12)]
}

/// The four pixels from byte `p` on, blended: lane `j` is pixel `j`, packed as
/// `A << 24 | B << 16 | G << 8 | R`.
fn blend_chunk(base: &[u8], overlay: &[u8], p: usize) -> (r: [u32; 4])
    requires
        p % 4 == 0,
        p + 16 <= base@.len(),
        base@.len() == overlay@.len(),
    ensures
        forall|j: int, c: int|
            0 <= j < 4 && 0 <= c < 4 ==> #[trigger] word_byte(r@[j], c) == composite_byte(
                base@,
                overlay@,
                p + 4 * j + c,
            ),
{
    let mask: [u32; 4] = [0xFF, 0xFF, 0xFF, 0xFF];
    let full: [u32; 4] = [255, 255, 255, 255];
    let alpha: [u32; 4] = [0xFF00_0000, 0xFF00_0000, 0xFF00_0000, 0xFF00_0000];
    let b: [u32; 4] = load_lanes(base, p);
    let o: [u32; 4] = load_lanes(overlay, p);
    // Extract channels. Each lane now holds one channel of one pixel in its
    // low 8 bits.
    let o_r: [u32; 4] = lanes_and(o, mask);
    let o_g: [u32; 4] = lanes_and(lanes_shr(o, 8), mask);
    let o_b: [u32; 4] = lanes_and(lanes_shr(o, 16), mask);
    let o_a: [u32; 4] = lanes_and(lanes_shr(o, 24), mask);
    let b_r: [u32; 4] = lanes_and(b, mask);
    let b_g: [u32; 4] = lanes_and(lanes_shr(b, 8), mask);
    let b_b: [u32; 4] = lanes_and(lanes_shr(b, 16), mask);
    let inv: [u32; 4] = lanes_sub(full, o_a);
    proof {
        assert forall|j: int| 0 <= j < 4 implies lane_is(
            base@,
            overlay@,
            p + 4 * j,
            #[trigger] o_r@[j],
            o_g@[j],
            o_b@[j],
            o_a@[j],
            b_r@[j],
            b_g@[j],
            b_b@[j],
        ) by {
            lemma_word_bytes(overlay@, p + 4 * j);
            lemma_word_bytes(base@, p + 4 * j);
            assert(mask@[j] == 0xFF);
            assert(o@[j] == le_word(overlay@, p + 4 * j));
            assert(b@[j] == le_word(base@, p + 4 * j));
        }
        assert forall|j: int| 0 <= j < 4 implies #[trigger] inv@[j] == 255 - o_a@[j] by {
            assert(full@[j] == 255);
            assert(o_r@[j] <= 255);
        }
        assert forall|j: int| 0 <= j < 4 implies #[trigger] o_g@[j] <= 255 by {
            assert(o_r@[j] <= 255);
        }
        assert forall|j: int| 0 <= j < 4 implies #[trigger] o_b@[j] <= 255 by {
            assert(o_r@[j] <= 255);
        }
        assert forall|j: int| 0 <= j < 4 implies #[trigger] o_a@[j] <= 255 by {
            assert(o_r@[j] <= 255);
        }
        assert forall|j: int| 0 <= j < 4 implies #[trigger] b_r@[j] <= 255 by {
            assert(o_r@[j] <= 255);
        }
        assert forall|j: int| 0 <= j < 4 implies #[trigger] b_g@[j] <= 255 by {
            assert(o_r@[j] <= 255);
        }
        assert forall|j: int| 0 <= j < 4 implies #[trigger] b_b@[j] <= 255 by {
            assert(o_r@[j] <= 255);
        }
    }
    // Source-over assuming ba=255.
    let r: [u32; 4] = blend_lanes(o_r, b_r, o_a, inv);
    let g: [u32; 4] = blend_lanes(o_g, b_g, o_a, inv);
    let bl: [u32; 4] = blend_lanes(o_b, b_b, o_a, inv);
    let packed: [u32; 4] = lanes_or(
        lanes_or(lanes_or(r, lanes_shl(g, 8)), lanes_shl(bl, 16)),
        alpha,
    );
    proof {
        assert forall|j: int, c: int| 0 <= j < 4 && 0 <= c < 4 implies #[trigger] word_byte(
            packed@[j],
            c,
        ) == composite_byte(base@, overlay@, p + 4 * j + c) by {
            assert(o_r@[j] <= 255 && o_g@[j] <= 255 && o_b@[j] <= 255 && o_a@[j] <= 255);
            assert(b_r@[j] <= 255 && b_g@[j] <= 255 && b_b@[j] <= 255);
            lemma_blend_bound(o_r@[j] as int, b_r@[j] as int, o_a@[j] as int);
            lemma_blend_bound(o_g@[j] as int, b_g@[j] as int, o_a@[j] as int);
            lemma_blend_bound(o_b@[j] as int, b_b@[j] as int, o_a@[j] as int);
            assert(alpha@[j] == 0xFF00_0000);
            lemma_pack(r@[j], g@[j], bl@[j]);
            assert((p + 4 * j + c) % 4 == c);
        }
    }
    packed
}

/// A lane's channels are the bytes of its pixel.
spec fn lane_is(
    base: Seq<u8>,
    overlay: Seq<u8>,
    q: int,
    o_r: u32,
    o_g: u32,
    o_b: u32,
    o_a: u32,
    b_r: u32,
    b_g: u32,
    b_b: u32,
) -> bool {
    &&& o_r == overlay[q]
    &&& o_g == overlay[q + 1]
    &&& o_b == overlay[q + 2]
    &&& o_a == overlay[q + 3]
    &&& b_r == base[q]
    &&& b_g == base[q + 1]
    &&& b_b == base[q + 2]
}

/// Byte `c` of a word, least significant first.
pub open spec fn word_byte(x: u32, c: int) -> u8 {
    if c == 0 {
        (x % 0x100) as u8
    } else if c == 1 {
        (x / 0x100 % 0x100) as u8
    } else if c == 2 {
        (x / 0x1_0000 % 0x100) as u8
    } else {
        (x / 0x100_0000) as u8
    }
}

/// Three bytes and an opaque alpha, packed and taken apart again.
proof fn lemma_pack(r: u32, g: u32, b: u32)
    requires
        r <= 255,
        g <= 255,
        b <= 255,
    ensures
        ({
            let x = ((r | (g << 8)) | (b << 16)) | 0xFF00_0000;
            &&& word_byte(x, 0) == r
            &&& word_byte(x, 1) == g
            &&& word_byte(x, 2) == b
            &&& word_byte(x, 3) == 255
        }),
{
    let x = ((r | (g << 8)) | (b << 16)) | 0xFF00_0000;
    assert(x % 0x100 == r && x / 0x100 % 0x100 == g && x / 0x1_0000 % 0x100 == b && x / 0x100_0000
        == 255) by (bit_vector)
        requires
            r <= 255,
            g <= 255,
            b <= 255,
            x == ((r | (g << 8)) | (b << 16)) | 0xFF00_0000,
    ;
}

fn store_word(out: &mut [u8], p: usize, x: u32)
    requires
        p + 4 <= old(out)@.len(),
    ensures
        final(out)@.len() == old(out)@.len(),
        forall|i: int|
            0 <= i < old(out)@.len() ==> #[trigger] final(out)@[i] == (if p <= i < p + 4 {
                word_byte(x, i - p)
            } else {
                old(out)@[i]
            }),
{
    let len: usize = out.len();
    out[p] = (x % 0x100) as u8;
    out[p + 1] = (x / 0x100 % 0x100) as u8;
    out[p + 2] = (x / 0x1_0000 % 0x100) as u8;
    out[p + 3] = (x / 0x100_0000) as u8;
}

/// Vectorised composite of the bytes from `start` to `end`, assuming `base`
/// alpha is 255 everywhere.
///
/// 4 RGBA pixels (16 bytes) per iteration; scalar tail handles the 0..3 pixel
/// remainder. Two muls + one add + one shift per lane per channel; no `u64`
/// divide.
pub fn composite_ba255_simd(
    base: &[u8],
    overlay: &[u8],
    out: &mut [u8],
    start: usize,
    end: usize,
)
    requires
        base@.len() == overlay@.len(),
        base@.len() == old(out)@.len(),
        start <= end <= base@.len(),
        start % 4 == 0,
        end % 4 == 0,
    ensures
        final(out)@ == span_composited(
            base@,
            overlay@,
            old(out)@,
            start as int,
            end as int,
        ),
{
    let mut p: usize = start;
    while end - p >= 16
        invariant
            base@.len() == overlay@.len(),
            base@.len() == out@.len(),
            out@.len() == old(out)@.len(),
            start <= p <= end <= base@.len(),
            p % 4 == 0,
            end % 4 == 0,
            forall|i: int|
                0 <= i < out@.len() ==> #[trigger] out@[i] == (if start <= i < p {
                    composite_byte(base@, overlay@, i)
                } else {
                    old(out)@[i]
                }),
        decreases end - p,
    {
        let x: [u32; 4] = blend_chunk(base, overlay, p);
        let ghost before = out@;
        store_word(out, p, x[0]);
        store_word(out, p + 4, x[1]);
        store_word(out, p + 8, x[2]);
        store_word(out, p + 12, x[3]);
        proof {
            assert forall|i: int| 0 <= i < out@.len() implies #[trigger] out@[i] == (if start <= i
                < p + 16 {
                composite_byte(base@, overlay@, i)
            } else {
                old(out)@[i]
            }) by {
                if p <= i < p + 16 {
                    let j = (i - p) / 4;
                    let c = (i - p) % 4;
                    assert(word_byte(x@[j], c) == composite_byte(base@, overlay@, p + 4 * j + c));
                } else {
                    assert(out@[i] == before[i]);
                }
            }
        }
        p = p + 16;
    }
    composite_ba255_scalar(base, overlay, out, p, end);
    assert(out@ =~= span_composited(base@, overlay@, old(out)@, start as int, end as int));
}

/// Blend one channel without a divide.
fn blend_byte(fo: u8, fb: u8, oa: u8) -> (r: u8)
    ensures
        r == blended(fo, fb, oa),
{
    proof {
        lemma_blend_bound(fo as int, fb as int, oa as int);
    }
    let sum: u32 = fo as u32 * oa as u32 + fb as u32 * (255 - oa as u32);
    proof {
        assert(sum >> 8 <= sum) by (bit_vector);
        lemma_div_255(sum);
    }
    // Exact integer /255 for sum in [0, 65025].
    ((sum + 1 + (sum >> 8)) >> 8) as u8
}

/// Scalar composite of the bytes from `start` to `end`. Shares the ba=255
/// fast-path math so tail pixels match the SIMD body bit-exactly.
pub fn composite_ba255_scalar(
    base: &[u8],
    overlay: &[u8],
    out: &mut [u8],
    start: usize,
    end: usize,
)
    requires
        base@.len() == overlay@.len(),
        base@.len() == old(out)@.len(),
        start <= end <= base@.len(),
        start % 4 == 0,
        end % 4 == 0,
    ensures
        final(out)@ == span_composited(
            base@,
            overlay@,
            old(out)@,
            start as int,
            end as int,
        ),
{
    let mut p: usize = start;
    while p < end
        invariant
            base@.len() == overlay@.len(),
            base@.len() == out@.len(),
            out@.len() == old(out)@.len(),
            start <= p <= end <= base@.len(),
            p % 4 == 0,
            end % 4 == 0,
            forall|i: int|
                0 <= i < out@.len() ==> #[trigger] out@[i] == (if start <= i < p {
                    composite_byte(base@, overlay@, i)
                } else {
                    old(out)@[i]
                }),
        decreases end - p,
    {
        let oa: u8 = overlay[p + 3];
        out[p] = blend_byte(overlay[p], base[p], oa);
        out[p + 1] = blend_byte(overlay[p + 1], base[p + 1], oa);
        out[p + 2] = blend_byte(overlay[p + 2], base[p + 2], oa);
        out[p + 3] = 255;
        p = p + 4;
    }
    assert(out@ =~= span_composited(base@, overlay@, old(out)@, start as int, end as int));
}

/// Alpha-composite `overlay` over `base` (both RGBA, `w * h * 4` bytes)
/// and write the result into `out`. `out` is resized to match `base.len()`,
/// so the GUI passes the same `Vec` every frame to avoid the per-rebuild
/// allocation.
///
/// See the module docs for the `ba == 255` invariant and the alpha
/// trade-off on RGBA / greyscale-alpha sources.
pub fn composite_into(base: &[u8], overlay: &[u8], out: &mut Vec<u8>)
    requires
        base@.len() == overlay@.len(),
        base@.len() % 4 == 0,
    ensures
        final(out)@ == composited(base@, overlay@),
{
    out.clear();
    out.resize(base.len(), 0);
    composite_ba255_simd(base, overlay, out.as_mut_slice(), 0, base.len());
    assert(out@ =~= composited(base@, overlay@));
}

/// Allocating wrapper around [`composite_into`], for tests and benches
/// without the reusable scratch the GUI's frame loop uses.
pub fn composite_rgba(base: &[u8], overlay: &[u8]) -> (out: Vec<u8>)
    requires
        base@.len() == overlay@.len(),
        base@.len() % 4 == 0,
    ensures
        out@ == composited(base@, overlay@),
{
    let mut out: Vec<u8> = Vec::new();
    composite_into(base, overlay, &mut out);
    out
}

/// Row-scoped composite. Re-blends only the listed `rows` in `out` and
/// assumes every other row already holds a valid composite from a prior
/// full [`composite_into`] call. The incremental edit path uses this to
/// skip blending the rows it didn't touch (typically >95 % of them).
pub fn composite_rows_into(
    base: &[u8],
    overlay: &[u8],
    out: &mut [u8],
    w: u32,
    rows: &[usize],
)
    requires
        old(out)@.len() == base@.len(),
        overlay@.len() == base@.len(),
    ensures
        final(out)@ == rows_composited(
            base@,
            overlay@,
            old(out)@,
            4 * w as int,
            rows@,
            0,
        ),
{
    let mut k: usize = 0;
    let len: usize = out.len();
    while k < rows.len()
        invariant
            k <= rows@.len(),
            len == out@.len(),
            len == base@.len(),
            overlay@.len() == base@.len(),
            rows_composited(base@, overlay@, old(out)@, 4 * w as int, rows@, 0) == rows_composited(
                base@,
                overlay@,
                out@,
                4 * w as int,
                rows@,
                k as int,
            ),
        decreases rows@.len() - k,
    {
        let row: usize = rows[k];
        proof {
            assert(0 <= row * (4 * w) <= 0xFFFF_FFFF_FFFF_FFFF * (4 * 0xFFFF_FFFF))
                by (nonlinear_arith)
                requires
                    row <= 0xFFFF_FFFF_FFFF_FFFF,
                    w <= 0xFFFF_FFFF,
            ;
        }
        let row_bytes: u128 = 4 * w as u128;
        let start: u128 = row as u128 * row_bytes;
        if start + row_bytes > len as u128 {
            return;
        }
        proof {
            assert((row * (4 * w)) % 4 == 0) by {
                assert(row * (4 * w) == 4 * (row * w)) by (nonlinear_arith);
            }
        }
        composite_ba255_simd(
            base,
            overlay,
            out,
            start as usize,
            (start + row_bytes) as usize,
        );
        k = k + 1;
    }
}

/// Re-blending every row that changed is a full composite: where each row of
/// `out` either is listed or already holds the composite, all of it does
/// afterwards.
pub proof fn law_rows_composite_completes(
    base: Seq<u8>,
    overlay: Seq<u8>,
    out: Seq<u8>,
    row_bytes: int,
    rows: Seq<usize>,
    k: int,
)
    requires
        0 <= k <= rows.len(),
        0 <= row_bytes,
        out.len() == base.len(),
        forall|j: int|
            k <= j < rows.len() ==> (#[trigger] rows[j]) * row_bytes + row_bytes <= out.len(),
        forall|i: int|
            0 <= i < out.len() ==> #[trigger] out[i] == composite_byte(base, overlay, i) || exists|
                j: int,
            |
                k <= j < rows.len() && (#[trigger] rows[j]) * row_bytes <= i < rows[j] * row_bytes
                    + row_bytes,
    ensures
        rows_composited(base, overlay, out, row_bytes, rows, k) == composited(base, overlay),
    decreases rows.len() - k,
{
    if k == rows.len() {
        assert(out =~= composited(base, overlay));
    } else {
        assert(rows[k] * row_bytes + row_bytes <= out.len());
        let s = rows[k] * row_bytes;
        let next = span_composited(base, overlay, out, s, s + row_bytes);
        assert forall|i: int| 0 <= i < next.len() implies #[trigger] next[i] == composite_byte(
            base,
            overlay,
            i,
        ) || exists|j: int|
            k + 1 <= j < rows.len() && (#[trigger] rows[j]) * row_bytes <= i < rows[j] * row_bytes
                + row_bytes by {
            if out[i] != composite_byte(base, overlay, i) {
                let j = choose|j: int|
                    k <= j < rows.len() && (#[trigger] rows[j]) * row_bytes <= i < rows[j]
                        * row_bytes + row_bytes;
                if j > k {
                    assert(k + 1 <= j < rows.len() && rows[j] * row_bytes <= i);
                }
            }
        }
        law_rows_composite_completes(base, overlay, next, row_bytes, rows, k + 1);
    }
}

/// What blending does to a channel: it divides the way from the base to the
/// overlay as alpha divides 255, rounded down; so it stays between the two, is
/// the base where alpha is zero, and the overlay where alpha is full. The
/// composite is opaque, and each pixel blends by its own alpha.
pub proof fn law_blend(base: Seq<u8>, overlay: Seq<u8>, i: int, c: int)
    requires
        0 <= i,
        4 * i + 4 <= base.len(),
        base.len() == overlay.len(),
        0 <= c < 3,
    ensures
        ({
            let out = composited(base, overlay);
            let b = base[4 * i + c] as int;
            let o = overlay[4 * i + c] as int;
            let a = overlay[4 * i + 3] as int;
            let v = out[4 * i + c] as int;
            &&& out.len() == base.len()
            &&& out[4 * i + 3] == 255
            &&& 255 * v <= o * a + b * (255 - a) < 255 * v + 255
            &&& a == 0 ==> v == b
            &&& a == 255 ==> v == o
            &&& b <= o ==> b <= v <= o
            &&& o <= b ==> o <= v <= b
        }),
{
    let b = base[4 * i + c] as int;
    let o = overlay[4 * i + c] as int;
    let a = overlay[4 * i + 3] as int;
    assert((4 * i + c) % 4 == c && (4 * i + 3) % 4 == 3);
    let t = o * a + b * (255 - a);
    assert(b <= o ==> 255 * b <= t <= 255 * o) by (nonlinear_arith)
        requires
            t == o * a + b * (255 - a),
            0 <= a <= 255,
    ;
    assert(o <= b ==> 255 * o <= t <= 255 * b) by (nonlinear_arith)
        requires
            t == o * a + b * (255 - a),
            0 <= a <= 255,
    ;
    assert(a == 0 ==> t == 255 * b) by (nonlinear_arith)
        requires
            t == o * a + b * (255 - a),
    ;
    assert(a == 255 ==> t == 255 * o) by (nonlinear_arith)
        requires
            t == o * a + b * (255 - a),
    ;
    assert(0 <= t <= 255 * 255);
    assert(composited(base, overlay)[4 * i + c] == blended(
        overlay[4 * i + c],
        base[4 * i + c],
        overlay[4 * i + 3],
    ));
}

} // verus!
