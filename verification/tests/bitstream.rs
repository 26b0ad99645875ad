//! Bit-level access.

use pngbend::bitstream::{read_bits_at, write_bits, BitReader};

#[test]
fn bit_reader_round_trip_via_write_bits() {
    // Pack three values back-to-back, then read them with BitReader.
    let mut buf = vec![0u8; 8];
    write_bits(&mut buf, 0, 0b1010, 4);
    write_bits(&mut buf, 4, 0b1100, 4);
    write_bits(&mut buf, 8, 0xFF, 8);

    let mut reader = BitReader::new(&buf);
    // BitReader yields LSB-first within byte; write_bits stores MSB of value
    // at the lowest bit position. So a 4-bit value 0b1010 packed at bit 0
    // becomes bits (1, 0, 1, 0) at positions (0, 1, 2, 3) — read_bits(4)
    // reconstructs 0b0101 = 5.
    assert_eq!(reader.read_bits(4), 0b0101);
    assert_eq!(reader.read_bits(4), 0b0011);
    assert_eq!(reader.read_bits(8), 0xFF);
}

#[test]
fn peek_does_not_advance() {
    let mut buf = vec![0u8; 4];
    write_bits(&mut buf, 0, 0xCD, 8);
    let mut reader = BitReader::new(&buf);
    let p = reader.peek_bits(8);
    assert_eq!(reader.bit_pos(), 0);
    let r = reader.read_bits(8);
    assert_eq!(p, r);
    assert_eq!(reader.bit_pos(), 8);
}

#[test]
fn align_to_byte_rounds_up() {
    let mut reader = BitReader::new(&[0u8; 4]);
    reader.advance(3);
    reader.align_to_byte();
    assert_eq!(reader.bit_pos(), 8);
    reader.align_to_byte();
    assert_eq!(reader.bit_pos(), 8); // already aligned
}

/// Regression: pre-fix `read_bits(32)` computed `(1u32 << 32) - 1`
/// which panics in debug and silently returns 0 in release. The
/// fix special-cases `n == 32` to use `u32::MAX`. The byte-aligned
/// path is exercised here (the only case the previous code could
/// have got right with a 32-bit window).
#[test]
fn read_bits_32_round_trips_full_u32() {
    // BitReader reads LSB-first within each byte, so a byte-aligned
    // 32-bit read must reconstruct the underlying little-endian
    // u32 exactly.
    let mut buf = vec![0u8; 8];
    buf[0..4].copy_from_slice(&0xDEAD_BEEFu32.to_le_bytes());
    let mut reader = BitReader::new(&buf);
    assert_eq!(reader.peek_bits(32), 0xDEAD_BEEF);
    assert_eq!(reader.read_bits(32), 0xDEAD_BEEF);
    assert_eq!(reader.bit_pos(), 32);
}
