//! The DEFLATE codec.

use pngbend::bitstream::{write_bits, BitReader};
use pngbend::deflate::decoder::{decode_huffman_block, DecodeState};
use pngbend::deflate::encode::length_to_sym;
use pngbend::deflate::huffman::{build_tree, decode_sym, reverse_bits, HuffmanTable};
use pngbend::deflate::lz77::lz77;
use pngbend::deflate::package_merge::package_merge;
use pngbend::deflate::{
    compress, decode_deflate, serialize_dynamic, serialize_fixed, serialize_stored, DecodeError,
    EncTable, Event, LitEvent, RefEvent, SymCode,
};

#[test]
fn stored_round_trips_including_empty_and_multiblock() {
    for data in [
        vec![],
        vec![42u8],
        b"hello deflate".to_vec(),
        (0..70_000u32).map(|i| (i * 7) as u8).collect(), // > 65535: multi-block
    ] {
        let deflate = serialize_stored(&data);
        let decoded = decode_deflate(&deflate, None).expect("decode stored");
        assert_eq!(decoded.output, data, "len {}", data.len());
    }
}

#[test]
fn fixed_round_trips_literals_and_a_backref() {
    // "a" then copy 3 bytes from distance 1 -> "aaaa".
    let events = vec![
        Event::Lit(LitEvent {
            out_pos: 0,
            bit_start: 0,
            symbol: b'a',
        }),
        Event::Ref(RefEvent {
            out_pos: 1,
            src_out_pos: 0,
            dist_bit_start: 0,
            copy_len: 3,
            dist_sym: 0, // DBASE[0] = 1
        }),
    ];
    let deflate = serialize_fixed(&events);
    let decoded = decode_deflate(&deflate, None).expect("decode fixed");
    assert_eq!(decoded.output, b"aaaa");
}

#[test]
fn to_deflate_round_trips_a_real_stream() {
    // Decode a stored stream to get an event list, re-serialize it as
    // fixed Huffman, and confirm the output survives.
    let original: Vec<u8> = b"the quick brown fox the quick brown fox".to_vec();
    let decoded = decode_deflate(&serialize_stored(&original), None).unwrap();
    let refixed = decode_deflate(&decoded.to_deflate(), None).unwrap();
    assert_eq!(refixed.output, original);
}

#[test]
fn length_symbol_boundaries() {
    assert_eq!(length_to_sym(3), (257, 0, 0));
    assert_eq!(length_to_sym(258), (285, 0, 0));
    // Length 11 falls in symbol 265 (base 11, 1 extra bit).
    let (sym, extra, nbits) = length_to_sym(12);
    assert_eq!((sym, extra, nbits), (265, 1, 1));
}

#[test]
fn compress_round_trips_and_shrinks_repetitive_data() {
    // Highly repetitive input: LZ77 should beat a stored block by a lot.
    let repetitive: Vec<u8> = b"abcabcabc".iter().cycle().take(4096).copied().collect();
    let out = compress(&repetitive);
    assert_eq!(decode_deflate(&out, None).unwrap().output, repetitive);
    assert!(
        out.len() < repetitive.len() / 4,
        "compressed {} of {}",
        out.len(),
        repetitive.len()
    );

    // Overlapping run (distance 1) and arbitrary bytes still round-trip.
    let run = vec![7u8; 300];
    assert_eq!(decode_deflate(&compress(&run), None).unwrap().output, run);
    let arbitrary: Vec<u8> = (0..1000u32).map(|i| (i * 37 + 11) as u8).collect();
    assert_eq!(
        decode_deflate(&compress(&arbitrary), None).unwrap().output,
        arbitrary
    );
}

#[test]
fn dynamic_round_trips_and_beats_fixed_on_varied_data() {
    // Pseudo-random bytes over 32 symbols: LZ77 finds few matches, so
    // ~all literals. Dynamic's 5-bit codes beat fixed's 8-bit literals,
    // and the volume amortizes the header.
    let data: Vec<u8> = (0..20_000u32)
        .map(|i| ((i.wrapping_mul(2_654_435_761) >> 24) % 32) as u8)
        .collect();
    let events = lz77(&data);
    let dynamic = serialize_dynamic(&events);
    assert_eq!(decode_deflate(&dynamic, None).unwrap().output, data);
    assert!(
        dynamic.len() < serialize_fixed(&events).len(),
        "dynamic {} vs fixed {}",
        dynamic.len(),
        serialize_fixed(&events).len()
    );
    // compress() picks the smallest encoding and still round-trips.
    let best = compress(&data);
    assert!(best.len() <= dynamic.len());
    assert_eq!(decode_deflate(&best, None).unwrap().output, data);
}

#[test]
fn events_empty_table_misses_everything() {
    let t = EncTable::default();
    assert!(t.is_empty());
    assert_eq!(t.get(0), None);
    assert_eq!(t.iter().len(), 0);
}

#[test]
fn events_set_then_get_round_trip() {
    let mut t = EncTable::new(288);
    t.set(42, 0b1011, 4);
    t.set(100, 0b111, 3);
    assert_eq!(
        t.get(42),
        Some(SymCode {
            code: 0b1011,
            len: 4
        })
    );
    assert_eq!(
        t.get(100),
        Some(SymCode {
            code: 0b111,
            len: 3
        })
    );
    assert_eq!(t.get(7), None); // unset
    assert_eq!(t.iter().len(), 2);
    assert!(!t.is_empty());
}

#[test]
fn events_set_outside_alphabet_is_noop() {
    let mut t = EncTable::new(30);
    t.set(50, 0xABC, 7);
    assert_eq!(t.get(50), None);
}

#[test]
fn events_raw_exposes_dense_layout() {
    let mut t = EncTable::new(10);
    t.set(3, 5, 2);
    assert_eq!(t.raw().len(), 10);
    assert_eq!(t.raw()[3], SymCode { code: 5, len: 2 });
    assert_eq!(t.raw()[0], SymCode { code: 0, len: 0 });
}

#[test]
fn empty_table_misses_everything() {
    let t = EncTable::default();
    assert!(t.is_empty());
    assert_eq!(t.get(0), None);
    assert_eq!(t.iter().len(), 0);
}

#[test]
fn set_then_get_round_trip() {
    let mut t = EncTable::new(288);
    t.set(42, 0b1011, 4);
    t.set(100, 0b111, 3);
    assert_eq!(t.get(42), Some(SymCode { code: 0b1011, len: 4 }));
    assert_eq!(t.get(100), Some(SymCode { code: 0b111, len: 3 }));
    assert_eq!(t.get(7), None); // unset
    assert_eq!(t.iter().len(), 2);
    assert!(!t.is_empty());
}

#[test]
fn set_outside_alphabet_is_noop() {
    let mut t = EncTable::new(30);
    t.set(50, 0xABC, 7);
    assert_eq!(t.get(50), None);
}

#[test]
fn raw_exposes_dense_layout() {
    let mut t = EncTable::new(10);
    t.set(3, 5, 2);
    assert_eq!(t.raw().len(), 10);
    assert_eq!(t.raw()[3], SymCode { code: 5, len: 2 });
    assert_eq!(t.raw()[0], SymCode { code: 0, len: 0 });
}

#[test]
fn empty_or_all_zero_lengths_produce_empty_table() {
    // No nonzero lengths → no codes. Both inputs hit the same
    // `max_bits == 0` early return.
    for lengths in [&[][..], &[0, 0, 0, 0]] {
        let (tab, enc) = build_tree(lengths).expect("no codes");
        assert!(tab.max_bits == 0);
        assert!(enc.is_empty());
    }
}

#[test]
fn huffman_canonical_codes_round_trip_through_decode_sym() {
    // RFC 1951 example: 8 symbols A-H, lengths 3,3,3,3,3,2,4,4
    let lengths = [3u32, 3, 3, 3, 3, 2, 4, 4];
    let (tab, enc) = build_tree(&lengths).expect("valid canonical set");
    for (sym, &len) in lengths.iter().enumerate() {
        let sc = enc.get(sym as u16).expect("sym in enc");
        assert_eq!(sc.len as u32, len);
        let mut buf = vec![0u8; 4];
        write_bits(&mut buf, 0, sc.code as u32, sc.len);
        let mut reader = BitReader::new(&buf);
        assert_eq!(decode_sym(&mut reader, &tab).unwrap(), sym as u16);
        assert_eq!(reader.bit_pos(), sc.len as usize);
    }
}

#[test]
fn huffman_empty_table_errors_on_decode() {
    let tab = HuffmanTable {
        entries: Vec::new(),
        max_bits: 0,
    };
    let buf = [0xFFu8; 4];
    let mut reader = BitReader::new(&buf);
    assert!(matches!(
        decode_sym(&mut reader, &tab).unwrap_err(),
        DecodeError::InvalidHuffmanCode { .. }
    ));
}

#[test]
fn huffman_reverse_bits_known() {
    assert_eq!(reverse_bits(0b101, 3), 0b101);
    assert_eq!(reverse_bits(0b110, 3), 0b011);
    assert_eq!(reverse_bits(0b1000, 4), 0b0001);
    assert_eq!(reverse_bits(0b1010_1100, 8), 0b0011_0101);
}

#[test]
fn huffman_lut_fills_every_short_code_slot() {
    // One symbol with a 2-bit code must occupy all 2^(max-2) = 2 slots
    // in a 4-entry LUT.
    let (tab, _) = build_tree(&[2, 2, 2, 2]).expect("valid 2-bit set");
    assert_eq!(tab.max_bits, 2);
    assert_eq!(tab.entries.len(), 4);
    for e in &tab.entries {
        assert_eq!(e.used_bits, 2);
    }
}

#[test]
fn rejects_oversubscribed_lengths() {
    // Three symbols at length 1: only two 1-bit codewords exist, so
    // the third would silently overwrite slot 0 if the build wasn't
    // guarded.
    let err = build_tree(&[1, 1, 1]).unwrap_err();
    assert!(
        matches!(
            err,
            DecodeError::OverSubscribedHuffman {
                max_bits: 1,
                expected: 2,
                actual: 3,
            }
        ),
        "got {err:?}"
    );
}

#[test]
fn rejects_undersubscribed_lengths() {
    // Two symbols at length 2: fills two of four slots but leaves
    // two valid peek patterns with no symbol. RFC 1951's leniency
    // covers only the one-symbol/one-bit case.
    let err = build_tree(&[2, 2]).unwrap_err();
    assert!(
        matches!(
            err,
            DecodeError::UnderSubscribedHuffman {
                max_bits: 2,
                actual: 2,
            }
        ),
        "got {err:?}"
    );
}

#[test]
fn accepts_single_one_bit_code() {
    // RFC 1951 §3.2.2: a distance alphabet with exactly one used
    // distance is encoded with a single 1-bit code (the other code
    // is reserved). build_tree must accept this degenerate set.
    let mut lengths = vec![0u32; 30];
    lengths[5] = 1;
    let (tab, enc) = build_tree(&lengths).expect("single 1-bit code");
    assert_eq!(tab.max_bits, 1);
    assert!(!enc.is_empty());
}

#[test]
fn rejects_code_length_above_15() {
    let mut lengths = vec![0u32; 4];
    lengths[0] = 16;
    let err = build_tree(&lengths).unwrap_err();
    assert!(
        matches!(err, DecodeError::HuffmanCodeTooLong { max_bits: 16 }),
        "got {err:?}"
    );
}

#[test]
fn package_merge_produces_bounded_complete_codes() {
    // Skewed frequencies; lengths must respect the limit and form a
    // complete code (Kraft sum == 1).
    let weights = [100u32, 1, 1, 1, 1, 50, 3, 20, 20, 20];
    let lengths = package_merge(&weights, 15);
    assert!(lengths.iter().all(|&l| l <= 15));
    let kraft: f64 = lengths
        .iter()
        .filter(|&&l| l > 0)
        .map(|&l| 2f64.powi(-(l as i32)))
        .sum();
    assert!((kraft - 1.0).abs() < 1e-9, "kraft {kraft}");
    // The most frequent symbol gets the shortest code.
    assert!(lengths[0] <= *lengths.iter().filter(|&&l| l > 0).max().unwrap());
}

#[test]
fn empty_lengths_produce_empty_table() {
    let (tab, enc) = build_tree(&[]).unwrap();
    assert!(tab.is_empty());
    assert!(enc.is_empty());
}

#[test]
fn all_zero_lengths_produce_empty_table() {
    let (tab, enc) = build_tree(&[0, 0, 0, 0]).unwrap();
    assert!(tab.is_empty());
    assert!(enc.is_empty());
}

#[test]
fn canonical_codes_round_trip_through_decode_sym() {
    // RFC 1951 example: 8 symbols A-H, lengths 3,3,3,3,3,2,4,4
    let lengths = [3u32, 3, 3, 3, 3, 2, 4, 4];
    let (tab, enc) = build_tree(&lengths).unwrap();
    for (sym, &len) in lengths.iter().enumerate() {
        let SymCode { code, len: clen } = enc.get(sym as u16).expect("sym in enc");
        assert_eq!(clen as u32, len);
        let mut buf = vec![0u8; 4];
        write_bits(&mut buf, 0, code as u32, clen);
        let mut reader = BitReader::new(&buf);
        assert_eq!(decode_sym(&mut reader, &tab).unwrap(), sym as u16);
        assert_eq!(reader.bit_pos(), clen as usize);
    }
}

#[test]
fn empty_table_errors_on_decode() {
    let tab = HuffmanTable {
        entries: Vec::new(),
        max_bits: 0,
    };
    let buf = [0xFFu8; 4];
    let mut reader = BitReader::new(&buf);
    assert!(matches!(
        decode_sym(&mut reader, &tab).unwrap_err(),
        DecodeError::InvalidHuffmanCode { .. }
    ));
}

#[test]
fn reverse_bits_known() {
    assert_eq!(reverse_bits(0b101, 3), 0b101);
    assert_eq!(reverse_bits(0b110, 3), 0b011);
    assert_eq!(reverse_bits(0b1000, 4), 0b0001);
    assert_eq!(reverse_bits(0b1010_1100, 8), 0b0011_0101);
}

#[test]
fn lut_fills_every_short_code_slot() {
    // One symbol with a 2-bit code must occupy all 2^(max-2) = 2 slots
    // in a 4-entry LUT.
    let (tab, _) = build_tree(&[2, 2, 2, 2]).unwrap();
    assert_eq!(tab.max_bits(), 2);
    assert_eq!(tab.entries.len(), 4);
    for e in &tab.entries {
        assert_eq!(e.used_bits, 2);
    }
}

#[test]
fn round_trips_single_stored_block() {
    // BFINAL=1, BTYPE=00, align, LEN=2 ("hi").
    let mut buf = vec![0u8; 32];
    write_bits(&mut buf, 0, 1, 1); // BFINAL
    buf[1] = 2;
    buf[2] = 0;
    buf[3] = !2;
    buf[4] = !0;
    buf[5] = b'h';
    buf[6] = b'i';

    let result = decode_deflate(&buf, None).expect("decode");
    assert_eq!(result.output, b"hi");
    assert_eq!(result.events.len(), 2);
    assert_eq!(result.num_blocks(), 1);
}

#[test]
fn rejects_reserved_block_type() {
    let mut buf = vec![0u8; 8];
    write_bits(&mut buf, 0, 1, 1);
    write_bits(&mut buf, 1, 0b11, 2);
    let err = decode_deflate(&buf, None).unwrap_err();
    assert!(matches!(
        err,
        DecodeError::ReservedBlockType { block_idx: 0 }
    ));
}

#[test]
fn rejects_output_past_max_via_stored_block() {
    // BFINAL=1, BTYPE=00, LEN=2 ("hi"), but cap at 1 byte. The
    // stored-block path must bail before pushing past the cap so a
    // tiny IDAT can't inflate into gigabytes.
    let mut buf = vec![0u8; 32];
    write_bits(&mut buf, 0, 1, 1);
    buf[1] = 2;
    buf[2] = 0;
    buf[3] = !2;
    buf[4] = !0;
    buf[5] = b'h';
    buf[6] = b'i';
    let err = decode_deflate(&buf, Some(1)).unwrap_err();
    assert!(
        matches!(err, DecodeError::OutputTooLarge { decoded: 2, max: 1 }),
        "got {err:?}"
    );
}

#[test]
fn rejects_stored_block_with_bad_length_complement() {
    // BFINAL=1, BTYPE=00, then byte-aligned LEN=2, NLEN=0 (not the
    // one's complement of LEN — the spec demands LEN ^ NLEN == 0xFFFF).
    let mut buf = vec![0u8; 16];
    // BFINAL=1 at bit 0, BTYPE=00 at bits 1..2.
    write_bits(&mut buf, 0, 1, 1);
    // Stored-block decoder aligns to byte boundary, then reads LEN
    // (LSB first) at byte 1.
    buf[1] = 2; // LEN low
    buf[2] = 0; // LEN high
    buf[3] = 0; // NLEN low (wrong — should be ~LEN)
    buf[4] = 0; // NLEN high
    let err = decode_deflate(&buf, None).unwrap_err();
    assert!(
        matches!(
            err,
            DecodeError::InvalidStoredBlockLength {
                length: 2,
                nlen: 0,
                block_idx: 0
            }
        ),
        "got {err:?}"
    );
}

#[test]
fn rejects_reserved_distance_symbol_30() {
    // Drive the block decoder directly with a distance table that holds the
    // reserved symbol 30.
    //
    // Lit alphabet: sym 256 (EOB) and sym 257 (length-3) at clen=1
    // — two 1-bit canonical codes (code 0 and code 1).
    let mut lit_lengths = vec![0u32; 258];
    lit_lengths[256] = 1; // EOB → code 0
    lit_lengths[257] = 1; // length-3 → code 1
    let (lit_tab, _) = build_tree(&lit_lengths).expect("valid lit set");

    // Dist alphabet: sym 29 and sym 30 at clen=1 — sym 29 → code 0,
    // sym 30 → code 1 (the reserved-symbol case we want to trigger).
    let mut dist_lengths = vec![0u32; 31];
    dist_lengths[29] = 1;
    dist_lengths[30] = 1;
    let (dist_tab, _) = build_tree(&dist_lengths).expect("valid dist set");

    // Build a buffer: bit 0 = read sym 257 (1 bit). Then no extra
    // length bits for LBASE[0]=3 (LEXT[0]=0). Then dist sym = 30
    // (1 bit, code 1 since sym 29 got code 0). Then would read
    // DEXT[30] extra bits — but we error before that.
    //
    // First bit: 1 (sym 257 → length 3).
    // Next bit: 1 (dist sym 30 — second 1-bit code).
    let mut buf = vec![0u8; 8];
    write_bits(&mut buf, 0, 0b11, 2);

    let mut reader = BitReader::new(&buf);
    let mut state = DecodeState::new(None, true);
    // We need at least 1 byte in `output` so the distance check
    // (distance > output.len()) doesn't fire first. Push a fake byte.
    state.output.push(0u8);
    let err =
        decode_huffman_block(&mut reader, &mut state, 0, &lit_tab, &dist_tab).unwrap_err();
    assert!(
        matches!(
            err,
            DecodeError::InvalidDistanceSymbol {
                sym: 30,
                block_idx: 0
            }
        ),
        "got {err:?}"
    );
}
