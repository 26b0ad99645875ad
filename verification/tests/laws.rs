//! The library's laws on concrete values.

use pngbend::bitstream::{read_bits_at, write_bits};
use pngbend::composite::{composite_into, composite_rgba, composite_rows_into};
use pngbend::coords::{rgba_offset, OutPos, PixelXY};
use pngbend::deflate::dynamic::{enc_from_lengths, rle_code_lengths};
use pngbend::deflate::huffman::{build_tree, decode_sym};
use pngbend::deflate::lz77::{distance_to_sym, lz77};
use pngbend::deflate::package_merge::package_merge;
use pngbend::deflate::{
    compress, decode_deflate, inflate, serialize_dynamic, serialize_fixed, serialize_stored, Event,
};
use pngbend::index::{build_pos_to_ev, build_reverse_graph, event_at};
use pngbend::png::filter::{unfilter_rows_into, FilterStrategy, FilterType};
use pngbend::png::interlace::{interlaced_output_len, owner_of, pass_dims};
use pngbend::png::{
    concat_idat, filter, read_chunks, to_rgba8, to_rgba8_rows_into, unfilter, write_chunks, Chunk,
    ChunkType, ColorType, PngInfo,
};
use pngbend::Raster;

fn varied(n: u32) -> Vec<u8> {
    (0..n)
        .map(|i| ((i.wrapping_mul(2_654_435_761) >> 22) % 97) as u8)
        .collect()
}

#[test]
fn bits_written_are_bits_read() {
    let before = vec![0b1010_0101u8, 0x3C, 0xFF, 0x00, 0x81];
    for start in 0..20usize {
        for n in 1..=20u8 {
            let mut buf = before.clone();
            let prior = read_bits_at(&buf, start, n);
            write_bits(&mut buf, start, 0x000A_5A5A, n);
            assert_eq!(read_bits_at(&buf, start, n), 0x000A_5A5A & ((1u32 << n) - 1));
            write_bits(&mut buf, start, prior, n);
            assert_eq!(buf, before);
        }
    }
}

#[test]
fn no_code_is_another_codes_prefix() {
    let lengths = [2u32, 2, 3, 3, 4, 4, 4, 4];
    let (tab, enc) = build_tree(&lengths).expect("complete");
    let codes = enc.iter();
    for (i, &(a, x)) in codes.iter().enumerate() {
        for &(b, y) in &codes[i + 1..] {
            let n = x.len.min(y.len);
            assert_ne!(
                x.code >> (x.len - n),
                y.code >> (y.len - n),
                "symbols {a} and {b}"
            );
        }
        let mut buf = vec![0u8; 4];
        write_bits(&mut buf, 0, x.code as u32, x.len);
        let mut reader = pngbend::bitstream::BitReader::new(&buf);
        assert_eq!(decode_sym(&mut reader, &tab).unwrap(), a);
    }
}

#[test]
fn lz77_events_replay_to_the_input() {
    for data in [Vec::new(), vec![1], vec![5; 1000], varied(5000)] {
        let mut out: Vec<u8> = Vec::new();
        for e in lz77(&data) {
            match e {
                Event::Lit(l) => {
                    assert_eq!(l.out_pos as usize, out.len());
                    out.push(l.symbol);
                }
                Event::Ref(r) => {
                    assert_eq!(r.out_pos as usize, out.len());
                    assert_eq!(r.dist_sym, distance_to_sym(r.out_pos - r.src_out_pos));
                    for i in 0..r.copy_len as usize {
                        let b = out[r.src_out_pos as usize + i];
                        out.push(b);
                    }
                }
            }
        }
        assert_eq!(out, data);
    }
}

#[test]
fn every_serializer_round_trips() {
    let data = varied(3000);
    let events = lz77(&data);
    let streams = [
        serialize_stored(&data),
        serialize_fixed(&events),
        serialize_dynamic(&events),
    ];
    let best = compress(&data);
    for s in &streams {
        assert_eq!(inflate(s, None).unwrap(), data);
        assert!(best.len() <= s.len());
    }
    assert_eq!(inflate(&best, Some(3000)).unwrap(), data);
    assert!(inflate(&best, Some(2999)).is_err());
    let decoded = decode_deflate(&streams[2], None).unwrap();
    assert_eq!(
        decode_deflate(&decoded.to_deflate(), None).unwrap().output,
        data
    );
}

#[test]
fn run_lengths_spell_the_code_lengths() {
    let mut lengths = vec![3u8; 20];
    lengths.extend_from_slice(&[0; 150]);
    lengths.extend_from_slice(&[5, 5, 0, 0, 0, 7]);
    let mut back: Vec<u8> = Vec::new();
    for (sym, extra) in rle_code_lengths(&lengths) {
        match sym {
            16 => {
                let last = *back.last().expect("something to repeat");
                back.extend(vec![last; 3 + extra as usize]);
            }
            17 => back.extend(vec![0; 3 + extra as usize]),
            18 => back.extend(vec![0; 11 + extra as usize]),
            len => back.push(len),
        }
    }
    assert_eq!(back, lengths);
}

#[test]
fn package_merge_lengths() {
    // The textbook case: 1, 1, 2, 4 take 3, 3, 2, 1 bits.
    assert_eq!(package_merge(&[1, 1, 2, 4], 15), vec![3, 3, 2, 1]);
    // The limit flattens the code.
    assert_eq!(package_merge(&[1, 1, 2, 4], 2), vec![2, 2, 2, 2]);
    assert_eq!(package_merge(&[1, 1, 2, 4], 255), vec![3, 3, 2, 1]);
    // No limit at all is a limit of one bit.
    assert_eq!(package_merge(&[3, 4], 0), vec![1, 1]);
    // An unused symbol gets no code.
    // Only the symbols that occur count.
    let mut sparse = vec![0u32; 0x100_0010];
    sparse[3] = 9;
    sparse[0x100_000F] = 1;
    let lengths = package_merge(&sparse, 15);
    assert_eq!(lengths.len(), sparse.len());
    assert_eq!((lengths[3], lengths[0x100_000F]), (1, 1));
    assert_eq!(lengths.iter().map(|&l| l as u32).sum::<u32>(), 2);
    let lengths = package_merge(&[5, 0, 5], 7);
    assert_eq!(lengths, vec![1, 0, 1]);
    assert_eq!(enc_from_lengths(&lengths).iter().len(), 2);
}

#[test]
fn no_code_is_cheaper_than_package_merge() {
    for weights in [[7u32, 1, 3, 2, 9], [1, 1, 1, 1, 1], [20, 1, 1, 1, 1], [5, 4, 3, 2, 1]] {
        let best = package_merge(&weights, 3);
        let cost = |lengths: &[u8]| -> u32 {
            weights.iter().zip(lengths).map(|(w, l)| w * *l as u32).sum()
        };
        let mut cheapest = u32::MAX;
        for n in 0..3usize.pow(5) {
            let lengths: Vec<u8> = (0..5).map(|i| (n / 3usize.pow(i) % 3) as u8 + 1).collect();
            let space: u32 = lengths.iter().map(|l| 8 >> l).sum();
            if space <= 8 {
                cheapest = cheapest.min(cost(&lengths));
            }
        }
        assert_eq!(cost(&best), cheapest, "{weights:?} {best:?}");
    }
    // 9, 7, 3, 2, 1 take 1, 2, 3, 4, 4 bits without a limit, and a limit of
    // three bits costs three more.
    assert_eq!(package_merge(&[7, 1, 3, 2, 9], 15), vec![2, 4, 3, 4, 1]);
    assert_eq!(package_merge(&[7, 1, 3, 2, 9], 3), vec![2, 3, 2, 3, 2]);
}

#[test]
fn chunks_written_are_chunks_read() {
    let chunks = [
        Chunk {
            typ: ChunkType(b't', b'E', b'X', b't'),
            data: b"hello".to_vec(),
        },
        Chunk {
            typ: ChunkType::idat(),
            data: vec![1, 2],
        },
        Chunk {
            typ: ChunkType::idat(),
            data: vec![3],
        },
    ];
    let parsed = read_chunks(&write_chunks(&chunks)).expect("parse");
    assert!(parsed.warnings.is_empty());
    assert_eq!(parsed.chunks.len(), 3);
    assert_eq!(parsed.chunks[0].data, b"hello");
    assert_eq!(concat_idat(&parsed.chunks), vec![1, 2, 3]);
}

#[test]
fn changed_rows_are_rebuilt() {
    let info = PngInfo::new(4, 6, 8, ColorType::Rgb);
    let raw: Vec<u8> = varied(6 * 12);
    for ft in FilterType::ALL {
        let mut stream = filter(&raw, &info, FilterStrategy::Fixed(ft));
        let mut partial = unfilter(&stream, &info).unwrap();
        let mut rgba = to_rgba8(&partial, &info, None).unwrap();
        stream[2 * 13 + 5] ^= 0x40; // a byte of row 2
        let changed = [false, false, true, false, false, false];
        let rows = unfilter_rows_into(&stream, &info, &mut partial, 2, &changed).unwrap();
        let full = unfilter(&stream, &info).unwrap();
        assert_eq!(partial, full, "{ft:?}");
        to_rgba8_rows_into(&partial, &info, None, &mut rgba, &rows).unwrap();
        assert_eq!(rgba, to_rgba8(&full, &info, None).unwrap(), "{ft:?}");
    }
}

#[test]
fn passes_cover_every_pixel_once() {
    for (w, h) in [(1u32, 1u32), (2, 2), (5, 3), (8, 8), (13, 9)] {
        let mut seen = [0u32; 7];
        for y in 0..h {
            for x in 0..w {
                seen[owner_of(x, y)] += 1;
            }
        }
        for p in 0..7 {
            let (pw, ph) = pass_dims(w, h, p);
            let n = if pw == 0 || ph == 0 { 0 } else { pw * ph };
            assert_eq!(seen[p], n, "{w}x{h} pass {p}");
        }
    }
}

#[test]
fn raster_and_rgba_positions() {
    let mut info = PngInfo::new(9, 5, 8, ColorType::Rgb);
    assert_eq!(rgba_offset(PixelXY::new(2, 1), 9, 5), (9 + 2) * 4);
    assert_eq!(info.rgba_index(info.xy_to_out(PixelXY::new(2, 1))), Some(44));
    info.interlaced = true;
    let r = Raster::new(info);
    let mut hits = vec![0; 9 * 5];
    for pos in 0..interlaced_output_len(&info) as u32 {
        if let Some(xy) = r.out_to_xy(OutPos(pos)) {
            hits[(xy.y * 9 + xy.x) as usize] += 1;
        }
    }
    // Three bytes each.
    assert!(hits.iter().all(|&n| n == 3));
}

#[test]
fn lookups_agree_on_a_decoded_stream() {
    let data = varied(2000);
    let decoded = decode_deflate(&compress(&data), None).unwrap();
    let dense = build_pos_to_ev(&decoded.events, decoded.output.len());
    for (pos, &k) in dense.iter().enumerate() {
        assert_eq!(event_at(&decoded.events, pos), Some(k));
    }
    assert_eq!(event_at(&decoded.events, 2000), None);
}

#[test]
fn composite_is_exact_on_every_alpha() {
    let mut base = Vec::new();
    let mut overlay = Vec::new();
    for a in 0..=255u8 {
        base.extend_from_slice(&[a, 255 - a, 77, 255]);
        overlay.extend_from_slice(&[200, a, 255 - a, a]);
    }
    let mut out = Vec::new();
    composite_into(&base, &overlay, &mut out);
    for i in 0..256usize {
        for ch in 0..3 {
            let o = overlay[i * 4 + ch] as u32;
            let b = base[i * 4 + ch] as u32;
            let a = i as u32;
            assert_eq!(out[i * 4 + ch] as u32, (o * a + b * (255 - a)) / 255);
        }
        assert_eq!(out[i * 4 + 3], 255);
    }
    assert_eq!(composite_rgba(&base, &overlay), out);
    // Refreshing the stale rows completes the frame.
    let mut frame = out.clone();
    for b in &mut frame[64..128] {
        *b = 0;
    }
    composite_rows_into(&base, &overlay, &mut frame, 16, &[1]);
    assert_eq!(frame, out);
}

#[test]
fn stored_streams_have_one_block_per_65535_bytes() {
    for (n, blocks) in [(0usize, 1usize), (1, 1), (65_535, 1), (65_536, 2), (131_070, 2), (131_071, 3)] {
        let data = varied(n as u32);
        let stored = serialize_stored(&data);
        assert_eq!(stored.len(), n + 5 * blocks);
        let decoded = decode_deflate(&stored, None).unwrap();
        assert_eq!(decoded.num_blocks(), blocks);
        assert_eq!(decoded.output, data);
    }
}

#[test]
fn a_block_decodes_to_the_events_it_was_written_from() {
    let data = varied(3000);
    let events = lz77(&data);
    let shape = |events: &[Event]| -> Vec<(u32, u32, u32, u8)> {
        events
            .iter()
            .map(|e| match e {
                Event::Lit(l) => (l.out_pos, l.symbol as u32, 0, 0),
                Event::Ref(r) => (r.out_pos, r.src_out_pos, r.copy_len as u32, r.dist_sym),
            })
            .collect()
    };
    assert!(events.iter().any(|e| matches!(e, Event::Ref(_))));
    for stream in [serialize_fixed(&events), serialize_dynamic(&events)] {
        let decoded = decode_deflate(&stream, None).unwrap();
        assert_eq!(decoded.num_blocks(), 1);
        assert_eq!(shape(&decoded.events), shape(&events));
        let again = decode_deflate(&decoded.to_deflate(), None).unwrap();
        assert_eq!(again.num_blocks(), 1);
        assert_eq!(shape(&again.events), shape(&events));
    }
    // Several blocks become one.
    let many = decode_deflate(&serialize_stored(&varied(70_000)), None).unwrap();
    assert_eq!(many.num_blocks(), 2);
    let one = decode_deflate(&many.to_deflate(), None).unwrap();
    assert_eq!(one.num_blocks(), 1);
    assert_eq!(shape(&one.events), shape(&many.events));
}

#[test]
fn every_byte_belongs_to_one_pixel_or_is_a_filter_byte() {
    for (ct, depth) in [
        (ColorType::Greyscale, 1u8),
        (ColorType::Indexed, 2),
        (ColorType::Indexed, 4),
        (ColorType::Greyscale, 8),
        (ColorType::Rgb, 8),
        (ColorType::Rgba, 16),
    ] {
        for interlaced in [false, true] {
            let mut info = PngInfo::new(13, 9, depth, ct);
            info.interlaced = interlaced;
            let r = Raster::new(info);
            let (total, rows) = if interlaced {
                let rows: u32 = (0..7).map(|p| pass_dims(13, 9, p).1).sum();
                (interlaced_output_len(&info) as u32, rows)
            } else {
                ((9 * info.row_stride) as u32, 9)
            };
            let mut filter_bytes = 0;
            for pos in 0..total {
                match r.out_to_xy(OutPos(pos)) {
                    None => filter_bytes += 1,
                    Some(xy) => {
                        let first = r.xy_to_out(xy).0;
                        assert!(first <= pos && pos < first + info.bpp as u32);
                    }
                }
            }
            assert_eq!(filter_bytes, rows, "{ct:?} {depth} {interlaced}");
            assert_eq!(r.out_to_xy(OutPos(total)), None);
            // Every byte of a pixel leads back to it, or to the first pixel
            // that is packed into its byte.
            for y in 0..9 {
                for x in 0..13 {
                    let xy = PixelXY::new(x, y);
                    let first = r.xy_to_out(xy).0;
                    for pos in first..first + info.bpp as u32 {
                        let back = r.out_to_xy(OutPos(pos)).expect("a pixel byte");
                        assert_eq!(r.xy_to_out(back), OutPos(first));
                        if depth >= 8 {
                            assert_eq!(back, xy);
                        }
                    }
                }
            }
        }
    }
}

#[test]
fn neighbours_come_in_ascending_order() {
    let data = varied(4000);
    let decoded = decode_deflate(&compress(&data), None).unwrap();
    let graph = build_reverse_graph(&decoded.events, decoded.output.len());
    let mut edges = 0;
    for src in 0..graph.len() as u32 {
        let next = graph.neighbors(src);
        assert!(next.iter().all(|&t| t > src));
        assert!(next.windows(2).all(|p| p[0] < p[1]));
        assert!(next.iter().all(|&t| decoded.output[t as usize] == decoded.output[src as usize]));
        edges += next.len();
    }
    assert!(edges > 0);
}
