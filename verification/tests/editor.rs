//! The editor: load, list, select, edit, undo.

use pngbend::bitstream::{read_bits_at, write_bits};
use pngbend::coords::PixelXY;
use pngbend::deflate::{
    decode_deflate, serialize_fixed, serialize_stored, DecodeError, Event, LitEvent, RefEvent,
};
use pngbend::editor::core_data::{build_core_from_decoded, CoreData};
use pngbend::editor::document::Document;
use pngbend::editor::edit::{apply_patches_capturing_prior, EditKind, Patch};
use pngbend::editor::filter_spec::FilterSpec;
use pngbend::editor::frame::{active_overlay, compose_into_scratch};
use pngbend::editor::history::UndoHistory;
use pngbend::editor::list::{ListState, NavKey, PixelType};
use pngbend::editor::list_filter::FilterRef;
use pngbend::editor::load::{estimate_working_set_bytes, load_bytes, LoadError, LoadedFile};
use pngbend::editor::overlay_cache::{EventOverlay, OverlayCache, OverlayMode};
use pngbend::editor::row_text::append_row_text;
use pngbend::editor::select::{fmt_pixel, same_len_lit_swaps, SelectSource};
use pngbend::editor::selection::{
    cascade_reach, cascade_text, compute_cascade_for_pixel, reach_text, CascadeChange, Selection,
};
use pngbend::editor::status::{loaded_text, window_title};
use pngbend::editor::workload::{find_literal_swaps, find_redirect_swaps, run_filter};
use pngbend::editor::edit_options::preview_color;
use pngbend::index::CascadeScratch;
use pngbend::png::{
    build_zlib_stream, write_chunks, Chunk, ChunkType, ColorType, PngInfo, Warning,
};
use pngbend::{decode, encode, EncodeOptions, Image};

fn png_with(w: u32, h: u32, tail: [u8; 5], idat: Vec<u8>) -> Vec<u8> {
    let mut ihdr = Vec::new();
    ihdr.extend_from_slice(&w.to_be_bytes());
    ihdr.extend_from_slice(&h.to_be_bytes());
    ihdr.extend_from_slice(&tail);
    write_chunks(&[
        Chunk {
            typ: ChunkType::ihdr(),
            data: ihdr,
        },
        Chunk {
            typ: ChunkType::idat(),
            data: idat,
        },
        Chunk {
            typ: ChunkType::iend(),
            data: Vec::new(),
        },
    ])
}

fn lit(out_pos: u32, symbol: u8) -> Event {
    Event::Lit(LitEvent {
        out_pos,
        bit_start: 0,
        symbol,
    })
}

/// A 4×3 greyscale picture in one fixed-Huffman block: the third row copies
/// the second row's pixels, four bytes from distance 5.
fn grey_png() -> Vec<u8> {
    let events = vec![
        lit(0, 0),
        lit(1, 10),
        lit(2, 20),
        lit(3, 30),
        lit(4, 40),
        lit(5, 0),
        lit(6, 50),
        lit(7, 60),
        lit(8, 70),
        lit(9, 80),
        lit(10, 0),
        Event::Ref(RefEvent {
            out_pos: 11,
            src_out_pos: 6,
            dist_bit_start: 0,
            copy_len: 4,
            dist_sym: 4, // distances 5 and 6
        }),
    ];
    let output = [0u8, 10, 20, 30, 40, 0, 50, 60, 70, 80, 0, 50, 60, 70, 80];
    let deflate = serialize_fixed(&events);
    png_with(
        4,
        3,
        [8, 0, 0, 0, 0],
        build_zlib_stream(&deflate, [0x78, 0x9C], &output),
    )
}

fn grey() -> LoadedFile {
    load_bytes(&grey_png()).expect("load")
}

/// A larger RGB picture with repeats, as the encoder writes it.
fn photo_png() -> Vec<u8> {
    let (w, h) = (24u32, 16u32);
    let mut pixels = Vec::new();
    for y in 0..h {
        for x in 0..w {
            pixels.extend_from_slice(&[(x * 9 % 64) as u8, (y / 4 * 40) as u8, ((x ^ y) * 3) as u8, 255]);
        }
    }
    let img = Image {
        info: PngInfo::new(w, h, 8, ColorType::Rgb),
        palette: None,
        pixels,
        warnings: Vec::new(),
    };
    encode(&img, &EncodeOptions::default()).expect("encode")
}

fn filled_list(core: &CoreData, kind: PixelType, text: &str, editable_only: bool) -> ListState {
    let mut list = ListState::new(25);
    list.pixel_type = kind;
    list.filter_text = text.to_string();
    list.editable_only = editable_only;
    list.rebuild_filter(Some(core));
    list
}

// Loading.

#[test]
fn build_core_maps_interlaced_pixels() {
    // 2x2 greyscale, Adam7. Passes 1, 6, 7 place the four pixels; the
    // output is filter-byte-0 rows [pass1, pass6, pass7].
    let output = vec![0u8, 10, 0, 20, 0, 30, 40];
    let decoded = decode_deflate(&serialize_stored(&output), None).expect("decode");
    let mut info = PngInfo::new(2, 2, 8, ColorType::Greyscale);
    info.interlaced = true;
    let core = build_core_from_decoded(decoded, info, None);
    assert!(core.raster.info().interlaced);
    // build_pixel_index walked the interlaced raster; every screen pixel
    // appears as a literal row at its reassembled position.
    let mut coords: Vec<(u32, u32)> = core
        .pixel_index
        .lit
        .iter()
        .map(|r| (r.x(), r.y()))
        .collect();
    coords.sort_unstable();
    assert_eq!(coords, vec![(0, 0), (0, 1), (1, 0), (1, 1)]);
}

#[test]
fn load_gives_picture_and_indices() {
    let f = grey();
    assert_eq!(f.core.info.width, 4);
    assert_eq!(
        f.core.output,
        vec![0, 10, 20, 30, 40, 0, 50, 60, 70, 80, 0, 50, 60, 70, 80]
    );
    assert_eq!(
        f.core.unfiltered,
        vec![10, 20, 30, 40, 50, 60, 70, 80, 50, 60, 70, 80]
    );
    assert_eq!(&f.base_rgba[0..8], &[10, 10, 10, 255, 20, 20, 20, 255]);
    assert!(f.warnings.is_empty());
    assert_eq!(f.core.num_blocks(), 1);
    assert_eq!(f.core.max_distance, 5);
    assert!(f.core.overlays_supported());
    assert_eq!(f.core.reverse_graph.neighbors(6), &[11]);
    // Eight literal pixels; the copied ones can be redirected from distance 5
    // to 7 (the symbols have as many extra bits).
    assert_eq!(f.core.pixel_index.lit.len(), 8);
    assert_eq!(f.core.pixel_index.n_lit_with_edit, 8);
    assert_eq!(f.core.pixel_index.refs.len(), 4);
    assert_eq!(f.core.pixel_index.lit[2].rgb[0], 30);
}

fn load_err(raw: &[u8]) -> LoadError {
    match load_bytes(raw) {
        Ok(_) => panic!("expected an error"),
        Err(e) => e,
    }
}

#[test]
fn load_errors_say_what_is_wrong() {
    let e = load_err(b"nope");
    assert!(matches!(e, LoadError::Chunks(_)));
    assert_eq!(e.message(), "This file isn't a PNG.");
    let e = load_err(&write_chunks(&[]));
    assert!(matches!(e, LoadError::MissingIhdr));
    assert_eq!(e.message(), "This file isn't a valid PNG (no header).");
    let e = load_err(&png_with(1, 1, [8, 0, 0, 0, 0], Vec::new()));
    assert!(matches!(e, LoadError::MissingIdat));
    assert_eq!(e.message(), "This PNG has no image data.");
    let e = load_err(&png_with(1, 1, [8, 0, 0, 0, 0], vec![0x78]));
    assert!(matches!(e, LoadError::Zlib(_)));
    assert_eq!(e.message(), "This PNG's image data is truncated.");
    let e = load_err(&png_with(
        1,
        1,
        [8, 0, 0, 0, 0],
        build_zlib_stream(&serialize_stored(&[0, 1, 2]), [0x78, 0x9C], &[]),
    ));
    assert!(matches!(e, LoadError::Deflate(_)));
    assert_eq!(
        e.message(),
        "This PNG decompresses to more data than its dimensions claim, a possible decompression bomb."
    );
    let e = load_err(&png_with(70_000, 1, [8, 0, 0, 0, 0], vec![0x78]));
    assert!(matches!(e, LoadError::Unsupported { .. }));
    assert_eq!(
        e.message(),
        "This PNG is too big for pngbend (70000×1: width and height must each fit in 16 bits (≤ 65535))."
    );
    let e = load_err(&png_with(
        1,
        1,
        [8, 0, 0, 0, 0],
        build_zlib_stream(&serialize_stored(&[9, 1]), [0x78, 0x9C], &[9, 1]),
    ));
    assert!(matches!(e, LoadError::Render));
    assert_eq!(e.message(), "Couldn't render this PNG.");
    assert_eq!(
        LoadError::Io("gone".to_string()).message(),
        "Couldn't read file: gone"
    );
}

#[test]
fn packed_pictures_load_with_bytes_behind_their_rows() {
    // 8×1 at one bit per pixel takes two bytes; up to 1 + 8 may come.
    let load = |output: &[u8]| {
        let idat = build_zlib_stream(&serialize_stored(output), [0x78, 0x9C], output);
        load_bytes(&png_with(8, 1, [1, 0, 0, 0, 0], idat))
    };
    let exact = load(&[0, 0b1010_0000]).expect("load");
    let long = load(&[0, 0b1010_0000, 7, 7, 7, 7, 7, 7, 7]).expect("load");
    assert_eq!(long.core.output.len(), 9);
    assert_eq!(long.base_rgba, exact.base_rgba);
    assert_eq!(&long.base_rgba[..8], &[255, 255, 255, 255, 0, 0, 0, 255]);
    match load(&[0, 0b1010_0000, 7, 7, 7, 7, 7, 7, 7, 7]) {
        Err(LoadError::Deflate(DecodeError::OutputTooLarge { decoded, max })) => {
            assert_eq!((decoded, max), (10, 9));
        }
        _ => panic!("one byte too many"),
    }
}

#[test]
fn a_new_cascade_shows_until_a_mode_is_picked() {
    let rebuilt = CascadeChange::Rebuild(vec![1]);
    for mode in OverlayMode::ALL {
        assert_eq!(rebuilt.mode_after(mode, false), OverlayMode::Cascade);
        assert_eq!(rebuilt.mode_after(mode, true), mode);
        assert_eq!(CascadeChange::Clear.mode_after(mode, false), mode);
        assert_eq!(CascadeChange::Keep.mode_after(mode, false), mode);
    }
}

#[test]
fn stale_checksums_are_warnings() {
    let output = [0u8, 7];
    let mut idat = build_zlib_stream(&serialize_stored(&output), [0x78, 0x9C], &output);
    let last = idat.len() - 1;
    idat[last] ^= 1;
    let f = load_bytes(&png_with(1, 1, [8, 0, 0, 0, 0], idat)).expect("load");
    assert_eq!(f.warnings, vec![Warning::StaleImageAdler.message()]);
    let status = loaded_text("a.png", &f.core, &f.warnings);
    assert_eq!(
        status,
        format!(
            "Loaded a.png  ·  1×1, bpp=1, 1 DEFLATE block  ·  warning: {}",
            Warning::StaleImageAdler.message()
        )
    );
}

#[test]
fn working_set_estimate() {
    // 10 rows of 1 + 10 * 3 bytes at 18 each, 100 pixels at 24 each, 16 MiB.
    assert_eq!(
        estimate_working_set_bytes(10, 10, 3),
        310 * 18 + 100 * 24 + 16 * 1024 * 1024
    );
}

// Edits.

#[test]
fn patches_and_their_inverse_restore_the_buffer() {
    let mut buf = vec![0x5A, 0xC3, 0x0F, 0xF0];
    let before = buf.clone();
    let patches = [
        Patch {
            bit_start: 3,
            value: 0b10110,
            code_len: 5,
        },
        Patch {
            bit_start: 20,
            value: 0b001,
            code_len: 3,
        },
    ];
    let inverse = apply_patches_capturing_prior(&mut buf, &patches);
    assert_eq!(read_bits_at(&buf, 3, 5), 0b10110);
    assert_eq!(read_bits_at(&buf, 20, 3), 0b001);
    assert_ne!(buf, before);
    apply_patches_capturing_prior(&mut buf, &inverse);
    assert_eq!(buf, before);
    let mut one = vec![0u8];
    write_bits(&mut one, 0, 0b1, 1);
    assert_eq!(one, vec![1]);
}

/// Apply every option of every pixel, one after the other: what is shown must
/// be what the saved file decodes to, and undo must restore the bytes.
fn exercise(png: &[u8], at_most: usize) -> (usize, usize) {
    let mut swaps = 0;
    let mut redirects = 0;
    let mut doc = Document::new(load_bytes(png).expect("load"));
    let mut list = filled_list(&doc.core, PixelType::All, "", true);
    let start = doc.png_bytes();
    let n = list.filtered_view.len();
    for i in 0..n {
        let xy = list.filtered_xy(i, Some(&doc.core)).expect("row");
        let mut sel = Selection::new();
        sel.select_pixel(&mut list, Some(&doc.core), xy, SelectSource::Refocus);
        assert!(!sel.edit_options.is_empty(), "pixel {xy:?} is listed as editable");
        for option in sel.edit_options.into_iter().take(at_most) {
            match option.action.kind {
                EditKind::LiteralSwap { .. } => swaps += 1,
                EditKind::DistRedirect { .. } => redirects += 1,
            }
            let rendered = doc.apply_edit(option.action);
            assert!(doc.dirty);
            let saved = doc.png_bytes();
            match load_bytes(&saved) {
                Ok(reloaded) => {
                    assert!(rendered.is_ok());
                    assert!(reloaded.warnings.is_empty());
                    assert_eq!(reloaded.core.output, doc.core.output);
                    assert_eq!(reloaded.core.events, doc.core.events);
                    assert_eq!(reloaded.base_rgba, doc.base_rgba, "edit of {xy:?}");
                    assert_eq!(decode(&saved).expect("decode").pixels, doc.base_rgba);
                }
                Err(e) => {
                    // The edit reached a filter byte: neither can be shown.
                    assert!(matches!(e, LoadError::Render));
                    assert!(rendered.is_err());
                }
            }
            let (label, _) = doc.undo().expect("undo");
            assert!(!doc.dirty);
            assert_eq!(doc.png_bytes(), start);
            assert_eq!(
                doc.history_text("Undone", &label),
                format!("Undone: {label}  |  undo: 0, redo: 1")
            );
            doc.redo().expect("redo");
            assert_eq!(doc.png_bytes(), saved);
            doc.undo().expect("undo again");
        }
    }
    (swaps, redirects)
}

#[test]
fn every_edit_is_what_the_saved_file_holds() {
    let (swaps, redirects) = exercise(&grey_png(), 300);
    assert!(swaps > 100 && redirects > 0, "{swaps} {redirects}");
}

#[test]
fn edits_of_an_encoded_picture() {
    let (swaps, redirects) = exercise(&photo_png(), 3);
    assert!(swaps > 0 && redirects > 0, "{swaps} {redirects}");
}

/// A 2×2 greyscale picture in Adam7 order: passes 1, 6 and 7 hold the four
/// pixels, a literal each.
fn interlaced_png() -> Vec<u8> {
    let output = [0u8, 10, 0, 20, 0, 30, 40];
    let events: Vec<Event> = output
        .iter()
        .enumerate()
        .map(|(i, &b)| lit(i as u32, b))
        .collect();
    png_with(
        2,
        2,
        [8, 0, 0, 0, 1],
        build_zlib_stream(&serialize_fixed(&events), [0x78, 0x9C], &output),
    )
}

#[test]
fn edits_of_an_interlaced_picture() {
    let (swaps, redirects) = exercise(&interlaced_png(), 300);
    assert!(swaps > 100 && redirects == 0, "{swaps} {redirects}");
}

#[test]
fn an_interlaced_edit_redraws_its_pixel() {
    // The last pixel's byte stands behind the rows a plain 2×2 picture has.
    let mut doc = Document::new(load_bytes(&interlaced_png()).expect("load"));
    let mut list = filled_list(&doc.core, PixelType::All, "", false);
    for (xy, at, was) in [((0, 0), 1usize, 10u8), ((1, 0), 3, 20), ((0, 1), 5, 30), ((1, 1), 6, 40)] {
        let mut sel = Selection::new();
        let px = PixelXY::new(xy.0, xy.1);
        sel.select_pixel(&mut list, Some(&doc.core), px, SelectSource::Refocus);
        let to_99 = sel
            .edit_options
            .into_iter()
            .find(|o| o.label == format!("[Y] LITERAL  {was} → 99"))
            .expect("swap to 99");
        // The whole picture is drawn again: no rows are named.
        assert_eq!(doc.apply_edit(to_99.action), Ok(Some(Vec::new())));
        assert_eq!(doc.core.output[at], 99);
        let i = (xy.1 * 2 + xy.0) as usize * 4;
        assert_eq!(&doc.base_rgba[i..i + 4], &[99, 99, 99, 255]);
        let (_, undone) = doc.undo().expect("undo");
        assert_eq!(undone, Ok(Some(Vec::new())));
        assert_eq!(&doc.base_rgba[i..i + 4], &[was, was, was, 255]);
    }
}

#[test]
fn an_edit_names_the_rows_it_redrew() {
    let mut doc = Document::new(grey());
    let mut list = filled_list(&doc.core, PixelType::Lit, "", false);
    let mut sel = Selection::new();
    sel.select_pixel(&mut list, Some(&doc.core), PixelXY::new(1, 1), SelectSource::Refocus);
    let option = sel.edit_options.remove(0);
    // Row 1 holds the literal, row 2 its copy.
    assert_eq!(doc.apply_edit(option.action), Ok(Some(vec![1, 2])));
}

#[test]
fn literal_swap_changes_the_copies_too() {
    let mut doc = Document::new(grey());
    let mut list = filled_list(&doc.core, PixelType::Lit, "", false);
    let mut sel = Selection::new();
    sel.select_pixel(
        &mut list,
        Some(&doc.core),
        PixelXY::new(1, 1),
        SelectSource::ListNav,
    );
    assert_eq!(sel.sel_pixel, Some(PixelXY::new(1, 1)));
    assert_eq!(list.list_scroll_to, Some(5));
    assert_eq!(
        sel.info_text,
        "Pixel (1, 1)  lit #6\n  Y: LITERAL  val=60  block=0  8-bit  143 swap options"
    );
    let to_99 = sel
        .edit_options
        .into_iter()
        .find(|o| o.label == "[Y] LITERAL  60 → 99")
        .expect("swap to 99");
    assert_eq!(to_99.bg_color, [99, 99, 99]);
    assert_eq!(to_99.fg_color, Some([156, 156, 156]));
    assert_eq!(to_99.action.label, "literal 60 → 99");
    doc.apply_edit(to_99.action).expect("render");
    assert_eq!(
        doc.core.output,
        vec![0, 10, 20, 30, 40, 0, 50, 99, 70, 80, 0, 50, 99, 70, 80]
    );
    assert_eq!(&doc.base_rgba[20..24], &[99, 99, 99, 255]);
    assert_eq!(&doc.base_rgba[36..40], &[99, 99, 99, 255]);
}

#[test]
fn redirect_moves_the_source() {
    let mut doc = Document::new(grey());
    let mut list = filled_list(&doc.core, PixelType::Ref, "", false);
    let mut sel = Selection::new();
    let change = sel.select_pixel(
        &mut list,
        Some(&doc.core),
        PixelXY::new(0, 2),
        SelectSource::Refocus,
    );
    assert_eq!(list.list_scroll_to, None);
    assert_eq!(sel.backref_src, Some(PixelXY::new(0, 1)));
    match change {
        Some(CascadeChange::Rebuild(v)) => assert_eq!(v, vec![11]),
        _ => panic!("the cascade starts anew"),
    }
    assert_eq!(
        sel.info_text,
        "Pixel (0, 2)  ref #1\n  Y: BACKREF  val=50  block=0  from=(0, 1)  dist=5  len=4  1 redirect options"
    );
    // Distance symbols 4 and 5 have one extra bit; the extra value stays 0.
    let option = sel.edit_options.remove(0);
    assert_eq!(option.label, "[Y] REDIRECT  dist 5 → 7  src (3, 0)  val≈40");
    assert_eq!(option.bg_color, [40, 40, 40]);
    assert_eq!(option.fg_color, None);
    assert_eq!(option.action.label, "redirect distance 5 → 7");
    doc.apply_edit(option.action).expect("render");
    assert_eq!(&doc.core.output[11..], &[40, 0, 50, 60]);
    assert_eq!(&doc.base_rgba[36..40], &[0, 0, 0, 255]);
    assert!(doc.undo().is_some());
    assert_eq!(&doc.core.output[11..], &[50, 60, 70, 80]);
    assert!(doc.undo().is_none());
}

#[test]
fn undo_history_stacks() {
    let mut h = UndoHistory::default();
    assert!(!h.can_undo() && !h.can_redo());
    assert!(h.pop_undo().is_none());
    assert_eq!((h.undo_len(), h.redo_len()), (0, 0));
    h.clear();
}

// The list.

#[test]
fn rebuild_narrows_to_the_same_rows_as_a_full_pass() {
    let f = load_bytes(&photo_png()).expect("load");
    let c = &f.core;
    for kind in [PixelType::Lit, PixelType::Ref, PixelType::All] {
        let mut typed = filled_list(c, kind, "", false);
        for text in ["", "1", "1,", "12", "#", "#0", "#00", "#0028", "d=", "len=3", ",4", "3,4"] {
            for editable in [false, true] {
                typed.filter_text = text.to_string();
                typed.editable_only = editable;
                typed.rebuild_filter(Some(c));
                let fresh = filled_list(c, kind, text, editable);
                assert_eq!(typed.filtered_view, fresh.filtered_view, "{text:?}");
                assert_eq!(typed.filtered_idx, fresh.filtered_idx, "{text:?}");
            }
        }
    }
}

#[test]
fn reverse_map_finds_every_row() {
    let f = load_bytes(&photo_png()).expect("load");
    let c = &f.core;
    let list = filled_list(c, PixelType::All, "", false);
    assert_eq!(list.filtered_idx.len(), 24 * 16);
    for i in 0..list.filtered_view.len() {
        let xy = list.filtered_xy(i, Some(c)).expect("row");
        assert_eq!(list.filtered_pos(xy, Some(c)), Some(i));
        let (fref, row) = list.filtered_row_full(i, Some(c)).expect("row");
        assert_eq!(fref, list.filtered_view[i]);
        assert_eq!(row.xy(), xy);
    }
    assert!(list.filtered_row(list.filtered_view.len(), Some(c)).is_none());
    let lits = filled_list(c, PixelType::Lit, "", false);
    let xy = f.core.pixel_index.refs[0].xy();
    assert!(!lits.is_in_filtered(xy, Some(c)));
    let mut none = filled_list(c, PixelType::Lit, "", false);
    none.rebuild_filter(None);
    assert!(none.filtered_view.is_empty() && none.filtered_idx.is_empty());
}

#[test]
fn filter_text_is_matched_against_the_row() {
    let f = grey();
    let c = &f.core;
    let mut s = String::new();
    append_row_text(&mut s, FilterRef::Lit(2), &c.pixel_index.lit[2], c);
    assert_eq!(s, "    3  (   2,   0)   30");
    let mut s = String::new();
    append_row_text(&mut s, FilterRef::Ref(0), &c.pixel_index.refs[0], c);
    assert_eq!(s, "    1  (   0,   2)  d=    5 len=4");
    assert_eq!(
        filled_list(c, PixelType::All, "D=    5", false).filtered_view.len(),
        4
    );
    assert_eq!(
        filled_list(c, PixelType::All, " 30", false).filtered_view,
        vec![FilterRef::Lit(2)]
    );
    let dist = FilterSpec::parse("d=5");
    assert!(dist.accepts(FilterRef::Ref(0), &c.pixel_index.refs[0], c));
    assert!(!dist.accepts(FilterRef::Lit(0), &c.pixel_index.lit[0], c));
    let len = FilterSpec::parse("len=+4");
    assert!(matches!(len, FilterSpec::Len(4)));
    assert!(len.accepts(FilterRef::Ref(0), &c.pixel_index.refs[0], c));
    // White space beyond ASCII is trimmed, and other letters keep their case.
    assert!(matches!(FilterSpec::parse("\u{3000}7,\u{a0}"), FilterSpec::CoordCol(7)));
    for (text, low) in [
        ("ÀB", "Àb"),
        ("AZaz@[`{", "azaz@[`{"),
        ("xÉQé K", "xÉqé k"),
        ("THE QUICK BROWN FOX JUMPS OVER A LAZY DOG", "the quick brown fox jumps over a lazy dog"),
    ] {
        match FilterSpec::parse(text) {
            FilterSpec::Generic(s) => assert_eq!(s, low),
            other => panic!("expected Generic, got {other:?}"),
        }
    }
}

#[test]
fn keys_move_through_the_list() {
    let f = grey();
    let c = Some(&f.core);
    let mut list = filled_list(&f.core, PixelType::Lit, ",0", false);
    list.list_viewport_rows = 2;
    let at = |x: u32| Some(PixelXY::new(x, 0));
    assert_eq!(list.nav_target(NavKey::Home, None, c), at(0));
    assert_eq!(list.nav_target(NavKey::End, None, c), at(3));
    assert_eq!(list.nav_target(NavKey::Down, at(0), c), at(1));
    assert_eq!(list.nav_target(NavKey::Up, at(0), c), None);
    assert_eq!(list.nav_target(NavKey::PageDown, at(2), c), at(3));
    assert_eq!(list.nav_target(NavKey::PageUp, at(3), c), at(1));
    assert_eq!(list.nav_target(NavKey::Down, None, c), None);
    assert_eq!(list.nav_target(NavKey::Down, Some(PixelXY::new(0, 1)), c), None);
    assert_eq!(list.nav_target(NavKey::Home, None, None), None);
}

#[test]
fn labels_above_the_list() {
    let f = grey();
    let list = filled_list(&f.core, PixelType::Lit, "30", false);
    let (count, detail) = list.count_labels(&f.core, Some(0));
    assert_eq!(count, "Literals: 8  (8 editable)");
    assert_eq!(detail, "showing 1 of 8 • 1 of 1");
    let list = filled_list(&f.core, PixelType::All, "", false);
    let (count, detail) = list.count_labels(&f.core, None);
    assert_eq!(count, "All: 12");
    assert_eq!(detail, "");
    let list = filled_list(&f.core, PixelType::Ref, "", false);
    assert_eq!(
        list.count_labels(&f.core, Some(2)),
        ("Backrefs: 4".to_string(), "pixel 3 of 4".to_string())
    );
}

// Selection.

#[test]
fn clicks_snap_to_the_nearest_listed_pixel() {
    let f = grey();
    let mut list = filled_list(&f.core, PixelType::Lit, ",0", false);
    let mut sel = Selection::new();
    assert_eq!(sel.info_text, "Click a pixel to inspect it.");
    sel.select_pixel(
        &mut list,
        Some(&f.core),
        PixelXY::new(2, 1),
        SelectSource::ImageClick,
    );
    assert_eq!(sel.sel_pixel, Some(PixelXY::new(2, 0)));
    assert_eq!(list.list_scroll_to, Some(2));
    // Two rows are as near: the first wins.
    list.filter_text = "#".to_string();
    let mut two = filled_list(&f.core, PixelType::All, "", false);
    two.filtered_view = vec![FilterRef::Lit(0), FilterRef::Lit(2)];
    two.filtered_idx = vec![u32::MAX; 12];
    sel.select_pixel(
        &mut two,
        Some(&f.core),
        PixelXY::new(1, 0),
        SelectSource::ImageClick,
    );
    assert_eq!(sel.sel_pixel, Some(PixelXY::new(0, 0)));
    // Without a file the click itself is selected.
    let mut empty = ListState::new(25);
    let mut sel = Selection::new();
    let change = sel.select_pixel(&mut empty, None, PixelXY::new(9, 9), SelectSource::ImageClick);
    assert!(change.is_none());
    assert_eq!(sel.sel_pixel, Some(PixelXY::new(9, 9)));
}

#[test]
fn packed_pixels_select_their_cluster() {
    // 5×1 at 4 bits: three bytes, the last with one pixel.
    let output = [0u8, 0x12, 0x34, 0x50];
    let png = png_with(
        5,
        1,
        [4, 0, 0, 0, 0],
        build_zlib_stream(&serialize_stored(&output), [0x78, 0x9C], &output),
    );
    let f = load_bytes(&png).expect("load");
    let mut list = filled_list(&f.core, PixelType::All, "", false);
    let mut sel = Selection::new();
    let change = sel.select_pixel(
        &mut list,
        Some(&f.core),
        PixelXY::new(3, 0),
        SelectSource::AfterLiteralSwap,
    );
    assert!(matches!(change, Some(CascadeChange::Keep)));
    assert_eq!(sel.sel_pixel, Some(PixelXY::new(2, 0)));
    assert!(sel.info_text.contains(
        "\n  (this byte encodes 2 pixels at y=0, x=2..3; edits affect all of them)\n"
    ));
    sel.select_pixel(
        &mut list,
        Some(&f.core),
        PixelXY::new(4, 0),
        SelectSource::Refocus,
    );
    assert!(sel
        .info_text
        .contains("  (this byte encodes 1 pixel at y=0, x=4..4; edits affect all of them)"));
    let mut s = String::new();
    append_row_text(&mut s, FilterRef::Lit(1), &f.core.pixel_index.lit[1], &f.core);
    assert_eq!(s, "    2  (   2,   0)×2   52");
}

#[test]
fn equal_channels_share_an_option() {
    // One RGB pixel (7, 7, 9) in a fixed block.
    let events = vec![lit(0, 0), lit(1, 7), lit(2, 7), lit(3, 9)];
    let output = [0u8, 7, 7, 9];
    let png = png_with(
        1,
        1,
        [8, 2, 0, 0, 0],
        build_zlib_stream(&serialize_fixed(&events), [0x78, 0x9C], &output),
    );
    let f = load_bytes(&png).expect("load");
    let mut list = filled_list(&f.core, PixelType::Lit, "", false);
    let mut sel = Selection::new();
    sel.select_pixel(
        &mut list,
        Some(&f.core),
        PixelXY::new(0, 0),
        SelectSource::Refocus,
    );
    // 143 targets for 7 and 143 for 9.
    assert_eq!(sel.edit_options.len(), 286);
    assert_eq!(sel.edit_options[0].label, "[R,G] LITERAL  7 → 0");
    assert_eq!(sel.edit_options[0].action.patches.len(), 2);
    assert_eq!(sel.edit_options[143].label, "[B] LITERAL  9 → 0");
    assert_eq!(
        same_len_lit_swaps(&f.core.lit_encs[0], 200).len(),
        111 // 144..=255 without 200
    );
}

#[test]
fn cascade_counts_what_depends_on_a_byte() {
    let f = grey();
    let mut scratch = CascadeScratch::new();
    assert_eq!(cascade_reach(&f.core, &mut scratch, &[7]), (2, 1));
    assert_eq!(cascade_reach(&f.core, &mut scratch, &[11]), (1, 0));
    // Byte 0 is a filter byte.
    assert_eq!(cascade_reach(&f.core, &mut scratch, &[0]), (0, 0));
    assert_eq!(reach_text(7, 3), "\n  LZ77 cascade: 7 bytes  (max depth 3)");
    assert_eq!(
        cascade_text(2, 1, 30),
        "\n  LZ77 cascade: 2 bytes  (max depth 1)\n  filter halo: ~30 px (faint blue)"
    );
    // Rows 1 and 2 from columns 1 and 9 on, of an image four pixels wide.
    assert_eq!(
        compute_cascade_for_pixel(&f.core, &mut scratch, &[7], &[(1, 1), (2, 9)]),
        "\n  LZ77 cascade: 2 bytes  (max depth 1)\n  filter halo: ~3 px (faint blue)"
    );
    let mut sel = Selection::new();
    sel.add_line("more");
    assert_eq!(sel.info_text, "Click a pixel to inspect it.\nmore");
}

#[test]
fn small_texts() {
    assert_eq!(fmt_pixel(Some(PixelXY::new(3, 4))), "(3, 4)");
    assert_eq!(fmt_pixel(None), "off-image");
    assert_eq!(preview_color(&[]), [128, 128, 128]);
    assert_eq!(preview_color(&[9]), [9, 9, 9]);
    assert_eq!(preview_color(&[10, 21]), [10, 21, 15]);
    assert_eq!(preview_color(&[1, 2, 3, 4]), [1, 2, 3]);
    assert_eq!(window_title(None, true), "Compressed PNG Editor");
    assert_eq!(
        window_title(Some("a.png"), true),
        "a.png •  —  Compressed PNG Editor"
    );
    assert_eq!(
        window_title(Some("a.png"), false),
        "a.png  —  Compressed PNG Editor"
    );
}

// Overlays.

#[test]
fn overlay_cache_holds_one_entry() {
    let mut cache = OverlayCache::default();
    assert!(cache.get(EventOverlay::Blocks).is_none());
    assert_eq!(
        cache.ensure(EventOverlay::Blocks, |_| vec![1, 2]),
        Some(&vec![1, 2])
    );
    // Cached: not rendered again.
    assert_eq!(
        cache.ensure(EventOverlay::Blocks, |_| vec![9]),
        Some(&vec![1, 2])
    );
    cache.invalidate_distance();
    assert!(cache.get(EventOverlay::Blocks).is_some());
    cache.ensure(EventOverlay::Distance, |_| vec![3]);
    assert!(cache.get(EventOverlay::Blocks).is_none());
    cache.invalidate_distance();
    assert!(cache.get(EventOverlay::Distance).is_none());
    cache.ensure(EventOverlay::Literals, |_| vec![4]);
    cache.clear();
    assert!(cache.get(EventOverlay::Literals).is_none());
    let labels: Vec<&str> = OverlayMode::ALL.iter().map(|m| m.label()).collect();
    assert_eq!(labels, vec!["None", "Literals", "Distance", "Blocks", "Cascade"]);
    assert_eq!(OverlayMode::Cascade.event_overlay(), None);
    assert_eq!(OverlayMode::Distance.event_overlay(), Some(EventOverlay::Distance));
}

#[test]
fn compose_refreshes_only_the_rows_asked_for() {
    let base = vec![10u8, 10, 10, 255, 20, 20, 20, 255];
    let overlay = vec![200u8, 0, 0, 255, 0, 200, 0, 255];
    let mut scratch = Vec::new();
    assert!(!compose_into_scratch(&base, None, &mut scratch, None, 1));
    assert!(scratch.is_empty());
    assert!(compose_into_scratch(&base, Some(&overlay), &mut scratch, Some(vec![1]), 1));
    assert_eq!(scratch, vec![200, 0, 0, 255, 0, 200, 0, 255]);
    let brighter = vec![99u8, 99, 99, 255, 99, 99, 99, 255];
    assert!(compose_into_scratch(&base, Some(&brighter), &mut scratch, Some(vec![1]), 1));
    assert_eq!(scratch, vec![200, 0, 0, 255, 99, 99, 99, 255]);
    let cache = OverlayCache::default();
    let cascade = Some(vec![5u8]);
    assert_eq!(active_overlay(OverlayMode::Cascade, &cascade, &cache), Some(&vec![5]));
    assert_eq!(active_overlay(OverlayMode::NoOverlay, &cascade, &cache), None);
    assert_eq!(active_overlay(OverlayMode::Blocks, &cascade, &cache), None);
}

// The profiling workload.

#[test]
fn workload_finds_edits_and_rows() {
    let f = grey();
    let swaps = find_literal_swaps(&f.core, 2);
    assert_eq!(swaps.len(), 2);
    assert_eq!((swaps[0].out_pos, swaps[0].new_symbol), (0, 1));
    assert_eq!((swaps[1].out_pos, swaps[1].new_symbol), (1, 0));
    assert_eq!(find_literal_swaps(&f.core, 100).len(), 11);
    let redirects = find_redirect_swaps(&f.core, 5);
    assert_eq!(redirects.len(), 1);
    assert_eq!((redirects[0].old_src, redirects[0].new_src), (6, 4));
    let photo = load_bytes(&photo_png()).expect("load");
    let redirects = find_redirect_swaps(&photo.core, 3);
    assert!(!redirects.is_empty());
    assert!(redirects.iter().all(|r| r.new_src < r.out_pos));
    assert_eq!(run_filter(&f.core.pixel_index, "", false), 12);
    assert_eq!(run_filter(&f.core.pixel_index, "LEN=0", false), 4);
    assert_eq!(run_filter(&f.core.pixel_index, "#1e", false), 1);
}
