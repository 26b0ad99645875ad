//! What saving keeps: a saved document loads back as it was held.

use vstd::prelude::*;

use super::core_data::image_fits;
use super::document::{chunks_with, Document};
use super::edit::ActionView;
use super::edit_law::{action_fits, addressable, law_edited_file_decodes};
use super::load::{
    load_cap, load_of, rendered, unsupported, warning_texts, without_idat, LoadErrorView, LoadView,
    LoadedFile,
};
use crate::api::image::owned_palette_view;
use crate::api::prep::palette_chunks;
use crate::png::chunks::{
    be_number, chunk_views, chunks_from, chunks_info, file_bytes, find_chunk, idat_bytes, idat_tag,
    ihdr_tag, law_chunks_round_trip, lengths_fit, parse_chunks, plte_tag, trns_tag, with_chunk,
    ChunkType, ChunkView, Parsed, PngInfo, Warning,
};
use crate::png::filter::{lemma_no_bad_row, lemma_raw_unique, lemma_unfilter_raw, raw_of};
use crate::png::interlace::lemma_passes_unfilter;
use crate::png::zlib::{fcheck_ok, header_ok, law_zlib_round_trip, split_zlib, zlib_stream};

verus! {

/// Some chunk carries image data.
pub open spec fn has_idat(chunks: Seq<ChunkView>) -> bool {
    exists|i: int| 0 <= i < chunks.len() && (#[trigger] chunks[i]).typ == idat_tag()
}

/// How far the stream of this image may inflate.
pub open spec fn cap_of(doc: Document) -> Option<usize> {
    Some(load_cap(doc.core.info) as usize)
}

/// The chunks and the header that a document was loaded with describe its image.
pub open spec fn file_ok(doc: Document) -> bool {
    let chunks = chunk_views(doc.chunks@);
    &&& lengths_fit(chunks)
    &&& has_idat(chunks)
    &&& chunks_info(chunks) == Some(doc.core.info)
    &&& palette_chunks(chunks) == owned_palette_view(doc.core.palette)
    &&& unsupported(doc.core.info) is None
    &&& header_ok(doc.zlib_header@)
}

// Chunks.

proof fn lemma_find_rest(chunks: Seq<ChunkView>, typ: ChunkType, i: int)
    requires
        0 <= i,
        chunks.len() > 0,
    ensures
        find_chunk(chunks, typ, i + 1) == find_chunk(
            chunks.subrange(1, chunks.len() as int),
            typ,
            i,
        ),
    decreases chunks.len() - i,
{
    if i + 1 < chunks.len() {
        assert(chunks.subrange(1, chunks.len() as int)[i] == chunks[i + 1]);
        lemma_find_rest(chunks, typ, i + 1);
    }
}

/// Saving and emptying leave the other chunks to be found.
proof fn lemma_find_with(chunks: Seq<ChunkView>, zlib: Seq<u8>, seen: bool, typ: ChunkType)
    requires
        typ != idat_tag(),
    ensures
        find_chunk(chunks_with(chunks, zlib, seen), typ, 0) == find_chunk(chunks, typ, 0),
    decreases chunks.len(),
{
    if chunks.len() > 0 {
        let rest = chunks.subrange(1, chunks.len() as int);
        let c = chunks[0];
        lemma_find_rest(chunks, typ, 0);
        lemma_find_with(rest, zlib, seen || c.typ == idat_tag(), typ);
        let out = chunks_with(chunks, zlib, seen);
        if c.typ != idat_tag() {
            assert(out.subrange(1, out.len() as int) =~= chunks_with(rest, zlib, seen));
            lemma_find_rest(out, typ, 0);
        } else if !seen {
            assert(out.subrange(1, out.len() as int) =~= chunks_with(rest, zlib, true));
            lemma_find_rest(out, typ, 0);
        }
    }
}

proof fn lemma_find_without(chunks: Seq<ChunkView>, typ: ChunkType, i: int)
    requires
        typ != idat_tag(),
        0 <= i,
    ensures
        find_chunk(without_idat(chunks), typ, i) == find_chunk(chunks, typ, i),
    decreases chunks.len() - i,
{
    if i < chunks.len() {
        lemma_find_without(chunks, typ, i + 1);
    }
}

proof fn lemma_idat_join(a: Seq<ChunkView>, b: Seq<ChunkView>)
    ensures
        idat_bytes(a + b) == idat_bytes(a) + idat_bytes(b),
    decreases b.len(),
{
    if b.len() == 0 {
        assert(a + b =~= a);
        assert(idat_bytes(a) + idat_bytes(b) =~= idat_bytes(a));
    } else {
        lemma_idat_join(a, b.drop_last());
        assert((a + b).drop_last() =~= a + b.drop_last());
        if b.last().typ == idat_tag() {
            assert(idat_bytes(a) + idat_bytes(b.drop_last()) + b.last().data =~= idat_bytes(a) + (
            idat_bytes(b.drop_last()) + b.last().data));
        }
    }
}

proof fn lemma_idat_one(c: ChunkView)
    ensures
        idat_bytes(seq![c]) == if c.typ == idat_tag() {
            c.data
        } else {
            Seq::empty()
        },
{
    assert(seq![c].drop_last() =~= Seq::<ChunkView>::empty());
    assert(idat_bytes(Seq::<ChunkView>::empty()) =~= Seq::<u8>::empty());
    assert(Seq::<u8>::empty() + c.data =~= c.data);
}

/// The saved chunks carry the stream, once.
proof fn lemma_idat_with(chunks: Seq<ChunkView>, zlib: Seq<u8>, seen: bool)
    ensures
        idat_bytes(chunks_with(chunks, zlib, seen)) == if !seen && has_idat(chunks) {
            zlib
        } else {
            Seq::empty()
        },
    decreases chunks.len(),
{
    if chunks.len() > 0 {
        let rest = chunks.subrange(1, chunks.len() as int);
        let c = chunks[0];
        assert(has_idat(chunks) == (c.typ == idat_tag() || has_idat(rest))) by {
            if has_idat(chunks) {
                let i = choose|i: int| 0 <= i < chunks.len() && (#[trigger] chunks[i]).typ == idat_tag();
                if i > 0 {
                    assert(rest[i - 1] == chunks[i]);
                }
            }
            if has_idat(rest) {
                let i = choose|i: int| 0 <= i < rest.len() && (#[trigger] rest[i]).typ == idat_tag();
                assert(chunks[i + 1] == rest[i]);
            }
        }
        lemma_idat_with(rest, zlib, seen || c.typ == idat_tag());
        let more = chunks_with(rest, zlib, seen || c.typ == idat_tag());
        if c.typ != idat_tag() {
            lemma_idat_join(seq![c], more);
            lemma_idat_one(c);
            assert(Seq::<u8>::empty() + idat_bytes(more) =~= idat_bytes(more));
        } else if !seen {
            let first = ChunkView { typ: idat_tag(), data: zlib };
            lemma_idat_join(seq![first], more);
            lemma_idat_one(first);
            assert(zlib + Seq::<u8>::empty() =~= zlib);
        }
    }
}

proof fn lemma_lengths_with(chunks: Seq<ChunkView>, zlib: Seq<u8>, seen: bool)
    requires
        lengths_fit(chunks),
        zlib.len() <= u32::MAX,
    ensures
        lengths_fit(chunks_with(chunks, zlib, seen)),
    decreases chunks.len(),
{
    if chunks.len() > 0 {
        let rest = chunks.subrange(1, chunks.len() as int);
        assert(chunks[0].data.len() <= u32::MAX);
        assert forall|i: int| 0 <= i < rest.len() implies (#[trigger] rest[i]).data.len()
            <= u32::MAX by {
            assert(rest[i] == chunks[i + 1]);
        }
        lemma_lengths_with(rest, zlib, seen || chunks[0].typ == idat_tag());
    }
}

/// The bytes that [`Document::png_bytes`] writes.
pub open spec fn saved(doc: Document) -> Seq<u8> {
    file_bytes(
        chunks_with(
            chunk_views(doc.chunks@),
            zlib_stream(doc.deflate_buf@, doc.zlib_header@, doc.core.output@),
            false,
        ),
    )
}

/// A picture that is in step with its output is what rendering it anew gives.
proof fn lemma_in_sync_renders(doc: Document)
    requires
        doc.core.wf(),
        doc.in_sync(),
    ensures
        rendered(
            doc.core.output@,
            doc.core.info,
            owned_palette_view(doc.core.palette),
        ) matches Some((unfiltered, rgba)) && rgba == doc.base_rgba@ && (!doc.core.info.interlaced
            ==> unfiltered == doc.core.unfiltered@),
{
    let info = doc.core.info;
    let output = doc.core.output@;
    let palette = owned_palette_view(doc.core.palette);
    if info.interlaced {
        lemma_passes_unfilter(output, info, palette, 0);
    } else {
        lemma_no_bad_row(output, info, doc.core.unfiltered@, 0);
        lemma_raw_inside(info);
        lemma_unfilter_raw(output, info);
        lemma_raw_unique(output, info, raw_of(output, info), doc.core.unfiltered@);
    }
}

/// The raw bytes of an image that the editor can address fit in 32 bits.
proof fn lemma_raw_inside(info: PngInfo)
    requires
        image_fits(info),
        !info.interlaced,
    ensures
        info.height * info.row_bytes() <= u32::MAX,
{
    let (h, stride) = (info.height as int, info.row_stride as int);
    assert(h * (stride - 1) <= h * stride) by (nonlinear_arith)
        requires
            0 <= h,
    ;
}

/// A saved document loads back: the same image and the same stream, rendered
/// anew, with no chunk checksum stale and the image checksum fresh. A picture
/// that was in step with its stream is what is shown again. The stream has to
/// fit in one chunk, whose length is 32 bits wide.
pub proof fn law_saved_file_loads(doc: Document)
    requires
        doc.core.wf(),
        file_ok(doc),
        doc.decodes(cap_of(doc)),
        doc.deflate_buf@.len() + 6 <= u32::MAX,
    ensures
        match rendered(
            doc.core.output@,
            doc.core.info,
            owned_palette_view(doc.core.palette),
        ) {
            Some((unfiltered, rgba)) => load_of(saved(doc)) matches Ok(v) && v.header
                == doc.zlib_header@ && v.deflate == doc.deflate_buf@ && v.info == doc.core.info
                && v.palette == owned_palette_view(doc.core.palette) && v.stream
                == doc.core.stream() && v.unfiltered == unfiltered && v.rgba == rgba && v.warnings
                == warning_texts(
                if fcheck_ok(doc.zlib_header@[0], doc.zlib_header@[1]) {
                    Seq::empty()
                } else {
                    seq![Warning::ZlibHeaderChecksum]
                },
            ),
            None => load_of(saved(doc)) == Err::<LoadView, _>(LoadErrorView::Render),
        },
        doc.in_sync() ==> (load_of(saved(doc)) matches Ok(v) && v.rgba == doc.base_rgba@),
{
    let chunks = chunk_views(doc.chunks@);
    let zlib = zlib_stream(doc.deflate_buf@, doc.zlib_header@, doc.core.output@);
    let out = chunks_with(chunks, zlib, false);
    lemma_lengths_with(chunks, zlib, false);
    law_chunks_round_trip(out);
    lemma_find_with(chunks, zlib, false, ihdr_tag());
    lemma_find_with(chunks, zlib, false, plte_tag());
    lemma_find_with(chunks, zlib, false, trns_tag());
    lemma_idat_with(chunks, zlib, false);
    law_zlib_round_trip(doc.deflate_buf@, doc.zlib_header@, doc.core.output@);
    let parts = split_zlib(zlib)->Ok_0;
    assert(Seq::<Warning>::empty() + parts.warnings =~= parts.warnings);
    if doc.in_sync() {
        lemma_in_sync_renders(doc);
    }
}

// Loading.

proof fn lemma_read_lengths(data: Seq<u8>, pos: int, acc: Parsed)
    requires
        0 <= pos,
        lengths_fit(acc.chunks),
    ensures
        chunks_from(data, pos, acc) matches Ok(p) ==> lengths_fit(p.chunks),
    decreases
            (if pos < data.len() {
                data.len() - pos
            } else {
                0
            }),
{
    if pos + 12 <= data.len() && pos + 12 + be_number(data, pos) <= data.len() {
        lemma_read_lengths(
            data,
            pos + 12 + be_number(data, pos) as int,
            with_chunk(acc, data, pos),
        );
    }
}

proof fn lemma_idat_there(chunks: Seq<ChunkView>)
    requires
        idat_bytes(chunks).len() > 0,
    ensures
        has_idat(chunks),
    decreases chunks.len(),
{
    if chunks.len() > 0 {
        if chunks.last().typ == idat_tag() {
            assert(chunks[chunks.len() - 1].typ == idat_tag());
        } else {
            lemma_idat_there(chunks.drop_last());
            let front = chunks.drop_last();
            let i = choose|i: int| 0 <= i < front.len() && (#[trigger] front[i]).typ == idat_tag();
            assert(chunks[i] == front[i]);
        }
    }
}

/// A document that was just loaded holds what its stream decodes to, and its
/// chunks and header describe its image.
pub proof fn law_loaded_document(bytes: Seq<u8>, loaded: LoadedFile, doc: Document)
    requires
        load_of(bytes) == Ok::<_, LoadErrorView>(loaded@),
        doc.chunks == loaded.chunks,
        doc.zlib_header == loaded.zlib_header,
        doc.deflate_buf == loaded.deflate_buf,
        doc.core == loaded.core,
    ensures
        file_ok(doc),
        doc.decodes(cap_of(doc)),
{
    let parsed = parse_chunks(bytes)->Ok_0;
    let chunks = parsed.chunks;
    lemma_read_lengths(bytes, 8, Parsed { chunks: Seq::empty(), warnings: Seq::empty() });
    lemma_idat_there(chunks);
    lemma_find_without(chunks, ihdr_tag(), 0);
    lemma_find_without(chunks, plte_tag(), 0);
    lemma_find_without(chunks, trns_tag(), 0);
    let kept = without_idat(chunks);
    assert(chunk_views(doc.chunks@) == kept);
    assert(has_idat(kept)) by {
        let i = choose|i: int| 0 <= i < chunks.len() && (#[trigger] chunks[i]).typ == idat_tag();
        assert(kept[i].typ == idat_tag());
    }
    assert(lengths_fit(kept)) by {
        assert forall|i: int| 0 <= i < kept.len() implies (#[trigger] kept[i]).data.len()
            <= u32::MAX by {
            assert(chunks[i].data.len() <= u32::MAX);
        }
    }
    let parts = split_zlib(idat_bytes(chunks))->Ok_0;
    assert(doc.zlib_header@ == parts.header);
}

/// An edit leaves the chunks and the header as they are.
pub proof fn law_edit_keeps_file(before: Document, after: Document)
    requires
        file_ok(before),
        after.same_file(&before),
    ensures
        file_ok(after),
        cap_of(after) == cap_of(before),
{
}

/// An edit that was saved is what loading the file gives: the events and the
/// output that the document held after the edit, rendered anew, and so the
/// picture that was shown. Where the edit left a row that cannot be rendered,
/// loading says so.
pub proof fn law_saved_edit_loads(before: Document, after: Document, action: ActionView)
    requires
        before.core_ok(),
        after.core_ok(),
        file_ok(before),
        before.decodes(cap_of(before)),
        addressable(before.deflate_buf@, cap_of(before)),
        before.deflate_buf@.len() + 6 <= u32::MAX,
        action_fits(before.core.stream(), action),
        after.is_edited(&before, action),
    ensures
        match rendered(
            after.core.output@,
            before.core.info,
            owned_palette_view(before.core.palette),
        ) {
            Some((unfiltered, rgba)) => load_of(saved(after)) matches Ok(v) && v.stream
                == after.core.stream() && v.info == before.core.info && v.unfiltered == unfiltered
                && v.rgba == rgba,
            None => load_of(saved(after)) == Err::<LoadView, _>(LoadErrorView::Render),
        },
        after.in_sync() ==> (load_of(saved(after)) matches Ok(v) && v.rgba == after.base_rgba@),
{
    law_edited_file_decodes(before, after, cap_of(before), action);
    law_edit_keeps_file(before, after);
    law_saved_file_loads(after);
}

/// The chunks without those that carry image data.
pub open spec fn other_chunks(chunks: Seq<ChunkView>) -> Seq<ChunkView>
    decreases chunks.len(),
{
    if chunks.len() == 0 {
        Seq::empty()
    } else if chunks[0].typ == idat_tag() {
        other_chunks(chunks.subrange(1, chunks.len() as int))
    } else {
        seq![chunks[0]] + other_chunks(chunks.subrange(1, chunks.len() as int))
    }
}

proof fn lemma_saved_rest(chunks: Seq<ChunkView>, zlib: Seq<u8>, seen: bool)
    ensures
        other_chunks(chunks_with(chunks, zlib, seen)) == other_chunks(chunks),
        seen ==> forall|i: int|
            0 <= i < chunks_with(chunks, zlib, true).len() ==> (#[trigger] chunks_with(
                chunks,
                zlib,
                true,
            )[i]).typ != idat_tag(),
    decreases chunks.len(),
{
    if chunks.len() > 0 {
        let rest = chunks.subrange(1, chunks.len() as int);
        let c = chunks[0];
        let is_idat = c.typ == idat_tag();
        lemma_saved_rest(rest, zlib, seen || is_idat);
        let all = chunks_with(chunks, zlib, seen);
        let tail = chunks_with(rest, zlib, seen || is_idat);
        if is_idat && seen {
            assert(all == tail);
        } else {
            assert(all.subrange(1, all.len() as int) =~= tail);
        }
        if seen {
            assert forall|i: int| 0 <= i < all.len() implies (#[trigger] all[i]).typ
                != idat_tag() by {
                if !is_idat && i > 0 {
                    assert(all[i] == tail[i - 1]);
                }
            }
        }
    }
}

/// What saving does to the chunks: the first that carries image data carries
/// all of it now, in its place; every other such chunk is gone; and all the rest
/// stays as it was, in order.
pub proof fn law_saved_chunks(chunks: Seq<ChunkView>, zlib: Seq<u8>, k: int)
    requires
        0 <= k < chunks.len(),
        chunks[k].typ == idat_tag(),
        forall|i: int| 0 <= i < k ==> (#[trigger] chunks[i]).typ != idat_tag(),
    ensures
        ({
            let saved = chunks_with(chunks, zlib, false);
            &&& k < saved.len()
            &&& saved.take(k) == chunks.take(k)
            &&& saved[k].typ == idat_tag() && saved[k].data == zlib
            &&& forall|i: int| k < i < saved.len() ==> (#[trigger] saved[i]).typ != idat_tag()
            &&& other_chunks(saved) == other_chunks(chunks)
        }),
    decreases k,
{
    let rest = chunks.subrange(1, chunks.len() as int);
    let saved = chunks_with(chunks, zlib, false);
    lemma_saved_rest(chunks, zlib, false);
    if k == 0 {
        lemma_saved_rest(rest, zlib, true);
        let tail = chunks_with(rest, zlib, true);
        assert forall|i: int| 0 < i < saved.len() implies (#[trigger] saved[i]).typ
            != idat_tag() by {
            assert(saved[i] == tail[i - 1]);
        }
        assert(saved.take(0) =~= chunks.take(0));
    } else {
        assert(chunks[0].typ != idat_tag());
        assert forall|i: int| 0 <= i < k - 1 implies (#[trigger] rest[i]).typ != idat_tag() by {
            assert(rest[i] == chunks[i + 1]);
        }
        law_saved_chunks(rest, zlib, k - 1);
        let tail = chunks_with(rest, zlib, false);
        assert(saved == seq![chunks[0]] + tail);
        assert(saved.take(k) =~= chunks.take(k)) by {
            assert forall|i: int| 0 <= i < k implies saved[i] == chunks[i] by {
                if i > 0 {
                    assert(saved[i] == tail[i - 1]);
                    assert(tail.take(k - 1)[i - 1] == rest.take(k - 1)[i - 1]);
                }
            }
        }
        assert(saved[k] == tail[k - 1]);
        assert forall|i: int| k < i < saved.len() implies (#[trigger] saved[i]).typ
            != idat_tag() by {
            assert(saved[i] == tail[i - 1]);
        }
    }
}

} // verus!
