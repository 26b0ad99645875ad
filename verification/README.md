# pngbend

A PNG codec that keeps every DEFLATE event addressable, and a glitch editor
built on it. The library is written and verified in Verus; the window is
ordinary Rust around it.

## Layout

- `src/bitstream.rs`, `src/deflate/`: bits, Huffman tables, the decoder that
  records an event per literal and back-reference, LZ77, package-merge, and the
  stored / fixed / dynamic serializers.
- `src/png/`: chunks, IHDR, zlib framing, row filters, colour conversion, Adam7.
- `src/coords.rs`, `src/raster.rs`: pixel to byte geometry.
- `src/api/`: `decode`, `decode_strict`, `decode_with_events`, `encode`.
- `src/index/`: which event wrote a byte, what was copied from it, and which
  pixels can be edited.
- `src/composite.rs`: overlay blending.
- `src/editor/`: the open document, its edits and undo, the pixel list and the
  selection.
- `app/`: the window (`egui` / `eframe`), file dialogs and files.
- `tests/`: run-time tests of the library.

## What is proved

Every function of `src/` states what it returns or changes, over sequences and
integers, and the public proof functions named `law_*` state what holds across
functions. Among them:

- decoding an encoded image gives its pixels back (`api/roundtrip.rs`);
- decoding to pixels and decoding with events agree (`api/decode.rs`);
- every byte of the output belongs to a pixel or is a row's filter byte
  (`coords.rs`, `raster.rs`);
- re-running the row filters over the changed rows gives what unfiltering the
  whole stream gives (`png/filter.rs`);
- every serializer's stream inflates to the bytes it was made from
  (`deflate/roundtrip.rs`, `deflate/compress.rs`), and the single-block ones
  keep the events (`deflate/replay_law.rs`);
- the events of any decode replay to its output (`deflate/replay_law.rs`);
- package-merge is complete and optimal (`deflate/package_merge.rs`,
  `deflate/optimal_law.rs`);
- replacing codes by others of the same length changes just the events that they
  belong to (`deflate/rewrite_law.rs`);
- every edit that is offered is of that kind, a saved edit loads back as it was
  shown, and undo gives back every bit (`editor/options_law.rs`,
  `editor/edit_law.rs`, `editor/save_law.rs`, `editor/document.rs`).

## What is believed

Calls into other crates stand behind small functions marked
`#[verifier::external_body]`: the four-lane integer operations of `wide`
(`composite.rs`), `rayon`'s parallel map (`index/pixel.rs`), and the standard
library's `from_utf8` (`messages.rs`). Each says in its doc comment what it
claims of the call.
