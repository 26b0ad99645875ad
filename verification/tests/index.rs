//! The indices over a decoded stream.

use pngbend::deflate::{EncTable, Event, LitEvent, RefEvent};
use pngbend::index::pixel::{precompute_lit_swap_syms, precompute_redirectable_dist_syms};
use pngbend::index::{
    build_pos_to_ev, build_reverse_graph, event_at, valid_dist_alts, CascadeScratch, ReverseGraph,
};

fn lit(out_pos: u32) -> Event {
    Event::Lit(LitEvent {
        out_pos,
        symbol: 0,
        bit_start: 0,
    })
}

fn refe(out_pos: u32, src_out_pos: u32, copy_len: u16) -> Event {
    Event::Ref(RefEvent {
        out_pos,
        src_out_pos,
        copy_len,
        dist_sym: 0,
        dist_bit_start: 0,
    })
}

fn span(out_pos: u32, copy_len: u16) -> Event {
    refe(out_pos, 0, copy_len)
}

/// A graph with the given edges, one one-byte reference each.
fn rev_from_adj(adj: &[Vec<u32>]) -> ReverseGraph {
    let events: Vec<Event> = adj
        .iter()
        .enumerate()
        .flat_map(|(src, dsts)| dsts.iter().map(move |&dst| refe(dst, src as u32, 1)))
        .collect();
    build_reverse_graph(&events, adj.len())
}

fn dist_table_of(entries: &[(u16, u16, u8)]) -> EncTable {
    let mut de = EncTable::new(30);
    for &(sym, code, clen) in entries {
        de.set(sym, code, clen);
    }
    de
}

#[test]
fn single_seed_no_edges() {
    let rev = rev_from_adj(&vec![Vec::new(); 10]);
    let mut scratch = CascadeScratch::new();
    let cascade = scratch.run(&[5], &rev);
    assert_eq!(cascade.affected, &[5]);
    assert_eq!(cascade.max_depth, 0);
    assert_eq!(cascade.depth(5), Some(0));
    assert_eq!(cascade.depth(4), None);
}

#[test]
fn chain() {
    let rev = rev_from_adj(&[vec![1], vec![2], vec![3], vec![]]);
    let mut scratch = CascadeScratch::new();
    let cascade = scratch.run(&[0], &rev);
    assert_eq!(cascade.depth(0), Some(0));
    assert_eq!(cascade.depth(3), Some(3));
    assert_eq!(cascade.max_depth, 3);
    assert_eq!(cascade.affected.len(), 4);
}

#[test]
fn diamond_takes_shortest_path() {
    let rev = rev_from_adj(&[vec![1, 2], vec![3], vec![3], vec![]]);
    let mut scratch = CascadeScratch::new();
    let cascade = scratch.run(&[0], &rev);
    assert_eq!(cascade.depth(3), Some(2));
}

#[test]
fn dedupes_seeds() {
    let rev = rev_from_adj(&vec![Vec::new(); 10]);
    let mut scratch = CascadeScratch::new();
    let cascade = scratch.run(&[3, 3, 3], &rev);
    assert_eq!(cascade.affected, &[3]);
}

#[test]
fn scratch_reuses_across_runs() {
    // Two unrelated runs on the same scratch must give independent results
    // — no leak from the first run's depths.
    let rev_a = rev_from_adj(&[vec![1], vec![2], vec![]]);
    let rev_b = rev_from_adj(&[vec![], vec![], vec![0]]);
    let mut scratch = CascadeScratch::new();

    let a_depths: Vec<u32> = {
        let cascade = scratch.run(&[0], &rev_a);
        (0..3)
            .map(|p| cascade.depth(p).unwrap_or(u32::MAX))
            .collect()
    };
    assert_eq!(a_depths, vec![0, 1, 2]);

    let b_depths: Vec<u32> = {
        let cascade = scratch.run(&[2], &rev_b);
        (0..3)
            .map(|p| cascade.depth(p).unwrap_or(u32::MAX))
            .collect()
    };
    assert_eq!(b_depths, vec![1, u32::MAX, 0]);
}

#[test]
fn depth_saturates_at_255() {
    // Build a 300-node chain; deepest depth must not wrap.
    let mut adj = vec![Vec::new(); 300];
    for (i, dsts) in adj.iter_mut().enumerate().take(299) {
        dsts.push(i as u32 + 1);
    }
    let rev = rev_from_adj(&adj);
    let mut scratch = CascadeScratch::new();
    let cascade = scratch.run(&[0], &rev);
    // The true depth is 299 but we clamp to 255 in storage.
    assert!(cascade.max_depth >= 255);
    assert_eq!(cascade.depth(299), Some(255));
}

#[test]
fn epoch_wraparound_is_clean() {
    // Run 300+ cascades on the same scratch to trigger the 8-bit epoch
    // wrap; a stale slot from the pre-wrap era must not masquerade as
    // visited in the post-wrap run.
    let rev = rev_from_adj(&[vec![1], vec![], vec![3], vec![]]);
    let mut scratch = CascadeScratch::new();
    // Alternate seeds so different slots are left dirty across runs.
    for i in 0..400 {
        let seed = if i & 1 == 0 { 0 } else { 2 };
        let _ = scratch.run(&[seed], &rev);
    }
    // Final sanity: a seed at the "other" position still visits cleanly.
    let c = scratch.run(&[2], &rev);
    assert_eq!(c.depth(2), Some(0));
    assert_eq!(c.depth(3), Some(1));
    assert_eq!(c.depth(0), None);
    assert_eq!(c.depth(1), None);
}

#[test]
fn valid_dist_alts_filters_by_hlen_and_dext() {
    let de = dist_table_of(&[
        (1, 0b00, 3),  // DBASE=2,  DEXT=0
        (2, 0b01, 3),  // DBASE=3,  DEXT=0 → valid alt
        (4, 0b10, 3),  // DBASE=5,  DEXT=1 → wrong DEXT
        (5, 0b110, 4), // wrong clen
    ]);
    let alts = valid_dist_alts(0, 1, 100, 98, &[de]);
    assert_eq!(alts.len(), 1);
    assert_eq!(alts[0].dist_sym, 2);
    assert_eq!(alts[0].distance, 3);
}

#[test]
fn valid_dist_alts_skips_negative_src() {
    let de = dist_table_of(&[
        (0, 0b0, 1),  // DBASE=1
        (15, 0b1, 1), // DBASE=193, too large for out_pos=10
    ]);
    assert!(valid_dist_alts(0, 0, 10, 9, &[de]).is_empty());
}

#[test]
fn precompute_lit_swap_matches_naive() {
    // Sanity-check the O(n) bucket reshape against the obvious O(n²) form.
    let mut le = EncTable::new(288);
    le.set(5, 0b00, 3);
    le.set(6, 0b01, 3); // same clen=3 → both swappable
    le.set(7, 0b10, 4); // lonely clen=4
    le.set(9, 0b110, 5);
    le.set(10, 0b111, 5); // same clen=5 → both swappable
    let got = precompute_lit_swap_syms(std::slice::from_ref(&le));
    let mut expected = [false; 256];
    for sym in [5u8, 6, 9, 10] {
        expected[sym as usize] = true;
    }
    assert_eq!(got[0], expected);
}

#[test]
fn precompute_dist_redir_ignores_reserved_symbols_30_31() {
    // Fixed-Huffman blocks build a 32-slot dist EncTable. Symbols 30
    // and 31 are reserved (RFC 1951) and have no `DEXT`/`DBASE`
    // entries; the precompute must skip them rather than panic.
    let mut de = EncTable::new(32);
    for sym in 0u16..32 {
        de.set(sym, sym, 5);
    }
    let masks = precompute_redirectable_dist_syms(&[de]);
    // No bits set above sym=29.
    assert_eq!(masks[0] & !((1u32 << 30) - 1), 0);
}

#[test]
fn precompute_dist_redir_sets_expected_bits() {
    let de = dist_table_of(&[
        (1, 0b00, 3),  // DBASE=2,  DEXT=0
        (2, 0b01, 3),  // DBASE=3,  DEXT=0, same (clen,dext) as sym 1
        (4, 0b10, 3),  // DBASE=5,  DEXT=1, alone in (3, 1) bucket
        (5, 0b110, 4), // alone in (4, 1) bucket
    ]);
    let masks = precompute_redirectable_dist_syms(&[de]);
    assert_eq!(masks[0] & (1u32 << 1), 1u32 << 1);
    assert_eq!(masks[0] & (1u32 << 2), 1u32 << 2);
    assert_eq!(masks[0] & (1u32 << 4), 0);
    assert_eq!(masks[0] & (1u32 << 5), 0);
}

#[test]
fn event_at_matches_dense_map() {
    // Mixed stream: literals then a ref then a literal. event_at and
    // build_pos_to_ev must agree at every covered byte.
    let events = vec![lit(0), lit(1), span(2, 4), lit(6)];
    let dense = build_pos_to_ev(&events, 7);
    for (pos, &expected) in dense.iter().enumerate() {
        assert_eq!(event_at(&events, pos), Some(expected));
    }
}

#[test]
fn event_at_returns_none_past_end() {
    let events = vec![lit(0), span(1, 3)];
    assert_eq!(event_at(&events, 4), None);
    assert_eq!(event_at(&events, 100), None);
}

#[test]
fn event_at_handles_empty_events() {
    assert_eq!(event_at(&[], 0), None);
}

#[test]
fn event_at_returns_index_for_first_byte_of_ref() {
    // The ref at out_pos=10, len=5 must answer for every byte in 10..15.
    let events = vec![span(10, 5)];
    for pos in 10..15 {
        assert_eq!(event_at(&events, pos), Some(0), "pos={pos}");
    }
    // Just past the ref → None.
    assert_eq!(event_at(&events, 15), None);
    // Before the ref → None.
    assert_eq!(event_at(&events, 9), None);
}

#[test]
fn empty_events_empty_graph() {
    let g = build_reverse_graph(&[], 0);
    assert!(g.is_empty());
}

#[test]
fn single_ref_single_byte() {
    // src=0, copy_len=1, dst=3. One edge 0 → 3.
    let events = vec![lit(0), lit(1), lit(2), refe(3, 0, 1)];
    let g = build_reverse_graph(&events, 4);
    assert_eq!(g.neighbors(0), &[3]);
    assert_eq!(g.neighbors(1), &[]);
}

#[test]
fn overlapping_refs_produce_sorted_edges() {
    // Two refs both reading from src=0 with differing lengths.
    // Produces edges 0→2, 0→3, 1→4, 1→5.
    let events = vec![
        lit(0),
        lit(1),
        refe(2, 0, 2), // 0→2, 1→3
        refe(4, 0, 2), // 0→4, 1→5
    ];
    let g = build_reverse_graph(&events, 6);
    let mut n0 = g.neighbors(0).to_vec();
    let mut n1 = g.neighbors(1).to_vec();
    n0.sort();
    n1.sort();
    assert_eq!(n0, vec![2, 4]);
    assert_eq!(n1, vec![3, 5]);
}

#[test]
fn range_update_handles_ref_at_output_end() {
    // Ref writes positions [2, 3] copied from src [0, 1]. delta[0]+=1,
    // delta[2]-=1, and output_len=4 means delta[..5] is sized correctly.
    let events = vec![lit(0), lit(1), refe(2, 0, 2)];
    let g = build_reverse_graph(&events, 4);
    assert_eq!(g.neighbors(0), &[2]);
    assert_eq!(g.neighbors(1), &[3]);
    // Nothing was written at output_len itself.
    assert_eq!(g.neighbors(4), &[]);
}
