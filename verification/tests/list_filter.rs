//! The pixel list's filter.

use pngbend::coords::PixelXY;
use pngbend::editor::filter_spec::FilterSpec;
use pngbend::editor::list_filter::{filter_all, filter_lit, filter_refs, FilterRef};
use pngbend::index::{PixelIndex, PixelRow};

fn row(x: u32, y: u32, has_edit: bool) -> PixelRow {
    PixelRow::new(PixelXY::new(x, y), [0, 0, 0], has_edit)
}

fn pi() -> PixelIndex {
    PixelIndex {
        lit: vec![row(0, 0, true), row(2, 1, false), row(5, 3, true)],
        refs: vec![row(1, 0, true), row(3, 2, true)],
        n_lit_with_edit: 2,
    }
}

#[test]
fn filter_lit_picks_passing_rows() {
    let v = filter_lit(&pi(), |_f, r| r.has_edit);
    assert_eq!(v, vec![FilterRef::Lit(0), FilterRef::Lit(2)]);
}

#[test]
fn filter_refs_picks_passing_rows() {
    // pick just the second ref row
    let v = filter_refs(&pi(), |f, _| matches!(f, FilterRef::Ref(1)));
    assert_eq!(v, vec![FilterRef::Ref(1)]);
}

#[test]
fn filter_all_is_sorted_and_respects_predicate() {
    let v = filter_all(&pi(), |_, _| true);
    // All rows in y,x order: (0,0)Lit0 → (1,0)Ref0 → (2,1)Lit1 →
    // (3,2)Ref1 → (5,3)Lit2
    assert_eq!(
        v,
        vec![
            FilterRef::Lit(0),
            FilterRef::Ref(0),
            FilterRef::Lit(1),
            FilterRef::Ref(1),
            FilterRef::Lit(2),
        ]
    );
}

#[test]
fn filter_all_filters() {
    let v = filter_all(&pi(), |_, r| r.has_edit);
    // Exclude Lit(1) (has_edit=false).
    assert_eq!(
        v,
        vec![
            FilterRef::Lit(0),
            FilterRef::Ref(0),
            FilterRef::Ref(1),
            FilterRef::Lit(2),
        ]
    );
}

#[test]
fn display_index_is_one_based() {
    assert_eq!(FilterRef::Lit(0).display_index(), 1);
    assert_eq!(FilterRef::Ref(7).display_index(), 8);
}

#[test]
fn parse_empty_and_whitespace_is_all() {
    assert!(matches!(FilterSpec::parse(""), FilterSpec::All));
    assert!(matches!(FilterSpec::parse("   "), FilterSpec::All));
}

#[test]
fn parse_hex_prefix_variants() {
    match FilterSpec::parse("#ff") {
        FilterSpec::HexPrefix { n_bytes: 1, bytes } => assert_eq!(bytes, [0xff, 0, 0]),
        other => panic!("expected HexPrefix(1), got {other:?}"),
    }
    match FilterSpec::parse("#aabb") {
        FilterSpec::HexPrefix { n_bytes: 2, bytes } => assert_eq!(bytes, [0xaa, 0xbb, 0]),
        other => panic!("expected HexPrefix(2), got {other:?}"),
    }
    match FilterSpec::parse("#112233") {
        FilterSpec::HexPrefix { n_bytes: 3, bytes } => {
            assert_eq!(bytes, [0x11, 0x22, 0x33]);
        }
        other => panic!("expected HexPrefix(3), got {other:?}"),
    }
}

#[test]
fn parse_malformed_hex_falls_back_to_generic() {
    // Odd length, not byte-aligned.
    assert!(matches!(FilterSpec::parse("#fff"), FilterSpec::Generic(_)));
    // Non-hex character.
    assert!(matches!(FilterSpec::parse("#zz"), FilterSpec::Generic(_)));
}

#[test]
fn parse_dist_and_len() {
    assert!(matches!(FilterSpec::parse("d=42"), FilterSpec::Dist(42)));
    assert!(matches!(
        FilterSpec::parse("dist=100"),
        FilterSpec::Dist(100)
    ));
    assert!(matches!(FilterSpec::parse("len=5"), FilterSpec::Len(5)));
    // Non-numeric payload falls back.
    assert!(matches!(FilterSpec::parse("d=abc"), FilterSpec::Generic(_)));
}

#[test]
fn parse_coord_variants() {
    assert!(matches!(
        FilterSpec::parse("100,200"),
        FilterSpec::Coord(100, 200)
    ));
    assert!(matches!(
        FilterSpec::parse(" 100 , 200 "),
        FilterSpec::Coord(100, 200)
    ));
    assert!(matches!(FilterSpec::parse(",50"), FilterSpec::CoordRow(50)));
    assert!(matches!(FilterSpec::parse("7,"), FilterSpec::CoordCol(7)));
}

#[test]
fn parse_bare_integer_is_generic() {
    // Single integer is ambiguous (could be x, y, or part of #hex),
    // so fall back to the substring path rather than guess.
    assert!(matches!(FilterSpec::parse("42"), FilterSpec::Generic(_)));
}

#[test]
fn parse_generic_lowercases_text() {
    match FilterSpec::parse("D=ABC") {
        FilterSpec::Generic(s) => assert_eq!(s, "d=abc"),
        other => panic!("expected Generic, got {other:?}"),
    }
}

#[test]
fn refinement_generic_prefix_growth() {
    let old = FilterSpec::parse("ab");
    let new = FilterSpec::parse("ab1");
    assert!(new.is_refinement_of(&old));
    // Back-stepping is not a refinement.
    assert!(!old.is_refinement_of(&new));
}

#[test]
fn refinement_generic_same_is_refinement() {
    let a = FilterSpec::parse("abc");
    assert!(a.is_refinement_of(&a));
}

#[test]
fn refinement_generic_disjoint_not_refinement() {
    let a = FilterSpec::parse("abc");
    let b = FilterSpec::parse("xyz");
    assert!(!b.is_refinement_of(&a));
}

#[test]
fn refinement_hexprefix_extension() {
    let old = FilterSpec::parse("#aa");
    let new = FilterSpec::parse("#aabb");
    assert!(new.is_refinement_of(&old));
    assert!(!old.is_refinement_of(&new));
}

#[test]
fn refinement_hexprefix_divergent() {
    // Different first byte, not a refinement.
    let a = FilterSpec::parse("#aa");
    let b = FilterSpec::parse("#bb");
    assert!(!b.is_refinement_of(&a));
}

#[test]
fn refinement_from_all() {
    let old = FilterSpec::parse("");
    let new = FilterSpec::parse("ab");
    // Anything refines All.
    assert!(new.is_refinement_of(&old));
    // All does NOT refine a specific filter (it would widen).
    assert!(!old.is_refinement_of(&new));
}

#[test]
fn refinement_cross_type_conservative_false() {
    let coord = FilterSpec::parse("10,20");
    let row = FilterSpec::parse(",20");
    // Coord IS a refinement of CoordRow semantically, but we return
    // false for cross-type to keep the check simple and correct.
    assert!(!coord.is_refinement_of(&row));
    assert!(!row.is_refinement_of(&coord));
}

#[test]
fn refinement_structured_same() {
    assert!(FilterSpec::Dist(42).is_refinement_of(&FilterSpec::Dist(42)));
    assert!(FilterSpec::Len(5).is_refinement_of(&FilterSpec::Len(5)));
    assert!(FilterSpec::Coord(10, 20).is_refinement_of(&FilterSpec::Coord(10, 20)));
}

#[test]
fn refinement_structured_different_values() {
    assert!(!FilterSpec::Dist(42).is_refinement_of(&FilterSpec::Dist(43)));
}

#[test]
fn refinement_generic_anywhere_in_the_text() {
    let holds = |hay: &str, needle: &str| {
        FilterSpec::parse(hay).is_refinement_of(&FilterSpec::parse(needle))
    };
    assert!(holds("xyab", "ab"));
    assert!(holds("aaab", "aab"));
    assert!(holds("éaé", "aé"));
    assert!(holds("zaz", "A"));
    assert!(!holds("ab", "abc"));
    assert!(!holds("axb", "ab"));
    assert!(!holds("é", "e"));
}
