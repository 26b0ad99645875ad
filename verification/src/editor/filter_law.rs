//! What the filter box texts pick out of the pixel list.

use vstd::prelude::*;

use super::filter_spec::{
    after_dist, after_len, all_digits, all_hex, comma_from, contains_text, digit_of, digits_value,
    filter_of, hex_byte, hex_of, hex_prefix, is_space, lower, lower_char, number_in, trim,
    trim_start, FilterView,
};
use super::list_filter::FilterRef;
use super::row_text::{first_ref, ref_metrics, row_text};
use crate::coords::PixelXY;
use crate::deflate::events::Event;
use crate::deflate::replay_law::tiled;
use crate::index::pixel::RowView;
use crate::index::pos_to_ev::{
    covers, law_lookups_agree, lemma_lookup_inside, lemma_tiled_order, lookup,
};
use crate::png::chunks::PngInfo;
use crate::raster::{law_raster_round_trip, raster_pos};
use crate::text::{decimal, digit_char, numeral};

verus! {

/// Digits, at least one.
pub open spec fn is_numeral(s: Seq<char>) -> bool {
    s.len() > 0 && forall|i: int| 0 <= i < s.len() ==> '0' <= #[trigger] s[i] && s[i] <= '9'
}

/// The number that digits spell, the last counting ones.
pub open spec fn spelled(s: Seq<char>) -> int
    decreases s.len(),
{
    if s.len() == 0 {
        0
    } else {
        spelled(s.drop_last()) * 10 + (s.last() as int - '0' as int)
    }
}

/// No white space at either end.
pub open spec fn tight(s: Seq<char>) -> bool {
    s.len() > 0 ==> !is_space(s[0]) && !is_space(s.last())
}

proof fn lemma_trim_tight(s: Seq<char>)
    requires
        tight(s),
    ensures
        trim(s) == s,
{
}

proof fn lemma_digits(s: Seq<char>)
    requires
        is_numeral(s) || s.len() == 0,
    ensures
        all_digits(s),
        digits_value(s) == spelled(s),
        0 <= spelled(s),
        tight(s),
    decreases s.len(),
{
    assert forall|i: int| 0 <= i < s.len() implies digit_of(#[trigger] s[i]) is Some by {}
    if s.len() > 0 {
        let front = s.drop_last();
        assert(forall|i: int| 0 <= i < front.len() ==> #[trigger] front[i] == s[i]);
        lemma_digits(front);
        assert('0' <= s[s.len() - 1] && s[s.len() - 1] <= '9');
        assert(digit_of(s.last()) == Some((s.last() as u32 - 48) as nat));
    }
}

proof fn lemma_number(s: Seq<char>, max: nat)
    requires
        is_numeral(s),
        spelled(s) <= max,
    ensures
        number_in(s, max) == Some(spelled(s) as nat),
{
    lemma_digits(s);
    assert('0' <= s[0] && s[0] <= '9');
}

proof fn lemma_comma(p: Seq<char>, q: Seq<char>, i: int)
    requires
        is_numeral(p) || p.len() == 0,
        0 <= i <= p.len(),
    ensures
        comma_from(p + seq![','] + q, i) == Some(p.len() as int),
    decreases p.len() - i,
{
    let t = p + seq![','] + q;
    if i < p.len() {
        assert(t[i] == p[i]);
        assert('0' <= p[i] && p[i] <= '9');
        lemma_comma(p, q, i + 1);
    } else {
        assert(t[i] == ',');
    }
}

/// The text of two coordinates is none of the other forms.
proof fn lemma_coords(p: Seq<char>, q: Seq<char>)
    requires
        is_numeral(p) || p.len() == 0,
        is_numeral(q) || q.len() == 0,
        p.len() > 0 ==> spelled(p) <= u32::MAX,
        q.len() > 0 ==> spelled(q) <= u32::MAX,
        p.len() > 0 || q.len() > 0,
    ensures
        ({
            let f = filter_of(p + seq![','] + q);
            &&& p.len() > 0 && q.len() > 0 ==> f == FilterView::Coord(spelled(p), spelled(q))
            &&& p.len() == 0 ==> f == FilterView::CoordRow(spelled(q))
            &&& q.len() == 0 ==> f == FilterView::CoordCol(spelled(p))
        }),
{
    let t = p + seq![','] + q;
    if p.len() > 0 {
        assert(t[0] == p[0]);
        assert('0' <= p[0] && p[0] <= '9');
        lemma_number(p, u32::MAX as nat);
    } else {
        assert(t[0] == ',');
    }
    if q.len() > 0 {
        assert(t.last() == q.last());
        assert('0' <= q[q.len() - 1] && q[q.len() - 1] <= '9');
        lemma_number(q, u32::MAX as nat);
    } else {
        assert(t.last() == ',');
    }
    lemma_trim_tight(t);
    lemma_comma(p, q, 0);
    let i = p.len() as int;
    assert(t.subrange(0, i) =~= p);
    assert(t.subrange(i + 1, t.len() as int) =~= q);
    lemma_digits(p);
    lemma_digits(q);
    lemma_trim_tight(p);
    lemma_trim_tight(q);
    assert(after_dist(t) is None);
    assert(after_len(t) is None);
}

/// Two numbers with a comma between pick the pixel in the column of the first
/// and the row of the second; a number before a comma alone picks its column,
/// and one behind a comma alone its row. So the first picks what both of the
/// others pick.
pub proof fn law_coordinate_filters(
    p: Seq<char>,
    q: Seq<char>,
    info: PngInfo,
    events: Seq<Event>,
    fref: FilterRef,
    row: RowView,
)
    requires
        is_numeral(p),
        is_numeral(q),
        spelled(p) <= u32::MAX,
        spelled(q) <= u32::MAX,
    ensures
        filter_of(p + seq![','] + q).passes(info, events, fref, row) <==> row.x == spelled(p)
            && row.y == spelled(q),
        filter_of(p + seq![',']).passes(info, events, fref, row) <==> row.x == spelled(p),
        filter_of(seq![','] + q).passes(info, events, fref, row) <==> row.y == spelled(q),
        filter_of(p + seq![','] + q).passes(info, events, fref, row) <==> filter_of(
            p + seq![','],
        ).passes(info, events, fref, row) && filter_of(seq![','] + q).passes(
            info,
            events,
            fref,
            row,
        ),
{
    let none = Seq::<char>::empty();
    lemma_coords(p, q);
    lemma_coords(p, none);
    lemma_coords(none, q);
    assert(p + seq![','] + none =~= p + seq![',']);
    assert(none + seq![','] + q =~= seq![','] + q);
}

/// `d=` or `dist=` and a number pick the back-reference pixels at that distance;
/// `len=` and a number those of that copy length.
pub proof fn law_reference_filters(
    q: Seq<char>,
    info: PngInfo,
    events: Seq<Event>,
    fref: FilterRef,
    row: RowView,
)
    requires
        is_numeral(q),
    ensures
        spelled(q) <= usize::MAX ==> {
            &&& filter_of(seq!['d', '='] + q).passes(info, events, fref, row) <==> fref is Ref && (
            ref_metrics(info, events, row.x, row.y) matches Some(m) && m.0 == spelled(q))
            &&& filter_of(seq!['d', 'i', 's', 't', '='] + q).passes(info, events, fref, row)
                == filter_of(seq!['d', '='] + q).passes(info, events, fref, row)
        },
        spelled(q) <= u16::MAX ==> (filter_of(seq!['l', 'e', 'n', '='] + q).passes(
            info,
            events,
            fref,
            row,
        ) <==> fref is Ref && (ref_metrics(info, events, row.x, row.y) matches Some(m) && m.1
            == spelled(q))),
{
    lemma_digits(q);
    let a = seq!['d', '='] + q;
    let b = seq!['d', 'i', 's', 't', '='] + q;
    let c = seq!['l', 'e', 'n', '='] + q;
    assert(a.last() == q.last() && b.last() == q.last() && c.last() == q.last());
    lemma_trim_tight(a);
    lemma_trim_tight(b);
    lemma_trim_tight(c);
    assert(a.subrange(2, a.len() as int) =~= q);
    assert(b.subrange(5, b.len() as int) =~= q);
    assert(c.subrange(4, c.len() as int) =~= q);
    assert(b[1] == 'i');
    if spelled(q) <= usize::MAX {
        lemma_number(q, usize::MAX as nat);
        assert(after_dist(a) == Some(q));
        assert(after_dist(b) == Some(q));
    }
    if spelled(q) <= u16::MAX {
        lemma_number(q, u16::MAX as nat);
        assert(after_dist(c) is None);
        assert(after_len(c) == Some(q));
    }
}

/// What a hexadecimal digit counts, whatever its case.
pub open spec fn hex_count(c: char) -> int {
    if c <= '9' {
        c as int - '0' as int
    } else if c <= 'F' {
        c as int - 'A' as int + 10
    } else {
        c as int - 'a' as int + 10
    }
}

pub open spec fn is_hex(c: char) -> bool {
    ||| '0' <= c && c <= '9'
    ||| 'A' <= c && c <= 'F'
    ||| 'a' <= c && c <= 'f'
}

/// `#` and one, two or three pairs of hexadecimal digits pick the pixels whose
/// first colour bytes they spell, red first.
pub proof fn law_colour_filter(
    s: Seq<char>,
    info: PngInfo,
    events: Seq<Event>,
    fref: FilterRef,
    row: RowView,
)
    requires
        s.len() == 2 || s.len() == 4 || s.len() == 6,
        forall|i: int| 0 <= i < s.len() ==> is_hex(#[trigger] s[i]),
        row.rgb.len() == 3,
    ensures
        filter_of(seq!['#'] + s).passes(info, events, fref, row) <==> {
            &&& row.rgb[0] == 16 * hex_count(s[0]) + hex_count(s[1])
            &&& s.len() >= 4 ==> row.rgb[1] == 16 * hex_count(s[2]) + hex_count(s[3])
            &&& s.len() >= 6 ==> row.rgb[2] == 16 * hex_count(s[4]) + hex_count(s[5])
        },
{
    let t = seq!['#'] + s;
    assert forall|i: int| 0 <= i < s.len() implies hex_of(#[trigger] s[i]) is Some && hex_of(
        s[i],
    )->0 == hex_count(s[i]) && !is_space(s[i]) && 0 <= hex_count(s[i]) < 16 by {
        assert(is_hex(s[i]));
    }
    assert(t[0] == '#');
    assert(t.last() == s[s.len() - 1]);
    lemma_trim_tight(t);
    assert(t.subrange(1, t.len() as int) =~= s);
    assert(all_hex(s));
    let n = s.len() as int / 2;
    let bytes = seq![hex_byte(s, 0), hex_byte(s, 1), hex_byte(s, 2)];
    assert(hex_prefix(s) == Some((n as u8, bytes)));
    assert(filter_of(t) == FilterView::HexPrefix(n as u8, bytes));
    assert(hex_of(s[0]) is Some && hex_of(s[1]) is Some);
    assert(bytes[0] == 16 * hex_count(s[0]) + hex_count(s[1]));
    if s.len() >= 4 {
        assert(hex_of(s[2]) is Some && hex_of(s[3]) is Some);
        assert(bytes[1] == 16 * hex_count(s[2]) + hex_count(s[3]));
    }
    if s.len() >= 6 {
        assert(hex_of(s[4]) is Some && hex_of(s[5]) is Some);
        assert(bytes[2] == 16 * hex_count(s[4]) + hex_count(s[5]));
    }
    if filter_of(t).passes(info, events, fref, row) {
        assert(row.rgb[0] == bytes[0]);
        assert(n >= 2 ==> row.rgb[1] == bytes[1]);
        assert(n >= 3 ==> row.rgb[2] == bytes[2]);
    }
}

/// The same character but for the case of an ASCII letter.
pub open spec fn same_letter(a: char, b: char) -> bool {
    ||| a == b
    ||| 'A' <= a && a <= 'Z' && b as int == a as int + 32
    ||| 'A' <= b && b <= 'Z' && a as int == b as int + 32
}

/// `word` stands at `at` in `text`, but for the case of ASCII letters.
pub open spec fn reads_at(text: Seq<char>, word: Seq<char>, at: int) -> bool {
    &&& 0 <= at
    &&& at + word.len() <= text.len()
    &&& forall|i: int| 0 <= i < word.len() ==> same_letter(text[at + i], #[trigger] word[i])
}

proof fn lemma_same_letter(a: char, b: char)
    ensures
        same_letter(a, b) <==> lower_char(a) == lower_char(b),
{
    if 'A' <= a && a <= 'Z' {
        assert(lower_char(a) as u32 == a as u32 + 32);
    }
    if 'A' <= b && b <= 'Z' {
        assert(lower_char(b) as u32 == b as u32 + 32);
    }
}

proof fn lemma_reads(text: Seq<char>, word: Seq<char>, at: int)
    requires
        0 <= at,
        at + word.len() <= text.len(),
    ensures
        reads_at(text, word, at) <==> lower(text).subrange(at, at + word.len()) == lower(word),
{
    let here = lower(text).subrange(at, at + word.len());
    assert forall|i: int| 0 <= i < word.len() implies (here[i] == #[trigger] lower(word)[i]
        <==> same_letter(text[at + i], word[i])) by {
        lemma_same_letter(text[at + i], word[i]);
    }
    if reads_at(text, word, at) {
        assert forall|i: int| 0 <= i < word.len() implies here[i] == lower(word)[i] by {
            assert(same_letter(text[at + i], word[i]));
        }
        assert(here =~= lower(word));
    }
    if here == lower(word) {
        assert forall|i: int| 0 <= i < word.len() implies same_letter(
            text[at + i],
            #[trigger] word[i],
        ) by {
            assert(here[i] == lower(word)[i]);
        }
    }
}

proof fn lemma_no_comma(t: Seq<char>, i: int)
    requires
        forall|k: int| 0 <= k < t.len() ==> #[trigger] t[k] != ',',
        0 <= i,
    ensures
        comma_from(t, i) is None,
    decreases t.len() - i,
{
    if i < t.len() {
        lemma_no_comma(t, i + 1);
    }
}

/// Any other text picks the pixels whose list text holds it, but for the case of
/// ASCII letters.
pub proof fn law_text_filter(
    word: Seq<char>,
    info: PngInfo,
    events: Seq<Event>,
    fref: FilterRef,
    row: RowView,
)
    requires
        word.len() > 0,
        tight(word),
        forall|k: int|
            0 <= k < word.len() ==> #[trigger] word[k] != ',' && word[k] != '=' && word[k] != '#',
    ensures
        filter_of(word).passes(info, events, fref, row) <==> exists|at: int| #[trigger]
            reads_at(row_text(info, events, fref, row), word, at),
{
    let text = row_text(info, events, fref, row);
    lemma_trim_tight(word);
    lemma_no_comma(word, 0);
    assert(word[0] != '#');
    assert(after_dist(word) is None);
    assert(after_len(word) is None);
    assert(filter_of(word) == FilterView::Generic(lower(word)));
    assert(lower(word).len() == word.len() && lower(text).len() == text.len());
    if contains_text(lower(text), lower(word)) {
        let at = choose|at: int|
            0 <= at && at + lower(word).len() <= lower(text).len() && #[trigger] lower(
                text,
            ).subrange(at, at + lower(word).len()) == lower(word);
        lemma_reads(text, word, at);
        assert(reads_at(text, word, at));
    }
    if exists|at: int| #[trigger] reads_at(text, word, at) {
        let at = choose|at: int| #[trigger] reads_at(text, word, at);
        lemma_reads(text, word, at);
        assert(lower(text).subrange(at, at + lower(word).len()) == lower(word));
    }
}

proof fn lemma_trim_blanks(a: Seq<char>, s: Seq<char>, b: Seq<char>)
    requires
        tight(s),
        forall|k: int| 0 <= k < a.len() ==> is_space(#[trigger] a[k]),
        forall|k: int| 0 <= k < b.len() ==> is_space(#[trigger] b[k]),
    ensures
        trim(a + s + b) == s,
    decreases a.len() + b.len(),
{
    let all = a + s + b;
    if a.len() > 0 {
        let rest = a.subrange(1, a.len() as int);
        assert(is_space(a[0]));
        assert(all[0] == a[0]);
        assert(all.subrange(1, all.len() as int) =~= rest + s + b);
        lemma_trim_blanks(rest, s, b);
    } else if s.len() == 0 {
        lemma_trim_all(all);
    } else if b.len() > 0 {
        let rest = b.drop_last();
        assert(all[0] == s[0]);
        assert(is_space(b[b.len() - 1]));
        assert(all.last() == b.last());
        assert(all.drop_last() =~= a + s + rest);
        assert(trim_start(all) == all);
        lemma_trim_blanks(a, s, rest);
        assert((a + s + rest)[0] == s[0]);
        assert(trim_start(a + s + rest) == a + s + rest);
    } else {
        assert(all =~= s);
        lemma_trim_tight(s);
    }
}

proof fn lemma_trim_all(s: Seq<char>)
    requires
        forall|k: int| 0 <= k < s.len() ==> is_space(#[trigger] s[k]),
    ensures
        trim(s) == Seq::<char>::empty(),
    decreases s.len(),
{
    if s.len() > 0 {
        assert(is_space(s[0]));
        lemma_trim_all(s.subrange(1, s.len() as int));
    } else {
        assert(s =~= Seq::<char>::empty());
    }
}

/// White space around a text changes nothing, and white space alone lets every
/// row pass.
pub proof fn law_blanks_around(
    a: Seq<char>,
    s: Seq<char>,
    b: Seq<char>,
    info: PngInfo,
    events: Seq<Event>,
    fref: FilterRef,
    row: RowView,
)
    requires
        tight(s),
        forall|k: int| 0 <= k < a.len() ==> is_space(#[trigger] a[k]),
        forall|k: int| 0 <= k < b.len() ==> is_space(#[trigger] b[k]),
    ensures
        filter_of(a + s + b).passes(info, events, fref, row) == filter_of(s).passes(
            info,
            events,
            fref,
            row,
        ),
        filter_of(a).passes(info, events, fref, row),
{
    lemma_trim_blanks(a, s, b);
    lemma_trim_tight(s);
    lemma_trim_all(a);
}

proof fn lemma_numeral(n: nat, width: nat)
    ensures
        is_numeral(numeral(n, 10, width)),
        spelled(numeral(n, 10, width)) == n,
        numeral(n, 10, width).len() >= width,
    decreases n + width,
{
    if n < 10 && width <= 1 {
        let s = numeral(n, 10, width);
        assert(s =~= seq![digit_char(n)]);
        assert(s.drop_last() =~= Seq::<char>::empty());
        assert(spelled(s.drop_last()) == 0);
        assert(s.last() == digit_char(n));
    } else {
        let w = if width > 0 {
            (width - 1) as nat
        } else {
            0
        };
        lemma_numeral(n / 10, w);
        let front = numeral(n / 10, 10, w);
        let s = numeral(n, 10, width);
        assert(s == front.push(digit_char(n % 10)));
        assert(s.drop_last() =~= front);
        assert forall|i: int| 0 <= i < s.len() implies '0' <= #[trigger] s[i] && s[i] <= '9' by {
            if i < front.len() {
                assert(s[i] == front[i]);
            }
        }
    }
}

/// A number's decimal text is digits that spell it.
pub proof fn law_decimal(n: nat)
    ensures
        is_numeral(decimal(n)),
        spelled(decimal(n)) == n,
{
    lemma_numeral(n, 1);
}

/// Back-reference `k` wrote output byte `p`.
pub open spec fn ref_wrote(events: Seq<Event>, k: int, p: int) -> bool {
    &&& 0 <= k < events.len()
    &&& events[k] matches Event::Ref(r) && r.out_pos <= p < r.out_pos + r.copy_len
}

proof fn lemma_first_ref(events: Seq<Event>, total: int, base: int, bpp: int, ch: int)
    requires
        tiled(events, total),
        0 <= base,
        base + bpp <= 0x1_0000_0000,
        0 <= ch,
    ensures
        match first_ref(events, base, bpp, ch) {
            Some(r) => exists|c: int, k: int|
                ch <= c < bpp && #[trigger] ref_wrote(events, k, base + c) && events[k]
                    == Event::Ref(r) && forall|d: int, j: int|
                    ch <= d < c ==> !#[trigger] ref_wrote(events, j, base + d),
            None => forall|d: int, j: int|
                ch <= d < bpp ==> !#[trigger] ref_wrote(events, j, base + d),
        },
    decreases bpp - ch,
{
    if ch < bpp {
        lemma_tiled_order(events, total);
        law_lookups_agree(events, base + ch);
        lemma_lookup_inside(events, base + ch);
        lemma_first_ref(events, total, base, bpp, ch + 1);
        let here = match lookup(events, base + ch) {
            Some(k) => events[k] is Ref,
            None => false,
        };
        if here {
            let k = lookup(events, base + ch)->0;
            assert(covers(events[k], base + ch));
            assert(ref_wrote(events, k, base + ch));
        } else {
            assert forall|j: int| !#[trigger] ref_wrote(events, j, base + ch) by {
                if ref_wrote(events, j, base + ch) {
                    assert(covers(events[j], base + ch));
                }
            }
        }
    }
}

/// The distance and length that a pixel is listed with are those of the
/// back-reference that wrote its first copied byte; a pixel without a copied
/// byte has none.
pub proof fn law_ref_metrics(info: PngInfo, events: Seq<Event>, total: int, x: u32, y: u32)
    requires
        info.legal(),
        tiled(events, total),
        x < info.width,
        y < info.height,
        raster_pos(info, PixelXY { x, y }) + info.bpp <= 0x1_0000_0000,
    ensures
        ({
            let base = raster_pos(info, PixelXY { x, y });
            match ref_metrics(info, events, x as int, y as int) {
                Some(m) => exists|c: int, k: int|
                    0 <= c < info.bpp && #[trigger] ref_wrote(events, k, base + c) && m == (
                        events[k]->Ref_0.out_pos - events[k]->Ref_0.src_out_pos,
                        events[k]->Ref_0.copy_len as int,
                    ) && forall|d: int, j: int|
                        0 <= d < c ==> !#[trigger] ref_wrote(events, j, base + d),
                None => forall|d: int, j: int|
                    0 <= d < info.bpp ==> !#[trigger] ref_wrote(events, j, base + d),
            }
        }),
{
    law_raster_round_trip(info, PixelXY { x, y });
    let base = raster_pos(info, PixelXY { x, y });
    lemma_first_ref(events, total, base, info.bpp as int, 0);
    if let Some(r) = first_ref(events, base, info.bpp as int, 0) {
        let (c, k) = choose|c: int, k: int|
            0 <= c < info.bpp && #[trigger] ref_wrote(events, k, base + c) && events[k]
                == Event::Ref(r) && forall|d: int, j: int|
                0 <= d < c ==> !#[trigger] ref_wrote(events, j, base + d);
        assert(ref_wrote(events, k, base + c));
    }
}

/// The two digits of a byte in a colour text spell it.
proof fn lemma_hex_text(b: u8)
    ensures
        ({
            let s = numeral(b as nat, 16, 2);
            &&& s.len() == 2
            &&& is_hex(s[0]) && is_hex(s[1])
            &&& 16 * hex_count(s[0]) + hex_count(s[1]) == b
        }),
{
    let n = b as nat;
    let front = numeral(n / 16, 16, 1);
    assert(n / 16 < 16 && n % 16 < 16);
    assert(front =~= seq![digit_char(n / 16)]);
    assert(numeral(n, 16, 2) =~= seq![digit_char(n / 16), digit_char(n % 16)]);
}

/// A literal row's colour text, typed as a filter, picks the rows of its colour
/// and no others.
pub proof fn law_colour_text(
    rgb: Seq<u8>,
    info: PngInfo,
    events: Seq<Event>,
    fref: FilterRef,
    row: RowView,
)
    requires
        rgb.len() == 3,
        row.rgb.len() == 3,
    ensures
        filter_of(
            seq!['#'] + (numeral(rgb[0] as nat, 16, 2) + numeral(rgb[1] as nat, 16, 2) + numeral(
                rgb[2] as nat,
                16,
                2,
            )),
        ).passes(info, events, fref, row) <==> row.rgb == rgb,
{
    let a = numeral(rgb[0] as nat, 16, 2);
    let b = numeral(rgb[1] as nat, 16, 2);
    let c = numeral(rgb[2] as nat, 16, 2);
    lemma_hex_text(rgb[0]);
    lemma_hex_text(rgb[1]);
    lemma_hex_text(rgb[2]);
    let s = a + b + c;
    assert(s[0] == a[0] && s[1] == a[1] && s[2] == b[0] && s[3] == b[1] && s[4] == c[0] && s[5]
        == c[1]);
    assert forall|i: int| 0 <= i < s.len() implies is_hex(#[trigger] s[i]) by {
        if i == 0 || i == 1 {
        } else if i == 2 || i == 3 {
        } else {
        }
    }
    law_colour_filter(s, info, events, fref, row);
    if row.rgb[0] == rgb[0] && row.rgb[1] == rgb[1] && row.rgb[2] == rgb[2] {
        assert(row.rgb =~= rgb);
    }
}

} // verus!
