//! Structured filter predicates for the pixel list.
//!
//! The filter box accepts a few structured shapes (`#rrggbb`, `d=N`,
//! `len=N`, `x,y`, ...). Parsing them once per keystroke makes the
//! per-row check `O(1)` arithmetic on fields the row already carries:
//! no per-row formatting, lower-casing, or substring scan. Anything the
//! parser doesn't recognise falls into the [`FilterSpec::Generic`] arm,
//! which is the only one that touches the formatter at all.

use vstd::prelude::*;
use vstd::string::StrSliceExecFns;

use super::core_data::CoreData;
use super::list_filter::FilterRef;
use super::row_text::{append_row_text, lookup_ref_metrics, ref_metrics, row_text};
use crate::deflate::events::Event;
use crate::index::pixel::{PixelRow, RowView};
use crate::png::chunks::PngInfo;

verus! {

// Text.

/// White space, as Unicode has it.
pub open spec fn is_space(c: char) -> bool {
    let n = c as u32;
    ||| 0x09 <= n <= 0x0D
    ||| n == 0x20
    ||| n == 0x85
    ||| n == 0xA0
    ||| n == 0x1680
    ||| 0x2000 <= n <= 0x200A
    ||| n == 0x2028
    ||| n == 0x2029
    ||| n == 0x202F
    ||| n == 0x205F
    ||| n == 0x3000
}

/// The text without white space in front.
pub open spec fn trim_start(s: Seq<char>) -> Seq<char>
    decreases s.len(),
{
    if s.len() > 0 && is_space(s[0]) {
        trim_start(s.subrange(1, s.len() as int))
    } else {
        s
    }
}

/// The text without white space behind.
pub open spec fn trim_end(s: Seq<char>) -> Seq<char>
    decreases s.len(),
{
    if s.len() > 0 && is_space(s.last()) {
        trim_end(s.drop_last())
    } else {
        s
    }
}

/// The text without white space around it.
pub open spec fn trim(s: Seq<char>) -> Seq<char> {
    trim_end(trim_start(s))
}

fn space(c: char) -> (r: bool)
    ensures
        r == is_space(c),
{
    let n: u32 = c as u32;
    (0x09 <= n && n <= 0x0D) || n == 0x20 || n == 0x85 || n == 0xA0 || n == 0x1680 || (0x2000 <= n
        && n <= 0x200A) || n == 0x2028 || n == 0x2029 || n == 0x202F || n == 0x205F || n == 0x3000
}

fn trimmed<'a>(s: &'a str) -> (r: &'a str)
    ensures
        r@ == trim(s@),
{
    let n: usize = s.unicode_len();
    let mut from: usize = 0;
    assert(s@.subrange(0, n as int) =~= s@);
    while from < n && space(s.get_char(from))
        invariant
            n == s@.len(),
            from <= n,
            trim_start(s@) == trim_start(s@.subrange(from as int, n as int)),
        decreases n - from,
    {
        proof {
            let here = s@.subrange(from as int, n as int);
            assert(here.subrange(1, here.len() as int) =~= s@.subrange(from + 1, n as int));
        }
        from = from + 1;
    }
    let mut to: usize = n;
    let ghost body = s@.subrange(from as int, n as int);
    assert(trim_start(s@) == body);
    while to > from && space(s.get_char(to - 1))
        invariant
            n == s@.len(),
            from <= to <= n,
            body == s@.subrange(from as int, n as int),
            trim_end(body) == trim_end(s@.subrange(from as int, to as int)),
        decreases to,
    {
        proof {
            let here = s@.subrange(from as int, to as int);
            assert(here.drop_last() =~= s@.subrange(from as int, to - 1));
            assert(here.last() == s@[to - 1]);
        }
        to = to - 1;
    }
    s.substring_char(from, to)
}

/// ASCII letters in lower case, everything else as it is.
pub open spec fn lower_char(c: char) -> char {
    if 'A' <= c && c <= 'Z' {
        (c as u32 + 32) as char
    } else {
        c
    }
}

/// The text with its ASCII letters in lower case.
pub open spec fn lower(s: Seq<char>) -> Seq<char> {
    s.map_values(|c: char| lower_char(c))
}

/// The characters of a text.
fn chars_of(s: &str) -> (r: Vec<char>)
    ensures
        r@ == s@,
{
    broadcast use vstd::string::axiom_spec_iter;

    let mut r: Vec<char> = Vec::new();
    for c in it: s.chars()
        invariant
            it.seq() == s@,
            r@ == s@.take(it.index()),
    {
        r.push(c);
        assert(r@ =~= s@.take(it.index() + 1));
    }
    assert(s@.take(s@.len() as int) =~= s@);
    r
}

/// The lower case form of a letter A to Z.
fn lower_letter(c: char) -> (r: &'static str)
    requires
        'A' <= c && c <= 'Z',
    ensures
        r@ == seq![lower_char(c)],
{
    let letters = "abcdefghijklmnopqrstuvwxyz";
    let k: usize = c as usize - 65;
    proof {
        reveal_strlit("abcdefghijklmnopqrstuvwxyz");
        assert(letters@[k as int] == (97 + k) as char);
    }
    let r = letters.substring_char(k, k + 1);
    assert(r@ =~= seq![lower_char(c)]);
    r
}

/// The text with its ASCII letters in lower case.
pub(crate) fn ascii_lowercase(s: &str) -> (r: String)
    ensures
        r@ == lower(s@),
{
    let chars: Vec<char> = chars_of(s);
    let n: usize = chars.len();
    let mut r: String = String::new();
    let mut from: usize = 0;
    let mut i: usize = 0;
    while i < n
        invariant
            from <= i <= n,
            n == s@.len(),
            chars@ == s@,
            r@ == lower(s@).take(from as int),
            forall|k: int| from <= k < i ==> lower_char(#[trigger] s@[k]) == s@[k],
        decreases n - i,
    {
        let c: char = chars[i];
        if 'A' <= c && c <= 'Z' {
            r.append(s.substring_char(from, i));
            r.append(lower_letter(c));
            assert(r@ =~= lower(s@).take(i + 1));
            from = i + 1;
        }
        i = i + 1;
    }
    r.append(s.substring_char(from, n));
    assert(r@ =~= lower(s@));
    r
}

/// `needle` stands somewhere in `hay`.
pub open spec fn contains_text(hay: Seq<char>, needle: Seq<char>) -> bool {
    exists|i: int|
        0 <= i && i + needle.len() <= hay.len() && #[trigger] hay.subrange(i, i + needle.len())
            == needle
}

/// Whether `needle` stands at `at` in `hay`.
fn stands_at(hay: &Vec<char>, needle: &Vec<char>, at: usize) -> (r: bool)
    requires
        at + needle@.len() <= hay@.len(),
    ensures
        r == (hay@.subrange(at as int, at + needle@.len()) == needle@),
{
    let ghost here = hay@.subrange(at as int, at + needle@.len());
    let n: usize = hay.len();
    let mut k: usize = 0;
    while k < needle.len()
        invariant
            k <= needle@.len(),
            n == hay@.len(),
            at + needle@.len() <= hay@.len(),
            here == hay@.subrange(at as int, at + needle@.len()),
            forall|j: int| 0 <= j < k ==> here[j] == #[trigger] needle@[j],
        decreases needle@.len() - k,
    {
        if hay[at + k] != needle[k] {
            assert(here[k as int] != needle@[k as int]);
            return false;
        }
        k = k + 1;
    }
    assert(here =~= needle@);
    true
}

/// Whether `needle` stands somewhere in `hay`.
pub(crate) fn text_contains(hay: &str, needle: &str) -> (r: bool)
    ensures
        r == contains_text(hay@, needle@),
{
    let text: Vec<char> = chars_of(hay);
    let word: Vec<char> = chars_of(needle);
    let n: usize = text.len();
    let m: usize = word.len();
    if m > n {
        return false;
    }
    let mut i: usize = 0;
    while i < n - m
        invariant
            text@ == hay@,
            word@ == needle@,
            n == hay@.len(),
            m == needle@.len(),
            m <= n,
            i <= n - m,
            forall|k: int| 0 <= k < i ==> #[trigger] hay@.subrange(k, k + m) != needle@,
        decreases n - i,
    {
        if stands_at(&text, &word, i) {
            assert(hay@.subrange(i as int, i + needle@.len()) == needle@);
            return true;
        }
        i = i + 1;
    }
    let last: bool = stands_at(&text, &word, n - m);
    assert(last ==> hay@.subrange(n - m, n - m + needle@.len()) == needle@);
    last
}

/// The value of a decimal digit.
pub open spec fn digit_of(c: char) -> Option<nat> {
    if '0' <= c && c <= '9' {
        Some((c as u32 - 48) as nat)
    } else {
        None
    }
}

/// Every character is a decimal digit.
pub open spec fn all_digits(s: Seq<char>) -> bool {
    forall|i: int| 0 <= i < s.len() ==> digit_of(#[trigger] s[i]) is Some
}

/// The number that digits spell.
pub open spec fn digits_value(s: Seq<char>) -> nat
    decreases s.len(),
{
    if s.len() == 0 {
        0
    } else {
        10 * digits_value(s.drop_last()) + match digit_of(s.last()) {
            Some(d) => d,
            None => 0,
        }
    }
}

/// A number as text: an optional plus sign and at least one digit, of a value
/// no larger than `max`.
pub open spec fn number_in(s: Seq<char>, max: nat) -> Option<nat> {
    let digits = if s.len() > 0 && s[0] == '+' {
        s.subrange(1, s.len() as int)
    } else {
        s
    };
    if digits.len() > 0 && all_digits(digits) && digits_value(digits) <= max {
        Some(digits_value(digits))
    } else {
        None
    }
}

proof fn lemma_value_grows(s: Seq<char>, n: int)
    requires
        0 <= n <= s.len(),
    ensures
        digits_value(s.take(n)) <= digits_value(s),
    decreases s.len(),
{
    if n < s.len() {
        lemma_value_grows(s.drop_last(), n);
        assert(s.drop_last().take(n) =~= s.take(n));
    } else {
        assert(s.take(n) =~= s);
    }
}

/// Parse an unsigned number no larger than `max`.
fn parse_number(s: &str, max: u64) -> (r: Option<u64>)
    ensures
        match r {
            Some(v) => number_in(s@, max as nat) == Some(v as nat),
            None => number_in(s@, max as nat) is None,
        },
{
    let n: usize = s.unicode_len();
    let from: usize = if n > 0 && s.get_char(0) == '+' {
        1
    } else {
        0
    };
    let ghost digits = s@.subrange(from as int, n as int);
    assert(from == 0 ==> digits =~= s@);
    if from == n {
        return None;
    }
    let mut value: u64 = 0;
    let mut i: usize = from;
    assert(digits.take(0) =~= Seq::<char>::empty());
    while i < n
        invariant
            n == s@.len(),
            from <= i <= n,
            from < n,
            from <= 1,
            from == (if n > 0 && s@[0] == '+' {
                1int
            } else {
                0
            }),
            digits == s@.subrange(from as int, n as int),
            from == 0 ==> digits == s@,
            value <= max,
            value == digits_value(digits.take(i - from)),
            forall|k: int| 0 <= k < i - from ==> digit_of(#[trigger] digits[k]) is Some,
        decreases n - i,
    {
        let c: char = s.get_char(i);
        proof {
            let now = digits.take(i + 1 - from);
            assert(now.drop_last() =~= digits.take(i - from));
            assert(now.last() == c);
            assert(digits[i - from] == c);
            lemma_value_grows(digits, i + 1 - from);
        }
        if c < '0' || c > '9' {
            assert(!all_digits(digits)) by {
                assert(digit_of(digits[i - from]) is None);
            }
            return None;
        }
        let d: u128 = (c as u32 - 48) as u128;
        let next: u128 = value as u128 * 10 + d;
        if next > max as u128 {
            return None;
        }
        value = next as u64;
        i = i + 1;
    }
    assert(digits.take(i - from) =~= digits);
    Some(value)
}

/// The value of a hexadecimal digit.
pub open spec fn hex_of(c: char) -> Option<u8> {
    if '0' <= c && c <= '9' {
        Some((c as u32 - 48) as u8)
    } else if 'a' <= c && c <= 'f' {
        Some((c as u32 - 87) as u8)
    } else if 'A' <= c && c <= 'F' {
        Some((c as u32 - 55) as u8)
    } else {
        None
    }
}

fn hex_digit(c: char) -> (r: Option<u8>)
    ensures
        r == hex_of(c),
        r matches Some(d) ==> d < 16,
{
    if '0' <= c && c <= '9' {
        Some((c as u32 - 48) as u8)
    } else if 'a' <= c && c <= 'f' {
        Some((c as u32 - 87) as u8)
    } else if 'A' <= c && c <= 'F' {
        Some((c as u32 - 55) as u8)
    } else {
        None
    }
}

/// Every character is a hexadecimal digit.
pub open spec fn all_hex(s: Seq<char>) -> bool {
    forall|i: int| 0 <= i < s.len() ==> hex_of(#[trigger] s[i]) is Some
}

/// Byte `i` that hexadecimal digits spell; zero past their end.
pub open spec fn hex_byte(s: Seq<char>, i: int) -> u8 {
    if 2 * i + 1 < s.len() {
        (hex_of(s[2 * i])->0 * 16 + hex_of(s[2 * i + 1])->0) as u8
    } else {
        0
    }
}

/// The byte prefix that one, two or three pairs of hexadecimal digits spell.
pub open spec fn hex_prefix(s: Seq<char>) -> Option<(u8, Seq<u8>)> {
    if (s.len() == 2 || s.len() == 4 || s.len() == 6) && all_hex(s) {
        Some(((s.len() / 2) as u8, seq![hex_byte(s, 0), hex_byte(s, 1), hex_byte(s, 2)]))
    } else {
        None
    }
}

// Filters.

#[derive(Debug, Clone)]
pub enum FilterSpec {
    /// Empty filter: every row passes.
    All,
    /// `#rrggbb` (or shorter, byte-aligned). `n_bytes` of `bytes` must
    /// match the start of `PixelRow.rgb`.
    HexPrefix { n_bytes: u8, bytes: [u8; 3] },
    /// `d=N` / `dist=N`: a ref row whose LZ77 distance equals N.
    Dist(usize),
    /// `len=N`: a ref row whose copy length equals N.
    Len(u16),
    /// `X,Y`: exact pixel coordinates.
    Coord(u32, u32),
    /// `,Y`: any pixel with y == Y.
    CoordRow(u32),
    /// `X,`: any pixel with x == X.
    CoordCol(u32),
    /// Fallback: format each row's display text, lowercase, and substring
    /// match. `String` is pre-lowercased at parse time.
    Generic(String),
}

/// A [`FilterSpec`] as plain values.
pub enum FilterView {
    All,
    HexPrefix(u8, Seq<u8>),
    Dist(int),
    Len(int),
    Coord(int, int),
    CoordRow(int),
    CoordCol(int),
    Generic(Seq<char>),
}

impl View for FilterSpec {
    type V = FilterView;

    open spec fn view(&self) -> FilterView {
        match self {
            FilterSpec::All => FilterView::All,
            FilterSpec::HexPrefix { n_bytes, bytes } => FilterView::HexPrefix(*n_bytes, bytes@),
            FilterSpec::Dist(d) => FilterView::Dist(*d as int),
            FilterSpec::Len(n) => FilterView::Len(*n as int),
            FilterSpec::Coord(x, y) => FilterView::Coord(*x as int, *y as int),
            FilterSpec::CoordRow(y) => FilterView::CoordRow(*y as int),
            FilterSpec::CoordCol(x) => FilterView::CoordCol(*x as int),
            FilterSpec::Generic(s) => FilterView::Generic(s@),
        }
    }
}

/// What stands behind `d=` or `dist=`.
pub open spec fn after_dist(t: Seq<char>) -> Option<Seq<char>> {
    if t.len() >= 2 && t[0] == 'd' && t[1] == '=' {
        Some(t.subrange(2, t.len() as int))
    } else if t.len() >= 5 && t[0] == 'd' && t[1] == 'i' && t[2] == 's' && t[3] == 't' && t[4]
        == '=' {
        Some(t.subrange(5, t.len() as int))
    } else {
        None
    }
}

/// What stands behind `len=`.
pub open spec fn after_len(t: Seq<char>) -> Option<Seq<char>> {
    if t.len() >= 4 && t[0] == 'l' && t[1] == 'e' && t[2] == 'n' && t[3] == '=' {
        Some(t.subrange(4, t.len() as int))
    } else {
        None
    }
}

/// Where the first comma stands, from `i` on.
pub open spec fn comma_from(t: Seq<char>, i: int) -> Option<int>
    decreases t.len() - i,
{
    if i >= t.len() {
        None
    } else if t[i] == ',' {
        Some(i)
    } else {
        comma_from(t, i + 1)
    }
}

/// Coordinates, or one of them with the other left blank.
pub open spec fn coords_in(t: Seq<char>) -> Option<FilterView> {
    match comma_from(t, 0) {
        None => None,
        Some(i) => {
            let xpart = trim(t.subrange(0, i));
            let ypart = trim(t.subrange(i + 1, t.len() as int));
            match (number_in(xpart, u32::MAX as nat), number_in(ypart, u32::MAX as nat)) {
                (Some(x), Some(y)) => Some(FilterView::Coord(x as int, y as int)),
                (None, Some(y)) => if xpart.len() == 0 {
                    Some(FilterView::CoordRow(y as int))
                } else {
                    None
                },
                (Some(x), None) => if ypart.len() == 0 {
                    Some(FilterView::CoordCol(x as int))
                } else {
                    None
                },
                (None, None) => None,
            }
        },
    }
}

/// What the filter box text means. White space is trimmed; text of no
/// structured form is searched for.
pub open spec fn filter_of(text: Seq<char>) -> FilterView {
    let t = trim(text);
    let hex = if t.len() > 0 && t[0] == '#' {
        hex_prefix(t.subrange(1, t.len() as int))
    } else {
        None
    };
    let dist = match after_dist(t) {
        Some(s) => number_in(s, usize::MAX as nat),
        None => None,
    };
    let len = match after_len(t) {
        Some(s) => number_in(s, u16::MAX as nat),
        None => None,
    };
    if t.len() == 0 {
        FilterView::All
    } else if let Some((n, bytes)) = hex {
        FilterView::HexPrefix(n, bytes)
    } else if dist is Some {
        FilterView::Dist(dist->0 as int)
    } else if len is Some {
        FilterView::Len(len->0 as int)
    } else if coords_in(t) is Some {
        coords_in(t)->0
    } else {
        FilterView::Generic(lower(t))
    }
}

/// Parse `rrggbb` (or a byte-aligned prefix: `rr` / `rrgg`) into a byte
/// prefix. Non-hex or odd length returns `None` so the caller can fall
/// through to the generic substring match.
fn parse_hex_prefix(s: &str) -> (r: Option<FilterSpec>)
    ensures
        match r {
            Some(f) => hex_prefix(s@) matches Some((n, bytes)) && f@ == FilterView::HexPrefix(
                n,
                bytes,
            ),
            None => hex_prefix(s@) is None,
        },
{
    let n: usize = s.unicode_len();
    if n != 2 && n != 4 && n != 6 {
        return None;
    }
    let mut bytes: [u8; 3] = [0, 0, 0];
    let mut i: usize = 0;
    while i < n / 2
        invariant
            n == s@.len(),
            n == 2 || n == 4 || n == 6,
            i <= n / 2,
            forall|k: int| 0 <= k < 2 * i ==> hex_of(#[trigger] s@[k]) is Some,
            forall|k: int| 0 <= k < i ==> #[trigger] bytes@[k] == hex_byte(s@, k),
            forall|k: int| i <= k < 3 ==> #[trigger] bytes@[k] == 0,
        decreases n / 2 - i,
    {
        let hi: u8 = match hex_digit(s.get_char(i * 2)) {
            Some(d) => d,
            None => {
                assert(hex_of(s@[2 * i]) is None);
                return None;
            },
        };
        let lo: u8 = match hex_digit(s.get_char(i * 2 + 1)) {
            Some(d) => d,
            None => {
                assert(hex_of(s@[2 * i + 1]) is None);
                return None;
            },
        };
        bytes[i] = hi * 16 + lo;
        i = i + 1;
    }
    proof {
        assert(all_hex(s@));
        assert(bytes@ =~= seq![hex_byte(s@, 0), hex_byte(s@, 1), hex_byte(s@, 2)]);
    }
    Some(FilterSpec::HexPrefix { n_bytes: (n / 2) as u8, bytes })
}

fn find_comma(t: &str) -> (r: Option<usize>)
    ensures
        match r {
            Some(i) => comma_from(t@, 0) == Some(i as int) && i < t@.len(),
            None => comma_from(t@, 0) is None,
        },
{
    let n: usize = t.unicode_len();
    let mut i: usize = 0;
    while i < n
        invariant
            n == t@.len(),
            i <= n,
            comma_from(t@, 0) == comma_from(t@, i as int),
        decreases n - i,
    {
        if t.get_char(i) == ',' {
            return Some(i);
        }
        i = i + 1;
    }
    None
}

fn parse_coords(t: &str) -> (r: Option<FilterSpec>)
    ensures
        match r {
            Some(f) => coords_in(t@) == Some(f@),
            None => coords_in(t@) is None,
        },
{
    let i: usize = match find_comma(t) {
        Some(i) => i,
        None => {
            return None;
        },
    };
    let n: usize = t.unicode_len();
    let xpart: &str = trimmed(t.substring_char(0, i));
    let ypart: &str = trimmed(t.substring_char(i + 1, n));
    match (parse_number(xpart, u32::MAX as u64), parse_number(ypart, u32::MAX as u64)) {
        (Some(x), Some(y)) => Some(FilterSpec::Coord(x as u32, y as u32)),
        (None, Some(y)) => if xpart.unicode_len() == 0 {
            Some(FilterSpec::CoordRow(y as u32))
        } else {
            None
        },
        (Some(x), None) => if ypart.unicode_len() == 0 {
            Some(FilterSpec::CoordCol(x as u32))
        } else {
            None
        },
        (None, None) => None,
    }
}

/// The row's colour starts with the bytes.
pub open spec fn hex_matches(rgb: Seq<u8>, n: int, bytes: Seq<u8>) -> bool {
    forall|i: int| 0 <= i < n ==> rgb[i] == #[trigger] bytes[i]
}

impl FilterView {
    /// Whether a row passes.
    pub open spec fn passes(
        self,
        info: PngInfo,
        events: Seq<Event>,
        fref: FilterRef,
        row: RowView,
    ) -> bool {
        match self {
            FilterView::All => true,
            FilterView::HexPrefix(n, bytes) => hex_matches(row.rgb, n as int, bytes),
            FilterView::Dist(d) => fref is Ref && (ref_metrics(info, events, row.x, row.y) matches
                Some((dist, _)) && dist == d),
            FilterView::Len(n) => fref is Ref && (ref_metrics(info, events, row.x, row.y) matches
                Some((_, len)) && len == n),
            FilterView::Coord(x, y) => row.x == x && row.y == y,
            FilterView::CoordRow(y) => row.y == y,
            FilterView::CoordCol(x) => row.x == x,
            FilterView::Generic(needle) => contains_text(
                lower(row_text(info, events, fref, row)),
                needle,
            ),
        }
    }

    /// A prefix has at most three bytes.
    pub open spec fn wf(self) -> bool {
        self matches FilterView::HexPrefix(n, bytes) ==> n <= 3 && bytes.len() == 3
    }

    /// Whether `self` is known to be at least as strict as `other`.
    pub open spec fn refines(self, other: FilterView) -> bool {
        match (other, self) {
            (FilterView::All, _) => true,
            (FilterView::Generic(a), FilterView::Generic(b)) => contains_text(b, a),
            (FilterView::HexPrefix(na, ba), FilterView::HexPrefix(nb, bb)) => nb >= na
                && hex_matches(bb, na as int, ba),
            (FilterView::Dist(a), FilterView::Dist(b)) => a == b,
            (FilterView::Len(a), FilterView::Len(b)) => a == b,
            (FilterView::Coord(x1, y1), FilterView::Coord(x2, y2)) => x1 == x2 && y1 == y2,
            (FilterView::CoordRow(a), FilterView::CoordRow(b)) => a == b,
            (FilterView::CoordCol(a), FilterView::CoordCol(b)) => a == b,
            _ => false,
        }
    }
}

impl FilterSpec {
    /// Parse the filter box text. Whitespace is trimmed; patterns that
    /// don't match any structured form fall back to `Generic`.
    pub fn parse(text: &str) -> (r: Self)
        ensures
            r@ == filter_of(text@),
            r@.wf(),
    {
        let t: &str = trimmed(text);
        let n: usize = t.unicode_len();
        if n == 0 {
            return FilterSpec::All;
        }
        if t.get_char(0) == '#' {
            if let Some(f) = parse_hex_prefix(t.substring_char(1, n)) {
                return f;
            }
        }
        let dist_at: usize = if n >= 2 && t.get_char(0) == 'd' && t.get_char(1) == '=' {
            2
        } else if n >= 5 && t.get_char(0) == 'd' && t.get_char(1) == 'i' && t.get_char(2) == 's'
            && t.get_char(3) == 't' && t.get_char(4) == '=' {
            5
        } else {
            0
        };
        if dist_at > 0 {
            if let Some(d) = parse_number(t.substring_char(dist_at, n), usize::MAX as u64) {
                return FilterSpec::Dist(d as usize);
            }
        }
        if n >= 4 && t.get_char(0) == 'l' && t.get_char(1) == 'e' && t.get_char(2) == 'n'
            && t.get_char(3) == '=' {
            if let Some(v) = parse_number(t.substring_char(4, n), u16::MAX as u64) {
                return FilterSpec::Len(v as u16);
            }
        }
        if let Some(f) = parse_coords(t) {
            return f;
        }
        FilterSpec::Generic(ascii_lowercase(t))
    }

    /// Evaluate against one row. Only the `Generic` arm formats it.
    pub fn accepts(&self, fref: FilterRef, row: &PixelRow, c: &CoreData) -> (r: bool)
        requires
            self@.wf(),
            c.wf(),
            row@.x < c.info.width,
            row@.y < c.info.height,
            fref.index() < u32::MAX,
        ensures
            r == self@.passes(c.info, c.events@, fref, row@),
    {
        match self {
            FilterSpec::All => true,
            FilterSpec::HexPrefix { n_bytes, bytes } => bytes_match(&row.rgb, *n_bytes, bytes),
            FilterSpec::Dist(d) => match fref {
                FilterRef::Ref(_) => match lookup_ref_metrics(c, row.xy()) {
                    Some((dist, _)) => dist == *d,
                    None => false,
                },
                FilterRef::Lit(_) => false,
            },
            FilterSpec::Len(n) => match fref {
                FilterRef::Ref(_) => match lookup_ref_metrics(c, row.xy()) {
                    Some((_, len)) => len == *n,
                    None => false,
                },
                FilterRef::Lit(_) => false,
            },
            FilterSpec::Coord(x, y) => row.x() == *x && row.y() == *y,
            FilterSpec::CoordRow(y) => row.y() == *y,
            FilterSpec::CoordCol(x) => row.x() == *x,
            FilterSpec::Generic(needle) => {
                let mut text: String = String::new();
                append_row_text(&mut text, fref, row, c);
                assert(text@ =~= row_text(c.info, c.events@, fref, row@));
                let low: String = ascii_lowercase(text.as_str());
                text_contains(low.as_str(), needle.as_str())
            },
        }
    }

    /// True if every row matching `self` also matches `other`: its match
    /// set is a subset of `other`'s. When a rebuild detects this on a
    /// keystroke, it only re-tests rows currently in the view instead of
    /// rescanning the whole index.
    ///
    /// Conservative: returns `false` for any cross-type transition (e.g.
    /// `Coord(x,y)` → `CoordRow(y)`) where correctness would need a more
    /// involved check, so we fall back to a safe full rebuild on those.
    pub fn is_refinement_of(&self, other: &FilterSpec) -> (r: bool)
        requires
            self@.wf(),
            other@.wf(),
        ensures
            r == self@.refines(other@),
    {
        match (other, self) {
            // `All` matches everything, so anything is a refinement.
            (FilterSpec::All, _) => true,
            (FilterSpec::Generic(a), FilterSpec::Generic(b)) => text_contains(
                b.as_str(),
                a.as_str(),
            ),
            (
                FilterSpec::HexPrefix { n_bytes: na, bytes: ba },
                FilterSpec::HexPrefix { n_bytes: nb, bytes: bb },
            ) => *nb >= *na && bytes_match(bb, *na, ba),
            (FilterSpec::Dist(a), FilterSpec::Dist(b)) => *a == *b,
            (FilterSpec::Len(a), FilterSpec::Len(b)) => *a == *b,
            (FilterSpec::Coord(x1, y1), FilterSpec::Coord(x2, y2)) => *x1 == *x2 && *y1 == *y2,
            (FilterSpec::CoordRow(a), FilterSpec::CoordRow(b)) => *a == *b,
            (FilterSpec::CoordCol(a), FilterSpec::CoordCol(b)) => *a == *b,
            _ => false,
        }
    }
}

fn bytes_match(rgb: &[u8; 3], n: u8, bytes: &[u8; 3]) -> (r: bool)
    requires
        n <= 3,
    ensures
        r == hex_matches(rgb@, n as int, bytes@),
{
    let mut i: usize = 0;
    while i < n as usize
        invariant
            i <= n <= 3,
            forall|k: int| 0 <= k < i ==> rgb@[k] == #[trigger] bytes@[k],
        decreases n - i,
    {
        if rgb[i] != bytes[i] {
            assert(rgb@[i as int] != bytes@[i as int]);
            return false;
        }
        i = i + 1;
    }
    true
}

/// Where one filter refines another, every row that passes it passes the other.
pub proof fn law_refinement_narrows(
    narrow: FilterView,
    wide: FilterView,
    info: PngInfo,
    events: Seq<Event>,
    fref: FilterRef,
    row: RowView,
)
    requires
        narrow.wf(),
        wide.wf(),
        narrow.refines(wide),
        narrow.passes(info, events, fref, row),
    ensures
        wide.passes(info, events, fref, row),
{
    match (wide, narrow) {
        (FilterView::Generic(a), FilterView::Generic(b)) => {
            let hay = lower(row_text(info, events, fref, row));
            let i = choose|i: int|
                0 <= i && i + b.len() <= hay.len() && #[trigger] hay.subrange(i, i + b.len()) == b;
            let j = choose|j: int|
                0 <= j && j + a.len() <= b.len() && #[trigger] b.subrange(j, j + a.len()) == a;
            assert(hay.subrange(i + j, i + j + a.len()) =~= a) by {
                assert(hay.subrange(i, i + b.len()) == b);
                assert(b.subrange(j, j + a.len()) =~= hay.subrange(i + j, i + j + a.len()));
            }
        },
        (FilterView::HexPrefix(na, ba), FilterView::HexPrefix(nb, bb)) => {
            assert forall|i: int| 0 <= i < na implies row.rgb[i] == #[trigger] ba[i] by {
                assert(bb[i] == ba[i]);
                assert(row.rgb[i] == bb[i]);
            }
        },
        _ => {},
    }
}

} // verus!
