//! Greedy LZ77 match-finder for the encoder.
//!
//! Hash chains over 3-byte prefixes locate back-references within the 32 KiB
//! window; each position emits a back-reference (match length >= 3) or a
//! literal, producing an [`Event`] stream for the serializers.

use vstd::prelude::*;

use super::constants::{base_index, lemma_distance_symbol, symbol_index, DBASE};
use super::events::{Event, LitEvent, RefEvent};
use super::inflate_spec::copy_back;
use super::stream_spec::{lemma_valid_push, replay, valid_event, valid_events};

verus! {

pub const MIN_MATCH: usize = 3;

pub const MAX_MATCH: usize = 258;

pub const WINDOW: usize = 32768;

pub const HASH_SIZE: usize = 32768;

/// Cap on hash-chain walk length per position: bounds worst-case time on
/// pathological inputs at a small ratio cost.
pub const MAX_CHAIN: usize = 128;

/// Marks the end of a hash chain.
const NO_POS: u32 = u32::MAX;

/// Hash of the three bytes at `i`.
pub open spec fn hash_at(d: Seq<u8>, i: int) -> u32 {
    (((d[i] as u32) << 10) ^ ((d[i + 1] as u32) << 5) ^ (d[i + 2] as u32)) & 0x7FFF
}

/// Position `i` has three bytes to hash.
pub open spec fn hashable(d: Seq<u8>, i: int) -> bool {
    0 <= i && i + 3 <= d.len()
}

/// The nearest position before `i` whose hash is `h`.
pub open spec fn nearest(d: Seq<u8>, h: u32, i: int) -> Option<int>
    decreases i,
{
    if i <= 0 {
        None
    } else if hashable(d, i - 1) && hash_at(d, i - 1) == h {
        Some(i - 1)
    } else {
        nearest(d, h, i - 1)
    }
}

/// Where the bytes from `c` and from `i`, equal over `l` bytes, stop being
/// equal, within `max` bytes.
pub open spec fn match_end(d: Seq<u8>, c: int, i: int, l: int, max: int) -> int
    decreases max - l,
{
    if l < max && d[c + l] == d[i + l] {
        match_end(d, c, i, l + 1, max)
    } else {
        l
    }
}

/// The longest match that may start at `i`.
pub open spec fn match_limit(d: Seq<u8>, i: int) -> int {
    if d.len() - i < MAX_MATCH {
        d.len() - i
    } else {
        MAX_MATCH as int
    }
}

/// The best `(length, distance)` over the candidates from `cand` back along
/// its hash chain: the first of the longest, among at most [`MAX_CHAIN`]
/// candidates inside the window.
pub open spec fn best_match(
    d: Seq<u8>,
    i: int,
    cand: Option<int>,
    chain: int,
    best: (int, int),
) -> (int, int)
    decreases MAX_CHAIN - chain,
{
    match cand {
        None => best,
        Some(c) => if chain >= MAX_CHAIN || i - c > WINDOW {
            best
        } else {
            let l = match_end(d, c, i, 0, match_limit(d, i));
            let next = nearest(d, hash_at(d, i), c);
            if l > best.0 {
                if l >= match_limit(d, i) {
                    (l, i - c)
                } else {
                    best_match(d, i, next, chain + 1, (l, i - c))
                }
            } else {
                best_match(d, i, next, chain + 1, best)
            }
        },
    }
}

/// The match taken at `i`, if any is long enough.
pub open spec fn match_at(d: Seq<u8>, i: int) -> (int, int) {
    if hashable(d, i) {
        best_match(d, i, nearest(d, hash_at(d, i), i), 0, (0, 0))
    } else {
        (0, 0)
    }
}

/// The event emitted at `i`.
pub open spec fn event_at(d: Seq<u8>, i: int) -> Event {
    let (len, dist) = match_at(d, i);
    if len >= MIN_MATCH {
        Event::Ref(
            RefEvent {
                out_pos: i as u32,
                src_out_pos: (i - dist) as u32,
                dist_bit_start: 0,
                copy_len: len as u16,
                dist_sym: base_index(DBASE@, dist as nat) as u8,
            },
        )
    } else {
        Event::Lit(LitEvent { out_pos: i as u32, bit_start: 0, symbol: d[i] })
    }
}

/// How many bytes the event emitted at `i` covers.
pub open spec fn covered_at(d: Seq<u8>, i: int) -> int {
    let (len, dist) = match_at(d, i);
    if len >= MIN_MATCH {
        len
    } else {
        1
    }
}

/// The events emitted from `i` on.
pub open spec fn greedy_events(d: Seq<u8>, i: int) -> Seq<Event>
    decreases
            (if i < d.len() {
                d.len() - i
            } else {
                0
            }),
{
    if i < 0 || i >= d.len() {
        Seq::empty()
    } else {
        seq![event_at(d, i)] + greedy_events(d, i + covered_at(d, i))
    }
}

/// A match is a true copy inside the window.
pub open spec fn is_match(d: Seq<u8>, i: int, m: (int, int)) -> bool {
    &&& 0 <= m.0 <= match_limit(d, i)
    &&& m.0 > 0 ==> 1 <= m.1 <= i && m.1 <= WINDOW && (forall|k: int|
        0 <= k < m.0 ==> d[i + k] == #[trigger] d[i - m.1 + k])
}

proof fn lemma_match_end(d: Seq<u8>, c: int, i: int, l: int, max: int)
    requires
        0 <= l <= max,
        forall|k: int| 0 <= k < l ==> d[i + k] == #[trigger] d[c + k],
    ensures
        l <= match_end(d, c, i, l, max) <= max,
        forall|k: int|
            0 <= k < match_end(d, c, i, l, max) ==> d[i + k] == #[trigger] d[c + k],
    decreases max - l,
{
    if l < max && d[c + l] == d[i + l] {
        lemma_match_end(d, c, i, l + 1, max);
    }
}

proof fn lemma_nearest(d: Seq<u8>, h: u32, i: int)
    ensures
        nearest(d, h, i) matches Some(j) ==> 0 <= j < i && hashable(d, j) && hash_at(d, j) == h,
    decreases i,
{
    if i > 0 && !(hashable(d, i - 1) && hash_at(d, i - 1) == h) {
        lemma_nearest(d, h, i - 1);
    }
}

proof fn lemma_best_match(d: Seq<u8>, i: int, cand: Option<int>, chain: int, best: (int, int))
    requires
        hashable(d, i),
        cand matches Some(c) ==> 0 <= c < i,
        is_match(d, i, best),
    ensures
        is_match(d, i, best_match(d, i, cand, chain, best)),
    decreases MAX_CHAIN - chain,
{
    if let Some(c) = cand {
        if chain < MAX_CHAIN && i - c <= WINDOW {
            lemma_match_end(d, c, i, 0, match_limit(d, i));
            let l = match_end(d, c, i, 0, match_limit(d, i));
            lemma_nearest(d, hash_at(d, i), c);
            let next = nearest(d, hash_at(d, i), c);
            assert(is_match(d, i, (l, i - c)));
            if l > best.0 {
                if l < match_limit(d, i) {
                    lemma_best_match(d, i, next, chain + 1, (l, i - c));
                }
            } else {
                lemma_best_match(d, i, next, chain + 1, best);
            }
        }
    }
}

pub proof fn lemma_match_at(d: Seq<u8>, i: int)
    requires
        0 <= i < d.len(),
    ensures
        is_match(d, i, match_at(d, i)),
        1 <= covered_at(d, i) <= 258,
        i + covered_at(d, i) <= d.len(),
{
    if hashable(d, i) {
        lemma_nearest(d, hash_at(d, i), i);
        lemma_best_match(d, i, nearest(d, hash_at(d, i), i), 0, (0, 0));
    }
}

/// Copying from where the same bytes stand reproduces them.
proof fn lemma_copy_reproduces(d: Seq<u8>, i: int, dist: nat, n: nat)
    requires
        1 <= dist <= i,
        i + n <= d.len(),
        forall|k: int| 0 <= k < n ==> d[i + k] == #[trigger] d[i - dist + k],
    ensures
        copy_back(d.take(i), dist, n) == d.take(i + n),
    decreases n,
{
    if n > 0 {
        lemma_copy_reproduces(d, i, dist, (n - 1) as nat);
        assert(d[i - dist + (n - 1)] == d[i + (n - 1)]);
        assert(d.take(i + n - 1).push(d[i + n - 1]) =~= d.take(i + n));
    } else {
        assert(d.take(i + n) =~= d.take(i));
    }
}

/// The event emitted at `i` fits behind events that replay to the first `i`
/// bytes, and replays the bytes it covers.
proof fn lemma_greedy_step(d: Seq<u8>, i: int, pre: Seq<Event>)
    requires
        0 <= i < d.len() <= u32::MAX,
        valid_events(pre),
        replay(pre) == d.take(i),
    ensures
        valid_events(pre.push(event_at(d, i))),
        replay(pre.push(event_at(d, i))) == d.take(i + covered_at(d, i)),
{
    lemma_match_at(d, i);
    let e = event_at(d, i);
    let pre2 = pre.push(e);
    assert(pre2.drop_last() =~= pre);
    let (len, dist) = match_at(d, i);
    if len >= MIN_MATCH {
        lemma_distance_symbol(dist as nat);
        lemma_copy_reproduces(d, i, dist as nat, len as nat);
    } else {
        assert(d.take(i).push(d[i]) =~= d.take(i + 1));
    }
    assert(valid_event(e, replay(pre).len()));
    lemma_valid_push(pre, e);
}

/// Events that replay to the first `i` bytes, followed by those emitted from
/// `i` on, are valid and replay to the whole.
proof fn lemma_greedy_events(d: Seq<u8>, i: int, pre: Seq<Event>)
    requires
        0 <= i <= d.len() <= u32::MAX,
        valid_events(pre),
        replay(pre) == d.take(i),
    ensures
        valid_events(pre + greedy_events(d, i)),
        replay(pre + greedy_events(d, i)) == d,
        (pre + greedy_events(d, i)).len() <= pre.len() + (d.len() - i),
    decreases d.len() - i,
{
    if i == d.len() {
        assert(pre + greedy_events(d, i) =~= pre);
        assert(d.take(i) =~= d);
    } else {
        lemma_greedy_step(d, i, pre);
        lemma_match_at(d, i);
        let n = covered_at(d, i);
        let pre2 = pre.push(event_at(d, i));
        lemma_greedy_events(d, i + n, pre2);
        assert(pre + greedy_events(d, i) =~= pre2 + greedy_events(d, i + n));
    }
}

/// The events found for `data` are ones that DEFLATE can express, and they
/// replay to `data`.
pub proof fn law_lz77_replays(data: Seq<u8>)
    requires
        data.len() <= u32::MAX,
    ensures
        valid_events(greedy_events(data, 0)),
        replay(greedy_events(data, 0)) == data,
        greedy_events(data, 0).len() <= data.len(),
{
    assert(data.take(0) =~= Seq::<u8>::empty());
    assert(valid_events(Seq::empty())) by {
        reveal(valid_events);
    }
    lemma_greedy_events(data, 0, Seq::empty());
    assert(Seq::<Event>::empty() + greedy_events(data, 0) =~= greedy_events(data, 0));
}

fn hash3(d: &[u8], i: usize) -> (r: usize)
    requires
        hashable(d@, i as int),
    ensures
        r == hash_at(d@, i as int),
        r < HASH_SIZE,
{
    let h: u32 = ((d[i] as u32) << 10) ^ ((d[i + 1] as u32) << 5) ^ (d[i + 2] as u32);
    assert(h & 0x7FFF < 0x8000) by (bit_vector);
    (h & 0x7FFF) as usize
}

/// Distance symbol (0..=29) for a back-reference distance (1..=32768).
pub fn distance_to_sym(dist: u32) -> (r: u8)
    ensures
        r == base_index(DBASE@, dist as nat),
        r < 30,
{
    symbol_index(DBASE.as_slice(), dist) as u8
}

/// A chain link holds the position found, or the end mark.
spec fn links_to(link: u32, pos: Option<int>) -> bool {
    match pos {
        Some(j) => link == j && link != NO_POS,
        None => link == NO_POS,
    }
}

/// The hash chains hold every position below `i`.
spec fn chains_hold(d: Seq<u8>, head: Seq<u32>, prev: Seq<u32>, i: int) -> bool {
    &&& head.len() == HASH_SIZE
    &&& prev.len() == d.len()
    &&& forall|h: u32| h < HASH_SIZE ==> links_to(#[trigger] head[h as int], nearest(d, h, i))
    &&& forall|j: int|
        0 <= j < i && hashable(d, j) ==> links_to(
            #[trigger] prev[j],
            nearest(d, hash_at(d, j), j),
        )
}

/// Enter position `i` into the hash chains.
fn insert(data: &[u8], i: usize, head: &mut Vec<u32>, prev: &mut Vec<u32>)
    requires
        i < data@.len() <= u32::MAX,
        chains_hold(data@, old(head)@, old(prev)@, i as int),
    ensures
        chains_hold(data@, final(head)@, final(prev)@, i + 1),
{
    if data.len() - i >= MIN_MATCH {
        let h: usize = hash3(data, i);
        assert(links_to(head@[h as int], nearest(data@, h as u32, i as int)));
        prev[i] = head[h];
        head[h] = i as u32;
        proof {
            assert forall|g: u32| g < HASH_SIZE implies links_to(
                #[trigger] head@[g as int],
                nearest(data@, g, i + 1),
            ) by {
                if g != h {
                    assert(links_to(old(head)@[g as int], nearest(data@, g, i as int)));
                }
            }
            assert forall|j: int| 0 <= j < i + 1 && hashable(data@, j) implies links_to(
                #[trigger] prev@[j],
                nearest(data@, hash_at(data@, j), j),
            ) by {
                if j < i {
                    assert(links_to(old(prev)@[j], nearest(data@, hash_at(data@, j), j)));
                }
            }
        }
    } else {
        assert forall|g: u32| g < HASH_SIZE implies links_to(
            #[trigger] head@[g as int],
            nearest(data@, g, i + 1),
        ) by {
            assert(links_to(old(head)@[g as int], nearest(data@, g, i as int)));
        }
    }
}

/// Length of the common run of the bytes at `c` and at `i`.
fn common_len(data: &[u8], c: usize, i: usize, max_len: usize) -> (r: usize)
    requires
        c < i,
        i + max_len <= data@.len(),
    ensures
        r == match_end(data@, c as int, i as int, 0, max_len as int),
{
    let mut l: usize = 0;
    let n: usize = data.len();
    while l < max_len && data[c + l] == data[i + l]
        invariant
            c < i,
            n == data@.len(),
            i + max_len <= data@.len(),
            l <= max_len,
            match_end(data@, c as int, i as int, 0, max_len as int) == match_end(
                data@,
                c as int,
                i as int,
                l as int,
                max_len as int,
            ),
        decreases max_len - l,
    {
        l = l + 1;
    }
    l
}

/// The best match at `i`, as `(length, distance)`.
fn find_match(data: &[u8], i: usize, head: &Vec<u32>, prev: &Vec<u32>) -> (r: (usize, usize))
    requires
        i < data@.len() <= u32::MAX,
        chains_hold(data@, head@, prev@, i as int),
    ensures
        (r.0 as int, r.1 as int) == match_at(data@, i as int),
{
    let mut best_len: usize = 0;
    let mut best_dist: usize = 0;
    if data.len() - i >= MIN_MATCH {
        let left: usize = data.len() - i;
        let max_len: usize = if left < MAX_MATCH {
            left
        } else {
            MAX_MATCH
        };
        let h: usize = hash3(data, i);
        let mut cand: u32 = head[h];
        let mut chain: usize = 0;
        let ghost mut at: Option<int> = nearest(data@, h as u32, i as int);
        proof {
            assert(links_to(head@[h as int], at));
            lemma_nearest(data@, h as u32, i as int);
        }
        while cand != NO_POS && chain < MAX_CHAIN
            invariant_except_break
                hashable(data@, i as int),
                data@.len() <= u32::MAX,
                chains_hold(data@, head@, prev@, i as int),
                h == hash_at(data@, i as int),
                max_len == match_limit(data@, i as int),
                chain <= MAX_CHAIN,
                links_to(cand, at),
                at matches Some(c) ==> 0 <= c < i && hashable(data@, c) && hash_at(data@, c) == h,
                best_match(data@, i as int, at, chain as int, (best_len as int, best_dist as int))
                    == match_at(data@, i as int),
            ensures
                (best_len as int, best_dist as int) == match_at(data@, i as int),
            decreases MAX_CHAIN - chain,
        {
            let c: usize = cand as usize;
            if i - c > WINDOW {
                break;
            }
            let l: usize = common_len(data, c, i, max_len);
            if l > best_len {
                best_len = l;
                best_dist = i - c;
                if l >= max_len {
                    break;
                }
            }
            proof {
                assert(links_to(prev@[c as int], nearest(data@, hash_at(data@, c as int), c as int)));
                at = nearest(data@, h as u32, c as int);
                lemma_nearest(data@, h as u32, c as int);
            }
            cand = prev[c];
            chain = chain + 1;
        }
    }
    (best_len, best_dist)
}

/// Greedy LZ77 over `data`: emit a back-reference at each position with a
/// match of length >= 3 in the window, else a literal.
pub fn lz77(data: &[u8]) -> (r: Vec<Event>)
    requires
        data@.len() <= u32::MAX,
    ensures
        r@ == greedy_events(data@, 0),
{
    let mut events: Vec<Event> = Vec::new();
    let mut head: Vec<u32> = Vec::new();
    let mut k: usize = 0;
    while k < HASH_SIZE
        invariant
            k <= HASH_SIZE,
            head@.len() == k,
            forall|j: int| 0 <= j < k ==> head@[j] == NO_POS,
        decreases HASH_SIZE - k,
    {
        head.push(NO_POS);
        k = k + 1;
    }
    let mut prev: Vec<u32> = Vec::new();
    let mut m: usize = 0;
    while m < data.len()
        invariant
            m <= data@.len(),
            prev@.len() == m,
        decreases data@.len() - m,
    {
        prev.push(NO_POS);
        m = m + 1;
    }
    let mut i: usize = 0;
    assert(events@ + greedy_events(data@, 0) =~= greedy_events(data@, 0));
    while i < data.len()
        invariant
            i <= data@.len() <= u32::MAX,
            chains_hold(data@, head@, prev@, i as int),
            events@ + greedy_events(data@, i as int) == greedy_events(data@, 0),
        decreases data@.len() - i,
    {
        let (best_len, best_dist) = find_match(data, i, &head, &prev);
        let ghost sofar = events@;
        proof {
            lemma_match_at(data@, i as int);
        }
        let next: usize;
        if best_len >= MIN_MATCH {
            events.push(
                Event::Ref(
                    RefEvent {
                        out_pos: i as u32,
                        src_out_pos: (i - best_dist) as u32,
                        dist_bit_start: 0,
                        copy_len: best_len as u16,
                        dist_sym: distance_to_sym(best_dist as u32),
                    },
                ),
            );
            next = i + best_len;
        } else {
            events.push(
                Event::Lit(LitEvent { out_pos: i as u32, bit_start: 0, symbol: data[i] }),
            );
            next = i + 1;
        }
        proof {
            assert(events@.last() == event_at(data@, i as int));
            assert(events@ + greedy_events(data@, next as int) =~= sofar + greedy_events(
                data@,
                i as int,
            ));
        }
        while i < next
            invariant
                i <= next <= data@.len() <= u32::MAX,
                chains_hold(data@, head@, prev@, i as int),
            decreases next - i,
        {
            insert(data, i, &mut head, &mut prev);
            i = i + 1;
        }
    }
    assert(events@ + greedy_events(data@, data@.len() as int) =~= events@);
    events
}

/// How many of the positions from `a` up to `b` share the hash `h`.
pub open spec fn same_hash(d: Seq<u8>, h: u32, a: int, b: int) -> int
    decreases b - a,
{
    if b <= a {
        0
    } else {
        same_hash(d, h, a, b - 1) + (if hashable(d, b - 1) && hash_at(d, b - 1) == h {
            1int
        } else {
            0
        })
    }
}

proof fn lemma_same_hash(d: Seq<u8>, h: u32, a: int, b: int)
    ensures
        0 <= same_hash(d, h, a, b),
    decreases b - a,
{
    if b > a {
        lemma_same_hash(d, h, a, b - 1);
    }
}

/// Whatever the chain reaches is no longer than the match taken.
proof fn lemma_best_covers(
    d: Seq<u8>,
    i: int,
    j: int,
    chain: int,
    best: (int, int),
    c: int,
    len: int,
)
    requires
        0 <= c < j <= i,
        hashable(d, i),
        hash_at(d, c) == hash_at(d, i),
        hashable(d, c),
        i - c <= WINDOW,
        0 <= chain,
        chain + same_hash(d, hash_at(d, i), c + 1, j) < MAX_CHAIN,
        0 <= len <= match_limit(d, i),
        forall|k: int| 0 <= k < len ==> d[c + k] == #[trigger] d[i + k],
    ensures
        best_match(d, i, nearest(d, hash_at(d, i), j), chain, best).0 >= len,
        best_match(d, i, nearest(d, hash_at(d, i), j), chain, best).0 >= best.0,
    decreases j,
{
    let h = hash_at(d, i);
    if hashable(d, j - 1) && hash_at(d, j - 1) == h {
        let p = j - 1;
        lemma_same_hash(d, h, c + 1, p);
        let l = match_end(d, p, i, 0, match_limit(d, i));
        let better = if l > best.0 {
            (l, i - p)
        } else {
            best
        };
        if p == c {
            lemma_match_reaches(d, c, i, 0, match_limit(d, i), len);
            if !(l > best.0 && l >= match_limit(d, i)) {
                lemma_best_grows(d, i, nearest(d, h, p), chain + 1, better);
            }
        } else if l > best.0 && l >= match_limit(d, i) {
        } else {
            lemma_best_covers(d, i, p, chain + 1, better, c, len);
        }
    } else {
        lemma_best_covers(d, i, j - 1, chain, best, c, len);
    }
}

proof fn lemma_best_grows(d: Seq<u8>, i: int, cand: Option<int>, chain: int, best: (int, int))
    ensures
        best_match(d, i, cand, chain, best).0 >= best.0,
    decreases MAX_CHAIN - chain,
{
    if let Some(c) = cand {
        if chain < MAX_CHAIN && i - c <= WINDOW {
            let l = match_end(d, c, i, 0, match_limit(d, i));
            let next = nearest(d, hash_at(d, i), c);
            if l > best.0 {
                lemma_best_grows(d, i, next, chain + 1, (l, i - c));
            } else {
                lemma_best_grows(d, i, next, chain + 1, best);
            }
        }
    }
}

proof fn lemma_match_reaches(d: Seq<u8>, c: int, i: int, l: int, max: int, len: int)
    requires
        0 <= l <= len <= max,
        forall|k: int| 0 <= k < len ==> d[c + k] == #[trigger] d[i + k],
    ensures
        match_end(d, c, i, l, max) >= len,
    decreases max - l,
{
    if l < len {
        assert(d[c + l] == d[i + l]);
        lemma_match_reaches(d, c, i, l + 1, max, len);
    } else {
        lemma_end_behind(d, c, i, l, max);
    }
}

proof fn lemma_end_behind(d: Seq<u8>, c: int, i: int, l: int, max: int)
    ensures
        match_end(d, c, i, l, max) >= l,
    decreases max - l,
{
    if l < max && d[c + l] == d[i + l] {
        lemma_end_behind(d, c, i, l + 1, max);
    }
}

/// The match taken is the longest in reach: wherever the bytes from `i` on
/// stood before, at most 32768 back and with fewer than 128 positions between
/// that hash alike, the match taken is at least as long; so a literal is
/// written only where three bytes are nowhere in reach.
pub proof fn law_longest_match(d: Seq<u8>, i: int, c: int, len: int)
    requires
        0 <= c < i,
        i - c <= 32768,
        3 <= len <= 258,
        i + len <= d.len(),
        forall|k: int| 0 <= k < len ==> d[c + k] == #[trigger] d[i + k],
        same_hash(d, hash_at(d, i), c + 1, i) < 128,
    ensures
        match_at(d, i).0 >= len,
        event_at(d, i) is Ref,
        event_at(d, i)->Ref_0.copy_len >= len,
{
    assert(d[c] == d[i] && d[c + 1] == d[i + 1] && d[c + 2] == d[i + 2]) by {
        assert(d[i + 0] == d[c + 0]);
        assert(d[i + 1] == d[c + 1]);
        assert(d[i + 2] == d[c + 2]);
    }
    lemma_best_covers(d, i, i, 0, (0, 0), c, len);
    lemma_match_at(d, i);
}

} // verus!
