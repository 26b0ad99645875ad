//! Optimal length-limited code lengths from symbol frequencies: the
//! package-merge algorithm, the complement of `build_tree`'s lengths -> codes.
//!
//! Everything the algorithm builds is determined by the leaf weights in
//! ascending order: level 0 is the leaves, and level `k + 1` merges the leaves
//! with the packages (adjacent pairs) of level `k`. Choosing the first
//! `2n - 2` items of the last level chooses a prefix of every level, and the
//! length of a leaf's code is the number of levels whose prefix holds it.

use vstd::arithmetic::power2::{
    lemma2_to64, lemma_pow2_adds, lemma_pow2_pos, lemma_pow2_unfold, pow2,
};
use vstd::prelude::*;

use super::canonical::{check_lengths, coded_count, kraft, lemma_max_len, max_len};

verus! {

// The coded symbols in ascending order of weight.

/// Where weight `w` goes in `order`, of which only the first `m` are looked at:
/// behind everything that does not weigh more.
pub open spec fn insert_pos(weights: Seq<u32>, order: Seq<int>, w: u32, m: int) -> int
    decreases m,
{
    if m <= 0 {
        0
    } else if weights[order[m - 1]] > w {
        insert_pos(weights, order, w, m - 1)
    } else {
        m
    }
}

/// The symbols below `n` that occur, lightest first, equals in symbol order.
pub open spec fn by_weight(weights: Seq<u32>, n: int) -> Seq<int>
    decreases n,
{
    if n <= 0 {
        Seq::empty()
    } else {
        let order = by_weight(weights, n - 1);
        if weights[n - 1] == 0 {
            order
        } else {
            order.insert(insert_pos(weights, order, weights[n - 1], order.len() as int), n - 1)
        }
    }
}

/// The weights of the coded symbols, ascending.
pub open spec fn leaf_weights(weights: Seq<u32>) -> Seq<int> {
    let order = by_weight(weights, weights.len() as int);
    Seq::new(order.len(), |r: int| weights[order[r]] as int)
}

// Levels.

/// Of the first `s` items of the merge of `a` and `b`, how many come from `a`;
/// on equal weights `a` goes first.
pub open spec fn taken(a: Seq<int>, b: Seq<int>, s: int) -> int
    decreases s,
{
    if s <= 0 {
        0
    } else {
        let i = taken(a, b, s - 1);
        let j = s - 1 - i;
        if i < a.len() && (j >= b.len() || a[i] <= b[j]) {
            i + 1
        } else {
            i
        }
    }
}

/// The merge of two ascending lists.
pub open spec fn merged(a: Seq<int>, b: Seq<int>) -> Seq<int> {
    Seq::new(
        a.len() + b.len(),
        |s: int|
            if taken(a, b, s + 1) > taken(a, b, s) {
                a[taken(a, b, s)]
            } else {
                b[s - taken(a, b, s)]
            },
    )
}

/// The weights of the adjacent pairs.
pub open spec fn paired(level: Seq<int>) -> Seq<int> {
    Seq::new((level.len() / 2) as nat, |i: int| level[2 * i] + level[2 * i + 1])
}

/// The packages that take part in level `k`.
pub open spec fn packages(leaves: Seq<int>, k: int) -> Seq<int>
    decreases k,
{
    if k <= 0 {
        Seq::empty()
    } else {
        paired(merged(leaves, packages(leaves, k - 1)))
    }
}

/// Level `k`.
pub open spec fn level(leaves: Seq<int>, k: int) -> Seq<int> {
    merged(leaves, packages(leaves, k))
}

// Selection.

/// How many items of the last of `depth` levels are chosen.
pub open spec fn chosen_last(leaves: Seq<int>, depth: int) -> int {
    let want = 2 * leaves.len() - 2;
    let have = level(leaves, depth - 1).len();
    if want <= have {
        want
    } else {
        have as int
    }
}

/// How many items of level `k` of `depth` are chosen: the members of the
/// packages chosen on the level above.
pub open spec fn chosen(leaves: Seq<int>, depth: int, k: int) -> int
    decreases depth - k, 0int,
{
    if k >= depth - 1 {
        chosen_last(leaves, depth)
    } else {
        2 * (chosen(leaves, depth, k + 1) - chosen_leaves(leaves, depth, k + 1))
    }
}

/// How many leaves are among the chosen items of level `k`.
pub open spec fn chosen_leaves(leaves: Seq<int>, depth: int, k: int) -> int
    decreases depth - k, 1int,
{
    taken(leaves, packages(leaves, k), chosen(leaves, depth, k))
}

/// In how many of the levels from `k` on the leaf of rank `r` is chosen.
pub open spec fn leaf_depth(leaves: Seq<int>, depth: int, r: int, k: int) -> int
    decreases depth - k,
{
    if k >= depth {
        0
    } else {
        leaf_depth(leaves, depth, r, k + 1) + (if r < chosen_leaves(leaves, depth, k) {
            1int
        } else {
            0int
        })
    }
}

/// The code length of the leaf of rank `r`.
pub open spec fn leaf_length(leaves: Seq<int>, depth: int, r: int) -> int {
    if leaves.len() == 1 {
        1
    } else {
        leaf_depth(leaves, depth, r, 0)
    }
}

/// The code lengths with those of the `n` lightest symbols filled in.
pub open spec fn filled_lengths(weights: Seq<u32>, depth: int, n: int) -> Seq<u8>
    decreases n,
{
    if n <= 0 {
        Seq::new(weights.len(), |i: int| 0u8)
    } else {
        filled_lengths(weights, depth, n - 1).update(
            by_weight(weights, weights.len() as int)[n - 1],
            leaf_length(leaf_weights(weights), depth, n - 1) as u8,
        )
    }
}

/// The code lengths for `weights`, none longer than `depth`.
pub open spec fn pm_lengths(weights: Seq<u32>, depth: int) -> Seq<u8> {
    filled_lengths(weights, depth, leaf_weights(weights).len() as int)
}

// The order by weight.

/// `order` holds distinct occurring symbols below `n`, lightest first.
pub open spec fn is_order(weights: Seq<u32>, order: Seq<int>, n: int) -> bool {
    &&& forall|r: int| 0 <= r < order.len() ==> 0 <= #[trigger] order[r] < n
    &&& forall|r: int| 0 <= r < order.len() ==> weights[#[trigger] order[r]] > 0
    &&& forall|r: int, t: int| 0 <= r < t < order.len() ==> order[r] != order[t]
    &&& forall|r: int, t: int|
        0 <= r <= t < order.len() ==> weights[#[trigger] order[r]] <= weights[#[trigger] order[t]]
}

pub proof fn lemma_insert_pos(weights: Seq<u32>, order: Seq<int>, w: u32, m: int)
    requires
        0 <= m <= order.len(),
        forall|r: int| m <= r < order.len() ==> weights[#[trigger] order[r]] > w,
    ensures
        0 <= insert_pos(weights, order, w, m) <= m,
        insert_pos(weights, order, w, m) > 0 ==> weights[order[insert_pos(weights, order, w, m)
            - 1]] <= w,
        forall|r: int|
            insert_pos(weights, order, w, m) <= r < order.len() ==> weights[#[trigger] order[r]]
                > w,
    decreases m,
{
    if m > 0 && weights[order[m - 1]] > w {
        lemma_insert_pos(weights, order, w, m - 1);
    }
}

/// Putting symbol `n - 1` behind everything that does not weigh more keeps the
/// order.
proof fn lemma_insert_keeps_order(weights: Seq<u32>, order: Seq<int>, n: int, pos: int)
    requires
        1 <= n <= weights.len(),
        weights[n - 1] > 0,
        is_order(weights, order, n - 1),
        0 <= pos <= order.len(),
        pos > 0 ==> weights[order[pos - 1]] <= weights[n - 1],
        forall|r: int| pos <= r < order.len() ==> weights[#[trigger] order[r]] > weights[n - 1],
        forall|i: int| 0 <= i < n - 1 && #[trigger] weights[i] > 0 ==> order.contains(i),
    ensures
        is_order(weights, order.insert(pos, n - 1), n),
        forall|i: int|
            0 <= i < n && #[trigger] weights[i] > 0 ==> order.insert(pos, n - 1).contains(i),
{
    let next = order.insert(pos, n - 1);
    let w = weights[n - 1];
    assert forall|r: int| 0 <= r < next.len() implies #[trigger] next[r] == (if r < pos {
        order[r]
    } else if r == pos {
        n - 1
    } else {
        order[r - 1]
    }) by {}
    assert forall|i: int| 0 <= i < n && #[trigger] weights[i] > 0 implies next.contains(i) by {
        if i == n - 1 {
            assert(next[pos] == i);
        } else {
            let r = choose|r: int| 0 <= r < order.len() && order[r] == i;
            if r < pos {
                assert(next[r] == i);
            } else {
                assert(next[r + 1] == i);
            }
        }
    }
    assert forall|r: int, t: int| 0 <= r <= t < next.len() implies weights[#[trigger] next[r]]
        <= weights[#[trigger] next[t]] by {
        if r < pos && t == pos {
            assert(weights[order[r]] <= weights[order[pos - 1]]);
        }
    }
}

pub proof fn lemma_by_weight(weights: Seq<u32>, n: int)
    requires
        0 <= n <= weights.len(),
    ensures
        is_order(weights, by_weight(weights, n), n),
        by_weight(weights, n).len() <= n,
        forall|i: int|
            0 <= i < n && #[trigger] weights[i] > 0 ==> by_weight(weights, n).contains(i),
    decreases n,
{
    if n > 0 {
        lemma_by_weight(weights, n - 1);
        let order = by_weight(weights, n - 1);
        let w = weights[n - 1];
        if w != 0 {
            let pos = insert_pos(weights, order, w, order.len() as int);
            lemma_insert_pos(weights, order, w, order.len() as int);
            lemma_insert_keeps_order(weights, order, n, pos);
        } else {
            let order = by_weight(weights, n);
            assert forall|i: int| 0 <= i < n && #[trigger] weights[i] > 0 implies order.contains(
                i,
            ) by {
                assert(i < n - 1);
            }
        }
    }
}

// Merging.

/// Ascending, and every weight positive.
pub open spec fn ascending(s: Seq<int>) -> bool {
    &&& forall|i: int, j: int| 0 <= i <= j < s.len() ==> s[i] <= s[j]
    &&& forall|i: int| 0 <= i < s.len() ==> #[trigger] s[i] >= 1
}

/// Adjacent order is order.
proof fn lemma_adjacent(s: Seq<int>, i: int, j: int)
    requires
        0 <= i <= j < s.len(),
        forall|k: int| 0 <= k < s.len() - 1 ==> #[trigger] s[k] <= s[k + 1],
    ensures
        s[i] <= s[j],
    decreases j - i,
{
    if i < j {
        lemma_adjacent(s, i, j - 1);
        assert(s[j - 1] <= s[j - 1 + 1]);
    }
}

pub proof fn lemma_taken_bounds(a: Seq<int>, b: Seq<int>, s: int)
    requires
        0 <= s <= a.len() + b.len(),
    ensures
        0 <= taken(a, b, s) <= a.len(),
        0 <= s - taken(a, b, s) <= b.len(),
    decreases s,
{
    if s > 0 {
        lemma_taken_bounds(a, b, s - 1);
    }
}

/// What a prefix of the merge leaves out weighs no less than what it holds.
pub proof fn lemma_taken_split(a: Seq<int>, b: Seq<int>, s: int)
    requires
        0 <= s <= a.len() + b.len(),
        ascending(a),
        ascending(b),
    ensures
        ({
            let i = taken(a, b, s);
            let j = s - i;
            &&& i < a.len() && j >= 1 ==> b[j - 1] < a[i]
            &&& i >= 1 && j < b.len() ==> a[i - 1] <= b[j]
        }),
    decreases s,
{
    if s > 0 {
        lemma_taken_split(a, b, s - 1);
        lemma_taken_bounds(a, b, s - 1);
        lemma_taken_bounds(a, b, s);
    }
}

proof fn lemma_merged_ascending(a: Seq<int>, b: Seq<int>)
    requires
        ascending(a),
        ascending(b),
    ensures
        ascending(merged(a, b)),
{
    let m = merged(a, b);
    assert forall|s: int| 0 <= s < m.len() implies #[trigger] m[s] >= 1 by {
        lemma_taken_bounds(a, b, s);
        lemma_taken_bounds(a, b, s + 1);
    }
    assert forall|s: int| 0 <= s < m.len() - 1 implies #[trigger] m[s] <= m[s + 1] by {
        lemma_taken_bounds(a, b, s);
        lemma_taken_bounds(a, b, s + 1);
        lemma_taken_bounds(a, b, s + 2);
        lemma_taken_split(a, b, s + 1);
    }
    assert forall|i: int, j: int| 0 <= i <= j < m.len() implies m[i] <= m[j] by {
        lemma_adjacent(m, i, j);
    }
}

pub proof fn lemma_packages(leaves: Seq<int>, k: int)
    requires
        0 <= k,
        ascending(leaves),
    ensures
        ascending(packages(leaves, k)),
        ascending(level(leaves, k)),
    decreases k,
{
    if k > 0 {
        lemma_packages(leaves, k - 1);
        let below = level(leaves, k - 1);
        let p = packages(leaves, k);
        assert(p == paired(below));
        assert forall|i: int| 0 <= i < p.len() implies #[trigger] p[i] >= 1 by {
            assert(below[2 * i] >= 1 && below[2 * i + 1] >= 1);
        }
        assert forall|i: int, j: int| 0 <= i <= j < p.len() implies p[i] <= p[j] by {
            assert(below[2 * i] <= below[2 * j]);
            assert(below[2 * i + 1] <= below[2 * j + 1]);
        }
    }
    lemma_merged_ascending(leaves, packages(leaves, k));
}

/// What is still missing on level `k` from twice the number of leaves.
proof fn lemma_level_len(leaves: Seq<int>, k: int)
    requires
        0 <= k,
        leaves.len() >= 1,
    ensures
        level(leaves, k).len() < 2 * leaves.len(),
        (2 * leaves.len() - level(leaves, k).len() - 1) * pow2(k as nat) < leaves.len(),
    decreases k,
{
    lemma2_to64();
    if k > 0 {
        lemma_level_len(leaves, k - 1);
        lemma_pow2_unfold(k as nat);
        lemma_pow2_pos((k - 1) as nat);
        let n = leaves.len() as int;
        let d0 = 2 * n - level(leaves, k - 1).len() - 1;
        let d1 = 2 * n - level(leaves, k).len() - 1;
        let p = pow2((k - 1) as nat) as int;
        assert(d1 == d0 / 2);
        assert(d1 * (2 * p) <= d0 * p) by (nonlinear_arith)
            requires
                2 * d1 <= d0,
                p > 0,
        ;
    } else {
        let d = 2 * leaves.len() - level(leaves, 0).len() - 1;
        assert(d * 1 == d);
    }
}

pub proof fn lemma_chosen_last(leaves: Seq<int>, depth: int)
    requires
        depth >= 1,
        2 <= leaves.len() <= pow2(depth as nat),
    ensures
        chosen_last(leaves, depth) == 2 * leaves.len() - 2,
{
    lemma_level_len(leaves, depth - 1);
    lemma_pow2_unfold(depth as nat);
    lemma_pow2_pos((depth - 1) as nat);
    let d = 2 * leaves.len() - level(leaves, depth - 1).len() - 1;
    let p = pow2((depth - 1) as nat) as int;
    assert(d < 2) by (nonlinear_arith)
        requires
            d * p < 2 * p,
            p > 0,
    ;
}

pub proof fn lemma_chosen_bounds(leaves: Seq<int>, depth: int, k: int)
    requires
        0 <= k < depth,
        leaves.len() >= 1,
    ensures
        0 <= chosen(leaves, depth, k) <= level(leaves, k).len(),
        0 <= chosen_leaves(leaves, depth, k) <= leaves.len(),
        0 <= chosen(leaves, depth, k) - chosen_leaves(leaves, depth, k) <= packages(
            leaves,
            k,
        ).len(),
    decreases depth - k,
{
    if k < depth - 1 {
        lemma_chosen_bounds(leaves, depth, k + 1);
    }
    lemma_taken_bounds(leaves, packages(leaves, k), chosen(leaves, depth, k));
}

/// The step at which the leaf of rank `r` is taken.
proof fn lemma_taken_when(a: Seq<int>, b: Seq<int>, r: int, s: int) -> (i: int)
    requires
        0 <= r < taken(a, b, s),
        0 <= s,
    ensures
        0 <= i < s,
        taken(a, b, i) == r,
        taken(a, b, i + 1) == r + 1,
    decreases s,
{
    if taken(a, b, s - 1) > r {
        lemma_taken_when(a, b, r, s - 1)
    } else {
        s - 1
    }
}

/// A leaf chosen on one level is chosen on the next: the package that holds
/// it weighs more than the leaf itself.
proof fn lemma_chosen_nested(leaves: Seq<int>, depth: int, k: int)
    requires
        0 <= k < depth - 1,
        ascending(leaves),
        leaves.len() >= 1,
    ensures
        chosen_leaves(leaves, depth, k) <= chosen_leaves(leaves, depth, k + 1),
{
    let here = packages(leaves, k);
    let above = packages(leaves, k + 1);
    let s = chosen(leaves, depth, k + 1);
    let r = chosen_leaves(leaves, depth, k + 1);
    let p = s - r;
    lemma_chosen_bounds(leaves, depth, k + 1);
    lemma_chosen_bounds(leaves, depth, k);
    if chosen_leaves(leaves, depth, k) > r {
        let i = lemma_taken_when(leaves, here, r, 2 * p);
        lemma_packages(leaves, k);
        lemma_packages(leaves, k + 1);
        let below = level(leaves, k);
        assert(below[i] == leaves[r]);
        let q = i / 2;
        assert(above == paired(below));
        assert(above[q] == below[2 * q] + below[2 * q + 1]);
        assert(below[2 * q] >= 1 && below[2 * q + 1] >= 1);
        assert(above[q] > leaves[r]);
        lemma_taken_split(leaves, above, s);
        assert(above[q] <= above[p - 1]);
        assert(false);
    }
}

proof fn lemma_chosen_nested_far(leaves: Seq<int>, depth: int, k: int, m: int)
    requires
        0 <= k <= m < depth,
        ascending(leaves),
        leaves.len() >= 1,
    ensures
        chosen_leaves(leaves, depth, k) <= chosen_leaves(leaves, depth, m),
    decreases m - k,
{
    if k < m {
        lemma_chosen_nested_far(leaves, depth, k, m - 1);
        lemma_chosen_nested(leaves, depth, m - 1);
    }
}

// Prefixes of levels.

/// The weight of the first `m` items.
pub open spec fn prefix(s: Seq<int>, m: int) -> int
    decreases m,
{
    if m <= 0 {
        0
    } else {
        prefix(s, m - 1) + s[m - 1]
    }
}

pub proof fn lemma_prefix_grows(s: Seq<int>, m: int, n: int)
    requires
        ascending(s),
        0 <= m <= n <= s.len(),
    ensures
        0 <= prefix(s, m) <= prefix(s, n),
    decreases n,
{
    if n > 0 {
        assert(s[n - 1] >= 1);
        if m < n {
            lemma_prefix_grows(s, m, n - 1);
        } else {
            lemma_prefix_grows(s, m - 1, n - 1);
        }
    }
}

/// A prefix of the merge is a prefix of each part.
pub proof fn lemma_merged_prefix(a: Seq<int>, b: Seq<int>, s: int)
    requires
        0 <= s <= a.len() + b.len(),
    ensures
        prefix(merged(a, b), s) == prefix(a, taken(a, b, s)) + prefix(b, s - taken(a, b, s)),
    decreases s,
{
    if s > 0 {
        lemma_merged_prefix(a, b, s - 1);
        lemma_taken_bounds(a, b, s - 1);
        lemma_taken_bounds(a, b, s);
        let i = taken(a, b, s - 1);
        assert(merged(a, b)[s - 1] == if taken(a, b, s) > i {
            a[i]
        } else {
            b[s - 1 - i]
        });
    }
}

/// The first packages are the first items of the level below.
pub proof fn lemma_paired_prefix(below: Seq<int>, m: int)
    requires
        0 <= 2 * m <= below.len(),
    ensures
        prefix(paired(below), m) == prefix(below, 2 * m),
    decreases m,
{
    if m > 0 {
        lemma_paired_prefix(below, m - 1);
        assert(paired(below)[m - 1] == below[2 * (m - 1)] + below[2 * (m - 1) + 1]);
        assert(prefix(below, 2 * m) == prefix(below, 2 * m - 1) + below[2 * m - 1]);
        assert(prefix(below, 2 * m - 1) == prefix(below, 2 * m - 2) + below[2 * m - 2]);
    }
}

// Counting.

/// The code space of the chosen leaves of the first `m` levels.
spec fn chosen_space(leaves: Seq<int>, depth: int, m: int) -> int
    decreases m,
{
    if m <= 0 {
        0
    } else {
        chosen_space(leaves, depth, m - 1) + chosen_leaves(leaves, depth, m - 1) * pow2(
            (m - 1) as nat,
        )
    }
}

pub proof fn lemma_taken_empty(a: Seq<int>, s: int)
    requires
        0 <= s <= a.len(),
    ensures
        taken(a, Seq::empty(), s) == s,
    decreases s,
{
    if s > 0 {
        lemma_taken_empty(a, s - 1);
    }
}

proof fn lemma_chosen_space(leaves: Seq<int>, depth: int, m: int)
    requires
        1 <= m <= depth,
        leaves.len() >= 1,
    ensures
        chosen_space(leaves, depth, m) == chosen(leaves, depth, m - 1) * pow2((m - 1) as nat),
    decreases m,
{
    lemma_chosen_bounds(leaves, depth, m - 1);
    if m == 1 {
        lemma2_to64();
        lemma_taken_empty(leaves, chosen(leaves, depth, 0));
        assert(chosen_space(leaves, depth, 0) == 0);
        assert(chosen_leaves(leaves, depth, 0) == chosen(leaves, depth, 0));
    } else {
        lemma_chosen_space(leaves, depth, m - 1);
        lemma_pow2_unfold((m - 1) as nat);
        let s = chosen(leaves, depth, m - 1);
        let a = chosen_leaves(leaves, depth, m - 1);
        let p = pow2((m - 2) as nat) as int;
        assert(chosen(leaves, depth, m - 2) == 2 * (s - a));
        assert((2 * (s - a)) * p + a * (2 * p) == s * (2 * p)) by (nonlinear_arith);
    }
}

/// In how many of the first `m` levels the leaf of rank `r` is chosen.
spec fn depth_below(leaves: Seq<int>, depth: int, r: int, m: int) -> int
    decreases m,
{
    if m <= 0 {
        0
    } else {
        depth_below(leaves, depth, r, m - 1) + (if r < chosen_leaves(leaves, depth, m - 1) {
            1int
        } else {
            0int
        })
    }
}

proof fn lemma_depth_split(leaves: Seq<int>, depth: int, r: int, k: int)
    requires
        0 <= k <= depth,
    ensures
        depth_below(leaves, depth, r, k) + leaf_depth(leaves, depth, r, k) == depth_below(
            leaves,
            depth,
            r,
            depth,
        ),
    decreases depth - k,
{
    if k < depth {
        lemma_depth_split(leaves, depth, r, k + 1);
    }
}

/// The code space of the leaf of rank `r` on the first `m` levels.
spec fn leaf_space(leaves: Seq<int>, depth: int, r: int, m: int) -> int
    decreases m,
{
    if m <= 0 {
        0
    } else {
        leaf_space(leaves, depth, r, m - 1) + (if r < chosen_leaves(leaves, depth, m - 1) {
            pow2((m - 1) as nat) as int
        } else {
            0int
        })
    }
}

proof fn lemma_leaf_space(leaves: Seq<int>, depth: int, r: int, m: int)
    requires
        0 <= m <= depth,
        ascending(leaves),
        leaves.len() >= 1,
    ensures
        0 <= depth_below(leaves, depth, r, m) <= m,
        leaf_space(leaves, depth, r, m) == pow2(m as nat) - pow2(
            (m - depth_below(leaves, depth, r, m)) as nat,
        ),
    decreases m,
{
    if m > 0 {
        lemma_leaf_space(leaves, depth, r, m - 1);
        lemma_pow2_unfold(m as nat);
        if r >= chosen_leaves(leaves, depth, m - 1) {
            lemma_not_chosen_below(leaves, depth, r, m - 1, m - 1);
        }
    }
}

proof fn lemma_not_chosen_below(leaves: Seq<int>, depth: int, r: int, k: int, m: int)
    requires
        0 <= k <= m < depth,
        ascending(leaves),
        leaves.len() >= 1,
        r >= chosen_leaves(leaves, depth, m),
    ensures
        depth_below(leaves, depth, r, k) == 0,
        leaf_space(leaves, depth, r, k) == 0,
    decreases k,
{
    if k > 0 {
        lemma_not_chosen_below(leaves, depth, r, k - 1, m);
        lemma_chosen_nested_far(leaves, depth, k - 1, m);
    }
}

/// The code space of the `n` lightest leaves on the first `m` levels.
spec fn leaves_space(leaves: Seq<int>, depth: int, n: int, m: int) -> int
    decreases n,
{
    if n <= 0 {
        0
    } else {
        leaves_space(leaves, depth, n - 1, m) + leaf_space(leaves, depth, n - 1, m)
    }
}

proof fn lemma_leaves_space_step(leaves: Seq<int>, depth: int, n: int, m: int)
    requires
        0 <= n,
        0 <= m,
    ensures
        leaves_space(leaves, depth, n, m + 1) == leaves_space(leaves, depth, n, m) + (if n
            < chosen_leaves(leaves, depth, m) {
            n
        } else if chosen_leaves(leaves, depth, m) > 0 {
            chosen_leaves(leaves, depth, m)
        } else {
            0
        }) * pow2(m as nat),
    decreases n,
{
    if n > 0 {
        lemma_leaves_space_step(leaves, depth, n - 1, m);
        let p = pow2(m as nat) as int;
        let c = chosen_leaves(leaves, depth, m);
        assert(n * p == (n - 1) * p + p) by (nonlinear_arith);
        assert(leaf_space(leaves, depth, n - 1, m + 1) == leaf_space(leaves, depth, n - 1, m)
            + (if n - 1 < c {
            p
        } else {
            0
        }));
    } else {
        assert(0 * pow2(m as nat) == 0);
    }
}

proof fn lemma_leaves_space(leaves: Seq<int>, depth: int, m: int)
    requires
        0 <= m <= depth,
        leaves.len() >= 1,
    ensures
        leaves_space(leaves, depth, leaves.len() as int, m) == chosen_space(leaves, depth, m),
    decreases m,
{
    if m > 0 {
        lemma_leaves_space(leaves, depth, m - 1);
        lemma_leaves_space_step(leaves, depth, leaves.len() as int, m - 1);
        lemma_chosen_bounds(leaves, depth, m - 1);
    } else {
        lemma_leaves_space_zero(leaves, depth, leaves.len() as int);
    }
}

proof fn lemma_leaves_space_zero(leaves: Seq<int>, depth: int, n: int)
    requires
        0 <= n,
    ensures
        leaves_space(leaves, depth, n, 0) == 0,
    decreases n,
{
    if n > 0 {
        lemma_leaves_space_zero(leaves, depth, n - 1);
    }
}

/// The sum of `2^(depth - length)` over the `n` lightest leaves.
pub open spec fn claimed(leaves: Seq<int>, depth: int, n: int) -> int
    decreases n,
{
    if n <= 0 {
        0
    } else {
        claimed(leaves, depth, n - 1) + pow2(
            (depth - leaf_depth(leaves, depth, n - 1, 0)) as nat,
        )
    }
}

proof fn lemma_claimed(leaves: Seq<int>, depth: int, n: int)
    requires
        0 <= n,
        1 <= depth,
        ascending(leaves),
        leaves.len() >= 1,
    ensures
        claimed(leaves, depth, n) == n * pow2(depth as nat) - leaves_space(
            leaves,
            depth,
            n,
            depth,
        ),
        n <= claimed(leaves, depth, n),
        forall|r: int|
            0 <= r < n ==> 0 <= #[trigger] leaf_depth(leaves, depth, r, 0) <= depth && pow2(
                (depth - leaf_depth(leaves, depth, r, 0)) as nat,
            ) <= claimed(leaves, depth, n) - (n - 1),
    decreases n,
{
    if n > 0 {
        lemma_claimed(leaves, depth, n - 1);
        lemma_depth_split(leaves, depth, n - 1, 0);
        lemma_leaf_space(leaves, depth, n - 1, depth);
        let p = pow2(depth as nat) as int;
        assert(n * p == (n - 1) * p + p) by (nonlinear_arith);
        lemma_pow2_pos((depth - leaf_depth(leaves, depth, n - 1, 0)) as nat);
    }
}

/// The chosen lengths claim the code space exactly, and every leaf has one.
pub proof fn lemma_leaf_lengths(leaves: Seq<int>, depth: int)
    requires
        1 <= depth,
        ascending(leaves),
        2 <= leaves.len() <= pow2(depth as nat),
    ensures
        claimed(leaves, depth, leaves.len() as int) == pow2(depth as nat),
        forall|r: int|
            0 <= r < leaves.len() ==> 1 <= #[trigger] leaf_depth(leaves, depth, r, 0) <= depth,
{
    let n = leaves.len() as int;
    lemma_chosen_last(leaves, depth);
    lemma_chosen_space(leaves, depth, depth);
    lemma_leaves_space(leaves, depth, depth);
    lemma_claimed(leaves, depth, n);
    lemma_pow2_unfold(depth as nat);
    let q = pow2((depth - 1) as nat) as int;
    assert(n * (2 * q) - (2 * n - 2) * q == 2 * q) by (nonlinear_arith);
    assert forall|r: int| 0 <= r < n implies 1 <= #[trigger] leaf_depth(leaves, depth, r, 0)
        <= depth by {}
}

// From leaves to symbols.

proof fn lemma_kraft_update(lengths: Seq<u32>, m: nat, i: int, v: u32)
    requires
        0 <= i < lengths.len(),
        lengths[i] == 0,
        v > 0,
    ensures
        kraft(lengths.update(i, v), m) == kraft(lengths, m) + pow2((m - v) as nat),
        coded_count(lengths.update(i, v)) == coded_count(lengths) + 1,
    decreases lengths.len(),
{
    let next = lengths.update(i, v);
    if i == lengths.len() - 1 {
        assert(next.drop_last() =~= lengths.drop_last());
    } else {
        lemma_kraft_update(lengths.drop_last(), m, i, v);
        assert(next.drop_last() =~= lengths.drop_last().update(i, v));
    }
}

proof fn lemma_kraft_zero(lengths: Seq<u32>, m: nat)
    requires
        forall|i: int| 0 <= i < lengths.len() ==> lengths[i] == 0,
    ensures
        kraft(lengths, m) == 0,
        coded_count(lengths) == 0,
        max_len(lengths) == 0,
    decreases lengths.len(),
{
    if lengths.len() > 0 {
        assert(lengths.last() == lengths[lengths.len() - 1]);
        lemma_kraft_zero(lengths.drop_last(), m);
    }
}

/// Longer patterns scale the claimed space.
proof fn lemma_kraft_scale(lengths: Seq<u32>, m: nat, depth: nat)
    requires
        m <= depth,
        forall|i: int| 0 <= i < lengths.len() ==> #[trigger] lengths[i] <= m,
    ensures
        kraft(lengths, depth) == kraft(lengths, m) * pow2((depth - m) as nat),
    decreases lengths.len(),
{
    let f = pow2((depth - m) as nat);
    if lengths.len() == 0 {
        assert(0 * f == 0);
    } else {
        let init = lengths.drop_last();
        assert forall|i: int| 0 <= i < init.len() implies #[trigger] init[i] <= m by {
            assert(init[i] == lengths[i]);
        }
        lemma_kraft_scale(init, m, depth);
        let l = lengths.last();
        assert(l == lengths[lengths.len() - 1]);
        if l > 0 {
            lemma_pow2_adds((m - l) as nat, (depth - m) as nat);
            let a = kraft(init, m);
            let b = pow2((m - l) as nat);
            assert((a + b) * f == a * f + b * f) by (nonlinear_arith);
        }
    }
}

/// A length table as the table builder takes it.
pub open spec fn widened(lengths: Seq<u8>) -> Seq<u32> {
    Seq::new(lengths.len(), |i: int| lengths[i] as u32)
}

proof fn lemma_filled_lengths(weights: Seq<u32>, depth: int, n: int)
    requires
        1 <= depth <= 255,
        0 <= n <= leaf_weights(weights).len(),
        2 <= leaf_weights(weights).len() <= pow2(depth as nat),
    ensures
        ({
            let order = by_weight(weights, weights.len() as int);
            let out = filled_lengths(weights, depth, n);
            &&& out.len() == weights.len()
            &&& kraft(widened(out), depth as nat) == claimed(leaf_weights(weights), depth, n)
            &&& forall|i: int| 0 <= i < out.len() ==> #[trigger] out[i] <= depth
            &&& forall|i: int|
                0 <= i < out.len() && (forall|r: int| 0 <= r < n ==> #[trigger] order[r] != i)
                    ==> #[trigger] out[i] == 0
            &&& forall|r: int| 0 <= r < n ==> out[#[trigger] order[r]] > 0
        }),
    decreases n,
{
    let order = by_weight(weights, weights.len() as int);
    let leaves = leaf_weights(weights);
    lemma_by_weight(weights, weights.len() as int);
    lemma_leaves_ascending(weights);
    lemma_leaf_lengths(leaves, depth);
    let out = filled_lengths(weights, depth, n);
    if n == 0 {
        lemma_kraft_zero(widened(out), depth as nat);
    } else {
        lemma_filled_lengths(weights, depth, n - 1);
        let before = filled_lengths(weights, depth, n - 1);
        let i = order[n - 1];
        assert(before[i] == 0);
        let l = leaf_depth(leaves, depth, n - 1, 0);
        assert(1 <= l <= depth);
        lemma_kraft_update(widened(before), depth as nat, i, l as u32);
        assert(widened(before).update(i, l as u32) =~= widened(out));
        assert forall|j: int|
            0 <= j < out.len() && (forall|r: int| 0 <= r < n ==> #[trigger] order[r] != j) implies #[trigger] out[j]
            == 0 by {
            assert(order[n - 1] != j);
            assert(before[j] == 0);
        }
        assert forall|r: int| 0 <= r < n implies out[#[trigger] order[r]] > 0 by {
            if r < n - 1 {
                assert(order[r] != order[n - 1]);
            }
        }
    }
}

pub proof fn lemma_leaves_ascending(weights: Seq<u32>)
    ensures
        ascending(leaf_weights(weights)),
        leaf_weights(weights).len() <= weights.len(),
{
    lemma_by_weight(weights, weights.len() as int);
    let order = by_weight(weights, weights.len() as int);
    let leaves = leaf_weights(weights);
    assert forall|r: int, t: int| 0 <= r <= t < leaves.len() implies leaves[r] <= leaves[t] by {
        assert(weights[order[r]] <= weights[order[t]]);
    }
}

/// Package-merge gives every occurring symbol a code and no other symbol one,
/// keeps to the length limit, and claims the code space exactly (a lone symbol
/// gets the one-bit code that is allowed to claim half).
pub proof fn law_package_merge_complete(weights: Seq<u32>, depth: int)
    requires
        1 <= depth <= 15,
        leaf_weights(weights).len() <= pow2(depth as nat),
    ensures
        pm_lengths(weights, depth).len() == weights.len(),
        check_lengths(widened(pm_lengths(weights, depth))) is Ok,
        forall|i: int|
            0 <= i < weights.len() ==> (#[trigger] pm_lengths(weights, depth)[i] > 0) == (
            weights[i] > 0),
        forall|i: int| 0 <= i < weights.len() ==> #[trigger] pm_lengths(weights, depth)[i] <= depth,
{
    let order = by_weight(weights, weights.len() as int);
    let leaves = leaf_weights(weights);
    let n = leaves.len() as int;
    let out = pm_lengths(weights, depth);
    let wide = widened(out);
    lemma_by_weight(weights, weights.len() as int);
    lemma2_to64();
    if n == 0 {
        lemma_kraft_zero(wide, depth as nat);
        assert forall|i: int| 0 <= i < weights.len() implies weights[i] == 0 by {
            if weights[i] > 0 {
                assert(order.contains(i));
            }
        }
    } else if n == 1 {
        let zero = filled_lengths(weights, depth, 0);
        let i = order[0];
        reveal_with_fuel(filled_lengths, 2);
        assert(out == zero.update(i, 1u8));
        lemma_kraft_zero(widened(zero), 1);
        lemma_kraft_update(widened(zero), 1, i, 1);
        assert(wide =~= widened(zero).update(i, 1u32));
        lemma_max_len(wide);
        assert(wide[i] == 1);
        assert forall|j: int| 0 <= j < wide.len() implies #[trigger] wide[j] <= 1 by {}
        assert(max_len(wide) == 1);
        assert forall|j: int| 0 <= j < weights.len() implies (#[trigger] out[j] > 0) == (weights[j]
            > 0) by {
            if weights[j] > 0 {
                assert(order.contains(j));
                let r = choose|r: int| 0 <= r < order.len() && order[r] == j;
            }
        }
    } else {
        lemma_filled_lengths(weights, depth, n);
        lemma_leaves_ascending(weights);
        lemma_leaf_lengths(leaves, depth);
        lemma_max_len(wide);
        let m = max_len(wide);
        assert forall|j: int| 0 <= j < wide.len() implies #[trigger] wide[j] <= m && wide[j]
            <= depth by {
            assert(out[j] <= depth);
        }
        assert(wide[order[0]] > 0) by {
            assert(out[order[0]] > 0);
        }
        let top = choose|s: int| 0 <= s < wide.len() && #[trigger] wide[s] == m;
        assert(m <= depth);
        lemma_kraft_scale(wide, m, depth as nat);
        lemma_pow2_adds(m, (depth - m) as nat);
        lemma_pow2_pos((depth - m) as nat);
        let f = pow2((depth - m) as nat) as int;
        let x = kraft(wide, m) as int;
        let y = pow2(m) as int;
        assert(x == y) by (nonlinear_arith)
            requires
                x * f == y * f,
                f > 0,
        ;
        assert forall|j: int| 0 <= j < weights.len() implies (#[trigger] out[j] > 0) == (weights[j]
            > 0) by {
            if weights[j] > 0 {
                assert(order.contains(j));
                let r = choose|r: int| 0 <= r < order.len() && order[r] == j;
                assert(out[order[r]] > 0);
            } else {
                assert forall|r: int| 0 <= r < n implies #[trigger] order[r] != j by {}
            }
        }
    }
}

/// Machine numbers as mathematical ones.
spec fn ints(v: Seq<u64>) -> Seq<int> {
    Seq::new(v.len(), |i: int| v[i] as int)
}

spec fn indices(v: Seq<usize>) -> Seq<int> {
    Seq::new(v.len(), |i: int| v[i] as int)
}

/// The occurring symbols, lightest first, equals in symbol order.
fn sort_by_weight(weights: &[u32]) -> (order: Vec<usize>)
    ensures
        indices(order@) == by_weight(weights@, weights@.len() as int),
{
    let mut order: Vec<usize> = Vec::new();
    let mut n: usize = 0;
    assert(indices(order@) =~= by_weight(weights@, 0));
    while n < weights.len()
        invariant
            n <= weights@.len(),
            indices(order@) == by_weight(weights@, n as int),
        decreases weights@.len() - n,
    {
        proof {
            lemma_by_weight(weights@, n as int);
        }
        let w: u32 = weights[n];
        if w > 0 {
            let ghost sorted = indices(order@);
            let mut m: usize = order.len();
            proof {
                assert forall|r: int| 0 <= r < order@.len() implies order@[r] < weights@.len() by {
                    assert(sorted[r] < n);
                }
            }
            while m > 0 && weights[order[m - 1]] > w
                invariant
                    m <= order@.len(),
                    sorted == indices(order@),
                    forall|r: int| 0 <= r < order@.len() ==> order@[r] < weights@.len(),
                    insert_pos(weights@, sorted, w, sorted.len() as int) == insert_pos(
                        weights@,
                        sorted,
                        w,
                        m as int,
                    ),
                decreases m,
            {
                assert(sorted[m - 1] == order@[m - 1]);
                m = m - 1;
            }
            proof {
                if m > 0 {
                    assert(sorted[m - 1] == order@[m - 1]);
                }
            }
            order.insert(m, n);
            assert(indices(order@) =~= sorted.insert(m as int, n as int));
        }
        n = n + 1;
    }
    order
}

/// Merge the leaves with a level's packages: the merged weights, and for every
/// prefix how many leaves it holds.
fn merge_level(leaves: &Vec<u64>, pairs: &Vec<u64>) -> (r: (Vec<u64>, Vec<usize>))
    requires
        leaves@.len() + pairs@.len() < usize::MAX,
    ensures
        ints(r.0@) == merged(ints(leaves@), ints(pairs@)),
        r.1@.len() == r.0@.len() + 1,
        forall|s: int|
            0 <= s < r.1@.len() ==> #[trigger] r.1@[s] == taken(ints(leaves@), ints(pairs@), s),
{
    let total: usize = leaves.len() + pairs.len();
    let mut items: Vec<u64> = Vec::new();
    let mut counts: Vec<usize> = Vec::new();
    let mut i: usize = 0;
    let mut s: usize = 0;
    let ghost a = ints(leaves@);
    let ghost b = ints(pairs@);
    counts.push(0);
    while s < total
        invariant
            s <= total,
            total == leaves@.len() + pairs@.len(),
            total < usize::MAX,
            a == ints(leaves@),
            b == ints(pairs@),
            items@.len() == s,
            counts@.len() == s + 1,
            i == taken(a, b, s as int),
            forall|t: int| 0 <= t < items@.len() ==> #[trigger] items@[t] == merged(a, b)[t],
            forall|t: int| 0 <= t < counts@.len() ==> #[trigger] counts@[t] == taken(a, b, t),
        decreases total - s,
    {
        proof {
            lemma_taken_bounds(a, b, s as int);
            lemma_taken_bounds(a, b, s + 1);
        }
        let j: usize = s - i;
        if i < leaves.len() && (j >= pairs.len() || leaves[i] <= pairs[j]) {
            items.push(leaves[i]);
            i = i + 1;
        } else {
            items.push(pairs[j]);
        }
        s = s + 1;
        counts.push(i);
    }
    assert(ints(items@) =~= merged(a, b));
    (items, counts)
}

/// The weights of the adjacent pairs of a level.
fn pair_up(items: &Vec<u64>) -> (r: Vec<u64>)
    requires
        forall|i: int|
            0 <= i < items@.len() / 2 ==> #[trigger] paired(ints(items@))[i] <= u64::MAX,
    ensures
        ints(r@) == paired(ints(items@)),
{
    let mut out: Vec<u64> = Vec::new();
    let len: usize = items.len();
    let half: usize = len / 2;
    let mut i: usize = 0;
    while i < half
        invariant
            i <= half,
            len == items@.len(),
            half == len / 2,
            out@.len() == i,
            forall|k: int|
                0 <= k < items@.len() / 2 ==> #[trigger] paired(ints(items@))[k] <= u64::MAX,
            forall|k: int|
                0 <= k < i ==> #[trigger] out@[k] == items@[2 * k] + items@[2 * k + 1],
        decreases half - i,
    {
        assert(paired(ints(items@))[i as int] == items@[2 * i] + items@[2 * i + 1]);
        out.push(items[2 * i] + items[2 * i + 1]);
        i = i + 1;
    }
    assert(ints(out@) =~= paired(ints(items@)));
    out
}

/// A level weighs as much as its leaves and its packages.
proof fn lemma_merged_total(a: Seq<int>, b: Seq<int>)
    ensures
        prefix(merged(a, b), (a.len() + b.len()) as int) == prefix(a, a.len() as int) + prefix(
            b,
            b.len() as int,
        ),
{
    let s = (a.len() + b.len()) as int;
    lemma_taken_bounds(a, b, s);
    lemma_merged_prefix(a, b, s);
}

/// Two neighbours weigh no more than the whole.
proof fn lemma_two_of_all(s: Seq<int>, i: int, n: int)
    requires
        ascending(s),
        0 <= i,
        i + 2 <= n <= s.len(),
    ensures
        s[i] + s[i + 1] <= prefix(s, n),
{
    lemma_prefix_grows(s, i + 2, n);
    lemma_prefix_grows(s, 0, i);
    assert(prefix(s, i + 2) == prefix(s, i + 1) + s[i + 1]);
    assert(prefix(s, i + 1) == prefix(s, i) + s[i]);
}

proof fn lemma_prefix_cap(s: Seq<int>, n: int, cap: int)
    requires
        0 <= n <= s.len(),
        forall|i: int| 0 <= i < s.len() ==> #[trigger] s[i] <= cap,
    ensures
        prefix(s, n) <= n * cap,
    decreases n,
{
    if n > 0 {
        lemma_prefix_cap(s, n - 1, cap);
        assert(n * cap == (n - 1) * cap + cap) by (nonlinear_arith);
    } else {
        assert(0 * cap == 0);
    }
}

/// For every level, how many leaves each prefix holds.
fn build_levels(leaves: &Vec<u64>, depth: usize) -> (levels: Vec<Vec<usize>>)
    requires
        1 <= depth <= 255,
        1 <= leaves@.len() <= 0x100_0000,
        ascending(ints(leaves@)),
        forall|i: int| 0 <= i < leaves@.len() ==> #[trigger] leaves@[i] <= u32::MAX,
    ensures
        levels@.len() == depth,
        forall|k: int|
            0 <= k < depth ==> (#[trigger] levels@[k])@.len() == level(ints(leaves@), k).len() + 1,
        forall|k: int, s: int|
            0 <= k < depth && 0 <= s < levels@[k]@.len() ==> #[trigger] levels@[k]@[s] == taken(
                ints(leaves@),
                packages(ints(leaves@), k),
                s,
            ),
{
    let mut levels: Vec<Vec<usize>> = Vec::new();
    let mut pairs: Vec<u64> = Vec::new();
    let ghost a = ints(leaves@);
    let ghost n = a.len() as int;
    let ghost w = prefix(a, n);
    let mut k: usize = 0;
    proof {
        assert(ints(pairs@) =~= packages(a, 0));
        assert forall|i: int| 0 <= i < a.len() implies #[trigger] a[i] <= u32::MAX by {
            assert(leaves@[i] <= u32::MAX);
        }
        lemma_prefix_cap(a, n, u32::MAX as int);
        lemma_prefix_grows(a, 0, n);
        assert(0 * w == 0);
    }
    while k < depth
        invariant
            k <= depth <= 255,
            1 <= leaves@.len() <= 0x100_0000,
            a == ints(leaves@),
            ascending(a),
            n == a.len(),
            w == prefix(a, n),
            0 <= w <= n * u32::MAX,
            ints(pairs@) == packages(a, k as int),
            prefix(ints(pairs@), pairs@.len() as int) <= k * w,
            levels@.len() == k,
            forall|j: int|
                0 <= j < k ==> (#[trigger] levels@[j])@.len() == level(a, j).len() + 1,
            forall|j: int, s: int|
                0 <= j < k && 0 <= s < levels@[j]@.len() ==> #[trigger] levels@[j]@[s] == taken(
                    a,
                    packages(a, j),
                    s,
                ),
        decreases depth - k,
    {
        proof {
            lemma_level_len(a, k as int);
        }
        assert(ints(pairs@).len() == pairs@.len());
        let (items, counts) = merge_level(leaves, &pairs);
        proof {
            lemma_packages(a, k as int);
            lemma_merged_total(a, ints(pairs@));
            let below = ints(items@);
            let total = prefix(below, below.len() as int);
            assert((k + 1) * w == k * w + w) by (nonlinear_arith);
            assert(total <= (k + 1) * w);
            assert((k + 1) * w <= u64::MAX) by (nonlinear_arith)
                requires
                    0 <= k < 255,
                    0 <= w <= n * u32::MAX,
                    1 <= n <= 0x100_0000,
            ;
            assert forall|i: int| 0 <= i < items@.len() / 2 implies #[trigger] paired(below)[i]
                <= u64::MAX by {
                lemma_two_of_all(below, 2 * i, below.len() as int);
            }
            lemma_paired_prefix(below, below.len() as int / 2);
            lemma_prefix_grows(below, 2 * (below.len() as int / 2), below.len() as int);
        }
        let ghost done = levels@;
        levels.push(counts);
        pairs = pair_up(&items);
        proof {
            assert(ints(pairs@).len() == pairs@.len());
            assert forall|j: int| 0 <= j < k + 1 implies (#[trigger] levels@[j])@.len() == level(
                a,
                j,
            ).len() + 1 by {
                if j < k {
                    assert(levels@[j] == done[j]);
                }
            }
            assert forall|j: int, s: int|
                0 <= j < k + 1 && 0 <= s < levels@[j]@.len() implies #[trigger] levels@[j]@[s]
                == taken(a, packages(a, j), s) by {
                if j < k {
                    assert(levels@[j] == done[j]);
                    assert(done[j]@[s] == taken(a, packages(a, j), s));
                }
            }
        }
        k = k + 1;
    }
    levels
}

/// The code length of every leaf, by rank: walk the levels from the last down
/// and count in how many of them the leaf is chosen.
fn leaf_lengths(leaves: &Vec<u64>, depth: usize) -> (r: Vec<u8>)
    requires
        1 <= depth <= 255,
        1 <= leaves@.len() <= 0x100_0000,
        ascending(ints(leaves@)),
        forall|i: int| 0 <= i < leaves@.len() ==> #[trigger] leaves@[i] <= u32::MAX,
    ensures
        r@.len() == leaves@.len(),
        forall|t: int|
            0 <= t < r@.len() ==> #[trigger] r@[t] == leaf_depth(
                ints(leaves@),
                depth as int,
                t,
                0,
            ),
{
    let levels: Vec<Vec<usize>> = build_levels(leaves, depth);
    let n: usize = leaves.len();
    let ghost a = ints(leaves@);
    let mut out: Vec<u8> = Vec::new();
    let mut z: usize = 0;
    while z < n
        invariant
            z <= n,
            out@.len() == z,
            forall|t: int| 0 <= t < z ==> out@[t] == 0,
        decreases n - z,
    {
        out.push(0);
        z = z + 1;
    }
    proof {
        assert(levels@[depth - 1]@.len() == level(a, depth - 1).len() + 1);
    }
    let have: usize = levels[depth - 1].len() - 1;
    let want: usize = 2 * n - 2;
    let mut s: usize = if want <= have {
        want
    } else {
        have
    };
    let mut k: usize = depth;
    while k > 0
        invariant
            k <= depth <= 255,
            n == leaves@.len(),
            1 <= n <= 0x100_0000,
            a == ints(leaves@),
            levels@.len() == depth,
            forall|j: int|
                0 <= j < depth ==> (#[trigger] levels@[j])@.len() == level(a, j).len() + 1,
            forall|j: int, t: int|
                0 <= j < depth && 0 <= t < levels@[j]@.len() ==> #[trigger] levels@[j]@[t]
                    == taken(a, packages(a, j), t),
            k > 0 ==> s == chosen(a, depth as int, k - 1),
            out@.len() == n,
            forall|t: int|
                0 <= t < n ==> #[trigger] out@[t] == leaf_depth(a, depth as int, t, k as int),
            forall|t: int| 0 <= t < n ==> #[trigger] out@[t] <= depth - k,
        decreases k,
    {
        proof {
            lemma_chosen_bounds(a, depth as int, k - 1);
            assert(levels@[k - 1]@.len() == level(a, k - 1).len() + 1);
        }
        let count: usize = levels[k - 1][s];
        assert(count == chosen_leaves(a, depth as int, k - 1));
        let mut t: usize = 0;
        let ghost before = out@;
        while t < count
            invariant
                t <= count <= n,
                out@.len() == n,
                before.len() == n,
                1 <= k <= depth <= 255,
                forall|u: int| 0 <= u < n ==> #[trigger] before[u] <= depth - k,
                forall|u: int|
                    0 <= u < n ==> #[trigger] out@[u] == before[u] + (if u < t {
                        1int
                    } else {
                        0int
                    }),
            decreases count - t,
        {
            assert(before[t as int] <= depth - k);
            let v: u8 = out[t];
            out[t] = v + 1;
            t = t + 1;
        }
        proof {
            assert forall|u: int| 0 <= u < n implies #[trigger] out@[u] == leaf_depth(
                a,
                depth as int,
                u,
                k - 1,
            ) && out@[u] <= depth - (k - 1) by {
                assert(before[u] == leaf_depth(a, depth as int, u, k as int));
                assert(before[u] <= depth - k);
            }
        }
        if k > 1 {
            proof {
                lemma_chosen_bounds(a, depth as int, k - 2);
                lemma_level_len(a, k - 2);
            }
            s = 2 * (s - count);
        }
        k = k - 1;
    }
    out
}

/// Length-limited Huffman code lengths for `weights` (0 for absent symbols),
/// none longer than `max_bits`, via the package-merge algorithm (optimal,
/// unlike build-a-tree-then-clamp). A limit of zero counts as one. More
/// occurring symbols than these could weigh more in all than 64 bits hold.
pub fn package_merge(weights: &[u32], max_bits: u8) -> (lengths: Vec<u8>)
    requires
        leaf_weights(weights@).len() <= 0x100_0000,
    ensures
        lengths@ == pm_lengths(
            weights@,
            if max_bits == 0 {
                1
            } else {
                max_bits as int
            },
        ),
{
    let max_bits: u8 = if max_bits == 0 {
        1
    } else {
        max_bits
    };
    let order: Vec<usize> = sort_by_weight(weights);
    let ghost sorted = by_weight(weights@, weights@.len() as int);
    let mut leaves: Vec<u64> = Vec::new();
    let n: usize = order.len();
    let mut i: usize = 0;
    proof {
        lemma_by_weight(weights@, weights@.len() as int);
        assert forall|r: int| 0 <= r < n implies #[trigger] order@[r] == sorted[r] && order@[r]
            < weights@.len() by {
            assert(indices(order@)[r] == order@[r]);
        }
    }
    while i < n
        invariant
            i <= n,
            n == order@.len(),
            leaves@.len() == i,
            sorted == by_weight(weights@, weights@.len() as int),
            forall|r: int|
                0 <= r < n ==> #[trigger] order@[r] == sorted[r] && order@[r] < weights@.len(),
            forall|r: int| 0 <= r < i ==> #[trigger] leaves@[r] == weights@[sorted[r]],
        decreases n - i,
    {
        let o: usize = order[i];
        assert(order@[i as int] == sorted[i as int]);
        leaves.push(weights[o] as u64);
        i = i + 1;
    }
    assert(ints(leaves@) =~= leaf_weights(weights@));
    proof {
        lemma_leaves_ascending(weights@);
    }
    let ranked: Vec<u8> = if n >= 2 {
        leaf_lengths(&leaves, max_bits as usize)
    } else {
        let mut lone: Vec<u8> = Vec::new();
        if n == 1 {
            lone.push(1);  // degenerate single 1-bit code
        }
        lone
    };
    let mut lengths: Vec<u8> = Vec::new();
    let mut z: usize = 0;
    while z < weights.len()
        invariant
            z <= weights@.len(),
            lengths@.len() == z,
            forall|t: int| 0 <= t < z ==> lengths@[t] == 0,
        decreases weights@.len() - z,
    {
        lengths.push(0);
        z = z + 1;
    }
    assert(lengths@ =~= filled_lengths(weights@, max_bits as int, 0));
    let mut r: usize = 0;
    while r < n
        invariant
            r <= n,
            n == order@.len(),
            n == leaf_weights(weights@).len(),
            ranked@.len() == n,
            lengths@.len() == weights@.len(),
            sorted == by_weight(weights@, weights@.len() as int),
            forall|t: int|
                0 <= t < n ==> #[trigger] order@[t] == sorted[t] && order@[t] < weights@.len(),
            forall|t: int|
                0 <= t < n ==> #[trigger] ranked@[t] == leaf_length(
                    leaf_weights(weights@),
                    max_bits as int,
                    t,
                ),
            lengths@ == filled_lengths(weights@, max_bits as int, r as int),
        decreases n - r,
    {
        let o: usize = order[r];
        assert(order@[r as int] == sorted[r as int]);
        let l: u8 = ranked[r];
        lengths[o] = l;
        r = r + 1;
        assert(lengths@ =~= filled_lengths(weights@, max_bits as int, r as int));
    }
    lengths
}

} // verus!
