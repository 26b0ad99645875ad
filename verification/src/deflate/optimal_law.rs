//! Package-merge is optimal: no code within the length limit spells a message
//! with these symbol counts in fewer bits.
//!
//! A code of length `l` puts its symbol on the `l` uppermost levels, and every
//! level counts half as much as the one above. So a code is a choice of leaves
//! on each level, and its lengths fit the code space just when the choices add
//! up to at least `2n - 2` items of the last level. Among such choices the
//! lightest takes a prefix of every level.

use vstd::arithmetic::power2::{lemma_pow2_pos, lemma_pow2_unfold, pow2};
use vstd::prelude::*;

use super::canonical::kraft;
use super::package_merge::{
    ascending, by_weight, chosen, chosen_leaves, filled_lengths, insert_pos, leaf_depth,
    leaf_weights, lemma_by_weight, lemma_chosen_bounds, lemma_chosen_last, lemma_insert_pos,
    lemma_leaf_lengths, lemma_leaves_ascending, lemma_merged_prefix, lemma_packages,
    lemma_paired_prefix, lemma_prefix_grows, lemma_taken_bounds, lemma_taken_split, level, merged,
    packages, paired, pm_lengths, prefix, taken, widened,
};

verus! {

/// How many bits the first `n` symbols take in all, each as often as `weights`
/// says.
pub open spec fn cost(weights: Seq<u32>, lengths: Seq<u8>, n: int) -> int
    decreases n,
{
    if n <= 0 {
        0
    } else {
        cost(weights, lengths, n - 1) + weights[n - 1] * lengths[n - 1]
    }
}

/// Code lengths for these weights: every symbol that occurs has a code, none is
/// longer than `depth`, and they do not claim more than the code space.
pub open spec fn codes_fit(weights: Seq<u32>, lengths: Seq<u8>, depth: int) -> bool {
    &&& lengths.len() == weights.len()
    &&& forall|i: int| 0 <= i < weights.len() && weights[i] > 0 ==> #[trigger] lengths[i] > 0
    &&& forall|i: int| 0 <= i < weights.len() ==> #[trigger] lengths[i] <= depth
    &&& kraft(widened(lengths), depth as nat) <= pow2(depth as nat)
}

// Prefixes of levels.

/// Trading items of one part for items of the other makes nothing lighter.
proof fn lemma_merged_lightest(a: Seq<int>, b: Seq<int>, s: int, i: int)
    requires
        ascending(a),
        ascending(b),
        0 <= i <= a.len(),
        0 <= s - i <= b.len(),
    ensures
        prefix(merged(a, b), s) <= prefix(a, i) + prefix(b, s - i),
    decreases
            (if i > taken(a, b, s) {
                i - taken(a, b, s)
            } else {
                taken(a, b, s) - i
            }),
{
    let t = taken(a, b, s);
    lemma_merged_prefix(a, b, s);
    lemma_taken_bounds(a, b, s);
    lemma_taken_split(a, b, s);
    if i > t {
        lemma_merged_lightest(a, b, s, i - 1);
        assert(a[t] <= a[i - 1]);
        assert(b[s - i] <= b[s - t - 1]);
    } else if i < t {
        lemma_merged_lightest(a, b, s, i + 1);
        assert(a[i] <= a[t - 1]);
        assert(b[s - t] <= b[s - i - 1]);
    }
}

// Any choice of leaves.

/// What `counts` leaves on the first `m` levels come to, in items of level 0.
spec fn space_of(counts: Seq<int>, m: int) -> int
    decreases m,
{
    if m <= 0 {
        0
    } else {
        space_of(counts, m - 1) + counts[m - 1] * pow2((m - 1) as nat)
    }
}

/// What the lightest `counts` leaves on the first `m` levels weigh.
spec fn weight_of(leaves: Seq<int>, counts: Seq<int>, m: int) -> int
    decreases m,
{
    if m <= 0 {
        0
    } else {
        weight_of(leaves, counts, m - 1) + prefix(leaves, counts[m - 1])
    }
}

spec fn counts_fit(counts: Seq<int>, n: int, m: int) -> bool {
    forall|j: int| 0 <= j < m ==> 0 <= #[trigger] counts[j] <= n
}

proof fn lemma_weight_positive(leaves: Seq<int>, counts: Seq<int>, m: int)
    requires
        ascending(leaves),
        counts_fit(counts, leaves.len() as int, m),
    ensures
        weight_of(leaves, counts, m) >= 0,
    decreases m,
{
    if m > 0 {
        lemma_weight_positive(leaves, counts, m - 1);
        assert(0 <= counts[m - 1] <= leaves.len());
        lemma_prefix_grows(leaves, 0, counts[m - 1]);
    }
}

/// Leaves that come to `s` items of level `k` weigh no less than the first `s`
/// items of that level, and there are that many.
proof fn lemma_lightest_choice(leaves: Seq<int>, counts: Seq<int>, k: int, s: int)
    requires
        ascending(leaves),
        0 <= k,
        0 <= s,
        counts_fit(counts, leaves.len() as int, k + 1),
        s * pow2(k as nat) <= space_of(counts, k + 1),
    ensures
        s <= level(leaves, k).len(),
        prefix(level(leaves, k), s) <= weight_of(leaves, counts, k + 1),
    decreases k,
{
    let n = leaves.len() as int;
    let c = counts[k];
    assert(0 <= c <= n);
    lemma_packages(leaves, k);
    lemma_pow2_pos(k as nat);
    let p = pow2(k as nat) as int;
    assert(space_of(counts, k + 1) == space_of(counts, k) + c * p);
    assert(weight_of(leaves, counts, k + 1) == weight_of(leaves, counts, k) + prefix(leaves, c));
    if s <= c {
        lemma_prefix_grows(leaves, s, c);
        lemma_merged_lightest(leaves, packages(leaves, k), s, s);
        lemma_weight_positive(leaves, counts, k);
        assert(prefix(packages(leaves, k), 0) == 0);
    } else if k == 0 {
        assert(space_of(counts, 0) == 0);
        assert(false) by (nonlinear_arith)
            requires
                s * p <= c * p,
                s > c,
                p > 0,
        ;
    } else {
        let q = pow2((k - 1) as nat) as int;
        lemma_pow2_unfold(k as nat);
        let t = 2 * (s - c);
        assert(t * q <= space_of(counts, k)) by (nonlinear_arith)
            requires
                s * p <= space_of(counts, k) + c * p,
                p == 2 * q,
                t == 2 * (s - c),
        ;
        lemma_lightest_choice(leaves, counts, k - 1, t);
        let below = level(leaves, k - 1);
        assert(packages(leaves, k) == paired(below));
        lemma_paired_prefix(below, s - c);
        lemma_merged_lightest(leaves, packages(leaves, k), s, c);
    }
}

// The choice that package-merge makes.

/// The leaves that are chosen on each level.
spec fn chosen_counts(leaves: Seq<int>, depth: int) -> Seq<int> {
    Seq::new(depth as nat, |k: int| chosen_leaves(leaves, depth, k))
}

proof fn lemma_chosen_weight(leaves: Seq<int>, depth: int, m: int)
    requires
        1 <= m <= depth,
        leaves.len() >= 1,
    ensures
        weight_of(leaves, chosen_counts(leaves, depth), m) == prefix(
            level(leaves, m - 1),
            chosen(leaves, depth, m - 1),
        ),
    decreases m,
{
    let k = m - 1;
    let counts = chosen_counts(leaves, depth);
    let s = chosen(leaves, depth, k);
    let c = chosen_leaves(leaves, depth, k);
    lemma_chosen_bounds(leaves, depth, k);
    lemma_merged_prefix(leaves, packages(leaves, k), s);
    assert(counts[k] == c);
    assert(weight_of(leaves, counts, m) == weight_of(leaves, counts, k) + prefix(leaves, c));
    if k == 0 {
        assert(packages(leaves, 0).len() == 0);
        assert(weight_of(leaves, counts, 0) == 0);
        assert(prefix(packages(leaves, 0), 0) == 0);
    } else {
        lemma_chosen_weight(leaves, depth, k);
        lemma_paired_prefix(level(leaves, k - 1), s - c);
        assert(packages(leaves, k) == paired(level(leaves, k - 1)));
    }
}

/// What the leaves of the first `n` ranks cost with the given lengths.
spec fn rank_cost(leaves: Seq<int>, lengths: Seq<int>, n: int) -> int
    decreases n,
{
    if n <= 0 {
        0
    } else {
        rank_cost(leaves, lengths, n - 1) + leaves[n - 1] * lengths[n - 1]
    }
}

/// The depths of the leaves, counted from level `k` on.
spec fn depths_from(leaves: Seq<int>, depth: int, k: int) -> Seq<int> {
    Seq::new(leaves.len(), |r: int| leaf_depth(leaves, depth, r, k))
}

/// One level more: its chosen leaves are a prefix.
proof fn lemma_depths_step(leaves: Seq<int>, depth: int, k: int, n: int)
    requires
        0 <= k < depth,
        0 <= n <= leaves.len(),
        0 <= chosen_leaves(leaves, depth, k),
    ensures
        rank_cost(leaves, depths_from(leaves, depth, k), n) == rank_cost(
            leaves,
            depths_from(leaves, depth, k + 1),
            n,
        ) + prefix(
            leaves,
            if n < chosen_leaves(leaves, depth, k) {
                n
            } else {
                chosen_leaves(leaves, depth, k)
            },
        ),
    decreases n,
{
    if n > 0 {
        lemma_depths_step(leaves, depth, k, n - 1);
        let w = leaves[n - 1];
        let here = depths_from(leaves, depth, k)[n - 1];
        let above = depths_from(leaves, depth, k + 1)[n - 1];
        if n - 1 < chosen_leaves(leaves, depth, k) {
            assert(here == above + 1);
            assert(w * (above + 1) == w * above + w) by (nonlinear_arith);
        } else {
            assert(here == above);
        }
    }
}

/// What the levels from `k` on weigh.
proof fn lemma_depths_cost(leaves: Seq<int>, depth: int, k: int)
    requires
        0 <= k <= depth,
        leaves.len() >= 1,
    ensures
        rank_cost(leaves, depths_from(leaves, depth, k), leaves.len() as int) == weight_of(
            leaves,
            chosen_counts(leaves, depth),
            depth,
        ) - weight_of(leaves, chosen_counts(leaves, depth), k),
    decreases depth - k,
{
    let n = leaves.len() as int;
    if k == depth {
        lemma_cost_of_nothing(leaves, depths_from(leaves, depth, k), n);
    } else {
        lemma_depths_cost(leaves, depth, k + 1);
        lemma_chosen_bounds(leaves, depth, k);
        lemma_depths_step(leaves, depth, k, n);
        assert(chosen_counts(leaves, depth)[k] == chosen_leaves(leaves, depth, k));
    }
}

proof fn lemma_cost_of_nothing(leaves: Seq<int>, lengths: Seq<int>, n: int)
    requires
        n <= lengths.len(),
        forall|r: int| 0 <= r < lengths.len() ==> #[trigger] lengths[r] == 0,
    ensures
        rank_cost(leaves, lengths, n) == 0,
    decreases n,
{
    if n > 0 {
        lemma_cost_of_nothing(leaves, lengths, n - 1);
        assert(leaves[n - 1] * lengths[n - 1] == 0) by (nonlinear_arith)
            requires
                lengths[n - 1] == 0,
        ;
    }
}

// The choice that other lengths make.

/// How many of the first `n` ranks have a code that reaches level `j`.
spec fn reach_count(lengths: Seq<int>, depth: int, j: int, n: int) -> int
    decreases n,
{
    if n <= 0 {
        0
    } else {
        reach_count(lengths, depth, j, n - 1) + (if lengths[n - 1] >= depth - j {
            1int
        } else {
            0int
        })
    }
}

/// What they weigh.
spec fn reach_weight(leaves: Seq<int>, lengths: Seq<int>, depth: int, j: int, n: int) -> int
    decreases n,
{
    if n <= 0 {
        0
    } else {
        reach_weight(leaves, lengths, depth, j, n - 1) + (if lengths[n - 1] >= depth - j {
            leaves[n - 1]
        } else {
            0
        })
    }
}

/// Any leaves weigh no less than as many of the lightest.
proof fn lemma_reach_weight(leaves: Seq<int>, lengths: Seq<int>, depth: int, j: int, n: int)
    requires
        ascending(leaves),
        0 <= n <= leaves.len(),
    ensures
        0 <= reach_count(lengths, depth, j, n) <= n,
        prefix(leaves, reach_count(lengths, depth, j, n)) <= reach_weight(
            leaves,
            lengths,
            depth,
            j,
            n,
        ),
    decreases n,
{
    if n > 0 {
        lemma_reach_weight(leaves, lengths, depth, j, n - 1);
        let c = reach_count(lengths, depth, j, n - 1);
        assert(leaves[c] <= leaves[n - 1]);
    }
}

/// How far the codes reach on the first `m` levels.
spec fn cut(lengths: Seq<int>, depth: int, m: int) -> Seq<int> {
    Seq::new(
        lengths.len(),
        |r: int|
            if lengths[r] + m > depth {
                lengths[r] + m - depth
            } else {
                0
            },
    )
}

proof fn lemma_cut_step(leaves: Seq<int>, lengths: Seq<int>, depth: int, m: int, n: int)
    requires
        0 <= n <= lengths.len(),
    ensures
        rank_cost(leaves, cut(lengths, depth, m + 1), n) == rank_cost(
            leaves,
            cut(lengths, depth, m),
            n,
        ) + reach_weight(leaves, lengths, depth, m, n),
    decreases n,
{
    if n > 0 {
        lemma_cut_step(leaves, lengths, depth, m, n - 1);
        let w = leaves[n - 1];
        let a = cut(lengths, depth, m)[n - 1];
        let b = cut(lengths, depth, m + 1)[n - 1];
        if lengths[n - 1] >= depth - m {
            assert(b == a + 1);
            assert(w * (a + 1) == w * a + w) by (nonlinear_arith);
        } else {
            assert(b == a);
        }
    }
}

/// How many codes reach each level.
spec fn reach_counts(lengths: Seq<int>, depth: int) -> Seq<int> {
    Seq::new(depth as nat, |j: int| reach_count(lengths, depth, j, lengths.len() as int))
}

/// The cost of any lengths, level by level.
proof fn lemma_cut_weight(leaves: Seq<int>, lengths: Seq<int>, depth: int, m: int)
    requires
        ascending(leaves),
        lengths.len() == leaves.len(),
        0 <= m <= depth,
        forall|r: int| 0 <= r < lengths.len() ==> #[trigger] lengths[r] <= depth,
    ensures
        counts_fit(reach_counts(lengths, depth), leaves.len() as int, m),
        weight_of(leaves, reach_counts(lengths, depth), m) <= rank_cost(
            leaves,
            cut(lengths, depth, m),
            leaves.len() as int,
        ),
    decreases m,
{
    let n = leaves.len() as int;
    if m == 0 {
        lemma_cost_of_nothing(leaves, cut(lengths, depth, 0), n);
    } else {
        lemma_cut_weight(leaves, lengths, depth, m - 1);
        lemma_cut_step(leaves, lengths, depth, m - 1, n);
        lemma_reach_weight(leaves, lengths, depth, m - 1, n);
        assert(reach_counts(lengths, depth)[m - 1] == reach_count(lengths, depth, m - 1, n));
    }
}

/// The code space of the first `n` ranks.
spec fn rank_space(lengths: Seq<int>, depth: int, n: int) -> int
    decreases n,
{
    if n <= 0 {
        0
    } else {
        rank_space(lengths, depth, n - 1) + pow2((depth - lengths[n - 1]) as nat)
    }
}

/// What one code comes to on the first `m` levels.
spec fn reach_space(length: int, depth: int, m: int) -> int {
    if length + m > depth {
        pow2(m as nat) - pow2((depth - length) as nat)
    } else {
        0
    }
}

/// What the codes of the first `n` ranks come to on the first `m` levels.
spec fn reach_spaces(lengths: Seq<int>, depth: int, m: int, n: int) -> int
    decreases n,
{
    if n <= 0 {
        0
    } else {
        reach_spaces(lengths, depth, m, n - 1) + reach_space(lengths[n - 1], depth, m)
    }
}

proof fn lemma_reach_step(lengths: Seq<int>, depth: int, m: int, n: int)
    requires
        0 <= n <= lengths.len(),
        0 <= m < depth,
        forall|r: int| 0 <= r < lengths.len() ==> 1 <= #[trigger] lengths[r] <= depth,
    ensures
        reach_spaces(lengths, depth, m + 1, n) == reach_spaces(lengths, depth, m, n) + reach_count(
            lengths,
            depth,
            m,
            n,
        ) * pow2(m as nat),
    decreases n,
{
    let p = pow2(m as nat) as int;
    if n > 0 {
        lemma_reach_step(lengths, depth, m, n - 1);
        lemma_pow2_unfold((m + 1) as nat);
        let l = lengths[n - 1];
        assert(1 <= l <= depth);
        let c = reach_count(lengths, depth, m, n - 1);
        if l >= depth - m {
            assert((c + 1) * p == c * p + p) by (nonlinear_arith);
            assert(reach_space(l, depth, m + 1) == reach_space(l, depth, m) + p);
        } else {
            assert(reach_space(l, depth, m + 1) == 0 && reach_space(l, depth, m) == 0);
        }
    } else {
        assert(0 * p == 0);
    }
}

proof fn lemma_reach_space(lengths: Seq<int>, depth: int, m: int)
    requires
        0 <= m <= depth,
        forall|r: int| 0 <= r < lengths.len() ==> 1 <= #[trigger] lengths[r] <= depth,
    ensures
        space_of(reach_counts(lengths, depth), m) == reach_spaces(
            lengths,
            depth,
            m,
            lengths.len() as int,
        ),
    decreases m,
{
    let n = lengths.len() as int;
    if m == 0 {
        lemma_no_space(lengths, depth, n);
    } else {
        lemma_reach_space(lengths, depth, m - 1);
        lemma_reach_step(lengths, depth, m - 1, n);
        assert(reach_counts(lengths, depth)[m - 1] == reach_count(lengths, depth, m - 1, n));
    }
}

proof fn lemma_no_space(lengths: Seq<int>, depth: int, n: int)
    requires
        0 <= n <= lengths.len(),
        forall|r: int| 0 <= r < lengths.len() ==> 1 <= #[trigger] lengths[r] <= depth,
    ensures
        reach_spaces(lengths, depth, 0, n) == 0,
    decreases n,
{
    if n > 0 {
        lemma_no_space(lengths, depth, n - 1);
        assert(lengths[n - 1] <= depth);
    }
}

proof fn lemma_all_space(lengths: Seq<int>, depth: int, n: int)
    requires
        0 <= n <= lengths.len(),
        forall|r: int| 0 <= r < lengths.len() ==> 1 <= #[trigger] lengths[r] <= depth,
    ensures
        reach_spaces(lengths, depth, depth, n) == n * pow2(depth as nat) - rank_space(
            lengths,
            depth,
            n,
        ),
    decreases n,
{
    let p = pow2(depth as nat) as int;
    if n > 0 {
        lemma_all_space(lengths, depth, n - 1);
        assert(lengths[n - 1] >= 1);
        assert(n * p == (n - 1) * p + p) by (nonlinear_arith);
    } else {
        assert(0 * p == 0);
    }
}

/// By rank: no lengths that fit the code space cost less.
proof fn lemma_rank_optimal(leaves: Seq<int>, lengths: Seq<int>, depth: int)
    requires
        ascending(leaves),
        lengths.len() == leaves.len(),
        1 <= depth <= 255,
        2 <= leaves.len() <= pow2(depth as nat),
        forall|r: int| 0 <= r < lengths.len() ==> 1 <= #[trigger] lengths[r] <= depth,
        rank_space(lengths, depth, leaves.len() as int) <= pow2(depth as nat),
    ensures
        rank_cost(leaves, depths_from(leaves, depth, 0), leaves.len() as int) <= rank_cost(
            leaves,
            lengths,
            leaves.len() as int,
        ),
{
    let n = leaves.len() as int;
    let counts = reach_counts(lengths, depth);
    let p = pow2(depth as nat) as int;
    let q = pow2((depth - 1) as nat) as int;
    lemma_pow2_unfold(depth as nat);
    lemma_depths_cost(leaves, depth, 0);
    lemma_chosen_weight(leaves, depth, depth);
    lemma_chosen_last(leaves, depth);
    lemma_reach_space(lengths, depth, depth);
    lemma_all_space(lengths, depth, n);
    assert((2 * n - 2) * q <= space_of(counts, depth)) by (nonlinear_arith)
        requires
            space_of(counts, depth) >= n * p - p,
            p == 2 * q,
    ;
    lemma_cut_weight(leaves, lengths, depth, depth);
    lemma_lightest_choice(leaves, counts, depth - 1, 2 * n - 2);
    assert(cut(lengths, depth, depth) =~= lengths) by {
        assert forall|r: int| 0 <= r < lengths.len() implies cut(lengths, depth, depth)[r]
            == #[trigger] lengths[r] by {}
    }
}

// From ranks to symbols.

/// The lengths in the order of the ranks.
spec fn by_rank(order: Seq<int>, lengths: Seq<u8>) -> Seq<int> {
    Seq::new(order.len(), |r: int| lengths[order[r]] as int)
}

/// What the listed symbols cost.
spec fn list_cost(weights: Seq<u32>, lengths: Seq<u8>, order: Seq<int>) -> int
    decreases order.len(),
{
    if order.len() == 0 {
        0
    } else {
        list_cost(weights, lengths, order.drop_last()) + weights[order.last()]
            * lengths[order.last()]
    }
}

proof fn lemma_list_insert(
    weights: Seq<u32>,
    lengths: Seq<u8>,
    order: Seq<int>,
    pos: int,
    i: int,
)
    requires
        0 <= pos <= order.len(),
    ensures
        list_cost(weights, lengths, order.insert(pos, i)) == list_cost(weights, lengths, order)
            + weights[i] * lengths[i],
    decreases order.len(),
{
    let next = order.insert(pos, i);
    if pos == order.len() {
        assert(next.drop_last() =~= order);
    } else {
        assert(next.drop_last() =~= order.drop_last().insert(pos, i));
        assert(next.last() == order.last());
        lemma_list_insert(weights, lengths, order.drop_last(), pos, i);
    }
}

proof fn lemma_cost_by_weight(weights: Seq<u32>, lengths: Seq<u8>, n: int)
    requires
        0 <= n <= weights.len(),
        lengths.len() == weights.len(),
    ensures
        list_cost(weights, lengths, by_weight(weights, n)) == cost(weights, lengths, n),
    decreases n,
{
    if n > 0 {
        lemma_cost_by_weight(weights, lengths, n - 1);
        let order = by_weight(weights, n - 1);
        let w = weights[n - 1];
        if w == 0 {
            assert(w * lengths[n - 1] == 0) by (nonlinear_arith)
                requires
                    w == 0,
            ;
        } else {
            lemma_by_weight(weights, n - 1);
            lemma_insert_pos(weights, order, w, order.len() as int);
            lemma_list_insert(
                weights,
                lengths,
                order,
                insert_pos(weights, order, w, order.len() as int),
                n - 1,
            );
        }
    }
}

proof fn lemma_list_ranks(weights: Seq<u32>, lengths: Seq<u8>, n: int)
    requires
        0 <= n <= leaf_weights(weights).len(),
    ensures
        ({
            let order = by_weight(weights, weights.len() as int);
            list_cost(weights, lengths, order.take(n)) == rank_cost(
                leaf_weights(weights),
                by_rank(order, lengths),
                n,
            )
        }),
    decreases n,
{
    let order = by_weight(weights, weights.len() as int);
    if n > 0 {
        lemma_list_ranks(weights, lengths, n - 1);
        assert(order.take(n).drop_last() =~= order.take(n - 1));
    }
}

/// The cost of lengths, by symbol and by rank.
proof fn lemma_cost_by_rank(weights: Seq<u32>, lengths: Seq<u8>)
    requires
        lengths.len() == weights.len(),
    ensures
        cost(weights, lengths, weights.len() as int) == rank_cost(
            leaf_weights(weights),
            by_rank(by_weight(weights, weights.len() as int), lengths),
            leaf_weights(weights).len() as int,
        ),
{
    let order = by_weight(weights, weights.len() as int);
    lemma_cost_by_weight(weights, lengths, weights.len() as int);
    lemma_list_ranks(weights, lengths, order.len() as int);
    assert(order.take(order.len() as int) =~= order);
}

/// The code space of the listed symbols.
spec fn list_space(lengths: Seq<u8>, depth: int, order: Seq<int>) -> int
    decreases order.len(),
{
    if order.len() == 0 {
        0
    } else {
        list_space(lengths, depth, order.drop_last()) + pow2(
            (depth - lengths[order.last()]) as nat,
        )
    }
}

proof fn lemma_space_insert(lengths: Seq<u8>, depth: int, order: Seq<int>, pos: int, i: int)
    requires
        0 <= pos <= order.len(),
    ensures
        list_space(lengths, depth, order.insert(pos, i)) == list_space(lengths, depth, order)
            + pow2((depth - lengths[i]) as nat),
    decreases order.len(),
{
    let next = order.insert(pos, i);
    if pos == order.len() {
        assert(next.drop_last() =~= order);
    } else {
        assert(next.drop_last() =~= order.drop_last().insert(pos, i));
        assert(next.last() == order.last());
        lemma_space_insert(lengths, depth, order.drop_last(), pos, i);
    }
}

/// The symbols that occur claim no more than all do.
proof fn lemma_space_by_weight(weights: Seq<u32>, lengths: Seq<u8>, depth: int, n: int)
    requires
        0 <= depth,
        0 <= n <= weights.len(),
        lengths.len() == weights.len(),
        forall|i: int| 0 <= i < weights.len() && weights[i] > 0 ==> #[trigger] lengths[i] > 0,
    ensures
        list_space(lengths, depth, by_weight(weights, n)) <= kraft(
            widened(lengths.take(n)),
            depth as nat,
        ),
    decreases n,
{
    if n > 0 {
        lemma_space_by_weight(weights, lengths, depth, n - 1);
        let wide = widened(lengths.take(n));
        assert(wide.drop_last() =~= widened(lengths.take(n - 1)));
        assert(wide.last() == lengths[n - 1]);
        let order = by_weight(weights, n - 1);
        let w = weights[n - 1];
        if w != 0 {
            assert(lengths[n - 1] > 0);
            lemma_by_weight(weights, n - 1);
            lemma_insert_pos(weights, order, w, order.len() as int);
            lemma_space_insert(
                lengths,
                depth,
                order,
                insert_pos(weights, order, w, order.len() as int),
                n - 1,
            );
        }
    }
}

proof fn lemma_space_ranks(order: Seq<int>, lengths: Seq<u8>, depth: int, n: int)
    requires
        0 <= n <= order.len(),
    ensures
        list_space(lengths, depth, order.take(n)) == rank_space(
            by_rank(order, lengths),
            depth,
            n,
        ),
    decreases n,
{
    if n > 0 {
        lemma_space_ranks(order, lengths, depth, n - 1);
        assert(order.take(n).drop_last() =~= order.take(n - 1));
    }
}

/// Package-merge gives the leaf of each rank its depth.
proof fn lemma_filled_by_rank(weights: Seq<u32>, depth: int, n: int, r: int)
    requires
        1 <= depth <= 255,
        0 <= r < n <= leaf_weights(weights).len(),
        2 <= leaf_weights(weights).len() <= pow2(depth as nat),
    ensures
        filled_lengths(weights, depth, n).len() == weights.len(),
        filled_lengths(weights, depth, n)[by_weight(weights, weights.len() as int)[r]]
            == leaf_depth(leaf_weights(weights), depth, r, 0),
    decreases n,
{
    let order = by_weight(weights, weights.len() as int);
    lemma_by_weight(weights, weights.len() as int);
    lemma_leaves_ascending(weights);
    lemma_leaf_lengths(leaf_weights(weights), depth);
    lemma_filled_len(weights, depth, n - 1);
    if r < n - 1 {
        lemma_filled_by_rank(weights, depth, n - 1, r);
        assert(order[r] != order[n - 1]);
    }
}

proof fn lemma_filled_len(weights: Seq<u32>, depth: int, n: int)
    requires
        n <= leaf_weights(weights).len(),
    ensures
        filled_lengths(weights, depth, n).len() == weights.len(),
    decreases n,
{
    if n > 0 {
        lemma_filled_len(weights, depth, n - 1);
        lemma_by_weight(weights, weights.len() as int);
        assert(0 <= by_weight(weights, weights.len() as int)[n - 1] < weights.len());
    }
}

/// Package-merge is optimal: of all codes for the symbols that occur, none
/// longer than `depth`, its code spells the message in the fewest bits.
pub proof fn law_package_merge_optimal(weights: Seq<u32>, lengths: Seq<u8>, depth: int)
    requires
        1 <= depth <= 255,
        leaf_weights(weights).len() <= pow2(depth as nat),
        codes_fit(weights, lengths, depth),
    ensures
        cost(weights, pm_lengths(weights, depth), weights.len() as int) <= cost(
            weights,
            lengths,
            weights.len() as int,
        ),
{
    let order = by_weight(weights, weights.len() as int);
    let leaves = leaf_weights(weights);
    let n = leaves.len() as int;
    let best = pm_lengths(weights, depth);
    let o = by_rank(order, lengths);
    lemma_by_weight(weights, weights.len() as int);
    lemma_leaves_ascending(weights);
    lemma_filled_len(weights, depth, n);
    lemma_cost_by_rank(weights, lengths);
    lemma_cost_by_rank(weights, best);
    assert forall|r: int| 0 <= r < n implies 1 <= #[trigger] o[r] <= depth by {
        assert(weights[order[r]] > 0);
        assert(lengths[order[r]] > 0);
    }
    if n == 1 {
        let w = leaves[0];
        reveal_with_fuel(rank_cost, 2);
        reveal_with_fuel(filled_lengths, 2);
        assert(best[order[0]] == 1);
        assert(by_rank(order, best)[0] == 1);
        assert(w * 1 <= w * o[0]) by (nonlinear_arith)
            requires
                w >= 1,
                o[0] >= 1,
        ;
    } else if n >= 2 {
        lemma_space_by_weight(weights, lengths, depth, weights.len() as int);
        assert(lengths.take(weights.len() as int) =~= lengths);
        lemma_space_ranks(order, lengths, depth, n);
        assert(order.take(n) =~= order);
        lemma_rank_optimal(leaves, o, depth);
        assert(by_rank(order, best) =~= depths_from(leaves, depth, 0)) by {
            assert forall|r: int| 0 <= r < n implies by_rank(order, best)[r] == depths_from(
                leaves,
                depth,
                0,
            )[r] by {
                lemma_filled_by_rank(weights, depth, n, r);
            }
        }
    }
}

proof fn lemma_depth_falls(leaves: Seq<int>, depth: int, r: int, t: int, k: int)
    requires
        r <= t,
    ensures
        leaf_depth(leaves, depth, t, k) <= leaf_depth(leaves, depth, r, k),
    decreases depth - k,
{
    if k < depth {
        lemma_depth_falls(leaves, depth, r, t, k + 1);
    }
}

/// Of two symbols that occur, the more frequent has no longer a code.
pub proof fn law_frequent_is_short(weights: Seq<u32>, depth: int, i: int, j: int)
    requires
        1 <= depth <= 255,
        leaf_weights(weights).len() <= pow2(depth as nat),
        0 <= i < weights.len(),
        0 <= j < weights.len(),
        weights[i] > weights[j] > 0,
    ensures
        pm_lengths(weights, depth)[i] <= pm_lengths(weights, depth)[j],
{
    let order = by_weight(weights, weights.len() as int);
    let leaves = leaf_weights(weights);
    let n = leaves.len() as int;
    lemma_by_weight(weights, weights.len() as int);
    assert(order.contains(i) && order.contains(j));
    let r = choose|r: int| 0 <= r < order.len() && order[r] == i;
    let t = choose|t: int| 0 <= t < order.len() && order[t] == j;
    if r <= t {
        assert(weights[order[r]] <= weights[order[t]]);
    }
    lemma_filled_by_rank(weights, depth, n, r);
    lemma_filled_by_rank(weights, depth, n, t);
    lemma_depth_falls(leaves, depth, t, r, 0);
}

} // verus!
