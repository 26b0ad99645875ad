//! The length and distance tables of RFC 1951 §3.2.5, the transmission order
//! of code-length codes, and the lookup both directions share.

use vstd::arithmetic::power2::pow2;
use vstd::prelude::*;

verus! {

/// Smallest copy length of each length symbol; symbol `257 + i` has entry `i`.
pub const LBASE: [u32; 29] = [
    3, 4, 5, 6, 7, 8, 9, 10, 11, 13, 15, 17, 19, 23, 27, 31, 35, 43, 51, 59, 67, 83, 99, 115, 131,
    163, 195, 227, 258,
];

/// Extra bits that follow each length symbol.
pub const LEXT: [u32; 29] = [
    0, 0, 0, 0, 0, 0, 0, 0, 1, 1, 1, 1, 2, 2, 2, 2, 3, 3, 3, 3, 4, 4, 4, 4, 5, 5, 5, 5, 0,
];

/// Smallest distance of each distance symbol.
pub const DBASE: [u32; 30] = [
    1, 2, 3, 4, 5, 7, 9, 13, 17, 25, 33, 49, 65, 97, 129, 193, 257, 385, 513, 769, 1025, 1537, 2049,
    3073, 4097, 6145, 8193, 12289, 16385, 24577,
];

/// Extra bits that follow each distance symbol.
pub const DEXT: [u32; 30] = [
    0, 0, 0, 0, 1, 1, 2, 2, 3, 3, 4, 4, 5, 5, 6, 6, 7, 7, 8, 8, 9, 9, 10, 10, 11, 11, 12, 12, 13, 13,
];

/// The order in which the lengths of the code-length codes are transmitted.
pub const CLORDER: [usize; 19] = [
    16, 17, 18, 0, 8, 7, 9, 6, 10, 5, 11, 4, 12, 3, 13, 2, 14, 1, 15,
];

/// The last index below `n` whose base is at most `value`, or 0.
pub open spec fn base_index_below(bases: Seq<u32>, value: nat, n: int) -> int
    decreases n,
{
    if n <= 1 {
        0
    } else if bases[n - 1] <= value {
        n - 1
    } else {
        base_index_below(bases, value, n - 1)
    }
}

/// The symbol index that `value` falls under: the last one whose base is at
/// most `value`.
pub open spec fn base_index(bases: Seq<u32>, value: nat) -> int {
    base_index_below(bases, value, bases.len() as int)
}

/// Index of the last entry of `bases` that is at most `value` (0 if none is).
pub fn symbol_index(bases: &[u32], value: u32) -> (r: usize)
    requires
        bases@.len() > 0,
    ensures
        r == base_index(bases@, value as nat),
        r < bases@.len(),
{
    let mut i: usize = bases.len() - 1;
    while i > 0 && bases[i] > value
        invariant
            i < bases@.len(),
            base_index(bases@, value as nat) == base_index_below(bases@, value as nat, i + 1),
        decreases i,
    {
        i = i - 1;
    }
    i
}

proof fn lemma_base_index_below(bases: Seq<u32>, value: nat, n: int)
    requires
        1 <= n <= bases.len(),
        bases[0] <= value,
    ensures
        0 <= base_index_below(bases, value, n) < n,
        bases[base_index_below(bases, value, n)] <= value,
        forall|j: int| base_index_below(bases, value, n) < j < n ==> bases[j] > value,
    decreases n,
{
    if n > 1 && bases[n - 1] > value {
        lemma_base_index_below(bases, value, n - 1);
    }
}

/// In a table whose first base is at most `value`, the index found brackets
/// `value`.
pub proof fn lemma_base_index(bases: Seq<u32>, value: nat)
    requires
        bases.len() > 0,
        bases[0] <= value,
    ensures
        0 <= base_index(bases, value) < bases.len(),
        bases[base_index(bases, value)] <= value,
        base_index(bases, value) + 1 < bases.len() ==> value < bases[base_index(bases, value) + 1],
{
    lemma_base_index_below(bases, value, bases.len() as int);
}

/// Every copy length has a symbol whose extra bits can hold the remainder.
pub proof fn lemma_length_symbol(len: nat)
    requires
        3 <= len <= 258,
    ensures
        0 <= base_index(LBASE@, len) < 29,
        LBASE@[base_index(LBASE@, len)] <= len,
        len - LBASE@[base_index(LBASE@, len)] < pow2(LEXT@[base_index(LBASE@, len)] as nat),
        LEXT@[base_index(LBASE@, len)] <= 5,
{
    lemma_base_index(LBASE@, len);
    vstd::arithmetic::power2::lemma2_to64();
    let i = base_index(LBASE@, len);
    assert(forall|j: int|
        0 <= j < 28 ==> LBASE@[j + 1] - #[trigger] LBASE@[j] <= pow2(LEXT@[j] as nat));
    assert(LBASE@[i] <= len);
}

/// Every distance has a symbol whose extra bits can hold the remainder.
pub proof fn lemma_distance_symbol(dist: nat)
    requires
        1 <= dist <= 32768,
    ensures
        0 <= base_index(DBASE@, dist) < 30,
        DBASE@[base_index(DBASE@, dist)] <= dist,
        dist - DBASE@[base_index(DBASE@, dist)] < pow2(DEXT@[base_index(DBASE@, dist)] as nat),
        DEXT@[base_index(DBASE@, dist)] <= 13,
{
    lemma_base_index(DBASE@, dist);
    vstd::arithmetic::power2::lemma2_to64();
    let i = base_index(DBASE@, dist);
    assert(forall|j: int|
        0 <= j < 29 ==> DBASE@[j + 1] - #[trigger] DBASE@[j] <= pow2(DEXT@[j] as nat));
    assert(DBASE@[i] <= dist);
}

/// No length symbol reaches past 258.
pub proof fn lemma_length_range(i: int)
    requires
        0 <= i < 29,
    ensures
        3 <= LBASE@[i],
        LBASE@[i] + pow2(LEXT@[i] as nat) <= 259,
{
    vstd::arithmetic::power2::lemma2_to64();
}

/// No distance symbol reaches past 32768.
pub proof fn lemma_distance_range(d: int)
    requires
        0 <= d < 30,
    ensures
        1 <= DBASE@[d],
        DBASE@[d] + pow2(DEXT@[d] as nat) <= 32769,
{
    vstd::arithmetic::power2::lemma2_to64();
}

} // verus!
