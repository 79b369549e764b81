//! Facts about the rank of a subset in the combinatorial number system.

use super::binomial::{
    binomial, lemma_binomial_monotone, lemma_binomial_positive, lemma_binomial_zero,
    lemma_size_offset_monotone, size_offset,
};
use super::{in_domain, in_universe, rank_below, spec_encode};
use crate::mixing::effects::{count_below, has_bit, lemma_count_bound, popcount};
use vstd::prelude::*;

verus! {

proof fn lemma_shift_zero_bit(mask: u64, n: u64, i: u64)
    by (bit_vector)
    requires
        n <= i < 64,
        mask >> n == 0,
    ensures
        (mask >> i) & 1 == 0,
{
}

proof fn lemma_clear_bit_bits(x: u64, e: u64, i: u64)
    by (bit_vector)
    requires
        e < 64,
        i < 64,
    ensures
        ((x & !(1u64 << e)) >> i) & 1 == (if i == e {
            0u64
        } else {
            (x >> i) & 1
        }),
        ((x | (1u64 << e)) >> i) & 1 == (if i == e {
            1u64
        } else {
            (x >> i) & 1
        }),
        (0u64 >> i) & 1 == 0,
{
}

/// Taking a member out of a mask, or putting one in, changes that member and
/// no other; the empty mask has none.
pub proof fn lemma_change_bit(x: u64, e: nat, i: nat)
    requires
        e < 64,
    ensures
        has_bit(x & !(1u64 << (e as u64)), i) == (has_bit(x, i) && i != e),
        has_bit(x | (1u64 << (e as u64)), i) == (has_bit(x, i) || i == e),
        !has_bit(0, i),
{
    if i < 64 {
        lemma_clear_bit_bits(x, e as u64, i as u64);
    }
}

/// A subset of a universe has no member outside of it.
pub proof fn lemma_universe_bits(mask: u64, n: nat, i: nat)
    requires
        in_universe(mask, n),
        n <= i,
    ensures
        !has_bit(mask, i),
{
    if i < 64 {
        lemma_shift_zero_bit(mask, n as u64, i as u64);
    }
}

/// Counting further up finds no fewer members, and the rank does not fall.
pub proof fn lemma_below_monotone(mask: u64, a: nat, b: nat)
    requires
        a <= b,
    ensures
        count_below(mask, a) <= count_below(mask, b),
        rank_below(mask, a) <= rank_below(mask, b),
    decreases b,
{
    if a < b {
        lemma_below_monotone(mask, a, (b - 1) as nat);
    }
}

/// Positions without a member change neither the count nor the rank.
pub proof fn lemma_skip_zeros(mask: u64, a: nat, b: nat)
    requires
        a <= b,
        forall|i: nat| a <= i < b ==> !has_bit(mask, i),
    ensures
        count_below(mask, b) == count_below(mask, a),
        rank_below(mask, b) == rank_below(mask, a),
    decreases b,
{
    if a < b {
        lemma_skip_zeros(mask, a, (b - 1) as nat);
    }
}

/// Two masks with the same members below `n` have the same count and rank
/// below `n`.
pub proof fn lemma_below_agree(a: u64, b: u64, n: nat)
    requires
        forall|i: nat| i < n ==> has_bit(a, i) == has_bit(b, i),
    ensures
        count_below(a, n) == count_below(b, n),
        rank_below(a, n) == rank_below(b, n),
    decreases n,
{
    if n > 0 {
        lemma_below_agree(a, b, (n - 1) as nat);
    }
}

/// The rank of the members below `n` is less than the number of subsets of
/// `n` things with as many members.
pub proof fn lemma_rank_bound(mask: u64, n: nat)
    ensures
        rank_below(mask, n) < binomial(n, count_below(mask, n)),
    decreases n,
{
    if n > 0 {
        let m = (n - 1) as nat;
        lemma_rank_bound(mask, m);
        if has_bit(mask, m) {
        } else {
            lemma_binomial_monotone(m, n, count_below(mask, n));
        }
    }
}

/// Number of members of `mask` from position `lo` on.
pub open spec fn count_from(mask: u64, lo: nat) -> nat
    decreases 64 - lo,
{
    if lo >= 64 {
        0
    } else {
        count_from(mask, lo + 1) + if has_bit(mask, lo) {
            1nat
        } else {
            0nat
        }
    }
}

/// What the members of `mask` from position `lo` on add to its rank, where
/// `c` members lie below `lo`.
pub open spec fn rank_from(mask: u64, lo: nat, c: nat) -> nat
    decreases 64 - lo,
{
    if lo >= 64 {
        0
    } else if has_bit(mask, lo) {
        binomial(lo, c + 1) + rank_from(mask, lo + 1, c + 1)
    } else {
        rank_from(mask, lo + 1, c)
    }
}

/// Count and rank are those below a position plus those from it on.
pub proof fn lemma_split(mask: u64, p: nat)
    requires
        p <= 64,
    ensures
        count_below(mask, 64) == count_below(mask, p) + count_from(mask, p),
        rank_below(mask, 64) == rank_below(mask, p) + rank_from(mask, p, count_below(mask, p)),
    decreases 64 - p,
{
    if p < 64 {
        lemma_split(mask, p + 1);
    }
}

/// Positions without a member add nothing.
pub proof fn lemma_from_skip_zeros(mask: u64, a: nat, b: nat, c: nat)
    requires
        a <= b <= 64,
        forall|i: nat| a <= i < b ==> !has_bit(mask, i),
    ensures
        count_from(mask, a) == count_from(mask, b),
        rank_from(mask, a, c) == rank_from(mask, b, c),
    decreases b - a,
{
    if a < b {
        lemma_from_skip_zeros(mask, a + 1, b, c);
    }
}

/// Two masks with the same members from `p` on add the same from `p` on.
pub proof fn lemma_from_agree(a: u64, b: u64, p: nat, c: nat)
    requires
        forall|i: nat| p <= i < 64 ==> has_bit(a, i) == has_bit(b, i),
    ensures
        count_from(a, p) == count_from(b, p),
        rank_from(a, p, c) == rank_from(b, p, c),
    decreases 64 - p,
{
    if p < 64 {
        lemma_from_agree(a, b, p + 1, c);
        lemma_from_agree(a, b, p + 1, c + 1);
    }
}

proof fn lemma_set_bit_universe(x: u64, n: u64, e: u64)
    by (bit_vector)
    requires
        e < n < 64,
    ensures
        x >> n == 0 ==> (x | (1u64 << e)) >> n == 0,
        0u64 >> n == 0,
{
}

/// A subset with one more member of the universe is a subset of the
/// universe, and so is the empty set.
pub proof fn lemma_universe_insert(mask: u64, n: nat, e: nat)
    requires
        in_universe(mask, n) || mask == 0,
        e < n <= 64,
    ensures
        in_universe(mask | (1u64 << (e as u64)), n),
        in_universe(0, n),
{
    if n < 64 {
        lemma_set_bit_universe(mask, n as u64, e as u64);
    }
}

/// In a subset of a universe of size `n`, nothing is counted above `n`.
pub proof fn lemma_universe_count(mask: u64, n: nat)
    requires
        in_universe(mask, n),
        n <= 64,
    ensures
        count_below(mask, 64) == count_below(mask, n),
        rank_below(mask, 64) == rank_below(mask, n),
        popcount(mask) <= n,
{
    assert forall|i: nat| n <= i < 64 implies !has_bit(mask, i) by {
        lemma_universe_bits(mask, n, i);
    }
    lemma_skip_zeros(mask, n, 64);
    lemma_count_bound(mask, n);
}

/// The number of a subset lies below the number of subsets of its size or
/// less.
pub proof fn lemma_encode_bound(n: nat, mask: u64)
    requires
        in_universe(mask, n),
        n <= 64,
    ensures
        size_offset(n, popcount(mask)) <= spec_encode(n, mask) < size_offset(n, popcount(mask) + 1),
{
    lemma_universe_count(mask, n);
    lemma_rank_bound(mask, n);
}

} // verus!
