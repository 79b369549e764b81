//! What holds of the numbering of subsets: it keeps sizes and masks in order,
//! and no two subsets share a number.

use super::binomial::{lemma_size_offset_monotone, size_offset};
use super::rank::{
    count_from, lemma_encode_bound, lemma_from_agree, lemma_rank_bound, lemma_split, rank_from,
};
use super::{in_domain, in_universe, rank_below, spec_encode};
use crate::mixing::effects::{count_below, has_bit, popcount};
use vstd::prelude::*;

verus! {

/// The members of `mask` up to position `t`, as a mask.
pub open spec fn low_bits(mask: u64, t: u64) -> u64 {
    mask & (0xffff_ffff_ffff_ffffu64 >> ((63 - t) as u64))
}

proof fn lemma_low_bits_step(a: u64, b: u64, t: u64)
    by (bit_vector)
    requires
        t < 64,
    ensures
        t == 63 ==> a & (0xffff_ffff_ffff_ffffu64 >> ((63 - t) as u64)) == a && b & (
        0xffff_ffff_ffff_ffffu64 >> ((63 - t) as u64)) == b,
        (a & (0xffff_ffff_ffff_ffffu64 >> ((63 - t) as u64))) < (b & (0xffff_ffff_ffff_ffffu64 >> ((
        63 - t) as u64))) ==> ((a >> t) & 1 == 0 && (b >> t) & 1 == 1) || ((a >> t) & 1 == (b >> t)
            & 1 && t > 0 && (a & ((0xffff_ffff_ffff_ffffu64 >> ((63 - t) as u64)) >> 1)) < (b & ((
        0xffff_ffff_ffff_ffffu64 >> ((63 - t) as u64)) >> 1))),
        t > 0 ==> (0xffff_ffff_ffff_ffffu64 >> ((63 - t) as u64)) >> 1 == 0xffff_ffff_ffff_ffffu64
            >> ((63 - (t - 1)) as u64),
{
}

/// Of two masks that agree above position `t` and of which the first is
/// smaller up to `t`, the highest position where they differ is in the second
/// and not in the first.
proof fn lemma_highest_difference(a: u64, b: u64, t: nat) -> (h: nat)
    requires
        t < 64,
        low_bits(a, t as u64) < low_bits(b, t as u64),
        forall|i: nat| t < i < 64 ==> has_bit(a, i) == has_bit(b, i),
    ensures
        h <= t,
        !has_bit(a, h),
        has_bit(b, h),
        forall|i: nat| h < i < 64 ==> has_bit(a, i) == has_bit(b, i),
    decreases t,
{
    lemma_low_bits_step(a, b, t as u64);
    if (a >> (t as u64)) & 1 == 0 && (b >> (t as u64)) & 1 == 1 {
        t
    } else {
        assert(low_bits(a, (t - 1) as u64) < low_bits(b, (t - 1) as u64));
        assert(has_bit(a, t) == has_bit(b, t));
        lemma_highest_difference(a, b, (t - 1) as nat)
    }
}

/// A subset with fewer members has the smaller number.
pub proof fn lemma_encode_orders_sizes(n: nat, a: u64, b: u64)
    requires
        n <= 64,
        in_universe(a, n),
        in_universe(b, n),
        popcount(a) < popcount(b),
    ensures
        spec_encode(n, a) < spec_encode(n, b),
{
    lemma_encode_bound(n, a);
    lemma_encode_bound(n, b);
    lemma_size_offset_monotone(n, popcount(a) + 1, popcount(b));
}

/// Of two subsets with equally many members, the one that comes first when
/// the members are compared from the largest down, which is the one with the
/// smaller mask, has the smaller number.
pub proof fn lemma_encode_orders_masks(n: nat, a: u64, b: u64)
    requires
        popcount(a) == popcount(b),
        a < b,
    ensures
        rank_below(a, 64) < rank_below(b, 64),
        spec_encode(n, a) < spec_encode(n, b),
{
    lemma_low_bits_step(a, b, 63);
    let h = lemma_highest_difference(a, b, 63);
    let above = h + 1;
    lemma_split(a, above);
    lemma_split(b, above);
    lemma_from_agree(a, b, above, count_below(a, above));
    lemma_rank_bound(a, h);
}

/// No two subsets of the universe have the same number.
pub proof fn lemma_encode_injective(n: nat, a: u64, b: u64)
    requires
        n <= 64,
        in_universe(a, n),
        in_universe(b, n),
        spec_encode(n, a) == spec_encode(n, b),
    ensures
        a == b,
{
    if popcount(a) < popcount(b) {
        lemma_encode_orders_sizes(n, a, b);
    } else if popcount(b) < popcount(a) {
        lemma_encode_orders_sizes(n, b, a);
    } else if a < b {
        lemma_encode_orders_masks(n, a, b);
    } else if b < a {
        lemma_encode_orders_masks(n, b, a);
    }
}

/// Decoding the number of a subset gives the subset again: the one subset
/// with that number is the subset itself.
pub proof fn lemma_decode_encode(n: nat, max_k: nat, mask: u64, decoded: u64)
    requires
        n <= 64,
        in_domain(n, max_k, mask),
        in_domain(n, max_k, decoded),
        spec_encode(n, decoded) == spec_encode(n, mask),
    ensures
        decoded == mask,
{
    lemma_encode_injective(n, decoded, mask);
}

/// The numbers of the subsets with at most `max_k` members lie below the
/// number of such subsets.
pub proof fn lemma_encode_in_range(n: nat, max_k: nat, mask: u64)
    requires
        n <= 64,
        in_domain(n, max_k, mask),
    ensures
        spec_encode(n, mask) < size_offset(n, max_k + 1),
{
    lemma_encode_bound(n, mask);
    lemma_size_offset_monotone(n, popcount(mask) + 1, max_k + 1);
}

/// The subset that a number stands for.
pub open spec fn spec_decode(n: nat, max_k: nat, index: nat) -> u64 {
    choose|mask: u64| in_domain(n, max_k, mask) && spec_encode(n, mask) == index
}

/// A subset of the domain with a number is the subset that the number stands
/// for.
pub proof fn lemma_decode_unique(n: nat, max_k: nat, index: nat, mask: u64)
    requires
        n <= 64,
        in_domain(n, max_k, mask),
        spec_encode(n, mask) == index,
    ensures
        spec_decode(n, max_k, index) == mask,
{
    lemma_encode_injective(n, spec_decode(n, max_k, index), mask);
}

} // verus!
