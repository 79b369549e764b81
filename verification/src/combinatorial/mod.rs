//! A bijection between the subsets of bounded size of a small universe and a
//! contiguous range of integers.
//!
//! A subset of `{0, .., N - 1}` is a bit mask in a `u64`. The subsets with at
//! most `MAX_K` members are numbered by size first, and among subsets of one
//! size by the combinatorial number system: the subset `c_1 < c_2 < .. < c_k`
//! has rank `C(c_1, 1) + C(c_2, 2) + .. + C(c_k, k)` among those of size `k`.

pub mod binomial;
pub mod laws;
pub mod rank;

use crate::mixing::effects::{count_below, has_bit, popcount};
use binomial::{
    binomial, capped, exact_columns, is_pascal_table, lemma_binomial_fits,
    lemma_binomial_positive, lemma_exact_columns, lemma_size_offset_positive, lemma_binomial_monotone, lemma_binomial_diagonal, lemma_binomial_zero,
    lemma_size_offset_monotone, lemma_triangle_index, lemma_triangle_index_bounds,
    lemma_triangle_index_injective, lemma_triangle_len, size_offset, spec_triangle_index,
    triangle_len,
};
use rank::{count_from, rank_from, lemma_split, lemma_from_skip_zeros, lemma_from_agree, lemma_universe_insert, lemma_change_bit, lemma_skip_zeros, lemma_universe_bits, lemma_universe_count, lemma_rank_bound, lemma_below_monotone};
use vstd::prelude::*;
use vstd::std_specs::bits::axiom_u64_trailing_zeros;

verus! {

/// Computes the index into the column-major flat array for the given
/// row and column of Pascal's triangle over rows `0..=n`.
pub fn triangle_index(row: u8, column: u8, n: u8) -> (r: usize)
    requires
        column <= 2 * n,
    ensures
        r == spec_triangle_index(row as nat, column as nat, n as nat),
{
    let width: usize = 2 * (n as usize) - (column as usize) + 1;
    assert(0 <= (column as usize) * width <= 255 * 511) by (nonlinear_arith)
        requires
            0 <= column <= 255,
            0 <= width <= 511,
    ;
    column as usize * width / 2 + (row as usize)
}

/// The entry of Pascal's triangle at `row` and `column`, read from the flat
/// array; no entry lies right of the diagonal, where the value is 0.
pub fn binomial_coeff(triangle: &[u32], row: u8, column: u8, n: u8) -> (r: u32)
    requires
        row <= n,
        triangle@.len() == triangle_len(n as nat),
    ensures
        row < column ==> r == 0,
        row >= column ==> r == triangle@[spec_triangle_index(row as nat, column as nat, n as nat)],
        is_pascal_table(triangle@, n as nat) ==> r == capped(binomial(row as nat, column as nat)),
{
    if row < column {
        proof {
            lemma_binomial_zero(row as nat, column as nat);
        }
        0
    } else {
        proof {
            lemma_triangle_index_bounds(row as nat, column as nat, n as nat);
        }
        triangle[triangle_index(row, column, n)]
    }
}

/// Position `i` is outside the universe of size `n` or not in `mask`: the
/// mask is a subset of the universe.
pub open spec fn in_universe(mask: u64, n: nat) -> bool {
    n >= 64 || mask >> (n as u64) == 0
}

/// Rank of the members of `mask` below position `n` among the subsets with as
/// many members below `n`: the sum, over the members `c` below `n`, of
/// `C(c, i)`, where `c` is the `i`-th smallest member.
pub open spec fn rank_below(mask: u64, n: nat) -> nat
    decreases n,
{
    if n == 0 {
        0
    } else {
        rank_below(mask, (n - 1) as nat) + if has_bit(mask, (n - 1) as nat) {
            binomial((n - 1) as nat, count_below(mask, n))
        } else {
            0
        }
    }
}

/// The number that stands for the subset `mask` of a universe of size `n`:
/// the number of smaller subsets, plus its rank among those of its size.
pub open spec fn spec_encode(n: nat, mask: u64) -> nat {
    size_offset(n, popcount(mask)) + rank_below(mask, 64)
}

/// `mask` is a subset of the universe of size `n` with at most `max_k`
/// members.
pub open spec fn in_domain(n: nat, max_k: nat, mask: u64) -> bool {
    in_universe(mask, n) && popcount(mask) <= max_k
}

/// A universe of size `n` with subsets of up to `max_k` members can be
/// numbered: it has at most 64 things, and the number of these subsets fits
/// 32 bits.
pub open spec fn tables_fit(n: nat, max_k: nat) -> bool {
    &&& max_k <= n <= 64
    &&& size_offset(n, max_k + 1) <= u32::MAX
}

/// `offsets` holds, for each size up to `max_k + 1`, the number of subsets of
/// a universe of size `n` that are smaller.
pub open spec fn is_offset_table(offsets: Seq<u32>, n: nat, max_k: nat) -> bool {
    &&& offsets.len() == max_k + 2
    &&& forall|k: int| 0 <= k <= max_k + 1 ==> #[trigger] offsets[k] == size_offset(n, k as nat)
}

/// The Combinatorial Encoder uses a combinatorial number system to identify
/// each subset of at most `MAX_K` members of a universe of `N` things by one
/// integer. The mapping is contiguous and one-to-one, and it puts smaller
/// subsets before larger ones.
pub struct CombinatorialEncoder<const N: u8, const MAX_K: u8> {
    /// Binomial coefficients (i.e., Pascal's triangle) stored in column-major order
    binom: Vec<u32>,
    /// Offsets for combinations of length $k < MAX_K$.
    size_offsets: Vec<u32>,
}

impl<const N: u8, const MAX_K: u8> CombinatorialEncoder<N, MAX_K> {
    #[verifier::type_invariant]
    spec fn tables_hold(self) -> bool {
        &&& MAX_K <= N <= 64
        &&& is_pascal_table(self.binom@, N as nat)
        &&& exact_columns(self.binom@, N as nat, MAX_K as nat)
        &&& self.size_offsets@.len() == MAX_K + 2
        &&& forall|k: int|
            0 <= k <= MAX_K + 1 ==> #[trigger] self.size_offsets@[k] == size_offset(
                N as nat,
                k as nat,
            )
    }

    /// The flat triangle of binomial coefficients that the encoder holds.
    pub closed spec fn spec_binom(self) -> Seq<u32> {
        self.binom@
    }

    /// The size offsets that the encoder holds.
    pub closed spec fn spec_size_offsets(self) -> Seq<u32> {
        self.size_offsets@
    }

    /// Builds the tables of the encoder: Pascal's triangle over the rows
    /// `0..=N`, and for each size up to `MAX_K + 1` the number of subsets
    /// that are smaller.
    pub fn new() -> (r: Self)
        requires
            tables_fit(N as nat, MAX_K as nat),
        ensures
            is_pascal_table(r.spec_binom(), N as nat),
            exact_columns(r.spec_binom(), N as nat, MAX_K as nat),
            is_offset_table(r.spec_size_offsets(), N as nat, MAX_K as nat),
    {
        match Self::try_new() {
            Some(encoder) => encoder,
            None => vstd::pervasive::unreached(),
        }
    }

    /// Builds the tables of the encoder as `new` does, where the universe
    /// can be numbered, and nothing where it cannot: with more than 64 things,
    /// with `MAX_K` above `N`, or with more subsets than 32 bits count.
    pub fn try_new() -> (r: Option<Self>)
        ensures
            r is Some <==> tables_fit(N as nat, MAX_K as nat),
            r matches Some(encoder) ==> is_pascal_table(encoder.spec_binom(), N as nat)
                && exact_columns(encoder.spec_binom(), N as nat, MAX_K as nat) && is_offset_table(
                encoder.spec_size_offsets(),
                N as nat,
                MAX_K as nat,
            ),
    {
        if N > 64 || MAX_K > N {
            return None;
        }
        let binom = Self::pascal_table();
        let mut size_offsets = vec![0u32; (MAX_K + 2) as usize];
        let mut running_total = 0u32;
        let mut k: u8 = 0;
        while k < MAX_K + 1
            invariant
                k <= MAX_K + 1,
                MAX_K <= N <= 64,
                size_offsets@.len() == MAX_K + 2,
                is_pascal_table(binom@, N as nat),
                running_total == size_offset(N as nat, k as nat),
                forall|j: int|
                    0 <= j < k ==> #[trigger] size_offsets@[j] == size_offset(N as nat, j as nat),
            decreases MAX_K + 1 - k,
        {
            size_offsets.set(k as usize, running_total);
            proof {
                lemma_triangle_index_bounds(N as nat, k as nat, N as nat);
                lemma_size_offset_monotone(N as nat, (k + 1) as nat, (MAX_K + 1) as nat);
                lemma_binomial_diagonal(0);
                if k >= 1 {
                    lemma_size_offset_positive(N as nat, k as nat);
                } else {
                    lemma_binomial_positive(N as nat, 0);
                    lemma_binomial_monotone(0, N as nat, 0);
                    lemma_binomial_fits(N as nat, 0, N as nat, 0);
                    assert(size_offset(N as nat, 1) == size_offset(N as nat, 0) + binomial(
                        N as nat,
                        0,
                    ));
                    assert(binomial(N as nat, 0) == 1);
                }
            }
            running_total = match running_total.checked_add(binom[triangle_index(N, k, N)]) {
                Some(total) => total,
                None => {
                    return None;
                },
            };
            k += 1;
        }
        // Record maximum value as well
        size_offsets.set(MAX_K as usize + 1, running_total);
        proof {
            lemma_exact_columns(binom@, N as nat, MAX_K as nat);
        }
        Some(Self { binom, size_offsets })
    }

    /// Pascal's triangle over the rows `0..=N`, column by column, with the
    /// largest entry in the place of a coefficient that fits no entry.
    fn pascal_table() -> (binom: Vec<u32>)
        requires
            N <= 64,
        ensures
            is_pascal_table(binom@, N as nat),
    {
        let n = N as usize;
        assert(0 < (n + 1) * (n + 2) <= 65 * 66) by (nonlinear_arith)
            requires
                0 <= n <= 64,
        ;
        let mut binom = vec![0u32; (n + 1) * (n + 2) / 2];
        proof {
            lemma_triangle_index_bounds(0, 0, N as nat);
            assert(spec_triangle_index(0, 0, N as nat) == 0) by (nonlinear_arith);
            lemma_binomial_diagonal(0);
        }

        // Build pascal's triangle using the relationship: (n choose k) = (n-1 choose k-1) + (n-1 choose k)
        // Add the (0,0)th entry.
        binom.set(0, 1);

        let mut row: u8 = 1;
        while row <= N
            invariant
                1 <= row <= N + 1,
                N <= 64,
                binom@.len() == triangle_len(N as nat),
                forall|r: nat, c: nat|
                    c <= r < row ==> #[trigger] binom@[spec_triangle_index(r, c, N as nat)]
                        == capped(binomial(r, c)),
            decreases N + 1 - row,
        {
            let mut column: u8 = 0;
            while column <= row
                invariant
                    1 <= row <= N <= 64,
                    column <= row + 1,
                    binom@.len() == triangle_len(N as nat),
                    forall|r: nat, c: nat|
                        c <= r < row ==> #[trigger] binom@[spec_triangle_index(r, c, N as nat)]
                            == capped(binomial(r, c)),
                    forall|c: nat|
                        c < column ==> #[trigger] binom@[spec_triangle_index(
                            row as nat,
                            c,
                            N as nat,
                        )] == capped(binomial(row as nat, c)),
                decreases row + 1 - column,
            {
                let value = if column == 0 || column == row {
                    proof {
                        lemma_binomial_diagonal(row as nat);
                    }
                    1
                } else {
                    let left = binomial_coeff(binom.as_slice(), row - 1, column - 1, N);
                    let above = binomial_coeff(binom.as_slice(), row - 1, column, N);
                    proof {
                        if column <= row - 1 {
                            assert(above == capped(binomial((row - 1) as nat, column as nat)));
                        } else {
                            lemma_binomial_zero((row - 1) as nat, column as nat);
                        }
                        assert(left == capped(binomial((row - 1) as nat, (column - 1) as nat)));
                    }
                    left.saturating_add(above)
                };
                proof {
                    lemma_triangle_index_bounds(row as nat, column as nat, N as nat);
                }
                let at = triangle_index(row, column, N);
                let ghost before = binom@;
                binom.set(at, value);
                proof {
                    assert forall|r: nat, c: nat| c <= r < row implies #[trigger] binom@[spec_triangle_index(
                        r,
                        c,
                        N as nat,
                    )] == capped(binomial(r, c)) by {
                        lemma_triangle_index_bounds(r, c, N as nat);
                        if spec_triangle_index(r, c, N as nat) == at {
                            lemma_triangle_index_injective(r, c, row as nat, column as nat, N as nat);
                        }
                        assert(before[spec_triangle_index(r, c, N as nat)] == capped(
                            binomial(r, c),
                        ));
                    }
                    assert forall|c: nat| c < column + 1 implies #[trigger] binom@[spec_triangle_index(
                        row as nat,
                        c,
                        N as nat,
                    )] == capped(binomial(row as nat, c)) by {
                        lemma_triangle_index_bounds(row as nat, c, N as nat);
                        if c < column {
                            if spec_triangle_index(row as nat, c, N as nat) == at {
                                lemma_triangle_index_injective(
                                    row as nat,
                                    c,
                                    row as nat,
                                    column as nat,
                                    N as nat,
                                );
                            }
                            assert(before[spec_triangle_index(row as nat, c, N as nat)] == capped(
                                binomial(row as nat, c),
                            ));
                        }
                    }
                }
                column += 1;
            }
            row += 1;
        }
        binom
    }

    /// Encodes a combination (represented as a bitset) as an integer.
    pub fn encode(&self, bitset: u64) -> (r: u32)
        requires
            in_domain(N as nat, MAX_K as nat, bitset),
        ensures
            r == spec_encode(N as nat, bitset),
            r < size_offset(N as nat, (MAX_K + 1) as nat),
    {
        proof {
            use_type_invariant(self);
            lemma_universe_count(bitset, N as nat);
            lemma_rank_bound(bitset, N as nat);
            lemma_triangle_index_bounds(N as nat, popcount(bitset), N as nat);
            lemma_size_offset_monotone(N as nat, popcount(bitset) + 1, (MAX_K + 1) as nat);
            assert(self.binom@[spec_triangle_index(N as nat, popcount(bitset), N as nat)]
                == binomial(N as nat, popcount(bitset)));
            assert(self.size_offsets@[MAX_K + 1] == size_offset(N as nat, (MAX_K + 1) as nat));
            assert(self.size_offsets@[popcount(bitset) as int] == size_offset(
                N as nat,
                popcount(bitset),
            ));
        }
        let k = bitset.count_ones() as usize;

        let mut local_idx: u32 = 0;
        let mut remaining = bitset;
        let mut counter: u8 = 1;
        let ghost mut pos: nat = 0;
        while remaining > 0
            invariant
                pos <= 64,
                N <= 64,
                in_universe(bitset, N as nat),
                popcount(bitset) <= MAX_K,
                exact_columns(self.binom@, N as nat, MAX_K as nat),
                rank_below(bitset, 64) <= u32::MAX,
                forall|i: nat| i < 64 ==> has_bit(remaining, i) == (has_bit(bitset, i) && i >= pos),
                local_idx == rank_below(bitset, pos),
                counter == count_below(bitset, pos) + 1,
            decreases 64 - pos,
        {
            let elem = remaining.trailing_zeros();
            proof {
                axiom_u64_trailing_zeros(remaining);
                assert(elem < 64);
                assert(has_bit(remaining, elem as nat));
                assert forall|i: nat| pos <= i < elem implies !has_bit(bitset, i) by {
                    assert((remaining >> (i as u64)) & 1u64 == 0u64);
                    assert(!has_bit(remaining, i));
                }
                lemma_skip_zeros(bitset, pos, elem as nat);
                if elem >= N {
                    lemma_universe_bits(bitset, N as nat, elem as nat);
                }
                lemma_below_monotone(bitset, (elem + 1) as nat, 64);
                lemma_rank_bound(bitset, elem as nat);
                crate::mixing::effects::lemma_count_bound(bitset, elem as nat);
                assert forall|i: nat| i < 64 implies has_bit(remaining & !(1u64 << elem), i) == (
                has_bit(bitset, i) && i >= elem + 1) by {
                    lemma_change_bit(remaining, elem as nat, i);
                }
            }
            // Zero out the last bit
            remaining = remaining & !(1u64 << elem);
            let term = if elem < counter as u32 {
                proof {
                    lemma_binomial_zero(elem as nat, counter as nat);
                }
                0
            } else {
                proof {
                    lemma_triangle_index_bounds(elem as nat, counter as nat, N as nat);
                }
                self.binom[triangle_index(elem as u8, counter, N)]
            };
            local_idx += term;
            counter += 1;
            proof {
                pos = (elem + 1) as nat;
            }
        }
        proof {
            assert forall|i: nat| pos <= i < 64 implies !has_bit(bitset, i) by {
                lemma_change_bit(0, 0, i);
            }
            lemma_skip_zeros(bitset, pos, 64);
        }

        self.size_offsets[k] + local_idx
    }

    /// Decodes an integer into a combination.
    pub fn decode(&self, index: u32) -> (r: u64)
        requires
            index < size_offset(N as nat, (MAX_K + 1) as nat),
        ensures
            in_domain(N as nat, MAX_K as nat, r),
            spec_encode(N as nat, r) == index,
    {
        proof {
            use_type_invariant(self);
        }
        let mut k: u8 = 0;
        while k < MAX_K && self.size_offsets[(k + 1) as usize] <= index
            invariant
                k <= MAX_K,
                self.size_offsets@.len() == MAX_K + 2,
                self.size_offsets@[k as int] <= index,
                forall|j: int|
                    0 <= j <= MAX_K + 1 ==> #[trigger] self.size_offsets@[j] == size_offset(
                        N as nat,
                        j as nat,
                    ),
            decreases MAX_K - k,
        {
            k += 1;
        }
        let ghost size = k as nat;
        assert(self.size_offsets@[k + 1] == size_offset(N as nat, (k + 1) as nat));

        let mut bitset: u64 = 0;
        let mut local_idx = index - self.size_offsets[k as usize];
        let ghost local = local_idx as nat;
        let ghost mut top: nat = N as nat;
        proof {
            assert forall|i: nat| i < 64 implies !has_bit(bitset, i) by {
                lemma_change_bit(0, 0, i);
            }
            lemma_from_skip_zeros(bitset, top, 64, k as nat);
            if N > 0 {
                lemma_universe_insert(0, N as nat, 0);
            } else {
                assert(0u64 >> 0u64 == 0) by (bit_vector);
            }
        }
        while k > 0
            invariant
                k <= top <= N <= 64,
                k <= MAX_K <= N,
                exact_columns(self.binom@, N as nat, MAX_K as nat),
                local_idx < binomial(top, k as nat),
                forall|i: nat| i < top ==> !has_bit(bitset, i),
                in_universe(bitset, N as nat),
                local == local_idx + rank_from(bitset, top, k as nat),
                count_from(bitset, top) + k == size,
            decreases k,
        {
            let mut elem = N;
            proof {
                lemma_triangle_index_bounds(N as nat, k as nat, N as nat);
                lemma_binomial_monotone(top, N as nat, k as nat);
            }
            let mut value = self.binom[triangle_index(elem, k, N)];
            while value > local_idx
                invariant
                    elem <= N <= 64,
                    1 <= k <= N,
                    k <= MAX_K,
                    exact_columns(self.binom@, N as nat, MAX_K as nat),
                    value == binomial(elem as nat, k as nat),
                    binomial(N as nat, k as nat) > local_idx,
                    elem == N || binomial((elem + 1) as nat, k as nat) > local_idx,
                decreases elem,
            {
                proof {
                    if elem < k {
                        lemma_binomial_zero(elem as nat, k as nat);
                    }
                }
                elem -= 1;
                value = if elem < k {
                    proof {
                        lemma_binomial_zero(elem as nat, k as nat);
                    }
                    0
                } else {
                    proof {
                        lemma_triangle_index_bounds(elem as nat, k as nat, N as nat);
                    }
                    self.binom[triangle_index(elem, k, N)]
                };
            }
            proof {
                if elem >= top {
                    lemma_binomial_monotone(top, elem as nat, k as nat);
                }
                if elem + 1 < k {
                    lemma_binomial_zero((elem + 1) as nat, k as nat);
                }
                let after = bitset | (1u64 << elem);
                assert forall|i: nat| has_bit(after, i) == (has_bit(bitset, i) || i == elem) by {
                    lemma_change_bit(bitset, elem as nat, i);
                }
                lemma_from_skip_zeros(after, (elem + 1) as nat, top, k as nat);
                lemma_from_agree(after, bitset, top, k as nat);
                lemma_universe_insert(bitset, N as nat, elem as nat);
            }
            bitset = bitset | (1u64 << elem);
            local_idx -= value;
            k -= 1;
            proof {
                top = elem as nat;
            }
        }
        proof {
            crate::mixing::effects::lemma_count_bound(bitset, top);
            lemma_skip_zeros(bitset, 0, top);
            lemma_split(bitset, top);
        }

        bitset
    }

    /// The flat triangle of binomial coefficients, column by column.
    pub fn binom(&self) -> (r: &Vec<u32>)
        ensures
            r@ == self.spec_binom(),
            is_pascal_table(r@, N as nat),
            exact_columns(r@, N as nat, MAX_K as nat),
    {
        proof {
            use_type_invariant(self);
        }
        &self.binom
    }

    /// For each size up to `MAX_K + 1` the number of subsets that are smaller.
    pub fn size_offsets(&self) -> (r: &Vec<u32>)
        ensures
            r@ == self.spec_size_offsets(),
            is_offset_table(r@, N as nat, MAX_K as nat),
    {
        proof {
            use_type_invariant(self);
        }
        &self.size_offsets
    }

    /// The number of subsets with at most `MAX_K` members: the numbers that
    /// stand for one are those below it.
    pub fn maximum_index(&self) -> (r: u32)
        ensures
            r == size_offset(N as nat, (MAX_K + 1) as nat),
            MAX_K <= N <= 64,
    {
        proof {
            use_type_invariant(self);
        }
        self.size_offsets[(MAX_K + 1) as usize]
    }
}

} // verus!
