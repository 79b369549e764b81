//! Binomial coefficients and their layout in a flat triangle.

use vstd::prelude::*;

verus! {

/// The number of ways to choose `k` things out of `n`.
pub open spec fn binomial(n: nat, k: nat) -> nat
    decreases n,
{
    if k == 0 {
        1
    } else if n == 0 {
        0
    } else {
        binomial((n - 1) as nat, (k - 1) as nat) + binomial((n - 1) as nat, k)
    }
}

/// There is no way to choose more than there is.
pub proof fn lemma_binomial_zero(n: nat, k: nat)
    requires
        n < k,
    ensures
        binomial(n, k) == 0,
    decreases n,
{
    if n > 0 {
        lemma_binomial_zero((n - 1) as nat, (k - 1) as nat);
        lemma_binomial_zero((n - 1) as nat, k);
    }
}

/// There is one way to choose everything.
pub proof fn lemma_binomial_diagonal(n: nat)
    ensures
        binomial(n, n) == 1,
    decreases n,
{
    if n > 0 {
        lemma_binomial_diagonal((n - 1) as nat);
        lemma_binomial_zero((n - 1) as nat, n);
    }
}

/// There is a way to choose no more than there is.
pub proof fn lemma_binomial_positive(n: nat, k: nat)
    requires
        k <= n,
    ensures
        binomial(n, k) >= 1,
    decreases n,
{
    if k > 0 && n > 0 {
        lemma_binomial_positive((n - 1) as nat, (k - 1) as nat);
    }
}

/// With more to choose from there are no fewer ways.
pub proof fn lemma_binomial_monotone(n: nat, m: nat, k: nat)
    requires
        n <= m,
    ensures
        binomial(n, k) <= binomial(m, k),
    decreases m,
{
    if n < m && k > 0 {
        lemma_binomial_monotone(n, (m - 1) as nat, k);
    }
}

/// Sum of the binomial coefficients `C(n, j)` over `j < k`: the number of
/// subsets of `n` things with fewer than `k` members.
pub open spec fn size_offset(n: nat, k: nat) -> nat
    decreases k,
{
    if k == 0 {
        0
    } else {
        size_offset(n, (k - 1) as nat) + binomial(n, (k - 1) as nat)
    }
}

/// The offsets do not fall.
pub proof fn lemma_size_offset_monotone(n: nat, j: nat, k: nat)
    requires
        j <= k,
    ensures
        size_offset(n, j) <= size_offset(n, k),
    decreases k,
{
    if j < k {
        lemma_size_offset_monotone(n, j, (k - 1) as nat);
    }
}

/// Where column `column` of the triangle over rows `0..=n` would begin if
/// every column began at row 0: each column `c` holds the rows `c..=n`, stored
/// behind each other.
pub open spec fn column_start(column: nat, n: nat) -> int
    decreases column,
{
    if column == 0 {
        0
    } else {
        column_start((column - 1) as nat, n) + n - (column - 1)
    }
}

/// Position of the entry at `row` and `column` of Pascal's triangle in a flat
/// array that stores the triangle over rows `0..=n` column by column.
pub open spec fn spec_triangle_index(row: nat, column: nat, n: nat) -> int {
    column * (2 * n - column + 1) / 2 + row
}

/// The closed form of the index is the start of the column plus the row.
pub proof fn lemma_triangle_index(row: nat, column: nat, n: nat)
    requires
        column <= 2 * n + 1,
    ensures
        spec_triangle_index(row, column, n) == column_start(column, n) + row,
        column * (2 * n - column + 1) == 2 * column_start(column, n),
    decreases column,
{
    if column > 0 {
        let c = (column - 1) as nat;
        lemma_triangle_index(row, c, n);
        assert(column * (2 * n - column + 1) == c * (2 * n - c + 1) + 2 * n - 2 * c)
            by (nonlinear_arith)
            requires
                column == c + 1,
        ;
    } else {
        assert(column * (2 * n - column + 1) == 0) by (nonlinear_arith)
            requires
                column == 0,
        ;
    }
}

/// The columns lie behind each other: a later column starts, with its first
/// row, behind the last row of an earlier one.
pub proof fn lemma_columns_ordered(c1: nat, c2: nat, n: nat)
    requires
        c1 < c2 <= n + 1,
    ensures
        column_start(c1, n) + n < column_start(c2, n) + c2,
    decreases c2,
{
    if c1 + 1 < c2 {
        lemma_columns_ordered(c1, (c2 - 1) as nat, n);
    }
}

/// Number of entries of the triangle over rows `0..=n`.
pub open spec fn triangle_len(n: nat) -> int {
    ((n + 1) * (n + 2) / 2) as int
}

/// The triangle ends where column `n + 1` would begin.
pub proof fn lemma_triangle_len(n: nat)
    ensures
        triangle_len(n) == column_start(n + 1, n) + n + 1,
{
    lemma_triangle_index(0, n + 1, n);
    assert((n + 1) * (2 * n - (n + 1) + 1) + 2 * (n + 1) == (n + 1) * (n + 2))
        by (nonlinear_arith);
}

/// Every entry of the triangle has a place in the flat array.
pub proof fn lemma_triangle_index_bounds(row: nat, column: nat, n: nat)
    requires
        column <= row <= n,
    ensures
        0 <= spec_triangle_index(row, column, n) < triangle_len(n),
{
    lemma_triangle_index(row, column, n);
    lemma_triangle_len(n);
    lemma_columns_ordered(column, n + 1, n);
    lemma_column_start_nonnegative(column, n);
}

/// Columns start at or behind the beginning of the array.
pub proof fn lemma_column_start_nonnegative(column: nat, n: nat)
    requires
        column <= n + 1,
    ensures
        column_start(column, n) >= 0,
    decreases column,
{
    if column > 0 {
        lemma_column_start_nonnegative((column - 1) as nat, n);
    }
}

/// No two entries of the triangle share a place.
pub proof fn lemma_triangle_index_injective(r1: nat, c1: nat, r2: nat, c2: nat, n: nat)
    requires
        c1 <= r1 <= n,
        c2 <= r2 <= n,
        spec_triangle_index(r1, c1, n) == spec_triangle_index(r2, c2, n),
    ensures
        r1 == r2,
        c1 == c2,
{
    lemma_triangle_index(r1, c1, n);
    lemma_triangle_index(r2, c2, n);
    if c1 < c2 {
        lemma_columns_ordered(c1, c2, n);
    }
    if c2 < c1 {
        lemma_columns_ordered(c2, c1, n);
    }
}

/// A number as a table of 32-bit entries holds it: itself, or the largest
/// entry there is where it is larger.
pub open spec fn capped(x: nat) -> nat {
    if x <= u32::MAX {
        x
    } else {
        u32::MAX as nat
    }
}

/// `table` stores Pascal's triangle over rows `0..=n`, column by column:
/// each binomial coefficient that fits an entry, and the largest entry in
/// the place of one that does not.
pub open spec fn is_pascal_table(table: Seq<u32>, n: nat) -> bool {
    &&& table.len() == triangle_len(n)
    &&& forall|row: nat, column: nat|
        column <= row <= n ==> #[trigger] table[spec_triangle_index(row, column, n)] == capped(
            binomial(row, column),
        )
}

/// The columns `0..=max_k` of `table` hold the binomial coefficients
/// themselves.
pub open spec fn exact_columns(table: Seq<u32>, n: nat, max_k: nat) -> bool {
    &&& table.len() == triangle_len(n)
    &&& forall|row: nat, column: nat|
        column <= row <= n && column <= max_k ==> #[trigger] table[spec_triangle_index(
            row,
            column,
            n,
        )] == binomial(row, column)
}

/// No binomial coefficient of the columns `0..=max_k` is larger than the
/// number of subsets with at most `max_k` members.
pub proof fn lemma_binomial_fits(n: nat, max_k: nat, row: nat, column: nat)
    requires
        row <= n,
        column <= max_k,
    ensures
        binomial(row, column) <= size_offset(n, max_k + 1),
{
    lemma_binomial_monotone(row, n, column);
    lemma_size_offset_monotone(n, column + 1, max_k + 1);
}

/// Where the number of subsets with at most `max_k` members fits an entry,
/// the table holds the binomial coefficients of the columns `0..=max_k`
/// themselves.
pub proof fn lemma_exact_columns(table: Seq<u32>, n: nat, max_k: nat)
    requires
        is_pascal_table(table, n),
        size_offset(n, max_k + 1) <= u32::MAX,
    ensures
        exact_columns(table, n, max_k),
{
    assert forall|row: nat, column: nat| column <= row <= n && column <= max_k implies #[trigger] table[spec_triangle_index(
        row,
        column,
        n,
    )] == binomial(row, column) by {
        lemma_binomial_fits(n, max_k, row, column);
    }
}

/// There is at least the empty subset.
pub proof fn lemma_size_offset_positive(n: nat, k: nat)
    requires
        k >= 1,
    ensures
        size_offset(n, k) >= 1,
{
    lemma_size_offset_monotone(n, 1, k);
    assert(size_offset(n, 0) == 0);
    assert(size_offset(n, 1) == size_offset(n, 0) + binomial(n, 0));
}

} // verus!
