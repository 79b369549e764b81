//! What to do with a new recipe, given the stored recipes with the same base
//! product and effects.

use super::pareto::{compare, domination, DominationResult};
use vstd::prelude::*;
use vstd::std_specs::cmp::OrdSpec;

verus! {

/// A stored recipe: its row number, its cost and its length.
pub type StoredRecipe = (i32, u16, u8);

/// The new recipe has no room: a stored recipe with the same base product and
/// effects is as cheap and as short.
pub open spec fn refused(rows: Seq<StoredRecipe>, cost: i64, mixins: usize) -> bool {
    exists|i: int| 0 <= i < rows.len() && (#[trigger] rows[i]).1 <= cost && rows[i].2 <= mixins
}

/// The new recipe beats the stored one: it is no dearer and no longer, and
/// cheaper or shorter.
pub open spec fn replaces(row: StoredRecipe, cost: i64, mixins: usize) -> bool {
    cost <= row.1 && mixins <= row.2 && (cost < row.1 || mixins < row.2)
}

/// The row numbers of the stored recipes that the new recipe beats, in the
/// order of the rows.
pub open spec fn replaced(rows: Seq<StoredRecipe>, cost: i64, mixins: usize) -> Seq<i32>
    decreases rows.len(),
{
    if rows.len() == 0 {
        Seq::empty()
    } else if replaces(rows.last(), cost, mixins) {
        replaced(rows.drop_last(), cost, mixins).push(rows.last().0)
    } else {
        replaced(rows.drop_last(), cost, mixins)
    }
}

/// How two pairs of a cost and a length compare.
pub proof fn lemma_compare_numbers(cost_a: i64, len_a: usize, cost_b: i64, len_b: usize)
    ensures
        i64::obeys_cmp_spec(),
        usize::obeys_cmp_spec(),
        domination(cost_a.cmp_spec(&cost_b), len_a.cmp_spec(&len_b)) == (if cost_a == cost_b
            && len_a == len_b {
            DominationResult::Equal
        } else if cost_a <= cost_b && len_a <= len_b {
            DominationResult::FirstDominates
        } else if cost_a >= cost_b && len_a >= len_b {
            DominationResult::SecondDominates
        } else {
            DominationResult::NonDominated
        }),
{
}

fn wide_cost(cost: u16) -> (r: i64)
    ensures
        r == cost,
{
    cost as i64
}

fn wide_length(mixins: u8) -> (r: usize)
    ensures
        r == mixins,
{
    mixins as usize
}

/// Decides what becomes of a new recipe with the given cost and length,
/// against the stored recipes with the same base product and effects: `None`
/// where one of them is as cheap and as short, so that the new recipe is left
/// out; else the row numbers of the stored recipes that the new one beats and
/// that are to go when it is stored.
pub fn plan_add(rows: &Vec<StoredRecipe>, item_cost: i64, num_mixins: usize) -> (r: Option<
    Vec<i32>,
>)
    ensures
        r is None <==> refused(rows@, item_cost, num_mixins),
        r matches Some(ids) ==> ids@ == replaced(rows@, item_cost, num_mixins),
{
    let mut dominated: Vec<i32> = Vec::new();
    let mut i: usize = 0;
    while i < rows.len()
        invariant
            i <= rows@.len(),
            !refused(first_rows(rows@, i), item_cost, num_mixins),
            dominated@ == replaced(first_rows(rows@, i), item_cost, num_mixins),
        decreases rows@.len() - i,
    {
        let (id, cost, mixins) = rows[i];
        let stored_cost = wide_cost(cost);
        let stored_length = wide_length(mixins);
        proof {
            lemma_compare_numbers(item_cost, num_mixins, stored_cost, stored_length);
            lemma_take_next(rows@, i);
        }
        match compare(item_cost, num_mixins, stored_cost, stored_length) {
            DominationResult::FirstDominates => {
                // If the new item dominates an old one, we want to remove those old ones.
                dominated.push(id);
            },
            DominationResult::SecondDominates => {
                // If the new item is dominated or is moot, exit early
                return None;
            },
            DominationResult::Equal => {
                return None;
            },
            DominationResult::NonDominated => {},
        }
        proof {
            lemma_not_refused_next(rows@, i, item_cost, num_mixins);
        }
        i += 1;
    }
    proof {
        lemma_take_all(rows@, i);
    }
    Some(dominated)
}

/// The first `i` rows.
pub open spec fn first_rows(rows: Seq<StoredRecipe>, i: usize) -> Seq<StoredRecipe> {
    rows.take(i as int)
}

proof fn lemma_take_all(rows: Seq<StoredRecipe>, n: usize)
    requires
        n == rows.len(),
    ensures
        first_rows(rows, n) == rows,
{
}

proof fn lemma_take_next(s: Seq<StoredRecipe>, i: usize)
    requires
        i < s.len(),
    ensures
        s.take(i + 1).drop_last() == s.take(i as int),
        s.take(i + 1).last() == s[i as int],
        s.take(i + 1)[i as int] == s[i as int],
{
}

proof fn lemma_not_refused_next(rows: Seq<StoredRecipe>, i: usize, cost: i64, mixins: usize)
    requires
        i < rows.len(),
        !refused(rows.take(i as int), cost, mixins),
        !(rows[i as int].1 <= cost && rows[i as int].2 <= mixins),
    ensures
        !refused(rows.take(i + 1), cost, mixins),
{
    if refused(rows.take(i + 1), cost, mixins) {
        let k = choose|k: int|
            0 <= k < rows.take(i + 1).len() && (#[trigger] rows.take(i + 1)[k]).1 <= cost
                && rows.take(i + 1)[k].2 <= mixins;
        if k < i {
            assert(rows.take(i as int)[k] == rows.take(i + 1)[k]);
        }
    }
}

} // verus!
