//! A Pareto front over two objectives: a set of items of which none is at
//! least as good as another in both.

use std::cmp::Ordering;
use vstd::laws_cmp::obeys_cmp;
use vstd::prelude::*;
use super::removal::{
    at, bound_at, in_place, lemma_listed_push, lemma_removing_done, lemma_removing_start,
    lemma_removing_step, listed, place_of, rearranged, rearranged_by, removing, rising,
    swap_removed,
};
use vstd::std_specs::cmp::{OrdSpec, PartialEqSpec, PartialOrdSpec};

verus! {

/// Represents the possible domination relationships between two items.
#[derive(Debug, PartialEq, Eq, Structural, Clone, Copy)]
pub enum DominationResult {
    /// The first item dominates the second item.
    FirstDominates,
    /// The second item dominates the first item.
    SecondDominates,
    /// Neither item dominates the other.
    NonDominated,
    /// The two items have identical objectives.
    Equal,
}

/// The relationship of two items, from how their first objectives compare
/// and how their second objectives compare: an item dominates another where
/// it is no larger in both objectives and smaller in one.
pub open spec fn domination(first: Ordering, second: Ordering) -> DominationResult {
    match (first, second) {
        (Ordering::Less, Ordering::Less) => DominationResult::FirstDominates,
        (Ordering::Less, Ordering::Equal) => DominationResult::FirstDominates,
        (Ordering::Equal, Ordering::Less) => DominationResult::FirstDominates,
        (Ordering::Greater, Ordering::Equal) => DominationResult::SecondDominates,
        (Ordering::Greater, Ordering::Greater) => DominationResult::SecondDominates,
        (Ordering::Equal, Ordering::Greater) => DominationResult::SecondDominates,
        (Ordering::Equal, Ordering::Equal) => DominationResult::Equal,
        _ => DominationResult::NonDominated,
    }
}

/// Compares two pairs of objectives and determines their domination
/// relationship.
pub fn compare<K1: Ord, K2: Ord>(obj1_a: K1, obj1_b: K2, obj2_a: K1, obj2_b: K2) -> (r:
    DominationResult)
    ensures
        K1::obeys_cmp_spec() && K2::obeys_cmp_spec() ==> r == domination(
            obj1_a.cmp_spec(&obj2_a),
            obj1_b.cmp_spec(&obj2_b),
        ),
{
    let first = obj1_a.cmp(&obj2_a);
    let second = obj1_b.cmp(&obj2_b);
    match (first, second) {
        (Ordering::Less, Ordering::Less) => DominationResult::FirstDominates,
        (Ordering::Less, Ordering::Equal) => DominationResult::FirstDominates,
        (Ordering::Equal, Ordering::Less) => DominationResult::FirstDominates,
        (Ordering::Greater, Ordering::Equal) => DominationResult::SecondDominates,
        (Ordering::Greater, Ordering::Greater) => DominationResult::SecondDominates,
        (Ordering::Equal, Ordering::Greater) => DominationResult::SecondDominates,
        (Ordering::Equal, Ordering::Equal) => DominationResult::Equal,
        _ => DominationResult::NonDominated,
    }
}

/// A generic item that can be part of a Pareto front.
/// It stores the data and the computed objective values.
#[derive(Clone, PartialEq, Eq, Debug)]
pub struct ParetoItem<T, K1, K2> where K1: Ord + Copy, K2: Ord + Copy {
    pub data: T,
    pub objective1: K1,
    pub objective2: K2,
}

/// The domination relationship of two items.
pub open spec fn relation<T, K1: Ord + Copy, K2: Ord + Copy>(
    a: ParetoItem<T, K1, K2>,
    b: ParetoItem<T, K1, K2>,
) -> DominationResult {
    domination(a.objective1.cmp_spec(&b.objective1), a.objective2.cmp_spec(&b.objective2))
}

/// No item of the list dominates or equals another.
pub open spec fn is_front<T, K1: Ord + Copy, K2: Ord + Copy>(
    items: Seq<ParetoItem<T, K1, K2>>,
) -> bool {
    forall|i: int, j: int|
        0 <= i < items.len() && 0 <= j < items.len() && i != j ==> relation(
            #[trigger] items[i],
            #[trigger] items[j],
        ) == DominationResult::NonDominated
}

/// Turning two items round turns their relationship round.
pub proof fn lemma_relation_flip<T, K1: Ord + Copy, K2: Ord + Copy>(
    a: ParetoItem<T, K1, K2>,
    b: ParetoItem<T, K1, K2>,
)
    requires
        obeys_cmp::<K1>(),
        obeys_cmp::<K2>(),
    ensures
        relation(a, b) == DominationResult::FirstDominates <==> relation(b, a)
            == DominationResult::SecondDominates,
        relation(a, b) == DominationResult::NonDominated <==> relation(b, a)
            == DominationResult::NonDominated,
        relation(a, b) == DominationResult::Equal <==> relation(b, a) == DominationResult::Equal,
        relation(a, a) == DominationResult::Equal,
{
    lemma_order_flip::<K1>(a.objective1, b.objective1);
    lemma_order_flip::<K2>(a.objective2, b.objective2);
    lemma_order_flip::<K1>(a.objective1, a.objective1);
    lemma_order_flip::<K2>(a.objective2, a.objective2);
}

/// In a lawful order, turning two values round turns the outcome round.
pub proof fn lemma_order_flip<K: Ord>(x: K, y: K)
    requires
        obeys_cmp::<K>(),
    ensures
        x.cmp_spec(&y) == Ordering::Less <==> y.cmp_spec(&x) == Ordering::Greater,
        x.cmp_spec(&y) == Ordering::Greater <==> y.cmp_spec(&x) == Ordering::Less,
        x.cmp_spec(&y) == Ordering::Equal <==> y.cmp_spec(&x) == Ordering::Equal,
        x.cmp_spec(&x) == Ordering::Equal,
{
    reveal(vstd::laws_cmp::obeys_cmp_partial_ord);
    reveal(vstd::laws_cmp::obeys_cmp_ord);
    reveal(vstd::laws_cmp::obeys_partial_cmp_spec_properties);
    reveal(vstd::laws_eq::obeys_eq_spec_properties);
    assert(x.partial_cmp_spec(&y) == Some(x.cmp_spec(&y)));
    assert(y.partial_cmp_spec(&x) == Some(y.cmp_spec(&x)));
    assert(x.partial_cmp_spec(&x) == Some(x.cmp_spec(&x)));
    assert(x.eq_spec(&y) <==> y.eq_spec(&x));
}

impl<T, K1, K2> ParetoItem<T, K1, K2> where K1: Ord + Copy, K2: Ord + Copy {
    /// The item with the given data and objectives.
    pub fn new(data: T, objective1: K1, objective2: K2) -> (r: Self)
        ensures
            r.data == data,
            r.objective1 == objective1,
            r.objective2 == objective2,
    {
        Self { data, objective1, objective2 }
    }

    /// Static method to compare two sets of values and determine their domination relationship.
    pub fn compare_raw(obj1_a: K1, obj1_b: K2, obj2_a: K1, obj2_b: K2) -> (r: DominationResult)
        ensures
            K1::obeys_cmp_spec() && K2::obeys_cmp_spec() ==> r == domination(
                obj1_a.cmp_spec(&obj2_a),
                obj1_b.cmp_spec(&obj2_b),
            ),
    {
        compare(obj1_a, obj1_b, obj2_a, obj2_b)
    }

    /// Compare this item with another item to determine their domination relationship.
    pub fn compare(&self, other: &Self) -> (r: DominationResult)
        ensures
            K1::obeys_cmp_spec() && K2::obeys_cmp_spec() ==> r == relation(*self, *other),
    {
        Self::compare_raw(self.objective1, self.objective2, other.objective1, other.objective2)
    }
}

/// An item of the list dominates or equals `item`.
pub open spec fn beaten<T, K1: Ord + Copy, K2: Ord + Copy>(
    items: Seq<ParetoItem<T, K1, K2>>,
    item: ParetoItem<T, K1, K2>,
) -> bool {
    exists|i: int|
        0 <= i < items.len() && (relation(#[trigger] items[i], item)
            == DominationResult::FirstDominates || relation(items[i], item)
            == DominationResult::Equal)
}

/// With the dominated items out, what is left and the new item make a front.
proof fn lemma_survivors<T, K1: Ord + Copy, K2: Ord + Copy>(
    old_items: Seq<ParetoItem<T, K1, K2>>,
    items: Seq<ParetoItem<T, K1, K2>>,
    origin: Seq<int>,
    places: Seq<usize>,
    new_item: ParetoItem<T, K1, K2>,
)
    requires
        obeys_cmp::<K1>(),
        obeys_cmp::<K2>(),
        is_front(old_items),
        items.len() == origin.len(),
        forall|i: int|
            0 <= i < items.len() ==> 0 <= #[trigger] origin[i] < old_items.len() && items[i]
                == old_items[origin[i]] && !listed(places, origin[i]),
        forall|i: int, j: int|
            0 <= i < origin.len() && 0 <= j < origin.len() && i != j ==> #[trigger] origin[i]
                != #[trigger] origin[j],
        forall|j: int|
            0 <= j < old_items.len() && !listed(places, j) ==> exists|p: int|
                0 <= p < items.len() && #[trigger] origin[p] == j,
        forall|i: int|
            0 <= i < old_items.len() ==> (relation(#[trigger] old_items[i], new_item)
                == DominationResult::SecondDominates <==> listed(places, i)),
        forall|i: int|
            0 <= i < old_items.len() ==> relation(#[trigger] old_items[i], new_item)
                != DominationResult::FirstDominates && relation(old_items[i], new_item)
                != DominationResult::Equal,
    ensures
        forall|x: ParetoItem<T, K1, K2>|
            items.contains(x) <==> old_items.contains(x) && relation(x, new_item)
                != DominationResult::SecondDominates,
        is_front(items.push(new_item)),
        !beaten(old_items, new_item),
{
    assert forall|x: ParetoItem<T, K1, K2>|
        items.contains(x) <==> old_items.contains(x) && relation(x, new_item)
            != DominationResult::SecondDominates by {
        if items.contains(x) {
            let i = choose|i: int| 0 <= i < items.len() && items[i] == x;
            assert(x == old_items[origin[i]]);
        }
        if old_items.contains(x) && relation(x, new_item) != DominationResult::SecondDominates {
            let j = choose|j: int| 0 <= j < old_items.len() && old_items[j] == x;
            let p = choose|p: int| 0 <= p < items.len() && #[trigger] origin[p] == j;
            assert(items[p] == x);
        }
    }
    let after = items.push(new_item);
    assert forall|i: int, j: int|
        0 <= i < after.len() && 0 <= j < after.len() && i != j implies relation(
        #[trigger] after[i],
        #[trigger] after[j],
    ) == DominationResult::NonDominated by {
        if i < items.len() && j < items.len() {
            assert(after[i] == old_items[origin[i]] && after[j] == old_items[origin[j]]);
            assert(origin[i] != origin[j]);
        } else if i < items.len() {
            assert(after[i] == old_items[origin[i]]);
        } else {
            assert(after[j] == old_items[origin[j]]);
            lemma_relation_flip(after[j], new_item);
        }
    }
}

/// Adds an item to a front if no item of the front dominates or equals it,
/// and takes out the items that it dominates.
pub fn insert_item<T, K1: Ord + Copy, K2: Ord + Copy>(
    items: &mut Vec<ParetoItem<T, K1, K2>>,
    new_item: ParetoItem<T, K1, K2>,
) -> (added: bool)
    requires
        obeys_cmp::<K1>(),
        obeys_cmp::<K2>(),
        is_front(old(items)@),
    ensures
        added == !beaten(old(items)@, new_item),
        !added ==> final(items)@ == old(items)@,
        added ==> final(items)@.len() >= 1 && final(items)@.last() == new_item && forall|
            x: ParetoItem<T, K1, K2>,
        |
            final(items)@.drop_last().contains(x) <==> old(items)@.contains(x) && relation(
                x,
                new_item,
            ) != DominationResult::SecondDominates,
        is_front(final(items)@),
{
    proof {
        reveal(vstd::laws_cmp::obeys_cmp_ord);
    }
    let ghost old_items = items@;
    // Track which existing items are dominated and need removal
    let mut dominated_indices: Vec<usize> = Vec::new();

    // Check if the new item is dominated by any existing item and record any existing items
    // dominated by the new item
    let mut idx: usize = 0;
    while idx < items.len()
        invariant
            K1::obeys_cmp_spec(),
            K2::obeys_cmp_spec(),
            items@ == old_items,
            is_front(old_items),
            idx <= items@.len(),
            forall|m: int| 0 <= m < dominated_indices@.len() ==> #[trigger] dominated_indices@[m] < idx,
            forall|m: int, n: int|
                0 <= m < n < dominated_indices@.len() ==> dominated_indices@[m]
                    < dominated_indices@[n],
            forall|i: int|
                0 <= i < idx ==> (relation(#[trigger] old_items[i], new_item)
                    == DominationResult::SecondDominates <==> listed(dominated_indices@, i)),
            forall|i: int|
                0 <= i < idx ==> relation(#[trigger] old_items[i], new_item)
                    != DominationResult::FirstDominates && relation(old_items[i], new_item)
                    != DominationResult::Equal,
        decreases items@.len() - idx,
    {
        let ghost before = dominated_indices@;
        match items[idx].compare(&new_item) {
            DominationResult::FirstDominates => {
                // New item is dominated or moot, early exit
                return false;
            },
            DominationResult::Equal => {
                return false;
            },
            DominationResult::SecondDominates => {
                dominated_indices.push(idx);
                proof {
                    assert forall|i: int| 0 <= i <= idx implies (relation(
                        #[trigger] old_items[i],
                        new_item,
                    ) == DominationResult::SecondDominates <==> listed(dominated_indices@, i)) by {
                        lemma_listed_push(before, idx, i);
                    }
                }
            },
            DominationResult::NonDominated => {
                proof {
                    if listed(before, place_of(idx)) {
                        let m = choose|m: int| 0 <= m < before.len() && #[trigger] before[m] == idx;
                    }
                }
            },
        }
        idx += 1;
    }

    // Remove dominated items in reverse order to maintain valid indices
    let ghost mut origin: Seq<int> = in_place(old_items.len());
    let mut k: usize = dominated_indices.len();
    proof {
        lemma_removing_start(old_items, dominated_indices@);
    }
    while k > 0
        invariant
            k <= dominated_indices@.len(),
            rising(dominated_indices@, old_items.len()),
            removing(
                old_items,
                items@,
                origin,
                dominated_indices@,
                bound_at(dominated_indices@, k, old_items.len()),
            ),
        decreases k,
    {
        proof {
            lemma_removing_step(old_items, items@, origin, dominated_indices@, k);
        }
        k -= 1;
        let at = dominated_indices[k];
        items.swap_remove(at);
        proof {
            origin = swap_removed(origin, at);
        }
    }
    proof {
        lemma_removing_done(old_items, items@, origin, dominated_indices@);
        lemma_survivors(old_items, items@, origin, dominated_indices@, new_item);
        assert(items@.push(new_item).drop_last() == items@);
    }

    items.push(new_item);
    true
}

/// In a lawful order, what is smaller than something that is no larger than
/// a third is smaller than the third.
pub proof fn lemma_order_chain<K: Ord>(x: K, y: K, z: K)
    requires
        obeys_cmp::<K>(),
        x.cmp_spec(&y) == Ordering::Less,
        y.cmp_spec(&z) != Ordering::Greater,
    ensures
        x.cmp_spec(&z) == Ordering::Less,
{
    reveal(vstd::laws_cmp::obeys_cmp_partial_ord);
    reveal(vstd::laws_cmp::obeys_cmp_ord);
    reveal(vstd::laws_cmp::obeys_partial_cmp_spec_properties);
    reveal(vstd::laws_eq::obeys_eq_spec_properties);
    assert(x.partial_cmp_spec(&y) == Some(x.cmp_spec(&y)));
    assert(y.partial_cmp_spec(&z) == Some(y.cmp_spec(&z)));
    assert(x.partial_cmp_spec(&z) == Some(x.cmp_spec(&z)));
    assert(z.partial_cmp_spec(&x) == Some(z.cmp_spec(&x)));
    assert(z.partial_cmp_spec(&y) == Some(z.cmp_spec(&y)));
    if y.cmp_spec(&z) == Ordering::Equal {
        if x.cmp_spec(&z) == Ordering::Equal {
            assert(x.eq_spec(&z));
            assert(y.eq_spec(&z));
            assert(z.eq_spec(&y));
            assert(x.eq_spec(&y));
        } else if x.cmp_spec(&z) == Ordering::Greater {
            assert(z.partial_cmp_spec(&x) == Some(Ordering::Less));
            assert(z.partial_cmp_spec(&y) == Some(Ordering::Less));
        }
    }
}

/// How two items are ordered when a front is sorted: by the first objective,
/// and by the second where the first objectives are equal.
pub open spec fn item_order<T, K1: Ord + Copy, K2: Ord + Copy>(
    a: ParetoItem<T, K1, K2>,
    b: ParetoItem<T, K1, K2>,
) -> Ordering {
    match a.objective1.cmp_spec(&b.objective1) {
        Ordering::Equal => a.objective2.cmp_spec(&b.objective2),
        other => other,
    }
}

/// No item of the list is ordered behind a later one.
pub open spec fn sorted_items<T, K1: Ord + Copy, K2: Ord + Copy>(
    items: Seq<ParetoItem<T, K1, K2>>,
) -> bool {
    forall|i: int, j: int|
        0 <= i < j < items.len() ==> item_order(#[trigger] items[i], #[trigger] items[j])
            != Ordering::Greater
}

/// How two items are ordered when a front is sorted.
pub fn order_items<T, K1: Ord + Copy, K2: Ord + Copy>(
    a: &ParetoItem<T, K1, K2>,
    b: &ParetoItem<T, K1, K2>,
) -> (r: Ordering)
    ensures
        K1::obeys_cmp_spec() && K2::obeys_cmp_spec() ==> r == item_order(*a, *b),
{
    match a.objective1.cmp(&b.objective1) {
        Ordering::Equal => a.objective2.cmp(&b.objective2),
        other => other,
    }
}

/// `slice::sort_by`, with `order_items` to compare: the items are the same,
/// each once, and none is ordered behind a later one.
#[verifier::external_body]
fn sort_by_objectives<T, K1: Ord + Copy, K2: Ord + Copy>(items: &mut Vec<ParetoItem<T, K1, K2>>)
    requires
        obeys_cmp::<K1>(),
        obeys_cmp::<K2>(),
    ensures
        rearranged(old(items)@, final(items)@),
        sorted_items(final(items)@),
{
    items.sort_by(|a, b| order_items(a, b));
}

/// The items of a front in another order are a front.
proof fn lemma_rearranged_front<T, K1: Ord + Copy, K2: Ord + Copy>(
    old_items: Seq<ParetoItem<T, K1, K2>>,
    new_items: Seq<ParetoItem<T, K1, K2>>,
)
    requires
        is_front(old_items),
        rearranged(old_items, new_items),
    ensures
        is_front(new_items),
{
    let origin = choose|origin: Seq<int>| rearranged_by(old_items, new_items, origin);
    assert forall|i: int, j: int|
        0 <= i < new_items.len() && 0 <= j < new_items.len() && i != j implies relation(
        #[trigger] new_items[i],
        #[trigger] new_items[j],
    ) == DominationResult::NonDominated by {
        assert(origin[i] != origin[j]);
        assert(new_items[i] == old_items[origin[i]] && new_items[j] == old_items[origin[j]]);
    }
}

/// A Pareto front that maintains a set of non-dominated items using key functions.
#[verifier::reject_recursive_types(T)]
#[verifier::reject_recursive_types(K1)]
#[verifier::reject_recursive_types(K2)]
pub struct ParetoFront<T, K1, K2, F1, F2> where
    K1: Ord + Copy,
    K2: Ord + Copy,
    F1: Fn(&T) -> K1,
    F2: Fn(&T) -> K2,
 {
    items: Vec<ParetoItem<T, K1, K2>>,
    key_fn1: F1,
    key_fn2: F2,
}

impl<T, K1, K2, F1, F2> View for ParetoFront<T, K1, K2, F1, F2> where
    K1: Ord + Copy,
    K2: Ord + Copy,
    F1: Fn(&T) -> K1,
    F2: Fn(&T) -> K2,
 {
    type V = Seq<ParetoItem<T, K1, K2>>;

    closed spec fn view(&self) -> Seq<ParetoItem<T, K1, K2>> {
        self.items@
    }
}

impl<T, K1, K2, F1, F2> ParetoFront<T, K1, K2, F1, F2> where
    K1: Ord + Copy,
    K2: Ord + Copy,
    F1: Fn(&T) -> K1,
    F2: Fn(&T) -> K2,
 {
    /// No item of the front dominates or equals another. Every front that
    /// `new` made and the methods changed is well formed.
    pub open spec fn well_formed(self) -> bool {
        is_front(self@)
    }

    /// The function that gives the first objective.
    pub closed spec fn first_key(self) -> F1 {
        self.key_fn1
    }

    /// The function that gives the second objective.
    pub closed spec fn second_key(self) -> F2 {
        self.key_fn2
    }

    /// Create a new Pareto front with the specified key functions.
    pub fn new(key_fn1: F1, key_fn2: F2) -> (r: Self)
        ensures
            r@.len() == 0,
            r.well_formed(),
            r.first_key() == key_fn1,
            r.second_key() == key_fn2,
    {
        Self { items: Vec::new(), key_fn1, key_fn2 }
    }

    /// Add an item to the Pareto front if it's not dominated by any existing item.
    /// Also, remove any existing items that are dominated by this new item.
    pub fn add(&mut self, data: T) -> (added: bool)
        requires
            obeys_cmp::<K1>(),
            obeys_cmp::<K2>(),
            old(self).well_formed(),
            call_requires(old(self).first_key(), (&data,)),
            call_requires(old(self).second_key(), (&data,)),
        ensures
            final(self).first_key() == old(self).first_key(),
            final(self).second_key() == old(self).second_key(),
            final(self).well_formed(),
            !added ==> final(self)@ == old(self)@ && exists|item: ParetoItem<T, K1, K2>|
                item.data == data && call_ensures(old(self).first_key(), (&data,), item.objective1)
                    && call_ensures(old(self).second_key(), (&data,), item.objective2) && beaten(
                    old(self)@,
                    item,
                ),
            added ==> final(self)@.len() >= 1 && final(self)@.last().data == data && call_ensures(
                old(self).first_key(),
                (&data,),
                final(self)@.last().objective1,
            ) && call_ensures(old(self).second_key(), (&data,), final(self)@.last().objective2)
                && !beaten(old(self)@, final(self)@.last()) && forall|x: ParetoItem<T, K1, K2>|
                final(self)@.drop_last().contains(x) <==> old(self)@.contains(x) && relation(
                    x,
                    final(self)@.last(),
                ) != DominationResult::SecondDominates,
    {
        let objective1 = (self.key_fn1)(&data);
        let objective2 = (self.key_fn2)(&data);

        let new_item = ParetoItem::new(data, objective1, objective2);
        insert_item(&mut self.items, new_item)
    }

    /// Get all items in the Pareto front
    pub fn get_all(&self) -> (r: &[ParetoItem<T, K1, K2>])
        ensures
            r@ == self@,
    {
        self.items.as_slice()
    }

    /// Get the number of items in the Pareto front
    pub fn len(&self) -> (r: usize)
        ensures
            r == self@.len(),
    {
        self.items.len()
    }

    /// Check if the Pareto front is empty
    pub fn is_empty(&self) -> (r: bool)
        ensures
            r == (self@.len() == 0),
    {
        self.items.len() == 0
    }

    /// Sort the Pareto front by objective 1 (primary) and then by objective 2 (secondary)
    pub fn sort(&mut self)
        requires
            obeys_cmp::<K1>(),
            obeys_cmp::<K2>(),
            old(self).well_formed(),
        ensures
            rearranged(old(self)@, final(self)@),
            sorted_items(final(self)@),
            final(self).well_formed(),
            final(self).first_key() == old(self).first_key(),
            final(self).second_key() == old(self).second_key(),
    {
        let ghost before = self.items@;
        sort_by_objectives(&mut self.items);
        proof {
            lemma_rearranged_front(before, self.items@);
        }
    }

    /// Find the item with the minimum primary objective
    pub fn min_objective_1(&self) -> (r: Option<&ParetoItem<T, K1, K2>>)
        requires
            obeys_cmp::<K1>(),
        ensures
            r is None <==> self@.len() == 0,
            r matches Some(best) ==> exists|place: int|
                0 <= place < self@.len() && #[trigger] self@[place] == *best && (forall|j: int|
                    0 <= j < self@.len() ==> best.objective1.cmp_spec(
                        &(#[trigger] self@[j]).objective1,
                    ) != Ordering::Greater) && (forall|j: int|
                    0 <= j < place ==> best.objective1.cmp_spec(&(#[trigger] self@[j]).objective1)
                        == Ordering::Less),
    {
        proof {
            reveal(vstd::laws_cmp::obeys_cmp_ord);
        }
        if self.items.len() == 0 {
            return None;
        }
        let mut best: usize = 0;
        let mut i: usize = 1;
        proof {
            lemma_order_flip(self.items@[0].objective1, self.items@[0].objective1);
        }
        while i < self.items.len()
            invariant
                obeys_cmp::<K1>(),
                K1::obeys_cmp_spec(),
                best < i <= self.items@.len(),
                forall|j: int|
                    0 <= j < i ==> at(self.items@, best).objective1.cmp_spec(
                        &(#[trigger] self.items@[j]).objective1,
                    ) != Ordering::Greater,
                forall|j: int|
                    0 <= j < best ==> at(self.items@, best).objective1.cmp_spec(
                        &(#[trigger] self.items@[j]).objective1,
                    ) == Ordering::Less,
            decreases self.items@.len() - i,
        {
            let ghost old_best = at(self.items@, best);
            let ghost next = at(self.items@, i);
            match self.items[i].objective1.cmp(&self.items[best].objective1) {
                Ordering::Less => {
                    proof {
                        assert forall|j: int| 0 <= j <= i implies next.objective1.cmp_spec(
                            &(#[trigger] self.items@[j]).objective1,
                        ) == Ordering::Less || j == i by {
                            if j < i {
                                lemma_order_chain(
                                    next.objective1,
                                    old_best.objective1,
                                    self.items@[j].objective1,
                                );
                            }
                        }
                        lemma_order_flip(next.objective1, next.objective1);
                    }
                    best = i;
                },
                _ => {
                    proof {
                        lemma_order_flip(next.objective1, old_best.objective1);
                    }
                },
            }
            i += 1;
        }
        proof {
            assert(at(self@, best) == at(self.items@, best));
        }
        Some(&self.items[best])
    }

    /// Find the item with the minimum secondary objective
    pub fn min_objective_2(&self) -> (r: Option<&ParetoItem<T, K1, K2>>)
        requires
            obeys_cmp::<K2>(),
        ensures
            r is None <==> self@.len() == 0,
            r matches Some(best) ==> exists|place: int|
                0 <= place < self@.len() && #[trigger] self@[place] == *best && (forall|j: int|
                    0 <= j < self@.len() ==> best.objective2.cmp_spec(
                        &(#[trigger] self@[j]).objective2,
                    ) != Ordering::Greater) && (forall|j: int|
                    0 <= j < place ==> best.objective2.cmp_spec(&(#[trigger] self@[j]).objective2)
                        == Ordering::Less),
    {
        proof {
            reveal(vstd::laws_cmp::obeys_cmp_ord);
        }
        if self.items.len() == 0 {
            return None;
        }
        let mut best: usize = 0;
        let mut i: usize = 1;
        proof {
            lemma_order_flip(self.items@[0].objective2, self.items@[0].objective2);
        }
        while i < self.items.len()
            invariant
                obeys_cmp::<K2>(),
                K2::obeys_cmp_spec(),
                best < i <= self.items@.len(),
                forall|j: int|
                    0 <= j < i ==> at(self.items@, best).objective2.cmp_spec(
                        &(#[trigger] self.items@[j]).objective2,
                    ) != Ordering::Greater,
                forall|j: int|
                    0 <= j < best ==> at(self.items@, best).objective2.cmp_spec(
                        &(#[trigger] self.items@[j]).objective2,
                    ) == Ordering::Less,
            decreases self.items@.len() - i,
        {
            let ghost old_best = at(self.items@, best);
            let ghost next = at(self.items@, i);
            match self.items[i].objective2.cmp(&self.items[best].objective2) {
                Ordering::Less => {
                    proof {
                        assert forall|j: int| 0 <= j <= i implies next.objective2.cmp_spec(
                            &(#[trigger] self.items@[j]).objective2,
                        ) == Ordering::Less || j == i by {
                            if j < i {
                                lemma_order_chain(
                                    next.objective2,
                                    old_best.objective2,
                                    self.items@[j].objective2,
                                );
                            }
                        }
                        lemma_order_flip(next.objective2, next.objective2);
                    }
                    best = i;
                },
                _ => {
                    proof {
                        lemma_order_flip(next.objective2, old_best.objective2);
                    }
                },
            }
            i += 1;
        }
        proof {
            assert(at(self@, best) == at(self.items@, best));
        }
        Some(&self.items[best])
    }
}

} // verus!
