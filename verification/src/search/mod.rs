//! A depth-first search for recipes that keeps, for each effect set, the
//! recipes that no other beats in both cost and length.

pub mod exploring;
pub mod pareto;
pub mod pareto_db;
pub mod removal;

pub use crate::mixing::substance_cost;

use crate::mixing::effects::Effects;
use crate::mixing::{Drugs, MixtureRules, Substance};
use crate::packing::PackedValues;
use exploring::{
    explored, exploring, lemma_added, lemma_begin, lemma_drop_full, lemma_finish, lemma_pruned,
    lemma_relation_numbers, lemma_skip, lemma_take_up, Progress,
};
use pareto::{beaten, insert_item, is_front, relation, DominationResult, ParetoItem};
use std::collections::HashMap;
use vstd::prelude::*;

verus! {

/// Sum of the costs of a list of substances.
pub open spec fn recipe_cost(substances: Seq<Substance>) -> int
    decreases substances.len(),
{
    if substances.len() == 0 {
        0
    } else {
        recipe_cost(substances.drop_last()) + substance_cost(substances.last())
    }
}

/// A recipe costs at most 9 for each substance.
pub proof fn lemma_recipe_cost_bound(substances: Seq<Substance>)
    ensures
        0 <= recipe_cost(substances) <= 9 * substances.len(),
    decreases substances.len(),
{
    if substances.len() > 0 {
        lemma_recipe_cost_bound(substances.drop_last());
    }
}

/// A base product with the substances mixed into it and the effects it has
/// as a result.
#[derive(Debug, PartialEq, Eq, PartialOrd, Ord, Copy, Clone)]
pub struct SearchQueueItem {
    pub drug: Drugs,
    pub substances: PackedValues<Substance, 4>,
    pub effects: Effects,
}

impl SearchQueueItem {
    /// Sum of the costs of the substances.
    pub fn cost(&self) -> (r: i64)
        ensures
            r == recipe_cost(self.substances@),
    {
        let mut total: i64 = 0;
        let n = self.substances.len();
        let mut i: usize = 0;
        while i < n
            invariant
                i <= n,
                n == self.substances@.len(),
                n <= 32,
                total == recipe_cost(self.substances@.subrange(0, i as int)),
            decreases n - i,
        {
            proof {
                let prefix = self.substances@.subrange(0, i + 1);
                assert(prefix.drop_last() == self.substances@.subrange(0, i as int));
                assert(prefix.last() == self.substances@[i as int]);
                lemma_recipe_cost_bound(self.substances@.subrange(0, i as int));
            }
            match self.substances.get(i) {
                Some(substance) => {
                    total += substance_cost(substance);
                },
                None => {},
            }
            i += 1;
        }
        proof {
            assert(self.substances@.subrange(0, n as int) == self.substances@);
        }
        total
    }

    /// Number of substances.
    pub fn num_mixins(&self) -> (r: usize)
        ensures
            r == self.substances@.len(),
    {
        self.substances.len()
    }
}

/// The effects after a substance was applied, unless it changes nothing.
pub fn apply_substance(effects: Effects, substance: Substance, rules: &MixtureRules) -> (r: Option<
    Effects,
>)
    ensures
        r is None <==> rules.apply_spec(substance, effects@) == effects@,
        r matches Some(e) ==> e@ == rules.apply_spec(substance, effects@),
{
    let new_effects = rules.apply(substance, effects);
    if new_effects.bits() == effects.bits() {
        // Adding this does nothing, trim the search space by ignoring this option
        return None;
    }
    Some(new_effects)
}

/// A recipe with its cost and its length.
pub type RankedRecipe = ParetoItem<SearchQueueItem, i64, usize>;

/// The item of a recipe: the recipe with its cost and its length.
pub open spec fn ranked(item: SearchQueueItem) -> RankedRecipe {
    ParetoItem {
        data: item,
        objective1: recipe_cost(item.substances@) as i64,
        objective2: item.substances@.len() as usize,
    }
}

/// The recipes with one effect set that no other recipe with that effect set
/// beats in both cost and length.
pub struct ParetoSearchFront {
    items: Vec<RankedRecipe>,
}

impl View for ParetoSearchFront {
    type V = Seq<RankedRecipe>;

    closed spec fn view(&self) -> Seq<RankedRecipe> {
        self.items@
    }
}

impl ParetoSearchFront {
    /// No recipe of the front is as cheap and as short as another. Every
    /// front that `new` made and `add` changed is well formed.
    pub open spec fn well_formed(self) -> bool {
        is_front(self@)
    }

    /// The empty front.
    pub fn new() -> (r: Self)
        ensures
            r@.len() == 0,
            r.well_formed(),
    {
        ParetoSearchFront { items: Vec::new() }
    }

    /// Adds a recipe unless a recipe of the front is as cheap and as short,
    /// and takes out the recipes that the new one beats.
    pub fn add(&mut self, item: SearchQueueItem) -> (added: bool)
        requires
            old(self).well_formed(),
        ensures
            final(self).well_formed(),
            added == !beaten(old(self)@, ranked(item)),
            !added ==> final(self)@ == old(self)@,
            added ==> final(self)@.len() >= 1 && final(self)@.last() == ranked(item) && forall|
                x: RankedRecipe,
            |
                final(self)@.drop_last().contains(x) <==> old(self)@.contains(x) && relation(
                    x,
                    ranked(item),
                ) != DominationResult::SecondDominates,
    {
        broadcast use vstd::laws_cmp::group_laws_cmp;

        proof {
            lemma_recipe_cost_bound(item.substances@);
        }
        let objective1 = item.cost();
        let objective2 = item.num_mixins();
        insert_item(&mut self.items, ParetoItem::new(item, objective1, objective2))
    }

    /// All recipes of the front.
    pub fn get_all(&self) -> (r: &[RankedRecipe])
        ensures
            r@ == self@,
    {
        self.items.as_slice()
    }

    /// Number of recipes of the front.
    pub fn len(&self) -> (r: usize)
        ensures
            r == self@.len(),
    {
        self.items.len()
    }

    /// Whether the front holds no recipe.
    pub fn is_empty(&self) -> (r: bool)
        ensures
            r == (self@.len() == 0),
    {
        self.items.len() == 0
    }
}

impl Default for ParetoSearchFront {
    fn default() -> (r: Self)
        ensures
            r@.len() == 0,
            r.well_formed(),
    {
        Self::new()
    }
}

/// The effects after the substances of `tail` were applied in order.
pub open spec fn mix(rules: MixtureRules, effects: u64, tail: Seq<Substance>) -> u64
    decreases tail.len(),
{
    if tail.len() == 0 {
        effects
    } else {
        rules.apply_spec(tail.last(), mix(rules, effects, tail.drop_last()))
    }
}

/// `item` goes on from `initial`: it has the same base product, its
/// substances are those of `initial` and then some more, and its effects are
/// what these make of the effects of `initial`.
pub open spec fn derived(rules: MixtureRules, initial: SearchQueueItem, item: SearchQueueItem) -> bool {
    item.drug == initial.drug && exists|tail: Seq<Substance>|
        #[trigger] (initial.substances@ + tail) == item.substances@ && item.effects@ == mix(
            rules,
            initial.effects@,
            tail,
        )
}

/// `entry`, in the front of the effect set `key`, is a recipe that the search
/// found: it goes on from `initial` with at most `num_mixins` substances, has
/// the effects `key`, and carries its own cost and length.
pub open spec fn found(
    rules: MixtureRules,
    initial: SearchQueueItem,
    num_mixins: usize,
    key: u64,
    entry: RankedRecipe,
) -> bool {
    &&& entry == ranked(entry.data)
    &&& entry.data.effects@ == key
    &&& entry.data.substances@.len() <= num_mixins
    &&& derived(rules, initial, entry.data)
}

/// One more substance on a recipe that goes on from `initial`.
proof fn lemma_derived_step(
    rules: MixtureRules,
    initial: SearchQueueItem,
    parent: SearchQueueItem,
    child: SearchQueueItem,
    substance: Substance,
)
    requires
        derived(rules, initial, parent),
        child.drug == parent.drug,
        child.substances@ == parent.substances@.push(substance),
        child.effects@ == rules.apply_spec(substance, parent.effects@),
    ensures
        derived(rules, initial, child),
{
    let tail = choose|tail: Seq<Substance>|
        #[trigger] (initial.substances@ + tail) == parent.substances@ && parent.effects@ == mix(
            rules,
            initial.effects@,
            tail,
        );
    let longer = tail.push(substance);
    assert(longer.drop_last() == tail);
    assert(initial.substances@ + longer =~= child.substances@);
}

/// 17 to the power of `k`.
pub open spec fn pow17(k: nat) -> nat
    decreases k,
{
    if k == 0 {
        1
    } else {
        17 * pow17((k - 1) as nat)
    }
}

/// A power of 17 is positive.
pub proof fn lemma_pow17_positive(k: nat)
    ensures
        pow17(k) >= 1,
    decreases k,
{
    if k > 0 {
        lemma_pow17_positive((k - 1) as nat);
    }
}

/// What is left to do for a stack of recipes: for each recipe more than
/// sixteen times what is left to do for a recipe one substance longer.
pub open spec fn work_left(stack: Seq<SearchQueueItem>, depth: nat) -> nat
    decreases stack.len(),
{
    if stack.len() == 0 {
        0
    } else {
        work_left(stack.drop_last(), depth) + pow17((depth - stack.last().substances@.len()) as nat)
    }
}

/// What the fronts hold while the search runs: well-formed fronts, with
/// every effect set that was there at the beginning, and in them only recipes
/// that were there at the beginning or that the search found.
pub open spec fn searched(
    rules: MixtureRules,
    initial: SearchQueueItem,
    num_mixins: usize,
    before: Map<u64, ParetoSearchFront>,
    fronts: Map<u64, ParetoSearchFront>,
) -> bool {
    &&& forall|k: u64| #[trigger] before.contains_key(k) ==> fronts.contains_key(k)
    &&& forall|k: u64| #[trigger] fronts.contains_key(k) ==> fronts[k].well_formed()
    &&& forall|k: u64, i: int|
        #![trigger fronts[k]@[i]]
        fronts.contains_key(k) && 0 <= i < fronts[k]@.len() ==> (before.contains_key(k)
            && before[k]@.contains(fronts[k]@[i])) || found(
            rules,
            initial,
            num_mixins,
            k,
            fronts[k]@[i],
        )
}

/// A recipe was offered to the front of its effect set.
proof fn lemma_searched_step(
    rules: MixtureRules,
    initial: SearchQueueItem,
    num_mixins: usize,
    before: Map<u64, ParetoSearchFront>,
    fronts: Map<u64, ParetoSearchFront>,
    item: SearchQueueItem,
    old_front: ParetoSearchFront,
    new_front: ParetoSearchFront,
)
    requires
        searched(rules, initial, num_mixins, before, fronts),
        derived(rules, initial, item),
        item.substances@.len() <= num_mixins,
        fronts.contains_key(item.effects@) ==> old_front == fronts[item.effects@],
        !fronts.contains_key(item.effects@) ==> old_front@.len() == 0,
        new_front.well_formed(),
        new_front@ == old_front@ || (new_front@.len() >= 1 && new_front@.last() == ranked(item)
            && forall|x: RankedRecipe|
            new_front@.drop_last().contains(x) ==> old_front@.contains(x)),
    ensures
        searched(rules, initial, num_mixins, before, fronts.insert(item.effects@, new_front)),
{
    let key = item.effects@;
    let after = fronts.insert(key, new_front);
    assert forall|k: u64, i: int|
        #![trigger after[k]@[i]]
        after.contains_key(k) && 0 <= i < after[k]@.len() implies (before.contains_key(k)
            && before[k]@.contains(after[k]@[i])) || found(
        rules,
        initial,
        num_mixins,
        k,
        after[k]@[i],
    ) by {
        if k != key {
            assert(after[k] == fronts[k]);
            assert(fronts.contains_key(k));
            let x = fronts[k]@[i];
        } else {
            let x = new_front@[i];
            if new_front@ == old_front@ {
                assert(fronts.contains_key(key));
                let y = fronts[key]@[i];
            } else if i == new_front@.len() - 1 {
            } else {
                assert(new_front@.drop_last()[i] == x);
                assert(new_front@.drop_last().contains(x));
                assert(old_front@.contains(x));
                let j = choose|j: int| 0 <= j < old_front@.len() && old_front@[j] == x;
                let y = fronts[key]@[j];
            }
        }
    }
}

/// Searches, depth first, the recipes that go on from `initial` with up to
/// `num_mixins` substances in all. A substance that leaves the effects as
/// they are is not taken. Each recipe is offered to the front of its effect
/// set, and the search goes on from it only where the front took it in.
///
/// Afterwards the fronts hold only what they held and what the search found,
/// and every recipe that goes on from `initial` in this way finds in the
/// front of its effects a recipe that costs no more and is no longer, unless
/// a recipe on the way to it found one in the fronts as they were given.
pub fn depth_first_search_pareto(
    rules: &MixtureRules,
    initial: SearchQueueItem,
    num_mixins: usize,
    fronts: &mut HashMap<u64, ParetoSearchFront>,
)
    requires
        initial.substances@.len() <= num_mixins <= 32,
        forall|k: u64| #[trigger]
            old(fronts)@.contains_key(k) ==> old(fronts)@[k].well_formed(),
    ensures
        searched(*rules, initial, num_mixins, old(fronts)@, final(fronts)@),
        explored(*rules, initial, num_mixins, old(fronts)@, final(fronts)@),
{
    broadcast use vstd::std_specs::hash::group_hash_axioms;

    let ghost before = fronts@;
    let ghost depth = num_mixins as nat;
    let ghost mut held = initial;
    let mut stack: Vec<SearchQueueItem> = Vec::new();
    stack.push(initial);
    proof {
        lemma_begin(*rules, initial, num_mixins as int, before);
        assert(stack@ =~= seq![initial]);
        assert(initial.substances@ + Seq::<Substance>::empty() =~= initial.substances@);
        assert forall|k: u64, i: int|
            #![trigger before[k]@[i]]
            before.contains_key(k) && 0 <= i < before[k]@.len() implies before[k]@.contains(
            before[k]@[i],
        ) by {
        }
    }

    while stack.len() > 0
        invariant
            num_mixins <= 32,
            depth == num_mixins,
            searched(*rules, initial, num_mixins, before, fronts@),
            exploring(
                *rules,
                initial,
                num_mixins as int,
                (Progress { before, fronts: fronts@, stack: stack@, item: held, from: 16 }),
            ),
            forall|i: int|
                0 <= i < stack@.len() ==> derived(*rules, initial, #[trigger] stack@[i])
                    && stack@[i].substances@.len() <= num_mixins,
        ensures
            stack@.len() == 0,
        decreases work_left(stack@, depth),
    {
        let ghost stack_before = stack@;
        let ghost reached = Progress {
            before,
            fronts: fronts@,
            stack: stack@,
            item: held,
            from: 16,
        };
        let item = match stack.pop() {
            Some(item) => item,
            None => {
                break ;
            },
        };
        proof {
            assert(stack_before.drop_last() == stack@);
            assert(stack_before.last() == item);
            assert(work_left(stack_before, depth) == work_left(stack@, depth) + pow17(
                (depth - item.substances@.len()) as nat,
            ));
            lemma_pow17_positive((depth - item.substances@.len()) as nat);
        }
        if item.substances.len() == num_mixins {
            // If we've already assigned TOTAL_STATIONS, then we cannot add more.
            proof {
                lemma_drop_full(*rules, initial, num_mixins as int, reached);
            }
            continue ;
        }
        proof {
            lemma_take_up(*rules, initial, num_mixins as int, reached);
        }
        let ghost base = work_left(stack@, depth);
        let ghost unit = pow17((depth - item.substances@.len() - 1) as nat);
        let mut s_idx: u8 = 0;
        while s_idx < 16
            invariant
                s_idx <= 16,
                num_mixins <= 32,
                depth == num_mixins,
                item.substances@.len() < num_mixins,
                derived(*rules, initial, item),
                unit == pow17((depth - item.substances@.len() - 1) as nat),
                searched(*rules, initial, num_mixins, before, fronts@),
                exploring(
                    *rules,
                    initial,
                    num_mixins as int,
                    (Progress { before, fronts: fronts@, stack: stack@, item, from: s_idx as int }),
                ),
                forall|i: int|
                    0 <= i < stack@.len() ==> derived(*rules, initial, #[trigger] stack@[i])
                        && stack@[i].substances@.len() <= num_mixins,
                work_left(stack@, depth) <= base + s_idx * unit,
            ensures
                s_idx == 16,
            decreases 16 - s_idx,
        {
            let substance = match Substance::from_index(s_idx) {
                Some(substance) => substance,
                None => {
                    assert(false);
                    break ;
                },
            };
            let ghost tried = Progress {
                before,
                fronts: fronts@,
                stack: stack@,
                item,
                from: s_idx as int,
            };
            proof {
                assert((s_idx + 1) * unit == s_idx * unit + unit) by (nonlinear_arith);
            }
            s_idx += 1;
            if let Some(eff) = apply_substance(item.effects, substance, rules) {
                let mut substances = item.substances;
                match substances.push(substance) {
                    Ok(()) => {},
                    Err(_) => {
                        assert(false);
                        continue ;
                    },
                }
                let child = SearchQueueItem { drug: item.drug, substances, effects: eff };
                proof {
                    lemma_derived_step(*rules, initial, item, child, substance);
                }
                let key = child.effects.bits();
                let ghost fronts_before = fronts@;
                let mut front = match fronts.remove(&key) {
                    Some(front) => front,
                    None => ParetoSearchFront::new(),
                };
                let ghost old_front = front;
                let added = front.add(child);
                let ghost new_front = front;
                fronts.insert(key, front);
                proof {
                    assert(fronts@ =~= fronts_before.insert(key, new_front));
                    lemma_searched_step(
                        *rules,
                        initial,
                        num_mixins,
                        before,
                        fronts_before,
                        child,
                        old_front,
                        new_front,
                    );
                }
                if !added {
                    // This item does not lead to a possible improvement, prune.
                    proof {
                        let i = choose|i: int|
                            0 <= i < old_front@.len() && (relation(
                                #[trigger] old_front@[i],
                                ranked(child),
                            ) == DominationResult::FirstDominates || relation(
                                old_front@[i],
                                ranked(child),
                            ) == DominationResult::Equal);
                        lemma_relation_numbers(old_front@[i], ranked(child));
                        lemma_recipe_cost_bound(child.substances@);
                        assert(child.substances@.drop_last() == item.substances@);
                        lemma_pruned(
                            *rules,
                            initial,
                            num_mixins as int,
                            tried,
                            substance,
                            key,
                            i,
                            new_front,
                        );
                    }
                    continue ;
                }
                proof {
                    lemma_work_push(stack@, child, depth);
                    lemma_added(
                        *rules,
                        initial,
                        num_mixins as int,
                        tried,
                        substance,
                        child,
                        old_front@,
                        new_front,
                    );
                }
                stack.push(child);
            } else {
                proof {
                    lemma_skip(*rules, initial, num_mixins as int, tried, substance);
                }
            }
        }
        proof {
            lemma_pow17_positive((depth - item.substances@.len() - 1) as nat);
            assert(pow17((depth - item.substances@.len()) as nat) == 17 * unit);
            assert(s_idx * unit <= 16 * unit) by (nonlinear_arith)
                requires
                    s_idx <= 16,
                    unit >= 0,
            ;
            held = item;
        }
    }
    proof {
        lemma_finish(
            *rules,
            initial,
            num_mixins,
            Progress { before, fronts: fronts@, stack: stack@, item: held, from: 16 },
        );
    }
}

/// One more recipe on the stack.
proof fn lemma_work_push(stack: Seq<SearchQueueItem>, item: SearchQueueItem, depth: nat)
    ensures
        work_left(stack.push(item), depth) == work_left(stack, depth) + pow17(
            (depth - item.substances@.len()) as nat,
        ),
{
    assert(stack.push(item).drop_last() == stack);
}

} // verus!
