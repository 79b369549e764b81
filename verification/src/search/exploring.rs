//! What a depth-first search for recipes has reached: stated for every way
//! to go on from a recipe, and kept up while the search runs.

use super::pareto::{relation, DominationResult};
use super::{
    lemma_recipe_cost_bound, mix, ranked, recipe_cost, ParetoSearchFront, RankedRecipe,
    SearchQueueItem,
};
use crate::mixing::{lemma_substance_index_round_trip, substance_cost, MixtureRules, Substance};
use vstd::prelude::*;

verus! {

/// Where a recipe stands: the effects it has, what it costs and how many
/// substances it holds.
pub struct Stage {
    pub effects: u64,
    pub cost: int,
    pub length: int,
}

/// Where a recipe of the search stands.
pub open spec fn stage_of(item: SearchQueueItem) -> Stage {
    Stage {
        effects: item.effects@,
        cost: recipe_cost(item.substances@),
        length: item.substances@.len() as int,
    }
}

/// Where an entry of the front of the effect set `key` stands.
pub open spec fn entry_stage(key: u64, entry: RankedRecipe) -> Stage {
    Stage { effects: key, cost: entry.objective1 as int, length: entry.objective2 as int }
}

/// Each substance of `rest`, mixed in after those before it, changes the
/// effects.
pub open spec fn effective(rules: MixtureRules, effects: u64, rest: Seq<Substance>) -> bool
    decreases rest.len(),
{
    rest.len() == 0 || (effective(rules, effects, rest.drop_last()) && mix(rules, effects, rest)
        != mix(rules, effects, rest.drop_last()))
}

/// `rest` is a way to go on from `stage`: at least one substance, each of
/// which changes the effects, and no more than `depth` substances in all.
pub open spec fn continues(rules: MixtureRules, depth: int, stage: Stage, rest: Seq<Substance>) -> bool {
    rest.len() >= 1 && stage.length + rest.len() <= depth && effective(rules, stage.effects, rest)
}

/// The front holds a recipe that costs no more than `cost` and has no more
/// than `length` substances.
pub open spec fn covers(front: Seq<RankedRecipe>, cost: int, length: int) -> bool {
    exists|i: int|
        0 <= i < front.len() && (#[trigger] front[i]).objective1 <= cost && front[i].objective2
            <= length
}

/// The front of the effect set `key` is there and holds a recipe that costs
/// no more than `cost` and has no more than `length` substances.
pub open spec fn front_covers(
    fronts: Map<u64, ParetoSearchFront>,
    key: u64,
    cost: int,
    length: int,
) -> bool {
    fronts.contains_key(key) && covers(fronts[key]@, cost, length)
}

/// The recipe that goes on from `stage` with the first `m` substances of
/// `rest` finds, in the front of its effects, a recipe that costs no more and
/// is no longer.
pub open spec fn prefix_covered(
    rules: MixtureRules,
    fronts: Map<u64, ParetoSearchFront>,
    stage: Stage,
    rest: Seq<Substance>,
    m: int,
) -> bool {
    front_covers(
        fronts,
        mix(rules, stage.effects, rest.take(m)),
        stage.cost + recipe_cost(rest.take(m)),
        stage.length + m,
    )
}

/// Some recipe on the way from `stage` along `rest`, with at least one
/// substance of `rest`, finds in the fronts a recipe with its effects that
/// costs no more and is no longer.
pub open spec fn passed_over(
    rules: MixtureRules,
    fronts: Map<u64, ParetoSearchFront>,
    stage: Stage,
    rest: Seq<Substance>,
) -> bool {
    exists|m: int| 1 <= m <= rest.len() && #[trigger] prefix_covered(rules, fronts, stage, rest, m)
}

/// The recipe that goes on from `stage` with all of `rest` is accounted for:
/// the front of its effects holds a recipe that costs no more and is no
/// longer; or the search had no reason to come this far, because a recipe on
/// the way found such a recipe in the fronts as they were at the beginning.
pub open spec fn accounted(
    rules: MixtureRules,
    before: Map<u64, ParetoSearchFront>,
    fronts: Map<u64, ParetoSearchFront>,
    stage: Stage,
    rest: Seq<Substance>,
) -> bool {
    front_covers(
        fronts,
        mix(rules, stage.effects, rest),
        stage.cost + recipe_cost(rest),
        stage.length + rest.len(),
    ) || passed_over(rules, before, stage, rest)
}

/// What a finished search has reached: every way to go on from `initial`
/// with substances that each change the effects, up to `num_mixins`
/// substances in all, is accounted for.
pub open spec fn explored(
    rules: MixtureRules,
    initial: SearchQueueItem,
    num_mixins: usize,
    before: Map<u64, ParetoSearchFront>,
    fronts: Map<u64, ParetoSearchFront>,
) -> bool {
    forall|rest: Seq<Substance>| #[trigger]
        continues(rules, num_mixins as int, stage_of(initial), rest) ==> accounted(
            rules,
            before,
            fronts,
            stage_of(initial),
            rest,
        )
}

/// A search under way: the fronts at the beginning and now, the recipes
/// that wait on the stack, and the recipe in turn with the position of the
/// next substance to try on it (16 where no recipe is in turn).
pub struct Progress {
    pub before: Map<u64, ParetoSearchFront>,
    pub fronts: Map<u64, ParetoSearchFront>,
    pub stack: Seq<SearchQueueItem>,
    pub item: SearchQueueItem,
    pub from: int,
}

/// `item` has the effects that the first `m` substances of `rest` give from
/// `stage`, costs no more and is no longer.
pub open spec fn anchored(
    rules: MixtureRules,
    item: SearchQueueItem,
    stage: Stage,
    rest: Seq<Substance>,
    m: int,
) -> bool {
    &&& item.effects@ == mix(rules, stage.effects, rest.take(m))
    &&& recipe_cost(item.substances@) <= stage.cost + recipe_cost(rest.take(m))
    &&& item.substances@.len() <= stage.length + m
}

/// A recipe on the stack stands for a recipe on the way from `stage` along
/// `rest`, short of its end.
pub open spec fn waiting(
    rules: MixtureRules,
    stack: Seq<SearchQueueItem>,
    stage: Stage,
    rest: Seq<Substance>,
) -> bool {
    exists|m: int, j: int|
        0 <= m < rest.len() && 0 <= j < stack.len() && #[trigger] anchored(
            rules,
            stack[j],
            stage,
            rest,
            m,
        )
}

/// The recipe in turn stands for a recipe on the way from `stage` along
/// `rest`, short of its end, and the substance that comes next on the way is
/// at position `from` or later.
pub open spec fn in_turn(
    rules: MixtureRules,
    item: SearchQueueItem,
    from: int,
    stage: Stage,
    rest: Seq<Substance>,
) -> bool {
    exists|m: int|
        0 <= m < rest.len() && #[trigger] anchored(rules, item, stage, rest, m)
            && rest[m].spec_index() >= from
}

/// The recipe in turn stands for a recipe on the way from `stage` along
/// `rest`, and the substance that comes next on the way is the one at
/// position `from`.
pub open spec fn up_next(
    rules: MixtureRules,
    item: SearchQueueItem,
    from: int,
    stage: Stage,
    rest: Seq<Substance>,
) -> bool {
    exists|m: int|
        0 <= m < rest.len() && #[trigger] anchored(rules, item, stage, rest, m)
            && rest[m].spec_index() == from
}

/// The way from `stage` along `rest` is accounted for or still in work.
pub open spec fn settled(rules: MixtureRules, p: Progress, stage: Stage, rest: Seq<Substance>) -> bool {
    ||| passed_over(rules, p.before, stage, rest)
    ||| prefix_covered(rules, p.fronts, stage, rest, rest.len() as int)
    ||| waiting(rules, p.stack, stage, rest)
    ||| in_turn(rules, p.item, p.from, stage, rest)
}

/// The entry was in the front of `key` at the beginning.
pub open spec fn held_before(before: Map<u64, ParetoSearchFront>, key: u64, entry: RankedRecipe) -> bool {
    before.contains_key(key) && before[key]@.contains(entry)
}

/// What holds while the search runs: every way to go on from `initial`, and
/// from each recipe that the search has put into a front, is accounted for
/// or still in work.
pub open spec fn exploring(
    rules: MixtureRules,
    initial: SearchQueueItem,
    depth: int,
    p: Progress,
) -> bool {
    &&& forall|rest: Seq<Substance>| #[trigger]
        continues(rules, depth, stage_of(initial), rest) ==> settled(
            rules,
            p,
            stage_of(initial),
            rest,
        )
    &&& forall|key: u64, i: int, rest: Seq<Substance>|
        p.fronts.contains_key(key) && 0 <= i < p.fronts[key]@.len() && !held_before(
            p.before,
            key,
            p.fronts[key]@[i],
        ) && #[trigger] continues(rules, depth, entry_stage(key, p.fronts[key]@[i]), rest)
            ==> settled(rules, p, entry_stage(key, p.fronts[key]@[i]), rest)
}

/// From `p` to `q` one substance was tried on the recipe in turn: the stack
/// has what it had, and the fronts cover what they covered.
pub open spec fn improves(p: Progress, q: Progress) -> bool {
    &&& q.before == p.before
    &&& q.item == p.item
    &&& q.from == p.from + 1
    &&& p.stack.len() <= q.stack.len()
    &&& forall|j: int| 0 <= j < p.stack.len() ==> #[trigger] q.stack[j] == p.stack[j]
    &&& forall|key: u64, cost: int, length: int| #[trigger]
        front_covers(p.fronts, key, cost, length) ==> front_covers(q.fronts, key, cost, length)
}

/// Mixing, cost and effectiveness of two lists of substances, one after the
/// other.
pub proof fn lemma_join(rules: MixtureRules, effects: u64, a: Seq<Substance>, b: Seq<Substance>)
    ensures
        mix(rules, effects, a + b) == mix(rules, mix(rules, effects, a), b),
        recipe_cost(a + b) == recipe_cost(a) + recipe_cost(b),
        effective(rules, effects, a + b) == (effective(rules, effects, a) && effective(
            rules,
            mix(rules, effects, a),
            b,
        )),
    decreases b.len(),
{
    if b.len() == 0 {
        assert(a + b =~= a);
    } else {
        lemma_join(rules, effects, a, b.drop_last());
        assert((a + b).drop_last() =~= a + b.drop_last());
        assert((a + b).last() == b.last());
    }
}

/// The first `k + m` substances of `rest` are its first `k` and then the
/// first `m` of what follows them.
pub proof fn lemma_shift(rules: MixtureRules, effects: u64, rest: Seq<Substance>, k: int, m: int)
    requires
        0 <= k <= rest.len(),
        0 <= m <= rest.len() - k,
    ensures
        mix(rules, effects, rest.take(k + m)) == mix(
            rules,
            mix(rules, effects, rest.take(k)),
            rest.skip(k).take(m),
        ),
        recipe_cost(rest.take(k + m)) == recipe_cost(rest.take(k)) + recipe_cost(
            rest.skip(k).take(m),
        ),
        effective(rules, effects, rest) ==> effective(
            rules,
            mix(rules, effects, rest.take(k)),
            rest.skip(k),
        ),
        rest.skip(k).take(rest.len() - k) == rest.skip(k),
        rest.take(rest.len() as int) == rest,
{
    lemma_join(rules, effects, rest.take(k), rest.skip(k).take(m));
    assert(rest.take(k + m) =~= rest.take(k) + rest.skip(k).take(m));
    lemma_join(rules, effects, rest.take(k), rest.skip(k));
    assert(rest =~= rest.take(k) + rest.skip(k));
    assert(rest.skip(k).take(rest.len() - k) =~= rest.skip(k));
    assert(rest.take(rest.len() as int) =~= rest);
}

/// One more substance of `rest`.
pub proof fn lemma_next(rules: MixtureRules, effects: u64, rest: Seq<Substance>, m: int)
    requires
        0 <= m < rest.len(),
    ensures
        mix(rules, effects, rest.take(m + 1)) == rules.apply_spec(
            rest[m],
            mix(rules, effects, rest.take(m)),
        ),
        recipe_cost(rest.take(m + 1)) == recipe_cost(rest.take(m)) + substance_cost(rest[m]),
        effective(rules, effects, rest) ==> mix(rules, effects, rest.take(m + 1)) != mix(
            rules,
            effects,
            rest.take(m),
        ),
        mix(rules, effects, rest.take(0)) == effects,
        recipe_cost(rest.take(0)) == 0,
{
    assert(rest.take(m + 1).drop_last() =~= rest.take(m));
    assert(rest.take(m + 1).last() == rest[m]);
    lemma_join(rules, effects, rest.take(m + 1), rest.skip(m + 1));
    assert(rest =~= rest.take(m + 1) + rest.skip(m + 1));
}

/// Two substances at one position are one substance.
pub proof fn lemma_same_substance(a: Substance, b: Substance)
    requires
        a.spec_index() == b.spec_index(),
    ensures
        a == b,
        a.spec_index() < 16,
{
    lemma_substance_index_round_trip(a);
    lemma_substance_index_round_trip(b);
}

/// How the relationship of two recipes reads in their costs and lengths.
pub proof fn lemma_relation_numbers(a: RankedRecipe, b: RankedRecipe)
    ensures
        relation(a, b) == DominationResult::FirstDominates || relation(a, b)
            == DominationResult::Equal <==> a.objective1 <= b.objective1 && a.objective2
            <= b.objective2,
        relation(a, b) == DominationResult::SecondDominates ==> b.objective1 <= a.objective1
            && b.objective2 <= a.objective2,
{
}

/// A way that is settled from a later stage, reached at no more cost and
/// length, is settled from the earlier stage.
pub proof fn lemma_transfer(
    rules: MixtureRules,
    p: Progress,
    stage: Stage,
    rest: Seq<Substance>,
    k: int,
    mid: Stage,
)
    requires
        0 <= k < rest.len(),
        mid.effects == mix(rules, stage.effects, rest.take(k)),
        mid.cost <= stage.cost + recipe_cost(rest.take(k)),
        mid.length <= stage.length + k,
        settled(rules, p, mid, rest.skip(k)),
    ensures
        settled(rules, p, stage, rest),
{
    let next = rest.skip(k);
    if passed_over(rules, p.before, mid, next) {
        let m = choose|m: int|
            1 <= m <= next.len() && #[trigger] prefix_covered(rules, p.before, mid, next, m);
        lemma_shift(rules, stage.effects, rest, k, m);
        assert(prefix_covered(rules, p.before, stage, rest, k + m));
    } else if prefix_covered(rules, p.fronts, mid, next, next.len() as int) {
        lemma_shift(rules, stage.effects, rest, k, next.len() as int);
        assert(prefix_covered(rules, p.fronts, stage, rest, rest.len() as int));
    } else if waiting(rules, p.stack, mid, next) {
        let (m, j) = choose|m: int, j: int|
            0 <= m < next.len() && 0 <= j < p.stack.len() && #[trigger] anchored(
                rules,
                p.stack[j],
                mid,
                next,
                m,
            );
        lemma_shift(rules, stage.effects, rest, k, m);
        assert(anchored(rules, p.stack[j], stage, rest, k + m));
    } else {
        let m = choose|m: int|
            0 <= m < next.len() && #[trigger] anchored(rules, p.item, mid, next, m)
                && next[m].spec_index() >= p.from;
        lemma_shift(rules, stage.effects, rest, k, m);
        assert(anchored(rules, p.item, stage, rest, k + m));
        assert(rest[k + m] == next[m]);
    }
}

/// After one more substance was tried on the recipe in turn, a way is
/// settled as before, unless that substance came next on it.
pub proof fn lemma_carry(
    rules: MixtureRules,
    p: Progress,
    q: Progress,
    stage: Stage,
    rest: Seq<Substance>,
)
    requires
        settled(rules, p, stage, rest),
        improves(p, q),
    ensures
        settled(rules, q, stage, rest) || up_next(rules, p.item, p.from, stage, rest),
{
    if passed_over(rules, p.before, stage, rest) {
    } else if prefix_covered(rules, p.fronts, stage, rest, rest.len() as int) {
    } else if waiting(rules, p.stack, stage, rest) {
        let (m, j) = choose|m: int, j: int|
            0 <= m < rest.len() && 0 <= j < p.stack.len() && #[trigger] anchored(
                rules,
                p.stack[j],
                stage,
                rest,
                m,
            );
        assert(q.stack[j] == p.stack[j]);
        assert(anchored(rules, q.stack[j], stage, rest, m));
    } else {
        let m = choose|m: int|
            0 <= m < rest.len() && #[trigger] anchored(rules, p.item, stage, rest, m)
                && rest[m].spec_index() >= p.from;
        if rest[m].spec_index() != p.from {
            assert(anchored(rules, q.item, stage, rest, m));
        }
    }
}

/// The search begins with the first recipe on the stack.
pub proof fn lemma_begin(
    rules: MixtureRules,
    initial: SearchQueueItem,
    depth: int,
    before: Map<u64, ParetoSearchFront>,
)
    ensures
        exploring(
            rules,
            initial,
            depth,
            Progress { before, fronts: before, stack: seq![initial], item: initial, from: 16 },
        ),
{
    let p = Progress { before, fronts: before, stack: seq![initial], item: initial, from: 16 };
    assert forall|rest: Seq<Substance>| #[trigger]
        continues(rules, depth, stage_of(initial), rest) implies settled(
        rules,
        p,
        stage_of(initial),
        rest,
    ) by {
        lemma_next(rules, initial.effects@, rest, 0);
        assert(anchored(rules, p.stack[0], stage_of(initial), rest, 0));
    }
}

/// With nothing left on the stack and no recipe in turn, what is settled is
/// accounted for.
pub proof fn lemma_finish(
    rules: MixtureRules,
    initial: SearchQueueItem,
    num_mixins: usize,
    p: Progress,
)
    requires
        exploring(rules, initial, num_mixins as int, p),
        p.stack.len() == 0,
        p.from >= 16,
    ensures
        explored(rules, initial, num_mixins, p.before, p.fronts),
{
    assert forall|rest: Seq<Substance>| #[trigger]
        continues(rules, num_mixins as int, stage_of(initial), rest) implies accounted(
        rules,
        p.before,
        p.fronts,
        stage_of(initial),
        rest,
    ) by {
        let stage = stage_of(initial);
        assert(settled(rules, p, stage, rest));
        assert(rest.take(rest.len() as int) =~= rest);
        if in_turn(rules, p.item, p.from, stage, rest) {
            let m = choose|m: int|
                0 <= m < rest.len() && #[trigger] anchored(rules, p.item, stage, rest, m)
                    && rest[m].spec_index() >= p.from;
            lemma_same_substance(rest[m], rest[m]);
        }
    }
}

/// A way stays settled when a recipe too long to go on from leaves the
/// stack.
proof fn lemma_drop_full_task(
    rules: MixtureRules,
    depth: int,
    p: Progress,
    stage: Stage,
    rest: Seq<Substance>,
)
    requires
        settled(rules, p, stage, rest),
        continues(rules, depth, stage, rest),
        p.stack.len() >= 1,
        p.stack.last().substances@.len() >= depth,
    ensures
        settled(rules, Progress { stack: p.stack.drop_last(), ..p }, stage, rest),
{
    let q = Progress { stack: p.stack.drop_last(), ..p };
    if waiting(rules, p.stack, stage, rest) {
        let (m, j) = choose|m: int, j: int|
            0 <= m < rest.len() && 0 <= j < p.stack.len() && #[trigger] anchored(
                rules,
                p.stack[j],
                stage,
                rest,
                m,
            );
        assert(j < p.stack.len() - 1);
        assert(q.stack[j] == p.stack[j]);
        assert(anchored(rules, q.stack[j], stage, rest, m));
    }
}

/// A recipe that is as long as the search goes leaves the stack.
pub proof fn lemma_drop_full(
    rules: MixtureRules,
    initial: SearchQueueItem,
    depth: int,
    p: Progress,
)
    requires
        exploring(rules, initial, depth, p),
        p.stack.len() >= 1,
        p.stack.last().substances@.len() >= depth,
    ensures
        exploring(rules, initial, depth, Progress { stack: p.stack.drop_last(), ..p }),
{
    let q = Progress { stack: p.stack.drop_last(), ..p };
    assert forall|rest: Seq<Substance>| #[trigger]
        continues(rules, depth, stage_of(initial), rest) implies settled(
        rules,
        q,
        stage_of(initial),
        rest,
    ) by {
        lemma_drop_full_task(rules, depth, p, stage_of(initial), rest);
    }
    assert forall|key: u64, i: int, rest: Seq<Substance>|
        q.fronts.contains_key(key) && 0 <= i < q.fronts[key]@.len() && !held_before(
            q.before,
            key,
            q.fronts[key]@[i],
        ) && #[trigger] continues(
            rules,
            depth,
            entry_stage(key, q.fronts[key]@[i]),
            rest,
        ) implies settled(rules, q, entry_stage(key, q.fronts[key]@[i]), rest) by {
        lemma_drop_full_task(rules, depth, p, entry_stage(key, p.fronts[key]@[i]), rest);
    }
}

/// A way stays settled when the last recipe of the stack comes in turn.
proof fn lemma_take_up_task(rules: MixtureRules, p: Progress, stage: Stage, rest: Seq<Substance>)
    requires
        settled(rules, p, stage, rest),
        p.stack.len() >= 1,
        p.from >= 16,
    ensures
        settled(
            rules,
            Progress { stack: p.stack.drop_last(), item: p.stack.last(), from: 0, ..p },
            stage,
            rest,
        ),
{
    let q = Progress { stack: p.stack.drop_last(), item: p.stack.last(), from: 0, ..p };
    if waiting(rules, p.stack, stage, rest) {
        let (m, j) = choose|m: int, j: int|
            0 <= m < rest.len() && 0 <= j < p.stack.len() && #[trigger] anchored(
                rules,
                p.stack[j],
                stage,
                rest,
                m,
            );
        if j < p.stack.len() - 1 {
            assert(q.stack[j] == p.stack[j]);
            assert(anchored(rules, q.stack[j], stage, rest, m));
        } else {
            assert(anchored(rules, q.item, stage, rest, m));
        }
    } else if in_turn(rules, p.item, p.from, stage, rest) {
        let m = choose|m: int|
            0 <= m < rest.len() && #[trigger] anchored(rules, p.item, stage, rest, m)
                && rest[m].spec_index() >= p.from;
        lemma_same_substance(rest[m], rest[m]);
    }
}

/// The last recipe of the stack comes in turn.
pub proof fn lemma_take_up(
    rules: MixtureRules,
    initial: SearchQueueItem,
    depth: int,
    p: Progress,
)
    requires
        exploring(rules, initial, depth, p),
        p.stack.len() >= 1,
        p.from >= 16,
    ensures
        exploring(
            rules,
            initial,
            depth,
            Progress { stack: p.stack.drop_last(), item: p.stack.last(), from: 0, ..p },
        ),
{
    let q = Progress { stack: p.stack.drop_last(), item: p.stack.last(), from: 0, ..p };
    assert forall|rest: Seq<Substance>| #[trigger]
        continues(rules, depth, stage_of(initial), rest) implies settled(
        rules,
        q,
        stage_of(initial),
        rest,
    ) by {
        lemma_take_up_task(rules, p, stage_of(initial), rest);
    }
    assert forall|key: u64, i: int, rest: Seq<Substance>|
        q.fronts.contains_key(key) && 0 <= i < q.fronts[key]@.len() && !held_before(
            q.before,
            key,
            q.fronts[key]@[i],
        ) && #[trigger] continues(
            rules,
            depth,
            entry_stage(key, q.fronts[key]@[i]),
            rest,
        ) implies settled(rules, q, entry_stage(key, q.fronts[key]@[i]), rest) by {
        lemma_take_up_task(rules, p, entry_stage(key, p.fronts[key]@[i]), rest);
    }
}

/// No way goes on with a substance that leaves the effects as they are.
proof fn lemma_skip_task(
    rules: MixtureRules,
    depth: int,
    p: Progress,
    substance: Substance,
    stage: Stage,
    rest: Seq<Substance>,
)
    requires
        continues(rules, depth, stage, rest),
        substance.spec_index() == p.from,
        rules.apply_spec(substance, p.item.effects@) == p.item.effects@,
    ensures
        !up_next(rules, p.item, p.from, stage, rest),
{
    if up_next(rules, p.item, p.from, stage, rest) {
        let m = choose|m: int|
            0 <= m < rest.len() && #[trigger] anchored(rules, p.item, stage, rest, m)
                && rest[m].spec_index() == p.from;
        lemma_same_substance(rest[m], substance);
        lemma_next(rules, stage.effects, rest, m);
    }
}

/// A substance that leaves the effects of the recipe in turn as they are was
/// passed by.
pub proof fn lemma_skip(
    rules: MixtureRules,
    initial: SearchQueueItem,
    depth: int,
    p: Progress,
    substance: Substance,
)
    requires
        exploring(rules, initial, depth, p),
        substance.spec_index() == p.from,
        rules.apply_spec(substance, p.item.effects@) == p.item.effects@,
    ensures
        exploring(rules, initial, depth, Progress { from: p.from + 1, ..p }),
{
    let q = Progress { from: p.from + 1, ..p };
    assert(improves(p, q));
    assert forall|rest: Seq<Substance>| #[trigger]
        continues(rules, depth, stage_of(initial), rest) implies settled(
        rules,
        q,
        stage_of(initial),
        rest,
    ) by {
        lemma_carry(rules, p, q, stage_of(initial), rest);
        lemma_skip_task(rules, depth, p, substance, stage_of(initial), rest);
    }
    assert forall|key: u64, i: int, rest: Seq<Substance>|
        q.fronts.contains_key(key) && 0 <= i < q.fronts[key]@.len() && !held_before(
            q.before,
            key,
            q.fronts[key]@[i],
        ) && #[trigger] continues(
            rules,
            depth,
            entry_stage(key, q.fronts[key]@[i]),
            rest,
        ) implies settled(rules, q, entry_stage(key, q.fronts[key]@[i]), rest) by {
        let stage = entry_stage(key, p.fronts[key]@[i]);
        lemma_carry(rules, p, q, stage, rest);
        lemma_skip_task(rules, depth, p, substance, stage, rest);
    }
}

/// The recipe in turn with one more substance found, in the front of its
/// effects, an entry that costs no more and is no longer: a way that goes on
/// with that substance is settled all the same.
proof fn lemma_pruned_task(
    rules: MixtureRules,
    initial: SearchQueueItem,
    depth: int,
    p: Progress,
    q: Progress,
    substance: Substance,
    key: u64,
    i: int,
    stage: Stage,
    rest: Seq<Substance>,
    m: int,
)
    requires
        exploring(rules, initial, depth, p),
        improves(p, q),
        substance.spec_index() == p.from,
        key == rules.apply_spec(substance, p.item.effects@),
        p.fronts.contains_key(key),
        0 <= i < p.fronts[key]@.len(),
        p.fronts[key]@[i].objective1 <= recipe_cost(p.item.substances@) + substance_cost(
            substance,
        ),
        p.fronts[key]@[i].objective2 <= p.item.substances@.len() + 1,
        continues(rules, depth, stage, rest),
        0 <= m < rest.len(),
        anchored(rules, p.item, stage, rest, m),
        rest[m].spec_index() == p.from,
    ensures
        settled(rules, q, stage, rest),
    decreases rest.len() - m,
{
    lemma_same_substance(rest[m], substance);
    lemma_next(rules, stage.effects, rest, m);
    let entry = p.fronts[key]@[i];
    assert(prefix_covered(rules, p.fronts, stage, rest, m + 1));
    if m + 1 == rest.len() {
        assert(front_covers(
            q.fronts,
            key,
            stage.cost + recipe_cost(rest.take(m + 1)),
            stage.length + m + 1,
        ));
    } else if held_before(p.before, key, entry) {
        let j = choose|j: int| 0 <= j < p.before[key]@.len() && p.before[key]@[j] == entry;
        assert(prefix_covered(rules, q.before, stage, rest, m + 1));
    } else {
        let mid = entry_stage(key, entry);
        let next = rest.skip(m + 1);
        lemma_shift(rules, stage.effects, rest, m + 1, 0);
        assert(continues(rules, depth, mid, next));
        assert(settled(rules, p, mid, next));
        lemma_carry(rules, p, q, mid, next);
        if !settled(rules, q, mid, next) {
            let m2 = choose|m2: int|
                0 <= m2 < next.len() && #[trigger] anchored(rules, p.item, mid, next, m2)
                    && next[m2].spec_index() == p.from;
            lemma_pruned_task(
                rules,
                initial,
                depth,
                p,
                q,
                substance,
                key,
                i,
                mid,
                next,
                m2,
            );
        }
        lemma_transfer(rules, q, stage, rest, m + 1, mid);
    }
}

/// The recipe in turn with one more substance was offered to the front of
/// its effects and left out.
pub proof fn lemma_pruned(
    rules: MixtureRules,
    initial: SearchQueueItem,
    depth: int,
    p: Progress,
    substance: Substance,
    key: u64,
    i: int,
    front: ParetoSearchFront,
)
    requires
        exploring(rules, initial, depth, p),
        substance.spec_index() == p.from,
        key == rules.apply_spec(substance, p.item.effects@),
        p.fronts.contains_key(key),
        front@ == p.fronts[key]@,
        0 <= i < p.fronts[key]@.len(),
        p.fronts[key]@[i].objective1 <= recipe_cost(p.item.substances@) + substance_cost(
            substance,
        ),
        p.fronts[key]@[i].objective2 <= p.item.substances@.len() + 1,
    ensures
        exploring(
            rules,
            initial,
            depth,
            Progress { fronts: p.fronts.insert(key, front), from: p.from + 1, ..p },
        ),
{
    let q = Progress { fronts: p.fronts.insert(key, front), from: p.from + 1, ..p };
    assert forall|key2: u64, cost: int, length: int| #[trigger]
        front_covers(p.fronts, key2, cost, length) implies front_covers(
        q.fronts,
        key2,
        cost,
        length,
    ) by {
        assert(q.fronts[key2]@ == p.fronts[key2]@);
    }
    assert(improves(p, q));
    assert forall|rest: Seq<Substance>| #[trigger]
        continues(rules, depth, stage_of(initial), rest) implies settled(
        rules,
        q,
        stage_of(initial),
        rest,
    ) by {
        let stage = stage_of(initial);
        lemma_carry(rules, p, q, stage, rest);
        if !settled(rules, q, stage, rest) {
            let m = choose|m: int|
                0 <= m < rest.len() && #[trigger] anchored(rules, p.item, stage, rest, m)
                    && rest[m].spec_index() == p.from;
            lemma_pruned_task(rules, initial, depth, p, q, substance, key, i, stage, rest, m);
        }
    }
    assert forall|key2: u64, i2: int, rest: Seq<Substance>|
        q.fronts.contains_key(key2) && 0 <= i2 < q.fronts[key2]@.len() && !held_before(
            q.before,
            key2,
            q.fronts[key2]@[i2],
        ) && #[trigger] continues(
            rules,
            depth,
            entry_stage(key2, q.fronts[key2]@[i2]),
            rest,
        ) implies settled(rules, q, entry_stage(key2, q.fronts[key2]@[i2]), rest) by {
        assert(p.fronts.contains_key(key2));
        assert(q.fronts[key2]@ == p.fronts[key2]@);
        let stage = entry_stage(key2, p.fronts[key2]@[i2]);
        assert(settled(rules, p, stage, rest));
        lemma_carry(rules, p, q, stage, rest);
        if !settled(rules, q, stage, rest) {
            let m = choose|m: int|
                0 <= m < rest.len() && #[trigger] anchored(rules, p.item, stage, rest, m)
                    && rest[m].spec_index() == p.from;
            lemma_pruned_task(rules, initial, depth, p, q, substance, key, i, stage, rest, m);
        }
    }
}

/// The recipe in turn with one more substance went into the front of its
/// effects and onto the stack: a way that goes on with that substance is
/// settled.
proof fn lemma_added_task(
    rules: MixtureRules,
    depth: int,
    p: Progress,
    q: Progress,
    substance: Substance,
    child: SearchQueueItem,
    stage: Stage,
    rest: Seq<Substance>,
)
    requires
        up_next(rules, p.item, p.from, stage, rest),
        continues(rules, depth, stage, rest),
        substance.spec_index() == p.from,
        child.effects@ == rules.apply_spec(substance, p.item.effects@),
        child.substances@ == p.item.substances@.push(substance),
        child.substances@.len() <= 32,
        q.stack == p.stack.push(child),
        q.fronts.contains_key(child.effects@),
        q.fronts[child.effects@]@.len() >= 1,
        q.fronts[child.effects@]@.last() == ranked(child),
    ensures
        settled(rules, q, stage, rest),
{
    let m = choose|m: int|
        0 <= m < rest.len() && #[trigger] anchored(rules, p.item, stage, rest, m)
            && rest[m].spec_index() == p.from;
    lemma_same_substance(rest[m], substance);
    lemma_next(rules, stage.effects, rest, m);
    lemma_recipe_cost_bound(child.substances@);
    assert(child.substances@.drop_last() == p.item.substances@);
    if m + 1 == rest.len() {
        let front = q.fronts[child.effects@]@;
        assert(front[front.len() - 1] == ranked(child));
        assert(prefix_covered(rules, q.fronts, stage, rest, m + 1));
    } else {
        assert(q.stack[p.stack.len() as int] == child);
        assert(anchored(rules, q.stack[p.stack.len() as int], stage, rest, m + 1));
    }
}

/// The recipe in turn with one more substance went into the front of its
/// effects and onto the stack.
pub proof fn lemma_added(
    rules: MixtureRules,
    initial: SearchQueueItem,
    depth: int,
    p: Progress,
    substance: Substance,
    child: SearchQueueItem,
    old_front: Seq<RankedRecipe>,
    front: ParetoSearchFront,
)
    requires
        exploring(rules, initial, depth, p),
        substance.spec_index() == p.from,
        child.effects@ == rules.apply_spec(substance, p.item.effects@),
        child.substances@ == p.item.substances@.push(substance),
        child.substances@.len() <= 32,
        p.fronts.contains_key(child.effects@) ==> old_front == p.fronts[child.effects@]@,
        !p.fronts.contains_key(child.effects@) ==> old_front.len() == 0,
        front@.len() >= 1,
        front@.last() == ranked(child),
        forall|x: RankedRecipe|
            front@.drop_last().contains(x) <==> old_front.contains(x) && relation(
                x,
                ranked(child),
            ) != DominationResult::SecondDominates,
    ensures
        exploring(
            rules,
            initial,
            depth,
            Progress {
                fronts: p.fronts.insert(child.effects@, front),
                stack: p.stack.push(child),
                from: p.from + 1,
                ..p
            },
        ),
{
    let key = child.effects@;
    let q = Progress {
        fronts: p.fronts.insert(key, front),
        stack: p.stack.push(child),
        from: p.from + 1,
        ..p
    };
    let last = front@.len() - 1;
    assert forall|key2: u64, cost: int, length: int| #[trigger]
        front_covers(p.fronts, key2, cost, length) implies front_covers(
        q.fronts,
        key2,
        cost,
        length,
    ) by {
        if key2 == key {
            let j = choose|j: int|
                0 <= j < old_front.len() && (#[trigger] old_front[j]).objective1 <= cost
                    && old_front[j].objective2 <= length;
            let x = old_front[j];
            lemma_relation_numbers(x, ranked(child));
            if relation(x, ranked(child)) != DominationResult::SecondDominates {
                assert(old_front.contains(x));
                assert(front@.drop_last().contains(x));
                let t = choose|t: int|
                    0 <= t < front@.drop_last().len() && front@.drop_last()[t] == x;
                assert(front@[t] == x);
            } else {
                assert(front@[last] == ranked(child));
            }
        } else {
            assert(q.fronts[key2] == p.fronts[key2]);
        }
    }
    assert(improves(p, q));
    assert forall|rest: Seq<Substance>| #[trigger]
        continues(rules, depth, stage_of(initial), rest) implies settled(
        rules,
        q,
        stage_of(initial),
        rest,
    ) by {
        let stage = stage_of(initial);
        lemma_carry(rules, p, q, stage, rest);
        if !settled(rules, q, stage, rest) {
            lemma_added_task(rules, depth, p, q, substance, child, stage, rest);
        }
    }
    assert forall|key2: u64, i2: int, rest: Seq<Substance>|
        q.fronts.contains_key(key2) && 0 <= i2 < q.fronts[key2]@.len() && !held_before(
            q.before,
            key2,
            q.fronts[key2]@[i2],
        ) && #[trigger] continues(
            rules,
            depth,
            entry_stage(key2, q.fronts[key2]@[i2]),
            rest,
        ) implies settled(rules, q, entry_stage(key2, q.fronts[key2]@[i2]), rest) by {
        let entry = q.fronts[key2]@[i2];
        let stage = entry_stage(key2, entry);
        if key2 == key && i2 == last {
            lemma_next(rules, key, rest, 0);
            lemma_recipe_cost_bound(child.substances@);
            assert(q.stack[p.stack.len() as int] == child);
            assert(anchored(rules, q.stack[p.stack.len() as int], stage, rest, 0));
        } else {
            if key2 == key {
                assert(front@.drop_last()[i2] == entry);
                assert(front@.drop_last().contains(entry));
                assert(old_front.contains(entry));
                let j = choose|j: int| 0 <= j < old_front.len() && old_front[j] == entry;
                assert(p.fronts[key]@[j] == entry);
                assert(continues(rules, depth, entry_stage(key, p.fronts[key]@[j]), rest));
            } else {
                assert(q.fronts[key2] == p.fronts[key2]);
                assert(continues(rules, depth, entry_stage(key2, p.fronts[key2]@[i2]), rest));
            }
            assert(settled(rules, p, stage, rest));
            lemma_carry(rules, p, q, stage, rest);
            if !settled(rules, q, stage, rest) {
                lemma_added_task(rules, depth, p, q, substance, child, stage, rest);
            }
        }
    }
}

} // verus!
