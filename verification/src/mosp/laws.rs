//! What the result of the search is worth: no label beats another, and the
//! labels of a node beat or equal the walks to it.

use super::fronts::{at_most, covered, front_ordered};
use super::settling::{closed_under_links, fronts, justified, labels_sound, step_due};
use crate::query::{first_with_length, label_linked, linked};
use super::{source_label, Label};
use crate::mixing::Substance;
use vstd::prelude::*;

verus! {

/// The node that a walk from `start` ends at, where each step follows the
/// edge of its substance.
pub open spec fn walk_end(succ: Seq<[u32; 16]>, start: int, steps: Seq<Substance>) -> int
    decreases steps.len(),
{
    if steps.len() == 0 {
        start
    } else {
        succ[walk_end(succ, start, steps.drop_last())][steps.last().spec_index() as int] as int
    }
}

/// Sum of the costs of the substances of a walk.
pub open spec fn walk_cost(costs: Seq<u16>, steps: Seq<Substance>) -> int
    decreases steps.len(),
{
    if steps.len() == 0 {
        0
    } else {
        walk_cost(costs, steps.drop_last()) + costs[steps.last().spec_index() as int]
    }
}

/// Among the labels of a node none beats or equals another.
pub proof fn lemma_antichain(perm: Seq<Seq<Label>>, u: int, i: int, j: int)
    requires
        fronts(perm),
        0 <= u < perm.len(),
        0 <= i < perm[u].len(),
        0 <= j < perm[u].len(),
        i != j,
    ensures
        !at_most(perm[u][i], perm[u][j].length as int, perm[u][j].cost as int),
{
    reveal(fronts);
    assert(front_ordered(perm[u]));
    if i < j {
        assert(perm[u][i].cost > perm[u][j].cost);
    } else {
        assert(perm[u][j].length < perm[u][i].length);
    }
}

/// A walk from the start whose length and cost have room in a label is
/// beaten or equalled by a label of the node it ends at.
pub proof fn lemma_walk_covered(
    succ: Seq<[u32; 16]>,
    costs: Seq<u16>,
    start: int,
    perm: Seq<Seq<Label>>,
    steps: Seq<Substance>,
)
    requires
        perm.len() == succ.len(),
        0 <= start < succ.len(),
        costs.len() >= 16,
        forall|a: int, s: int|
            0 <= a < succ.len() && 0 <= s < 16 ==> (#[trigger] succ[a][s]) < succ.len(),
        closed_under_links(succ, costs, perm),
        perm[start].len() > 0,
        perm[start][0] == source_label(),
        steps.len() <= 255,
        walk_cost(costs, steps) <= 0xffff,
    ensures
        0 <= walk_end(succ, start, steps) < succ.len(),
        0 <= walk_cost(costs, steps),
        covered(
            perm[walk_end(succ, start, steps)],
            steps.len() as int,
            walk_cost(costs, steps),
        ),
    decreases steps.len(),
{
    if steps.len() == 0 {
        assert(at_most(perm[start][0], 0, 0));
    } else {
        let before = steps.drop_last();
        let s = steps.last().spec_index() as int;
        crate::mixing::lemma_substance_index_round_trip(steps.last());
        lemma_walk_cost_nonnegative(costs, before);
        lemma_walk_covered(succ, costs, start, perm, before);
        let from = walk_end(succ, start, before);
        let to = walk_end(succ, start, steps);
        assert(to == succ[from][s]);
        let k = choose|k: int|
            0 <= k < perm[from].len() && at_most(
                #[trigger] perm[from][k],
                before.len() as int,
                walk_cost(costs, before),
            );
        if to == from {
            assert(at_most(perm[to][k], steps.len() as int, walk_cost(costs, steps)));
        } else {
            reveal(closed_under_links);
            assert(step_due(succ, costs, perm, from, to, s, k));
            let m = choose|m: int|
                0 <= m < perm[to].len() && at_most(
                    #[trigger] perm[to][m],
                    perm[from][k].length + 1,
                    perm[from][k].cost + costs[s],
                );
            assert(at_most(perm[to][m], steps.len() as int, walk_cost(costs, steps)));
        }
    }
}

/// Every walk from the start whose length and cost have room in a label is
/// beaten or equalled by a label of the node it ends at.
pub open spec fn covers_walks(
    succ: Seq<[u32; 16]>,
    costs: Seq<u16>,
    start: int,
    perm: Seq<Seq<Label>>,
) -> bool {
    forall|steps: Seq<Substance>|
        steps.len() <= 255 && #[trigger] walk_cost(costs, steps) <= 0xffff ==> 0 <= walk_end(
            succ,
            start,
            steps,
        ) < perm.len() && covered(
            perm[walk_end(succ, start, steps)],
            steps.len() as int,
            walk_cost(costs, steps),
        )
}

/// Where every step from a node to another is taken care of and the start
/// has its label, the labels beat or equal every walk from the start.
pub proof fn lemma_walks_covered(
    succ: Seq<[u32; 16]>,
    costs: Seq<u16>,
    start: int,
    perm: Seq<Seq<Label>>,
)
    requires
        perm.len() == succ.len(),
        0 <= start < succ.len(),
        costs.len() >= 16,
        forall|a: int, s: int|
            0 <= a < succ.len() && 0 <= s < 16 ==> (#[trigger] succ[a][s]) < succ.len(),
        closed_under_links(succ, costs, perm),
        perm[start].len() > 0,
        perm[start][0] == source_label(),
    ensures
        covers_walks(succ, costs, start, perm),
{
    assert forall|steps: Seq<Substance>|
        steps.len() <= 255 && #[trigger] walk_cost(costs, steps) <= 0xffff implies 0 <= walk_end(
        succ,
        start,
        steps,
    ) < perm.len() && covered(
        perm[walk_end(succ, start, steps)],
        steps.len() as int,
        walk_cost(costs, steps),
    ) by {
        lemma_walk_covered(succ, costs, start, perm, steps);
    }
}

/// The first label of a row with a length that a label of the row has is
/// that label, where the lengths of the row rise.
pub proof fn lemma_first_with_length_found(labels: Seq<Label>, j: int)
    requires
        front_ordered(labels),
        0 <= j < labels.len(),
    ensures
        first_with_length(labels, labels[j].length as int) == Some(labels[j]),
    decreases labels.len(),
{
    if j > 0 {
        let rest = labels.drop_first();
        assert(labels[0].length < labels[j].length);
        assert forall|a: int, b: int| 0 <= a < b < rest.len() implies (#[trigger] rest[a]).length < (
        #[trigger] rest[b]).length && rest[a].cost > rest[b].cost by {
            assert(rest[a] == labels[a + 1]);
            assert(rest[b] == labels[b + 1]);
        }
        assert(rest[j - 1] == labels[j]);
        lemma_first_with_length_found(rest, j - 1);
    }
}

/// Where every label stands for a walk and the labels of each node are in
/// order, every label leads back to where it came from: its backlink is the
/// node before the last step, which holds the label one step shorter.
pub proof fn lemma_labels_linked(
    succ: Seq<[u32; 16]>,
    costs: Seq<u16>,
    start: u32,
    perm: Seq<Seq<Label>>,
)
    requires
        perm.len() == succ.len(),
        succ.len() <= u32::MAX,
        fronts(perm),
        labels_sound(succ, costs, start, perm),
    ensures
        linked(succ, costs, start as int, perm),
{
    reveal(fronts);
    reveal(labels_sound);
    assert forall|u: int, j: int| 0 <= u < perm.len() && 0 <= j < perm[u].len() implies label_linked(
        succ,
        costs,
        start as int,
        perm,
        u,
        #[trigger] perm[u][j],
    ) by {
        let label = perm[u][j];
        assert(justified(succ, costs, start, perm, u, label.key()));
        if u == start && label.key() == source_label().key() {
            super::lemma_key_injective(label, source_label());
        } else {
            let (v, i, k) = choose|v: int, i: int, k: int|
                #![trigger succ[v][i], perm[v][k]]
                0 <= v < perm.len() && 0 <= i < 16 && 0 <= k < perm[v].len() && succ[v][i] == u
                    && label.key().0 == perm[v][k].length + 1 && label.key().1 == perm[v][k].cost
                    + costs[i] && label.key().2 == i && label.key().3 == v;
            assert(front_ordered(perm[v]));
            lemma_first_with_length_found(perm[v], k);
        }
    }
}

/// A walk costs nothing or more.
pub proof fn lemma_walk_cost_nonnegative(costs: Seq<u16>, steps: Seq<Substance>)
    ensures
        0 <= walk_cost(costs, steps),
    decreases steps.len(),
{
    if steps.len() > 0 {
        lemma_walk_cost_nonnegative(costs, steps.drop_last());
    }
}

} // verus!
