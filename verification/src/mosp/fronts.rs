//! Labels against the labels already settled at a node: which label beats
//! which, and which new label a node takes.

use super::pending::{key_lt, Key};
use super::Label;
use crate::mixing::Substance;
use vstd::prelude::*;

verus! {

/// `e` is no longer than `length` and no dearer than `cost`: it beats a walk
/// of that length and cost, or equals it.
pub open spec fn at_most(e: Label, length: int, cost: int) -> bool {
    e.length <= length && e.cost <= cost
}

/// One of `existing` beats or equals a walk of the given length and cost.
pub open spec fn covered(existing: Seq<Label>, length: int, cost: int) -> bool {
    exists|k: int| 0 <= k < existing.len() && at_most(#[trigger] existing[k], length, cost)
}

/// The first length is smaller, or the lengths are equal and the first cost
/// is no larger.
pub open spec fn pair_le(length1: int, cost1: int, length2: int, cost2: int) -> bool {
    length1 < length2 || (length1 == length2 && cost1 <= cost2)
}

/// From one label to the next the length rises and the cost falls: no label
/// beats or equals another.
pub open spec fn front_ordered(labels: Seq<Label>) -> bool {
    forall|i: int, j: int|
        0 <= i < j < labels.len() ==> (#[trigger] labels[i]).length < (#[trigger] labels[j]).length
            && labels[i].cost > labels[j].cost
}

/// What the scan of `existing` says of `label`: at the first label that
/// beats or equals it, no; at the first that it beats, yes; at the end, yes.
pub open spec fn accepts(existing: Seq<Label>, label: Label) -> bool
    decreases existing.len(),
{
    if existing.len() == 0 {
        true
    } else if at_most(existing[0], label.length as int, label.cost as int) {
        false
    } else if label.length <= existing[0].length && label.cost <= existing[0].cost {
        true
    } else {
        accepts(existing.drop_first(), label)
    }
}

/// Against labels of which none beats another, the scan accepts exactly the
/// labels that none of them beats or equals.
pub proof fn lemma_accepts_ordered(existing: Seq<Label>, label: Label)
    requires
        front_ordered(existing),
    ensures
        accepts(existing, label) == !covered(existing, label.length as int, label.cost as int),
    decreases existing.len(),
{
    if existing.len() > 0 {
        let rest = existing.drop_first();
        assert forall|i: int, j: int| 0 <= i < j < rest.len() implies (#[trigger] rest[i]).length < (
        #[trigger] rest[j]).length && rest[i].cost > rest[j].cost by {
            assert(rest[i] == existing[i + 1]);
            assert(rest[j] == existing[j + 1]);
        }
        lemma_accepts_ordered(rest, label);
        if at_most(existing[0], label.length as int, label.cost as int) {
        } else if label.length <= existing[0].length && label.cost <= existing[0].cost {
            if covered(existing, label.length as int, label.cost as int) {
                let k = choose|k: int|
                    0 <= k < existing.len() && at_most(
                        #[trigger] existing[k],
                        label.length as int,
                        label.cost as int,
                    );
                assert(existing[0].length < existing[k].length);
            }
        } else {
            if covered(existing, label.length as int, label.cost as int) {
                let k = choose|k: int|
                    0 <= k < existing.len() && at_most(
                        #[trigger] existing[k],
                        label.length as int,
                        label.cost as int,
                    );
                assert(rest[k - 1] == existing[k]);
            }
            if covered(rest, label.length as int, label.cost as int) {
                let k = choose|k: int|
                    0 <= k < rest.len() && at_most(
                        #[trigger] rest[k],
                        label.length as int,
                        label.cost as int,
                    );
                assert(rest[k] == existing[k + 1]);
            }
        }
    }
}

/// The label of the walk that goes on from the walk of `old` by one step with
/// `substance`, at the given cost; `None` where its length or cost has no
/// room in a label.
pub open spec fn extension(old: Label, substance: Substance, cost: u16, backlink: u32) -> Option<
    Label,
> {
    if old.length < 255 && old.cost + cost <= 0xffff {
        Some(
            Label {
                length: (old.length + 1) as u8,
                cost: (old.cost + cost) as u16,
                previous_substance: substance,
                backlink,
            },
        )
    } else {
        None
    }
}

/// The first extension, among those of `labels` in order, that the scan of
/// `existing` accepts.
pub open spec fn first_extension(
    labels: Seq<Label>,
    substance: Substance,
    cost: u16,
    backlink: u32,
    existing: Seq<Label>,
) -> Option<Label>
    decreases labels.len(),
{
    if labels.len() == 0 {
        None
    } else {
        match extension(labels[0], substance, cost, backlink) {
            Some(label) if accepts(existing, label) => Some(label),
            _ => first_extension(labels.drop_first(), substance, cost, backlink, existing),
        }
    }
}

/// The smaller of two candidates, the first where neither comes before the
/// other.
pub open spec fn smaller(best: Option<Label>, next: Option<Label>) -> Option<Label> {
    match (best, next) {
        (None, _) => next,
        (_, None) => best,
        (Some(b), Some(c)) => if key_lt(c.key(), b.key()) {
            next
        } else {
            best
        },
    }
}

/// The next label of `node`: along each link that leads to it, the node at
/// the other end offers its first extension that the scan of the node's
/// labels accepts, with that node as its backlink, and the smallest offer
/// wins.
pub open spec fn best_candidate(
    node: u32,
    predecessors: Seq<(u32, Substance)>,
    costs: Seq<u16>,
    permanent: Seq<Seq<Label>>,
) -> Option<Label>
    decreases predecessors.len(),
{
    if predecessors.len() == 0 {
        None
    } else {
        let (pred, substance) = predecessors.last();
        smaller(
            best_candidate(node, predecessors.drop_last(), costs, permanent),
            first_extension(
                permanent[pred as int],
                substance,
                costs[substance.spec_index() as int],
                pred,
                permanent[node as int],
            ),
        )
    }
}

} // verus!
