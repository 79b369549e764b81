//! Multi-objective shortest paths over the effect graph: for each node the
//! labels of the walks from a start node that no other walk beats in both
//! length and cost.

pub mod fronts;
pub mod laws;
pub mod settling;
pub mod pending;

use crate::combinatorial::in_domain;
use crate::effect_graph::{links_consistent, EffectGraph};
use crate::flat_storage::{lemma_total_len_push, rows_of, total_len};
use crate::mixing::{Effects, Substance};
use fronts::{accepts, best_candidate, extension, first_extension, smaller};
use pending::{
    key_lt, pending_entries, pending_new, pending_pop, pending_push, pending_push_increase, Key,
    Pending,
};
use laws::{covers_walks, lemma_labels_linked, lemma_walks_covered};
use settling::{
    closed_under_links, forwarded, fronts, is_link, labels_sound, lemma_forward,
    lemma_fronts_total, lemma_search_end, lemma_search_start, lemma_settle, lists_links,
    no_labels, popped, refilled, searching, settled,
};
use vstd::prelude::*;

verus! {

/// Number of a node of the effect graph.
pub type EffectIndex = u32;

/// Cost of a walk.
pub type Cost = u16;

/// Number of steps of a walk.
pub type PathLength = u8;

/// The backlink of a label that has none.
pub const NICHE: EffectIndex = 0xffff_ffff;

/// A label of a node: the length and the cost of a walk from the start to the
/// node, the substance of its last step, and the node before that step.
#[derive(Debug, Clone, Copy, PartialEq, Eq, Structural, PartialOrd, Ord)]
pub struct Label {
    pub length: PathLength,
    pub cost: Cost,
    pub previous_substance: Substance,
    pub backlink: EffectIndex,
}

/// The label of the start: no step, no cost, no backlink.
pub open spec fn source_label() -> Label {
    Label { length: 0, cost: 0, previous_substance: Substance::Cuke, backlink: NICHE }
}

impl Label {
    /// The label as the queue orders it.
    pub open spec fn key(self) -> Key {
        (self.length, self.cost, self.previous_substance.spec_index(), self.backlink)
    }

    /// The label of the start: no step, no cost, no backlink.
    pub fn source() -> (r: Label)
        ensures
            r == source_label(),
    {
        Label { length: 0, cost: 0, previous_substance: Substance::Cuke, backlink: NICHE }
    }

    /// The node before the last step and the substance of that step; `None`
    /// for a label of the start.
    pub fn backlink(&self) -> (r: Option<(EffectIndex, Substance)>)
        ensures
            r == if self.backlink == NICHE {
                None
            } else {
                Some((self.backlink, self.previous_substance))
            },
    {
        if self.backlink == NICHE {
            None
        } else {
            Some((self.backlink, self.previous_substance))
        }
    }

    /// The label as the queue orders it.
    pub fn to_key(&self) -> (r: Key)
        ensures
            r == self.key(),
    {
        (self.length, self.cost, self.previous_substance.index(), self.backlink)
    }

    /// The label that the queue holds as `key`; `None` where the third
    /// component is the position of no substance.
    pub fn from_key(key: Key) -> (r: Option<Label>)
        ensures
            r is Some <==> key.2 < 16,
            r matches Some(l) ==> l.key() == key,
    {
        match Substance::from_index(key.2) {
            Some(previous_substance) => Some(
                Label { length: key.0, cost: key.1, previous_substance, backlink: key.3 },
            ),
            None => None,
        }
    }

    /// Whether the label comes before `other` in the order of the queue:
    /// by length, then cost, then substance, then backlink.
    pub fn before(&self, other: &Label) -> (r: bool)
        ensures
            r == key_lt(self.key(), other.key()),
    {
        let a = self.to_key();
        let b = other.to_key();
        a.0 < b.0 || (a.0 == b.0 && (a.1 < b.1 || (a.1 == b.1 && (a.2 < b.2 || (a.2 == b.2 && a.3
            < b.3)))))
    }
}

/// Two labels with one key are one label.
pub proof fn lemma_key_injective(a: Label, b: Label)
    requires
        a.key() == b.key(),
    ensures
        a == b,
{
    crate::mixing::lemma_substance_index_round_trip(a.previous_substance);
    crate::mixing::lemma_substance_index_round_trip(b.previous_substance);
}

/// Whether `label` is a new label for a node with the labels `existing`:
/// no, where an existing label beats or equals it; yes, where it beats an
/// existing label or none of them compares with it. The scan stops at the
/// first existing label that settles the matter.
pub fn label_nondominated_nonequal(label: Label, existing: &[Label]) -> (r: bool)
    ensures
        r == accepts(existing@, label),
{
    let mut i: usize = 0;
    proof {
        assert(existing@.subrange(0, existing@.len() as int) == existing@);
    }
    while i < existing.len()
        invariant
            i <= existing@.len(),
            accepts(existing@, label) == accepts(
                existing@.subrange(i as int, existing@.len() as int),
                label,
            ),
        decreases existing@.len() - i,
    {
        let ex = &existing[i];
        proof {
            let rest = existing@.subrange(i as int, existing@.len() as int);
            assert(rest[0] == existing@[i as int]);
            assert(rest.drop_first() == existing@.subrange(i + 1, existing@.len() as int));
        }
        if ex.length <= label.length && ex.cost <= label.cost {
            // An existing label beats the candidate or equals it.
            return false;
        }
        if label.length <= ex.length && label.cost <= ex.cost {
            // The candidate beats an existing label.
            return true;
        }
        i += 1;
    }
    // If we checked all existing labels, this new one must be non-dominated and non-equivalent.
    true
}

/// The label of the walk that goes on from the walk of `old` by one step with
/// `substance`; `None` where its length or cost has no room in a label.
pub fn extend(old: &Label, substance: Substance, cost: Cost, backlink: EffectIndex) -> (r: Option<
    Label,
>)
    ensures
        r == extension(*old, substance, cost, backlink),
{
    if old.length < 255 && old.cost <= 0xffff - cost {
        Some(
            Label {
                length: old.length + 1,
                cost: old.cost + cost,
                previous_substance: substance,
                backlink,
            },
        )
    } else {
        None
    }
}

/// The next label of `node`, after its labels so far: along each of the
/// given links, the node at the other end offers the extension of its first
/// label that is new for the node, with itself as the backlink, and the
/// smallest offer is the candidate.
pub fn next_candidate_label(
    node: EffectIndex,
    predecessors: &Vec<(EffectIndex, Substance)>,
    substance_costs: &[Cost],
    permanent_labels: &Vec<Vec<Label>>,
) -> (r: Option<Label>)
    requires
        node < permanent_labels@.len(),
        substance_costs@.len() >= 16,
        forall|i: int|
            0 <= i < predecessors@.len() ==> (#[trigger] predecessors@[i]).0
                < permanent_labels@.len(),
    ensures
        r == best_candidate(node, predecessors@, substance_costs@, rows_of(permanent_labels@)),
{
    let mut new_candidate: Option<Label> = None;
    let existing_labels = &permanent_labels[node as usize];
    let ghost permanent = rows_of(permanent_labels@);
    let mut p: usize = 0;
    while p < predecessors.len()
        invariant
            p <= predecessors@.len(),
            node < permanent_labels@.len(),
            substance_costs@.len() >= 16,
            permanent == rows_of(permanent_labels@),
            existing_labels@ == permanent[node as int],
            forall|i: int|
                0 <= i < predecessors@.len() ==> (#[trigger] predecessors@[i]).0
                    < permanent_labels@.len(),
            new_candidate == best_candidate(
                node,
                predecessors@.subrange(0, p as int),
                substance_costs@,
                permanent,
            ),
        decreases predecessors@.len() - p,
    {
        let (pred, sub) = predecessors[p];
        let cost = substance_costs[sub.index() as usize];
        let labels = &permanent_labels[pred as usize];
        let mut offer: Option<Label> = None;
        let mut j: usize = 0;
        proof {
            assert(labels@.subrange(0, labels@.len() as int) == labels@);
        }
        while j < labels.len()
            invariant_except_break
                offer is None,
                first_extension(labels@, sub, cost, pred, existing_labels@) == first_extension(
                    labels@.subrange(j as int, labels@.len() as int),
                    sub,
                    cost,
                    pred,
                    existing_labels@,
                ),
            invariant
                j <= labels@.len(),
            ensures
                offer == first_extension(labels@, sub, cost, pred, existing_labels@),
            decreases labels@.len() - j,
        {
            proof {
                let rest = labels@.subrange(j as int, labels@.len() as int);
                assert(rest[0] == labels@[j as int]);
                assert(rest.drop_first() == labels@.subrange(j + 1, labels@.len() as int));
            }
            match extend(&labels[j], sub, cost, pred) {
                Some(new_label) => {
                    // Test for dominance of existing items over this new candidate
                    if label_nondominated_nonequal(new_label, existing_labels.as_slice()) {
                        offer = Some(new_label);
                        break ;
                    }
                },
                None => {},
            }
            j += 1;
        }
        proof {
            assert(predecessors@.subrange(0, p + 1).drop_last() == predecessors@.subrange(
                0,
                p as int,
            ));
            assert(predecessors@.subrange(0, p + 1).last() == predecessors@[p as int]);
        }
        new_candidate = match (new_candidate, offer) {
            (None, _) => offer,
            (_, None) => new_candidate,
            (Some(best), Some(new_label)) => if new_label.before(&best) {
                offer
            } else {
                new_candidate
            },
        };
        p += 1;
    }
    proof {
        assert(predecessors@.subrange(0, p as int) == predecessors@);
    }
    new_candidate
}

/// What is pending after `label` was offered to `node`: the label, where the
/// node had none pending or a larger one.
pub open spec fn offered(entries: Map<u32, Key>, node: u32, label: Label) -> Map<u32, Key> {
    if entries.contains_key(node) && !key_lt(label.key(), entries[node]) {
        entries
    } else {
        entries.insert(node, label.key())
    }
}

/// Offers `new_label` to `child`: where it is new for the child, it becomes
/// the child's pending label unless a smaller one is pending already.
pub fn propagate(
    new_label: Label,
    child: EffectIndex,
    child_permanent_labels: &[Label],
    pending: &mut Pending,
)
    ensures
        pending_entries(*final(pending)) == if accepts(child_permanent_labels@, new_label) {
            offered(pending_entries(*old(pending)), child, new_label)
        } else {
            pending_entries(*old(pending))
        },
{
    if !label_nondominated_nonequal(new_label, child_permanent_labels) {
        return ;
    }
    pending_push_increase(pending, child, new_label.to_key());
}

/// Every link that leads to `node` from another node: each predecessor of
/// the node with each substance by which it leads to the node, the
/// predecessors in the order of their list and the substances of each in the
/// order of their positions.
pub fn links_into<const N: u8, const K: u8>(graph: &EffectGraph<N, K>, node: EffectIndex) -> (r: Vec<
    (EffectIndex, Substance),
>)
    requires
        node < graph.spec_num_nodes(),
    ensures
        lists_links(graph.spec_successor_rows(), node as int, r@),
{
    let n = graph.num_nodes();
    let ghost succ = graph.spec_successor_rows();
    let ghost all = graph.spec_predecessor_rows();
    let preds = graph.predecessors(node);
    let mut out: Vec<(EffectIndex, Substance)> = Vec::new();
    let mut j: usize = 0;
    while j < preds.len()
        invariant
            j <= preds@.len(),
            node < succ.len(),
            succ == graph.spec_successor_rows(),
            preds@ == all[node as int],
            links_consistent(succ, all),
            forall|i: int|
                0 <= i < out@.len() ==> (#[trigger] out@[i]).0 < succ.len() && out@[i].0 != node
                    && is_link(succ, out@[i].0 as int, node as int, out@[i].1.spec_index() as int),
            forall|b: int, s: int|
                0 <= b < j && #[trigger] is_link(succ, preds@[b] as int, node as int, s)
                    ==> exists|i: int|
                    0 <= i < out@.len() && (#[trigger] out@[i]).0 == preds@[b]
                        && out@[i].1.spec_index() == s,
        decreases preds@.len() - j,
    {
        let v = preds[j];
        assert(all[node as int][j as int] == v);
        let row = graph.successors(v);
        let mut s: u8 = 0;
        while s < 16
            invariant
                s <= 16,
                j < preds@.len(),
                v == preds@[j as int],
                v < succ.len(),
                v != node,
                *row == succ[v as int],
                forall|i: int|
                    0 <= i < out@.len() ==> (#[trigger] out@[i]).0 < succ.len() && out@[i].0
                        != node && is_link(
                        succ,
                        out@[i].0 as int,
                        node as int,
                        out@[i].1.spec_index() as int,
                    ),
                forall|b: int, t: int|
                    0 <= b < j && #[trigger] is_link(succ, preds@[b] as int, node as int, t)
                        ==> exists|i: int|
                        0 <= i < out@.len() && (#[trigger] out@[i]).0 == preds@[b]
                            && out@[i].1.spec_index() == t,
                forall|t: int|
                    0 <= t < s && #[trigger] is_link(succ, v as int, node as int, t) ==> exists|
                        i: int,
                    |
                        0 <= i < out@.len() && (#[trigger] out@[i]).0 == v
                            && out@[i].1.spec_index() == t,
            decreases 16 - s,
        {
            let ghost before = out@;
            if row[s as usize] == node {
                match Substance::from_index(s) {
                    Some(substance) => {
                        out.push((v, substance));
                    },
                    None => {
                        assert(false);
                    },
                }
            }
            proof {
                assert forall|b: int, t: int|
                    0 <= b < j && #[trigger] is_link(
                        succ,
                        preds@[b] as int,
                        node as int,
                        t,
                    ) implies exists|i: int|
                    0 <= i < out@.len() && (#[trigger] out@[i]).0 == preds@[b]
                        && out@[i].1.spec_index() == t by {
                    let i = choose|i: int|
                        0 <= i < before.len() && (#[trigger] before[i]).0 == preds@[b]
                            && before[i].1.spec_index() == t;
                    assert(out@[i] == before[i]);
                }
                assert forall|t: int|
                    0 <= t < s + 1 && #[trigger] is_link(succ, v as int, node as int, t) implies exists|
                    i: int,
                |
                    0 <= i < out@.len() && (#[trigger] out@[i]).0 == v && out@[i].1.spec_index()
                        == t by {
                    if t < s {
                        let i = choose|i: int|
                            0 <= i < before.len() && (#[trigger] before[i]).0 == v
                                && before[i].1.spec_index() == t;
                        assert(out@[i] == before[i]);
                    } else {
                        assert(out@[before.len() as int].0 == v);
                    }
                }
            }
            s += 1;
        }
        j += 1;
    }
    proof {
        assert forall|v: int, s: int|
            0 <= v < succ.len() && v != node && #[trigger] is_link(
                succ,
                v,
                node as int,
                s,
            ) implies exists|i: int|
            0 <= i < out@.len() && (#[trigger] out@[i]).0 == v && out@[i].1.spec_index() == s by {
            assert(succ[v][s] != v);
            assert(all[succ[v][s] as int].contains(v as u32));
            let b = choose|b: int| 0 <= b < preds@.len() && preds@[b] == v as u32;
            assert(is_link(succ, preds@[b] as int, node as int, s));
        }
    }
    out
}

/// The search for the walks from a start node that no other walk to the same
/// node beats in both length and cost.
///
/// A walk's label has no room for a length above 255 or a cost above 65535:
/// such walks are left aside. For each node the result holds its labels in the
/// order in which they were settled: lengths rise and costs fall, so that no
/// label beats or equals another. Every label stands for a walk: it goes on,
/// by the substance it names and at that substance's cost, from a label of a
/// node that leads to its node, or it is the label of the start at the start,
/// which comes first there. The backlink of a label is the node before its
/// last step, which holds the label one step shorter that it goes on from.
/// And every step from a node to another is taken care of: where a node has
/// a label and the step's extension has room, the node it leads to has a
/// label that beats or equals the extension; so a label of a node beats or
/// equals every walk to it whose length and cost have room in a label.
pub fn multiobjective_shortest_path<const N: u8, const K: u8>(
    graph: &EffectGraph<N, K>,
    substance_costs: &[Cost],
    starting_node: Effects,
) -> (r: Vec<Vec<Label>>)
    requires
        substance_costs@.len() >= 16,
        in_domain(N as nat, K as nat, starting_node@),
    ensures
        r@.len() == graph.spec_num_nodes(),
        fronts(rows_of(r@)),
        labels_sound(
            graph.spec_successor_rows(),
            substance_costs@,
            crate::combinatorial::spec_encode(N as nat, starting_node@) as u32,
            rows_of(r@),
        ),
        closed_under_links(graph.spec_successor_rows(), substance_costs@, rows_of(r@)),
        crate::query::linked(
            graph.spec_successor_rows(),
            substance_costs@,
            crate::combinatorial::spec_encode(N as nat, starting_node@) as int,
            rows_of(r@),
        ),
        covers_walks(
            graph.spec_successor_rows(),
            substance_costs@,
            crate::combinatorial::spec_encode(N as nat, starting_node@) as int,
            rows_of(r@),
        ),
        r@[crate::combinatorial::spec_encode(N as nat, starting_node@) as int]@.len() > 0,
        r@[crate::combinatorial::spec_encode(N as nat, starting_node@) as int]@[0]
            == source_label(),
{
    let n = graph.num_nodes();
    let ghost succ = graph.spec_successor_rows();
    let ghost preds = graph.spec_predecessor_rows();
    let ghost costs = substance_costs@;
    let mut permanent_labels: Vec<Vec<Label>> = Vec::new();
    let mut filled: usize = 0;
    while filled < n
        invariant
            filled <= n,
            permanent_labels@.len() == filled,
            forall|i: int| 0 <= i < filled ==> (#[trigger] permanent_labels@[i])@.len() == 0,
        decreases n - filled,
    {
        permanent_labels.push(Vec::new());
        filled += 1;
    }
    let mut pending = pending_new();
    let start = graph.encode(starting_node);
    pending_push(&mut pending, start, Label::source().to_key());
    proof {
        lemma_search_start(succ, costs, start);
        assert forall|i: int| 0 <= i < n implies (#[trigger] rows_of(permanent_labels@)[i])
            =~= no_labels(n as int)[i] by {
            assert(permanent_labels@[i]@.len() == 0);
        }
        assert(rows_of(permanent_labels@) =~= no_labels(n as int));
    }

    loop
        invariant
            n == succ.len(),
            n <= u32::MAX,
            succ == graph.spec_successor_rows(),
            preds == graph.spec_predecessor_rows(),
            links_consistent(succ, preds),
            costs == substance_costs@,
            permanent_labels@.len() == n,
            start < n,
            searching(
                succ,
                costs,
                start,
                rows_of(permanent_labels@),
                pending_entries(pending),
                0,
                16,
            ),
        ensures
            permanent_labels@.len() == n,
            pending_entries(pending) == Map::<u32, Key>::empty(),
            searching(
                succ,
                costs,
                start,
                rows_of(permanent_labels@),
                pending_entries(pending),
                0,
                16,
            ),
        decreases 256 * n - total_len(rows_of(permanent_labels@)),
    {
        let ghost perm = rows_of(permanent_labels@);
        let ghost q = pending_entries(pending);
        let (node, key) = match pending_pop(&mut pending) {
            Some(entry) => entry,
            None => {
                break ;
            },
        };
        let label = match Label::from_key(key) {
            Some(label) => label,
            None => {
                assert(q.contains_key(node));
                assert(false);
                break ;
            },
        };
        assert(q.contains_key(node));
        permanent_labels[node as usize].push(label);
        let predecessors = links_into(graph, node);
        let candidate = next_candidate_label(
            node,
            &predecessors,
            substance_costs,
            &permanent_labels,
        );
        if let Some(candidate) = candidate {
            pending_push(&mut pending, node, candidate.to_key());
        }
        let ghost perm1 = rows_of(permanent_labels@);
        proof {
            assert(perm1 =~= settled(perm, node, label));
            assert(popped(q, node, label));
            lemma_settle(succ, costs, start, perm, q, node, label, predecessors@);
            assert(pending_entries(pending) =~= refilled(q, node, candidate));
            lemma_total_len_push(perm, node as int, label);
            reveal(settling::fronts);
            lemma_fronts_total(perm1);
        }
        let successors = graph.successors(node);
        let mut idx: u8 = 0;
        while idx < 16
            invariant
                idx <= 16,
                n == succ.len(),
                succ == graph.spec_successor_rows(),
                costs == substance_costs@,
                costs.len() >= 16,
                node < n,
                permanent_labels@.len() == n,
                perm1 == rows_of(permanent_labels@),
                *successors == succ[node as int],
                perm1[node as int].len() > 0,
                perm1[node as int].last() == label,
                idx < 16 ==> searching(
                    succ,
                    costs,
                    start,
                    perm1,
                    pending_entries(pending),
                    node as int,
                    idx as int,
                ),
                idx == 16 ==> searching(succ, costs, start, perm1, pending_entries(pending), 0, 16),
            decreases 16 - idx,
        {
            let child = successors[idx as usize];
            let ghost before = pending_entries(pending);
            match Substance::from_index(idx) {
                Some(substance) => {
                    match extend(&label, substance, substance_costs[idx as usize], node) {
                        Some(new_label) => {
                            propagate(
                                new_label,
                                child,
                                permanent_labels[child as usize].as_slice(),
                                &mut pending,
                            );
                        },
                        None => {},
                    }
                    proof {
                        lemma_forward(succ, costs, start, perm1, before, node, substance);
                        assert(pending_entries(pending) == forwarded(
                            succ,
                            costs,
                            perm1,
                            before,
                            node,
                            substance,
                        ));
                    }
                },
                None => {
                    assert(false);
                },
            }
            idx += 1;
        }
    }
    proof {
        lemma_search_end(
            succ,
            costs,
            start,
            rows_of(permanent_labels@),
            pending_entries(pending),
        );
        lemma_labels_linked(succ, costs, start, rows_of(permanent_labels@));
        lemma_walks_covered(succ, costs, start as int, rows_of(permanent_labels@));
    }

    permanent_labels
}

} // verus!
