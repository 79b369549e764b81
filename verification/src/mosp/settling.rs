//! What holds while the search runs, and why each step keeps it.

use super::fronts::{
    accepts, at_most, best_candidate, covered, extension, first_extension, front_ordered,
    lemma_accepts_ordered, pair_le, smaller,
};
use super::pending::{key_lt, Key};
use super::{lemma_key_injective, offered, source_label, Label};
use crate::mixing::Substance;
use vstd::prelude::*;

verus! {

/// Substance number `s` leads from node `v` to node `u`.
pub open spec fn is_link(succ: Seq<[u32; 16]>, v: int, u: int, s: int) -> bool {
    0 <= s < 16 && succ[v][s] == u
}

/// The label with the given key stands for a walk to node `u`: it is the label
/// of the start at the start, or it goes on from a settled label of a node
/// that leads to `u`, by the substance it names and at that substance's cost,
/// and its backlink is that node.
pub open spec fn justified(
    succ: Seq<[u32; 16]>,
    costs: Seq<u16>,
    start: u32,
    perm: Seq<Seq<Label>>,
    u: int,
    key: Key,
) -> bool {
    (u == start && key == source_label().key()) || exists|v: int, i: int, j: int|
        #![trigger succ[v][i], perm[v][j]]
        0 <= v < perm.len() && 0 <= i < 16 && 0 <= j < perm[v].len() && succ[v][i] == u && key.0
            == perm[v][j].length + 1 && key.1 == perm[v][j].cost + costs[i] && key.2 == i && key.3
            == v
}

/// Every settled label stands for a walk.
#[verifier::opaque]
pub open spec fn labels_sound(
    succ: Seq<[u32; 16]>,
    costs: Seq<u16>,
    start: u32,
    perm: Seq<Seq<Label>>,
) -> bool {
    forall|u: int, j: int|
        0 <= u < perm.len() && 0 <= j < perm[u].len() ==> justified(
            succ,
            costs,
            start,
            perm,
            u,
            (#[trigger] perm[u][j]).key(),
        )
}

/// At every node the settled labels are in order, none beating another.
#[verifier::opaque]
pub open spec fn fronts(perm: Seq<Seq<Label>>) -> bool {
    forall|u: int| 0 <= u < perm.len() ==> front_ordered(#[trigger] perm[u])
}

/// There is a row of labels for each node, and what is pending is pending
/// for a node and names a substance.
pub open spec fn shape(n: int, start: u32, costs: Seq<u16>, perm: Seq<Seq<Label>>, q: Map<u32, Key>) -> bool {
    &&& perm.len() == n
    &&& start < n
    &&& costs.len() >= 16
    &&& forall|node: u32| #[trigger] q.contains_key(node) ==> node < n && q[node].2 < 16
}

/// No settled label is larger than a pending one.
#[verifier::opaque]
pub open spec fn floor(perm: Seq<Seq<Label>>, q: Map<u32, Key>) -> bool {
    forall|u: int, j: int, node: u32|
        #![trigger perm[u][j], q[node]]
        0 <= u < perm.len() && 0 <= j < perm[u].len() && q.contains_key(node) ==> pair_le(
            perm[u][j].length as int,
            perm[u][j].cost as int,
            q[node].0 as int,
            q[node].1 as int,
        )
}

/// No pending label is beaten or equalled by a settled label of its node.
#[verifier::opaque]
pub open spec fn fresh(perm: Seq<Seq<Label>>, q: Map<u32, Key>) -> bool {
    forall|node: u32|
        q.contains_key(node) ==> !covered(
            perm[node as int],
            (#[trigger] q[node]).0 as int,
            q[node].1 as int,
        )
}

/// The step from label `j` of node `v` to node `u` by substance `s` is taken
/// care of: a settled label of `u` beats or equals the extension, or a label
/// no larger is pending for `u`.
pub open spec fn step_done(
    costs: Seq<u16>,
    perm: Seq<Seq<Label>>,
    q: Map<u32, Key>,
    v: int,
    u: int,
    s: int,
    j: int,
) -> bool {
    covered(perm[u], perm[v][j].length + 1, perm[v][j].cost + costs[s]) || (q.contains_key(
        u as u32,
    ) && pair_le(
        q[u as u32].0 as int,
        q[u as u32].1 as int,
        perm[v][j].length + 1,
        perm[v][j].cost + costs[s],
    ))
}

/// A step that needs taking care of: by a substance that links two different
/// nodes, from a settled label whose extension has room in a label.
pub open spec fn step_due(
    succ: Seq<[u32; 16]>,
    costs: Seq<u16>,
    perm: Seq<Seq<Label>>,
    v: int,
    u: int,
    s: int,
    j: int,
) -> bool {
    0 <= v < perm.len() && 0 <= u < perm.len() && v != u && is_link(succ, v, u, s) && 0 <= j
        < perm[v].len() && perm[v][j].length < 255 && perm[v][j].cost + costs[s] <= 0xffff
}

/// Every step that is due is taken care of, but for the steps from the last
/// label of node `active` by the substances from `from` on.
#[verifier::opaque]
pub open spec fn closed_except(
    succ: Seq<[u32; 16]>,
    costs: Seq<u16>,
    perm: Seq<Seq<Label>>,
    q: Map<u32, Key>,
    active: int,
    from: int,
) -> bool {
    forall|v: int, u: int, s: int, j: int|
        #![trigger step_due(succ, costs, perm, v, u, s, j)]
        step_due(succ, costs, perm, v, u, s, j) && !(v == active && j == perm[v].len() - 1 && s
            >= from) ==> step_done(costs, perm, q, v, u, s, j)
}

/// Every pending label stands for a walk.
#[verifier::opaque]
pub open spec fn pending_sound(
    succ: Seq<[u32; 16]>,
    costs: Seq<u16>,
    start: u32,
    perm: Seq<Seq<Label>>,
    q: Map<u32, Key>,
) -> bool {
    forall|node: u32|
        q.contains_key(node) ==> justified(succ, costs, start, perm, node as int, #[trigger] q[node])
}

/// The label of the start is pending at the start, or it is the first label
/// settled there.
pub open spec fn start_ok(start: u32, perm: Seq<Seq<Label>>, q: Map<u32, Key>) -> bool {
    (perm[start as int].len() == 0 && q.contains_key(start) && q[start] == source_label().key())
        || (perm[start as int].len() > 0 && perm[start as int][0] == source_label())
}

/// No settled label is larger than the last label of node `active`.
#[verifier::opaque]
pub open spec fn top(perm: Seq<Seq<Label>>, active: int) -> bool {
    &&& 0 <= active < perm.len()
    &&& perm[active].len() > 0
    &&& forall|u: int, j: int|
        0 <= u < perm.len() && 0 <= j < perm[u].len() ==> pair_le(
            (#[trigger] perm[u][j]).length as int,
            perm[u][j].cost as int,
            perm[active].last().length as int,
            perm[active].last().cost as int,
        )
}

/// What holds while the search runs.
pub open spec fn searching(
    succ: Seq<[u32; 16]>,
    costs: Seq<u16>,
    start: u32,
    perm: Seq<Seq<Label>>,
    q: Map<u32, Key>,
    active: int,
    from: int,
) -> bool {
    &&& shape(succ.len() as int, start, costs, perm, q)
    &&& forall|u: int, s: int| 0 <= u < succ.len() && 0 <= s < 16 ==> (#[trigger] succ[u][s]) < succ.len()
    &&& fronts(perm)
    &&& floor(perm, q)
    &&& fresh(perm, q)
    &&& closed_except(succ, costs, perm, q, active, from)
    &&& labels_sound(succ, costs, start, perm)
    &&& pending_sound(succ, costs, start, perm, q)
    &&& start_ok(start, perm, q)
    &&& from < 16 ==> top(perm, active)
}

/// The list names exactly the links that lead to `u` from other nodes: each
/// such node with each substance by which it leads to `u`.
pub open spec fn lists_links(succ: Seq<[u32; 16]>, u: int, pws: Seq<(u32, Substance)>) -> bool {
    &&& forall|i: int|
        0 <= i < pws.len() ==> (#[trigger] pws[i]).0 < succ.len() && pws[i].0 != u && is_link(
            succ,
            pws[i].0 as int,
            u,
            pws[i].1.spec_index() as int,
        )
    &&& forall|v: int, s: int|
        0 <= v < succ.len() && v != u && #[trigger] is_link(succ, v, u, s) ==> exists|i: int|
            0 <= i < pws.len() && (#[trigger] pws[i]).0 == v && pws[i].1.spec_index() == s
}

/// An extension that a node's labels offer goes on from one of them and is new.
pub proof fn lemma_first_extension_some(
    labels: Seq<Label>,
    substance: Substance,
    cost: u16,
    backlink: u32,
    existing: Seq<Label>,
) -> (j: int)
    requires
        first_extension(labels, substance, cost, backlink, existing) is Some,
    ensures
        0 <= j < labels.len(),
        extension(labels[j], substance, cost, backlink) == first_extension(
            labels,
            substance,
            cost,
            backlink,
            existing,
        ),
        accepts(existing, first_extension(labels, substance, cost, backlink, existing)->0),
    decreases labels.len(),
{
    match extension(labels[0], substance, cost, backlink) {
        Some(label) if accepts(existing, label) => 0,
        _ => {
            let rest = labels.drop_first();
            let j = lemma_first_extension_some(rest, substance, cost, backlink, existing);
            assert(rest[j] == labels[j + 1]);
            j + 1
        },
    }
}

/// Where label `j` of labels in order has a new extension, the labels offer
/// one that is no larger.
pub proof fn lemma_first_extension_min(
    labels: Seq<Label>,
    substance: Substance,
    cost: u16,
    backlink: u32,
    existing: Seq<Label>,
    j: int,
)
    requires
        front_ordered(labels),
        0 <= j < labels.len(),
        extension(labels[j], substance, cost, backlink) is Some,
        accepts(existing, extension(labels[j], substance, cost, backlink)->0),
    ensures
        first_extension(labels, substance, cost, backlink, existing) is Some,
        pair_le(
            first_extension(labels, substance, cost, backlink, existing)->0.length as int,
            first_extension(labels, substance, cost, backlink, existing)->0.cost as int,
            labels[j].length + 1,
            labels[j].cost + cost,
        ),
    decreases labels.len(),
{
    match extension(labels[0], substance, cost, backlink) {
        Some(label) if accepts(existing, label) => {
            if j > 0 {
                assert(labels[0].length < labels[j].length);
            }
        },
        _ => {
            let rest = labels.drop_first();
            assert(j > 0);
            assert(rest[j - 1] == labels[j]);
            assert forall|a: int, b: int| 0 <= a < b < rest.len() implies (#[trigger] rest[a]).length < (
            #[trigger] rest[b]).length && rest[a].cost > rest[b].cost by {
                assert(rest[a] == labels[a + 1]);
                assert(rest[b] == labels[b + 1]);
            }
            lemma_first_extension_min(rest, substance, cost, backlink, existing, j - 1);
        },
    }
}

/// The candidate of a node is the offer of one of its predecessors.
pub proof fn lemma_candidate_some(
    node: u32,
    pws: Seq<(u32, Substance)>,
    costs: Seq<u16>,
    perm: Seq<Seq<Label>>,
) -> (i: int)
    requires
        best_candidate(node, pws, costs, perm) is Some,
    ensures
        0 <= i < pws.len(),
        best_candidate(node, pws, costs, perm) == first_extension(
            perm[pws[i].0 as int],
            pws[i].1,
            costs[pws[i].1.spec_index() as int],
            pws[i].0,
            perm[node as int],
        ),
    decreases pws.len(),
{
    let (pred, substance) = pws.last();
    let rest = best_candidate(node, pws.drop_last(), costs, perm);
    let offer = first_extension(
        perm[pred as int],
        substance,
        costs[substance.spec_index() as int],
        pred,
        perm[node as int],
    );
    if best_candidate(node, pws, costs, perm) == offer {
        pws.len() - 1
    } else {
        let i = lemma_candidate_some(node, pws.drop_last(), costs, perm);
        assert(pws.drop_last()[i] == pws[i]);
        i
    }
}

/// The candidate of a node is no larger than the offer of any of its
/// predecessors.
pub proof fn lemma_candidate_min(
    node: u32,
    pws: Seq<(u32, Substance)>,
    costs: Seq<u16>,
    perm: Seq<Seq<Label>>,
    i: int,
)
    requires
        0 <= i < pws.len(),
        first_extension(
            perm[pws[i].0 as int],
            pws[i].1,
            costs[pws[i].1.spec_index() as int],
            pws[i].0,
            perm[node as int],
        ) is Some,
    ensures
        best_candidate(node, pws, costs, perm) is Some,
        !key_lt(
            first_extension(
                perm[pws[i].0 as int],
                pws[i].1,
                costs[pws[i].1.spec_index() as int],
                pws[i].0,
                perm[node as int],
            )->0.key(),
            best_candidate(node, pws, costs, perm)->0.key(),
        ),
    decreases pws.len(),
{
    if i < pws.len() - 1 {
        assert(pws.drop_last()[i] == pws[i]);
        lemma_candidate_min(node, pws.drop_last(), costs, perm, i);
    }
}

/// The labels after `label` was settled at node `u`.
pub open spec fn settled(perm: Seq<Seq<Label>>, u: u32, label: Label) -> Seq<Seq<Label>> {
    perm.update(u as int, perm[u as int].push(label))
}

/// What is pending after node `u` was popped and got its candidate.
pub open spec fn refilled(q: Map<u32, Key>, u: u32, candidate: Option<Label>) -> Map<u32, Key> {
    match candidate {
        Some(c) => q.remove(u).insert(u, c.key()),
        None => q.remove(u),
    }
}

/// What must hold of a pop for the step to keep the invariant.
pub open spec fn popped(q: Map<u32, Key>, u: u32, label: Label) -> bool {
    &&& q.contains_key(u)
    &&& q[u] == label.key()
    &&& forall|other: u32| q.contains_key(other) ==> !key_lt(#[trigger] q[other], label.key())
}

proof fn lemma_settle_fronts(perm: Seq<Seq<Label>>, q: Map<u32, Key>, u: u32, label: Label)
    requires
        0 <= u < perm.len(),
        fronts(perm),
        floor(perm, q),
        fresh(perm, q),
        popped(q, u, label),
    ensures
        fronts(settled(perm, u, label)),
        top(settled(perm, u, label), u as int),
{
    reveal(fronts);
    reveal(floor);
    reveal(fresh);
    reveal(top);
    let perm1 = settled(perm, u, label);
    let before = perm[u as int];
    let after = before.push(label);
    assert(front_ordered(before));
    assert forall|i: int, j: int| 0 <= i < j < after.len() implies (#[trigger] after[i]).length < (
    #[trigger] after[j]).length && after[i].cost > after[j].cost by {
        if j < before.len() {
            assert(after[i] == before[i] && after[j] == before[j]);
        } else {
            assert(after[i] == before[i]);
            assert(pair_le(
                perm[u as int][i].length as int,
                perm[u as int][i].cost as int,
                q[u].0 as int,
                q[u].1 as int,
            ));
            assert(!at_most(before[i], label.length as int, label.cost as int));
        }
    }
    assert forall|w: int| 0 <= w < perm1.len() implies front_ordered(#[trigger] perm1[w]) by {
        if w != u {
            assert(perm1[w] == perm[w]);
        }
    }
    assert(perm1[u as int].last() == label);
    assert forall|w: int, j: int| 0 <= w < perm1.len() && 0 <= j < perm1[w].len() implies pair_le(
        (#[trigger] perm1[w][j]).length as int,
        perm1[w][j].cost as int,
        label.length as int,
        label.cost as int,
    ) by {
        if w == u && j == before.len() {
        } else {
            assert(perm1[w][j] == perm[w][j]);
            assert(pair_le(
                perm[w][j].length as int,
                perm[w][j].cost as int,
                q[u].0 as int,
                q[u].1 as int,
            ));
        }
    }
}

/// The candidate of the popped node is new for it, no smaller than the label
/// just settled, and stands for a walk.
proof fn lemma_settle_candidate(
    succ: Seq<[u32; 16]>,
    costs: Seq<u16>,
    start: u32,
    perm: Seq<Seq<Label>>,
    q: Map<u32, Key>,
    u: u32,
    label: Label,
    pws: Seq<(u32, Substance)>,
)
    requires
        shape(succ.len() as int, start, costs, perm, q),
        closed_except(succ, costs, perm, q, 0, 16),
        popped(q, u, label),
        lists_links(succ, u as int, pws),
        fronts(settled(perm, u, label)),
        best_candidate(u, pws, costs, settled(perm, u, label)) is Some,
    ensures
        ({
            let c = best_candidate(u, pws, costs, settled(perm, u, label))->0;
            &&& !covered(settled(perm, u, label)[u as int], c.length as int, c.cost as int)
            &&& pair_le(label.length as int, label.cost as int, c.length as int, c.cost as int)
            &&& justified(succ, costs, start, settled(perm, u, label), u as int, c.key())
            &&& c.key().2 < 16
        }),
{
    reveal(fronts);
    reveal(closed_except);
    let perm1 = settled(perm, u, label);
    let c = best_candidate(u, pws, costs, perm1)->0;
    let i = lemma_candidate_some(u, pws, costs, perm1);
    let v = pws[i].0 as int;
    let sub = pws[i].1;
    let s = sub.spec_index() as int;
    assert(perm1[v] == perm[v]);
    let j = lemma_first_extension_some(perm1[v], sub, costs[s], pws[i].0, perm1[u as int]);
    lemma_accepts_ordered(perm1[u as int], c);
    assert(step_due(succ, costs, perm, v, u as int, s, j));
    assert(step_done(costs, perm, q, v, u as int, s, j));
    if covered(perm[u as int], perm[v][j].length + 1, perm[v][j].cost + costs[s]) {
        let k = choose|k: int|
            0 <= k < perm[u as int].len() && at_most(
                #[trigger] perm[u as int][k],
                perm[v][j].length + 1,
                perm[v][j].cost + costs[s],
            );
        assert(perm1[u as int][k] == perm[u as int][k]);
    }
    assert(succ[v][s] == u && perm1[v][j] == perm[v][j]);
    crate::mixing::lemma_substance_index_round_trip(sub);
}

proof fn lemma_settle_floor(
    perm: Seq<Seq<Label>>,
    q: Map<u32, Key>,
    u: u32,
    label: Label,
    candidate: Option<Label>,
)
    requires
        0 <= u < perm.len(),
        floor(perm, q),
        popped(q, u, label),
        candidate matches Some(c) ==> pair_le(
            label.length as int,
            label.cost as int,
            c.length as int,
            c.cost as int,
        ),
    ensures
        floor(settled(perm, u, label), refilled(q, u, candidate)),
{
    reveal(floor);
    let perm1 = settled(perm, u, label);
    let q2 = refilled(q, u, candidate);
    assert forall|w: int, j: int, node: u32|
        #![trigger perm1[w][j], q2[node]]
        0 <= w < perm1.len() && 0 <= j < perm1[w].len() && q2.contains_key(node) implies pair_le(
        perm1[w][j].length as int,
        perm1[w][j].cost as int,
        q2[node].0 as int,
        q2[node].1 as int,
    ) by {
        let e = perm1[w][j];
        assert(pair_le(e.length as int, e.cost as int, label.length as int, label.cost as int)) by {
            if w == u && j == perm[u as int].len() {
            } else {
                assert(perm1[w][j] == perm[w][j]);
                assert(pair_le(
                    perm[w][j].length as int,
                    perm[w][j].cost as int,
                    q[u].0 as int,
                    q[u].1 as int,
                ));
            }
        }
        if node == u {
        } else {
            assert(q2[node] == q[node]);
            assert(!key_lt(q[node], label.key()));
        }
    }
}

proof fn lemma_settle_fresh(
    perm: Seq<Seq<Label>>,
    q: Map<u32, Key>,
    u: u32,
    label: Label,
    candidate: Option<Label>,
)
    requires
        0 <= u < perm.len(),
        fresh(perm, q),
        forall|node: u32| #[trigger] q.contains_key(node) ==> node < perm.len() && q[node].2 < 16,
        candidate matches Some(c) ==> !covered(
            settled(perm, u, label)[u as int],
            c.length as int,
            c.cost as int,
        ),
    ensures
        fresh(settled(perm, u, label), refilled(q, u, candidate)),
{
    reveal(fresh);
    let perm1 = settled(perm, u, label);
    let q2 = refilled(q, u, candidate);
    assert forall|node: u32| q2.contains_key(node) implies !covered(
        perm1[node as int],
        (#[trigger] q2[node]).0 as int,
        q2[node].1 as int,
    ) by {
        if node != u {
            assert(q2[node] == q[node]);
            assert(perm1[node as int] == perm[node as int]);
        }
    }
}

proof fn lemma_settle_sound(
    succ: Seq<[u32; 16]>,
    costs: Seq<u16>,
    start: u32,
    perm: Seq<Seq<Label>>,
    q: Map<u32, Key>,
    u: u32,
    label: Label,
    candidate: Option<Label>,
)
    requires
        0 <= u < perm.len(),
        labels_sound(succ, costs, start, perm),
        pending_sound(succ, costs, start, perm, q),
        forall|node: u32| #[trigger] q.contains_key(node) ==> node < perm.len() && q[node].2 < 16,
        q.contains_key(u),
        q[u] == label.key(),
        candidate matches Some(c) ==> justified(
            succ,
            costs,
            start,
            settled(perm, u, label),
            u as int,
            c.key(),
        ),
    ensures
        labels_sound(succ, costs, start, settled(perm, u, label)),
        pending_sound(succ, costs, start, settled(perm, u, label), refilled(q, u, candidate)),
{
    reveal(labels_sound);
    reveal(pending_sound);
    let perm1 = settled(perm, u, label);
    let q2 = refilled(q, u, candidate);
    assert forall|w: int, key: Key| justified(succ, costs, start, perm, w, key) implies justified(
        succ,
        costs,
        start,
        perm1,
        w,
        key,
    ) by {
        lemma_justified_grows(succ, costs, start, perm, u, label, w, key);
    }
    assert forall|w: int, j: int| 0 <= w < perm1.len() && 0 <= j < perm1[w].len() implies justified(
        succ,
        costs,
        start,
        perm1,
        w,
        (#[trigger] perm1[w][j]).key(),
    ) by {
        if w == u && j == perm[u as int].len() {
            assert(perm1[w][j] == label);
            assert(justified(succ, costs, start, perm, u as int, q[u]));
        } else {
            assert(perm1[w][j] == perm[w][j]);
            assert(justified(succ, costs, start, perm, w, perm[w][j].key()));
        }
    }
    assert forall|node: u32| q2.contains_key(node) implies justified(
        succ,
        costs,
        start,
        perm1,
        node as int,
        #[trigger] q2[node],
    ) by {
        if node != u {
            assert(q2[node] == q[node]);
            assert(justified(succ, costs, start, perm, node as int, q[node]));
        }
    }
}

/// A label that stands for a walk still does when another label is settled.
proof fn lemma_justified_grows(
    succ: Seq<[u32; 16]>,
    costs: Seq<u16>,
    start: u32,
    perm: Seq<Seq<Label>>,
    u: u32,
    label: Label,
    w: int,
    key: Key,
)
    requires
        0 <= u < perm.len(),
        justified(succ, costs, start, perm, w, key),
    ensures
        justified(succ, costs, start, settled(perm, u, label), w, key),
{
    let perm1 = settled(perm, u, label);
    if !(w == start && key == source_label().key()) {
        let (v, i, j) = choose|v: int, i: int, j: int|
            #![trigger succ[v][i], perm[v][j]]
            0 <= v < perm.len() && 0 <= i < 16 && 0 <= j < perm[v].len() && succ[v][i] == w && key.0
                == perm[v][j].length + 1 && key.1 == perm[v][j].cost + costs[i] && key.2 == i
                && key.3 == v;
        assert(perm1[v][j] == perm[v][j]);
        assert(succ[v][i] == w && 0 <= j < perm1[v].len());
    }
}

proof fn lemma_settle_start(
    start: u32,
    perm: Seq<Seq<Label>>,
    q: Map<u32, Key>,
    u: u32,
    label: Label,
    candidate: Option<Label>,
)
    requires
        0 <= u < perm.len(),
        start < perm.len(),
        start_ok(start, perm, q),
        q.contains_key(u),
        q[u] == label.key(),
    ensures
        start_ok(start, settled(perm, u, label), refilled(q, u, candidate)),
{
    let perm1 = settled(perm, u, label);
    if u == start {
        if perm[start as int].len() == 0 {
            lemma_key_injective(label, source_label());
            assert(perm1[start as int][0] == label);
        } else {
            assert(perm1[start as int][0] == perm[start as int][0]);
        }
    } else {
        assert(perm1[start as int] == perm[start as int]);
    }
}

proof fn lemma_settle_closed(
    succ: Seq<[u32; 16]>,
    costs: Seq<u16>,
    start: u32,
    perm: Seq<Seq<Label>>,
    q: Map<u32, Key>,
    u: u32,
    label: Label,
    pws: Seq<(u32, Substance)>,
)
    requires
        shape(succ.len() as int, start, costs, perm, q),
        closed_except(succ, costs, perm, q, 0, 16),
        popped(q, u, label),
        lists_links(succ, u as int, pws),
        fronts(settled(perm, u, label)),
    ensures
        closed_except(
            succ,
            costs,
            settled(perm, u, label),
            refilled(q, u, best_candidate(u, pws, costs, settled(perm, u, label))),
            u as int,
            0,
        ),
{
    reveal(fronts);
    reveal(closed_except);
    let perm1 = settled(perm, u, label);
    let candidate = best_candidate(u, pws, costs, perm1);
    let q2 = refilled(q, u, candidate);
    assert forall|v: int, w: int, s: int, j: int|
        #![trigger step_due(succ, costs, perm1, v, w, s, j)]
        step_due(succ, costs, perm1, v, w, s, j) && !(v == u && j == perm1[v].len() - 1 && s
            >= 0) implies step_done(costs, perm1, q2, v, w, s, j) by {
        assert(perm1[v][j] == perm[v][j]);
        assert(step_due(succ, costs, perm, v, w, s, j));
        assert(step_done(costs, perm, q, v, w, s, j));
        let len = perm[v][j].length + 1;
        let cost = perm[v][j].cost + costs[s];
        if covered(perm[w], len, cost) {
            let k = choose|k: int| 0 <= k < perm[w].len() && at_most(#[trigger] perm[w][k], len, cost);
            assert(perm1[w][k] == perm[w][k]);
        } else if w != u {
            assert(q2[w as u32] == q[w as u32]);
        } else {
            // the step leads to the node that was popped
            if at_most(label, len, cost) {
                assert(perm1[u as int][perm[u as int].len() as int] == label);
            } else if !covered(perm1[u as int], len, cost) {
                assert(is_link(succ, v, u as int, s));
                let i = choose|i: int|
                    0 <= i < pws.len() && (#[trigger] pws[i]).0 == v && pws[i].1.spec_index() == s;
                let sub = pws[i].1;
                let x = extension(perm1[v][j], sub, costs[s], pws[i].0)->0;
                lemma_accepts_ordered(perm1[u as int], x);
                assert(front_ordered(perm1[v]));
                lemma_first_extension_min(perm1[v], sub, costs[s], pws[i].0, perm1[u as int], j);
                lemma_candidate_min(u, pws, costs, perm1, i);
            }
        }
    }
}

/// Settling the popped label and refilling its node keeps the search in
/// order, with the steps from the new label still due.
pub proof fn lemma_settle(
    succ: Seq<[u32; 16]>,
    costs: Seq<u16>,
    start: u32,
    perm: Seq<Seq<Label>>,
    q: Map<u32, Key>,
    u: u32,
    label: Label,
    pws: Seq<(u32, Substance)>,
)
    requires
        searching(succ, costs, start, perm, q, 0, 16),
        popped(q, u, label),
        lists_links(succ, u as int, pws),
    ensures
        searching(
            succ,
            costs,
            start,
            settled(perm, u, label),
            refilled(q, u, best_candidate(u, pws, costs, settled(perm, u, label))),
            u as int,
            0,
        ),
{
    let perm1 = settled(perm, u, label);
    let candidate = best_candidate(u, pws, costs, perm1);
    lemma_settle_fronts(perm, q, u, label);
    if candidate is Some {
        lemma_settle_candidate(succ, costs, start, perm, q, u, label, pws);
    }
    lemma_settle_floor(perm, q, u, label, candidate);
    lemma_settle_fresh(perm, q, u, label, candidate);
    lemma_settle_sound(succ, costs, start, perm, q, u, label, candidate);
    lemma_settle_start(start, perm, q, u, label, candidate);
    lemma_settle_closed(succ, costs, start, perm, q, u, label, pws);
}

/// What is pending after the last label of node `u` was carried on by
/// substance `sub`.
pub open spec fn forwarded(
    succ: Seq<[u32; 16]>,
    costs: Seq<u16>,
    perm: Seq<Seq<Label>>,
    q: Map<u32, Key>,
    u: u32,
    sub: Substance,
) -> Map<u32, Key> {
    let i = sub.spec_index() as int;
    let w = succ[u as int][i];
    match extension(perm[u as int].last(), sub, costs[i], u) {
        Some(x) => if accepts(perm[w as int], x) {
            offered(q, w, x)
        } else {
            q
        },
        None => q,
    }
}

proof fn lemma_forward_closed(
    succ: Seq<[u32; 16]>,
    costs: Seq<u16>,
    start: u32,
    perm: Seq<Seq<Label>>,
    q: Map<u32, Key>,
    u: u32,
    sub: Substance,
)
    requires
        shape(succ.len() as int, start, costs, perm, q),
        forall|a: int, s: int| 0 <= a < succ.len() && 0 <= s < 16 ==> (#[trigger] succ[a][s]) < succ.len(),
        fronts(perm),
        closed_except(succ, costs, perm, q, u as int, sub.spec_index() as int),
        u < perm.len(),
        perm[u as int].len() > 0,
    ensures
        closed_except(
            succ,
            costs,
            perm,
            forwarded(succ, costs, perm, q, u, sub),
            u as int,
            sub.spec_index() + 1,
        ),
{
    reveal(fronts);
    reveal(closed_except);
    let i = sub.spec_index() as int;
    let w = succ[u as int][i];
    let q2 = forwarded(succ, costs, perm, q, u, sub);
    let ext = extension(perm[u as int].last(), sub, costs[i], u);
    assert forall|v: int, t: int, s: int, j: int|
        #![trigger step_due(succ, costs, perm, v, t, s, j)]
        step_due(succ, costs, perm, v, t, s, j) && !(v == u && j == perm[v].len() - 1 && s >= i
            + 1) implies step_done(costs, perm, q2, v, t, s, j) by {
        let len = perm[v][j].length + 1;
        let cost = perm[v][j].cost + costs[s];
        if v == u && j == perm[v].len() - 1 && s == i {
            assert(t == w);
            let x = ext->0;
            assert(front_ordered(perm[w as int]));
            lemma_accepts_ordered(perm[w as int], x);
        } else {
            assert(step_done(costs, perm, q, v, t, s, j));
            if !covered(perm[t], len, cost) {
                if q2 != q && t == w {
                    assert(q2[w] == ext->0.key());
                    assert(key_lt(q2[w], q[w]));
                }
            }
        }
    }
}

proof fn lemma_forward_rest(
    succ: Seq<[u32; 16]>,
    costs: Seq<u16>,
    start: u32,
    perm: Seq<Seq<Label>>,
    q: Map<u32, Key>,
    u: u32,
    sub: Substance,
)
    requires
        shape(succ.len() as int, start, costs, perm, q),
        forall|a: int, s: int| 0 <= a < succ.len() && 0 <= s < 16 ==> (#[trigger] succ[a][s]) < succ.len(),
        fronts(perm),
        floor(perm, q),
        fresh(perm, q),
        pending_sound(succ, costs, start, perm, q),
        start_ok(start, perm, q),
        top(perm, u as int),
    ensures
        shape(succ.len() as int, start, costs, perm, forwarded(succ, costs, perm, q, u, sub)),
        floor(perm, forwarded(succ, costs, perm, q, u, sub)),
        fresh(perm, forwarded(succ, costs, perm, q, u, sub)),
        pending_sound(succ, costs, start, perm, forwarded(succ, costs, perm, q, u, sub)),
        start_ok(start, perm, forwarded(succ, costs, perm, q, u, sub)),
{
    reveal(fronts);
    reveal(floor);
    reveal(fresh);
    reveal(pending_sound);
    reveal(top);
    let i = sub.spec_index() as int;
    let w = succ[u as int][i];
    let q2 = forwarded(succ, costs, perm, q, u, sub);
    let last = perm[u as int].last();
    let ext = extension(last, sub, costs[i], u);
    crate::mixing::lemma_substance_index_round_trip(sub);
    if q2 != q {
        let x = ext->0;
        assert(q2 == q.insert(w, x.key()));
        assert(front_ordered(perm[w as int]));
        lemma_accepts_ordered(perm[w as int], x);
        assert forall|a: int, j: int, node: u32|
            #![trigger perm[a][j], q2[node]]
            0 <= a < perm.len() && 0 <= j < perm[a].len() && q2.contains_key(node) implies pair_le(
            perm[a][j].length as int,
            perm[a][j].cost as int,
            q2[node].0 as int,
            q2[node].1 as int,
        ) by {
            if node == w {
                assert(pair_le(
                    perm[a][j].length as int,
                    perm[a][j].cost as int,
                    last.length as int,
                    last.cost as int,
                ));
            } else {
                assert(q2[node] == q[node]);
            }
        }
        assert forall|node: u32| q2.contains_key(node) implies !covered(
            perm[node as int],
            (#[trigger] q2[node]).0 as int,
            q2[node].1 as int,
        ) by {
            if node != w {
                assert(q2[node] == q[node]);
            }
        }
        assert forall|node: u32| q2.contains_key(node) implies justified(
            succ,
            costs,
            start,
            perm,
            node as int,
            #[trigger] q2[node],
        ) by {
            if node != w {
                assert(q2[node] == q[node]);
            } else {
                let j = perm[u as int].len() - 1;
                assert(succ[u as int][i] == w && perm[u as int][j] == last);
            }
        }
    }
}

/// Carrying the last label of the active node on by one more substance keeps
/// the search in order.
pub proof fn lemma_forward(
    succ: Seq<[u32; 16]>,
    costs: Seq<u16>,
    start: u32,
    perm: Seq<Seq<Label>>,
    q: Map<u32, Key>,
    u: u32,
    sub: Substance,
)
    requires
        searching(succ, costs, start, perm, q, u as int, sub.spec_index() as int),
    ensures
        searching(
            succ,
            costs,
            start,
            perm,
            forwarded(succ, costs, perm, q, u, sub),
            u as int,
            sub.spec_index() + 1,
        ),
        sub.spec_index() == 15 ==> searching(
            succ,
            costs,
            start,
            perm,
            forwarded(succ, costs, perm, q, u, sub),
            0,
            16,
        ),
{
    crate::mixing::lemma_substance_index_round_trip(sub);
    assert(top(perm, u as int));
    assert(u < perm.len() && perm[u as int].len() > 0) by {
        reveal(top);
    }
    lemma_forward_closed(succ, costs, start, perm, q, u, sub);
    lemma_forward_rest(succ, costs, start, perm, q, u, sub);
    if sub.spec_index() == 15 {
        let q2 = forwarded(succ, costs, perm, q, u, sub);
        assert(closed_except(succ, costs, perm, q2, 0, 16)) by {
            reveal(closed_except);
        }
    }
}

/// The labels with which the search begins: none.
pub open spec fn no_labels(n: int) -> Seq<Seq<Label>> {
    Seq::new(n as nat, |i: int| Seq::<Label>::empty())
}

/// The search begins in order.
pub proof fn lemma_search_start(succ: Seq<[u32; 16]>, costs: Seq<u16>, start: u32)
    requires
        start < succ.len(),
        costs.len() >= 16,
        forall|a: int, s: int| 0 <= a < succ.len() && 0 <= s < 16 ==> (#[trigger] succ[a][s]) < succ.len(),
    ensures
        searching(
            succ,
            costs,
            start,
            no_labels(succ.len() as int),
            Map::<u32, Key>::empty().insert(start, source_label().key()),
            0,
            16,
        ),
{
    reveal(fronts);
    reveal(floor);
    reveal(fresh);
    reveal(closed_except);
    reveal(labels_sound);
    reveal(pending_sound);
    let perm = no_labels(succ.len() as int);
    let q = Map::<u32, Key>::empty().insert(start, source_label().key());
    assert forall|node: u32| q.contains_key(node) implies !covered(
        perm[node as int],
        (#[trigger] q[node]).0 as int,
        q[node].1 as int,
    ) by {
        assert(node == start);
    }
}

/// Every step that is due is taken care of by a settled label.
#[verifier::opaque]
pub open spec fn closed_under_links(
    succ: Seq<[u32; 16]>,
    costs: Seq<u16>,
    perm: Seq<Seq<Label>>,
) -> bool {
    forall|v: int, u: int, s: int, j: int|
        #![trigger step_due(succ, costs, perm, v, u, s, j)]
        step_due(succ, costs, perm, v, u, s, j) ==> covered(
            perm[u],
            perm[v][j].length + 1,
            perm[v][j].cost + costs[s],
        )
}

/// With nothing pending the search has settled all there is to settle.
pub proof fn lemma_search_end(
    succ: Seq<[u32; 16]>,
    costs: Seq<u16>,
    start: u32,
    perm: Seq<Seq<Label>>,
    q: Map<u32, Key>,
)
    requires
        searching(succ, costs, start, perm, q, 0, 16),
        q == Map::<u32, Key>::empty(),
    ensures
        perm.len() == succ.len(),
        fronts(perm),
        labels_sound(succ, costs, start, perm),
        closed_under_links(succ, costs, perm),
        perm[start as int].len() > 0,
        perm[start as int][0] == source_label(),
{
    reveal(closed_except);
    reveal(closed_under_links);
    assert forall|v: int, u: int, s: int, j: int|
        #![trigger step_due(succ, costs, perm, v, u, s, j)]
        step_due(succ, costs, perm, v, u, s, j) implies covered(
        perm[u],
        perm[v][j].length + 1,
        perm[v][j].cost + costs[s],
    ) by {
        assert(step_done(costs, perm, q, v, u, s, j));
    }
}

/// Labels in order are at most 256.
pub proof fn lemma_front_len(labels: Seq<Label>)
    requires
        front_ordered(labels),
    ensures
        labels.len() <= 256,
{
    if labels.len() > 0 {
        lemma_front_lengths(labels, labels.len() - 1);
    }
}

proof fn lemma_front_lengths(labels: Seq<Label>, j: int)
    requires
        front_ordered(labels),
        0 <= j < labels.len(),
    ensures
        labels[j].length >= j,
    decreases j,
{
    if j > 0 {
        lemma_front_lengths(labels, j - 1);
    }
}

/// Labels in order at every node are at most 256 for each node.
pub proof fn lemma_fronts_total(perm: Seq<Seq<Label>>)
    requires
        fronts(perm),
    ensures
        crate::flat_storage::total_len(perm) <= 256 * perm.len(),
    decreases perm.len(),
{
    reveal(fronts);
    if perm.len() > 0 {
        let rest = perm.drop_last();
        assert forall|u: int| 0 <= u < rest.len() implies front_ordered(#[trigger] rest[u]) by {
            assert(rest[u] == perm[u]);
        }
        lemma_fronts_total(rest);
        assert(front_ordered(perm[perm.len() - 1]));
        lemma_front_len(perm.last());
    }
}

} // verus!
