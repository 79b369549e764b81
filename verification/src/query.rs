//! Questions to the result of the search: the recipe behind a label, the
//! recipes of an effect set, the best recipes that contain given effects.

use crate::combinatorial::binomial::size_offset;
use crate::combinatorial::laws::{lemma_decode_unique, spec_decode};
use crate::combinatorial::{in_domain, spec_encode, CombinatorialEncoder};
use crate::flat_storage::FlatStorage;
use crate::mixing::{Effects, Substance};
use crate::mosp::laws::{walk_cost, walk_end};
use crate::mosp::{Label, NICHE};
use vstd::prelude::*;

verus! {

/// The labels of every node, as the search wrote them.
pub type FlatPaths = FlatStorage<Label>;

/// The first label of the list with the given length.
pub open spec fn first_with_length(labels: Seq<Label>, length: int) -> Option<Label>
    decreases labels.len(),
{
    if labels.len() == 0 {
        None
    } else if labels[0].length == length {
        Some(labels[0])
    } else {
        first_with_length(labels.drop_first(), length)
    }
}

/// The recipe behind a label, from the first substance to the last: the
/// recipe behind the label one step shorter at the node of the backlink, and
/// then the substance of the label. `None` where a backlink leads nowhere: to
/// no node, to a node without a label one step shorter, or back from a label
/// of length 0.
pub open spec fn trace(paths: Seq<Seq<Label>>, label: Label) -> Option<Seq<Substance>>
    decreases label.length,
{
    if label.backlink == NICHE {
        Some(Seq::empty())
    } else if label.length == 0 || label.backlink >= paths.len() {
        None
    } else {
        match first_with_length(paths[label.backlink as int], label.length - 1) {
            None => None,
            Some(previous) => if previous.length == label.length - 1 {
                match trace(paths, previous) {
                    None => None,
                    Some(recipe) => Some(recipe.push(label.previous_substance)),
                }
            } else {
                None
            },
        }
    }
}

/// The first label with a length is a label with that length.
pub proof fn lemma_first_with_length(labels: Seq<Label>, length: int)
    ensures
        first_with_length(labels, length) matches Some(l) ==> l.length == length
            && labels.contains(l),
    decreases labels.len(),
{
    if labels.len() > 0 && labels[0].length != length {
        lemma_first_with_length(labels.drop_first(), length);
        if first_with_length(labels, length) is Some {
            let l = first_with_length(labels, length)->0;
            let i = choose|i: int| 0 <= i < labels.drop_first().len() && labels.drop_first()[i] == l;
            assert(labels[i + 1] == l);
        }
    } else if labels.len() > 0 {
        assert(labels[0] == first_with_length(labels, length)->0);
    }
}

/// The recipe behind a label has as many substances as the label says.
pub proof fn lemma_trace_len(paths: Seq<Seq<Label>>, label: Label)
    requires
        label.backlink == NICHE ==> label.length == 0,
        forall|u: int, j: int|
            0 <= u < paths.len() && 0 <= j < paths[u].len() ==> ((#[trigger] paths[u][j]).backlink
                == NICHE ==> paths[u][j].length == 0),
    ensures
        trace(paths, label) matches Some(recipe) ==> recipe.len() == label.length,
    decreases label.length,
{
    if label.backlink != NICHE && label.length != 0 && label.backlink < paths.len() {
        let row = paths[label.backlink as int];
        lemma_first_with_length(row, label.length - 1);
        match first_with_length(row, label.length - 1) {
            Some(previous) => {
                let j = choose|j: int| 0 <= j < row.len() && row[j] == previous;
                assert(paths[label.backlink as int][j] == previous);
                lemma_trace_len(paths, previous);
            },
            None => {},
        }
    }
}

/// Every label leads back to where it came from: a label without a backlink
/// is the label of the start, without a step and without cost; any other
/// label has, at the node of its backlink, a label one step shorter and
/// cheaper by the cost of its substance, and its substance leads from there to
/// the label's node.
pub open spec fn linked(
    succ: Seq<[u32; 16]>,
    costs: Seq<u16>,
    start: int,
    paths: Seq<Seq<Label>>,
) -> bool {
    forall|u: int, j: int|
        0 <= u < paths.len() && 0 <= j < paths[u].len() ==> label_linked(
            succ,
            costs,
            start,
            paths,
            u,
            #[trigger] paths[u][j],
        )
}

/// The label of node `u` leads back to where it came from.
pub open spec fn label_linked(
    succ: Seq<[u32; 16]>,
    costs: Seq<u16>,
    start: int,
    paths: Seq<Seq<Label>>,
    u: int,
    label: Label,
) -> bool {
    if label.backlink == NICHE {
        u == start && label.length == 0 && label.cost == 0
    } else {
        &&& label.backlink < paths.len()
        &&& label.backlink < succ.len()
        &&& label.length > 0
        &&& first_with_length(paths[label.backlink as int], label.length - 1) matches Some(previous)
            && previous.cost + costs[label.previous_substance.spec_index() as int] == label.cost
        &&& succ[label.backlink as int][label.previous_substance.spec_index() as int] == u
    }
}

/// Where every label leads back to where it came from, the recipe behind a
/// label has as many substances as the label says and costs what the label
/// says, and it leads from the start to the node of the label.
pub proof fn lemma_trace_round_trip(
    succ: Seq<[u32; 16]>,
    costs: Seq<u16>,
    start: int,
    paths: Seq<Seq<Label>>,
    u: int,
    label: Label,
)
    requires
        linked(succ, costs, start, paths),
        label_linked(succ, costs, start, paths, u, label),
    ensures
        trace(paths, label) is Some,
        trace(paths, label)->0.len() == label.length,
        walk_cost(costs, trace(paths, label)->0) == label.cost,
        walk_end(succ, start, trace(paths, label)->0) == u,
    decreases label.length,
{
    if label.backlink != NICHE {
        let v = label.backlink as int;
        let row = paths[v];
        lemma_first_with_length(row, label.length - 1);
        let previous = first_with_length(row, label.length - 1)->0;
        let j = choose|j: int| 0 <= j < row.len() && row[j] == previous;
        assert(paths[v][j] == previous);
        lemma_trace_round_trip(succ, costs, start, paths, v, previous);
        let recipe = trace(paths, previous)->0;
        let full = recipe.push(label.previous_substance);
        assert(full.drop_last() == recipe);
    }
}

/// The first label of the list with the given length.
pub fn find_with_length(labels: &[Label], length: u8) -> (r: Option<Label>)
    ensures
        r == first_with_length(labels@, length as int),
{
    let mut i: usize = 0;
    proof {
        assert(labels@.subrange(0, labels@.len() as int) == labels@);
    }
    while i < labels.len()
        invariant
            i <= labels@.len(),
            first_with_length(labels@, length as int) == first_with_length(
                labels@.subrange(i as int, labels@.len() as int),
                length as int,
            ),
        decreases labels@.len() - i,
    {
        proof {
            let rest = labels@.subrange(i as int, labels@.len() as int);
            assert(rest[0] == labels@[i as int]);
            assert(rest.drop_first() == labels@.subrange(i + 1, labels@.len() as int));
        }
        if labels[i].length == length {
            return Some(labels[i]);
        }
        i += 1;
    }
    None
}

/// The values of a list from the last to the first.
pub fn reversed(values: &Vec<Substance>) -> (r: Vec<Substance>)
    ensures
        r@ == values@.reverse(),
{
    let mut out: Vec<Substance> = Vec::new();
    let mut i: usize = values.len();
    while i > 0
        invariant
            i <= values@.len(),
            out@.len() == values@.len() - i,
            forall|j: int| 0 <= j < out@.len() ==> out@[j] == values@[values@.len() - 1 - j],
        decreases i,
    {
        i -= 1;
        out.push(values[i]);
    }
    proof {
        assert(out@ =~= values@.reverse());
    }
    out
}

/// What the walk back from `label` adds to the substances recorded so far.
spec fn joined(paths: Seq<Seq<Label>>, label: Label, recorded: Seq<Substance>) -> Option<
    Seq<Substance>,
> {
    match trace(paths, label) {
        None => None,
        Some(recipe) => Some(recipe + recorded.reverse()),
    }
}

/// The recipe behind a label: the substances on the way from the start to the
/// label, found by walking back along the backlinks. `None` where a backlink
/// leads nowhere.
pub fn trace_path(start: Label, paths: &FlatPaths) -> (r: Option<Vec<Substance>>)
    ensures
        r is Some <==> trace(paths@, start) is Some,
        r matches Some(recipe) ==> Some(recipe@) == trace(paths@, start),
{
    let mut path: Vec<Substance> = Vec::new();
    let mut l = start;
    proof {
        assert(Seq::<Substance>::empty().reverse() =~= Seq::<Substance>::empty());
        if trace(paths@, start) is Some {
            assert(trace(paths@, start)->0 + Seq::<Substance>::empty() =~= trace(paths@, start)->0);
        }
    }
    loop
        invariant
            trace(paths@, start) == joined(paths@, l, path@),
        ensures
            l.backlink == NICHE,
            trace(paths@, start) == joined(paths@, l, path@),
        decreases l.length,
    {
        let (next, s) = match l.backlink() {
            Some(link) => link,
            None => {
                break ;
            },
        };
        if l.length == 0 || next as usize >= paths.len() {
            return None;
        }
        let previous = match find_with_length(paths.get(next as usize), l.length - 1) {
            Some(previous) => previous,
            None => {
                return None;
            },
        };
        proof {
            lemma_first_with_length(paths@[next as int], l.length - 1);
            let recorded = path@.push(s);
            assert(recorded.reverse() =~= seq![s] + path@.reverse());
            if trace(paths@, previous) is Some {
                let recipe = trace(paths@, previous)->0;
                assert(recipe.push(s) + path@.reverse() =~= recipe + recorded.reverse());
            }
        }
        path.push(s);
        l = previous;
    }
    // Since we started at the target and worked back to the root node, flip the order.
    let recipe = reversed(&path);
    proof {
        assert(Seq::<Substance>::empty() + path@.reverse() =~= path@.reverse());
    }
    Some(recipe)
}

/// The recipes behind the labels of a node, in the order of the labels;
/// `None` where a backlink leads nowhere.
pub fn lookup(index: u32, labels: &FlatPaths) -> (r: Option<Vec<Vec<Substance>>>)
    requires
        index < labels@.len(),
    ensures
        r is None <==> exists|i: int|
            0 <= i < labels@[index as int].len() && trace(
                labels@,
                #[trigger] labels@[index as int][i],
            ) is None,
        r matches Some(recipes) ==> recipes@.len() == labels@[index as int].len() && forall|i: int|
            0 <= i < recipes@.len() ==> Some((#[trigger] recipes@[i])@) == trace(
                labels@,
                labels@[index as int][i],
            ),
{
    let starting_labels = labels.get(index as usize);
    let mut paths: Vec<Vec<Substance>> = Vec::new();
    let mut i: usize = 0;
    while i < starting_labels.len()
        invariant
            i <= starting_labels@.len(),
            starting_labels@ == labels@[index as int],
            paths@.len() == i,
            forall|j: int|
                0 <= j < i ==> Some((#[trigger] paths@[j])@) == trace(labels@, starting_labels@[j]),
        decreases starting_labels@.len() - i,
    {
        match trace_path(starting_labels[i], labels) {
            Some(path) => {
                paths.push(path);
            },
            None => {
                return None;
            },
        }
        i += 1;
    }
    proof {
        assert forall|j: int| 0 <= j < starting_labels@.len() implies trace(
            labels@,
            #[trigger] labels@[index as int][j],
        ) is Some by {
            assert(Some(paths@[j]@) == trace(labels@, starting_labels@[j]));
        }
    }
    Some(paths)
}

/// The recipes that lead to exactly the given effects.
pub fn search_exact<const N: u8, const K: u8>(
    effects: Effects,
    encoder: &CombinatorialEncoder<N, K>,
    labels: &FlatPaths,
) -> (r: Option<Vec<Vec<Substance>>>)
    requires
        in_domain(N as nat, K as nat, effects@),
        labels@.len() >= size_offset(N as nat, (K + 1) as nat),
    ensures
        r is None <==> exists|i: int|
            0 <= i < labels@[spec_encode(N as nat, effects@) as int].len() && trace(
                labels@,
                #[trigger] labels@[spec_encode(N as nat, effects@) as int][i],
            ) is None,
        r matches Some(recipes) ==> recipes@.len() == labels@[spec_encode(
            N as nat,
            effects@,
        ) as int].len() && forall|i: int|
            0 <= i < recipes@.len() ==> Some((#[trigger] recipes@[i])@) == trace(
                labels@,
                labels@[spec_encode(N as nat, effects@) as int][i],
            ),
{
    lookup(encoder.encode(effects.bits()), labels)
}

/// A node and one of its labels.
pub type Found = (usize, Label);

/// The node counts for a search for `target`: it has a label, and its effect
/// set holds every effect of `target`.
pub open spec fn qualifies(n: nat, k: nat, target: u64, labels: Seq<Seq<Label>>, idx: int) -> bool {
    labels[idx].len() > 0 && spec_decode(n, k, idx as nat) & target == target
}

/// The cheaper of the best so far and a new label, the best so far where the
/// new one is not cheaper.
pub open spec fn cheaper(best: Option<Found>, idx: usize, label: Label) -> Option<Found> {
    match best {
        None => Some((idx, label)),
        Some(b) => if label.cost < b.1.cost {
            Some((idx, label))
        } else {
            best
        },
    }
}

/// The shorter of the best so far and a new label, the best so far where the
/// new one is not shorter.
pub open spec fn shorter(best: Option<Found>, idx: usize, label: Label) -> Option<Found> {
    match best {
        None => Some((idx, label)),
        Some(b) => if label.length < b.1.length {
            Some((idx, label))
        } else {
            best
        },
    }
}

/// The cheapest and the shortest label after the labels of one node were
/// looked at, in order.
pub open spec fn scan_row(row: Seq<Label>, idx: usize, best: (Option<Found>, Option<Found>)) -> (
    Option<Found>,
    Option<Found>,
)
    decreases row.len(),
{
    if row.len() == 0 {
        best
    } else {
        let before = scan_row(row.drop_last(), idx, best);
        (cheaper(before.0, idx, row.last()), shorter(before.1, idx, row.last()))
    }
}

/// The cheapest and the shortest label among the nodes below `upto` that
/// count, each the first of its kind in the order of nodes and labels.
pub open spec fn scan_nodes(n: nat, k: nat, target: u64, labels: Seq<Seq<Label>>, upto: nat) -> (
    Option<Found>,
    Option<Found>,
)
    decreases upto,
{
    if upto == 0 {
        (None, None)
    } else {
        let before = scan_nodes(n, k, target, labels, (upto - 1) as nat);
        if qualifies(n, k, target, labels, upto - 1) {
            scan_row(labels[upto - 1], (upto - 1) as usize, before)
        } else {
            before
        }
    }
}

/// What a scan found is no dearer, and no longer, than `label`.
pub open spec fn no_worse(found: (Option<Found>, Option<Found>), label: Label) -> bool {
    match found {
        (Some(lowest_cost), Some(shortest)) => {
            let (_, cheap) = lowest_cost;
            let (_, short) = shortest;
            cheap.cost <= label.cost && short.length <= label.length
        },
        _ => false,
    }
}

/// What a scan found is no dearer, and no longer, than label `j` of node
/// `idx`.
pub open spec fn is_least(
    found: (Option<Found>, Option<Found>),
    labels: Seq<Seq<Label>>,
    idx: int,
    j: int,
) -> bool {
    no_worse(found, labels[idx][j])
}

/// One more row: what was least stays no larger than what it was, and is no
/// larger than any label of the row.
pub proof fn lemma_scan_row(row: Seq<Label>, idx: usize, best: (Option<Found>, Option<Found>))
    ensures
        forall|l: Label| no_worse(best, l) ==> no_worse(scan_row(row, idx, best), l),
        forall|j: int| 0 <= j < row.len() ==> no_worse(scan_row(row, idx, best), #[trigger] row[j]),
    decreases row.len(),
{
    if row.len() > 0 {
        lemma_scan_row(row.drop_last(), idx, best);
        let after = scan_row(row, idx, best);
        assert forall|j: int| 0 <= j < row.len() implies no_worse(after, #[trigger] row[j]) by {
            if j < row.len() - 1 {
                assert(row.drop_last()[j] == row[j]);
            }
        }
    }
}

/// What the search finds is no dearer, and no longer, than any label of a
/// node that counts.
pub proof fn lemma_scan_least(
    n: nat,
    k: nat,
    target: u64,
    labels: Seq<Seq<Label>>,
    upto: nat,
    idx: int,
    j: int,
)
    requires
        0 <= idx < upto,
        qualifies(n, k, target, labels, idx),
        0 <= j < labels[idx].len(),
    ensures
        is_least(scan_nodes(n, k, target, labels, upto), labels, idx, j),
    decreases upto,
{
    let before = scan_nodes(n, k, target, labels, (upto - 1) as nat);
    if idx < upto - 1 {
        lemma_scan_least(n, k, target, labels, (upto - 1) as nat, idx, j);
        if qualifies(n, k, target, labels, upto - 1) {
            lemma_scan_row(labels[upto - 1], (upto - 1) as usize, before);
        }
    } else {
        lemma_scan_row(labels[upto - 1], (upto - 1) as usize, before);
    }
}

/// The cheapest and the shortest recipe that lead to effects which hold every
/// effect of the target: for each the node and the label, the first where
/// several are equally good; `None` where no node with a label holds the
/// target.
pub fn search_inexact<const N: u8, const K: u8>(
    target_effects: Effects,
    encoder: &CombinatorialEncoder<N, K>,
    labels: &FlatPaths,
) -> (r: Option<(Found, Found)>)
    requires
        labels@.len() >= size_offset(N as nat, (K + 1) as nat),
    ensures
        r == match scan_nodes(
            N as nat,
            K as nat,
            target_effects@,
            labels@,
            size_offset(N as nat, (K + 1) as nat),
        ) {
            (Some(lowest_cost), Some(shortest)) => Some((lowest_cost, shortest)),
            _ => None,
        },
{
    let target = target_effects.bits();
    let mut lowest_cost: Option<Found> = None;
    let mut shortest: Option<Found> = None;
    let limit = encoder.maximum_index() as usize;
    let mut idx: usize = 0;
    while idx < limit
        invariant
            idx <= limit <= u32::MAX,
            N <= 64,
            limit == size_offset(N as nat, (K + 1) as nat),
            labels@.len() >= limit,
            target == target_effects@,
            (lowest_cost, shortest) == scan_nodes(N as nat, K as nat, target, labels@, idx as nat),
            lowest_cost is Some <==> shortest is Some,
        decreases limit - idx,
    {
        let paths = labels.get(idx);
        let current_effects = encoder.decode(idx as u32);
        proof {
            lemma_decode_unique(N as nat, K as nat, idx as nat, current_effects);
        }
        // only consider reachable effects
        if paths.len() > 0 && current_effects & target == target {
            let ghost before = (lowest_cost, shortest);
            let mut j: usize = 0;
            while j < paths.len()
                invariant
                    j <= paths@.len(),
                    (lowest_cost, shortest) == scan_row(paths@.subrange(0, j as int), idx, before),
                    j > 0 ==> lowest_cost is Some && shortest is Some,
                decreases paths@.len() - j,
            {
                proof {
                    assert(paths@.subrange(0, j + 1).drop_last() == paths@.subrange(0, j as int));
                    assert(paths@.subrange(0, j + 1).last() == paths@[j as int]);
                }
                let path = paths[j];
                lowest_cost = match lowest_cost {
                    None => Some((idx, path)),
                    Some(best) => if path.cost < best.1.cost {
                        Some((idx, path))
                    } else {
                        lowest_cost
                    },
                };
                shortest = match shortest {
                    None => Some((idx, path)),
                    Some(best) => if path.length < best.1.length {
                        Some((idx, path))
                    } else {
                        shortest
                    },
                };
                j += 1;
            }
            proof {
                assert(paths@.subrange(0, j as int) == paths@);
            }
        }
        idx += 1;
    }
    match (lowest_cost, shortest) {
        (Some(lowest_cost), Some(shortest)) => Some((lowest_cost, shortest)),
        _ => None,
    }
}

} // verus!
