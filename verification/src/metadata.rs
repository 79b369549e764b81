//! Figures about the graph and about the result of the search: how many
//! links, how many labels, how they spread over the nodes.

use crate::effect_graph::EffectGraph;
use crate::flat_storage::total_len;
use crate::mosp::pending::Key;
use crate::mosp::Label;
use crate::query::FlatPaths;
use crate::ranking::{
    holds_best, lemma_room_for_all, offer, ranked_down, room_for, start_ranking, top_ranked, Entry,
};
use vstd::prelude::*;

verus! {

/// Number of links from a node to another node of the graph.
pub fn count_backlinks<const N: u8, const K: u8>(graph: &EffectGraph<N, K>) -> (r: usize)
    ensures
        r == total_len(graph.spec_predecessor_rows()),
{
    let rows = graph.predecessor_rows();
    proof {
        assert(rows@.take(rows@.len() as int) == rows@);
    }
    rows.values_before(rows.len())
}

/// The shorter of the best so far and a new label, the best so far where the
/// new one is not shorter.
pub open spec fn shorter_first(best: Option<Label>, label: Label) -> Option<Label> {
    match best {
        None => Some(label),
        Some(b) => if label.length < b.length {
            Some(label)
        } else {
            best
        },
    }
}

/// The shortest label of a node, the first of several.
pub open spec fn shortest_of(row: Seq<Label>) -> Option<Label>
    decreases row.len(),
{
    if row.len() == 0 {
        None
    } else {
        shorter_first(shortest_of(row.drop_last()), row.last())
    }
}

/// The shortest label of a node, the first of several.
pub fn shortest_label(row: &[Label]) -> (r: Option<Label>)
    ensures
        r == shortest_of(row@),
{
    let mut best: Option<Label> = None;
    let mut i: usize = 0;
    while i < row.len()
        invariant
            i <= row@.len(),
            best == shortest_of(row@.subrange(0, i as int)),
        decreases row@.len() - i,
    {
        proof {
            assert(row@.subrange(0, i + 1).drop_last() == row@.subrange(0, i as int));
            assert(row@.subrange(0, i + 1).last() == row@[i as int]);
        }
        let label = row[i];
        best = match best {
            None => Some(label),
            Some(b) => if label.length < b.length {
                Some(label)
            } else {
                best
            },
        };
        i += 1;
    }
    proof {
        assert(row@.subrange(0, i as int) == row@);
    }
    best
}

/// Number of nodes below `upto` with `count` labels.
pub open spec fn nodes_with_count(paths: Seq<Seq<Label>>, upto: int, count: int) -> int
    decreases upto,
{
    if upto <= 0 {
        0
    } else {
        nodes_with_count(paths, upto - 1, count) + if paths[upto - 1].len() == count {
            1int
        } else {
            0int
        }
    }
}

/// The node has a label, and its shortest label has the given length.
pub open spec fn has_minimum_length(row: Seq<Label>, length: int) -> bool {
    match shortest_of(row) {
        Some(l) => l.length == length,
        None => false,
    }
}

/// Number of nodes below `upto` whose shortest label has the given length.
pub open spec fn nodes_with_length(paths: Seq<Seq<Label>>, upto: int, length: int) -> int
    decreases upto,
{
    if upto <= 0 {
        0
    } else {
        nodes_with_length(paths, upto - 1, length) + if has_minimum_length(paths[upto - 1], length) {
            1int
        } else {
            0int
        }
    }
}

/// There are no more nodes of a kind than nodes.
pub proof fn lemma_counts_bounded(paths: Seq<Seq<Label>>, upto: int, value: int)
    requires
        0 <= upto,
    ensures
        0 <= nodes_with_count(paths, upto, value) <= upto,
        0 <= nodes_with_length(paths, upto, value) <= upto,
    decreases upto,
{
    if upto > 0 {
        lemma_counts_bounded(paths, upto - 1, value);
    }
}

/// The key of an entry that has no label to carry.
pub open spec fn no_key() -> Key {
    (0u8, 0u16, 0u8, 0u32)
}

/// The entry of a node in the ranking by the length of its shortest label.
pub open spec fn length_entry(length: u8, idx: usize) -> Entry {
    (length as i32, 0i32, idx, no_key())
}

/// For each node with a label its entry in the ranking by the length of its
/// shortest label.
pub open spec fn length_entries(paths: Seq<Seq<Label>>) -> spec_fn(int) -> Option<Entry> {
    |idx: int|
        match shortest_of(paths[idx]) {
            Some(l) => Some(length_entry(l.length, idx as usize)),
            None => None,
        }
}

/// The nodes with the longest shortest labels, as they are ranked.
pub open spec fn longest_entries(longest: Seq<(u8, usize)>) -> Seq<Entry> {
    Seq::new(longest.len(), |i: int| length_entry(longest[i].0, longest[i].1))
}

/// Figures about the labels of the first nodes of a search result.
pub struct RouteStatistics {
    /// Number of labels.
    pub total: usize,
    /// For each number of labels the number of nodes with as many.
    pub counts: Vec<usize>,
    /// For each length the number of nodes whose shortest label has it.
    pub lengths: Vec<usize>,
    /// The nodes with the longest shortest labels, each with that length,
    /// from the longest down.
    pub longest: Vec<(u8, usize)>,
}

/// The largest number of labels of a node below `upto`.
fn most_labels(paths: &FlatPaths, upto: usize) -> (r: usize)
    requires
        upto <= paths@.len(),
    ensures
        r <= paths.spec_values().len(),
        forall|idx: int| 0 <= idx < upto ==> (#[trigger] paths@[idx]).len() <= r,
        forall|count: int| count > r ==> nodes_with_count(paths@, upto as int, count) == 0,
{
    let mut most: usize = 0;
    let mut idx: usize = 0;
    while idx < upto
        invariant
            idx <= upto <= paths@.len(),
            most <= paths.spec_values().len(),
            forall|i: int| 0 <= i < idx ==> (#[trigger] paths@[i]).len() <= most,
            forall|count: int| count > most ==> nodes_with_count(paths@, idx as int, count) == 0,
        decreases upto - idx,
    {
        let l = paths.get(idx).len();
        if l > most {
            most = l;
        }
        proof {
            let next = idx + 1;
            assert forall|count: int| count > most implies #[trigger] nodes_with_count(
                paths@,
                next,
                count,
            ) == 0 by {
                assert(nodes_with_count(paths@, idx as int, count) == 0);
            }
        }
        idx += 1;
    }
    most
}

/// Counts the labels of the first `num_nodes` nodes and tells how they spread:
/// how many nodes have how many labels, how many nodes have a shortest label
/// of which length, and which `longest` nodes have the longest shortest
/// labels.
pub fn route_statistics(paths: &FlatPaths, num_nodes: usize, longest: usize) -> (r: RouteStatistics)
    requires
        num_nodes <= paths@.len(),
        paths.spec_values().len() < usize::MAX,
    ensures
        r.total == total_len(paths@.take(num_nodes as int)),
        forall|count: int|
            0 <= count < r.counts@.len() ==> #[trigger] r.counts@[count] == nodes_with_count(
                paths@,
                num_nodes as int,
                count,
            ),
        forall|count: int|
            count >= r.counts@.len() ==> nodes_with_count(paths@, num_nodes as int, count) == 0,
        r.lengths@.len() == 256,
        forall|length: int|
            0 <= length < 256 ==> #[trigger] r.lengths@[length] == nodes_with_length(
                paths@,
                num_nodes as int,
                length,
            ),
        top_ranked(
            longest_entries(r.longest@),
            length_entries(paths@),
            num_nodes as int,
            longest as nat,
        ),
{
    let total = paths.values_before(num_nodes);
    let most = most_labels(paths, num_nodes);
    let mut counts: Vec<usize> = vec![0usize; most + 1];
    let mut lengths: Vec<usize> = vec![0usize; 256];
    let ghost entries = length_entries(paths@);
    let room = room_for(longest, num_nodes);
    let mut top = start_ranking(room, Ghost(entries));
    let mut idx: usize = 0;
    while idx < num_nodes
        invariant
            idx <= num_nodes <= paths@.len(),
            entries == length_entries(paths@),
            counts@.len() == most + 1,
            lengths@.len() == 256,
            forall|i: int| 0 <= i < num_nodes ==> (#[trigger] paths@[i]).len() <= most,
            forall|count: int|
                0 <= count <= most ==> #[trigger] counts@[count] == nodes_with_count(
                    paths@,
                    idx as int,
                    count,
                ),
            forall|length: int|
                0 <= length < 256 ==> #[trigger] lengths@[length] == nodes_with_length(
                    paths@,
                    idx as int,
                    length,
                ),
            crate::ranking::ranking_limit(top) == room,
            holds_best(crate::ranking::ranking_entries(top), room as nat, entries, idx as int),
        decreases num_nodes - idx,
    {
        let labels = paths.get(idx);
        let l = labels.len();
        proof {
            lemma_counts_bounded(paths@, idx as int, l as int);
        }
        let ghost counts_before = counts@;
        counts.set(l, counts[l] + 1);
        let entry = match shortest_label(labels) {
            Some(shortest) => {
                let at = shortest.length as usize;
                proof {
                    lemma_counts_bounded(paths@, idx as int, at as int);
                }
                lengths.set(at, lengths[at] + 1);
                Some((shortest.length as i32, 0i32, idx, (0u8, 0u16, 0u8, 0u32)))
            },
            None => None,
        };
        offer(&mut top, entry, Ghost(entries), Ghost(idx as int));
        idx += 1;
    }
    let ranked = ranked_down(top, Ghost(entries), Ghost(num_nodes as int));
    proof {
        lemma_room_for_all(ranked@, entries, num_nodes as int, room as nat, longest as nat);
    }
    let mut nodes: Vec<(u8, usize)> = Vec::new();
    let mut i: usize = 0;
    while i < ranked.len()
        invariant
            i <= ranked@.len(),
            nodes@.len() == i,
            entries == length_entries(paths@),
            forall|j: int|
                0 <= j < ranked@.len() ==> crate::ranking::is_candidate(
                    entries,
                    num_nodes as int,
                    #[trigger] ranked@[j],
                ),
            forall|j: int|
                0 <= j < i ==> length_entry((#[trigger] nodes@[j]).0, nodes@[j].1) == ranked@[j],
        decreases ranked@.len() - i,
    {
        let (length, _, index, _) = ranked[i];
        proof {
            assert(crate::ranking::is_candidate(entries, num_nodes as int, ranked@[i as int]));
        }
        nodes.push((length as u8, index));
        i += 1;
    }
    proof {
        assert(longest_entries(nodes@) =~= ranked@);
    }
    RouteStatistics { total, counts, lengths, longest: nodes }
}

} // verus!
