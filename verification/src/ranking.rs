//! The most profitable recipes: for each effect set the cheapest recipe that
//! is short enough, ranked by what is left of the sell price after its cost.

use crate::flat_storage::FlatStorage;
use crate::query::FlatPaths;
use crate::mosp::pending::{key_lt, Key};
use crate::mosp::{lemma_key_injective, Label};
use topset::TopSet;
use vstd::multiset::Multiset;
use vstd::prelude::*;

verus! {

/// A recipe as it is ranked: profit, sell price, node, and the label of the
/// recipe as the search orders it, compared in this order.
pub type Entry = (i32, i32, usize, Key);

/// `a` ranks below `b`: the first component in which they differ is smaller
/// in `a`.
pub open spec fn entry_lt(a: Entry, b: Entry) -> bool {
    a.0 < b.0 || (a.0 == b.0 && (a.1 < b.1 || (a.1 == b.1 && (a.2 < b.2 || (a.2 == b.2 && key_lt(
        a.3,
        b.3,
    ))))))
}

/// The best recipes seen so far, up to a limit. It holds a `TopSet` that
/// compares with `>`, whose type Verus cannot name.
#[verifier::external_body]
pub struct Ranking {
    top: TopSet<Entry, fn(&Entry, &Entry) -> bool>,
}

/// The recipes that a ranking holds.
pub uninterp spec fn ranking_entries(r: Ranking) -> Multiset<Entry>;

/// The number of recipes that a ranking holds at most.
pub uninterp spec fn ranking_limit(r: Ranking) -> nat;

/// `TopSet::new`, to keep the greatest: a ranking that holds nothing and at
/// most `n` recipes.
#[verifier::external_body]
fn ranking_new(n: usize) -> (r: Ranking)
    ensures
        ranking_entries(r) == Multiset::<Entry>::empty(),
        ranking_limit(r) == n,
{
    Ranking { top: TopSet::new(n, PartialOrd::gt) }
}

/// `TopSet::insert`: with room left the recipe is taken in and nothing comes
/// back; without, the lowest of the recipes held and the new one leaves and
/// comes back.
#[verifier::external_body]
fn ranking_insert(r: &mut Ranking, x: Entry) -> (out: Option<Entry>)
    ensures
        ranking_limit(*final(r)) == ranking_limit(*old(r)),
        match out {
            None => {
                &&& ranking_entries(*old(r)).len() < ranking_limit(*old(r))
                &&& ranking_entries(*final(r)) == ranking_entries(*old(r)).insert(x)
            },
            Some(gone) => {
                &&& ranking_entries(*old(r)).len() >= ranking_limit(*old(r))
                &&& ranking_entries(*old(r)).insert(x).contains(gone)
                &&& forall|y: Entry|
                    ranking_entries(*old(r)).insert(x).contains(y) ==> !entry_lt(y, gone)
                &&& ranking_entries(*final(r)) == ranking_entries(*old(r)).insert(x).remove(gone)
            },
        },
{
    r.top.insert(x)
}

/// `TopSet::into_sorted_vec`: the recipes held, from the lowest to the
/// highest.
#[verifier::external_body]
fn ranking_into_sorted_vec(r: Ranking) -> (v: Vec<Entry>)
    ensures
        v@.to_multiset() == ranking_entries(r),
        rising_entries(v@),
{
    r.top.into_sorted_vec()
}

/// No entry ranks below an earlier one.
pub open spec fn rising_entries(entries: Seq<Entry>) -> bool {
    forall|i: int, j: int|
        0 <= i < j < entries.len() ==> !entry_lt(#[trigger] entries[j], #[trigger] entries[i])
}

/// The cheaper of the best so far and a new label that is short enough, the
/// best so far where the new one is too long or not cheaper.
pub open spec fn cheaper_within(best: Option<Label>, label: Label, max_mixins: u8) -> Option<
    Label,
> {
    if label.length <= max_mixins {
        match best {
            None => Some(label),
            Some(b) => if label.cost < b.cost {
                Some(label)
            } else {
                best
            },
        }
    } else {
        best
    }
}

/// The cheapest label of at most `max_mixins` steps, the first of several.
pub open spec fn cheapest_within(row: Seq<Label>, max_mixins: u8) -> Option<Label>
    decreases row.len(),
{
    if row.len() == 0 {
        None
    } else {
        cheaper_within(cheapest_within(row.drop_last(), max_mixins), row.last(), max_mixins)
    }
}

/// The cheapest label of at most `max_mixins` steps, the first of several.
pub fn best_label(row: &[Label], max_mixins: u8) -> (r: Option<Label>)
    ensures
        r == cheapest_within(row@, max_mixins),
{
    let mut best: Option<Label> = None;
    let mut i: usize = 0;
    while i < row.len()
        invariant
            i <= row@.len(),
            best == cheapest_within(row@.subrange(0, i as int), max_mixins),
        decreases row@.len() - i,
    {
        proof {
            assert(row@.subrange(0, i + 1).drop_last() == row@.subrange(0, i as int));
            assert(row@.subrange(0, i + 1).last() == row@[i as int]);
        }
        let label = row[i];
        if label.length <= max_mixins {
            best = match best {
                None => Some(label),
                Some(b) => if label.cost < b.cost {
                    Some(label)
                } else {
                    best
                },
            };
        }
        i += 1;
    }
    proof {
        assert(row@.subrange(0, i as int) == row@);
    }
    best
}

/// The entry of a node: what is left of its sell price after the cost of its
/// cheapest recipe that is short enough; `None` where it has no such recipe.
pub open spec fn entry_of(labels: Seq<Seq<Label>>, prices: Seq<u16>, max_mixins: u8, idx: int) -> Option<
    Entry,
> {
    match cheapest_within(labels[idx], max_mixins) {
        None => None,
        Some(best) => Some(
            ((prices[idx] - best.cost) as i32, prices[idx] as i32, idx as usize, best.key()),
        ),
    }
}

/// For each node its entry in the ranking by profit.
pub open spec fn profit_entries(labels: Seq<Seq<Label>>, prices: Seq<u16>, max_mixins: u8) -> spec_fn(
    int,
) -> Option<Entry> {
    |idx: int| entry_of(labels, prices, max_mixins, idx)
}

/// `entry` is the entry of a node below `upto`.
pub open spec fn is_candidate(entries: spec_fn(int) -> Option<Entry>, upto: int, entry: Entry) -> bool {
    0 <= entry.2 < upto && entries(entry.2 as int) == Some(entry)
}

/// Number of nodes below `upto` that have an entry.
pub open spec fn count_candidates(entries: spec_fn(int) -> Option<Entry>, upto: int) -> int
    decreases upto,
{
    if upto <= 0 {
        0
    } else {
        count_candidates(entries, upto - 1) + if entries(upto - 1) is Some {
            1int
        } else {
            0int
        }
    }
}

/// The ranking holds the best of the entries of the nodes below `upto`: only
/// such entries, each once; all of them while there is room; and none that
/// ranks below one that it does not hold.
pub open spec fn holds_best(
    held: Multiset<Entry>,
    limit: nat,
    entries: spec_fn(int) -> Option<Entry>,
    upto: int,
) -> bool {
    &&& forall|x: Entry| #[trigger]
        held.contains(x) ==> held.count(x) == 1 && is_candidate(entries, upto, x)
    &&& held.len() == if count_candidates(entries, upto) < limit {
        count_candidates(entries, upto)
    } else {
        limit as int
    }
    &&& held.len() < limit ==> forall|y: Entry|
        is_candidate(entries, upto, y) ==> #[trigger] held.contains(y)
    &&& forall|x: Entry, y: Entry|
        #![trigger held.contains(x), held.contains(y)]
        held.contains(x) && is_candidate(entries, upto, y) && !held.contains(y) ==> entry_lt(y, x)
}

/// `ranked` holds the `limit` highest entries of the nodes below `upto`, or
/// all where there are fewer, from the highest down.
pub open spec fn top_ranked(
    ranked: Seq<Entry>,
    entries: spec_fn(int) -> Option<Entry>,
    upto: int,
    limit: nat,
) -> bool {
    &&& ranked.len() == if count_candidates(entries, upto) < limit {
        count_candidates(entries, upto)
    } else {
        limit as int
    }
    &&& forall|i: int| 0 <= i < ranked.len() ==> is_candidate(entries, upto, #[trigger] ranked[i])
    &&& forall|i: int, j: int|
        0 <= i < j < ranked.len() ==> entry_lt(#[trigger] ranked[j], #[trigger] ranked[i])
    &&& forall|y: Entry|
        is_candidate(entries, upto, y) ==> ranked.contains(y) || forall|i: int|
            0 <= i < ranked.len() ==> entry_lt(y, #[trigger] ranked[i])
}

/// The order of entries is total: of two different entries one ranks below
/// the other, and what ranks below something that ranks below a third ranks
/// below the third.
pub proof fn lemma_entry_order(a: Entry, b: Entry, c: Entry)
    ensures
        a == b || entry_lt(a, b) || entry_lt(b, a),
        !(entry_lt(a, b) && entry_lt(b, a)),
        entry_lt(a, b) && entry_lt(b, c) ==> entry_lt(a, c),
        !entry_lt(a, a),
{
}

/// A node without an entry changes nothing.
proof fn lemma_holds_best_skip(
    held: Multiset<Entry>,
    limit: nat,
    entries: spec_fn(int) -> Option<Entry>,
    upto: int,
)
    requires
        upto >= 0,
        holds_best(held, limit, entries, upto),
        entries(upto) is None,
    ensures
        holds_best(held, limit, entries, upto + 1),
{
    assert forall|y: Entry|
        is_candidate(entries, upto + 1, y) <==> is_candidate(entries, upto,
            y,
        ) by {
    }
}

/// The entry of the next node was taken in, with room left.
proof fn lemma_holds_best_room(
    held: Multiset<Entry>,
    limit: nat,
    entries: spec_fn(int) -> Option<Entry>,
    upto: int,
    x: Entry,
)
    requires
        0 <= upto,
        holds_best(held, limit, entries, upto),
        entries(upto) == Some(x),
        x.2 == upto,
        held.len() < limit,
    ensures
        holds_best(held.insert(x), limit, entries, upto + 1),
{
    broadcast use vstd::multiset::group_multiset_axioms;

    let after = held.insert(x);
    assert(!held.contains(x)) by {
        if held.contains(x) {
            assert(is_candidate(entries, upto, x));
        }
    }
    assert forall|y: Entry| #[trigger] after.contains(y) implies after.count(y) == 1
        && is_candidate(entries, upto + 1, y) by {
        if y != x {
            assert(held.contains(y));
        }
    }
    assert forall|y: Entry|
        is_candidate(entries, upto + 1, y) implies #[trigger] after.contains(
        y,
    ) by {
        if y.2 < upto {
            assert(is_candidate(entries, upto, y));
            assert(held.contains(y));
        }
    }
}

/// The entry of the next node was offered to a full ranking, and the lowest
/// of all left.
proof fn lemma_holds_best_full(
    held: Multiset<Entry>,
    limit: nat,
    entries: spec_fn(int) -> Option<Entry>,
    upto: int,
    x: Entry,
    gone: Entry,
)
    requires
        0 <= upto,
        holds_best(held, limit, entries, upto),
        entries(upto) == Some(x),
        x.2 == upto,
        held.len() >= limit,
        held.insert(x).contains(gone),
        forall|y: Entry| held.insert(x).contains(y) ==> !entry_lt(y, gone),
    ensures
        holds_best(held.insert(x).remove(gone), limit, entries, upto + 1),
{
    broadcast use vstd::multiset::group_multiset_axioms;

    let all = held.insert(x);
    let after = all.remove(gone);
    assert(!held.contains(x)) by {
        if held.contains(x) {
            assert(is_candidate(entries, upto, x));
        }
    }
    assert(all.count(gone) == 1) by {
        if gone != x {
            assert(held.contains(gone));
        }
    }
    assert forall|y: Entry| #[trigger] after.contains(y) implies after.count(y) == 1
        && is_candidate(entries, upto + 1, y) by {
        assert(y != gone);
        if y != x {
            assert(held.contains(y));
        }
    }
    assert forall|a: Entry, b: Entry|
        #![trigger after.contains(a), after.contains(b)]
        after.contains(a) && is_candidate(entries, upto + 1, b)
            && !after.contains(b) implies entry_lt(b, a) by {
        assert(a != gone);
        assert(all.contains(a));
        lemma_entry_order(gone, a, b);
        if b == gone {
        } else {
            // b is an entry of an earlier node that was not held
            assert(b != x);
            assert(is_candidate(entries, upto, b));
            assert(!held.contains(b));
            if gone != x {
                assert(held.contains(gone));
                lemma_entry_order(b, gone, a);
            } else {
                assert(held.contains(a));
            }
        }
    }
}

/// The entries in rising order, read as what the ranking held, are the best
/// entries from the lowest up.
proof fn lemma_ranked(
    held: Multiset<Entry>,
    limit: nat,
    entries: spec_fn(int) -> Option<Entry>,
    upto: int,
    sorted: Seq<Entry>,
)
    requires
        holds_best(held, limit, entries, upto),
        sorted.to_multiset() == held,
        rising_entries(sorted),
    ensures
        sorted.len() == held.len(),
        forall|i: int| 0 <= i < sorted.len() ==> is_candidate(entries, upto, #[trigger] sorted[i]),
        forall|i: int, j: int|
            0 <= i < j < sorted.len() ==> entry_lt(#[trigger] sorted[i], #[trigger] sorted[j]),
        forall|y: Entry|
            is_candidate(entries, upto, y) ==> sorted.contains(y) || forall|i: int|
                0 <= i < sorted.len() ==> entry_lt(y, #[trigger] sorted[i]),
{
    broadcast use vstd::multiset::group_multiset_axioms;

    sorted.to_multiset_ensures();
    sorted.lemma_multiset_has_no_duplicates_conv();
    assert forall|i: int| 0 <= i < sorted.len() implies is_candidate(
        entries,
        upto,
        #[trigger] sorted[i],
    ) by {
        assert(sorted.contains(sorted[i]));
        assert(held.contains(sorted[i]));
    }
    assert forall|i: int, j: int| 0 <= i < j < sorted.len() implies entry_lt(
        #[trigger] sorted[i],
        #[trigger] sorted[j],
    ) by {
        lemma_entry_order(sorted[i], sorted[j], sorted[i]);
    }
    assert forall|y: Entry| is_candidate(entries, upto, y) implies sorted.contains(y) || forall|
        i: int,
    | 0 <= i < sorted.len() ==> entry_lt(y, #[trigger] sorted[i]) by {
        if !sorted.contains(y) {
            assert(!held.contains(y));
            assert forall|i: int| 0 <= i < sorted.len() implies entry_lt(
                y,
                #[trigger] sorted[i],
            ) by {
                assert(sorted.contains(sorted[i]));
                assert(held.contains(sorted[i]));
            }
        }
    }
}

/// No more nodes have an entry than there are nodes.
pub proof fn lemma_candidates_bounded(entries: spec_fn(int) -> Option<Entry>, upto: int)
    ensures
        0 <= count_candidates(entries, upto),
        upto >= 0 ==> count_candidates(entries, upto) <= upto,
    decreases upto,
{
    if upto > 0 {
        lemma_candidates_bounded(entries, upto - 1);
    }
}

/// The highest entries up to the number of nodes are the highest entries up
/// to any greater number.
pub proof fn lemma_room_for_all(
    ranked: Seq<Entry>,
    entries: spec_fn(int) -> Option<Entry>,
    upto: int,
    limit: nat,
    wanted: nat,
)
    requires
        upto >= 0,
        top_ranked(ranked, entries, upto, limit),
        limit == wanted || upto <= limit <= wanted,
    ensures
        top_ranked(ranked, entries, upto, wanted),
{
    lemma_candidates_bounded(entries, upto);
}

/// The room that a ranking of `wanted` entries needs where there are
/// `nodes` nodes: no more than one entry for each node.
pub(crate) fn room_for(wanted: usize, nodes: usize) -> (r: usize)
    ensures
        r == wanted || nodes <= r <= wanted,
        r <= nodes,
{
    if wanted < nodes {
        wanted
    } else {
        nodes
    }
}

/// An empty ranking, to hold the `limit` highest entries.
pub(crate) fn start_ranking(limit: usize, Ghost(entries): Ghost<spec_fn(int) -> Option<Entry>>) -> (top:
    Ranking)
    ensures
        ranking_limit(top) == limit,
        holds_best(ranking_entries(top), limit as nat, entries, 0),
{
    broadcast use vstd::multiset::group_multiset_axioms;

    ranking_new(limit)
}

/// Offers the entry of the next node, if it has one, to the ranking.
pub(crate) fn offer(
    top: &mut Ranking,
    entry: Option<Entry>,
    Ghost(entries): Ghost<spec_fn(int) -> Option<Entry>>,
    Ghost(idx): Ghost<int>,
)
    requires
        0 <= idx,
        holds_best(ranking_entries(*old(top)), ranking_limit(*old(top)), entries, idx),
        entry == entries(idx),
        entry matches Some(e) ==> e.2 == idx,
    ensures
        ranking_limit(*final(top)) == ranking_limit(*old(top)),
        holds_best(ranking_entries(*final(top)), ranking_limit(*final(top)), entries, idx + 1),
{
    let ghost held = ranking_entries(*top);
    let ghost limit = ranking_limit(*top);
    match entry {
        Some(entry) => {
            match ranking_insert(top, entry) {
                None => {
                    proof {
                        lemma_holds_best_room(held, limit, entries, idx, entry);
                    }
                },
                Some(gone) => {
                    proof {
                        lemma_holds_best_full(held, limit, entries, idx, entry, gone);
                    }
                },
            }
        },
        None => {
            proof {
                lemma_holds_best_skip(held, limit, entries, idx);
            }
        },
    }
}

/// What the ranking holds, from the highest down.
pub(crate) fn ranked_down(
    top: Ranking,
    Ghost(entries): Ghost<spec_fn(int) -> Option<Entry>>,
    Ghost(upto): Ghost<int>,
) -> (r: Vec<Entry>)
    requires
        holds_best(ranking_entries(top), ranking_limit(top), entries, upto),
    ensures
        top_ranked(r@, entries, upto, ranking_limit(top)),
{
    let ghost held = ranking_entries(top);
    let ghost limit = ranking_limit(top);
    let results = ranking_into_sorted_vec(top);
    proof {
        lemma_ranked(held, limit, entries, upto, results@);
    }
    let mut out: Vec<Entry> = Vec::new();
    let mut i: usize = results.len();
    while i > 0
        invariant
            i <= results@.len(),
            out@.len() == results@.len() - i,
            forall|j: int| 0 <= j < out@.len() ==> out@[j] == results@[results@.len() - 1 - j],
        decreases i,
    {
        i -= 1;
        out.push(results[i]);
    }
    proof {
        assert forall|y: Entry| is_candidate(entries, upto, y) implies out@.contains(y) || forall|
            i: int,
        | 0 <= i < out@.len() ==> entry_lt(y, #[trigger] out@[i]) by {
            if results@.contains(y) {
                let k = choose|k: int| 0 <= k < results@.len() && results@[k] == y;
                assert(out@[results@.len() - 1 - k] == y);
            } else {
                assert forall|i: int| 0 <= i < out@.len() implies entry_lt(y, #[trigger] out@[i]) by {
                    assert(entry_lt(y, results@[results@.len() - 1 - i]));
                }
            }
        }
        assert forall|i: int| 0 <= i < out@.len() implies is_candidate(
            entries,
            upto,
            #[trigger] out@[i],
        ) by {
            assert(out@[i] == results@[results@.len() - 1 - i]);
        }
        assert forall|i: int, j: int| 0 <= i < j < out@.len() implies entry_lt(
            #[trigger] out@[j],
            #[trigger] out@[i],
        ) by {
            assert(out@[i] == results@[results@.len() - 1 - i]);
            assert(out@[j] == results@[results@.len() - 1 - j]);
        }
    }
    out
}

/// A ranked recipe: what is left of the sell price after the cost, the sell
/// price, the node and the label of the recipe.
#[derive(Debug, Clone, Copy, PartialEq, Eq, Structural)]
pub struct ProfitEntry {
    pub profit: i32,
    pub sell_price: i32,
    pub index: usize,
    pub label: Label,
}

impl ProfitEntry {
    /// The recipe as it is ranked.
    pub open spec fn entry(self) -> Entry {
        (self.profit, self.sell_price, self.index, self.label.key())
    }
}

/// The ranked recipes as they are ranked.
pub open spec fn ranked_entries(ranked: Seq<ProfitEntry>) -> Seq<Entry> {
    Seq::new(ranked.len(), |i: int| ranked[i].entry())
}

/// Ranks the nodes by profit. The entry of a node is made of its sell price
/// and the cheapest of its recipes with at most `max_mixins` substances; a
/// node without such a recipe has none. The result holds the `max_results`
/// highest entries, or all where there are fewer, from the highest down: by
/// profit, then sell price, then node, then label.
pub fn rank_profits(
    labels: &FlatPaths,
    sell_prices: &[u16],
    max_mixins: u8,
    max_results: usize,
) -> (r: Vec<ProfitEntry>)
    requires
        sell_prices@.len() <= labels@.len(),
    ensures
        top_ranked(
            ranked_entries(r@),
            profit_entries(labels@, sell_prices@, max_mixins),
            sell_prices@.len() as int,
            max_results as nat,
        ),
{
    let ghost entries = profit_entries(labels@, sell_prices@, max_mixins);
    let room = room_for(max_results, sell_prices.len());
    let mut top = start_ranking(room, Ghost(entries));
    let mut idx: usize = 0;
    while idx < sell_prices.len()
        invariant
            idx <= sell_prices@.len() <= labels@.len(),
            entries == profit_entries(labels@, sell_prices@, max_mixins),
            ranking_limit(top) == room,
            holds_best(ranking_entries(top), room as nat, entries, idx as int),
        decreases sell_prices@.len() - idx,
    {
        let entry = match best_label(labels.get(idx), max_mixins) {
            Some(best) => {
                let sell_price = sell_prices[idx] as i32;
                let profit = sell_price - best.cost as i32;
                Some((profit, sell_price, idx, best.to_key()))
            },
            None => None,
        };
        offer(&mut top, entry, Ghost(entries), Ghost(idx as int));
        idx += 1;
    }
    let ranked = ranked_down(top, Ghost(entries), Ghost(sell_prices@.len() as int));
    proof {
        lemma_room_for_all(
            ranked@,
            entries,
            sell_prices@.len() as int,
            room as nat,
            max_results as nat,
        );
    }
    let mut out: Vec<ProfitEntry> = Vec::new();
    let mut i: usize = 0;
    while i < ranked.len()
        invariant
            i <= ranked@.len(),
            out@.len() == i,
            entries == profit_entries(labels@, sell_prices@, max_mixins),
            forall|j: int|
                0 <= j < ranked@.len() ==> is_candidate(
                    entries,
                    sell_prices@.len() as int,
                    #[trigger] ranked@[j],
                ),
            forall|j: int| 0 <= j < i ==> (#[trigger] out@[j]).entry() == ranked@[j],
        decreases ranked@.len() - i,
    {
        let (profit, sell_price, index, key) = ranked[i];
        match Label::from_key(key) {
            Some(label) => {
                out.push(ProfitEntry { profit, sell_price, index, label });
            },
            None => {
                proof {
                    assert(is_candidate(entries, sell_prices@.len() as int, ranked@[i as int]));
                    assert(false);
                }
            },
        }
        i += 1;
    }
    proof {
        assert(ranked_entries(out@) =~= ranked@);
    }
    out
}

} // verus!
