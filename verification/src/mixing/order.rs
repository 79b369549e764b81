//! The order in which the rules of one substance take their turn: the rule
//! that is set off by what another rule must not find waits for that rule,
//! so that a chain of replacements runs to its end in one pass.

use super::parse::RulesError;
use super::Rule;
use topological_sort::TopologicalSort;
use vstd::prelude::*;

verus! {

/// `topological_sort::TopologicalSort`, taken as it is: what it holds is
/// known only by `sort_items` and `sort_links`.
#[verifier::external_type_specification]
#[verifier::external_body]
#[verifier::reject_recursive_types(T)]
pub struct ExTopologicalSort<T>(TopologicalSort<T>);

/// The items that a `TopologicalSort` still holds.
pub uninterp spec fn sort_items(ts: TopologicalSort<u64>) -> Set<u64>;

/// The dependency links among the items that a `TopologicalSort` still holds,
/// each as the pair of the item that goes first and the item that waits.
pub uninterp spec fn sort_links(ts: TopologicalSort<u64>) -> Set<(u64, u64)>;

/// `TopologicalSort::new`: a sort that holds no item and no link.
#[verifier::external_body]
fn sort_new() -> (ts: TopologicalSort<u64>)
    ensures
        sort_items(ts) == Set::<u64>::empty(),
        sort_links(ts) == Set::<(u64, u64)>::empty(),
{
    TopologicalSort::new()
}

/// `TopologicalSort::add_dependency`: both items are held afterwards, and the
/// link from `prec` to `succ` with them.
#[verifier::external_body]
fn sort_add_dependency(ts: &mut TopologicalSort<u64>, prec: u64, succ: u64)
    ensures
        sort_items(*final(ts)) == sort_items(*old(ts)).insert(prec).insert(succ),
        sort_links(*final(ts)) == sort_links(*old(ts)).insert((prec, succ)),
{
    ts.add_dependency(prec, succ);
}

/// `TopologicalSort::pop_batch`: takes out every item that waits for no
/// other item still held, together with the links that start at them, and
/// hands them out, each once, in an order that is open.
#[verifier::external_body]
fn sort_pop_batch(ts: &mut TopologicalSort<u64>) -> (r: Vec<u64>)
    ensures
        batch_taken(
            sort_items(*old(ts)),
            sort_links(*old(ts)),
            sort_items(*final(ts)),
            sort_links(*final(ts)),
            r@,
        ),
{
    ts.pop_batch()
}

/// `slice::sort_unstable`: the same numbers, in rising order.
#[verifier::external_body]
fn sort_numbers(numbers: &mut Vec<u64>)
    ensures
        final(numbers)@.to_multiset() == old(numbers)@.to_multiset(),
        not_falling(final(numbers)@),
{
    numbers.sort_unstable();
}

/// No number is smaller than an earlier one.
pub open spec fn not_falling(q: Seq<u64>) -> bool {
    forall|i: int, j: int| 0 <= i < j < q.len() ==> q[i] <= q[j]
}

/// `TopologicalSort::is_empty`: whether no item is held.
#[verifier::external_body]
fn sort_is_empty(ts: &TopologicalSort<u64>) -> (r: bool)
    ensures
        r <==> forall|x: u64| !sort_items(*ts).contains(x),
{
    ts.is_empty()
}

/// The dependency links of a list of rules: what sets a rule off goes
/// before what the rule must not find.
pub open spec fn rule_links(rules: Seq<Rule>) -> Set<(u64, u64)> {
    Set::new(
        |l: (u64, u64)|
            exists|i: int|
                0 <= i < rules.len() && l == (
                    (#[trigger] rules[i]).if_present@,
                    rules[i].if_not_present@,
                ),
    )
}

/// The effect sets that the dependency links of a list of rules run between.
pub open spec fn rule_nodes(rules: Seq<Rule>) -> Set<u64> {
    Set::new(
        |x: u64|
            exists|i: int|
                0 <= i < rules.len() && ((#[trigger] rules[i]).if_present@ == x
                    || rules[i].if_not_present@ == x),
    )
}

/// Each member of `s` waits for a member of `s`.
#[verifier::opaque]
pub open spec fn all_wait(s: Set<u64>, links: Set<(u64, u64)>) -> bool {
    forall|x: u64| #[trigger]
        s.contains(x) ==> exists|p: u64| s.contains(p) && #[trigger] links.contains((p, x))
}

/// `s` is not empty, and each of its members waits for a member.
pub open spec fn blocked(s: Set<u64>, links: Set<(u64, u64)>) -> bool {
    (exists|x: u64| s.contains(x)) && all_wait(s, links)
}

/// The links run in a circle somewhere.
pub open spec fn has_cycle(links: Set<(u64, u64)>) -> bool {
    exists|s: Set<u64>| blocked(s, links)
}

/// `order` lists each node once, and no node before one it waits for.
pub open spec fn is_topological(order: Seq<u64>, nodes: Set<u64>, links: Set<(u64, u64)>) -> bool {
    &&& order.no_duplicates()
    &&& forall|x: u64| nodes.contains(x) <==> order.contains(x)
    &&& forall|i: int, j: int|
        0 <= i < order.len() && 0 <= j < order.len() && links.contains(
            (#[trigger] order[i], #[trigger] order[j]),
        ) ==> i < j
}

/// The first rule of the list that `trigger` sets off.
pub open spec fn first_with_trigger(rules: Seq<Rule>, trigger: u64) -> Option<Rule>
    decreases rules.len(),
{
    if rules.len() == 0 {
        None
    } else if rules[0].if_present@ == trigger {
        Some(rules[0])
    } else {
        first_with_trigger(rules.drop_first(), trigger)
    }
}

/// For each effect set of `order`, in order, the first rule that it sets off,
/// where there is one.
pub open spec fn arrange(rules: Seq<Rule>, order: Seq<u64>) -> Seq<Rule>
    decreases order.len(),
{
    if order.len() == 0 {
        Seq::empty()
    } else {
        let rest = arrange(rules, order.drop_last());
        match first_with_trigger(rules, order.last()) {
            Some(rule) => rest.push(rule),
            None => rest,
        }
    }
}

/// The first rule that `trigger` sets off, where there is one.
pub fn find_rule(rules: &Vec<Rule>, trigger: u64) -> (r: Option<Rule>)
    ensures
        r == first_with_trigger(rules@, trigger),
{
    let mut i: usize = 0;
    proof {
        assert(rules@.subrange(0, rules.len() as int) == rules@);
    }
    while i < rules.len()
        invariant
            i <= rules.len(),
            first_with_trigger(rules@, trigger) == first_with_trigger(
                rules@.subrange(i as int, rules.len() as int),
                trigger,
            ),
        decreases rules.len() - i,
    {
        proof {
            let rest = rules@.subrange(i as int, rules.len() as int);
            assert(rest[0] == rules[i as int]);
            assert(rest.drop_first() == rules@.subrange(i + 1, rules.len() as int));
        }
        if rules[i].if_present.bits() == trigger {
            return Some(rules[i]);
        }
        i += 1;
    }
    proof {
        assert(rules@.subrange(0, rules.len() as int) == rules@);
    }
    None
}

/// Puts rules into the order that a list of effect sets gives: for each effect
/// set in turn the first rule that it sets off. A rule set off by what an
/// earlier rule is set off by is left out, as is an effect set that sets off
/// no rule.
pub fn arrange_rules(rules: &Vec<Rule>, order: &Vec<u64>) -> (r: Vec<Rule>)
    ensures
        r@ == arrange(rules@, order@),
{
    let mut out: Vec<Rule> = Vec::new();
    let mut i: usize = 0;
    while i < order.len()
        invariant
            i <= order.len(),
            out@ == arrange(rules@, order@.subrange(0, i as int)),
        decreases order.len() - i,
    {
        proof {
            assert(order@.subrange(0, i + 1).drop_last() == order@.subrange(0, i as int));
        }
        match find_rule(rules, order[i]) {
            Some(rule) => {
                out.push(rule);
            },
            None => {},
        }
        i += 1;
    }
    proof {
        assert(order@.subrange(0, i as int) == order@);
    }
    out
}

/// What holds while items are popped: `order` holds what was popped, `items`
/// and `held` what the sort still holds of the nodes and links it began with.
pub closed spec fn popping(
    items: Set<u64>,
    held: Set<(u64, u64)>,
    order: Seq<u64>,
    nodes: Set<u64>,
    links: Set<(u64, u64)>,
) -> bool {
    &&& items.finite()
    &&& order.no_duplicates()
    &&& forall|x: u64| nodes.contains(x) <==> items.contains(x) || order.contains(x)
    &&& forall|x: u64| order.contains(x) ==> !items.contains(x)
    &&& forall|l: (u64, u64)|
        #![trigger held.contains(l)]
        #![trigger links.contains(l)]
        held.contains(l) <==> links.contains(l) && items.contains(l.0)
    &&& forall|i: int, j: int|
        0 <= i < order.len() && 0 <= j < order.len() && links.contains(
            (#[trigger] order[i], #[trigger] order[j]),
        ) ==> i < j
    &&& forall|x: u64, j: int|
        #![trigger items.contains(x), order[j]]
        items.contains(x) && 0 <= j < order.len() ==> !links.contains((x, order[j]))
    &&& forall|s: Set<u64>, x: u64| blocked(s, links) && #[trigger] s.contains(x) ==> items.contains(x)
}

proof fn lemma_popping_start(nodes: Set<u64>, links: Set<(u64, u64)>)
    requires
        nodes.finite(),
        forall|l: (u64, u64)| #[trigger] links.contains(l) ==> nodes.contains(l.0),
        forall|l: (u64, u64)| #[trigger] links.contains(l) ==> nodes.contains(l.1),
    ensures
        popping(nodes, links, Seq::<u64>::empty(), nodes, links),
{
    assert forall|s: Set<u64>, x: u64| blocked(s, links) && #[trigger] s.contains(x) implies nodes.contains(
        x,
    ) by {
        reveal(all_wait);
        let p = choose|p: u64| s.contains(p) && #[trigger] links.contains((p, x));
        assert(links.contains((p, x)));
    }
}

proof fn lemma_popping_step(
    items: Set<u64>,
    held: Set<(u64, u64)>,
    order: Seq<u64>,
    nodes: Set<u64>,
    links: Set<(u64, u64)>,
    x: u64,
    held_after: Set<(u64, u64)>,
)
    requires
        popping(items, held, order, nodes, links),
        items.contains(x),
        forall|p: u64| !held.contains((p, x)),
        forall|l: (u64, u64)| held_after.contains(l) <==> held.contains(l) && l.0 != x,
    ensures
        popping(items.remove(x), held_after, order.push(x), nodes, links),
        items.remove(x).len() < items.len(),
{
    let items2 = items.remove(x);
    let order2 = order.push(x);
    assert(!order.contains(x));
    assert(order2.no_duplicates());
    assert forall|y: u64| nodes.contains(y) <==> items2.contains(y) || order2.contains(y) by {
        if order2.contains(y) {
            let k = choose|k: int| 0 <= k < order2.len() && order2[k] == y;
            if k < order.len() {
                assert(order[k] == y);
                assert(order.contains(y));
            }
        }
        if order.contains(y) {
            let k = choose|k: int| 0 <= k < order.len() && order[k] == y;
            assert(order2[k] == y);
        }
        if y == x {
            assert(order2[order.len() as int] == x);
        }
    }
    assert forall|y: u64| order2.contains(y) implies !items2.contains(y) by {
        let k = choose|k: int| 0 <= k < order2.len() && order2[k] == y;
        if k < order.len() {
            assert(order[k] == y);
            assert(order.contains(y));
        }
    }
    assert forall|p: u64| items.contains(p) implies !links.contains((p, x)) by {
        assert(!held.contains((p, x)));
    }
    assert forall|l: (u64, u64)|
        #![trigger held_after.contains(l)]
        #![trigger links.contains(l)]
        held_after.contains(l) <==> links.contains(l) && items2.contains(l.0) by {
        assert(held.contains(l) <==> links.contains(l) && items.contains(l.0));
    }
    assert forall|i: int, j: int|
        0 <= i < order2.len() && 0 <= j < order2.len() && links.contains(
            (#[trigger] order2[i], #[trigger] order2[j]),
        ) implies i < j by {
        if i < order.len() && j < order.len() {
            assert(order[i] == order2[i]);
            assert(order[j] == order2[j]);
        } else if i == order.len() {
            if j < order.len() {
                assert(order[j] == order2[j]);
                assert(items.contains(x));
            }
        }
    }
    assert forall|y: u64, j: int|
        #![trigger items2.contains(y), order2[j]]
        items2.contains(y) && 0 <= j < order2.len() implies !links.contains((y, order2[j])) by {
        assert(items.contains(y));
        if j < order.len() {
            assert(order[j] == order2[j]);
        }
    }
    assert forall|s: Set<u64>, y: u64| blocked(s, links) && #[trigger] s.contains(y) implies items2.contains(
        y,
    ) by {
        assert(items.contains(y));
        if y == x {
            reveal(all_wait);
            let p = choose|p: u64| s.contains(p) && #[trigger] links.contains((p, x));
            assert(items.contains(p));
        }
    }
    vstd::set::axiom_set_remove_len(items, x);
}

proof fn lemma_popping_end(
    items: Set<u64>,
    held: Set<(u64, u64)>,
    order: Seq<u64>,
    nodes: Set<u64>,
    links: Set<(u64, u64)>,
)
    requires
        popping(items, held, order, nodes, links),
        forall|x: u64| items.contains(x) ==> exists|p: u64| held.contains((p, x)),
    ensures
        (exists|x: u64| items.contains(x)) ==> has_cycle(links),
        (forall|x: u64| !items.contains(x)) ==> !has_cycle(links) && is_topological(
            order,
            nodes,
            links,
        ),
{
    if exists|x: u64| items.contains(x) {
        assert forall|x: u64| #[trigger] items.contains(x) implies exists|p: u64|
            items.contains(p) && #[trigger] links.contains((p, x)) by {
            let p = choose|p: u64| held.contains((p, x));
            assert(held.contains((p, x)));
            assert(links.contains((p, x)) && items.contains(p));
        }
        assert(all_wait(items, links)) by {
            reveal(all_wait);
        }
        assert(blocked(items, links));
    }
    if forall|x: u64| !items.contains(x) {
        assert forall|s: Set<u64>| !blocked(s, links) by {
            if blocked(s, links) {
                let x = choose|x: u64| s.contains(x);
                assert(items.contains(x));
            }
        }
    }
}

proof fn lemma_rule_sets_grow(before: Seq<Rule>, rule: Rule)
    ensures
        rule_nodes(before.push(rule)) == rule_nodes(before).insert(rule.if_present@).insert(
            rule.if_not_present@,
        ),
        rule_links(before.push(rule)) == rule_links(before).insert(
            (rule.if_present@, rule.if_not_present@),
        ),
{
    let after = before.push(rule);
    let n = before.len() as int;
    assert(after[n] == rule);
    assert forall|x: u64|
        rule_nodes(after).contains(x) <==> rule_nodes(before).insert(rule.if_present@).insert(
            rule.if_not_present@,
        ).contains(x) by {
        if rule_nodes(after).contains(x) {
            let k = choose|k: int|
                0 <= k < after.len() && ((#[trigger] after[k]).if_present@ == x
                    || after[k].if_not_present@ == x);
            if k < n {
                assert(before[k] == after[k]);
            }
        }
        if rule_nodes(before).contains(x) {
            let k = choose|k: int|
                0 <= k < before.len() && ((#[trigger] before[k]).if_present@ == x
                    || before[k].if_not_present@ == x);
            assert(after[k] == before[k]);
        }
    }
    assert(rule_nodes(after) =~= rule_nodes(before).insert(rule.if_present@).insert(
        rule.if_not_present@,
    ));
    assert forall|l: (u64, u64)|
        rule_links(after).contains(l) <==> rule_links(before).insert(
            (rule.if_present@, rule.if_not_present@),
        ).contains(l) by {
        if rule_links(after).contains(l) {
            let k = choose|k: int|
                0 <= k < after.len() && l == (
                    (#[trigger] after[k]).if_present@,
                    after[k].if_not_present@,
                );
            if k < n {
                assert(before[k] == after[k]);
            }
        }
        if rule_links(before).contains(l) {
            let k = choose|k: int|
                0 <= k < before.len() && l == (
                    (#[trigger] before[k]).if_present@,
                    before[k].if_not_present@,
                );
            assert(after[k] == before[k]);
        }
    }
    assert(rule_links(after) =~= rule_links(before).insert(
        (rule.if_present@, rule.if_not_present@),
    ));
}

/// Every link of a list of rules runs between two of its nodes.
proof fn lemma_links_between_nodes(rules: Seq<Rule>)
    ensures
        forall|l: (u64, u64)| #[trigger] rule_links(rules).contains(l) ==> rule_nodes(rules).contains(l.0),
        forall|l: (u64, u64)| #[trigger] rule_links(rules).contains(l) ==> rule_nodes(rules).contains(l.1),
{
    assert forall|l: (u64, u64)| #[trigger] rule_links(rules).contains(l) implies rule_nodes(
        rules,
    ).contains(l.0) && rule_nodes(rules).contains(l.1) by {
        let k = choose|k: int|
            0 <= k < rules.len() && l == ((#[trigger] rules[k]).if_present@, rules[k].if_not_present@);
        assert(rules[k].if_present@ == l.0);
    }
}

/// The nodes that wait for no node.
pub open spec fn ready_nodes(nodes: Set<u64>, links: Set<(u64, u64)>) -> Set<u64> {
    Set::new(
        |x: u64|
            nodes.contains(x) && forall|p: u64| nodes.contains(p) ==> !links.contains((p, x)),
    )
}

/// From one number to the next the list rises.
pub open spec fn rising(q: Seq<u64>) -> bool {
    forall|i: int, j: int| 0 <= i < j < q.len() ==> q[i] < q[j]
}

/// `q` lists the members of `s` in rising order.
pub open spec fn lists(q: Seq<u64>, s: Set<u64>) -> bool {
    rising(q) && forall|x: u64| q.contains(x) <==> s.contains(x)
}

/// The members of a set in rising order.
pub open spec fn ascending(s: Set<u64>) -> Seq<u64> {
    choose|q: Seq<u64>| lists(q, s)
}

/// The nodes layer by layer: first the nodes that wait for no node, in rising
/// order, then in the same way what is left without them, until nothing is
/// left or every node that is left waits for another. `fuel` bounds the
/// number of layers.
pub open spec fn layered(nodes: Set<u64>, links: Set<(u64, u64)>, fuel: nat) -> Seq<u64>
    decreases fuel,
{
    if fuel == 0 {
        Seq::empty()
    } else {
        let ready = ready_nodes(nodes, links);
        if ascending(ready).len() == 0 {
            Seq::empty()
        } else {
            ascending(ready) + layered(nodes.difference(ready), links, (fuel - 1) as nat)
        }
    }
}

/// The order in which the nodes of a list of rules have their turn.
pub open spec fn turn_order(rules: Seq<Rule>) -> Seq<u64> {
    layered(rule_nodes(rules), rule_links(rules), 2 * rules.len() + 1)
}

/// Only one list holds the members of a set in rising order.
pub proof fn lemma_lists_unique(a: Seq<u64>, b: Seq<u64>, s: Set<u64>)
    requires
        lists(a, s),
        lists(b, s),
    ensures
        a == b,
    decreases a.len(),
{
    if a.len() == 0 {
        if b.len() > 0 {
            assert(b.contains(b[0]));
            assert(a.contains(b[0]));
        }
        assert(a =~= b);
    } else {
        assert(a.contains(a.last()));
        assert(b.contains(a.last()));
        let top = a.last();
        assert(b.len() > 0);
        assert(b.contains(b.last()));
        assert(a.contains(b.last()));
        let ia = choose|i: int| 0 <= i < a.len() && a[i] == b.last();
        let ib = choose|i: int| 0 <= i < b.len() && b[i] == top;
        assert(b.last() == top) by {
            if ia < a.len() - 1 {
                assert(a[ia] < a[a.len() - 1]);
            }
            if ib < b.len() - 1 {
                assert(b[ib] < b[b.len() - 1]);
            }
        }
        let rest = s.remove(top);
        assert forall|x: u64| a.drop_last().contains(x) <==> rest.contains(x) by {
            if a.drop_last().contains(x) {
                let i = choose|i: int| 0 <= i < a.drop_last().len() && a.drop_last()[i] == x;
                assert(a[i] == x);
                assert(a[i] < a[a.len() - 1]);
                assert(a.contains(x));
            }
            if rest.contains(x) {
                assert(a.contains(x));
                let i = choose|i: int| 0 <= i < a.len() && a[i] == x;
                assert(a.drop_last()[i] == x);
            }
        }
        assert forall|x: u64| b.drop_last().contains(x) <==> rest.contains(x) by {
            if b.drop_last().contains(x) {
                let i = choose|i: int| 0 <= i < b.drop_last().len() && b.drop_last()[i] == x;
                assert(b[i] == x);
                assert(b[i] < b[b.len() - 1]);
                assert(b.contains(x));
            }
            if rest.contains(x) {
                assert(b.contains(x));
                let i = choose|i: int| 0 <= i < b.len() && b[i] == x;
                assert(b.drop_last()[i] == x);
            }
        }
        lemma_lists_unique(a.drop_last(), b.drop_last(), rest);
        assert(a =~= a.drop_last().push(top));
        assert(b =~= b.drop_last().push(top));
    }
}

/// A list that holds the members of a set in rising order is the list of the
/// members in rising order.
pub proof fn lemma_ascending(q: Seq<u64>, s: Set<u64>)
    requires
        lists(q, s),
    ensures
        ascending(s) == q,
{
    lemma_lists_unique(ascending(s), q, s);
}

/// The members of `items` that `batch` does not hold.
pub open spec fn without(items: Set<u64>, batch: Seq<u64>) -> Set<u64> {
    Set::new(|x: u64| items.contains(x) && !batch.contains(x))
}

/// The links of `held` that do not start at a member of `batch`.
pub open spec fn links_without(held: Set<(u64, u64)>, batch: Seq<u64>) -> Set<(u64, u64)> {
    Set::new(|l: (u64, u64)| held.contains(l) && !batch.contains(l.0))
}

/// Taking out a batch of items that wait for no item keeps what holds.
proof fn lemma_popping_batch(
    items: Set<u64>,
    held: Set<(u64, u64)>,
    order: Seq<u64>,
    nodes: Set<u64>,
    links: Set<(u64, u64)>,
    batch: Seq<u64>,
)
    requires
        popping(items, held, order, nodes, links),
        batch.no_duplicates(),
        forall|i: int|
            0 <= i < batch.len() ==> items.contains(#[trigger] batch[i]) && forall|p: u64|
                !held.contains((p, batch[i])),
    ensures
        popping(
            without(items, batch),
            links_without(held, batch),
            order + batch,
            nodes,
            links,
        ),
        without(items, batch).len() == items.len() - batch.len(),
        items.finite(),
    decreases batch.len(),
{
    if batch.len() == 0 {
        assert(without(items, batch) =~= items);
        assert(links_without(held, batch) =~= held);
        assert(order + batch =~= order);
    } else {
        let prefix = batch.drop_last();
        let x = batch.last();
        assert forall|i: int| 0 <= i < prefix.len() implies items.contains(#[trigger] prefix[i])
            && forall|p: u64| !held.contains((p, prefix[i])) by {
            assert(prefix[i] == batch[i]);
        }
        lemma_popping_batch(items, held, order, nodes, links, prefix);
        let items1 = without(items, prefix);
        let held1 = links_without(held, prefix);
        assert(!prefix.contains(x)) by {
            if prefix.contains(x) {
                let i = choose|i: int| 0 <= i < prefix.len() && prefix[i] == x;
                assert(batch[i] == batch[batch.len() - 1]);
            }
        }
        assert(items.contains(batch[batch.len() - 1]));
        assert forall|l: (u64, u64)|
            links_without(held, batch).contains(l) <==> held1.contains(l) && l.0 != x by {
            if batch.contains(l.0) && l.0 != x {
                let i = choose|i: int| 0 <= i < batch.len() && batch[i] == l.0;
                assert(prefix[i] == l.0);
            }
            if prefix.contains(l.0) {
                let i = choose|i: int| 0 <= i < prefix.len() && prefix[i] == l.0;
                assert(batch[i] == l.0);
            }
            if l.0 == x {
                assert(batch[batch.len() - 1] == x);
            }
        }
        lemma_popping_step(
            items1,
            held1,
            order + prefix,
            nodes,
            links,
            x,
            links_without(held, batch),
        );
        assert(without(items, batch) =~= items1.remove(x)) by {
            assert forall|y: u64| without(items, batch).contains(y) <==> items1.remove(x).contains(
                y,
            ) by {
                if batch.contains(y) && y != x {
                    let i = choose|i: int| 0 <= i < batch.len() && batch[i] == y;
                    assert(prefix[i] == y);
                }
                if prefix.contains(y) {
                    let i = choose|i: int| 0 <= i < prefix.len() && prefix[i] == y;
                    assert(batch[i] == y);
                }
                if y == x {
                    assert(batch[batch.len() - 1] == x);
                }
            }
        }
        assert((order + prefix).push(x) =~= order + batch);
        lemma_popping_finite(items1, held1, order + prefix, nodes, links);
        vstd::set::axiom_set_remove_len(items1, x);
    }
}

proof fn lemma_popping_finite(
    items: Set<u64>,
    held: Set<(u64, u64)>,
    order: Seq<u64>,
    nodes: Set<u64>,
    links: Set<(u64, u64)>,
)
    requires
        popping(items, held, order, nodes, links),
    ensures
        items.finite(),
        forall|l: (u64, u64)|
            #![trigger held.contains(l)]
            #![trigger links.contains(l)]
            held.contains(l) <==> links.contains(l) && items.contains(l.0),
{
}

/// Sorting a batch without duplicates gives the list of its members in
/// rising order.
proof fn lemma_sorted_batch(before: Seq<u64>, sorted: Seq<u64>, s: Set<u64>)
    requires
        before.no_duplicates(),
        forall|x: u64| before.contains(x) <==> s.contains(x),
        sorted.to_multiset() == before.to_multiset(),
        not_falling(sorted),
    ensures
        sorted.no_duplicates(),
        sorted.len() == before.len(),
        lists(sorted, s),
        ascending(s) == sorted,
{
    before.lemma_multiset_has_no_duplicates();
    sorted.lemma_multiset_has_no_duplicates_conv();
    before.to_multiset_ensures();
    sorted.to_multiset_ensures();
    assert forall|i: int, j: int| 0 <= i < j < sorted.len() implies sorted[i] < sorted[j] by {
        assert(sorted[i] != sorted[j]);
    }
    assert forall|x: u64| sorted.contains(x) <==> s.contains(x) by {
        assert(sorted.contains(x) <==> sorted.to_multiset().count(x) > 0);
        assert(before.contains(x) <==> before.to_multiset().count(x) > 0);
    }
    lemma_ascending(sorted, s);
}

/// What `TopologicalSort::pop_batch` does: `batch` holds the items that
/// waited for nothing, each once, and they and the links from them are gone.
pub open spec fn batch_taken(
    items: Set<u64>,
    held: Set<(u64, u64)>,
    items_after: Set<u64>,
    held_after: Set<(u64, u64)>,
    batch: Seq<u64>,
) -> bool {
    &&& batch.no_duplicates()
    &&& forall|x: u64|
        batch.contains(x) <==> items.contains(x) && forall|p: u64| !held.contains((p, x))
    &&& forall|x: u64| items_after.contains(x) <==> items.contains(x) && !batch.contains(x)
    &&& forall|l: (u64, u64)| held_after.contains(l) <==> held.contains(l) && !batch.contains(l.0)
}

/// The batch holds the nodes that wait for no node.
proof fn lemma_batch_ready(
    items: Set<u64>,
    held: Set<(u64, u64)>,
    order: Seq<u64>,
    nodes: Set<u64>,
    links: Set<(u64, u64)>,
    batch: Seq<u64>,
)
    requires
        popping(items, held, order, nodes, links),
        forall|x: u64|
            batch.contains(x) <==> items.contains(x) && forall|p: u64| !held.contains((p, x)),
    ensures
        forall|x: u64| batch.contains(x) <==> ready_nodes(items, links).contains(x),
{
    let ready = ready_nodes(items, links);
    assert forall|x: u64| batch.contains(x) <==> ready.contains(x) by {
        if batch.contains(x) {
            assert forall|p: u64| items.contains(p) implies !links.contains((p, x)) by {
                assert(!held.contains((p, x)));
            }
        }
        if ready.contains(x) {
            assert forall|p: u64| !held.contains((p, x)) by {
                if held.contains((p, x)) {
                    assert(links.contains((p, x)) && items.contains(p));
                }
            }
        }
    }
}

/// A round that takes nothing out is the last.
proof fn lemma_round_empty(
    items: Set<u64>,
    held: Set<(u64, u64)>,
    order: Seq<u64>,
    nodes: Set<u64>,
    links: Set<(u64, u64)>,
    items_after: Set<u64>,
    held_after: Set<(u64, u64)>,
    batch: Seq<u64>,
    fuel: nat,
)
    requires
        popping(items, held, order, nodes, links),
        batch_taken(items, held, items_after, held_after, batch),
        batch.len() == 0,
    ensures
        items_after == items,
        held_after == held,
        forall|x: u64| items.contains(x) ==> exists|p: u64| held.contains((p, x)),
        layered(items, links, fuel) == Seq::<u64>::empty(),
{
    lemma_batch_ready(items, held, order, nodes, links, batch);
    assert(lists(batch, ready_nodes(items, links)));
    lemma_ascending(batch, ready_nodes(items, links));
    assert(items_after =~= items);
    assert(held_after =~= held);
    assert forall|x: u64| items.contains(x) implies exists|p: u64| held.contains((p, x)) by {
        assert(!batch.contains(x));
    }
}

/// A round that takes a batch out, sorted, is one layer.
proof fn lemma_round(
    items: Set<u64>,
    held: Set<(u64, u64)>,
    order: Seq<u64>,
    nodes: Set<u64>,
    links: Set<(u64, u64)>,
    items_after: Set<u64>,
    held_after: Set<(u64, u64)>,
    batch: Seq<u64>,
    sorted: Seq<u64>,
    fuel: nat,
)
    requires
        popping(items, held, order, nodes, links),
        batch_taken(items, held, items_after, held_after, batch),
        batch.len() > 0,
        sorted.to_multiset() == batch.to_multiset(),
        not_falling(sorted),
        fuel > 0,
    ensures
        popping(items_after, held_after, order + sorted, nodes, links),
        items.finite(),
        items_after.finite(),
        items_after.len() < items.len(),
        layered(items, links, fuel) == sorted + layered(items_after, links, (fuel - 1) as nat),
{
    let ready = ready_nodes(items, links);
    lemma_batch_ready(items, held, order, nodes, links, batch);
    lemma_sorted_batch(batch, sorted, ready);
    assert forall|x: u64| batch.contains(x) <==> sorted.contains(x) by {
    }
    assert forall|k: int| 0 <= k < sorted.len() implies items.contains(#[trigger] sorted[k])
        && forall|p: u64| !held.contains((p, sorted[k])) by {
        assert(sorted.contains(sorted[k]));
        assert(batch.contains(sorted[k]));
    }
    lemma_popping_batch(items, held, order, nodes, links, sorted);
    assert(items_after =~= without(items, sorted));
    assert(held_after =~= links_without(held, sorted));
    assert(items_after =~= items.difference(ready));
    lemma_popping_finite(items_after, held_after, order + sorted, nodes, links);
}

/// Orders the rules of one substance. What sets a rule off goes before what
/// the rule must not find, so a rule set off by what another rule must not
/// find takes its turn after that rule; among the effect sets that wait for
/// nothing, the smaller mask goes first. Among rules set off by one effect
/// set only the first stays. Rules that wait for each other in a circle are
/// refused.
pub fn order_rules(rules: &Vec<Rule>) -> (r: Result<Vec<Rule>, RulesError>)
    ensures
        r is Err <==> has_cycle(rule_links(rules@)),
        r matches Err(e) ==> e == RulesError::CyclicRules,
        r matches Ok(out) ==> out@ == arrange(rules@, turn_order(rules@)) && is_topological(
            turn_order(rules@),
            rule_nodes(rules@),
            rule_links(rules@),
        ),
{
    let mut ts = sort_new();
    let mut i: usize = 0;
    proof {
        assert(rule_nodes(rules@.subrange(0, 0)) =~= Set::<u64>::empty());
        assert(rule_links(rules@.subrange(0, 0)) =~= Set::<(u64, u64)>::empty());
    }
    while i < rules.len()
        invariant
            i <= rules.len(),
            sort_items(ts) == rule_nodes(rules@.subrange(0, i as int)),
            sort_links(ts) == rule_links(rules@.subrange(0, i as int)),
            sort_items(ts).finite(),
            sort_items(ts).len() <= 2 * i,
        decreases rules.len() - i,
    {
        let rule = rules[i];
        let ghost before = sort_items(ts);
        sort_add_dependency(&mut ts, rule.if_present.bits(), rule.if_not_present.bits());
        proof {
            assert(rules@.subrange(0, i + 1) == rules@.subrange(0, i as int).push(rule));
            lemma_rule_sets_grow(rules@.subrange(0, i as int), rule);
            vstd::set::axiom_set_insert_len(before, rule.if_present@);
            vstd::set::axiom_set_insert_len(before.insert(rule.if_present@), rule.if_not_present@);
        }
        i += 1;
    }
    let ghost nodes = rule_nodes(rules@);
    let ghost links = rule_links(rules@);
    let ghost all = turn_order(rules@);
    let ghost mut fuel: nat = 2 * rules@.len() + 1;
    let mut order: Vec<u64> = Vec::new();
    proof {
        assert(rules@.subrange(0, i as int) == rules@);
        lemma_links_between_nodes(rules@);
        lemma_popping_start(nodes, links);
        assert(Seq::<u64>::empty() + layered(nodes, links, fuel) =~= layered(nodes, links, fuel));
    }
    loop
        invariant
            popping(sort_items(ts), sort_links(ts), order@, nodes, links),
            sort_items(ts).finite(),
            fuel > sort_items(ts).len(),
            all == order@ + layered(sort_items(ts), links, fuel),
        ensures
            popping(sort_items(ts), sort_links(ts), order@, nodes, links),
            forall|x: u64|
                sort_items(ts).contains(x) ==> exists|p: u64| sort_links(ts).contains((p, x)),
            all == order@,
        decreases sort_items(ts).len(),
    {
        let ghost items_before = sort_items(ts);
        let ghost held_before = sort_links(ts);
        let ghost order_before = order@;
        let mut batch = sort_pop_batch(&mut ts);
        let ghost unsorted = batch@;
        if batch.len() == 0 {
            proof {
                lemma_round_empty(
                    items_before,
                    held_before,
                    order_before,
                    nodes,
                    links,
                    sort_items(ts),
                    sort_links(ts),
                    unsorted,
                    fuel,
                );
                assert(order@ + Seq::<u64>::empty() =~= order@);
            }
            break ;
        }
        sort_numbers(&mut batch);
        proof {
            lemma_round(
                items_before,
                held_before,
                order_before,
                nodes,
                links,
                sort_items(ts),
                sort_links(ts),
                unsorted,
                batch@,
                fuel,
            );
            assert((order_before + batch@) + layered(sort_items(ts), links, (fuel - 1) as nat)
                =~= order_before + (batch@ + layered(sort_items(ts), links, (fuel - 1) as nat)));
            fuel = (fuel - 1) as nat;
        }
        let mut k: usize = 0;
        while k < batch.len()
            invariant
                k <= batch@.len(),
                order@ == order_before + batch@.subrange(0, k as int),
            decreases batch@.len() - k,
        {
            order.push(batch[k]);
            proof {
                assert(batch@.subrange(0, k + 1) =~= batch@.subrange(0, k as int).push(
                    batch@[k as int],
                ));
                assert(order@ =~= order_before + batch@.subrange(0, k + 1));
            }
            k += 1;
        }
        proof {
            assert(batch@.subrange(0, batch@.len() as int) =~= batch@);
        }
    }
    proof {
        lemma_popping_end(sort_items(ts), sort_links(ts), order@, nodes, links);
    }
    if !sort_is_empty(&ts) {
        return Err(RulesError::CyclicRules);
    }
    Ok(arrange_rules(rules, &order))
}

} // verus!
