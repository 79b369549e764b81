//! The queue of pending labels: at most one for each node, the smallest first.

use priority_queue::PriorityQueue;
use std::cmp::Reverse;
use vstd::prelude::*;

verus! {

/// `priority_queue::PriorityQueue`, taken as it is: what it holds is known
/// only by `pending_entries`.
#[verifier::external_type_specification]
#[verifier::external_body]
#[verifier::reject_recursive_types(I)]
#[verifier::reject_recursive_types(P)]
#[verifier::reject_recursive_types(H)]
pub struct ExPriorityQueue<I, P, H>(PriorityQueue<I, P, H>);

/// `std::cmp::Reverse`, taken as it is: the queue's priorities are wrapped in
/// it, so that the smallest label has the greatest priority.
#[verifier::external_type_specification]
#[verifier::external_body]
#[verifier::reject_recursive_types(T)]
pub struct ExReverse<T>(Reverse<T>);

/// A label as the queue orders it: length, cost, position of the substance,
/// backlink, compared in this order.
pub type Key = (u8, u16, u8, u32);

/// `a` comes before `b`: the first component in which they differ is smaller
/// in `a`.
pub open spec fn key_lt(a: Key, b: Key) -> bool {
    a.0 < b.0 || (a.0 == b.0 && (a.1 < b.1 || (a.1 == b.1 && (a.2 < b.2 || (a.2 == b.2 && a.3
        < b.3)))))
}

/// The queue: nodes, each with its pending label, the smallest label first.
pub type Pending = PriorityQueue<u32, Reverse<Key>>;

/// The pending label of each node that has one.
pub uninterp spec fn pending_entries(q: Pending) -> Map<u32, Key>;

/// `PriorityQueue::new`: a queue that holds nothing.
#[verifier::external_body]
pub(crate) fn pending_new() -> (queue: Pending)
    ensures
        pending_entries(queue) == (Map::<u32, Key>::empty()),
{
    PriorityQueue::new()
}

/// `PriorityQueue::push`: the node has the given label afterwards, whatever
/// it had before.
#[verifier::external_body]
pub(crate) fn pending_push(q: &mut Pending, node: u32, key: Key)
    ensures
        pending_entries(*final(q)) == pending_entries(*old(q)).insert(node, key),
{
    q.push(node, Reverse(key));
}

/// `PriorityQueue::push_increase` with priorities in reverse order: the node
/// gets the given label where it has none or a larger one, and keeps its
/// label otherwise.
#[verifier::external_body]
pub(crate) fn pending_push_increase(
    q: &mut Pending,
    node: u32,
    key: Key,
)
    ensures
        pending_entries(*final(q)) == if pending_entries(*old(q)).contains_key(node) && !key_lt(
            key,
            pending_entries(*old(q))[node],
        ) {
            pending_entries(*old(q))
        } else {
            pending_entries(*old(q)).insert(node, key)
        },
{
    q.push_increase(node, Reverse(key));
}

/// `PriorityQueue::pop` with priorities in reverse order: takes out a node
/// whose label no other pending label comes before, with its label; `None`,
/// and nothing changed, where nothing is pending.
#[verifier::external_body]
pub(crate) fn pending_pop(q: &mut Pending) -> (r: Option<(u32, Key)>)
    ensures
        match r {
            Some((node, key)) => {
                &&& pending_entries(*old(q)).contains_key(node)
                &&& pending_entries(*old(q))[node] == key
                &&& forall|other: u32|
                    pending_entries(*old(q)).contains_key(other) ==> !key_lt(
                        #[trigger] pending_entries(*old(q))[other],
                        key,
                    )
                &&& pending_entries(*final(q)) == pending_entries(*old(q)).remove(node)
            },
            None => {
                &&& pending_entries(*old(q)) == (Map::<u32, Key>::empty())
                &&& pending_entries(*final(q)) == pending_entries(*old(q))
            },
        },
{
    q.pop().map(|(node, key)| (node, key.0))
}

} // verus!
