//! The priority queue that drives the single-source search: a map from nodes
//! to tentative distances that hands out a node of least distance.

use vstd::prelude::*;
use priority_queue::PriorityQueue;
use std::cmp::Reverse;

verus! {

/// `priority_queue::PriorityQueue`, whose inside the verifier does not see.
#[verifier::external_type_specification]
#[verifier::external_body]
#[verifier::reject_recursive_types(I)]
#[verifier::reject_recursive_types(P)]
#[verifier::reject_recursive_types(H)]
pub struct ExPriorityQueue<I, P, H>(PriorityQueue<I, P, H>);

/// `std::cmp::Reverse`, which turns the order of what it holds round.
#[verifier::external_type_specification]
#[verifier::external_body]
#[verifier::reject_recursive_types(T)]
pub struct ExReverse<T>(Reverse<T>);

/// A queue of nodes, each under one key; the least key is served first.
pub type NodeQueue = PriorityQueue<usize, Reverse<u128>>;

/// The entries of a queue: each queued node with its key.
pub uninterp spec fn queue_entries(q: NodeQueue) -> Map<usize, u128>;

/// No entries at all.
pub open spec fn no_entries() -> Map<usize, u128> {
    Map::empty()
}

/// `PriorityQueue::new`: an empty queue.
#[verifier::external_body]
pub(crate) fn queue_new() -> (queue: NodeQueue)
    ensures
        queue_entries(queue) == no_entries(),
{
    PriorityQueue::new()
}

/// `PriorityQueue::push`: the node is queued under the key, which replaces
/// the key it was queued under before, if any.
#[verifier::external_body]
pub(crate) fn queue_push(q: &mut NodeQueue, node: usize, key: u128)
    ensures
        queue_entries(*final(q)) == queue_entries(*old(q)).insert(node, key),
{
    q.push(node, Reverse(key));
}

/// `PriorityQueue::pop`: nothing from an empty queue; otherwise a queued node
/// whose key no other queued key is below, which leaves the queue.
#[verifier::external_body]
pub(crate) fn queue_pop(q: &mut NodeQueue) -> (r: Option<(usize, u128)>)
    ensures
        match r {
            None => queue_entries(*old(q)) == no_entries() && queue_entries(
                *final(q),
            ) == queue_entries(*old(q)),
            Some((node, key)) => {
                &&& queue_entries(*old(q)).contains_key(node)
                &&& queue_entries(*old(q))[node] == key
                &&& queue_entries(*final(q)) == queue_entries(*old(q)).remove(node)
                &&& forall|other: usize| #[trigger]
                    queue_entries(*old(q)).contains_key(other) ==> key <= queue_entries(
                        *old(q),
                    )[other]
            },
        },
{
    match q.pop() {
        Some((node, Reverse(key))) => Some((node, key)),
        None => None,
    }
}

} // verus!
