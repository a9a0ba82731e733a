//! The variable order: a max-priority queue over variable indices.

use priority_queue::PriorityQueue;
use std::hash::RandomState;
use vstd::prelude::*;

verus! {

/// The type `PriorityQueue` of the crate `priority_queue`. What a queue
/// holds is known only through `queue_entries`.
#[verifier::external_type_specification]
#[verifier::external_body]
#[verifier::reject_recursive_types(I)]
#[verifier::reject_recursive_types(P)]
#[verifier::reject_recursive_types(H)]
pub struct ExPriorityQueue<I, P, H>(PriorityQueue<I, P, H>);

/// A queue of variable indices, each with its priority.
pub type VariableQueue = PriorityQueue<i32, u64, RandomState>;

/// The entries of a queue: each item it holds, with its priority.
pub uninterp spec fn queue_entries(q: VariableQueue) -> Map<i32, u64>;

/// `PriorityQueue::new`: the new queue holds nothing.
#[verifier::external_body]
pub(crate) fn queue_new() -> (q: VariableQueue)
    ensures
        queue_entries(q).dom() == Set::<i32>::empty(),
{
    PriorityQueue::new()
}

/// `PriorityQueue::push`: the item is entered with the given priority, in
/// place of an earlier entry for the same item, whose priority is returned.
#[verifier::external_body]
pub(crate) fn queue_push(q: &mut VariableQueue, item: i32, priority: u64) -> (previous: Option<u64>)
    ensures
        queue_entries(*final(q)) == queue_entries(*old(q)).insert(item, priority),
        previous == (if queue_entries(*old(q)).contains_key(item) {
            Some(queue_entries(*old(q))[item])
        } else {
            None
        }),
{
    q.push(item, priority)
}

/// `PriorityQueue::pop`: an entry of greatest priority leaves the queue and
/// is returned; an empty queue stays empty and gives `None`. Which of several
/// entries of the greatest priority leaves is not said.
#[verifier::external_body]
pub(crate) fn queue_pop(q: &mut VariableQueue) -> (top: Option<(i32, u64)>)
    ensures
        match top {
            Some((item, priority)) => {
                &&& queue_entries(*old(q)).contains_key(item)
                &&& queue_entries(*old(q))[item] == priority
                &&& forall|other: i32| #[trigger]
                    queue_entries(*old(q)).contains_key(other) ==> queue_entries(*old(q))[other]
                        <= priority
                &&& queue_entries(*final(q)) == queue_entries(*old(q)).remove(item)
            },
            None => {
                &&& queue_entries(*old(q)).dom() == Set::<i32>::empty()
                &&& queue_entries(*final(q)) == queue_entries(*old(q))
            },
        },
{
    q.pop()
}

} // verus!
