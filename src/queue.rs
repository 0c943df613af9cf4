//! The search frontier: `priority_queue::PriorityQueue` holding cell indices,
//! the greatest priority leaving first.
use priority_queue::PriorityQueue;
use std::hash::Hash;
use vstd::prelude::*;

verus! {

#[verifier::external_type_specification]
#[verifier::external_body]
#[verifier::reject_recursive_types(I)]
#[verifier::reject_recursive_types(P)]
#[verifier::reject_recursive_types(H)]
pub struct ExPriorityQueue<I, P, H>(PriorityQueue<I, P, H>) where I: Hash + Eq, P: Ord;

/// What a frontier holds: each item with its priority (the crate keeps items unique).
pub uninterp spec fn queue_entries(q: PriorityQueue<u64, i64>) -> Map<u64, i64>;

/// Relies on `PriorityQueue::new`: the queue starts empty.
#[verifier::external_body]
pub(crate) fn queue_new() -> (r: PriorityQueue<u64, i64>)
    ensures
        queue_entries(r).is_empty(),
{
    PriorityQueue::new()
}

/// Relies on `PriorityQueue::push`: the item is inserted with the priority,
/// or, when already present, has its priority replaced (the heap is restored
/// in either direction).
#[verifier::external_body]
pub(crate) fn queue_push(q: &mut PriorityQueue<u64, i64>, item: u64, priority: i64)
    ensures
        queue_entries(*final(q)) == queue_entries(*old(q)).insert(item, priority),
{
    q.push(item, priority);
}

/// Relies on `PriorityQueue::pop`: `None` on an empty queue, else an item
/// with the greatest priority, which leaves the queue.
#[verifier::external_body]
pub(crate) fn queue_pop(q: &mut PriorityQueue<u64, i64>) -> (r: Option<(u64, i64)>)
    ensures
        r is None <==> queue_entries(*old(q)).is_empty(),
        r is None ==> queue_entries(*final(q)) == queue_entries(*old(q)),
        r matches Some((item, priority)) ==> {
            &&& queue_entries(*old(q)).contains_key(item)
            &&& queue_entries(*old(q))[item] == priority
            &&& forall|k: u64| #[trigger]
                queue_entries(*old(q)).contains_key(k) ==> queue_entries(*old(q))[k] <= priority
            &&& queue_entries(*final(q)) == queue_entries(*old(q)).remove(item)
        },
{
    q.pop()
}

} // verus!
