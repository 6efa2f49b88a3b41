//! The open set of the search: a priority queue of node handles, each with
//! its estimated total cost.  The queue is the `priority_queue` crate's; this
//! module states what the search relies on.

use vstd::prelude::*;
use std::cmp::Reverse;
use priority_queue::PriorityQueue;

verus! {

/// The `priority_queue` crate's queue.  Nothing is known of what is inside
/// one but what the functions below state.
#[verifier::external_type_specification]
#[verifier::external_body]
#[verifier::reject_recursive_types(I)]
#[verifier::reject_recursive_types(P)]
#[verifier::reject_recursive_types(H)]
pub struct ExPriorityQueue<I, P, H>(PriorityQueue<I, P, H>);

/// `std::cmp::Reverse`, which orders its values the other way round.  The
/// queue is keyed by it, so that the least estimate leaves first.
#[verifier::external_type_specification]
#[verifier::external_body]
#[verifier::reject_recursive_types(T)]
pub struct ExReverse<T>(Reverse<T>);

/// What a queue holds: each handle in it, with the estimate it was last
/// pushed with.
pub uninterp spec fn frontier_entries(q: PriorityQueue<usize, Reverse<u32>>) -> Map<usize, u32>;

/// `PriorityQueue::new`: a queue that holds nothing.
#[verifier::external_body]
pub(crate) fn frontier_new() -> (q: PriorityQueue<usize, Reverse<u32>>)
    ensures
        (frontier_entries(q) == Map::<usize, u32>::empty()),
{
    PriorityQueue::new()
}

/// `PriorityQueue::is_empty`: whether the queue holds no handle.
#[verifier::external_body]
pub(crate) fn frontier_is_empty(q: &PriorityQueue<usize, Reverse<u32>>) -> (empty: bool)
    ensures
        empty <==> forall|handle: usize| !frontier_entries(*q).contains_key(handle),
{
    q.is_empty()
}

/// `PriorityQueue::push`: puts `handle` into the queue with `estimate`, or,
/// if the queue holds it already, gives it that estimate in place of the one
/// it had.  The result is the estimate that was replaced, if any.
#[verifier::external_body]
pub(crate) fn frontier_push(
    q: &mut PriorityQueue<usize, Reverse<u32>>,
    handle: usize,
    estimate: u32,
) -> (replaced: Option<u32>)
    ensures
        frontier_entries(*final(q)) == frontier_entries(*old(q)).insert(handle, estimate),
        frontier_entries(*old(q)).contains_key(handle) ==> replaced == Some(
            frontier_entries(*old(q))[handle],
        ),
        !frontier_entries(*old(q)).contains_key(handle) ==> replaced is None,
{
    match q.push(handle, Reverse(estimate)) {
        Some(before) => Some(before.0),
        None => None,
    }
}

/// `PriorityQueue::get`: the estimate that `handle` is in the queue with, if
/// it is there.  The queue is left as it was.
#[verifier::external_body]
pub(crate) fn frontier_get(q: &PriorityQueue<usize, Reverse<u32>>, handle: usize) -> (found: Option<
    u32,
>)
    ensures
        frontier_entries(*q).contains_key(handle) ==> found == Some(frontier_entries(*q)[handle]),
        !frontier_entries(*q).contains_key(handle) ==> found is None,
{
    match q.get(&handle) {
        Some(entry) => Some((entry.1).0),
        None => None,
    }
}

/// `PriorityQueue::pop` on a queue ordered by `Reverse`: takes out a handle
/// whose estimate is the least in the queue and returns both.  Which of
/// several handles with the least estimate leaves is not said.  An empty
/// queue gives `None` and stays empty.
#[verifier::external_body]
pub(crate) fn frontier_pop(q: &mut PriorityQueue<usize, Reverse<u32>>) -> (least: Option<
    (usize, u32),
>)
    ensures
        least is None ==> frontier_entries(*final(q)) == frontier_entries(*old(q)),
        least is None ==> forall|handle: usize| !frontier_entries(*old(q)).contains_key(handle),
        least matches Some(e) ==> frontier_entries(*old(q)).contains_key(e.0)
            && frontier_entries(*old(q))[e.0] == e.1,
        least matches Some(e) ==> forall|handle: usize|
            frontier_entries(*old(q)).contains_key(handle) ==> e.1 <= #[trigger] frontier_entries(
                *old(q),
            )[handle],
        least matches Some(e) ==> frontier_entries(*final(q)) == frontier_entries(*old(q)).remove(
            e.0,
        ),
{
    match q.pop() {
        Some(entry) => Some((entry.0, (entry.1).0)),
        None => None,
    }
}

} // verus!
