//! The queue of regions that are still to be swept. `crossbeam_queue` provides it.

use crossbeam_queue::SegQueue;
use vstd::prelude::*;

verus! {

/// The queue of `crossbeam_queue`.
#[verifier::external_type_specification]
#[verifier::external_body]
#[verifier::reject_recursive_types(T)]
pub struct ExSegQueue<T>(SegQueue<T>);

/// The items of a queue, the one that leaves first in front.
pub uninterp spec fn queue_items(queue: SegQueue<usize>) -> Seq<usize>;

/// `crossbeam_queue::SegQueue::new`: a queue without items.
#[verifier::external_body]
pub(crate) fn queue_new() -> (r: SegQueue<usize>)
    ensures
        queue_items(r) == Seq::<usize>::empty(),
{
    SegQueue::new()
}

/// `crossbeam_queue::SegQueue::push`: adds an item at the back. The exclusive
/// reference rules out that others use the queue meanwhile.
#[verifier::external_body]
pub(crate) fn queue_push(queue: &mut SegQueue<usize>, item: usize)
    ensures
        queue_items(*final(queue)) == queue_items(*old(queue)).push(item),
{
    queue.push(item)
}

/// `crossbeam_queue::SegQueue::pop`: takes the item at the front, if there is one.
/// The exclusive reference rules out that others use the queue meanwhile.
#[verifier::external_body]
pub(crate) fn queue_pop(queue: &mut SegQueue<usize>) -> (r: Option<usize>)
    ensures
        queue_items(*old(queue)).len() == 0 ==> r is None && queue_items(*final(queue))
            == queue_items(*old(queue)),
        queue_items(*old(queue)).len() > 0 ==> {
            &&& r == Some(queue_items(*old(queue))[0])
            &&& queue_items(*final(queue)) == queue_items(*old(queue)).skip(1)
        },
{
    queue.pop()
}

} // verus!
