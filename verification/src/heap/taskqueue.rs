//! Task queues with a buffer, and a set of task queues of which each thread claims one.

use vstd::prelude::*;

use super::heap::{Heap, GC_CANCELLED};

verus! {

/// A queue of tasks with a buffer for the newest one. Behind the buffer, up to `N` tasks are
/// in a queue and the others on a stack.
pub struct BufferedOverflowTaskQueue<E, const N: usize> {
    queue: Vec<E>,
    overflow: Vec<E>,
    elem: Option<E>,
}

impl<E: Copy, const N: usize> BufferedOverflowTaskQueue<E, N> {
    /// The task in the buffer.
    pub closed spec fn buffered(&self) -> Option<E> {
        self.elem
    }

    /// The tasks in the queue. The last one is popped first.
    pub closed spec fn local(&self) -> Seq<E> {
        self.queue@
    }

    /// The tasks that the queue had no room for. The last one is popped first.
    pub closed spec fn stack(&self) -> Seq<E> {
        self.overflow@
    }

    pub fn new() -> (r: Self)
        ensures
            r.buffered() is None,
            r.local() == Seq::<E>::empty(),
            r.stack() == Seq::<E>::empty(),
    {
        BufferedOverflowTaskQueue { queue: Vec::new(), overflow: Vec::new(), elem: None }
    }

    /// Takes the task in the buffer, else one of the queue, else one of the stack.
    pub fn pop(&mut self) -> (r: Option<E>)
        ensures
            if old(self).buffered() is Some {
                &&& r == old(self).buffered()
                &&& final(self).buffered() is None
                &&& final(self).local() == old(self).local()
                &&& final(self).stack() == old(self).stack()
            } else if old(self).local().len() > 0 {
                &&& r == Some(old(self).local().last())
                &&& final(self).buffered() is None
                &&& final(self).local() == old(self).local().drop_last()
                &&& final(self).stack() == old(self).stack()
            } else if old(self).stack().len() > 0 {
                &&& r == Some(old(self).stack().last())
                &&& final(self).buffered() is None
                &&& final(self).local() == old(self).local()
                &&& final(self).stack() == old(self).stack().drop_last()
            } else {
                r is None && *final(self) == *old(self)
            },
    {
        match self.elem {
            Some(task) => {
                self.elem = None;
                Some(task)
            },
            None => {
                if self.queue.len() > 0 {
                    self.queue.pop()
                } else if self.overflow.len() > 0 {
                    self.overflow.pop()
                } else {
                    None
                }
            },
        }
    }

    /// Puts a task in the buffer. The one that was there goes to the queue, or to the stack
    /// if the queue is full.
    pub fn push(&mut self, task: E) -> (r: bool)
        ensures
            r,
            final(self).buffered() == Some(task),
            old(self).buffered() is None ==> final(self).local() == old(self).local()
                && final(self).stack() == old(self).stack(),
            old(self).buffered() matches Some(earlier) ==> {
                let full = old(self).local().len() >= N;
                &&& final(self).local() == if full {
                    old(self).local()
                } else {
                    old(self).local().push(earlier)
                }
                &&& final(self).stack() == if full {
                    old(self).stack().push(earlier)
                } else {
                    old(self).stack()
                }
            },
    {
        if let Some(earlier) = self.elem {
            if self.queue.len() >= N {
                self.overflow.push(earlier);
            } else {
                self.queue.push(earlier);
            }
        }
        self.elem = Some(task);
        true
    }

    pub fn is_empty(&self) -> (r: bool)
        ensures
            r == (self.buffered() is None && self.local().len() == 0 && self.stack().len() == 0),
    {
        self.elem.is_none() && self.queue.len() == 0 && self.overflow.len() == 0
    }

    /// Drops all tasks.
    pub fn clear(&mut self)
        ensures
            final(self).buffered() is None,
            final(self).local() == Seq::<E>::empty(),
            final(self).stack() == Seq::<E>::empty(),
    {
        self.elem = None;
        self.queue.clear();
        self.overflow.clear();
        assert(self.queue@ =~= Seq::<E>::empty());
        assert(self.overflow@ =~= Seq::<E>::empty());
    }
}

/// Queues that are claimed one after the other.
pub struct ParallelClaimableQueueSet<T> {
    queues: Vec<T>,
    claimed_index: usize,
}

impl<T> ParallelClaimableQueueSet<T> {
    pub closed spec fn view(&self) -> Seq<T> {
        self.queues@
    }

    /// The number of queues that are claimed.
    pub closed spec fn claimed(&self) -> int {
        self.claimed_index as int
    }

    pub closed spec fn wf(&self) -> bool {
        self.claimed_index <= self.queues@.len()
    }

    /// A set of queues of which none is claimed.
    pub fn new(queues: Vec<T>) -> (r: Self)
        ensures
            r.wf(),
            r@ == queues@,
            r.claimed() == 0,
    {
        ParallelClaimableQueueSet { queues, claimed_index: 0 }
    }

    pub fn size(&self) -> (r: usize)
        ensures
            r == self@.len(),
    {
        self.queues.len()
    }

    pub fn queue(&self, queue_num: usize) -> (r: &T)
        requires
            queue_num < self@.len(),
        ensures
            *r == self@[queue_num as int],
    {
        &self.queues[queue_num]
    }

    /// Claims the first queue that nobody has claimed yet.
    pub fn claim_next(&mut self) -> (r: Option<usize>)
        requires
            old(self).wf(),
        ensures
            final(self).wf(),
            final(self)@ == old(self)@,
            r == if old(self).claimed() < old(self)@.len() {
                Some(old(self).claimed() as usize)
            } else {
                None
            },
            final(self).claimed() == old(self).claimed() + if r is Some {
                1int
            } else {
                0
            },
    {
        let size: usize = self.queues.len();
        if self.claimed_index >= size {
            return None;
        }
        let index: usize = self.claimed_index;
        self.claimed_index = index + 1;
        Some(index)
    }

    /// Gives all queues back.
    pub fn clear_claimed(&mut self)
        ensures
            final(self).wf(),
            final(self)@ == old(self)@,
            final(self).claimed() == 0,
    {
        self.claimed_index = 0;
    }
}

/// When workers that are out of work stop waiting for each other.
pub struct GCTerminator {}

impl GCTerminator {
    pub fn should_exit_termination(heap: &Heap) -> (r: bool)
        ensures
            r == (heap.cancelled_gc == GC_CANCELLED),
    {
        heap.cancelled_gc()
    }
}

} // verus!
