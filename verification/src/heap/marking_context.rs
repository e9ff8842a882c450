//! What marking works on: the mark bits, the queues of the marking threads and
//! whether marking has been completed.

use vstd::prelude::*;

use super::bitmap::HeapBitmap;
use super::mark::{took, MarkQueueSet, MarkTask};
use super::deque::Taken;
use super::shared_vars::SharedFlag;

verus! {

pub struct MarkingContext {
    mark_bit_map: HeapBitmap<16>,
    is_complete: SharedFlag,
    mark_queues: MarkQueueSet,
}

impl MarkingContext {
    /// The mark bits.
    pub closed spec fn bits(&self) -> HeapBitmap<16> {
        self.mark_bit_map
    }

    /// The queues of the marking threads.
    pub closed spec fn queues(&self) -> MarkQueueSet {
        self.mark_queues
    }

    /// Whether marking has been completed.
    pub closed spec fn complete(&self) -> bool {
        self.is_complete.on()
    }

    pub closed spec fn wf(&self) -> bool {
        &&& self.mark_bit_map.wf()
        &&& self.mark_queues.wf()
        &&& self.is_complete.wf()
    }

    /// Whether the mark bit of an address is set.
    pub open spec fn marked(&self, addr: int) -> bool {
        self.bits().slots().contains(self.bits().slot(addr))
    }

    /// The parts of a context are in order.
    pub proof fn lemma_parts(&self)
        requires
            self.wf(),
        ensures
            self.bits().wf(),
            self.queues().wf(),
    {
    }

    /// A context for the `size` bytes from `start`, with nothing marked, and
    /// `max_queues` empty queues.
    pub fn new(start: usize, size: usize, max_queues: usize) -> (r: Self)
        requires
            size + 127 <= usize::MAX,
            start + size <= usize::MAX,
        ensures
            r.wf(),
            r.bits().start() == start,
            r.bits().end() == start + size,
            r.bits().slots() == Set::<int>::empty(),
            !r.complete(),
            r.queues().views().len() == max_queues,
            r.queues().tasks() == vstd::multiset::Multiset::<u64>::empty(),
    {
        MarkingContext {
            is_complete: SharedFlag::new(),
            mark_bit_map: HeapBitmap::new(start, size),
            mark_queues: MarkQueueSet::new(max_queues),
        }
    }

    pub fn mark_bitmap(&self) -> (r: &HeapBitmap<16>)
        requires
            self.wf(),
        ensures
            *r == self.bits(),
            r.wf(),
    {
        &self.mark_bit_map
    }

    pub fn mark_queues(&self) -> (r: &MarkQueueSet)
        requires
            self.wf(),
        ensures
            *r == self.queues(),
            r.wf(),
    {
        &self.mark_queues
    }

    /// Whether an object is marked.
    pub fn is_marked(&self, obj: usize) -> (r: bool)
        requires
            self.bits().covers(obj as int),
        ensures
            r == self.marked(obj as int),
    {
        self.mark_bit_map.check_bit(obj)
    }

    /// Whether any object of a range is marked.
    pub fn is_marked_range(&self, start: usize, end: usize) -> (r: bool)
        requires
            self.bits().clearable(start as int, end as int),
            self.bits().ordered(start as int, end as int),
        ensures
            r == exists|k: int|
                self.bits().walked(start as int, end as int, k)
                    && #[trigger] self.bits().slots().contains(k),
    {
        self.mark_bit_map.is_marked_range(start, end)
    }

    /// Marks an object. Tells whether this call was the one that marked it.
    pub fn mark(&mut self, obj: usize) -> (r: bool)
        requires
            old(self).wf(),
            old(self).bits().covers(obj as int),
        ensures
            final(self).wf(),
            final(self).bits().same_shape(&old(self).bits()),
            final(self).bits().slots() == old(self).bits().slots().insert(
                old(self).bits().slot(obj as int),
            ),
            final(self).queues() == old(self).queues(),
            final(self).complete() == old(self).complete(),
            r == !old(self).marked(obj as int),
    {
        self.mark_bit_map.atomic_test_and_set(obj)
    }

    /// Marks an object.
    pub fn fetch_mark(&mut self, obj: usize)
        requires
            old(self).wf(),
            old(self).bits().covers(obj as int),
        ensures
            final(self).wf(),
            final(self).bits().same_shape(&old(self).bits()),
            final(self).bits().slots() == old(self).bits().slots().insert(
                old(self).bits().slot(obj as int),
            ),
            final(self).queues() == old(self).queues(),
            final(self).complete() == old(self).complete(),
    {
        self.mark_bit_map.set_bit(obj);
    }

    /// Unmarks an object.
    pub fn unmark(&mut self, obj: usize)
        requires
            old(self).wf(),
            old(self).bits().covers(obj as int),
        ensures
            final(self).wf(),
            final(self).bits().same_shape(&old(self).bits()),
            final(self).bits().slots() == old(self).bits().slots().remove(
                old(self).bits().slot(obj as int),
            ),
            final(self).queues() == old(self).queues(),
            final(self).complete() == old(self).complete(),
    {
        self.mark_bit_map.clear_bit(obj);
    }

    /// Unmarks everything.
    pub fn clear_bitmap_full(&mut self)
        requires
            old(self).wf(),
        ensures
            final(self).wf(),
            final(self).bits().same_shape(&old(self).bits()),
            final(self).bits().slots() == Set::<int>::empty(),
            final(self).queues() == old(self).queues(),
            final(self).complete() == old(self).complete(),
    {
        self.mark_bit_map.clear();
    }

    pub fn is_complete(&self) -> (r: bool)
        ensures
            r == self.complete(),
    {
        self.is_complete.is_set()
    }

    pub fn mark_complete(&mut self)
        requires
            old(self).wf(),
        ensures
            final(self).wf(),
            final(self).complete(),
            final(self).bits() == old(self).bits(),
            final(self).queues() == old(self).queues(),
    {
        self.is_complete.set();
    }

    pub fn mark_uncomplete(&mut self)
        requires
            old(self).wf(),
        ensures
            final(self).wf(),
            !final(self).complete(),
            final(self).bits() == old(self).bits(),
            final(self).queues() == old(self).queues(),
    {
        self.is_complete.unset();
    }

    /// Adds a task to the queue of a marking thread.
    pub fn push(&mut self, id: usize, task: MarkTask)
        requires
            old(self).wf(),
            id < old(self).queues().views().len(),
        ensures
            final(self).wf(),
            final(self).bits() == old(self).bits(),
            final(self).complete() == old(self).complete(),
            final(self).queues().views().len() == old(self).queues().views().len(),
            final(self).queues().tasks() == old(self).queues().tasks().insert(task.word()),
    {
        self.mark_queues.push(id, task);
    }

    /// Adds a task to the queue that all marking threads share.
    pub fn inject(&mut self, task: MarkTask)
        requires
            old(self).wf(),
        ensures
            final(self).wf(),
            final(self).bits() == old(self).bits(),
            final(self).complete() == old(self).complete(),
            final(self).queues().views() == old(self).queues().views(),
            final(self).queues().tasks() == old(self).queues().tasks().insert(task.word()),
    {
        self.mark_queues.inject(task);
    }

    /// Takes a task for a marking thread: one of its own, else one of the queue
    /// that all share, else one of another thread.
    pub fn take(&mut self, id: usize) -> (r: Taken)
        requires
            old(self).wf(),
            id < old(self).queues().views().len(),
            2 * old(self).queues().views().len() <= usize::MAX,
        ensures
            final(self).wf(),
            final(self).bits() == old(self).bits(),
            final(self).complete() == old(self).complete(),
            final(self).queues().views().len() == old(self).queues().views().len(),
            took(
                old(self).queues().views(),
                old(self).queues().shared(),
                final(self).queues().views(),
                final(self).queues().shared(),
                id as int,
                r,
            ),
            r matches Taken::Task(task) ==> old(self).queues().tasks().contains(task)
                && final(self).queues().tasks() == old(self).queues().tasks().remove(task),
            !(r is Task) ==> final(self).queues().tasks() == old(self).queues().tasks(),
            r is Empty ==> {
                let v = old(self).queues().views()[id as int];
                v.local.len() == 0 && v.worker.len() == 0 && old(self).queues().shared().len() == 0
            },
            old(self).queues().tasks() == vstd::multiset::Multiset::<u64>::empty() ==> r is Empty,
    {
        self.mark_queues.take(id)
    }
}

} // verus!
