//! Buffers from which one mutator allocates without asking others.

use vstd::prelude::*;

use super::bitmap::HeapBitmap;
use super::free_list::{biggest_with, lists_with, FreeList, ENTRY_SIZE};
use super::region::HeapOptions;

verus! {

/// A buffer that one mutator allocates from.
#[derive(Clone, Copy, PartialEq, Eq, Debug, Structural)]
pub struct ThreadLocalAllocBuffer {
    pub start: usize,
    pub top: usize,
    pub end: usize,
    pub desired_size: usize,
}

impl ThreadLocalAllocBuffer {
    /// What has been handed out lies in front of what has not.
    pub open spec fn wf(&self) -> bool {
        self.start <= self.top <= self.end
    }

    pub fn new() -> (r: Self)
        ensures
            r == (ThreadLocalAllocBuffer { start: 0, top: 0, end: 0, desired_size: 0 }),
    {
        ThreadLocalAllocBuffer { start: 0, top: 0, end: 0, desired_size: 0 }
    }

    /// Allocates `size` bytes, and notes the object in the table of its region. Returns zero
    /// if there is not enough left.
    pub fn allocate(&mut self, size: usize, bitmap: &mut HeapBitmap<16>) -> (r: usize)
        requires
            old(self).wf(),
            old(self).end - old(self).top >= size ==> old(bitmap).covers(old(self).top as int),
        ensures
            final(self).wf(),
            ({
                let fits = old(self).end - old(self).top >= size;
                &&& r == if fits {
                    old(self).top
                } else {
                    0
                }
                &&& *final(self) == (ThreadLocalAllocBuffer {
                    top: if fits {
                        (old(self).top + size) as usize
                    } else {
                        old(self).top
                    },
                    ..*old(self)
                })
                &&& fits ==> final(bitmap).same_shape(old(bitmap)) && final(bitmap).slots()
                    == old(bitmap).slots().insert(old(bitmap).slot(old(self).top as int))
                &&& !fits ==> *final(bitmap) == *old(bitmap)
            }),
    {
        let obj: usize = self.top;
        if self.end - obj >= size {
            self.top = obj + size;
            bitmap.set_atomic(obj);
            return obj;
        }
        0
    }

    pub fn initialize_(&mut self, start: usize, top: usize, end: usize)
        requires
            start <= top <= end,
        ensures
            final(self).wf(),
            *final(self) == (ThreadLocalAllocBuffer { start, top, end, ..*old(self) }),
    {
        self.start = start;
        self.end = end;
        self.top = top;
    }

    /// An empty buffer, to be given its first piece.
    pub fn initialize(&mut self, opts: &HeapOptions)
        ensures
            *final(self) == (ThreadLocalAllocBuffer {
                start: 0,
                top: 0,
                end: 0,
                desired_size: opts.max_tlab_size,
            }),
    {
        self.initialize_(0, 0, 0);
        self.desired_size = opts.max_tlab_size;
    }

    pub fn end(&self) -> (r: usize)
        ensures
            r == self.end,
    {
        self.end
    }

    /// Gives up the buffer before a cycle. What is left of it becomes free in its region.
    pub fn retire(&mut self, free_list: &mut FreeList)
        requires
            old(self).wf(),
            old(self).end != old(self).top ==> old(free_list).can_add(
                old(self).top,
                (old(self).end - old(self).top) as usize,
            ),
        ensures
            old(self).end == 0 ==> *final(self) == *old(self) && *final(free_list) == *old(free_list),
            old(self).end != 0 ==> {
                &&& *final(self) == (ThreadLocalAllocBuffer {
                    start: 0,
                    top: 0,
                    end: 0,
                    ..*old(self)
                })
                &&& old(self).end == old(self).top ==> *final(free_list) == *old(free_list)
                &&& old(self).end != old(self).top ==> {
                    &&& final(free_list).wf()
                    &&& final(free_list).lists() == lists_with(
                        old(free_list).lists(),
                        old(self).top,
                        (old(self).end - old(self).top) as usize,
                    )
                    &&& final(free_list).biggest() == biggest_with(
                        old(free_list).biggest(),
                        (old(self).end - old(self).top) as usize,
                    )
                    &&& old(self).end - old(self).top >= ENTRY_SIZE ==> {
                        &&& final(free_list).entries() == old(free_list).entries() + 1
                        &&& final(free_list).free_total() == old(free_list).free_total()
                            + old(self).end - old(self).top
                    }
                    &&& old(self).end - old(self).top < ENTRY_SIZE ==> *final(free_list) == *old(free_list)
                }
            },
    {
        if self.end() != 0 {
            if self.end - self.top != 0 {
                free_list.add(self.top, self.end - self.top);
            }
            self.top = 0;
            self.end = 0;
            self.start = 0;
        }
    }
}

/// Objects that are allocated one after the other do not overlap.
pub proof fn lemma_objects_apart(before: ThreadLocalAllocBuffer, size: usize, next: usize)
    requires
        before.wf(),
        before.end - before.top >= size + next,
    ensures
        ({
            let after = ThreadLocalAllocBuffer { top: (before.top + size) as usize, ..before };
            &&& after.wf()
            &&& after.end - after.top >= next
            &&& before.top + size <= after.top
        }),
{
}

} // verus!
