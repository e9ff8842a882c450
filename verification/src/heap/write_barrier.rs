//! What mutators have to do before they overwrite a reference while marking goes on beside
//! them.

use vstd::prelude::*;

use super::marking_context::MarkingContext;
use super::thread::{snapshot_barrier, Thread};

verus! {

/// A reference to an object that is told to the collector before it is written to.
#[derive(Clone, Copy, PartialEq, Eq, Debug, Structural)]
pub struct WriteBarrier {
    handle: usize,
}

impl WriteBarrier {
    pub closed spec fn addr(&self) -> usize {
        self.handle
    }

    pub fn new(handle: usize) -> (r: Self)
        ensures
            r.addr() == handle,
    {
        WriteBarrier { handle }
    }

    pub fn handle(&self) -> (r: usize)
        ensures
            r == self.addr(),
    {
        self.handle
    }

    /// The object to write to, once the collector has been told.
    pub fn as_mut_fast(&self, thread: &mut Thread, ctx: &mut MarkingContext) -> (r: usize)
        requires
            old(thread).wf(),
            old(ctx).wf(),
            old(thread).covered(old(ctx)),
            old(ctx).bits().covers(self.addr() as int),
        ensures
            r == self.addr(),
            final(thread).wf(),
            final(ctx).wf(),
            snapshot_barrier(*old(thread), *final(thread), old(ctx), final(ctx), self.addr()),
    {
        thread.raw_write_barrier(ctx, self.handle);
        self.handle
    }
}

} // verus!
