//! Threads that allocate and change objects.

use vstd::multiset::Multiset;
use vstd::prelude::*;

use super::bitmap::{rounded_up, HeapBitmap};
use super::mark::MarkTask;
use super::marking_context::MarkingContext;
use super::region::HeapOptions;
use super::tlab::ThreadLocalAllocBuffer;
use super::{align_usize, AllocRequest, AllocType};
use crate::base::stack::StackBounds;

verus! {

/// How a thread takes part in stopping the world.
#[derive(Clone, Copy, PartialEq, Eq, Debug, Structural)]
pub enum ThreadState {
    /// The thread runs code that polls for synchronization events.
    Managed,
    /// The thread runs code that cannot change objects, and is ignored until it comes back.
    Unmanaged,
}

/// The thread runs code that has to be stopped for a cycle.
pub const GC_STATE_UNSAFE: i8 = 0;

/// The thread collects, or waits until a cycle is over.
pub const GC_STATE_WAITING: i8 = 1;

/// The thread runs code that can run beside a cycle.
pub const GC_STATE_SAFE: i8 = 2;

/// The size of what an object starts with.
pub const HEADER_SIZE: usize = 8;

/// There is no memory for an object of this size.
#[derive(Clone, Copy, PartialEq, Eq, Debug, Structural)]
pub struct OOM(pub usize);

/// What an allocation comes to, or needs next.
#[derive(Clone, Copy, PartialEq, Eq, Debug, Structural)]
pub enum RawStep {
    /// The object is at this address.
    Done { addr: usize },
    /// The local buffer is retired, and a new one is asked for.
    Refill,
    /// The object is allocated on its own.
    Outside,
}

/// A thread that allocates and changes objects.
pub struct Thread {
    pub id: u64,
    pub tlab: ThreadLocalAllocBuffer,
    /// The recorded objects. They fill the buffer from its end to its start.
    pub buffer: Vec<usize>,
    /// The first recorded object.
    pub index: usize,
    pub cm_in_progress: bool,
    pub max_tlab_size: usize,
    pub stack: StackBounds,
    pub last_sp: usize,
    pub gc_state: i8,
    pub registered: bool,
}

/// What mutators tell the collector of while marking goes on beside them.
#[derive(Clone, Copy, PartialEq, Eq, Debug, Structural)]
pub enum BarrierMode {
    /// Objects that are not marked, as they were when marking started.
    Satb,
    /// Marked objects that are written to: they are marked anew.
    IncrementalUpdate,
    /// Nothing.
    Passive,
}

/// What telling the collector of an object does that may not be marked: while marking goes on,
/// such an object is recorded. If the buffer is full, it is flushed first.
pub open spec fn snapshot_barrier(
    before: Thread,
    after: Thread,
    ctx: &MarkingContext,
    ctx_after: &MarkingContext,
    obj: usize,
) -> bool {
    let records = before.cm_in_progress && !ctx.marked(obj as int);
    let full = before.index == 0;
    &&& after == (Thread { buffer: after.buffer, index: after.index, ..before })
    &&& !records ==> after == before && *ctx_after == *ctx
    &&& records && !full ==> {
        &&& after.queue() == seq![obj] + before.queue()
        &&& *ctx_after == *ctx
    }
    &&& records && full ==> {
        &&& after.queue() == seq![obj]
        &&& ctx_after.bits() == ctx.bits()
        &&& ctx_after.complete() == ctx.complete()
        &&& ctx_after.queues().views() == ctx.queues().views()
        &&& ctx_after.queues().tasks() == flushed_tasks(
            &ctx.bits(),
            ctx.queues().tasks(),
            before.queue(),
        )
    }
    &&& records ==> after.queue().contains(obj)
}

/// What telling the collector of a marked object does in the mode of incremental update: while
/// marking goes on, the object is unmarked and recorded. If the buffer is full, it is
/// flushed first.
pub open spec fn incremental_barrier(
    before: Thread,
    after: Thread,
    ctx: &MarkingContext,
    ctx_after: &MarkingContext,
    obj: usize,
) -> bool {
    let records = before.cm_in_progress && ctx.marked(obj as int);
    let full = before.index == 0;
    &&& after == (Thread { buffer: after.buffer, index: after.index, ..before })
    &&& !records ==> after == before && *ctx_after == *ctx
    &&& records ==> {
        &&& ctx_after.bits().same_shape(&ctx.bits())
        &&& ctx_after.bits().slots() == ctx.bits().slots().remove(ctx.bits().slot(obj as int))
        &&& ctx_after.complete() == ctx.complete()
        &&& ctx_after.queues().views() == ctx.queues().views()
        &&& after.queue() == if full {
            seq![obj]
        } else {
            seq![obj] + before.queue()
        }
        &&& ctx_after.queues().tasks() == if full {
            recorded_tasks(ctx.queues().tasks(), before.queue())
        } else {
            ctx.queues().tasks()
        }
    }
}

/// The tasks after all recorded objects have been flushed: there is one for each of them.
pub open spec fn recorded_tasks(tasks: Multiset<u64>, list: Seq<usize>) -> Multiset<u64>
    decreases list.len(),
{
    if list.len() == 0 {
        tasks
    } else {
        recorded_tasks(tasks, list.drop_last()).insert(
            MarkTask::oop_word(list.last() as u64, false, false),
        )
    }
}

/// The bytes that an object takes, with `length` items of `item_size` bytes.
pub fn object_size(size: usize, item_size: usize, length: usize) -> (r: usize)
    requires
        size + HEADER_SIZE + item_size * length + 16 <= usize::MAX,
    ensures
        r == rounded_up(size + HEADER_SIZE + item_size * length, 16),
{
    assert(0 <= item_size * length) by (nonlinear_arith);
    align_usize(size + HEADER_SIZE + item_size * length, 16)
}

/// The tasks after recorded objects have been flushed: there is one for each of them that
/// is not marked.
pub open spec fn flushed_tasks(
    bits: &HeapBitmap<16>,
    tasks: Multiset<u64>,
    list: Seq<usize>,
) -> Multiset<u64>
    decreases list.len(),
{
    if list.len() == 0 {
        tasks
    } else {
        let rest = flushed_tasks(bits, tasks, list.drop_last());
        if bits.slots().contains(bits.slot(list.last() as int)) {
            rest
        } else {
            rest.insert(MarkTask::oop_word(list.last() as u64, false, false))
        }
    }
}

impl Thread {
    /// The recorded objects.
    pub open spec fn queue(&self) -> Seq<usize> {
        self.buffer@.skip(self.index as int)
    }

    pub open spec fn wf(&self) -> bool {
        &&& self.index <= self.buffer@.len()
        &&& self.buffer@.len() > 0
    }

    /// Every recorded object has a mark bit.
    pub open spec fn covered(&self, ctx: &MarkingContext) -> bool {
        forall|k: int|
            0 <= k < self.queue().len() ==> ctx.bits().covers((#[trigger] self.queue()[k]) as int)
    }

    /// A thread that takes part. `mark_in_progress` says whether marking goes on beside the
    /// mutators.
    pub fn register(
        id: u64,
        opts: &HeapOptions,
        stack: StackBounds,
        sp: usize,
        mark_in_progress: bool,
    ) -> (r: Self)
        requires
            opts.max_satb_buffer_size > 0,
        ensures
            r.wf(),
            r.id == id,
            r.tlab == (ThreadLocalAllocBuffer { start: 0, top: 0, end: 0, desired_size: 0 }),
            r.queue() == Seq::<usize>::empty(),
            r.buffer@.len() == opts.max_satb_buffer_size,
            r.cm_in_progress == mark_in_progress,
            r.max_tlab_size == if opts.tlab_size > 0 {
                opts.tlab_size
            } else {
                opts.max_tlab_size
            },
            r.stack == stack,
            r.last_sp == sp - sp % 8,
            r.gc_state == GC_STATE_UNSAFE,
            r.registered,
    {
        let buffer: Vec<usize> = vec![0usize; opts.max_satb_buffer_size];
        let r = Thread {
            id,
            tlab: ThreadLocalAllocBuffer::new(),
            index: opts.max_satb_buffer_size,
            buffer,
            cm_in_progress: mark_in_progress,
            max_tlab_size: if opts.tlab_size > 0 {
                opts.tlab_size
            } else {
                opts.max_tlab_size
            },
            stack,
            last_sp: sp - sp % 8,
            gc_state: GC_STATE_UNSAFE,
            registered: true,
        };
        assert(r.queue() =~= Seq::<usize>::empty());
        r
    }

    pub fn is_registered(&self) -> (r: bool)
        ensures
            r == self.registered,
    {
        self.registered
    }

    /// Allocates in the local buffer, or returns zero if it has no room.
    pub fn alloc_inside_tlab_fast(&mut self, size: usize, bitmap: &mut HeapBitmap<16>) -> (r: usize)
        requires
            old(self).tlab.wf(),
            old(self).tlab.end - old(self).tlab.top >= size ==> old(bitmap).covers(
                old(self).tlab.top as int,
            ),
        ensures
            final(self).tlab.wf(),
            ({
                let t = old(self).tlab;
                let fits = t.end - t.top >= size;
                &&& r == if fits {
                    t.top
                } else {
                    0
                }
                &&& *final(self) == (Thread {
                    tlab: ThreadLocalAllocBuffer {
                        top: if fits {
                            (t.top + size) as usize
                        } else {
                            t.top
                        },
                        ..t
                    },
                    ..*old(self)
                })
                &&& fits ==> final(bitmap).same_shape(old(bitmap)) && final(bitmap).slots()
                    == old(bitmap).slots().insert(old(bitmap).slot(t.top as int))
                &&& !fits ==> *final(bitmap) == *old(bitmap)
            }),
    {
        self.tlab.allocate(size, bitmap)
    }

    /// The way an allocation goes that the local buffer has no room for.
    pub fn allocate_slow(&self, size: usize) -> (r: RawStep)
        requires
            self.registered,
        ensures
            r == self.slow_path(size),
    {
        if size > self.max_tlab_size {
            RawStep::Outside
        } else {
            RawStep::Refill
        }
    }

    /// The way an allocation goes that the local buffer has no room for.
    pub open spec fn slow_path(&self, size: usize) -> RawStep {
        if size > self.max_tlab_size {
            RawStep::Outside
        } else {
            RawStep::Refill
        }
    }

    /// Starts an allocation: it comes from the local buffer, if there is room.
    pub fn allocate_raw(&mut self, size: usize, bitmap: &mut HeapBitmap<16>) -> (r: RawStep)
        requires
            old(self).registered,
            old(self).tlab.wf(),
            old(self).tlab.end - old(self).tlab.top >= size ==> old(bitmap).covers(
                old(self).tlab.top as int,
            ),
        ensures
            final(self).tlab.wf(),
            ({
                let t = old(self).tlab;
                let fits = t.end - t.top >= size;
                &&& r == if fits && t.top != 0 {
                    RawStep::Done { addr: t.top }
                } else {
                    old(self).slow_path(size)
                }
                &&& *final(self) == (Thread {
                    tlab: ThreadLocalAllocBuffer {
                        top: if fits {
                            (t.top + size) as usize
                        } else {
                            t.top
                        },
                        ..t
                    },
                    ..*old(self)
                })
                &&& fits ==> final(bitmap).same_shape(old(bitmap)) && final(bitmap).slots()
                    == old(bitmap).slots().insert(old(bitmap).slot(t.top as int))
                &&& !fits ==> *final(bitmap) == *old(bitmap)
            }),
    {
        let mem: usize = self.alloc_inside_tlab_fast(size, bitmap);
        if mem != 0 {
            return RawStep::Done { addr: mem };
        }
        self.allocate_slow(size)
    }

    /// Goes on with an allocation when a local buffer was asked for and `actual` bytes at
    /// `mem` came back, or nothing: the object is the first of the buffer, or it is
    /// allocated on its own.
    pub fn alloc_inside_tlab_slow(
        &mut self,
        mem: usize,
        actual: usize,
        size: usize,
        bitmap: &mut HeapBitmap<16>,
    ) -> (r: RawStep)
        requires
            mem != 0 ==> size <= actual && mem + actual <= usize::MAX && old(bitmap).covers(
                mem as int,
            ),
        ensures
            mem == 0 ==> r == RawStep::Outside && *final(self) == *old(self) && *final(bitmap)
                == *old(bitmap),
            mem != 0 ==> {
                &&& r == (RawStep::Done { addr: mem })
                &&& *final(self) == (Thread {
                    tlab: ThreadLocalAllocBuffer {
                        start: mem,
                        top: (mem + size) as usize,
                        end: (mem + actual) as usize,
                        ..old(self).tlab
                    },
                    ..*old(self)
                })
                &&& final(bitmap).same_shape(old(bitmap))
                &&& final(bitmap).slots() == old(bitmap).slots().insert(
                    old(bitmap).slot(mem as int),
                )
            },
    {
        if mem == 0 {
            return RawStep::Outside;
        }
        self.refill_tlab(mem, actual, size, bitmap);
        RawStep::Done { addr: mem }
    }

    /// Ends an allocation of an object on its own for which `mem` came back, or nothing.
    pub fn allocate_outside_tlab(mem: usize, size: usize) -> (r: Result<usize, OOM>)
        ensures
            r == if mem == 0 {
                Err::<usize, OOM>(OOM(size))
            } else {
                Ok::<usize, OOM>(mem)
            },
    {
        if mem == 0 {
            return Err(OOM(size));
        }
        Ok(mem)
    }

    /// The request for an object on its own.
    pub fn shared_request(size: usize) -> (r: AllocRequest)
        ensures
            r.spec_type() == AllocType::Shared,
            r.spec_min_size() == size,
            r.spec_size() == size,
    {
        AllocRequest::new(AllocType::Shared, size, size)
    }

    /// The request for a local buffer.
    pub fn tlab_request(&self, opts: &HeapOptions) -> (r: AllocRequest)
        ensures
            r.spec_type() == AllocType::ForLAB,
            r.spec_min_size() == opts.min_tlab_size,
            r.spec_size() == self.max_tlab_size,
    {
        AllocRequest::new(AllocType::ForLAB, opts.min_tlab_size, self.max_tlab_size)
    }

    /// Takes over a local buffer of `actual` bytes at `mem`, the first `size` of which are
    /// the object that it was asked for.
    pub fn refill_tlab(
        &mut self,
        mem: usize,
        actual: usize,
        size: usize,
        bitmap: &mut HeapBitmap<16>,
    )
        requires
            size <= actual,
            mem + actual <= usize::MAX,
            old(bitmap).covers(mem as int),
        ensures
            *final(self) == (Thread {
                tlab: ThreadLocalAllocBuffer {
                    start: mem,
                    top: (mem + size) as usize,
                    end: (mem + actual) as usize,
                    ..old(self).tlab
                },
                ..*old(self)
            }),
            final(bitmap).same_shape(old(bitmap)),
            final(bitmap).slots() == old(bitmap).slots().insert(old(bitmap).slot(mem as int)),
    {
        self.tlab.initialize_(mem, mem + size, mem + actual);
        bitmap.set_atomic(mem);
    }

    pub fn toggle_write_barrier(&mut self, value: bool)
        ensures
            *final(self) == (Thread { cm_in_progress: value, ..*old(self) }),
    {
        self.cm_in_progress = value;
    }

    /// Drops all recorded objects, and stops recording.
    pub fn cancel_marking(&mut self)
        requires
            old(self).wf(),
        ensures
            final(self).wf(),
            final(self).queue() == Seq::<usize>::empty(),
            !final(self).cm_in_progress,
            *final(self) == (Thread {
                index: final(self).index,
                cm_in_progress: false,
                ..*old(self)
            }),
    {
        self.index = self.buffer.len();
        self.cm_in_progress = false;
        assert(self.queue() =~= Seq::<usize>::empty());
    }

    /// Records an object if there is room.
    fn try_enqueue(&mut self, obj: usize) -> (r: bool)
        requires
            old(self).wf(),
        ensures
            final(self).wf(),
            r == (old(self).index > 0),
            r ==> final(self).queue() == seq![obj] + old(self).queue(),
            !r ==> *final(self) == *old(self),
            *final(self) == (Thread {
                buffer: final(self).buffer,
                index: final(self).index,
                ..*old(self)
            }),
            final(self).buffer@.len() == old(self).buffer@.len(),
    {
        if self.index == 0 {
            return false;
        }
        let ghost before = self.queue();
        let at: usize = self.index - 1;
        self.buffer.set(at, obj);
        self.index = at;
        assert(self.queue() =~= seq![obj] + before);
        true
    }

    /// Tells the collector of an object before a reference in it is overwritten. While
    /// marking goes on beside the mutators, an object that is not marked is recorded. If the
    /// buffer is full, it is flushed first.
    pub fn raw_write_barrier(&mut self, ctx: &mut MarkingContext, obj: usize)
        requires
            old(self).wf(),
            old(ctx).wf(),
            old(self).covered(old(ctx)),
            old(ctx).bits().covers(obj as int),
        ensures
            final(self).wf(),
            final(ctx).wf(),
            snapshot_barrier(*old(self), *final(self), old(ctx), final(ctx), obj),
    {
        if self.cm_in_progress {
            if !ctx.is_marked(obj) {
                if !self.try_enqueue(obj) {
                    self.flush_ssb(ctx);
                    let ghost empty = self.queue();
                    let recorded: bool = self.try_enqueue(obj);
                    assert(seq![obj] + empty =~= seq![obj]);
                }
                assert(self.queue()[0] == obj);
            }
        }
    }

    /// Tells the collector of an object that is written to while marking goes on beside the
    /// mutators, in the mode of incremental update. An object that is marked is unmarked and
    /// recorded, so that its references are followed again. If the buffer is full, it is
    /// flushed first.
    pub fn incremental_write_barrier(&mut self, ctx: &mut MarkingContext, obj: usize)
        requires
            old(self).wf(),
            old(ctx).wf(),
            old(ctx).bits().covers(obj as int),
        ensures
            final(self).wf(),
            final(ctx).wf(),
            incremental_barrier(*old(self), *final(self), old(ctx), final(ctx), obj),
    {
        if self.cm_in_progress {
            if ctx.is_marked(obj) {
                ctx.unmark(obj);
                if !self.try_enqueue(obj) {
                    self.flush_ssb_all(ctx);
                    let ghost empty = self.queue();
                    let recorded: bool = self.try_enqueue(obj);
                    assert(seq![obj] + empty =~= seq![obj]);
                }
            }
        }
    }

    /// Tells the collector of an object before a reference in it is overwritten, in one of
    /// the modes.
    pub fn write_barrier(&mut self, mode: BarrierMode, ctx: &mut MarkingContext, obj: usize)
        requires
            old(self).wf(),
            old(ctx).wf(),
            old(self).covered(old(ctx)),
            old(ctx).bits().covers(obj as int),
        ensures
            final(self).wf(),
            final(ctx).wf(),
            match mode {
                BarrierMode::Satb => snapshot_barrier(
                    *old(self),
                    *final(self),
                    old(ctx),
                    final(ctx),
                    obj,
                ),
                BarrierMode::IncrementalUpdate => incremental_barrier(
                    *old(self),
                    *final(self),
                    old(ctx),
                    final(ctx),
                    obj,
                ),
                BarrierMode::Passive => *final(self) == *old(self) && *final(ctx) == *old(ctx),
            },
    {
        match mode {
            BarrierMode::Satb => self.raw_write_barrier(ctx, obj),
            BarrierMode::IncrementalUpdate => self.incremental_write_barrier(ctx, obj),
            BarrierMode::Passive => {},
        }
    }

    /// Hands all recorded objects to the collector, marked or not.
    pub fn flush_ssb_all(&mut self, ctx: &mut MarkingContext)
        requires
            old(self).wf(),
            old(ctx).wf(),
        ensures
            final(self).wf(),
            final(self).queue() == Seq::<usize>::empty(),
            final(self).index > 0,
            *final(self) == (Thread { index: final(self).index, ..*old(self) }),
            final(ctx).wf(),
            final(ctx).bits() == old(ctx).bits(),
            final(ctx).complete() == old(ctx).complete(),
            final(ctx).queues().views() == old(ctx).queues().views(),
            final(ctx).queues().tasks() == recorded_tasks(
                old(ctx).queues().tasks(),
                old(self).queue(),
            ),
    {
        let ghost tasks = ctx.queues().tasks();
        let ghost list = self.queue();
        let ghost before = *ctx;
        let mut i: usize = self.index;
        assert(list.take(0).len() == 0);
        while i < self.buffer.len()
            invariant
                self.index <= i <= self.buffer@.len(),
                list == self.queue(),
                ctx.wf(),
                ctx.bits() == before.bits(),
                ctx.complete() == before.complete(),
                ctx.queues().views() == before.queues().views(),
                ctx.queues().tasks() == recorded_tasks(tasks, list.take(i - self.index)),
            decreases self.buffer@.len() - i,
        {
            let obj: usize = self.buffer[i];
            proof {
                let k = i - self.index;
                assert(list[k] == obj);
                let more = list.take(k + 1);
                assert(more.drop_last() =~= list.take(k));
                assert(more.last() == obj);
            }
            ctx.inject(MarkTask::new(obj as u64, false, false));
            i = i + 1;
        }
        assert(list.take(i - self.index) =~= list);
        self.index = self.buffer.len();
        assert(self.queue() =~= Seq::<usize>::empty());
    }

    /// Hands the recorded objects that are not marked to the collector.
    pub fn flush_ssb(&mut self, ctx: &mut MarkingContext)
        requires
            old(self).wf(),
            old(ctx).wf(),
            old(self).covered(old(ctx)),
        ensures
            final(self).wf(),
            final(self).queue() == Seq::<usize>::empty(),
            final(self).index > 0,
            *final(self) == (Thread { index: final(self).index, ..*old(self) }),
            final(ctx).wf(),
            final(ctx).bits() == old(ctx).bits(),
            final(ctx).complete() == old(ctx).complete(),
            final(ctx).queues().views() == old(ctx).queues().views(),
            final(ctx).queues().tasks() == flushed_tasks(
                &old(ctx).bits(),
                old(ctx).queues().tasks(),
                old(self).queue(),
            ),
    {
        let ghost bits = ctx.bits();
        let ghost tasks = ctx.queues().tasks();
        let ghost list = self.queue();
        let ghost before = *ctx;
        let mut i: usize = self.index;
        assert(list.take(0).len() == 0);
        while i < self.buffer.len()
            invariant
                self.index <= i <= self.buffer@.len(),
                list == self.queue(),
                ctx.wf(),
                ctx.bits() == bits,
                ctx.complete() == before.complete(),
                ctx.queues().views() == before.queues().views(),
                forall|k: int|
                    0 <= k < list.len() ==> bits.covers((#[trigger] list[k]) as int),
                ctx.queues().tasks() == flushed_tasks(&bits, tasks, list.take(i - self.index)),
            decreases self.buffer@.len() - i,
        {
            let obj: usize = self.buffer[i];
            proof {
                let k = i - self.index;
                assert(list[k] == obj);
                let more = list.take(k + 1);
                assert(more.drop_last() =~= list.take(k));
                assert(more.last() == obj);
            }
            if !ctx.is_marked(obj) {
                ctx.inject(MarkTask::new(obj as u64, false, false));
            }
            i = i + 1;
        }
        assert(list.take(i - self.index) =~= list);
        self.index = self.buffer.len();
        assert(self.queue() =~= Seq::<usize>::empty());
    }

    /// Sets how the thread takes part. Tells whether it has to poll: it comes back to code
    /// that has to be stopped for a cycle.
    pub fn gc_state_set(&mut self, state: i8, old_state: i8) -> (r: bool)
        ensures
            *final(self) == (Thread { gc_state: state, ..*old(self) }),
            r == (old_state != 0 && state == 0 && old(self).registered),
    {
        self.gc_state = state;
        old_state != 0 && state == 0 && self.registered
    }

    /// Notes where the stack ends, and that the thread waits. Tells whether the place is on
    /// the stack. If it is not, nothing changes.
    pub fn enter_safepoint(&mut self, sp: usize) -> (r: bool)
        ensures
            ({
                let s = old(self).stack;
                r == if s.origin > s.bound {
                    s.bound <= sp < s.origin
                } else {
                    s.origin <= sp < s.bound
                }
            }),
            *final(self) == if r {
                Thread { last_sp: sp, gc_state: GC_STATE_WAITING, ..*old(self) }
            } else {
                *old(self)
            },
    {
        let mut start: usize = self.stack.origin;
        let mut end: usize = self.stack.bound;
        if start > end {
            std::mem::swap(&mut start, &mut end);
        }
        if sp < start || sp >= end {
            return false;
        }
        self.last_sp = sp;
        self.gc_state = GC_STATE_WAITING;
        true
    }
}

/// An object that is not marked, and is told to the collector while marking goes on, is not
/// lost: once the buffer is flushed there is a task for it.
pub proof fn lemma_recorded_has_task(
    bits: &HeapBitmap<16>,
    tasks: Multiset<u64>,
    list: Seq<usize>,
    obj: usize,
)
    requires
        list.contains(obj),
        !bits.slots().contains(bits.slot(obj as int)),
    ensures
        flushed_tasks(bits, tasks, list).contains(
            MarkTask::oop_word(obj as u64, false, false),
        ),
        tasks.subset_of(flushed_tasks(bits, tasks, list)),
    decreases list.len(),
{
    lemma_flush_keeps(bits, tasks, list);
    if list.last() != obj {
        let k = choose|k: int| 0 <= k < list.len() && list[k] == obj;
        assert(list.drop_last()[k] == obj);
        lemma_recorded_has_task(bits, tasks, list.drop_last(), obj);
    }
}

proof fn lemma_flush_keeps(bits: &HeapBitmap<16>, tasks: Multiset<u64>, list: Seq<usize>)
    ensures
        tasks.subset_of(flushed_tasks(bits, tasks, list)),
    decreases list.len(),
{
    if list.len() > 0 {
        lemma_flush_keeps(bits, tasks, list.drop_last());
    }
}

/// Whether the collector knows of an object, or will when the thread flushes its buffer: it is
/// marked, recorded, or the object of a task.
pub open spec fn known(t: Thread, ctx: &MarkingContext, obj: usize) -> bool {
    ||| ctx.marked(obj as int)
    ||| t.queue().contains(obj)
    ||| ctx.queues().tasks().contains(MarkTask::oop_word(obj as u64, false, false))
}

/// No object that is told to the collector while marking goes on is lost, nor is one that was
/// told before.
pub proof fn lemma_snapshot_keeps(
    before: Thread,
    after: Thread,
    ctx: &MarkingContext,
    ctx_after: &MarkingContext,
    obj: usize,
)
    requires
        before.wf(),
        snapshot_barrier(before, after, ctx, ctx_after, obj),
    ensures
        before.cm_in_progress ==> known(after, ctx_after, obj),
        forall|x: usize| #[trigger] known(before, ctx, x) ==> known(after, ctx_after, x),
        forall|x: int| #[trigger] ctx_after.marked(x) <==> ctx.marked(x),
        !before.cm_in_progress ==> after == before && *ctx_after == *ctx,
{
    let old_queue = before.queue();
    let tasks = ctx.queues().tasks();
    let bits = ctx.bits();
    assert forall|x: usize| #[trigger] known(before, ctx, x) implies known(
        after,
        ctx_after,
        x,
    ) by {
        let records = before.cm_in_progress && !ctx.marked(obj as int);
        if records && before.index != 0 {
            if old_queue.contains(x) {
                let k = choose|k: int| 0 <= k < old_queue.len() && old_queue[k] == x;
                assert(after.queue()[k + 1] == x);
            }
        }
        if records && before.index == 0 {
            lemma_flush_keeps(&bits, tasks, old_queue);
            if old_queue.contains(x) && !ctx.marked(x as int) {
                lemma_recorded_has_task(&bits, tasks, old_queue, x);
            }
            let task = MarkTask::oop_word(x as u64, false, false);
            if tasks.contains(task) {
                assert(tasks.count(task) <= flushed_tasks(&bits, tasks, old_queue).count(task));
            }
        }
    }
}

/// Flushing all recorded objects makes a task for each, and keeps the others.
proof fn lemma_all_recorded(tasks: Multiset<u64>, list: Seq<usize>)
    ensures
        tasks.subset_of(recorded_tasks(tasks, list)),
        forall|x: usize|
            list.contains(x) ==> recorded_tasks(tasks, list).contains(
                #[trigger] MarkTask::oop_word(x as u64, false, false),
            ),
    decreases list.len(),
{
    if list.len() > 0 {
        let rest = list.drop_last();
        lemma_all_recorded(tasks, rest);
        assert forall|x: usize| list.contains(x) implies recorded_tasks(tasks, list).contains(
            #[trigger] MarkTask::oop_word(x as u64, false, false),
        ) by {
            if list.last() != x {
                let k = choose|k: int| 0 <= k < list.len() && list[k] == x;
                assert(rest[k] == x);
                assert(rest.contains(x));
                assert(recorded_tasks(tasks, rest).contains(
                    MarkTask::oop_word(x as u64, false, false),
                ));
            }
        }
    }
}

/// An object that is written to while marking goes on in the mode of incremental update is
/// visited again: it is not marked any more, and it is recorded. No other object loses its
/// mark, and none that was recorded or had a task is lost.
pub proof fn lemma_incremental_revisits(
    before: Thread,
    after: Thread,
    ctx: &MarkingContext,
    ctx_after: &MarkingContext,
    obj: usize,
)
    requires
        before.wf(),
        incremental_barrier(before, after, ctx, ctx_after, obj),
    ensures
        before.cm_in_progress ==> !ctx_after.marked(obj as int),
        before.cm_in_progress && ctx.marked(obj as int) ==> after.queue().contains(obj),
        forall|x: int| #[trigger]
            ctx.marked(x) && ctx.bits().slot(x) != ctx.bits().slot(obj as int)
                ==> ctx_after.marked(x),
        forall|x: int| #[trigger] ctx_after.marked(x) ==> ctx.marked(x),
        forall|x: usize|
            before.queue().contains(x) || ctx.queues().tasks().contains(
                #[trigger] MarkTask::oop_word(x as u64, false, false),
            ) ==> after.queue().contains(x) || ctx_after.queues().tasks().contains(
                MarkTask::oop_word(x as u64, false, false),
            ),
        !before.cm_in_progress ==> after == before && *ctx_after == *ctx,
{
    let old_queue = before.queue();
    let tasks = ctx.queues().tasks();
    let records = before.cm_in_progress && ctx.marked(obj as int);
    if records {
        assert(after.queue()[0] == obj);
        lemma_all_recorded(tasks, old_queue);
    }
    assert forall|x: usize|
        old_queue.contains(x) || tasks.contains(
            #[trigger] MarkTask::oop_word(x as u64, false, false),
        ) implies after.queue().contains(x) || ctx_after.queues().tasks().contains(
        MarkTask::oop_word(x as u64, false, false),
    ) by {
        let task = MarkTask::oop_word(x as u64, false, false);
        if records && before.index != 0 && old_queue.contains(x) {
            let k = choose|k: int| 0 <= k < old_queue.len() && old_queue[k] == x;
            assert(after.queue()[k + 1] == x);
        }
        if records && before.index == 0 {
            assert(tasks.count(task) <= recorded_tasks(tasks, old_queue).count(task));
        }
    }
}

/// The threads that take part, by number.
pub struct Threads {
    pub threads: Vec<u64>,
}

impl Threads {
    pub fn new() -> (r: Self)
        ensures
            r.threads@.len() == 0,
    {
        Threads { threads: Vec::new() }
    }

    pub fn add_thread(&mut self, thread: u64)
        ensures
            final(self).threads@ == old(self).threads@.push(thread),
    {
        self.threads.push(thread);
    }

    /// Removes a thread.
    pub fn remove_thread(&mut self, thread: u64)
        ensures
            final(self).threads@ == old(self).threads@.filter(|t: u64| t != thread),
    {
        let ghost before = self.threads@;
        let ghost other = |t: u64| t != thread;
        let mut kept: Vec<u64> = Vec::new();
        let mut i: usize = 0;
        assert(before.take(0).filter(other) =~= Seq::<u64>::empty()) by {
            reveal(Seq::filter);
        }
        while i < self.threads.len()
            invariant
                i <= self.threads@.len(),
                self.threads@ == before,
                other == (|t: u64| t != thread),
                kept@ == before.take(i as int).filter(other),
            decreases self.threads@.len() - i,
        {
            let t: u64 = self.threads[i];
            proof {
                reveal(Seq::filter);
                let more = before.take(i + 1);
                assert(more.drop_last() =~= before.take(i as int));
                assert(more.last() == t);
            }
            if t != thread {
                kept.push(t);
            }
            i = i + 1;
        }
        assert(before.take(i as int) =~= before);
        self.threads = kept;
    }

    /// Whether all threads have ended.
    pub fn all_joined(&self) -> (r: bool)
        ensures
            r == (self.threads@.len() == 0),
    {
        self.threads.len() == 0
    }
}

} // verus!
