//! Buffers in which mutators record the objects whose references they overwrite while
//! marking goes on beside them.

use vstd::multiset::Multiset;
use vstd::prelude::*;
use vstd::seq_lib::lemma_multiset_commutative;

use super::marking_context::MarkingContext;

verus! {

/// The buffer of a mutator. It is filled from its end to its start.
pub struct SATBMarkQueue {
    pub buf: Option<Vec<usize>>,
    /// The first entry of the buffer.
    pub index: usize,
    pub is_active: bool,
}

/// A buffer that has been handed over.
pub struct BufferNode {
    pub buf: Vec<usize>,
    pub index: usize,
}

impl BufferNode {
    pub open spec fn entries(&self) -> Seq<usize> {
        self.buf@.skip(self.index as int)
    }
}

impl SATBMarkQueue {
    /// The entries of the buffer.
    pub open spec fn entries(&self) -> Seq<usize> {
        match self.buf {
            Some(b) => b@.skip(self.index as int),
            None => Seq::empty(),
        }
    }

    /// A buffer has the common size, and the entries are its last part.
    pub open spec fn wf(&self, size: int) -> bool {
        match self.buf {
            Some(b) => b@.len() == size && self.index <= size,
            None => self.index == 0,
        }
    }

    /// A queue without a buffer.
    pub fn create() -> (r: Self)
        ensures
            r.buf is None,
            r.index == 0,
            !r.is_active,
    {
        SATBMarkQueue { buf: None, index: 0, is_active: false }
    }

    pub fn is_active(&self) -> (r: bool)
        ensures
            r == self.is_active,
    {
        self.is_active
    }

    pub fn set_active(&mut self, value: bool)
        ensures
            *final(self) == (SATBMarkQueue { is_active: value, ..*old(self) }),
    {
        self.is_active = value;
    }

    pub fn index(&self) -> (r: usize)
        ensures
            r == self.index,
    {
        self.index
    }

    pub fn set_index(&mut self, index: usize)
        ensures
            *final(self) == (SATBMarkQueue { index, ..*old(self) }),
    {
        self.index = index;
    }
}

/// The value of the counter after a buffer has been added. Its lowest bit says whether the
/// buffers should be processed.
pub open spec fn incremented(value: int, threshold: int) -> int {
    let next = value + 2;
    if next > threshold && next % 2 == 0 {
        next + 1
    } else {
        next
    }
}

/// The value of the counter after a buffer has been taken.
pub open spec fn decremented(value: int) -> int {
    if value - 2 <= 1 {
        0
    } else {
        value - 2
    }
}

proof fn lemma_low_bit(x: usize)
    by (bit_vector)
    ensures
        x | 1 == (if x % 2 == 0 {
            x + 1
        } else {
            x as int
        }),
        x & 1 == x % 2,
        x >> 1usize == x / 2,
{
}

/// Adds a buffer to the counter.
pub fn increment_count(cf: &mut usize, threshold: usize)
    requires
        *old(cf) + 2 <= usize::MAX,
    ensures
        *final(cf) == incremented(*old(cf) as int, threshold as int),
{
    let mut value: usize = *cf + 2;
    if value > threshold {
        proof {
            lemma_low_bit(value);
        }
        value = value | 1;
    }
    *cf = value;
}

/// Takes a buffer from the counter.
pub fn decrement_count(cf: &mut usize)
    requires
        *old(cf) >= 2,
    ensures
        *final(cf) == decremented(*old(cf) as int),
{
    let mut value: usize = *cf - 2;
    if value <= 1 {
        value = 0;
    }
    *cf = value;
}

/// All that the mutators have handed over.
pub struct SATBMarkQueueSet {
    pub buffer_size: usize,
    /// The buffers, the last one that was added at the end.
    pub list: Vec<BufferNode>,
    pub count_and_process_flag: usize,
    pub process_completed_buffers_threshold: usize,
    pub buffer_enqueue_threshold: usize,
    pub all_active: bool,
}

/// Whether a function discards an entry.
pub open spec fn discards<F: Fn(usize) -> bool>(f: F, x: usize) -> bool {
    call_ensures(f, (x,), true)
}

/// Whether a function keeps an entry.
pub open spec fn keeps<F: Fn(usize) -> bool>(f: F, x: usize) -> bool {
    call_ensures(f, (x,), false)
}

/// Whether entries are what is left of others once some have been dropped: all that is
/// left is kept by a function, and all that was dropped is discarded by it.
pub open spec fn filtered<F: Fn(usize) -> bool>(
    f: F,
    before: Seq<usize>,
    after: Seq<usize>,
    dropped: Multiset<usize>,
) -> bool {
    &&& before.to_multiset() == after.to_multiset().add(dropped)
    &&& forall|i: int| 0 <= i < after.len() ==> keeps(f, #[trigger] after[i])
    &&& forall|x: usize| #[trigger] dropped.count(x) > 0 ==> discards(f, x)
}

proof fn lemma_split(b: Seq<usize>, i: int, j: int, k: int)
    requires
        0 <= i <= j <= k <= b.len(),
    ensures
        b.subrange(i, k).to_multiset() == b.subrange(i, j).to_multiset().add(
            b.subrange(j, k).to_multiset(),
        ),
{
    assert(b.subrange(i, k) =~= b.subrange(i, j) + b.subrange(j, k));
    lemma_multiset_commutative(b.subrange(i, j), b.subrange(j, k));
}

proof fn lemma_none()
    ensures
        Seq::<usize>::empty().to_multiset() == Multiset::<usize>::empty(),
{
    broadcast use vstd::seq_lib::group_to_multiset_ensures;

    assert(Seq::<usize>::empty().to_multiset() =~= Multiset::empty());
}

proof fn lemma_one(b: Seq<usize>, i: int)
    requires
        0 <= i < b.len(),
    ensures
        b.subrange(i, i + 1).to_multiset() == Multiset::singleton(b[i]),
{
    broadcast use vstd::seq_lib::group_to_multiset_ensures;

    let one = b.subrange(i, i + 1);
    let none = Seq::<usize>::empty();
    assert(one =~= none.push(b[i]));
    assert(none.to_multiset() =~= Multiset::empty());
    assert(one.to_multiset() =~= Multiset::singleton(b[i]));
}

/// A queue whose entries have been forgotten.
pub open spec fn emptied(queue: SATBMarkQueue, size: usize) -> SATBMarkQueue {
    SATBMarkQueue {
        index: if queue.buf is Some {
            size
        } else {
            queue.index
        },
        ..queue
    }
}

/// There is a mark bit for each of some addresses.
pub open spec fn all_covered(ctx: &MarkingContext, entries: Seq<usize>) -> bool {
    forall|i: int| 0 <= i < entries.len() ==> ctx.bits().covers((#[trigger] entries[i]) as int)
}

impl SATBMarkQueueSet {
    /// The counter says how many buffers there are.
    pub open spec fn wf(&self) -> bool {
        &&& self.count_and_process_flag / 2 == self.list@.len()
        &&& self.list@.len() == 0 ==> self.count_and_process_flag == 0
        &&& forall|i: int|
            0 <= i < self.list@.len() ==> (#[trigger] self.list@[i]).buf@.len()
                == self.buffer_size && self.list@[i].index <= self.buffer_size
    }

    /// A set for buffers of a size, none of which has been handed over.
    pub fn new(buffer_size: usize) -> (r: Self)
        ensures
            r.wf(),
            r.buffer_size == buffer_size,
            r.list@.len() == 0,
            r.count_and_process_flag == 0,
            r.process_completed_buffers_threshold == usize::MAX,
            r.buffer_enqueue_threshold == 0,
            !r.all_active,
    {
        SATBMarkQueueSet {
            buffer_size,
            list: Vec::new(),
            count_and_process_flag: 0,
            process_completed_buffers_threshold: usize::MAX,
            buffer_enqueue_threshold: 0,
            all_active: false,
        }
    }

    pub fn buffer_enqueue_threshold(&self) -> (r: usize)
        ensures
            r == self.buffer_enqueue_threshold,
    {
        self.buffer_enqueue_threshold
    }

    pub fn is_active(&self) -> (r: bool)
        ensures
            r == self.all_active,
    {
        self.all_active
    }

    /// Drops the entries that `filter_out` discards. The others move to the end of the
    /// buffer.
    pub fn filter<F: Fn(usize) -> bool>(&self, filter_out: F, queue: &mut SATBMarkQueue)
        requires
            old(queue).wf(self.buffer_size as int),
            forall|i: int|
                0 <= i < old(queue).entries().len() ==> call_requires(
                    filter_out,
                    (#[trigger] old(queue).entries()[i],),
                ),
        ensures
            final(queue).wf(self.buffer_size as int),
            final(queue).is_active == old(queue).is_active,
            final(queue).buf is Some <==> old(queue).buf is Some,
            exists|dropped: Multiset<usize>| #[trigger]
                filtered(filter_out, old(queue).entries(), final(queue).entries(), dropped),
    {
        broadcast use vstd::seq_lib::group_to_multiset_ensures;

        let mut taken: Option<Vec<usize>> = None;
        std::mem::swap(&mut taken, &mut queue.buf);
        match taken {
            None => {
                proof {
                    let none = Multiset::<usize>::empty();
                    assert(queue.entries() =~= Seq::<usize>::empty());
                    assert(Seq::<usize>::empty().to_multiset().add(none)
                        =~= Seq::<usize>::empty().to_multiset());
                    assert(filtered(filter_out, old(queue).entries(), queue.entries(), none));
                }
            },
            Some(mut buf) => {
                let ghost size = self.buffer_size as int;
                let ghost all = buf@.subrange(queue.index as int, size);
                let mut src: usize = queue.index;
                let mut dst: usize = self.buffer_size;
                let ghost mut dropped = Multiset::<usize>::empty();
                proof {
                    assert(buf@.skip(queue.index as int) =~= all);
                    lemma_split(buf@, src as int, dst as int, size);
                    assert(buf@.subrange(size, size) =~= Seq::<usize>::empty());
                    assert(all.to_multiset() =~= buf@.subrange(
                        src as int,
                        dst as int,
                    ).to_multiset().add(buf@.subrange(dst as int, size).to_multiset()).add(
                        dropped,
                    ));
                }
                proof {
                    assert forall|i: int| src <= i < dst implies call_requires(
                        filter_out,
                        (#[trigger] buf@[i],),
                    ) by {
                        assert(old(queue).entries()[i - src] == buf@[i]);
                    }
                }
                while src < dst
                    invariant
                        buf@.len() == size,
                        size == self.buffer_size,
                        dst <= size,
                        src <= dst + 1,
                        src <= dst ==> all.to_multiset() == buf@.subrange(
                            src as int,
                            dst as int,
                        ).to_multiset().add(buf@.subrange(dst as int, size).to_multiset()).add(
                            dropped,
                        ),
                        src > dst ==> all.to_multiset() == buf@.subrange(
                            dst as int,
                            size,
                        ).to_multiset().add(dropped),
                        forall|i: int| dst <= i < size ==> keeps(filter_out, #[trigger] buf@[i]),
                        forall|x: usize| #[trigger]
                            dropped.count(x) > 0 ==> discards(filter_out, x),
                        forall|i: int|
                            src <= i < dst ==> call_requires(filter_out, (#[trigger] buf@[i],)),
                    decreases dst + 1 - src,
                {
                    let entry: usize = buf[src];
                    proof {
                        lemma_split(buf@, src as int, src + 1, dst as int);
                        lemma_one(buf@, src as int);
                    }
                    if filter_out(entry) {
                        proof {
                            let d = dropped.insert(entry);
                            let rest = buf@.subrange(src + 1, dst as int).to_multiset();
                            let tail = buf@.subrange(dst as int, size).to_multiset();
                            assert(all.to_multiset() =~= rest.add(tail).add(d));
                            dropped = d;
                        }
                    } else {
                        let mut more: bool = true;
                        let ghost top = dst;
                        while more
                            invariant
                                dst <= top,
                                !more ==> dst < top,
                                buf@.len() == size,
                                size == self.buffer_size,
                                src < size,
                                dst <= size,
                                more ==> src < dst,
                                buf@[src as int] == entry,
                                src <= dst,
                                keeps(filter_out, entry),
                                more ==> all.to_multiset() == buf@.subrange(
                                    src + 1,
                                    dst as int,
                                ).to_multiset().add(Multiset::singleton(entry)).add(
                                    buf@.subrange(dst as int, size).to_multiset(),
                                ).add(dropped),
                                !more && src < dst ==> all.to_multiset() == buf@.subrange(
                                    src + 1,
                                    dst as int,
                                ).to_multiset().add(
                                    buf@.subrange(dst as int, size).to_multiset(),
                                ).add(dropped),
                                !more && src == dst ==> all.to_multiset() == buf@.subrange(
                                    dst as int,
                                    size,
                                ).to_multiset().add(dropped),
                                forall|i: int|
                                    dst <= i < size ==> keeps(filter_out, #[trigger] buf@[i]),
                                forall|x: usize| #[trigger]
                                    dropped.count(x) > 0 ==> discards(filter_out, x),
                                forall|i: int|
                            src <= i < dst ==> call_requires(filter_out, (#[trigger] buf@[i],)),
                            decreases
                                    dst,
                                    (if more {
                                        1int
                                    } else {
                                        0int
                                    }),
                        {
                            let ghost b0 = buf@;
                            let ghost dst0 = dst as int;
                            dst = dst - 1;
                            if src < dst {
                                proof {
                                    lemma_split(b0, src + 1, dst as int, dst0);
                                    lemma_one(b0, dst as int);
                                    lemma_split(b0, dst as int, dst0, size);
                                }
                                let last: usize = buf[dst];
                                if filter_out(last) {
                                    buf.set(dst, entry);
                                    more = false;
                                    proof {
                                        let d = dropped.insert(last);
                                        assert(buf@.subrange(src + 1, dst as int)
                                            =~= b0.subrange(src + 1, dst as int));
                                        lemma_split(buf@, dst as int, dst0, size);
                                        lemma_one(buf@, dst as int);
                                        assert(buf@.subrange(dst0, size) =~= b0.subrange(
                                            dst0,
                                            size,
                                        ));
                                        assert(all.to_multiset() =~= buf@.subrange(
                                            src + 1,
                                            dst as int,
                                        ).to_multiset().add(
                                            buf@.subrange(dst as int, size).to_multiset(),
                                        ).add(d));
                                        dropped = d;
                                    }
                                } else {
                                    proof {
                                        assert(all.to_multiset() =~= buf@.subrange(
                                            src + 1,
                                            dst as int,
                                        ).to_multiset().add(Multiset::singleton(entry)).add(
                                            buf@.subrange(dst as int, size).to_multiset(),
                                        ).add(dropped));
                                    }
                                }
                            } else {
                                more = false;
                                proof {
                                    assert(b0.subrange(src + 1, dst0) =~= Seq::<usize>::empty());
                                    lemma_none();
                                    lemma_split(b0, dst as int, dst0, size);
                                    lemma_one(b0, dst as int);
                                    assert(all.to_multiset() =~= buf@.subrange(
                                        dst as int,
                                        size,
                                    ).to_multiset().add(dropped));
                                }
                            }
                        }
                    }
                    src = src + 1;
                }
                proof {
                    if src <= dst {
                        assert(buf@.subrange(src as int, dst as int) =~= Seq::<usize>::empty());
                        assert(all.to_multiset() =~= buf@.subrange(
                            dst as int,
                            size,
                        ).to_multiset().add(dropped));
                    }
                    assert(buf@.skip(dst as int) =~= buf@.subrange(dst as int, size));
                }
                queue.buf = Some(buf);
                queue.index = dst;
                proof {
                    assert(filtered(filter_out, old(queue).entries(), queue.entries(), dropped));
                }
            },
        }
    }

    /// The number of buffers that have been handed over.
    pub fn completed_buffers_num(&self) -> (r: usize)
        ensures
            r == self.count_and_process_flag / 2,
            self.wf() ==> r == self.list@.len(),
    {
        proof {
            lemma_low_bit(self.count_and_process_flag);
        }
        self.count_and_process_flag >> 1usize
    }

    /// Whether the buffers should be processed.
    pub fn process_completed_buffers(&self) -> (r: bool)
        ensures
            r == (self.count_and_process_flag % 2 == 1),
    {
        proof {
            lemma_low_bit(self.count_and_process_flag);
        }
        (self.count_and_process_flag & 1) != 0
    }

    /// Turns the recording of a mutator on or off. When it is turned on, its buffer has to
    /// be empty.
    pub fn set_active_all_threads(&mut self, active: bool, queues: &mut Vec<SATBMarkQueue>)
        requires
            forall|i: int|
                0 <= i < old(queues)@.len() ==> (#[trigger] old(queues)@[i]).buf is Some && active
                    ==> old(queues)@[i].index == old(self).buffer_size,
        ensures
            *final(self) == (SATBMarkQueueSet { all_active: false, ..*old(self) }),
            final(queues)@.len() == old(queues)@.len(),
            forall|i: int|
                0 <= i < old(queues)@.len() ==> (#[trigger] final(queues)@[i]) == (SATBMarkQueue {
                    index: if old(queues)@[i].buf is Some {
                        old(self).buffer_size
                    } else {
                        old(queues)@[i].index
                    },
                    is_active: active,
                    ..old(queues)@[i]
                }),
    {
        self.all_active = false;
        let ghost before = queues@;
        let mut i: usize = 0;
        while i < queues.len()
            invariant
                i <= queues@.len(),
                queues@.len() == before.len(),
                self.buffer_size == old(self).buffer_size,
                forall|k: int|
                    0 <= k < i ==> (#[trigger] queues@[k]) == (SATBMarkQueue {
                        index: if before[k].buf is Some {
                            self.buffer_size
                        } else {
                            before[k].index
                        },
                        is_active: active,
                        ..before[k]
                    }),
                forall|k: int| i <= k < before.len() ==> (#[trigger] queues@[k]) == before[k],
            decreases queues@.len() - i,
        {
            let ghost q0 = queues@;
            assert(q0[i as int] == before[i as int]);
            if queues[i].buf.is_some() {
                queues[i].index = self.buffer_size;
            }
            queues[i].is_active = active;
            i = i + 1;
        }
    }

    /// Drops the entries of a queue that are not marked.
    pub fn filter_marked(&self, ctx: &MarkingContext, queue: &mut SATBMarkQueue)
        requires
            old(queue).wf(self.buffer_size as int),
            ctx.wf(),
            all_covered(ctx, old(queue).entries()),
        ensures
            final(queue).wf(self.buffer_size as int),
            final(queue).is_active == old(queue).is_active,
            final(queue).buf is Some <==> old(queue).buf is Some,
            forall|x: usize|
                #![trigger final(queue).entries().to_multiset().count(x)]
                final(queue).entries().to_multiset().count(x) == if ctx.marked(x as int) {
                    old(queue).entries().to_multiset().count(x)
                } else {
                    0
                },
    {
        broadcast use vstd::seq_lib::group_to_multiset_ensures;

        let filter_out = |obj: usize| -> (r: bool)
            requires
                ctx.wf(),
                ctx.bits().covers(obj as int),
            ensures
                r == !ctx.marked(obj as int),
            { !ctx.is_marked(obj) };
        self.filter(filter_out, queue);
        proof {
            let before = old(queue).entries();
            let after = queue.entries();
            let dropped = choose|dropped: Multiset<usize>| #[trigger]
                filtered(filter_out, before, after, dropped);
            assert forall|x: usize|
                #![trigger after.to_multiset().count(x)]
                after.to_multiset().count(x) == if ctx.marked(x as int) {
                    before.to_multiset().count(x)
                } else {
                    0
                } by {
                assert(before.to_multiset().count(x) == after.to_multiset().count(x)
                    + dropped.count(x));
                if ctx.marked(x as int) {
                    if dropped.count(x) > 0 {
                        assert(discards(filter_out, x));
                    }
                } else {
                    if after.to_multiset().count(x) > 0 {
                        assert(after.contains(x));
                        let i = choose|i: int| 0 <= i < after.len() && after[i] == x;
                        assert(keeps(filter_out, after[i]));
                    }
                }
            }
        }
    }

    /// Hands the buffer of a queue over, unless filtering empties it.
    pub fn flush_queue(&mut self, ctx: &MarkingContext, queue: &mut SATBMarkQueue)
        requires
            old(self).wf(),
            old(queue).wf(old(self).buffer_size as int),
            ctx.wf(),
            all_covered(ctx, old(queue).entries()),
            old(self).count_and_process_flag + 2 <= usize::MAX,
        ensures
            final(self).wf(),
            final(queue).buf is None,
            final(queue).index == 0,
            final(queue).is_active == old(queue).is_active,
            exists|kept: SATBMarkQueue| #[trigger]
                flushed(*old(self), *final(self), ctx, *old(queue), kept),
    {
        broadcast use vstd::seq_lib::group_to_multiset_ensures;

        let ghost before = *self;
        self.filter_marked(ctx, queue);
        let ghost kept = *queue;
        let mut taken: Option<Vec<usize>> = None;
        std::mem::swap(&mut taken, &mut queue.buf);
        match taken {
            Some(buf) => {
                let index: usize = queue.index;
                queue.index = 0;
                if index != self.buffer_size {
                    self.enqueue_completed_buffer(BufferNode { buf, index });
                }
            },
            None => {
                assert(kept.entries() =~= Seq::<usize>::empty());
            },
        }
        proof {
            if kept.entries().len() > 0 {
                assert(self.list@.drop_last() =~= before.list@);
                assert(self.list@.last().entries() =~= kept.entries());
            }
            assert(kept_marked(ctx, *old(queue), kept));
        }
        assert(flushed(before, *self, ctx, *old(queue), kept));
    }

    /// Takes the buffer that was handed over last.
    pub fn get_completed_buffer(&mut self) -> (r: Option<BufferNode>)
        requires
            old(self).wf(),
        ensures
            final(self).wf(),
            old(self).list@.len() == 0 ==> r is None && *final(self) == *old(self),
            old(self).list@.len() > 0 ==> {
                &&& r == Some(old(self).list@.last())
                &&& final(self).list@ == old(self).list@.drop_last()
                &&& final(self).count_and_process_flag == decremented(
                    old(self).count_and_process_flag as int,
                )
                &&& *final(self) == (SATBMarkQueueSet {
                    list: final(self).list,
                    count_and_process_flag: final(self).count_and_process_flag,
                    ..*old(self)
                })
            },
    {
        if self.list.len() == 0 {
            return None;
        }
        match self.list.pop() {
            Some(node) => {
                decrement_count(&mut self.count_and_process_flag);
                Some(node)
            },
            None => None,
        }
    }

    /// Whether a buffer is full enough to be handed over.
    pub fn should_enqueue_buffer(&self, queue: &SATBMarkQueue) -> (r: bool)
        ensures
            r == (queue.index < self.buffer_enqueue_threshold),
    {
        queue.index() < self.buffer_enqueue_threshold()
    }

    /// Hands a buffer over.
    pub fn enqueue_completed_buffer(&mut self, node: BufferNode)
        requires
            old(self).wf(),
            node.buf@.len() == old(self).buffer_size,
            node.index <= old(self).buffer_size,
            old(self).count_and_process_flag + 2 <= usize::MAX,
        ensures
            final(self).wf(),
            final(self).list@ == old(self).list@.push(node),
            final(self).count_and_process_flag == incremented(
                old(self).count_and_process_flag as int,
                old(self).process_completed_buffers_threshold as int,
            ),
            *final(self) == (SATBMarkQueueSet {
                list: final(self).list,
                count_and_process_flag: final(self).count_and_process_flag,
                ..*old(self)
            }),
    {
        let threshold: usize = self.process_completed_buffers_threshold;
        increment_count(&mut self.count_and_process_flag, threshold);
        self.list.push(node);
    }

    /// Makes room in a full queue: gives it a buffer if it has none, and otherwise drops
    /// entries and, if it is still full enough, hands its buffer over and gives it a new
    /// one.
    pub fn handle_zero_index(&mut self, ctx: &MarkingContext, queue: &mut SATBMarkQueue)
        requires
            old(self).wf(),
            old(self).buffer_size > 0,
            old(self).buffer_enqueue_threshold > 0,
            old(queue).wf(old(self).buffer_size as int),
            old(queue).index == 0,
            ctx.wf(),
            all_covered(ctx, old(queue).entries()),
            old(self).count_and_process_flag + 2 <= usize::MAX,
        ensures
            final(self).wf(),
            final(queue).wf(final(self).buffer_size as int),
            final(queue).buf is Some,
            final(queue).index > 0,
            final(queue).is_active == old(queue).is_active,
            old(queue).buf is None ==> *final(self) == *old(self) && final(queue).index == old(self).buffer_size,
            old(queue).buf is Some ==> exists|kept: SATBMarkQueue| #[trigger]
                made_room(*old(self), *final(self), ctx, *old(queue), *final(queue), kept),
    {
        broadcast use vstd::seq_lib::group_to_multiset_ensures;

        let ghost before = *self;
        if queue.buf.is_none() {
            queue.buf = Some(vec![0usize; self.buffer_size]);
            queue.index = self.buffer_size;
        } else {
            self.filter_marked(ctx, queue);
            let ghost kept = *queue;
            if self.should_enqueue_buffer(queue) {
                let mut taken: Option<Vec<usize>> = Some(vec![0usize; self.buffer_size]);
                std::mem::swap(&mut taken, &mut queue.buf);
                let index: usize = queue.index;
                queue.index = self.buffer_size;
                match taken {
                    Some(buf) => {
                        self.enqueue_completed_buffer(BufferNode { buf, index });
                    },
                    None => {},
                }
            }
            proof {
                if kept.index < before.buffer_enqueue_threshold {
                    assert(self.list@.drop_last() =~= before.list@);
                    assert(self.list@.last().entries() =~= kept.entries());
                }
                assert(kept_marked(ctx, *old(queue), kept));
            }
            assert(made_room(before, *self, ctx, *old(queue), *queue, kept));
        }
    }

    /// Puts an entry in a queue if there is room.
    pub fn try_enqueue(&self, queue: &mut SATBMarkQueue, obj: usize) -> (r: bool)
        requires
            old(queue).wf(self.buffer_size as int),
        ensures
            final(queue).wf(self.buffer_size as int),
            r == (old(queue).index != 0),
            r ==> final(queue).entries() == seq![obj] + old(queue).entries()
                && final(queue).index == old(queue).index - 1 && final(queue).is_active
                == old(queue).is_active && final(queue).buf is Some,
            !r ==> *final(queue) == *old(queue),
    {
        if queue.index == 0 {
            return false;
        }
        let ghost before = queue.entries();
        let mut taken: Option<Vec<usize>> = None;
        std::mem::swap(&mut taken, &mut queue.buf);
        match taken {
            Some(mut buf) => {
                let index: usize = queue.index - 1;
                buf.set(index, obj);
                queue.index = index;
                assert(buf@.skip(index as int) =~= seq![obj] + before);
                queue.buf = Some(buf);
            },
            None => {},
        }
        true
    }

    /// Records an object.
    pub fn enqueue_known_active(
        &mut self,
        ctx: &MarkingContext,
        queue: &mut SATBMarkQueue,
        obj: usize,
    )
        requires
            old(self).wf(),
            old(self).buffer_size > 0,
            old(self).buffer_enqueue_threshold > 0,
            old(queue).wf(old(self).buffer_size as int),
            ctx.wf(),
            all_covered(ctx, old(queue).entries()),
            old(self).count_and_process_flag + 2 <= usize::MAX,
        ensures
            final(self).wf(),
            final(queue).wf(final(self).buffer_size as int),
            final(queue).entries().len() > 0,
            final(queue).entries()[0] == obj,
            old(queue).index > 0 ==> *final(self) == *old(self) && final(queue).entries()
                == seq![obj] + old(queue).entries(),
            old(queue).index == 0 && old(queue).buf is None ==> *final(self) == *old(self)
                && final(queue).entries() == seq![obj],
            old(queue).index == 0 && old(queue).buf is Some ==> exists|
                kept: SATBMarkQueue,
                roomy: SATBMarkQueue,
            | #[trigger]
                made_room(*old(self), *final(self), ctx, *old(queue), roomy, kept)
                    && final(queue).entries() == seq![obj] + roomy.entries(),
    {
        if !self.try_enqueue(queue, obj) {
            let ghost full = *queue;
            let ghost set = *self;
            self.handle_zero_index(ctx, queue);
            let ghost roomy = *queue;
            proof {
                if full.buf is None {
                    assert(roomy.entries() =~= Seq::<usize>::empty());
                    assert(seq![obj] + roomy.entries() =~= seq![obj]);
                } else {
                    let kept = choose|kept: SATBMarkQueue| #[trigger]
                        made_room(set, *self, ctx, full, roomy, kept);
                    assert(made_room(*old(self), *self, ctx, *old(queue), roomy, kept));
                }
            }
            let done: bool = self.try_enqueue(queue, obj);
        }
    }

    /// Sets the number of buffers above which they should be processed.
    pub fn set_process_completed_buffers_threshold(&mut self, value: usize)
        ensures
            *final(self) == (SATBMarkQueueSet {
                process_completed_buffers_threshold: if value <= usize::MAX / 2 {
                    (2 * value + 1) as usize
                } else {
                    usize::MAX
                },
                ..*old(self)
            }),
    {
        let scaled_value: usize = if value > usize::MAX / 2 {
            usize::MAX
        } else {
            value * 2
        };
        proof {
            lemma_low_bit(scaled_value);
        }
        self.process_completed_buffers_threshold = scaled_value | 1;
    }

    /// Sets how full a buffer has to be, in percent, to be handed over.
    pub fn set_buffer_enqueue_threshold_percentage(&mut self, value: usize)
        requires
            value <= 100,
            old(self).buffer_size * value <= usize::MAX,
        ensures
            *final(self) == (SATBMarkQueueSet {
                buffer_enqueue_threshold: {
                    let rest = old(self).buffer_size - old(self).buffer_size * value / 100;
                    if rest < 1 {
                        1
                    } else {
                        rest as usize
                    }
                },
                ..*old(self)
            }),
    {
        let size: usize = self.buffer_size;
        assert(size * value <= size * 100) by (nonlinear_arith)
            requires
                value <= 100,
        ;
        let enqueue_qty: usize = (size * value) / 100;
        let rest: usize = size - enqueue_qty;
        self.buffer_enqueue_threshold = if rest < 1 {
            1
        } else {
            rest
        };
    }

    /// Drops all buffers. The counter is left alone.
    pub fn abandon_completed_buffers(&mut self)
        ensures
            *final(self) == (SATBMarkQueueSet { list: final(self).list, ..*old(self) }),
            final(self).list@.len() == 0,
    {
        self.list.clear();
    }

    /// Forgets the entries of a queue.
    fn reset_queue(&self, queue: &mut SATBMarkQueue)
        ensures
            *final(queue) == emptied(*old(queue), self.buffer_size),
    {
        if queue.buf.is_some() {
            queue.index = self.buffer_size;
        }
    }

    /// Forgets all that has been recorded.
    pub fn abandon_partial_marking(&mut self, queues: &mut Vec<SATBMarkQueue>)
        ensures
            *final(self) == (SATBMarkQueueSet { list: final(self).list, ..*old(self) }),
            final(self).list@.len() == 0,
            final(queues)@.len() == old(queues)@.len(),
            forall|i: int|
                0 <= i < old(queues)@.len() ==> (#[trigger] final(queues)@[i]) == emptied(
                    old(queues)@[i],
                    old(self).buffer_size,
                ),
    {
        self.abandon_completed_buffers();
        let ghost before = queues@;
        let mut i: usize = 0;
        while i < queues.len()
            invariant
                i <= queues@.len(),
                queues@.len() == before.len(),
                forall|k: int|
                    0 <= k < i ==> (#[trigger] queues@[k]) == emptied(before[k], self.buffer_size),
                forall|k: int| i <= k < before.len() ==> (#[trigger] queues@[k]) == before[k],
            decreases queues@.len() - i,
        {
            self.reset_queue(&mut queues[i]);
            i = i + 1;
        }
    }

    /// Takes a buffer and hands its entries out.
    pub fn apply_closure_to_completed_buffer(&mut self) -> (r: Option<Vec<usize>>)
        requires
            old(self).wf(),
        ensures
            final(self).wf(),
            old(self).list@.len() == 0 ==> r is None && *final(self) == *old(self),
            old(self).list@.len() > 0 ==> {
                &&& r is Some
                &&& r->0@ == old(self).list@.last().entries()
                &&& final(self).list@ == old(self).list@.drop_last()
                &&& *final(self) == (SATBMarkQueueSet {
                    list: final(self).list,
                    count_and_process_flag: decremented(
                        old(self).count_and_process_flag as int,
                    ) as usize,
                    ..*old(self)
                })
            },
    {
        match self.get_completed_buffer() {
            None => None,
            Some(node) => {
                let mut out: Vec<usize> = Vec::new();
                let mut i: usize = node.index;
                while i < node.buf.len()
                    invariant
                        node.index <= i <= node.buf@.len(),
                        out@ == node.buf@.subrange(node.index as int, i as int),
                    decreases node.buf@.len() - i,
                {
                    out.push(node.buf[i]);
                    i = i + 1;
                    assert(out@ =~= node.buf@.subrange(node.index as int, i as int));
                }
                assert(out@ =~= node.entries());
                Some(out)
            },
        }
    }
}

/// Whether the entries of a queue are those of another that are marked.
pub open spec fn kept_marked(ctx: &MarkingContext, before: SATBMarkQueue, kept: SATBMarkQueue) -> bool {
    forall|x: usize|
        #![trigger kept.entries().to_multiset().count(x)]
        kept.entries().to_multiset().count(x) == if ctx.marked(x as int) {
            before.entries().to_multiset().count(x)
        } else {
            0
        }
}

/// Whether flushing a queue turns one set into another.
pub open spec fn flushed(
    before: SATBMarkQueueSet,
    after: SATBMarkQueueSet,
    ctx: &MarkingContext,
    queue: SATBMarkQueue,
    kept: SATBMarkQueue,
) -> bool {
    &&& kept_marked(ctx, queue, kept)
    &&& kept.wf(before.buffer_size as int)
    &&& if kept.entries().len() == 0 {
        after == before
    } else {
        &&& after.list@.len() == before.list@.len() + 1
        &&& after.list@.drop_last() == before.list@
        &&& after.list@.last().entries() == kept.entries()
        &&& after.count_and_process_flag == incremented(
            before.count_and_process_flag as int,
            before.process_completed_buffers_threshold as int,
        )
        &&& after == (SATBMarkQueueSet {
            list: after.list,
            count_and_process_flag: after.count_and_process_flag,
            ..before
        })
    }
}

/// Whether room has been made in a full queue.
pub open spec fn made_room(
    before: SATBMarkQueueSet,
    after: SATBMarkQueueSet,
    ctx: &MarkingContext,
    queue: SATBMarkQueue,
    roomy: SATBMarkQueue,
    kept: SATBMarkQueue,
) -> bool {
    &&& kept_marked(ctx, queue, kept)
    &&& kept.wf(before.buffer_size as int)
    &&& if kept.index < before.buffer_enqueue_threshold {
        &&& roomy.entries().len() == 0
        &&& after.list@.len() == before.list@.len() + 1
        &&& after.list@.drop_last() == before.list@
        &&& after.list@.last().entries() == kept.entries()
        &&& after.count_and_process_flag == incremented(
            before.count_and_process_flag as int,
            before.process_completed_buffers_threshold as int,
        )
        &&& after == (SATBMarkQueueSet {
            list: after.list,
            count_and_process_flag: after.count_and_process_flag,
            ..before
        })
    } else {
        after == before && roomy == kept
    }
}

/// What the counter says: half of it is the number of buffers, which goes up and down by one,
/// and the rest whether they should be processed. That is so as soon as the threshold is
/// passed, and stays so until no buffer is left.
pub proof fn lemma_counter(value: int, threshold: int)
    requires
        0 <= value,
    ensures
        incremented(value, threshold) / 2 == value / 2 + 1,
        incremented(value, threshold) % 2 == 1 <==> value % 2 == 1 || value + 2 > threshold,
        2 <= value ==> decremented(value) / 2 == value / 2 - 1,
        2 <= value ==> (decremented(value) % 2 == 1 <==> value % 2 == 1 && 2 <= value / 2),
{
}

} // verus!
