//! Marking: every object that the roots lead to is marked, and no other.

use vstd::arithmetic::power2::{lemma_pow2_pos, pow2};
use vstd::multiset::Multiset;
use vstd::prelude::*;

use super::deque::Taken;
use super::mark::{
    do_chunked_array, do_chunked_array_start, first_cut, log2_ceil, prefix_cut, right_rest,
    right_splits, splittable, takes, tiles, took, Chunk, ChunkPlan, MarkTask, Terminator,
};
use super::marking_context::MarkingContext;

verus! {

/// An object of the heap, as far as marking looks at it.
pub struct Object {
    /// The address of its header.
    pub addr: usize,
    /// Whether the object has references to follow.
    pub traced: bool,
    /// Whether the object has elements besides its fields.
    pub varsize: bool,
    /// Whether the elements can be visited range by range.
    pub ranged: bool,
    /// The objects that its fields refer to.
    pub fields: Vec<usize>,
    /// The objects that its elements refer to.
    pub elements: Vec<usize>,
}

impl Object {
    /// Whether marking visits the elements.
    pub open spec fn has_elements(self) -> bool {
        self.varsize && self.ranged
    }
}

/// Whether an object has the given address.
pub open spec fn is_object(objs: Seq<Object>, addr: int) -> bool {
    exists|i: int| 0 <= i < objs.len() && (#[trigger] objs[i]).addr == addr
}

/// The object with the given address.
pub open spec fn object_at(objs: Seq<Object>, addr: int) -> Object {
    objs[choose|i: int| 0 <= i < objs.len() && (#[trigger] objs[i]).addr == addr]
}

/// Whether the objects are in order of their addresses, each can be the subject of
/// a task, and refer to each other only.
pub open spec fn objects_wf(objs: Seq<Object>) -> bool {
    &&& forall|i: int, j: int|
        0 <= i < j < objs.len() ==> (#[trigger] objs[i]).addr < (#[trigger] objs[j]).addr
    &&& forall|i: int|
        0 <= i < objs.len() ==> {
            &&& (#[trigger] objs[i]).addr < 0x2_0000_0000_0000
            &&& objs[i].addr % 16 == 0
            &&& objs[i].elements@.len() <= 0x8000_0000
        }
    &&& forall|i: int, k: int|
        0 <= i < objs.len() && 0 <= k < objs[i].fields@.len() ==> is_object(
            objs,
            (#[trigger] objs[i].fields@[k]) as int,
        )
    &&& forall|i: int, k: int|
        0 <= i < objs.len() && 0 <= k < objs[i].elements@.len() ==> is_object(
            objs,
            (#[trigger] objs[i].elements@[k]) as int,
        )
}

/// Whether there is a mark bit of its own for every object.
pub open spec fn fits(objs: Seq<Object>, ctx: &MarkingContext) -> bool {
    &&& ctx.bits().start() % 16 == 0
    &&& forall|i: int| 0 <= i < objs.len() ==> ctx.bits().covers((#[trigger] objs[i]).addr as int)
}

/// Whether an object refers to another, in a way that marking follows.
pub open spec fn refers(objs: Seq<Object>, a: int, b: int) -> bool {
    &&& is_object(objs, a)
    &&& object_at(objs, a).traced
    &&& {
        ||| exists|k: int|
            0 <= k < object_at(objs, a).fields@.len()
                && (#[trigger] object_at(objs, a).fields@[k]) == b
        ||| object_at(objs, a).has_elements() && exists|k: int|
            0 <= k < object_at(objs, a).elements@.len()
                && (#[trigger] object_at(objs, a).elements@[k]) == b
    }
}

/// Whether `path` leads from a root along references.
pub open spec fn is_path(objs: Seq<Object>, roots: Set<int>, path: Seq<int>) -> bool {
    &&& path.len() > 0
    &&& roots.contains(path[0])
    &&& forall|i: int| 0 <= i < path.len() - 1 ==> refers(objs, #[trigger] path[i], path[i + 1])
}

/// Whether the roots lead to an object.
pub open spec fn reachable(objs: Seq<Object>, roots: Set<int>, a: int) -> bool {
    exists|path: Seq<int>| #[trigger] is_path(objs, roots, path) && path.last() == a
}

/// The marked objects and the tasks that are waiting.
#[verifier::ext_equal]
pub struct MarkState {
    pub marked: Set<int>,
    pub tasks: Multiset<u64>,
}

/// The state of marking.
pub open spec fn state(objs: Seq<Object>, ctx: &MarkingContext) -> MarkState {
    MarkState {
        marked: Set::new(|a: int| is_object(objs, a) && ctx.marked(a)),
        tasks: ctx.queues().tasks(),
    }
}

/// The task to follow all references of an object.
pub open spec fn whole_task(a: int) -> u64 {
    MarkTask::oop_word(a as u64, false, false)
}

/// The task to follow the references of some elements of an object.
pub open spec fn chunk_task(a: int, c: Chunk) -> u64 {
    MarkTask::chunk_word(a as u64, true, false, c.chunk, c.pow)
}

/// Whether a chunk can be the subject of a task.
pub open spec fn chunk_ok(c: Chunk) -> bool {
    1 <= c.chunk < 1024 && c.pow <= 30
}

/// The state after an object has been visited: it is marked. If it was not before
/// and has references, there is a task to follow them.
pub open spec fn visit_one(objs: Seq<Object>, st: MarkState, a: int) -> MarkState {
    if st.marked.contains(a) {
        st
    } else {
        MarkState {
            marked: st.marked.insert(a),
            tasks: if object_at(objs, a).traced {
                st.tasks.insert(whole_task(a))
            } else {
                st.tasks
            },
        }
    }
}

/// The state after objects have been visited in order.
pub open spec fn visit_seq(objs: Seq<Object>, st: MarkState, refs: Seq<usize>) -> MarkState
    decreases refs.len(),
{
    if refs.len() == 0 {
        st
    } else {
        visit_one(objs, visit_seq(objs, st, refs.drop_last()), refs.last() as int)
    }
}

/// The state after tasks for chunks of an object have been added.
pub open spec fn add_chunks(st: MarkState, a: int, chunks: Seq<Chunk>) -> MarkState
    decreases chunks.len(),
{
    if chunks.len() == 0 {
        st
    } else {
        let rest = add_chunks(st, a, chunks.drop_last());
        MarkState { tasks: rest.tasks.insert(chunk_task(a, chunks.last())), ..rest }
    }
}

/// Whether a task is to follow all references of its object.
pub open spec fn is_whole(word: u64) -> bool {
    word & 0xfffe_0000_0000_0000u64 == 0
}

/// The object of a task.
pub open spec fn task_object(word: u64) -> int {
    MarkTask::spec_oop(word) as int
}

/// The chunk of a task.
pub open spec fn task_chunk(word: u64) -> Chunk {
    Chunk { chunk: MarkTask::spec_chunk(word), pow: MarkTask::spec_pow(word) }
}

/// The state after a task has been done.
pub open spec fn task_effect(objs: Seq<Object>, st: MarkState, word: u64) -> MarkState {
    let a = task_object(word);
    let o = object_at(objs, a);
    if is_whole(word) {
        let st1 = visit_seq(objs, st, o.fields@);
        if o.has_elements() {
            let cut = first_cut(o.elements@.len() as int);
            visit_seq(
                objs,
                add_chunks(st1, a, cut.chunks),
                o.elements@.subrange(cut.last, o.elements@.len() as int),
            )
        } else {
            st1
        }
    } else {
        let c = task_chunk(word);
        let (rest, pow) = right_rest(c.chunk as int, c.pow as int);
        visit_seq(
            objs,
            add_chunks(st, a, right_splits(c.chunk as int, c.pow as int)),
            o.elements@.subrange((rest - 1) * pow2(pow as nat), rest * pow2(pow as nat)),
        )
    }
}

/// Whether a task can be done.
pub open spec fn task_ok(objs: Seq<Object>, marked: Set<int>, word: u64) -> bool {
    let a = task_object(word);
    let c = task_chunk(word);
    &&& is_object(objs, a)
    &&& marked.contains(a)
    &&& object_at(objs, a).traced
    &&& is_whole(word) ==> word == whole_task(a)
    &&& !is_whole(word) ==> {
        &&& word == chunk_task(a, c)
        &&& chunk_ok(c)
        &&& object_at(objs, a).has_elements()
        &&& c.end() <= object_at(objs, a).elements@.len()
    }
}

/// Whether a task is waiting that visits element `k` of an object.
pub open spec fn element_waits(tasks: Multiset<u64>, a: int, k: int) -> bool {
    ||| tasks.contains(whole_task(a))
    ||| exists|c: Chunk|
        chunk_ok(c) && c.start() <= k < c.end() && #[trigger] tasks.contains(chunk_task(a, c))
}

/// Only objects that the roots lead to are marked, every task can be done, and what
/// a marked object refers to is marked too or a task is waiting that will see to it.
#[verifier::opaque]
pub open spec fn marking_core(objs: Seq<Object>, roots: Set<int>, st: MarkState) -> bool {
    &&& forall|a: int| #[trigger]
        st.marked.contains(a) ==> is_object(objs, a) && reachable(objs, roots, a)
    &&& forall|w: u64| #[trigger] st.tasks.contains(w) ==> task_ok(objs, st.marked, w)
    &&& forall|a: int, k: int|
        st.marked.contains(a) && object_at(objs, a).traced && 0 <= k < object_at(
            objs,
            a,
        ).fields@.len() ==> st.marked.contains(
            (#[trigger] object_at(objs, a).fields@[k]) as int,
        ) || st.tasks.contains(whole_task(a))
    &&& forall|a: int, k: int|
        st.marked.contains(a) && object_at(objs, a).traced && object_at(objs, a).has_elements()
            && 0 <= k < object_at(objs, a).elements@.len() ==> st.marked.contains(
            (#[trigger] object_at(objs, a).elements@[k]) as int,
        ) || element_waits(st.tasks, a, k)
}

/// What holds throughout marking: besides, the roots are marked.
pub open spec fn marking_inv(objs: Seq<Object>, roots: Set<int>, st: MarkState) -> bool {
    &&& forall|a: int| #[trigger] roots.contains(a) ==> st.marked.contains(a)
    &&& marking_core(objs, roots, st)
}

/// When no task is left, exactly the objects that the roots lead to are marked.
pub proof fn lemma_marking_complete(objs: Seq<Object>, roots: Set<int>, st: MarkState)
    requires
        marking_inv(objs, roots, st),
        st.tasks == Multiset::<u64>::empty(),
    ensures
        forall|a: int| #[trigger] st.marked.contains(a) <==> reachable(objs, roots, a),
{
    reveal(marking_core);
    assert forall|a: int| reachable(objs, roots, a) implies #[trigger] st.marked.contains(a) by {
        let path = choose|path: Seq<int>| #[trigger]
            is_path(objs, roots, path) && path.last() == a;
        lemma_path_marked(objs, roots, st, path, path.len() - 1);
    }
}

proof fn lemma_path_marked(
    objs: Seq<Object>,
    roots: Set<int>,
    st: MarkState,
    path: Seq<int>,
    n: int,
)
    requires
        marking_inv(objs, roots, st),
        st.tasks == Multiset::<u64>::empty(),
        is_path(objs, roots, path),
        0 <= n < path.len(),
    ensures
        st.marked.contains(path[n]),
    decreases n,
{
    reveal(marking_core);
    if n > 0 {
        lemma_path_marked(objs, roots, st, path, n - 1);
        let a = path[n - 1];
        assert(refers(objs, path[n - 1], path[n - 1 + 1]));
        assert(!st.tasks.contains(whole_task(a)));
        assert forall|c: Chunk| !st.tasks.contains(#[trigger] chunk_task(a, c)) by {}
    }
}

/// One more reference leads one object further.
proof fn lemma_reachable_step(objs: Seq<Object>, roots: Set<int>, a: int, b: int)
    requires
        reachable(objs, roots, a),
        refers(objs, a, b),
    ensures
        reachable(objs, roots, b),
{
    let path = choose|path: Seq<int>| #[trigger] is_path(objs, roots, path) && path.last() == a;
    let longer = path.push(b);
    assert forall|i: int| 0 <= i < longer.len() - 1 implies refers(
        objs,
        #[trigger] longer[i],
        longer[i + 1],
    ) by {
        if i < path.len() - 1 {
            assert(refers(objs, path[i], path[i + 1]));
        }
    }
    assert(is_path(objs, roots, longer));
    assert(longer.last() == b);
}

/// More tasks and more marks do no harm.
proof fn lemma_visit_one(objs: Seq<Object>, roots: Set<int>, st: MarkState, a: int)
    requires
        objects_wf(objs),
        marking_core(objs, roots, st),
        is_object(objs, a),
        reachable(objs, roots, a),
    ensures
        marking_core(objs, roots, visit_one(objs, st, a)),
{
    reveal(marking_core);
    let next = visit_one(objs, st, a);
    lemma_object_at(objs, a);
    assert forall|w: u64| #[trigger] next.tasks.contains(w) implies task_ok(
        objs,
        next.marked,
        w,
    ) by {
        if st.tasks.contains(w) {
            assert(task_ok(objs, st.marked, w));
        } else {
            assert(w == whole_task(a));
            lemma_whole_task(a);
        }
    }
    assert forall|b: int, k: int|
        next.marked.contains(b) && object_at(objs, b).traced && object_at(objs, b).has_elements()
            && 0 <= k < object_at(objs, b).elements@.len() implies next.marked.contains(
        (#[trigger] object_at(objs, b).elements@[k]) as int,
    ) || element_waits(next.tasks, b, k) by {
        if st.marked.contains(b) {
            if !st.marked.contains(object_at(objs, b).elements@[k] as int) {
                assert(element_waits(st.tasks, b, k));
                lemma_waits_grow(st.tasks, next.tasks, b, k);
            }
        } else {
            assert(next.tasks.contains(whole_task(b)));
        }
    }
    assert forall|b: int, k: int|
        next.marked.contains(b) && object_at(objs, b).traced && 0 <= k < object_at(
            objs,
            b,
        ).fields@.len() implies next.marked.contains(
        (#[trigger] object_at(objs, b).fields@[k]) as int,
    ) || next.tasks.contains(whole_task(b)) by {
        if st.marked.contains(b) {
            assert(st.marked.contains(object_at(objs, b).fields@[k] as int) || st.tasks.contains(
                whole_task(b),
            ));
        }
    }
}

proof fn lemma_waits_grow(s: Multiset<u64>, t: Multiset<u64>, a: int, k: int)
    requires
        element_waits(s, a, k),
        forall|w: u64| #[trigger] s.contains(w) ==> t.contains(w),
    ensures
        element_waits(t, a, k),
{
    if s.contains(whole_task(a)) {
        assert(t.contains(whole_task(a)));
    } else {
        let c = choose|c: Chunk|
            chunk_ok(c) && c.start() <= k < c.end() && #[trigger] s.contains(chunk_task(a, c));
        assert(t.contains(chunk_task(a, c)));
    }
}

/// What the table says of an object of the given address.
proof fn lemma_object_at(objs: Seq<Object>, a: int)
    requires
        objects_wf(objs),
        is_object(objs, a),
    ensures
        object_at(objs, a).addr == a,
        0 <= a < 0x2_0000_0000_0000,
        a % 16 == 0,
        object_at(objs, a).elements@.len() <= 0x8000_0000,
        forall|k: int|
            0 <= k < object_at(objs, a).fields@.len() ==> is_object(
                objs,
                (#[trigger] object_at(objs, a).fields@[k]) as int,
            ),
        forall|k: int|
            0 <= k < object_at(objs, a).elements@.len() ==> is_object(
                objs,
                (#[trigger] object_at(objs, a).elements@[k]) as int,
            ),
{
    let i = choose|i: int| 0 <= i < objs.len() && (#[trigger] objs[i]).addr == a;
    assert(objs[i] == object_at(objs, a));
    assert forall|k: int| 0 <= k < object_at(objs, a).fields@.len() implies is_object(
        objs,
        (#[trigger] object_at(objs, a).fields@[k]) as int,
    ) by {
        assert(is_object(objs, objs[i].fields@[k] as int));
    }
    assert forall|k: int| 0 <= k < object_at(objs, a).elements@.len() implies is_object(
        objs,
        (#[trigger] object_at(objs, a).elements@[k]) as int,
    ) by {
        assert(is_object(objs, objs[i].elements@[k] as int));
    }
}

/// A task for a whole object gives its object back.
proof fn lemma_whole_task(a: int)
    requires
        0 <= a < 0x2_0000_0000_0000,
        a % 16 == 0,
    ensures
        task_object(whole_task(a)) == a,
        is_whole(whole_task(a)),
{
    MarkTask::lemma_round_trip(a as u64, false, false, 0, 0);
}

/// A task for a chunk gives its object and its chunk back.
proof fn lemma_chunk_task(a: int, c: Chunk)
    requires
        0 <= a < 0x2_0000_0000_0000,
        a % 16 == 0,
        chunk_ok(c),
    ensures
        task_object(chunk_task(a, c)) == a,
        task_chunk(chunk_task(a, c)) == c,
        !is_whole(chunk_task(a, c)),
{
    MarkTask::lemma_round_trip(a as u64, true, false, c.chunk, c.pow);
}

/// Visiting objects that the roots lead to.
proof fn lemma_visit_seq(objs: Seq<Object>, roots: Set<int>, st: MarkState, refs: Seq<usize>)
    requires
        objects_wf(objs),
        marking_core(objs, roots, st),
        forall|k: int|
            0 <= k < refs.len() ==> is_object(objs, (#[trigger] refs[k]) as int) && reachable(
                objs,
                roots,
                refs[k] as int,
            ),
    ensures
        marking_core(objs, roots, visit_seq(objs, st, refs)),
        forall|k: int|
            0 <= k < refs.len() ==> visit_seq(objs, st, refs).marked.contains(
                (#[trigger] refs[k]) as int,
            ),
        forall|w: u64| #[trigger]
            st.tasks.contains(w) ==> visit_seq(objs, st, refs).tasks.contains(w),
        forall|a: int| #[trigger]
            st.marked.contains(a) ==> visit_seq(objs, st, refs).marked.contains(a),
    decreases refs.len(),
{
    if refs.len() > 0 {
        let rest = refs.drop_last();
        lemma_visit_seq(objs, roots, st, rest);
        let a = refs.last() as int;
        assert(refs[refs.len() - 1] == refs.last());
        lemma_visit_one(objs, roots, visit_seq(objs, st, rest), a);
        assert forall|k: int| 0 <= k < refs.len() implies visit_seq(
            objs,
            st,
            refs,
        ).marked.contains((#[trigger] refs[k]) as int) by {
            if k < rest.len() {
                assert(rest[k] == refs[k]);
            }
        }
    }
}

/// Adding tasks for chunks of an object with elements.
proof fn lemma_add_chunks(
    objs: Seq<Object>,
    roots: Set<int>,
    st: MarkState,
    a: int,
    chunks: Seq<Chunk>,
)
    requires
        objects_wf(objs),
        marking_core(objs, roots, st),
        st.marked.contains(a),
        object_at(objs, a).traced,
        object_at(objs, a).has_elements(),
        forall|i: int|
            0 <= i < chunks.len() ==> chunk_ok(#[trigger] chunks[i]) && chunks[i].end()
                <= object_at(objs, a).elements@.len(),
    ensures
        marking_core(objs, roots, add_chunks(st, a, chunks)),
        add_chunks(st, a, chunks).marked == st.marked,
        forall|w: u64| #[trigger]
            st.tasks.contains(w) ==> add_chunks(st, a, chunks).tasks.contains(w),
        forall|i: int|
            0 <= i < chunks.len() ==> add_chunks(st, a, chunks).tasks.contains(
                chunk_task(a, #[trigger] chunks[i]),
            ),
    decreases chunks.len(),
{
    reveal(marking_core);
    if chunks.len() > 0 {
        let rest = add_chunks(st, a, chunks.drop_last());
        lemma_add_chunks(objs, roots, st, a, chunks.drop_last());
        let next = add_chunks(st, a, chunks);
        let c = chunks.last();
        assert(chunks[chunks.len() - 1] == c);
        lemma_object_at(objs, a);
        lemma_chunk_task(a, c);
        assert forall|w: u64| #[trigger] next.tasks.contains(w) implies task_ok(
            objs,
            next.marked,
            w,
        ) by {
            if rest.tasks.contains(w) {
                assert(task_ok(objs, rest.marked, w));
            }
        }
        assert forall|b: int, k: int|
            next.marked.contains(b) && object_at(objs, b).traced && object_at(
                objs,
                b,
            ).has_elements() && 0 <= k < object_at(objs, b).elements@.len()
                implies next.marked.contains(
            (#[trigger] object_at(objs, b).elements@[k]) as int,
        ) || element_waits(next.tasks, b, k) by {
            if !rest.marked.contains(object_at(objs, b).elements@[k] as int) {
                assert(element_waits(rest.tasks, b, k));
                lemma_waits_grow(rest.tasks, next.tasks, b, k);
            }
        }
        assert forall|i: int| 0 <= i < chunks.len() implies next.tasks.contains(
            chunk_task(a, #[trigger] chunks[i]),
        ) by {
            if i < chunks.len() - 1 {
                assert(chunks.drop_last()[i] == chunks[i]);
                assert(rest.tasks.contains(chunk_task(a, chunks.drop_last()[i])));
            }
        }
    }
}

/// A task that waits meanwhile changes nothing.
proof fn lemma_visit_seq_frame(objs: Seq<Object>, st: MarkState, refs: Seq<usize>, w: u64)
    ensures
        ({
            let more = MarkState { tasks: st.tasks.insert(w), ..st };
            let r = visit_seq(objs, st, refs);
            visit_seq(objs, more, refs) == (MarkState { tasks: r.tasks.insert(w), ..r })
        }),
    decreases refs.len(),
{
    if refs.len() > 0 {
        lemma_visit_seq_frame(objs, st, refs.drop_last(), w);
        let more = MarkState { tasks: st.tasks.insert(w), ..st };
        let r = visit_seq(objs, st, refs);
        let q = visit_seq(objs, st, refs.drop_last());
        let a = refs.last() as int;
        assert(q.tasks.insert(w).insert(whole_task(a)) =~= q.tasks.insert(whole_task(a)).insert(
            w,
        ));
    }
}

proof fn lemma_add_chunks_frame(st: MarkState, a: int, chunks: Seq<Chunk>, w: u64)
    ensures
        ({
            let more = MarkState { tasks: st.tasks.insert(w), ..st };
            let r = add_chunks(st, a, chunks);
            add_chunks(more, a, chunks) == (MarkState { tasks: r.tasks.insert(w), ..r })
        }),
    decreases chunks.len(),
{
    if chunks.len() > 0 {
        lemma_add_chunks_frame(st, a, chunks.drop_last(), w);
        let q = add_chunks(st, a, chunks.drop_last());
        let c = chunk_task(a, chunks.last());
        assert(q.tasks.insert(w).insert(c) =~= q.tasks.insert(c).insert(w));
    }
}

/// Whether an index belongs to one of the chunks.
pub open spec fn in_chunks(chunks: Seq<Chunk>, k: int) -> bool {
    exists|i: int| 0 <= i < chunks.len() && (#[trigger] chunks[i]).start() <= k < chunks[i].end()
}

/// Chunks that lie side by side leave no gap and end in time.
proof fn lemma_tiles_cover(chunks: Seq<Chunk>, from: int, to: int)
    requires
        tiles(chunks, from, to),
        forall|i: int| 0 <= i < chunks.len() ==> chunk_ok(#[trigger] chunks[i]),
    ensures
        from <= to,
        forall|k: int| from <= k < to ==> #[trigger] in_chunks(chunks, k),
        forall|i: int| 0 <= i < chunks.len() ==> (#[trigger] chunks[i]).end() <= to,
    decreases chunks.len(),
{
    if chunks.len() > 0 {
        let c = chunks.last();
        let rest = chunks.drop_last();
        assert(chunk_ok(chunks[chunks.len() - 1]));
        lemma_pow2_pos(c.pow as nat);
        assert(c.start() < c.end()) by (nonlinear_arith)
            requires
                c.start() == (c.chunk - 1) * pow2(c.pow as nat),
                c.end() == c.chunk * pow2(c.pow as nat),
                pow2(c.pow as nat) > 0,
        ;
        assert(tiles(rest, from, c.start())) by {
            if rest.len() > 0 {
                assert(chunks[rest.len() - 1].end() == chunks[rest.len() - 1 + 1].start());
                assert(rest.last() == chunks[rest.len() - 1]);
            }
            assert forall|i: int| 0 <= i < rest.len() - 1 implies (#[trigger] rest[i]).end()
                == rest[i + 1].start() by {
                assert(chunks[i].end() == chunks[i + 1].start());
            }
        }
        assert forall|i: int| 0 <= i < rest.len() implies chunk_ok(#[trigger] rest[i]) by {
            assert(chunk_ok(chunks[i]));
        }
        lemma_tiles_cover(rest, from, c.start());
        assert forall|k: int| from <= k < to implies #[trigger] in_chunks(chunks, k) by {
            if k < c.start() {
                assert(in_chunks(rest, k));
                let i = choose|i: int|
                    0 <= i < rest.len() && (#[trigger] rest[i]).start() <= k < rest[i].end();
                assert(chunks[i] == rest[i]);
            } else {
                assert(chunks[chunks.len() - 1].start() <= k);
            }
        }
        assert forall|i: int| 0 <= i < chunks.len() implies (#[trigger] chunks[i]).end() <= to by {
            if i < rest.len() {
                assert(rest[i].end() <= c.start());
            }
        }
    }
}

proof fn lemma_right_splits_ok(chunk: int, pow: int)
    requires
        1 <= chunk < 1024,
        0 <= pow <= 30,
    ensures
        forall|i: int|
            0 <= i < right_splits(chunk, pow).len() ==> chunk_ok(
                #[trigger] right_splits(chunk, pow)[i],
            ),
    decreases pow,
{
    if pow > 0 && splittable(chunk, pow) {
        lemma_right_splits_ok(2 * chunk, pow - 1);
        let rest = right_splits(2 * chunk, pow - 1);
        assert forall|i: int| 0 <= i < right_splits(chunk, pow).len() implies chunk_ok(
            #[trigger] right_splits(chunk, pow)[i],
        ) by {
            if i > 0 {
                assert(right_splits(chunk, pow)[i] == rest[i - 1]);
            }
        }
    }
}

proof fn lemma_prefix_cut_ok(chunk: int, pow: int, len: int, last: int)
    requires
        1 <= chunk < 1024,
        0 <= pow <= 30,
    ensures
        forall|i: int|
            0 <= i < prefix_cut(chunk, pow, len, last).chunks.len() ==> chunk_ok(
                #[trigger] prefix_cut(chunk, pow, len, last).chunks[i],
            ),
    decreases pow,
{
    let cut = prefix_cut(chunk, pow, len, last);
    if pow > 0 && splittable(chunk, pow) {
        let left = 2 * chunk - 1;
        let left_end = left * pow2((pow - 1) as nat);
        if left_end < len {
            lemma_prefix_cut_ok(2 * chunk, pow - 1, len, left_end);
            let rest = prefix_cut(2 * chunk, pow - 1, len, left_end);
            assert forall|i: int| 0 <= i < cut.chunks.len() implies chunk_ok(
                #[trigger] cut.chunks[i],
            ) by {
                if i > 0 {
                    assert(cut.chunks[i] == rest.chunks[i - 1]);
                }
            }
        } else {
            lemma_prefix_cut_ok(left, pow - 1, len, last);
            let rest = prefix_cut(left, pow - 1, len, last);
            assert(cut == rest);
            assert forall|i: int| 0 <= i < cut.chunks.len() implies chunk_ok(
                #[trigger] cut.chunks[i],
            ) by {
                assert(chunk_ok(rest.chunks[i]));
            }
        }
    }
}

/// The first division of an array makes chunks that can be the subject of tasks.
proof fn lemma_first_cut_ok(len: int)
    requires
        0 <= len <= 0x8000_0000,
    ensures
        forall|i: int|
            0 <= i < first_cut(len).chunks.len() ==> chunk_ok(#[trigger] first_cut(len).chunks[i]),
{
    if len > 4096 {
        super::lemma_log2_floor(len);
        vstd::arithmetic::power2::lemma2_to64();
        let n = super::log2_floor(len);
        if n > 31 {
            vstd::arithmetic::power2::lemma_pow2_strictly_increases(31, n);
        }
        assert(log2_ceil(len) <= 31);
        if log2_ceil(len) == 31 {
            let rest = prefix_cut(2, 30, len, pow2(30) as int);
            lemma_prefix_cut_ok(2, 30, len, pow2(30) as int);
            assert forall|i: int| 0 <= i < first_cut(len).chunks.len() implies chunk_ok(
                #[trigger] first_cut(len).chunks[i],
            ) by {
                if i > 0 {
                    assert(chunk_ok(rest.chunks[i - 1]));
                }
            }
        } else {
            lemma_prefix_cut_ok(1, log2_ceil(len), len, 0);
        }
    }
}

/// A chunk in front of others.
proof fn lemma_tiles_front(c: Chunk, chunks: Seq<Chunk>, to: int)
    requires
        tiles(chunks, c.end(), to),
    ensures
        tiles(seq![c] + chunks, c.start(), to),
{
    let all = seq![c] + chunks;
    assert forall|i: int| 0 <= i < all.len() - 1 implies (#[trigger] all[i]).end() == all[i
        + 1].start() by {
        if i == 0 {
            assert(all[1] == chunks[0]);
        } else {
            assert(all[i] == chunks[i - 1] && all[i + 1] == chunks[i - 1 + 1]);
            assert(chunks[i - 1].end() == chunks[i - 1 + 1].start());
        }
    }
    if chunks.len() > 0 {
        assert(all.last() == chunks.last());
    }
}

/// Dividing a chunk leaves no gap.
proof fn lemma_right_splits_tiles(chunk: int, pow: int)
    requires
        1 <= chunk < 1024,
        0 <= pow <= 30,
    ensures
        ({
            let whole = Chunk { chunk: chunk as u64, pow: pow as u64 };
            let (rest, p) = right_rest(chunk, pow);
            &&& tiles(right_splits(chunk, pow), whole.start(), (rest - 1) * pow2(p as nat))
            &&& rest * pow2(p as nat) == whole.end()
        }),
    decreases pow,
{
    if pow > 0 && splittable(chunk, pow) {
        super::mark::lemma_split(chunk as u64, pow as u64);
        lemma_right_splits_tiles(2 * chunk, pow - 1);
        let (rest, p) = right_rest(chunk, pow);
        let left = Chunk { chunk: (2 * chunk - 1) as u64, pow: (pow - 1) as u64 };
        lemma_tiles_front(left, right_splits(2 * chunk, pow - 1), (rest - 1) * pow2(p as nat));
    }
}

/// Cutting chunks from the left leaves no gap.
proof fn lemma_prefix_cut_tiles(chunk: int, pow: int, len: int, last: int)
    requires
        1 <= chunk < 1024,
        0 <= pow <= 30,
        last == (Chunk { chunk: chunk as u64, pow: pow as u64 }).start(),
        last <= len,
    ensures
        tiles(
            prefix_cut(chunk, pow, len, last).chunks,
            last,
            prefix_cut(chunk, pow, len, last).last,
        ),
        prefix_cut(chunk, pow, len, last).last <= len,
    decreases pow,
{
    if pow > 0 && splittable(chunk, pow) {
        super::mark::lemma_split(chunk as u64, pow as u64);
        let left = Chunk { chunk: (2 * chunk - 1) as u64, pow: (pow - 1) as u64 };
        let left_end = (2 * chunk - 1) * pow2((pow - 1) as nat);
        assert(left.end() == left_end);
        if left_end < len {
            lemma_prefix_cut_tiles(2 * chunk, pow - 1, len, left_end);
            let rest = prefix_cut(2 * chunk, pow - 1, len, left_end);
            lemma_tiles_front(left, rest.chunks, rest.last);
        } else {
            lemma_prefix_cut_tiles(2 * chunk - 1, pow - 1, len, last);
        }
    }
}

/// The first division of an array leaves no gap.
proof fn lemma_first_cut_tiles(len: int)
    requires
        0 <= len <= 0x8000_0000,
    ensures
        tiles(first_cut(len).chunks, 0, first_cut(len).last),
        first_cut(len).last <= len,
{
    if len > 4096 {
        super::lemma_log2_floor(len);
        vstd::arithmetic::power2::lemma2_to64();
        let n = super::log2_floor(len);
        if n > 31 {
            vstd::arithmetic::power2::lemma_pow2_strictly_increases(31, n);
        }
        let bits = log2_ceil(len);
        assert(0 <= bits <= 31);
        if bits == 31 {
            let half = Chunk { chunk: 1, pow: 30 };
            assert(half.start() == 0 && half.end() == pow2(30) && (Chunk {
                chunk: 2,
                pow: 30,
            }).start() == pow2(30)) by (nonlinear_arith)
                requires
                    half.start() == (1 - 1) * pow2(30),
                    half.end() == 1 * pow2(30),
                    (Chunk { chunk: 2, pow: 30 }).start() == (2 - 1) * pow2(30),
            ;
            if n == 30 {
                assert(len > pow2(30));
            }
            lemma_prefix_cut_tiles(2, 30, len, pow2(30) as int);
            let rest = prefix_cut(2, 30, len, pow2(30) as int);
            lemma_tiles_front(half, rest.chunks, rest.last);
        } else {
            assert((Chunk { chunk: 1, pow: bits as u64 }).start() == 0) by (nonlinear_arith)
                requires
                    (Chunk { chunk: 1, pow: bits as u64 }).start() == (1 - 1) * pow2(
                        (bits as u64) as nat,
                    ),
            ;
            lemma_prefix_cut_tiles(1, bits, len, 0);
        }
    }
}

/// The tasks for chunks are waiting.
proof fn lemma_chunks_wait(st: MarkState, a: int, chunks: Seq<Chunk>)
    ensures
        add_chunks(st, a, chunks).marked == st.marked,
        forall|i: int|
            0 <= i < chunks.len() ==> add_chunks(st, a, chunks).tasks.contains(
                chunk_task(a, #[trigger] chunks[i]),
            ),
    decreases chunks.len(),
{
    if chunks.len() > 0 {
        lemma_chunks_wait(st, a, chunks.drop_last());
        let rest = add_chunks(st, a, chunks.drop_last());
        let next = add_chunks(st, a, chunks);
        assert forall|i: int| 0 <= i < chunks.len() implies next.tasks.contains(
            chunk_task(a, #[trigger] chunks[i]),
        ) by {
            if i < chunks.len() - 1 {
                assert(chunks.drop_last()[i] == chunks[i]);
                assert(rest.tasks.contains(chunk_task(a, chunks.drop_last()[i])));
            }
        }
    }
}

/// Visiting marks what is visited, and no task goes.
proof fn lemma_visit_grows(objs: Seq<Object>, st: MarkState, refs: Seq<usize>)
    ensures
        forall|k: int|
            0 <= k < refs.len() ==> visit_seq(objs, st, refs).marked.contains(
                (#[trigger] refs[k]) as int,
            ),
        forall|w: u64| #[trigger]
            st.tasks.contains(w) ==> visit_seq(objs, st, refs).tasks.contains(w),
        forall|a: int| #[trigger]
            st.marked.contains(a) ==> visit_seq(objs, st, refs).marked.contains(a),
    decreases refs.len(),
{
    if refs.len() > 0 {
        let rest = refs.drop_last();
        lemma_visit_grows(objs, st, rest);
        assert forall|k: int| 0 <= k < refs.len() implies visit_seq(
            objs,
            st,
            refs,
        ).marked.contains((#[trigger] refs[k]) as int) by {
            if k < rest.len() {
                assert(rest[k] == refs[k]);
            }
        }
    }
}

/// Elements that are visited are marked, for the others tasks are waiting.
proof fn lemma_elements_seen(
    objs: Seq<Object>,
    elements: Seq<usize>,
    a: int,
    chunks: Seq<Chunk>,
    from: int,
    mid: int,
    to: int,
    st: MarkState,
)
    requires
        0 <= from <= mid <= to <= elements.len(),
        forall|i: int| 0 <= i < chunks.len() ==> chunk_ok(#[trigger] chunks[i]),
        forall|k: int| from <= k < mid ==> #[trigger] in_chunks(chunks, k),
    ensures
        ({
            let end = visit_seq(objs, add_chunks(st, a, chunks), elements.subrange(mid, to));
            &&& forall|k: int|
                from <= k < to ==> end.marked.contains((#[trigger] elements[k]) as int)
                    || element_waits(end.tasks, a, k)
            &&& forall|b: int| #[trigger] st.marked.contains(b) ==> end.marked.contains(b)
        }),
{
    let st2 = add_chunks(st, a, chunks);
    let refs = elements.subrange(mid, to);
    let end = visit_seq(objs, st2, refs);
    lemma_chunks_wait(st, a, chunks);
    lemma_visit_grows(objs, st2, refs);
    assert forall|k: int| from <= k < to implies end.marked.contains((#[trigger] elements[k]) as int)
        || element_waits(end.tasks, a, k) by {
        if k < mid {
            assert(in_chunks(chunks, k));
            let i = choose|i: int|
                0 <= i < chunks.len() && (#[trigger] chunks[i]).start() <= k < chunks[i].end();
            assert(st2.tasks.contains(chunk_task(a, chunks[i])));
            assert(end.tasks.contains(chunk_task(a, chunks[i])));
        } else {
            assert(refs[k - mid] == elements[k]);
        }
    }
}

/// Once the references that a task stands for have been seen to, the task may go.
proof fn lemma_task_done(objs: Seq<Object>, roots: Set<int>, st: MarkState, w: u64)
    requires
        objects_wf(objs),
        marking_core(objs, roots, MarkState { tasks: st.tasks.insert(w), ..st }),
        is_whole(w) ==> forall|k: int|
            0 <= k < object_at(objs, task_object(w)).fields@.len() ==> st.marked.contains(
                (#[trigger] object_at(objs, task_object(w)).fields@[k]) as int,
            ),
        is_whole(w) && object_at(objs, task_object(w)).has_elements() ==> forall|k: int|
            0 <= k < object_at(objs, task_object(w)).elements@.len() ==> st.marked.contains(
                (#[trigger] object_at(objs, task_object(w)).elements@[k]) as int,
            ) || element_waits(st.tasks, task_object(w), k),
        !is_whole(w) ==> forall|k: int|
            task_chunk(w).start() <= k < task_chunk(w).end() && 0 <= k < object_at(
                objs,
                task_object(w),
            ).elements@.len() ==> st.marked.contains(
                (#[trigger] object_at(objs, task_object(w)).elements@[k]) as int,
            ) || element_waits(st.tasks, task_object(w), k),
    ensures
        marking_core(objs, roots, st),
{
    reveal(marking_core);
    let more = MarkState { tasks: st.tasks.insert(w), ..st };
    assert(more.tasks.contains(w));
    assert forall|x: u64| #[trigger] st.tasks.contains(x) implies task_ok(
        objs,
        st.marked,
        x,
    ) by {
        assert(more.tasks.contains(x));
    }
    let a = task_object(w);
    assert forall|b: int, k: int|
        st.marked.contains(b) && object_at(objs, b).traced && 0 <= k < object_at(
            objs,
            b,
        ).fields@.len() implies st.marked.contains(
        (#[trigger] object_at(objs, b).fields@[k]) as int,
    ) || st.tasks.contains(whole_task(b)) by {
        assert(more.marked.contains(object_at(objs, b).fields@[k] as int) || more.tasks.contains(
            whole_task(b),
        ));
        if whole_task(b) == w {
            lemma_object_at(objs, b);
            lemma_whole_task(b);
        }
    }
    assert forall|b: int, k: int|
        st.marked.contains(b) && object_at(objs, b).traced && object_at(objs, b).has_elements()
            && 0 <= k < object_at(objs, b).elements@.len() implies st.marked.contains(
        (#[trigger] object_at(objs, b).elements@[k]) as int,
    ) || element_waits(st.tasks, b, k) by {
        lemma_object_at(objs, b);
        lemma_whole_task(b);
        if !st.marked.contains(object_at(objs, b).elements@[k] as int) {
            assert(element_waits(more.tasks, b, k));
            if more.tasks.contains(whole_task(b)) {
                if whole_task(b) != w {
                    assert(st.tasks.contains(whole_task(b)));
                }
            } else {
                let c = choose|c: Chunk|
                    chunk_ok(c) && c.start() <= k < c.end() && #[trigger] more.tasks.contains(
                        chunk_task(b, c),
                    );
                lemma_chunk_task(b, c);
                if chunk_task(b, c) != w {
                    assert(st.tasks.contains(chunk_task(b, c)));
                }
            }
        }
    }
}

/// What an object of a task refers to is reachable, as the object is.
proof fn lemma_task_object(objs: Seq<Object>, roots: Set<int>, st: MarkState, w: u64)
    requires
        objects_wf(objs),
        marking_core(objs, roots, st),
        st.tasks.contains(w),
    ensures
        task_ok(objs, st.marked, w),
        ({
            let o = object_at(objs, task_object(w));
            &&& o.elements@.len() <= 0x8000_0000
            &&& forall|k: int|
                0 <= k < o.fields@.len() ==> is_object(objs, (#[trigger] o.fields@[k]) as int)
                    && reachable(objs, roots, o.fields@[k] as int)
            &&& o.has_elements() ==> forall|k: int|
                0 <= k < o.elements@.len() ==> is_object(objs, (#[trigger] o.elements@[k]) as int)
                    && reachable(objs, roots, o.elements@[k] as int)
        }),
{
    let a = task_object(w);
    let o = object_at(objs, a);
    assert(task_ok(objs, st.marked, w) && reachable(objs, roots, a)) by {
        reveal(marking_core);
    }
    lemma_object_at(objs, a);
    assert forall|k: int| 0 <= k < o.fields@.len() implies is_object(
        objs,
        (#[trigger] o.fields@[k]) as int,
    ) && reachable(objs, roots, o.fields@[k] as int) by {
        assert(refers(objs, a, o.fields@[k] as int));
        lemma_reachable_step(objs, roots, a, o.fields@[k] as int);
    }
    if o.has_elements() {
        assert forall|k: int| 0 <= k < o.elements@.len() implies is_object(
            objs,
            (#[trigger] o.elements@[k]) as int,
        ) && reachable(objs, roots, o.elements@[k] as int) by {
            assert(refers(objs, a, o.elements@[k] as int));
            lemma_reachable_step(objs, roots, a, o.elements@[k] as int);
        }
    }
}

/// Adding tasks for chunks and visiting the elements behind them.
proof fn lemma_array_part(
    objs: Seq<Object>,
    roots: Set<int>,
    st: MarkState,
    w: u64,
    chunks: Seq<Chunk>,
    from: int,
    mid: int,
    to: int,
)
    requires
        objects_wf(objs),
        marking_core(objs, roots, MarkState { tasks: st.tasks.insert(w), ..st }),
        object_at(objs, task_object(w)).has_elements(),
        0 <= from <= mid <= to <= object_at(objs, task_object(w)).elements@.len(),
        tiles(chunks, from, mid),
        forall|i: int| 0 <= i < chunks.len() ==> chunk_ok(#[trigger] chunks[i]),
    ensures
        ({
            let o = object_at(objs, task_object(w));
            let end = visit_seq(
                objs,
                add_chunks(st, task_object(w), chunks),
                o.elements@.subrange(mid, to),
            );
            &&& marking_core(objs, roots, MarkState { tasks: end.tasks.insert(w), ..end })
            &&& forall|k: int|
                from <= k < to ==> end.marked.contains((#[trigger] o.elements@[k]) as int)
                    || element_waits(end.tasks, task_object(w), k)
            &&& forall|b: int| #[trigger] st.marked.contains(b) ==> end.marked.contains(b)
        }),
{
    let a = task_object(w);
    let o = object_at(objs, a);
    let more = MarkState { tasks: st.tasks.insert(w), ..st };
    assert(more.tasks.contains(w));
    lemma_task_object(objs, roots, more, w);
    lemma_tiles_cover(chunks, from, mid);
    lemma_add_chunks(objs, roots, more, a, chunks);
    lemma_add_chunks_frame(st, a, chunks, w);
    let st2 = add_chunks(st, a, chunks);
    let more2 = add_chunks(more, a, chunks);
    let refs = o.elements@.subrange(mid, to);
    assert forall|k: int| 0 <= k < refs.len() implies is_object(objs, (#[trigger] refs[k]) as int)
        && reachable(objs, roots, refs[k] as int) by {
        assert(refs[k] == o.elements@[k + mid]);
    }
    lemma_visit_seq(objs, roots, more2, refs);
    lemma_visit_seq_frame(objs, st2, refs, w);
    lemma_elements_seen(objs, o.elements@, a, chunks, from, mid, to, st);
}

/// Doing a task keeps what holds throughout marking.
pub proof fn lemma_task_effect(objs: Seq<Object>, roots: Set<int>, st: MarkState, w: u64)
    requires
        objects_wf(objs),
        marking_inv(objs, roots, MarkState { tasks: st.tasks.insert(w), ..st }),
    ensures
        marking_inv(objs, roots, task_effect(objs, st, w)),
        forall|a: int| #[trigger]
            st.marked.contains(a) ==> task_effect(objs, st, w).marked.contains(a),
{
    let more = MarkState { tasks: st.tasks.insert(w), ..st };
    let a = task_object(w);
    let o = object_at(objs, a);
    let n = o.elements@.len() as int;
    assert(more.tasks.contains(w));
    lemma_task_object(objs, roots, more, w);
    if is_whole(w) {
        let st1 = visit_seq(objs, st, o.fields@);
        lemma_visit_seq(objs, roots, more, o.fields@);
        lemma_visit_seq_frame(objs, st, o.fields@, w);
        lemma_visit_grows(objs, st, o.fields@);
        if o.has_elements() {
            let cut = first_cut(n);
            lemma_first_cut_ok(n);
            lemma_first_cut_tiles(n);
            lemma_tiles_cover(cut.chunks, 0, cut.last);
            lemma_array_part(objs, roots, st1, w, cut.chunks, 0, cut.last, n);
            lemma_task_done(objs, roots, task_effect(objs, st, w), w);
        } else {
            lemma_task_done(objs, roots, st1, w);
        }
    } else {
        let c = task_chunk(w);
        let chunks = right_splits(c.chunk as int, c.pow as int);
        let (rest, pow) = right_rest(c.chunk as int, c.pow as int);
        let from = (rest - 1) * pow2(pow as nat);
        let to = rest * pow2(pow as nat);
        lemma_right_splits_ok(c.chunk as int, c.pow as int);
        lemma_right_splits_tiles(c.chunk as int, c.pow as int);
        lemma_tiles_cover(chunks, c.start(), from);
        assert(c.start() >= 0) by (nonlinear_arith)
            requires
                c.start() == (c.chunk - 1) * pow2(c.pow as nat),
                c.chunk >= 1,
        ;
        assert(from <= to) by (nonlinear_arith)
            requires
                from == (rest - 1) * pow2(pow as nat),
                to == rest * pow2(pow as nat),
        ;
        lemma_array_part(objs, roots, st, w, chunks, c.start(), from, to);
        lemma_task_done(objs, roots, task_effect(objs, st, w), w);
    }
}

/// A new root that has been visited.
pub proof fn lemma_visit_root(objs: Seq<Object>, roots: Set<int>, st: MarkState, a: int)
    requires
        objects_wf(objs),
        marking_inv(objs, roots, st),
        is_object(objs, a),
    ensures
        marking_inv(objs, roots.insert(a), visit_one(objs, st, a)),
{
    let more = roots.insert(a);
    assert(is_path(objs, more, seq![a]));
    assert(seq![a].last() == a);
    assert(marking_core(objs, more, st)) by {
        reveal(marking_core);
        assert forall|b: int| #[trigger] st.marked.contains(b) implies reachable(
            objs,
            more,
            b,
        ) by {
            let path = choose|path: Seq<int>| #[trigger]
                is_path(objs, roots, path) && path.last() == b;
            assert(is_path(objs, more, path));
        }
    }
    lemma_visit_one(objs, more, st, a);
}

/// Before anything is marked and without roots, what holds throughout marking holds.
pub proof fn lemma_marking_start(objs: Seq<Object>, st: MarkState)
    requires
        st.marked == Set::<int>::empty(),
        st.tasks == Multiset::<u64>::empty(),
    ensures
        marking_inv(objs, Set::empty(), st),
{
    reveal(marking_core);
}

/// Marking the bit of an object marks that object only.
proof fn lemma_mark_bit(objs: Seq<Object>, before: &MarkingContext, after: &MarkingContext, a: int)
    requires
        objects_wf(objs),
        fits(objs, before),
        is_object(objs, a),
        after.bits().same_shape(&before.bits()),
        after.bits().slots() == before.bits().slots().insert(before.bits().slot(a)),
    ensures
        fits(objs, after),
        state(objs, after).marked == state(objs, before).marked.insert(a),
{
    lemma_object_at(objs, a);
    assert forall|b: int| is_object(objs, b) implies after.marked(b) == (b == a || before.marked(b)) by {
        lemma_object_at(objs, b);
        let i = choose|i: int| 0 <= i < objs.len() && (#[trigger] objs[i]).addr == a;
        let j = choose|j: int| 0 <= j < objs.len() && (#[trigger] objs[j]).addr == b;
        assert(before.bits().covers(objs[i].addr as int));
        assert(before.bits().covers(objs[j].addr as int));
    }
    assert(state(objs, after).marked =~= state(objs, before).marked.insert(a));
}

/// Whether what holds throughout marking holds, for some roots.
pub open spec fn marking_sound(objs: Seq<Object>, st: MarkState) -> bool {
    exists|roots: Set<int>| #[trigger] marking_inv(objs, roots, st)
}

/// The state after tasks have been taken and done.
pub open spec fn after_tasks(objs: Seq<Object>, st: MarkState, words: Seq<u64>) -> MarkState
    decreases words.len(),
{
    if words.len() == 0 {
        st
    } else {
        let rest = after_tasks(objs, st, words.drop_last());
        task_effect(
            objs,
            MarkState { tasks: rest.tasks.remove(words.last()), ..rest },
            words.last(),
        )
    }
}

/// Whether each task was waiting when its turn came.
pub open spec fn done_in_order(objs: Seq<Object>, st: MarkState, words: Seq<u64>) -> bool
    decreases words.len(),
{
    words.len() > 0 ==> {
        &&& done_in_order(objs, st, words.drop_last())
        &&& after_tasks(objs, st, words.drop_last()).tasks.contains(words.last())
    }
}

/// The work of one marking thread.
#[derive(Clone, Copy, PartialEq, Eq, Debug, Structural)]
pub struct MarkingTask {
    task_id: usize,
}

/// What a marking thread does next.
#[derive(Clone, Copy, PartialEq, Eq, Debug, Structural)]
pub enum MarkStep {
    /// Collection has been cancelled: stop.
    Cancelled,
    /// There was work: go on.
    Again,
    /// There was none: leave the set of threads that can be suspended and ask the
    /// terminator whether to stop.
    Idle,
}

/// Whether marking may go on with a context for the given objects.
pub open spec fn ready(objs: Seq<Object>, ctx: &MarkingContext, id: int) -> bool {
    &&& objects_wf(objs)
    &&& ctx.wf()
    &&& fits(objs, ctx)
    &&& 0 <= id < ctx.queues().views().len()
    &&& 2 * ctx.queues().views().len() <= usize::MAX
}

impl MarkingTask {
    pub closed spec fn id(self) -> int {
        self.task_id as int
    }

    pub fn new(task_id: usize) -> (r: MarkingTask)
        ensures
            r.id() == task_id,
    {
        MarkingTask { task_id }
    }

    /// The place of an object in the table.
    pub fn find(objs: &Vec<Object>, addr: usize) -> (r: usize)
        requires
            objects_wf(objs@),
            is_object(objs@, addr as int),
        ensures
            r < objs@.len(),
            objs@[r as int] == object_at(objs@, addr as int),
            objs@[r as int].addr == addr,
    {
        let ghost at = choose|i: int| 0 <= i < objs@.len() && (#[trigger] objs@[i]).addr == addr;
        let mut lo: usize = 0;
        let mut hi: usize = objs.len();
        while lo + 1 < hi
            invariant
                objects_wf(objs@),
                0 <= lo <= at < hi <= objs@.len(),
                objs@[at].addr == addr,
            decreases hi - lo,
        {
            let mid: usize = lo + (hi - lo) / 2;
            if objs[mid].addr <= addr {
                lo = mid;
            } else {
                hi = mid;
            }
        }
        lo
    }

    /// Visits an object: marks it and, if it was not marked and has references,
    /// adds a task to follow them.
    pub fn visit(&self, ctx: &mut MarkingContext, objs: &Vec<Object>, addr: usize)
        requires
            ready(objs@, old(ctx), self.id()),
            is_object(objs@, addr as int),
        ensures
            ready(objs@, final(ctx), self.id()),
            state(objs@, final(ctx)) == visit_one(objs@, state(objs@, old(ctx)), addr as int),
            final(ctx).complete() == old(ctx).complete(),
    {
        let i: usize = Self::find(objs, addr);
        let ghost before = *ctx;
        assert(ctx.bits().covers(objs@[i as int].addr as int));
        let first: bool = ctx.mark(addr);
        proof {
            lemma_mark_bit(objs@, &before, ctx, addr as int);
            if !first {
                assert(state(objs@, ctx).marked =~= state(objs@, &before).marked);
            }
        }
        if first {
            if objs[i].traced {
                ctx.push(self.task_id, MarkTask::new(addr as u64, false, false));
                assert(state(objs@, ctx).marked =~= state(objs@, &before).marked.insert(
                    addr as int,
                ));
            }
        }
    }

    /// Visits some of the given objects in order.
    fn visit_range(
        &self,
        ctx: &mut MarkingContext,
        objs: &Vec<Object>,
        refs: &Vec<usize>,
        from: usize,
        to: usize,
    )
        requires
            ready(objs@, old(ctx), self.id()),
            from <= to <= refs@.len(),
            forall|k: int|
                0 <= k < refs@.len() ==> is_object(objs@, (#[trigger] refs@[k]) as int),
        ensures
            ready(objs@, final(ctx), self.id()),
            state(objs@, final(ctx)) == visit_seq(
                objs@,
                state(objs@, old(ctx)),
                refs@.subrange(from as int, to as int),
            ),
            final(ctx).complete() == old(ctx).complete(),
    {
        let ghost start = state(objs@, ctx);
        let ghost complete = ctx.complete();
        let mut k: usize = from;
        assert(refs@.subrange(from as int, from as int).len() == 0);
        while k < to
            invariant
                from <= k <= to <= refs@.len(),
                ready(objs@, ctx, self.id()),
                forall|k: int|
                    0 <= k < refs@.len() ==> is_object(objs@, (#[trigger] refs@[k]) as int),
                state(objs@, ctx) == visit_seq(
                    objs@,
                    start,
                    refs@.subrange(from as int, k as int),
                ),
                ctx.complete() == complete,
            decreases to - k,
        {
            self.visit(ctx, objs, refs[k]);
            proof {
                let more = refs@.subrange(from as int, k + 1);
                assert(more.drop_last() =~= refs@.subrange(from as int, k as int));
                assert(more.last() == refs@[k as int]);
            }
            k = k + 1;
        }
    }

    /// Adds tasks for the chunks of an object.
    fn push_chunks(
        &self,
        ctx: &mut MarkingContext,
        Ghost(objs): Ghost<Seq<Object>>,
        addr: usize,
        chunks: &Vec<Chunk>,
    )
        requires
            ready(objs, old(ctx), self.id()),
        ensures
            ready(objs, final(ctx), self.id()),
            state(objs, final(ctx)) == add_chunks(state(objs, old(ctx)), addr as int, chunks@),
            final(ctx).complete() == old(ctx).complete(),
    {
        let ghost start = state(objs, ctx);
        let ghost complete = ctx.complete();
        let mut i: usize = 0;
        while i < chunks.len()
            invariant
                i <= chunks@.len(),
                ready(objs, ctx, self.id()),
                state(objs, ctx) == add_chunks(start, addr as int, chunks@.take(i as int)),
                ctx.complete() == complete,
            decreases chunks@.len() - i,
        {
            let ghost before = *ctx;
            ctx.push(
                self.task_id,
                MarkTask::new2(addr as u64, true, false, chunks[i].chunk, chunks[i].pow),
            );
            proof {
                assert(chunks@.take(i + 1).drop_last() =~= chunks@.take(i as int));
                assert(chunks@.take(i + 1).last() == chunks@[i as int]);
                assert(state(objs, ctx).marked =~= state(objs, &before).marked);
            }
            i = i + 1;
        }
        assert(chunks@.take(chunks@.len() as int) =~= chunks@);
    }

    /// Does a task: follows the references of its object, or of a part of it.
    pub fn do_task(&self, ctx: &mut MarkingContext, objs: &Vec<Object>, task: MarkTask)
        requires
            ready(objs@, old(ctx), self.id()),
            task_ok(objs@, state(objs@, old(ctx)).marked, task.word()),
        ensures
            ready(objs@, final(ctx), self.id()),
            state(objs@, final(ctx)) == task_effect(objs@, state(objs@, old(ctx)), task.word()),
            final(ctx).complete() == old(ctx).complete(),
    {
        let ghost a = task_object(task.word());
        proof {
            lemma_object_at(objs@, a);
        }
        let obj: usize = task.obj() as usize;
        let i: usize = Self::find(objs, obj);
        let fields: usize = objs[i].fields.len();
        if task.is_not_chunked() {
            self.visit_range(ctx, objs, &objs[i].fields, 0, fields);
            assert(objs@[i as int].fields@.subrange(0, fields as int)
                =~= objs@[i as int].fields@);
            if objs[i].varsize && objs[i].ranged {
                let plan: ChunkPlan = do_chunked_array_start(objs[i].elements.len() as u64);
                self.push_chunks(ctx, Ghost(objs@), obj, &plan.chunks);
                self.visit_range(
                    ctx,
                    objs,
                    &objs[i].elements,
                    plan.from as usize,
                    plan.to as usize,
                );
            }
        } else {
            proof {
                vstd::arithmetic::power2::lemma2_to64();
            }
            let plan: ChunkPlan = do_chunked_array(task.chunk(), task.pow());
            self.push_chunks(ctx, Ghost(objs@), obj, &plan.chunks);
            self.visit_range(ctx, objs, &objs[i].elements, plan.from as usize, plan.to as usize);
        }
    }

    /// Does up to `stride` tasks, unless collection has been cancelled. An attempt
    /// to take a task that has to be made again counts as work.
    pub fn run<const CANCELLABLE: bool>(
        &self,
        ctx: &mut MarkingContext,
        objs: &Vec<Object>,
        stride: usize,
        cancelled: bool,
    ) -> (r: MarkStep)
        requires
            ready(objs@, old(ctx), self.id()),
            marking_sound(objs@, state(objs@, old(ctx))),
        ensures
            ready(objs@, final(ctx), self.id()),
            final(ctx).complete() == old(ctx).complete(),
            r is Cancelled <==> CANCELLABLE && cancelled,
            r is Cancelled ==> *final(ctx) == *old(ctx),
            exists|words: Seq<u64>|
                #![trigger done_in_order(objs@, state(objs@, old(ctx)), words)]
                {
                    &&& words.len() <= stride
                    &&& done_in_order(objs@, state(objs@, old(ctx)), words)
                    &&& state(objs@, final(ctx)) == after_tasks(
                        objs@,
                        state(objs@, old(ctx)),
                        words,
                    )
                    &&& words.len() > 0 ==> r is Again
                    &&& r is Idle ==> words.len() == 0
                    &&& stride > 0 && !(r is Cancelled) ==> takes(
                        old(ctx).queues().views(),
                        old(ctx).queues().shared(),
                        self.id(),
                        if words.len() > 0 {
                            Taken::Task(words[0])
                        } else if r is Again {
                            Taken::Retry
                        } else {
                            Taken::Empty
                        },
                    )
                },
            old(ctx).queues().tasks() == Multiset::<u64>::empty() && !(CANCELLABLE && cancelled)
                ==> r is Idle,
            forall|roots: Set<int>| #[trigger]
                marking_inv(objs@, roots, state(objs@, old(ctx))) ==> marking_inv(
                    objs@,
                    roots,
                    state(objs@, final(ctx)),
                ),
    {
        let ghost start = state(objs@, ctx);
        let ghost none = Seq::<u64>::empty();
        assert(done_in_order(objs@, start, none));
        if CANCELLABLE && cancelled {
            return MarkStep::Cancelled;
        }
        let ghost before = *ctx;
        let ghost mut words = none;
        let mut work: usize = 0;
        let mut again: bool = false;
        let mut more: bool = true;
        while more && work < stride
            invariant
                before == *old(ctx),
                work <= stride,
                ready(objs@, ctx, self.id()),
                ctx.complete() == before.complete(),
                start == state(objs@, &before),
                words.len() == work,
                done_in_order(objs@, start, words),
                state(objs@, ctx) == after_tasks(objs@, start, words),
                marking_sound(objs@, state(objs@, ctx)),
                forall|roots: Set<int>| #[trigger]
                    marking_inv(objs@, roots, start) ==> marking_inv(
                        objs@,
                        roots,
                        state(objs@, ctx),
                    ),
                before.queues().tasks() == Multiset::<u64>::empty() ==> work == 0 && !again,
                work == 0 && more ==> *ctx == before && !again,
                work > 0 || !more ==> takes(
                    before.queues().views(),
                    before.queues().shared(),
                    self.id(),
                    if work > 0 {
                        Taken::Task(words[0])
                    } else if again {
                        Taken::Retry
                    } else {
                        Taken::Empty
                    },
                ),
            decreases stride - work, (if more { 1int } else { 0int }),
        {
            let ghost prev = *ctx;
            let ghost st = state(objs@, ctx);
            let taken: Taken = ctx.take(self.task_id);
            assert(took(
                prev.queues().views(),
                prev.queues().shared(),
                ctx.queues().views(),
                ctx.queues().shared(),
                self.id(),
                taken,
            ));
            match taken {
                Taken::Task(word) => {
                    let ghost mid = state(objs@, ctx);
                    proof {
                        assert(mid.marked =~= st.marked);
                        assert(mid.tasks.insert(word) =~= st.tasks);
                        assert((MarkState { tasks: mid.tasks.insert(word), ..mid }) =~= st);
                        assert(task_ok(objs@, mid.marked, word)) by {
                            let roots = choose|roots: Set<int>| #[trigger]
                                marking_inv(objs@, roots, st);
                            reveal(marking_core);
                        }
                    }
                    self.do_task(ctx, objs, MarkTask::from_word(word));
                    proof {
                        assert forall|roots: Set<int>| #[trigger]
                            marking_inv(objs@, roots, st) implies marking_inv(
                            objs@,
                            roots,
                            state(objs@, ctx),
                        ) by {
                            lemma_task_effect(objs@, roots, mid, word);
                        }
                        assert(marking_sound(objs@, state(objs@, ctx))) by {
                            let roots = choose|roots: Set<int>| #[trigger]
                                marking_inv(objs@, roots, st);
                            assert(marking_inv(objs@, roots, state(objs@, ctx)));
                        }
                        let longer = words.push(word);
                        assert(longer.drop_last() =~= words);
                        assert(mid =~= (MarkState { tasks: st.tasks.remove(word), ..st }));
                        words = longer;
                    }
                    work = work + 1;
                },
                Taken::Retry => {
                    again = true;
                    more = false;
                    assert(state(objs@, ctx) =~= st);
                },
                Taken::Empty => {
                    more = false;
                    assert(state(objs@, ctx) =~= st);
                },
            }
        }
        if work == 0 && !again {
            MarkStep::Idle
        } else {
            MarkStep::Again
        }
    }
}

/// Visits an object, and adds the task to follow its references to the queue that all
/// marking threads share.
pub fn visit_root(ctx: &mut MarkingContext, objs: &Vec<Object>, addr: usize)
    requires
        objects_wf(objs@),
        old(ctx).wf(),
        fits(objs@, old(ctx)),
        is_object(objs@, addr as int),
    ensures
        final(ctx).wf(),
        fits(objs@, final(ctx)),
        state(objs@, final(ctx)) == visit_one(objs@, state(objs@, old(ctx)), addr as int),
        final(ctx).complete() == old(ctx).complete(),
        final(ctx).queues().views() == old(ctx).queues().views(),
{
    let i: usize = MarkingTask::find(objs, addr);
    let ghost before = *ctx;
    assert(ctx.bits().covers(objs@[i as int].addr as int));
    let first: bool = ctx.mark(addr);
    proof {
        lemma_mark_bit(objs@, &before, ctx, addr as int);
        if !first {
            assert(state(objs@, ctx).marked =~= state(objs@, &before).marked);
        }
    }
    if first {
        if objs[i].traced {
            ctx.inject(MarkTask::new(addr as u64, false, false));
            assert(state(objs@, ctx).marked =~= state(objs@, &before).marked.insert(addr as int));
        }
    }
}

/// Visits roots in order.
pub fn visit_roots(ctx: &mut MarkingContext, objs: &Vec<Object>, roots: &Vec<usize>)
    requires
        objects_wf(objs@),
        old(ctx).wf(),
        fits(objs@, old(ctx)),
        forall|k: int| 0 <= k < roots@.len() ==> is_object(objs@, (#[trigger] roots@[k]) as int),
    ensures
        final(ctx).wf(),
        fits(objs@, final(ctx)),
        state(objs@, final(ctx)) == visit_seq(objs@, state(objs@, old(ctx)), roots@),
        final(ctx).complete() == old(ctx).complete(),
        final(ctx).queues().views() == old(ctx).queues().views(),
{
    let ghost start = state(objs@, ctx);
    let ghost before = *ctx;
    let mut k: usize = 0;
    assert(roots@.take(0).len() == 0);
    while k < roots.len()
        invariant
            k <= roots@.len(),
            objects_wf(objs@),
            ctx.wf(),
            fits(objs@, ctx),
            forall|k: int|
                0 <= k < roots@.len() ==> is_object(objs@, (#[trigger] roots@[k]) as int),
            state(objs@, ctx) == visit_seq(objs@, start, roots@.take(k as int)),
            ctx.complete() == before.complete(),
            ctx.queues().views() == before.queues().views(),
        decreases roots@.len() - k,
    {
        visit_root(ctx, objs, roots[k]);
        proof {
            let more = roots@.take(k + 1);
            assert(more.drop_last() =~= roots@.take(k as int));
            assert(more.last() == roots@[k as int]);
        }
        k = k + 1;
    }
    assert(roots@.take(k as int) =~= roots@);
}

/// The roots of a list.
pub open spec fn root_set(roots: Seq<usize>) -> Set<int> {
    Set::new(|a: int| exists|k: int| 0 <= k < roots.len() && (#[trigger] roots[k]) == a)
}

/// Visiting roots keeps what holds throughout marking, for these roots as well.
pub proof fn lemma_visit_roots(
    objs: Seq<Object>,
    before: Set<int>,
    st: MarkState,
    roots: Seq<usize>,
)
    requires
        objects_wf(objs),
        marking_inv(objs, before, st),
        forall|k: int| 0 <= k < roots.len() ==> is_object(objs, (#[trigger] roots[k]) as int),
    ensures
        marking_inv(objs, before.union(root_set(roots)), visit_seq(objs, st, roots)),
    decreases roots.len(),
{
    if roots.len() == 0 {
        assert(before.union(root_set(roots)) =~= before);
    } else {
        let less = roots.drop_last();
        let last = roots.last() as int;
        assert forall|k: int| 0 <= k < less.len() implies is_object(
            objs,
            (#[trigger] less[k]) as int,
        ) by {
            assert(less[k] == roots[k]);
        }
        assert(roots[roots.len() - 1] == last);
        lemma_visit_roots(objs, before, st, less);
        lemma_visit_root(
            objs,
            before.union(root_set(less)),
            visit_seq(objs, st, less),
            last,
        );
        assert forall|a: int| root_set(roots).contains(a) <==> (root_set(less).contains(a) || a
            == last) by {
            if root_set(roots).contains(a) && a != last {
                let k = choose|k: int| 0 <= k < roots.len() && (#[trigger] roots[k]) == a;
                assert(less[k] == a);
            }
            if root_set(less).contains(a) {
                let k = choose|k: int| 0 <= k < less.len() && (#[trigger] less[k]) == a;
                assert(roots[k] == a);
            }
        }
        assert(before.union(root_set(roots)) =~= before.union(root_set(less)).insert(last));
    }
}

proof fn lemma_after_tasks(objs: Seq<Object>, roots: Set<int>, st: MarkState, words: Seq<u64>)
    requires
        objects_wf(objs),
        marking_inv(objs, roots, st),
        done_in_order(objs, st, words),
    ensures
        marking_inv(objs, roots, after_tasks(objs, st, words)),
    decreases words.len(),
{
    if words.len() > 0 {
        let less = words.drop_last();
        let w = words.last();
        lemma_after_tasks(objs, roots, st, less);
        let rest = after_tasks(objs, st, less);
        let taken = MarkState { tasks: rest.tasks.remove(w), ..rest };
        assert(rest.tasks.remove(w).insert(w) =~= rest.tasks);
        lemma_task_effect(objs, roots, taken, w);
    }
}

/// A marking that starts with nothing marked, visits the roots, and does tasks in any order
/// until none is left marks exactly the objects that the roots lead to.
pub proof fn lemma_marking_exact(
    objs: Seq<Object>,
    start: MarkState,
    roots: Seq<usize>,
    words: Seq<u64>,
)
    requires
        objects_wf(objs),
        start.marked == Set::<int>::empty(),
        start.tasks == Multiset::<u64>::empty(),
        forall|k: int| 0 <= k < roots.len() ==> is_object(objs, (#[trigger] roots[k]) as int),
        done_in_order(objs, visit_seq(objs, start, roots), words),
        after_tasks(objs, visit_seq(objs, start, roots), words).tasks == Multiset::<u64>::empty(),
    ensures
        forall|a: int| #[trigger]
            after_tasks(objs, visit_seq(objs, start, roots), words).marked.contains(a)
                <==> reachable(objs, root_set(roots), a),
{
    lemma_marking_start(objs, start);
    lemma_visit_roots(objs, Set::empty(), start, roots);
    assert(Set::<int>::empty().union(root_set(roots)) =~= root_set(roots));
    let st = visit_seq(objs, start, roots);
    lemma_after_tasks(objs, root_set(roots), st, words);
    lemma_marking_complete(objs, root_set(roots), after_tasks(objs, st, words));
}

/// Marking while the world is stopped.
pub struct STWMark {}

impl STWMark {
    pub fn new() -> (r: Self) {
        STWMark {  }
    }

    /// Visits the roots, and returns the terminator for the threads that do the tasks.
    pub fn mark(&self, ctx: &mut MarkingContext, objs: &Vec<Object>, roots: &Vec<usize>) -> (r:
        Terminator)
        requires
            objects_wf(objs@),
            old(ctx).wf(),
            fits(objs@, old(ctx)),
            forall|k: int|
                0 <= k < roots@.len() ==> is_object(objs@, (#[trigger] roots@[k]) as int),
        ensures
            final(ctx).wf(),
            fits(objs@, final(ctx)),
            state(objs@, final(ctx)) == visit_seq(objs@, state(objs@, old(ctx)), roots@),
            final(ctx).complete() == old(ctx).complete(),
            final(ctx).queues().views() == old(ctx).queues().views(),
            r.total() == old(ctx).queues().views().len(),
            r.active() == old(ctx).queues().views().len(),
    {
        visit_roots(ctx, objs, roots);
        Terminator::new(ctx.mark_queues().nworkers())
    }
}

} // verus!
