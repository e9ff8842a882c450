//! Marking by one thread, with a stack, or by several that share the work, and the cycle
//! around it.

use vstd::multiset::Multiset;
use vstd::prelude::*;

use super::controller::GCMode;
use super::cycle::{
    advanced, at_rest, in_order, lemma_walked, marking_done, needs_stop, outcome, progress, sound, walked,
    world_stopped, GcAction, Progress,
};
use super::deque::Taken;
use super::mark::{takes, took, MarkQueueSet, MarkTask, Terminator};
use super::marking::{is_object, objects_wf, MarkingTask, Object};

verus! {

/// Marks with a stack.
pub struct MarkSweep {
    /// The numbers of the objects whose references are still to be followed.
    pub mark_stack: Vec<usize>,
    /// Whether the object with a number is marked.
    pub marked: Vec<bool>,
}

/// What an object refers to.
pub open spec fn refs_of(o: Object) -> Seq<usize> {
    o.fields@ + o.elements@
}

/// Whether the object with a number refers to an address.
pub open spec fn points(objs: Seq<Object>, i: int, addr: int) -> bool {
    0 <= i < objs.len() && exists|k: int|
        0 <= k < refs_of(objs[i]).len() && (#[trigger] refs_of(objs[i])[k]) == addr
}

/// Whether a list of numbers is a way from a root along references.
pub open spec fn is_way(objs: Seq<Object>, roots: Seq<usize>, way: Seq<int>) -> bool {
    &&& way.len() > 0
    &&& forall|k: int| 0 <= k < way.len() ==> 0 <= (#[trigger] way[k]) < objs.len()
    &&& roots.contains(objs[way[0]].addr)
    &&& forall|k: int|
        1 <= k < way.len() ==> points(objs, way[k - 1], objs[#[trigger] way[k]].addr as int)
}

/// Whether roots lead to the object with a number.
#[verifier::opaque]
pub open spec fn led_to(objs: Seq<Object>, roots: Seq<usize>, i: int) -> bool {
    exists|way: Seq<int>| #[trigger] is_way(objs, roots, way) && way.last() == i
}

/// Whether the object at an address is marked.
pub open spec fn marked_at(objs: Seq<Object>, marked: Seq<bool>, addr: int) -> bool {
    exists|i: int| 0 <= i < objs.len() && (#[trigger] objs[i]).addr == addr && marked[i]
}

/// Whether all that the object with a number refers to is marked.
pub open spec fn done_with(objs: Seq<Object>, marked: Seq<bool>, i: int) -> bool {
    forall|k: int|
        0 <= k < refs_of(objs[i]).len() ==> marked_at(
            objs,
            marked,
            (#[trigger] refs_of(objs[i])[k]) as int,
        )
}

/// Whether all roots are marked.
pub open spec fn all_marked(objs: Seq<Object>, roots: Seq<usize>, marked: Seq<bool>) -> bool {
    forall|k: int| 0 <= k < roots.len() ==> marked_at(objs, marked, (#[trigger] roots[k]) as int)
}

/// Whether a marking that has started from some roots is in order: what is marked can be
/// reached, and has been followed, or is on the stack.
pub open spec fn stack_inv(
    objs: Seq<Object>,
    roots: Seq<usize>,
    marked: Seq<bool>,
    stack: Seq<usize>,
) -> bool {
    &&& marked.len() == objs.len()
    &&& forall|k: int|
        0 <= k < stack.len() ==> (#[trigger] stack[k]) < objs.len() && marked[stack[k] as int]
    &&& forall|i: int| 0 <= i < objs.len() && (#[trigger] marked[i]) ==> led_to(objs, roots, i)
    &&& forall|i: int|
        0 <= i < objs.len() && (#[trigger] marked[i]) ==> done_with(objs, marked, i)
            || stack.contains(i as usize)
}

/// A root, or what an object that roots lead to refers to, is led to.
proof fn lemma_led_on(objs: Seq<Object>, roots: Seq<usize>, i: int, j: int)
    requires
        0 <= j < objs.len(),
        roots.contains(objs[j].addr) || (led_to(objs, roots, i) && points(
            objs,
            i,
            objs[j].addr as int,
        )),
    ensures
        led_to(objs, roots, j),
{
    reveal(led_to);
    if roots.contains(objs[j].addr) {
        assert(is_way(objs, roots, seq![j]));
        assert(seq![j].last() == j);
    } else {
        let way = choose|way: Seq<int>| #[trigger] is_way(objs, roots, way) && way.last() == i;
        let more = way.push(j);
        assert forall|k: int| 1 <= k < more.len() implies points(
            objs,
            more[k - 1],
            objs[#[trigger] more[k]].addr as int,
        ) by {
            if k < way.len() {
                assert(points(objs, way[k - 1], objs[way[k]].addr as int));
            }
        }
        assert(more[0] == way[0]);
        assert(is_way(objs, roots, more));
        assert(more.last() == j);
    }
}

/// Marking one more object keeps what has been followed.
proof fn lemma_marked_grows(objs: Seq<Object>, marked: Seq<bool>, j: int)
    requires
        marked.len() == objs.len(),
        0 <= j < objs.len(),
    ensures
        forall|a: int| #[trigger]
            marked_at(objs, marked, a) ==> marked_at(objs, marked.update(j, true), a),
        forall|i: int| #[trigger]
            done_with(objs, marked, i) ==> done_with(objs, marked.update(j, true), i),
        marked_at(objs, marked.update(j, true), objs[j].addr as int),
{
    let more = marked.update(j, true);
    assert forall|a: int| #[trigger] marked_at(objs, marked, a) implies marked_at(objs, more, a) by {
        let i = choose|i: int|
            0 <= i < objs.len() && (#[trigger] objs[i]).addr == a && marked[i];
        assert(objs[i].addr == a && more[i]);
    }
    assert forall|i: int| #[trigger] done_with(objs, marked, i) implies done_with(
        objs,
        more,
        i,
    ) by {
        assert forall|k: int| 0 <= k < refs_of(objs[i]).len() implies marked_at(
            objs,
            more,
            (#[trigger] refs_of(objs[i])[k]) as int,
        ) by {
            assert(marked_at(objs, marked, refs_of(objs[i])[k] as int));
        }
    }
    assert(objs[j].addr == objs[j].addr && more[j]);
}

/// When the stack is empty, the objects that roots lead to are marked.
proof fn lemma_way_marked(
    objs: Seq<Object>,
    roots: Seq<usize>,
    marked: Seq<bool>,
    way: Seq<int>,
    n: int,
)
    requires
        objects_wf(objs),
        stack_inv(objs, roots, marked, Seq::empty()),
        forall|k: int|
            0 <= k < roots.len() ==> marked_at(objs, marked, (#[trigger] roots[k]) as int),
        is_way(objs, roots, way),
        0 <= n < way.len(),
    ensures
        marked[way[n]],
    decreases n,
{
    let j = way[n];
    let addr = objs[j].addr as int;
    if n == 0 {
        let k = choose|k: int| 0 <= k < roots.len() && roots[k] == objs[j].addr;
        assert(marked_at(objs, marked, roots[k] as int));
    } else {
        lemma_way_marked(objs, roots, marked, way, n - 1);
        let i = way[n - 1];
        assert(points(objs, i, addr));
        assert(marked[i]);
        assert(done_with(objs, marked, i));
        let k = choose|k: int|
            0 <= k < refs_of(objs[i]).len() && (#[trigger] refs_of(objs[i])[k]) == addr;
        assert(marked_at(objs, marked, refs_of(objs[i])[k] as int));
    }
    let m = choose|m: int|
        0 <= m < objs.len() && (#[trigger] objs[m]).addr == addr && marked[m];
    if m < j {
        assert(objs[m].addr < objs[j].addr);
    } else if j < m {
        assert(objs[j].addr < objs[m].addr);
    }
}

/// The tasks of threads that share the work: the numbers of the objects on the stack.
pub open spec fn stack_tasks(stack: Seq<usize>) -> Multiset<u64> {
    stack.map_values(|i: usize| i as u64).to_multiset()
}

/// Whether a marking that several threads share is in order: what is marked can be
/// reached, and has been followed, or there is a task to follow it.
pub open spec fn shared_inv(
    objs: Seq<Object>,
    roots: Seq<usize>,
    marked: Seq<bool>,
    tasks: Multiset<u64>,
) -> bool {
    &&& marked.len() == objs.len()
    &&& tasks_ok(marked, tasks)
    &&& forall|i: int| 0 <= i < objs.len() && (#[trigger] marked[i]) ==> led_to(objs, roots, i)
    &&& forall|i: int|
        0 <= i < objs.len() && (#[trigger] marked[i]) ==> done_with(objs, marked, i)
            || tasks.contains(i as u64)
}

/// Whether each task is the number of a marked object.
pub open spec fn tasks_ok(marked: Seq<bool>, tasks: Multiset<u64>) -> bool {
    forall|w: u64| #[trigger] tasks.contains(w) ==> w < marked.len() && marked[w as int]
}

/// The number of the object at an address.
pub open spec fn number_of(objs: Seq<Object>, addr: usize) -> int {
    choose|i: int| 0 <= i < objs.len() && (#[trigger] objs[i]).addr == addr
}

/// The marks and the tasks after the first `n` of some references have been followed:
/// each object that was not marked is marked, and there is a task for it.
pub open spec fn refs_followed(
    objs: Seq<Object>,
    marked: Seq<bool>,
    tasks: Multiset<u64>,
    refs: Seq<usize>,
    n: int,
) -> (Seq<bool>, Multiset<u64>)
    decreases n,
{
    if n <= 0 {
        (marked, tasks)
    } else {
        let (m, t) = refs_followed(objs, marked, tasks, refs, n - 1);
        let j = number_of(objs, refs[n - 1]);
        if m[j] {
            (m, t)
        } else {
            (m.update(j, true), t.insert(j as u64))
        }
    }
}

/// The marks and the tasks after task `w` has been done.
pub open spec fn task_done(
    objs: Seq<Object>,
    marked: Seq<bool>,
    tasks: Multiset<u64>,
    w: u64,
) -> (Seq<bool>, Multiset<u64>) {
    let refs = refs_of(objs[w as int]);
    refs_followed(objs, marked, tasks.remove(w), refs, refs.len() as int)
}

proof fn lemma_number_of(objs: Seq<Object>, i: int)
    requires
        objects_wf(objs),
        0 <= i < objs.len(),
    ensures
        number_of(objs, objs[i].addr) == i,
{
    let j = number_of(objs, objs[i].addr);
    assert(objs[i].addr == objs[i].addr);
    assert(0 <= j < objs.len() && objs[j].addr == objs[i].addr);
    if i < j {
        assert(objs[i].addr < objs[j].addr);
    } else if j < i {
        assert(objs[j].addr < objs[i].addr);
    }
}

/// As `shared_inv`, but object `i` is being followed.
spec fn shared_but_one(
    objs: Seq<Object>,
    roots: Seq<usize>,
    marked: Seq<bool>,
    tasks: Multiset<u64>,
    i: int,
) -> bool {
    &&& marked.len() == objs.len()
    &&& marked[i]
    &&& tasks_ok(marked, tasks)
    &&& forall|m: int| 0 <= m < objs.len() && (#[trigger] marked[m]) ==> led_to(objs, roots, m)
    &&& forall|m: int|
        0 <= m < objs.len() && (#[trigger] marked[m]) && m != i ==> done_with(objs, marked, m)
            || tasks.contains(m as u64)
}

proof fn lemma_refs_followed(
    objs: Seq<Object>,
    roots: Seq<usize>,
    marked: Seq<bool>,
    tasks: Multiset<u64>,
    i: int,
    n: int,
)
    requires
        objects_wf(objs),
        objs.len() <= usize::MAX,
        0 <= i < objs.len(),
        shared_but_one(objs, roots, marked, tasks, i),
        0 <= n <= refs_of(objs[i]).len(),
    ensures
        ({
            let (m, t) = refs_followed(objs, marked, tasks, refs_of(objs[i]), n);
            &&& shared_but_one(objs, roots, m, t, i)
            &&& forall|k: int|
                0 <= k < n ==> marked_at(objs, m, (#[trigger] refs_of(objs[i])[k]) as int)
            &&& forall|a: int| #[trigger] marked_at(objs, marked, a) ==> marked_at(objs, m, a)
        }),
    decreases n,
{
    if n > 0 {
        lemma_refs_followed(objs, roots, marked, tasks, i, n - 1);
        let refs = refs_of(objs[i]);
        let (m, t) = refs_followed(objs, marked, tasks, refs, n - 1);
        let addr = refs[n - 1];
        if n - 1 < objs[i].fields@.len() {
            assert(addr == objs[i].fields@[n - 1]);
        } else {
            assert(addr == objs[i].elements@[n - 1 - objs[i].fields@.len()]);
        }
        assert(is_object(objs, addr as int));
        let j = number_of(objs, addr);
        assert(0 <= j < objs.len() && objs[j].addr == addr);
        assert(points(objs, i, addr as int));
        lemma_led_on(objs, roots, i, j);
        lemma_marked_grows(objs, m, j);
        let (m2, t2) = refs_followed(objs, marked, tasks, refs, n);
        assert(m2 =~= m.update(j, true));
        assert forall|w: u64| #[trigger] t2.contains(w) implies w < m2.len() && m2[w as int] by {
            if w != j as u64 {
                assert(t.contains(w));
            }
        }
        assert forall|k: int| 0 <= k < objs.len() && (#[trigger] m2[k]) && k != i implies done_with(
            objs,
            m2,
            k,
        ) || t2.contains(k as u64) by {
            if k != j {
                assert(m[k]);
                assert(done_with(objs, m, k) || t.contains(k as u64));
            }
        }
        assert forall|k: int| 0 <= k < n implies marked_at(
            objs,
            m2,
            (#[trigger] refs[k]) as int,
        ) by {
            if k < n - 1 {
                assert(marked_at(objs, m, refs[k] as int));
            }
        }
    }
}

/// The threads that share the work start from the stack.
pub proof fn lemma_shared_start(
    objs: Seq<Object>,
    roots: Seq<usize>,
    marked: Seq<bool>,
    stack: Seq<usize>,
)
    requires
        stack_inv(objs, roots, marked, stack),
        objs.len() <= usize::MAX,
    ensures
        shared_inv(objs, roots, marked, stack_tasks(stack)),
{
    broadcast use vstd::seq_lib::group_to_multiset_ensures;

    let words = stack.map_values(|i: usize| i as u64);
    assert forall|w: u64| #[trigger] stack_tasks(stack).contains(w) implies w < marked.len()
        && marked[w as int] by {
        assert(words.contains(w));
        let k = choose|k: int| 0 <= k < words.len() && words[k] == w;
        assert(stack[k] as u64 == w);
        assert(stack[k] < objs.len());
    }
    assert forall|i: int| 0 <= i < objs.len() && (#[trigger] marked[i]) implies done_with(
        objs,
        marked,
        i,
    ) || stack_tasks(stack).contains(i as u64) by {
        if stack.contains(i as usize) {
            let k = choose|k: int| 0 <= k < stack.len() && stack[k] == i as usize;
            assert(words[k] == i as u64);
            assert(words.contains(i as u64));
        }
    }
}

/// Doing a task, whichever thread does it, keeps the marking in order, and keeps what is
/// marked.
pub proof fn lemma_shared_step(
    objs: Seq<Object>,
    roots: Seq<usize>,
    marked: Seq<bool>,
    tasks: Multiset<u64>,
    w: u64,
)
    requires
        objects_wf(objs),
        objs.len() <= usize::MAX,
        shared_inv(objs, roots, marked, tasks),
        tasks.contains(w),
    ensures
        ({
            let (m, t) = task_done(objs, marked, tasks, w);
            &&& shared_inv(objs, roots, m, t)
            &&& all_marked(objs, roots, marked) ==> all_marked(objs, roots, m)
        }),
{
    let i = w as int;
    let less = tasks.remove(w);
    let refs = refs_of(objs[i]);
    assert forall|v: u64| #[trigger] less.contains(v) implies v < marked.len()
        && marked[v as int] by {
        assert(tasks.contains(v));
    }
    assert forall|m: int| 0 <= m < objs.len() && (#[trigger] marked[m]) && m != i implies done_with(
        objs,
        marked,
        m,
    ) || less.contains(m as u64) by {
        if tasks.contains(m as u64) {
            assert(m as u64 != w);
            assert(less.count(m as u64) == tasks.count(m as u64));
        }
    }
    lemma_refs_followed(objs, roots, marked, less, i, refs.len() as int);
    let (m, t) = task_done(objs, marked, tasks, w);
    assert(done_with(objs, m, i));
    if all_marked(objs, roots, marked) {
        assert forall|k: int| 0 <= k < roots.len() implies marked_at(
            objs,
            m,
            (#[trigger] roots[k]) as int,
        ) by {
            assert(marked_at(objs, marked, roots[k] as int));
        }
    }
}

/// When no task is left, exactly what the roots lead to is marked.
pub proof fn lemma_shared_exact(objs: Seq<Object>, roots: Seq<usize>, marked: Seq<bool>, i: int)
    requires
        objects_wf(objs),
        shared_inv(objs, roots, marked, Multiset::empty()),
        all_marked(objs, roots, marked),
        0 <= i < objs.len(),
    ensures
        marked[i] <==> led_to(objs, roots, i),
{
    lemma_stack_exact(objs, roots, marked, i);
}

/// When the stack is empty, exactly what the roots lead to is marked.
pub proof fn lemma_stack_exact(objs: Seq<Object>, roots: Seq<usize>, marked: Seq<bool>, i: int)
    requires
        objects_wf(objs),
        stack_inv(objs, roots, marked, Seq::empty()),
        all_marked(objs, roots, marked),
        0 <= i < objs.len(),
    ensures
        marked[i] <==> led_to(objs, roots, i),
{
    if led_to(objs, roots, i) {
        reveal(led_to);
        let way = choose|way: Seq<int>| #[trigger] is_way(objs, roots, way) && way.last() == i;
        lemma_way_marked(objs, roots, marked, way, way.len() - 1);
    }
}

/// The steps of the cycle.
pub open spec fn mark_sweep_cycle(mode: GCMode, parallel_sweep: bool) -> Seq<GcAction> {
    seq![
        GcAction::StopTheWorld,
        GcAction::RetireTlabs { raise_barriers: false },
        GcAction::MarkStw,
        GcAction::ProcessWeak,
        GcAction::Sweep {
            concurrent: mode == GCMode::ConcurrentSweep,
            parallel: parallel_sweep,
        },
        GcAction::RecycleTrash,
        GcAction::Rebuild,
        GcAction::ResumeTheWorld,
        GcAction::Finished { done: true },
    ]
}

impl MarkSweep {
    /// A marking of `n` objects, none of which is marked.
    pub fn new(n: usize) -> (r: Self)
        ensures
            r.mark_stack@ == Seq::<usize>::empty(),
            r.marked@.len() == n,
            forall|i: int| 0 <= i < n ==> !r.marked@[i],
    {
        MarkSweep { mark_stack: Vec::with_capacity(128), marked: vec![false; n] }
    }

    /// The steps of a cycle. There has to be one to run.
    pub fn do_collect(&self, mode: GCMode, parallel_sweep: bool) -> (r: Vec<GcAction>)
        requires
            mode != GCMode::NoCycle,
        ensures
            r@ == mark_sweep_cycle(mode, parallel_sweep),
    {
        let mut out: Vec<GcAction> = Vec::new();
        out.push(GcAction::StopTheWorld);
        out.push(GcAction::RetireTlabs { raise_barriers: false });
        out.push(GcAction::MarkStw);
        out.push(GcAction::ProcessWeak);
        out.push(
            GcAction::Sweep {
                concurrent: mode == GCMode::ConcurrentSweep,
                parallel: parallel_sweep,
            },
        );
        out.push(GcAction::RecycleTrash);
        out.push(GcAction::Rebuild);
        out.push(GcAction::ResumeTheWorld);
        out.push(GcAction::Finished { done: true });
        assert(out@ =~= mark_sweep_cycle(mode, parallel_sweep));
        out
    }

    /// Marks an object, and puts it on the stack if it was not marked.
    pub fn try_mark(&mut self, objs: &Vec<Object>, addr: usize)
        requires
            objects_wf(objs@),
            is_object(objs@, addr as int),
            old(self).marked@.len() == objs@.len(),
        ensures
            exists|i: int|
                0 <= i < objs@.len() && (#[trigger] objs@[i]).addr == addr && ({
                    &&& final(self).marked@ == old(self).marked@.update(i, true)
                    &&& final(self).mark_stack@ == if old(self).marked@[i] {
                        old(self).mark_stack@
                    } else {
                        old(self).mark_stack@.push(i as usize)
                    }
                }),
    {
        let i: usize = MarkingTask::find(objs, addr);
        let ghost before = self.marked@;
        assert(objs@[i as int].addr == addr);
        if self.marked[i] {
            assert(before.update(i as int, true) =~= before);
            return;
        }
        self.marked.set(i, true);
        self.mark_stack.push(i);
    }

    /// Marks the roots, and puts them on the stack.
    pub fn mark_roots(&mut self, objs: &Vec<Object>, roots: &Vec<usize>)
        requires
            objects_wf(objs@),
            old(self).mark_stack@ == Seq::<usize>::empty(),
            old(self).marked@.len() == objs@.len(),
            forall|i: int| 0 <= i < objs@.len() ==> !(#[trigger] old(self).marked@[i]),
            forall|k: int|
                0 <= k < roots@.len() ==> is_object(objs@, (#[trigger] roots@[k]) as int),
        ensures
            stack_inv(objs@, roots@, final(self).marked@, final(self).mark_stack@),
            all_marked(objs@, roots@, final(self).marked@),
    {
        let mut k: usize = 0;
        while k < roots.len()
            invariant
                k <= roots@.len(),
                objects_wf(objs@),
                forall|k: int|
                    0 <= k < roots@.len() ==> is_object(objs@, (#[trigger] roots@[k]) as int),
                stack_inv(objs@, roots@, self.marked@, self.mark_stack@),
                forall|j: int|
                    0 <= j < k ==> marked_at(
                        objs@,
                        self.marked@,
                        (#[trigger] roots@[j]) as int,
                    ),
            decreases roots@.len() - k,
        {
            let ghost marked0 = self.marked@;
            let ghost stack0 = self.mark_stack@;
            self.try_mark(objs, roots[k]);
            proof {
                let j = choose|j: int|
                    0 <= j < objs@.len() && (#[trigger] objs@[j]).addr == roots@[k as int] && ({
                        &&& self.marked@ == marked0.update(j, true)
                        &&& self.mark_stack@ == if marked0[j] {
                            stack0
                        } else {
                            stack0.push(j as usize)
                        }
                    });
                assert(roots@.contains(objs@[j].addr));
                lemma_led_on(objs@, roots@, 0, j);
                lemma_marked_grows(objs@, marked0, j);
                assert(objs@.len() == objs.len());
                lemma_stack_inv(objs@, roots@, marked0, stack0, j);
                assert forall|i: int| 0 <= i < k + 1 implies marked_at(
                    objs@,
                    self.marked@,
                    (#[trigger] roots@[i]) as int,
                ) by {
                    if i < k {
                        assert(marked_at(objs@, marked0, roots@[i] as int));
                    }
                }
            }
            k = k + 1;
        }
    }

    /// Marks the roots and all that they lead to.
    pub fn do_mark(&mut self, objs: &Vec<Object>, roots: &Vec<usize>)
        requires
            objects_wf(objs@),
            old(self).mark_stack@ == Seq::<usize>::empty(),
            old(self).marked@.len() == objs@.len(),
            forall|i: int| 0 <= i < objs@.len() ==> !(#[trigger] old(self).marked@[i]),
            forall|k: int|
                0 <= k < roots@.len() ==> is_object(objs@, (#[trigger] roots@[k]) as int),
        ensures
            final(self).mark_stack@ == Seq::<usize>::empty(),
            final(self).marked@.len() == objs@.len(),
            forall|i: int|
                0 <= i < objs@.len() ==> ((#[trigger] final(self).marked@[i]) <==> led_to(
                    objs@,
                    roots@,
                    i,
                )),
    {
        self.mark_roots(objs, roots);
        self.follow(objs, roots);
        proof {
            assert forall|i: int| 0 <= i < objs@.len() implies (#[trigger] self.marked@[i]
                <==> led_to(objs@, roots@, i)) by {
                lemma_stack_exact(objs@, roots@, self.marked@, i);
            }
        }
    }

    /// Hands the objects on the stack to threads that share the work.
    pub fn start_parallel_marking(&mut self, nworkers: usize) -> (r: (MarkQueueSet, Terminator))
        ensures
            final(self).mark_stack@ == Seq::<usize>::empty(),
            final(self).marked == old(self).marked,
            r.0.wf(),
            r.0.views().len() == nworkers,
            r.0.tasks() == stack_tasks(old(self).mark_stack@),
            r.1.total() == nworkers,
            r.1.active() == nworkers,
    {
        broadcast use vstd::seq_lib::group_to_multiset_ensures;

        let mut queues = MarkQueueSet::new(nworkers);
        let ghost words = self.mark_stack@.map_values(|i: usize| i as u64);
        let mut k: usize = 0;
        assert(words.take(0).to_multiset() =~= Multiset::empty());
        while k < self.mark_stack.len()
            invariant
                k <= self.mark_stack@.len(),
                words == self.mark_stack@.map_values(|i: usize| i as u64),
                queues.wf(),
                queues.views().len() == nworkers,
                queues.tasks() == words.take(k as int).to_multiset(),
            decreases self.mark_stack@.len() - k,
        {
            queues.inject(MarkTask::from_word(self.mark_stack[k] as u64));
            proof {
                broadcast use vstd::seq_lib::group_to_multiset_ensures;

                assert(words.take(k + 1) =~= words.take(k as int).push(words[k as int]));
            }
            k = k + 1;
        }
        assert(words.take(k as int) =~= words);
        self.mark_stack.clear();
        assert(self.mark_stack@ =~= Seq::<usize>::empty());
        (queues, Terminator::new(nworkers))
    }

    /// One step of a thread that shares the work: takes a task and marks what its object
    /// refers to, with a new task for each object that was not marked.
    pub fn parallel_step(&mut self, objs: &Vec<Object>, queues: &mut MarkQueueSet, id: usize) -> (r:
        Taken)
        requires
            objects_wf(objs@),
            old(self).marked@.len() == objs@.len(),
            tasks_ok(old(self).marked@, old(queues).tasks()),
            old(queues).wf(),
            id < old(queues).views().len(),
            2 * old(queues).views().len() <= usize::MAX,
        ensures
            final(queues).wf(),
            final(queues).views().len() == old(queues).views().len(),
            final(self).mark_stack == old(self).mark_stack,
            final(self).marked@.len() == objs@.len(),
            takes(old(queues).views(), old(queues).shared(), id as int, r),
            old(queues).tasks() == Multiset::<u64>::empty() ==> r is Empty,
            !(r is Task) ==> *final(self) == *old(self) && final(queues).tasks() == old(
                queues,
            ).tasks(),
            r matches Taken::Task(w) ==> old(queues).tasks().contains(w) && (
                final(self).marked@,
                final(queues).tasks(),
            ) == task_done(objs@, old(self).marked@, old(queues).tasks(), w),
    {
        let taken: Taken = queues.take(id);
        assert(took(
            old(queues).views(),
            old(queues).shared(),
            queues.views(),
            queues.shared(),
            id as int,
            taken,
        ));
        let w: u64 = match taken {
            Taken::Task(w) => w,
            _ => {
                return taken;
            },
        };
        assert(objs@.len() == objs.len());
        let i: usize = w as usize;
        let ghost marked = self.marked@;
        let ghost tasks = queues.tasks();
        let ghost refs = refs_of(objs@[i as int]);
        let fields: usize = objs[i].fields.len();
        let elements: usize = objs[i].elements.len();
        let mut k: usize = 0;
        while k < fields
            invariant
                k <= fields,
                fields == objs@[i as int].fields@.len(),
                i < objs@.len(),
                refs == refs_of(objs@[i as int]),
                objects_wf(objs@),
                queues.wf(),
                id < queues.views().len(),
                queues.views().len() == old(queues).views().len(),
                self.marked@.len() == objs@.len(),
                self.mark_stack == old(self).mark_stack,
                (self.marked@, queues.tasks()) == refs_followed(
                    objs@,
                    marked,
                    tasks,
                    refs,
                    k as int,
                ),
            decreases fields - k,
        {
            let addr: usize = objs[i].fields[k];
            assert(refs[k as int] == addr);
            assert(is_object(objs@, addr as int));
            self.share_ref(objs, queues, id, addr);
            k = k + 1;
        }
        let mut e: usize = 0;
        while e < elements
            invariant
                e <= elements,
                elements == objs@[i as int].elements@.len(),
                fields == objs@[i as int].fields@.len(),
                i < objs@.len(),
                refs == refs_of(objs@[i as int]),
                objects_wf(objs@),
                queues.wf(),
                id < queues.views().len(),
                queues.views().len() == old(queues).views().len(),
                self.marked@.len() == objs@.len(),
                self.mark_stack == old(self).mark_stack,
                (self.marked@, queues.tasks()) == refs_followed(
                    objs@,
                    marked,
                    tasks,
                    refs,
                    fields + e,
                ),
            decreases elements - e,
        {
            let addr: usize = objs[i].elements[e];
            assert(refs[fields + e] == addr);
            assert(is_object(objs@, addr as int));
            self.share_ref(objs, queues, id, addr);
            e = e + 1;
        }
        taken
    }

    /// Marks an object, and adds a task to follow it if it was not marked.
    fn share_ref(&mut self, objs: &Vec<Object>, queues: &mut MarkQueueSet, id: usize, addr: usize)
        requires
            objects_wf(objs@),
            is_object(objs@, addr as int),
            old(self).marked@.len() == objs@.len(),
            old(queues).wf(),
            id < old(queues).views().len(),
        ensures
            final(queues).wf(),
            final(queues).views().len() == old(queues).views().len(),
            final(self).mark_stack == old(self).mark_stack,
            final(self).marked@.len() == objs@.len(),
            ({
                let j = number_of(objs@, addr);
                (final(self).marked@, final(queues).tasks()) == if old(self).marked@[j] {
                    (old(self).marked@, old(queues).tasks())
                } else {
                    (old(self).marked@.update(j, true), old(queues).tasks().insert(j as u64))
                }
            }),
    {
        let i: usize = MarkingTask::find(objs, addr);
        proof {
            lemma_number_of(objs@, i as int);
        }
        if !self.marked[i] {
            self.marked.set(i, true);
            queues.push(id, MarkTask::from_word(i as u64));
        }
    }

    /// Follows the references of the objects on the stack until there are none.
    fn follow(&mut self, objs: &Vec<Object>, roots: &Vec<usize>)
        requires
            objects_wf(objs@),
            stack_inv(objs@, roots@, old(self).marked@, old(self).mark_stack@),
            forall|j: int|
                0 <= j < roots@.len() ==> marked_at(
                    objs@,
                    old(self).marked@,
                    (#[trigger] roots@[j]) as int,
                ),
        ensures
            final(self).mark_stack@ == Seq::<usize>::empty(),
            stack_inv(objs@, roots@, final(self).marked@, Seq::empty()),
            forall|j: int|
                0 <= j < roots@.len() ==> marked_at(
                    objs@,
                    final(self).marked@,
                    (#[trigger] roots@[j]) as int,
                ),
    {
        while self.mark_stack.len() > 0
            invariant
                objects_wf(objs@),
                stack_inv(objs@, roots@, self.marked@, self.mark_stack@),
                forall|j: int|
                    0 <= j < roots@.len() ==> marked_at(
                        objs@,
                        self.marked@,
                        (#[trigger] roots@[j]) as int,
                    ),
            decreases unmarked(self.marked@), self.mark_stack@.len(),
        {
            let ghost stack0 = self.mark_stack@;
            let ghost marked0 = self.marked@;
            let count: usize = self.mark_stack.len();
            let i: usize = self.mark_stack[count - 1];
            let popped: Option<usize> = self.mark_stack.pop();
            let ghost rest = self.mark_stack@;
            proof {
                assert(rest =~= stack0.drop_last());
                assert forall|m: int|
                    0 <= m < objs@.len() && (#[trigger] marked0[m]) && m != i implies done_with(
                    objs@,
                    marked0,
                    m,
                ) || rest.contains(m as usize) by {
                    if stack0.contains(m as usize) {
                        let w = choose|w: int| 0 <= w < stack0.len() && stack0[w] == m as usize;
                        assert(objs@.len() == objs.len());
                        assert(w < stack0.len() - 1);
                        assert(rest[w] == m as usize);
                    }
                }
            }
            self.visit_all(objs, roots, i, false);
            self.visit_all(objs, roots, i, true);
            proof {
                assert(done_with(objs@, self.marked@, i as int)) by {
                    let o = objs@[i as int];
                    assert forall|k: int| 0 <= k < refs_of(o).len() implies marked_at(
                        objs@,
                        self.marked@,
                        (#[trigger] refs_of(o)[k]) as int,
                    ) by {
                        if k < o.fields@.len() {
                            assert(refs_of(o)[k] == o.fields@[k]);
                        } else {
                            assert(refs_of(o)[k] == o.elements@[k - o.fields@.len()]);
                        }
                    }
                }
            }
        }
        assert(self.mark_stack@ =~= Seq::<usize>::empty());
    }

    /// Marks an object that the object being followed refers to.
    fn visit_ref(&mut self, objs: &Vec<Object>, roots: &Vec<usize>, i: usize, addr: usize)
        requires
            objects_wf(objs@),
            i < objs@.len(),
            is_object(objs@, addr as int),
            points(objs@, i as int, addr as int),
            but_one_inv(objs@, roots@, old(self).marked@, old(self).mark_stack@, i as int),
        ensures
            but_one_inv(objs@, roots@, final(self).marked@, final(self).mark_stack@, i as int),
            marked_at(objs@, final(self).marked@, addr as int),
            forall|a: int| #[trigger]
                marked_at(objs@, old(self).marked@, a) ==> marked_at(objs@, final(self).marked@, a),
            unmarked(final(self).marked@) < unmarked(old(self).marked@) || (final(self).marked@
                == old(self).marked@ && final(self).mark_stack@ == old(self).mark_stack@),
    {
        let ghost marked0 = self.marked@;
        let ghost stack0 = self.mark_stack@;
        self.try_mark(objs, addr);
        proof {
            let j = choose|j: int|
                0 <= j < objs@.len() && (#[trigger] objs@[j]).addr == addr && ({
                    &&& self.marked@ == marked0.update(j, true)
                    &&& self.mark_stack@ == if marked0[j] {
                        stack0
                    } else {
                        stack0.push(j as usize)
                    }
                });
            lemma_led_on(objs@, roots@, i as int, j);
            lemma_marked_grows(objs@, marked0, j);
            assert(objs@.len() == objs.len());
            lemma_but_one_inv(objs@, roots@, marked0, stack0, i as int, j);
            lemma_unmarked(marked0, j);
            if marked0[j] {
                assert(self.marked@ =~= marked0);
            }
        }
    }

    /// Marks what the fields of an object refer to, or its elements.
    fn visit_all(&mut self, objs: &Vec<Object>, roots: &Vec<usize>, i: usize, elements: bool)
        requires
            objects_wf(objs@),
            i < objs@.len(),
            but_one_inv(objs@, roots@, old(self).marked@, old(self).mark_stack@, i as int),
            forall|j: int|
                0 <= j < roots@.len() ==> marked_at(
                    objs@,
                    old(self).marked@,
                    (#[trigger] roots@[j]) as int,
                ),
        ensures
            but_one_inv(objs@, roots@, final(self).marked@, final(self).mark_stack@, i as int),
            forall|j: int|
                0 <= j < roots@.len() ==> marked_at(
                    objs@,
                    final(self).marked@,
                    (#[trigger] roots@[j]) as int,
                ),
            forall|a: int| #[trigger]
                marked_at(objs@, old(self).marked@, a) ==> marked_at(objs@, final(self).marked@, a),
            !elements ==> forall|k: int|
                0 <= k < objs@[i as int].fields@.len() ==> marked_at(
                    objs@,
                    final(self).marked@,
                    (#[trigger] objs@[i as int].fields@[k]) as int,
                ),
            elements ==> forall|k: int|
                0 <= k < objs@[i as int].elements@.len() ==> marked_at(
                    objs@,
                    final(self).marked@,
                    (#[trigger] objs@[i as int].elements@[k]) as int,
                ),
            unmarked(final(self).marked@) < unmarked(old(self).marked@) || (final(self).marked@
                == old(self).marked@ && final(self).mark_stack@ == old(self).mark_stack@),
    {
        let ghost start = self.marked@;
        let ghost stack = self.mark_stack@;
        let len: usize = if elements {
            objs[i].elements.len()
        } else {
            objs[i].fields.len()
        };
        let ghost list = if elements {
            objs@[i as int].elements@
        } else {
            objs@[i as int].fields@
        };
        let mut k: usize = 0;
        while k < len
            invariant
                k <= len,
                len == list.len(),
                list == if elements {
                    objs@[i as int].elements@
                } else {
                    objs@[i as int].fields@
                },
                objects_wf(objs@),
                i < objs@.len(),
                but_one_inv(objs@, roots@, self.marked@, self.mark_stack@, i as int),
                forall|j: int|
                    0 <= j < roots@.len() ==> marked_at(
                        objs@,
                        self.marked@,
                        (#[trigger] roots@[j]) as int,
                    ),
                forall|a: int| #[trigger]
                    marked_at(objs@, start, a) ==> marked_at(objs@, self.marked@, a),
                forall|j: int|
                    0 <= j < k ==> marked_at(objs@, self.marked@, (#[trigger] list[j]) as int),
                unmarked(self.marked@) < unmarked(start) || (self.marked@ == start
                    && self.mark_stack@ == stack),
            decreases len - k,
        {
            let addr: usize = if elements {
                objs[i].elements[k]
            } else {
                objs[i].fields[k]
            };
            let ghost marked0 = self.marked@;
            proof {
                assert(addr == list[k as int]);
                assert(is_object(objs@, addr as int));
                let o = objs@[i as int];
                if elements {
                    assert(refs_of(o)[o.fields@.len() + k] == addr);
                } else {
                    assert(refs_of(o)[k as int] == addr);
                }
                assert(points(objs@, i as int, addr as int));
            }
            self.visit_ref(objs, roots, i, addr);
            proof {
                assert forall|m: int| 0 <= m < k + 1 implies marked_at(
                    objs@,
                    self.marked@,
                    (#[trigger] list[m]) as int,
                ) by {
                    if m < k {
                        assert(marked_at(objs@, marked0, list[m] as int));
                    }
                }
                assert forall|m: int| 0 <= m < roots@.len() implies marked_at(
                    objs@,
                    self.marked@,
                    (#[trigger] roots@[m]) as int,
                ) by {
                    assert(marked_at(objs@, marked0, roots@[m] as int));
                }
            }
            k = k + 1;
        }
    }
}

/// As `stack_inv`, but object `i` is being followed.
spec fn but_one_inv(
    objs: Seq<Object>,
    roots: Seq<usize>,
    marked: Seq<bool>,
    stack: Seq<usize>,
    i: int,
) -> bool {
    &&& marked.len() == objs.len()
    &&& marked[i]
    &&& forall|k: int|
        0 <= k < stack.len() ==> (#[trigger] stack[k]) < objs.len() && marked[stack[k] as int]
    &&& forall|m: int| 0 <= m < objs.len() && (#[trigger] marked[m]) ==> led_to(objs, roots, m)
    &&& forall|m: int|
        0 <= m < objs.len() && (#[trigger] marked[m]) && m != i ==> done_with(objs, marked, m)
            || stack.contains(m as usize)
}

proof fn lemma_but_one_inv(
    objs: Seq<Object>,
    roots: Seq<usize>,
    marked: Seq<bool>,
    stack: Seq<usize>,
    i: int,
    j: int,
)
    requires
        but_one_inv(objs, roots, marked, stack, i),
        0 <= j < objs.len() <= usize::MAX,
        0 <= i < objs.len(),
        led_to(objs, roots, j),
    ensures
        but_one_inv(
            objs,
            roots,
            marked.update(j, true),
            if marked[j] {
                stack
            } else {
                stack.push(j as usize)
            },
            i,
        ),
{
    let next = marked.update(j, true);
    let pushed = if marked[j] {
        stack
    } else {
        stack.push(j as usize)
    };
    lemma_marked_grows(objs, marked, j);
    assert forall|m: int| 0 <= m < objs.len() && (#[trigger] next[m]) && m != i implies done_with(
        objs,
        next,
        m,
    ) || pushed.contains(m as usize) by {
        if marked[m] {
            if done_with(objs, marked, m) {
            } else {
                let w = choose|w: int| 0 <= w < stack.len() && stack[w] == m as usize;
                assert(pushed[w] == m as usize);
            }
        } else {
            assert(pushed[pushed.len() - 1] == m as usize);
        }
    }
    assert forall|m: int| 0 <= m < objs.len() && (#[trigger] next[m]) implies led_to(
        objs,
        roots,
        m,
    ) by {
        assert(m == j || marked[m]);
    }
}

proof fn lemma_stack_inv(
    objs: Seq<Object>,
    roots: Seq<usize>,
    marked: Seq<bool>,
    stack: Seq<usize>,
    j: int,
)
    requires
        stack_inv(objs, roots, marked, stack),
        0 <= j < objs.len() <= usize::MAX,
        led_to(objs, roots, j),
    ensures
        stack_inv(
            objs,
            roots,
            marked.update(j, true),
            if marked[j] {
                stack
            } else {
                stack.push(j as usize)
            },
        ),
{
    let next = marked.update(j, true);
    let pushed = if marked[j] {
        stack
    } else {
        stack.push(j as usize)
    };
    lemma_marked_grows(objs, marked, j);
    assert forall|m: int| 0 <= m < objs.len() && (#[trigger] next[m]) implies done_with(
        objs,
        next,
        m,
    ) || pushed.contains(m as usize) by {
        if marked[m] {
            if done_with(objs, marked, m) {
            } else {
                let w = choose|w: int| 0 <= w < stack.len() && stack[w] == m as usize;
                assert(pushed[w] == m as usize);
            }
        } else {
            assert(pushed[pushed.len() - 1] == m as usize);
        }
    }
    assert forall|m: int| 0 <= m < objs.len() && (#[trigger] next[m]) implies led_to(
        objs,
        roots,
        m,
    ) by {
        assert(m == j || marked[m]);
    }
}

/// The number of objects that are not marked.
spec fn unmarked(marked: Seq<bool>) -> nat
    decreases marked.len(),
{
    if marked.len() == 0 {
        0
    } else {
        unmarked(marked.drop_last()) + if marked.last() {
            0nat
        } else {
            1nat
        }
    }
}

proof fn lemma_unmarked(marked: Seq<bool>, j: int)
    requires
        0 <= j < marked.len(),
    ensures
        !marked[j] ==> unmarked(marked.update(j, true)) < unmarked(marked),
    decreases marked.len(),
{
    let next = marked.update(j, true);
    if j == marked.len() - 1 {
        assert(next.drop_last() =~= marked.drop_last());
    } else {
        lemma_unmarked(marked.drop_last(), j);
        assert(next.drop_last() =~= marked.drop_last().update(j, true));
    }
}

/// The steps of a cycle that sweeps while the world is stopped are in order.
pub proof fn lemma_mark_sweep_in_order(mode: GCMode, parallel_sweep: bool)
    ensures
        in_order(mark_sweep_cycle(mode, parallel_sweep)),
{
    let all = mark_sweep_cycle(mode, parallel_sweep);
    reveal_with_fuel(world_stopped, 11);
    reveal_with_fuel(marking_done, 11);
    assert forall|i: int| 0 <= i < all.len() && needs_stop(#[trigger] all[i]) implies world_stopped(
        all,
        i,
    ) by {}
    assert forall|i: int| 0 <= i < all.len() && (#[trigger] all[i]) is Sweep implies marking_done(
        all,
        i,
    ) by {}
}

/// Such a cycle, which starts without marks of its own, does all its work, each part once
/// those that it needs are done, and while the world is stopped. It is said to the sweep
/// whether mutators may go on beside it, and whether it is shared.
pub proof fn lemma_mark_sweep_sound(mode: GCMode, parallel_sweep: bool)
    ensures
        ({
            let all = mark_sweep_cycle(mode, parallel_sweep);
            let start = Progress { clean: true, ..at_rest(false, false) };
            let end = outcome(start, all);
            &&& sound(start, all)
            &&& end.complete && end.weak && end.swept && end.recycled && end.rebuilt
            &&& end.finished && !end.stopped
            &&& all.last() == (GcAction::Finished { done: true })
            &&& forall|i: int|
                0 <= i < all.len() && (#[trigger] all[i]) is Sweep ==> {
                    let p = progress(start, all, i);
                    &&& p.stopped && p.retired && p.weak && !p.swept
                    &&& all[i] == (GcAction::Sweep {
                        concurrent: mode is ConcurrentSweep,
                        parallel: parallel_sweep,
                    })
                }
        }),
{
    let all = mark_sweep_cycle(mode, parallel_sweep);
    let start = Progress { clean: true, ..at_rest(false, false) };
    let p0 = start;
    assert(progress(start, all, 0) == p0);
    let p1 = advanced(p0, all[0]);
    assert(progress(start, all, 1) == p1);
    let p2 = advanced(p1, all[1]);
    assert(progress(start, all, 2) == p2);
    let p3 = advanced(p2, all[2]);
    assert(progress(start, all, 3) == p3);
    let p4 = advanced(p3, all[3]);
    assert(progress(start, all, 4) == p4);
    let p5 = advanced(p4, all[4]);
    assert(progress(start, all, 5) == p5);
    let p6 = advanced(p5, all[5]);
    assert(progress(start, all, 6) == p6);
    let p7 = advanced(p6, all[6]);
    assert(progress(start, all, 7) == p7);
    let p8 = advanced(p7, all[7]);
    assert(progress(start, all, 8) == p8);
    let p9 = advanced(p8, all[8]);
    assert(progress(start, all, 9) == p9);
    assert(walked(p9, all, 9) == Some(p9));
    assert(walked(p8, all, 8) == Some(p9));
    assert(walked(p7, all, 7) == Some(p9));
    assert(walked(p6, all, 6) == Some(p9));
    assert(walked(p5, all, 5) == Some(p9));
    assert(walked(p4, all, 4) == Some(p9));
    assert(walked(p3, all, 3) == Some(p9));
    assert(walked(p2, all, 2) == Some(p9));
    assert(walked(p1, all, 1) == Some(p9));
    assert(walked(p0, all, 0) == Some(p9));
    lemma_walked(start, all, 0);
}

} // verus!
