//! The roots of marking, and the threads that work them off.
//!
//! Roots and the tasks that they add are known by numbers. A processor holds the
//! tasks that nobody has taken yet, in a queue that all threads share and in one
//! for each thread.

use crossbeam_deque::{Injector, Worker};
use vstd::prelude::*;

use super::deque::{
    injector_new, injector_push, injector_steal, injector_tasks, worker_new, worker_pop,
    worker_private, worker_push, worker_tasks, Taken,
};
use super::heap::Heap;
use super::mark::{TerminateStep, Terminator};
use super::marking::{fits, is_object, objects_wf, state, visit_roots, visit_seq, Object};
use super::marking_context::MarkingContext;

verus! {

/// What a task of a root does.
#[derive(Clone, Copy, PartialEq, Eq, Debug, Structural)]
pub enum RootWork {
    /// Executes the root.
    Execute,
    /// Does what the root added while it was executed.
    Added(u64),
}

/// A task of a root.
#[derive(Clone, Copy, PartialEq, Eq, Debug, Structural)]
pub struct RootTask {
    pub root: u64,
    pub task: RootWork,
}

/// The roots of a heap.
pub struct RootSet {
    roots: Vec<u64>,
}

impl RootSet {
    pub closed spec fn view(&self) -> Seq<u64> {
        self.roots@
    }

    pub fn new() -> (r: RootSet)
        ensures
            r@ == Seq::<u64>::empty(),
    {
        RootSet { roots: Vec::new() }
    }

    pub fn add_root(&mut self, root: u64)
        ensures
            final(self)@ == old(self)@.push(root),
    {
        self.roots.push(root);
    }

    pub fn add_roots(&mut self, roots: &Vec<u64>)
        ensures
            final(self)@ == old(self)@ + roots@,
    {
        let ghost before = self@;
        let mut i: usize = 0;
        assert(before =~= before + roots@.take(0));
        while i < roots.len()
            invariant
                i <= roots@.len(),
                self@ == before + roots@.take(i as int),
            decreases roots@.len() - i,
        {
            self.roots.push(roots[i]);
            i = i + 1;
            assert(self@ =~= before + roots@.take(i as int));
        }
        assert(roots@.take(i as int) =~= roots@);
    }

    pub fn roots(&self) -> (r: &Vec<u64>)
        ensures
            r@ == self@,
    {
        &self.roots
    }

    /// The processor of the roots: it has all workers if roots are processed in
    /// parallel and a single one if not, and a task that executes each root.
    pub fn process(&self, parallel_root_mark_tasks: bool, workers: usize) -> (r: RootProcessor)
        ensures
            r.wf(),
            r.nworkers() == if parallel_root_mark_tasks {
                workers as int
            } else {
                1
            },
            r.total() == r.nworkers(),
            r.active() == r.nworkers(),
            forall|i: int| 0 <= i < r.nworkers() ==> #[trigger] r.local(i) == Seq::<
                RootTask,
            >::empty(),
            r.shared() == executions(self@),
    {
        let mut processor = RootProcessor::new(
            if parallel_root_mark_tasks {
                workers
            } else {
                1
            },
        );
        processor.add_roots(&self.roots);
        assert(Seq::<RootTask>::empty() + executions(self@) =~= executions(self@));
        processor
    }
}

/// The tasks that execute roots, in order.
pub open spec fn executions(roots: Seq<u64>) -> Seq<RootTask> {
    Seq::new(roots.len(), |i: int| RootTask { root: roots[i], task: RootWork::Execute })
}

/// The tasks that nobody has taken yet, and the workers that take them.
pub struct RootProcessor {
    injector: Injector<u64>,
    workers: Vec<Worker<u64>>,
    /// All tasks so far; the queues hold their places here.
    tasks: Vec<RootTask>,
    terminator: Terminator,
}

/// The tasks at some places.
spec fn at_places(places: Seq<u64>, tasks: Seq<RootTask>) -> Seq<RootTask> {
    Seq::new(places.len(), |i: int| tasks[places[i] as int])
}

spec fn places_ok(places: Seq<u64>, tasks: Seq<RootTask>) -> bool {
    forall|i: int| 0 <= i < places.len() ==> (#[trigger] places[i]) < tasks.len()
}

impl RootProcessor {
    pub closed spec fn wf(&self) -> bool {
        &&& places_ok(injector_tasks(self.injector), self.tasks@)
        &&& forall|i: int|
            0 <= i < self.workers@.len() ==> worker_private(#[trigger] self.workers@[i])
                && places_ok(worker_tasks(self.workers@[i]), self.tasks@)
    }

    /// The number of workers.
    pub closed spec fn nworkers(&self) -> int {
        self.workers@.len() as int
    }

    /// The number of workers for which the end is reckoned.
    pub closed spec fn total(&self) -> int {
        self.terminator.total()
    }

    /// The number of workers that are not out of work.
    pub closed spec fn active(&self) -> int {
        self.terminator.active()
    }

    /// The tasks that all workers share, from the front to the back.
    pub closed spec fn shared(&self) -> Seq<RootTask> {
        at_places(injector_tasks(self.injector), self.tasks@)
    }

    /// The tasks of a worker; it takes the last first.
    pub closed spec fn local(&self, id: int) -> Seq<RootTask> {
        at_places(worker_tasks(self.workers@[id]), self.tasks@)
    }

    /// The tasks in the order in which a worker gets them if no other takes any.
    pub open spec fn upcoming(&self, id: int) -> Seq<RootTask> {
        self.local(id).reverse() + self.shared()
    }

    /// Nothing but the tasks of one worker and the shared ones differs.
    pub open spec fn same_but(&self, other: &RootProcessor, id: int) -> bool {
        &&& self.nworkers() == other.nworkers()
        &&& self.total() == other.total()
        &&& self.active() == other.active()
        &&& forall|i: int|
            0 <= i < self.nworkers() && i != id ==> #[trigger] self.local(i) == other.local(i)
    }

    pub fn new(nworkers: usize) -> (r: RootProcessor)
        ensures
            r.wf(),
            r.nworkers() == nworkers,
            r.total() == nworkers,
            r.active() == nworkers,
            r.shared() == Seq::<RootTask>::empty(),
            forall|i: int| 0 <= i < nworkers ==> #[trigger] r.local(i) == Seq::<RootTask>::empty(),
    {
        let mut workers: Vec<Worker<u64>> = Vec::new();
        let mut i: usize = 0;
        while i < nworkers
            invariant
                i <= nworkers,
                workers@.len() == i,
                forall|k: int|
                    0 <= k < i ==> worker_private(#[trigger] workers@[k]) && worker_tasks(
                        workers@[k],
                    ) == Seq::<u64>::empty(),
            decreases nworkers - i,
        {
            workers.push(worker_new());
            i = i + 1;
        }
        let r = RootProcessor {
            injector: injector_new(),
            workers,
            tasks: Vec::new(),
            terminator: Terminator::new(nworkers),
        };
        proof {
            assert(r.shared() =~= Seq::<RootTask>::empty());
            assert forall|i: int| 0 <= i < nworkers implies #[trigger] r.local(i) == Seq::<
                RootTask,
            >::empty() by {
                assert(worker_tasks(r.workers@[i]) == Seq::<u64>::empty());
                assert(r.local(i) =~= Seq::<RootTask>::empty());
            }
        }
        r
    }

    /// Adds a task to those that all workers share.
    fn share(&mut self, task: RootTask)
        requires
            old(self).wf(),
        ensures
            final(self).wf(),
            final(self).nworkers() == old(self).nworkers(),
            final(self).total() == old(self).total(),
            final(self).active() == old(self).active(),
            final(self).shared() == old(self).shared().push(task),
            forall|i: int|
                0 <= i < old(self).nworkers() ==> #[trigger] final(self).local(i) == old(
                    self,
                ).local(i),
    {
        let ghost before = *self;
        let place: u64 = self.tasks.len() as u64;
        self.tasks.push(task);
        injector_push(&mut self.injector, place);
        proof {
            self.lemma_grown(&before, task);
            assert(self.shared() =~= before.shared().push(task));
        }
    }

    /// A task more changes no queue.
    proof fn lemma_grown(&self, before: &RootProcessor, task: RootTask)
        requires
            before.wf(),
            self.tasks@ == before.tasks@.push(task),
        ensures
            forall|i: int|
                0 <= i < before.nworkers() && i < self.nworkers() && self.workers@[i]
                    == before.workers@[i] ==> #[trigger] self.local(i) == before.local(i),
            injector_tasks(self.injector) == injector_tasks(before.injector) ==> self.shared()
                == before.shared(),
    {
        assert forall|i: int|
            0 <= i < before.nworkers() && i < self.nworkers() && self.workers@[i]
                == before.workers@[i] implies #[trigger] self.local(i) == before.local(i) by {
            let places = worker_tasks(before.workers@[i]);
            assert(places_ok(places, before.tasks@));
            assert(self.local(i) =~= before.local(i));
        }
        if injector_tasks(self.injector) == injector_tasks(before.injector) {
            assert(self.shared() =~= before.shared());
        }
    }

    /// Adds a task to those of a worker.
    fn keep(&mut self, id: usize, task: RootTask)
        requires
            old(self).wf(),
            id < old(self).nworkers(),
        ensures
            final(self).wf(),
            final(self).same_but(old(self), id as int),
            final(self).shared() == old(self).shared(),
            final(self).local(id as int) == old(self).local(id as int).push(task),
    {
        let ghost before = *self;
        let place: u64 = self.tasks.len() as u64;
        self.tasks.push(task);
        worker_push(&mut self.workers[id], place);
        proof {
            assert(places_ok(worker_tasks(before.workers@[id as int]), before.tasks@));
            self.lemma_grown(&before, task);
            assert(self.local(id as int) =~= before.local(id as int).push(task));
            assert forall|i: int| 0 <= i < self.workers@.len() implies worker_private(
                #[trigger] self.workers@[i],
            ) && places_ok(worker_tasks(self.workers@[i]), self.tasks@) by {
                assert(places_ok(worker_tasks(before.workers@[i]), before.tasks@));
            }
        }
    }

    /// Adds the task that executes a root.
    pub fn add_root(&mut self, root: u64)
        requires
            old(self).wf(),
        ensures
            final(self).wf(),
            final(self).nworkers() == old(self).nworkers(),
            final(self).total() == old(self).total(),
            final(self).active() == old(self).active(),
            final(self).shared() == old(self).shared().push(
                RootTask { root, task: RootWork::Execute },
            ),
            forall|i: int|
                0 <= i < old(self).nworkers() ==> #[trigger] final(self).local(i) == old(
                    self,
                ).local(i),
    {
        self.share(RootTask { root, task: RootWork::Execute });
    }

    /// Adds the tasks that execute roots.
    pub fn add_roots(&mut self, roots: &Vec<u64>)
        requires
            old(self).wf(),
        ensures
            final(self).wf(),
            final(self).nworkers() == old(self).nworkers(),
            final(self).total() == old(self).total(),
            final(self).active() == old(self).active(),
            final(self).shared() == old(self).shared() + executions(roots@),
            forall|i: int|
                0 <= i < old(self).nworkers() ==> #[trigger] final(self).local(i) == old(
                    self,
                ).local(i),
    {
        let ghost before = *self;
        let mut k: usize = 0;
        assert(before.shared() =~= before.shared() + executions(roots@).take(0));
        while k < roots.len()
            invariant
                k <= roots@.len(),
                self.wf(),
                self.nworkers() == before.nworkers(),
                self.total() == before.total(),
                self.active() == before.active(),
                self.shared() == before.shared() + executions(roots@).take(k as int),
                forall|i: int|
                    0 <= i < before.nworkers() ==> #[trigger] self.local(i) == before.local(i),
            decreases roots@.len() - k,
        {
            self.add_root(roots[k]);
            k = k + 1;
            assert(self.shared() =~= before.shared() + executions(roots@).take(k as int));
        }
        assert(executions(roots@).take(k as int) =~= executions(roots@));
    }

    /// Adds a worker without tasks. The end is still reckoned for as many workers as
    /// the processor was made for.
    pub fn add_worker(&mut self)
        requires
            old(self).wf(),
        ensures
            final(self).wf(),
            final(self).nworkers() == old(self).nworkers() + 1,
            final(self).total() == old(self).total(),
            final(self).active() == old(self).active(),
            final(self).shared() == old(self).shared(),
            final(self).local(old(self).nworkers()) == Seq::<RootTask>::empty(),
            forall|i: int|
                0 <= i < old(self).nworkers() ==> #[trigger] final(self).local(i) == old(
                    self,
                ).local(i),
    {
        let ghost before = *self;
        self.workers.push(worker_new());
        assert(self.local(before.nworkers()) =~= Seq::<RootTask>::empty());
    }
}

/// What an attempt to take a task of a root came to.
#[derive(Clone, Copy, PartialEq, Eq, Debug, Structural)]
pub enum Picked {
    /// There is no task.
    Empty,
    /// The attempt has to be made again.
    Retry,
    /// A task.
    Task(RootTask),
}

/// What a thread that processes roots does next.
#[derive(Clone, Copy, PartialEq, Eq, Debug, Structural)]
pub enum RootStep {
    /// Run a task.
    Run(RootTask),
    /// Take the next step at once.
    Again,
    /// Sleep, and take the next step if other workers still have work.
    Sleep,
    /// All is done.
    Done,
}

/// A thread that processes roots.
pub struct ThreadRootProcessor {
    task_id: usize,
    current_root: Option<u64>,
}

impl ThreadRootProcessor {
    pub closed spec fn id(&self) -> int {
        self.task_id as int
    }

    /// The root whose task runs.
    pub closed spec fn current(&self) -> Option<u64> {
        self.current_root
    }

    pub fn task_id(&self) -> (r: usize)
        ensures
            r == self.id(),
    {
        self.task_id
    }

    pub fn new(task_id: usize) -> (r: ThreadRootProcessor)
        ensures
            r.id() == task_id,
            r.current() is None,
    {
        ThreadRootProcessor { task_id, current_root: None }
    }

    /// Takes a task: one of its own, else the first of those that all share, and then
    /// some of those behind it become its own. One thread alone gets the tasks in the
    /// order in which they were shared.
    pub fn pick_next(&self, processor: &mut RootProcessor) -> (r: Picked)
        requires
            old(processor).wf(),
            self.id() < old(processor).nworkers(),
        ensures
            final(processor).wf(),
            final(processor).same_but(old(processor), self.id()),
            r == Picked::Empty <==> old(processor).upcoming(self.id()).len() == 0,
            r == Picked::Retry ==> old(processor).local(self.id()).len() == 0,
            r matches Picked::Task(task) ==> {
                &&& task == old(processor).upcoming(self.id())[0]
                &&& final(processor).upcoming(self.id()) == old(processor).upcoming(self.id()).skip(
                    1,
                )
            },
            !(r is Task) ==> final(processor).local(self.id()) == old(processor).local(self.id())
                && final(processor).shared() == old(processor).shared(),
            old(processor).local(self.id()).len() > 0 ==> final(processor).shared() == old(
                processor,
            ).shared(),
    {
        let id: usize = self.task_id;
        let ghost before = *processor;
        let ghost mine = worker_tasks(processor.workers@[id as int]);
        let ghost all = injector_tasks(processor.injector);
        let ghost old_local = before.local(id as int);
        let popped = worker_pop(&mut processor.workers[id]);
        proof {
            assert(places_ok(mine, before.tasks@));
        }
        if let Some(place) = popped {
            proof {
                assert(place == mine[mine.len() - 1]);
                assert(processor.local(id as int) =~= old_local.drop_last());
                assert(processor.shared() =~= before.shared());
                assert(processor.upcoming(id as int) =~= before.upcoming(id as int).skip(1));
            }
            assert(processor.tasks@.len() == processor.tasks.len());
            return Picked::Task(processor.tasks[place as usize]);
        }
        match injector_steal(&mut processor.injector, &mut processor.workers[id]) {
            Taken::Empty => {
                assert(processor.local(id as int) =~= before.local(id as int));
                assert(processor.shared() =~= before.shared());
                Picked::Empty
            },
            Taken::Retry => {
                assert(processor.local(id as int) =~= before.local(id as int));
                assert(processor.shared() =~= before.shared());
                assert(before.shared().len() > 0);
                Picked::Retry
            },
            Taken::Task(place) => {
                proof {
                    let n = choose|n: int|
                        #![trigger all.skip(n)]
                        1 <= n <= all.len() && injector_tasks(processor.injector) == all.skip(n)
                            && worker_tasks(processor.workers@[id as int]) == mine + all.subrange(
                            1,
                            n,
                        ).reverse();
                    assert(mine.len() == 0);
                    let moved = all.subrange(1, n).reverse();
                    assert(mine + moved =~= moved);
                    assert forall|i: int| 0 <= i < moved.len() implies (#[trigger] moved[i])
                        < before.tasks@.len() by {
                        assert(moved[i] == all[n - 1 - i]);
                    }
                    assert(before.shared()[0] == before.tasks@[place as int]);
                    assert(before.upcoming(id as int) =~= before.shared());
                    assert(processor.upcoming(id as int) =~= before.upcoming(id as int).skip(1))
                        by {
                        let up = processor.upcoming(id as int);
                        let was = before.upcoming(id as int).skip(1);
                        assert(up.len() == was.len());
                        assert forall|k: int| 0 <= k < up.len() implies up[k] == was[k] by {
                            if k < n - 1 {
                                assert(processor.local(id as int).reverse()[k]
                                    == processor.local(id as int)[n - 2 - k]);
                                assert(moved[n - 2 - k] == all[1 + k]);
                            } else {
                                assert(processor.shared()[k - (n - 1)] == before.shared()[k + 1]);
                            }
                        }
                    }
                }
                assert(processor.tasks@.len() == processor.tasks.len());
                Picked::Task(processor.tasks[place as usize])
            },
        }
    }

    /// Adds a task for the root whose task runs, to the thread's own tasks or to those
    /// that all share.
    pub fn add_task(&self, processor: &mut RootProcessor, task: u64, to_local: bool)
        requires
            old(processor).wf(),
            self.id() < old(processor).nworkers(),
            self.current() is Some,
        ensures
            final(processor).wf(),
            final(processor).same_but(old(processor), self.id()),
            ({
                let added = RootTask {
                    root: self.current()->Some_0,
                    task: RootWork::Added(task),
                };
                &&& final(processor).local(self.id()) == if to_local {
                    old(processor).local(self.id()).push(added)
                } else {
                    old(processor).local(self.id())
                }
                &&& final(processor).shared() == if to_local {
                    old(processor).shared()
                } else {
                    old(processor).shared().push(added)
                }
            }),
    {
        if let Some(root) = self.current_root {
            let added = RootTask { root, task: RootWork::Added(task) };
            if to_local {
                processor.keep(self.task_id, added);
            } else {
                processor.share(added);
            }
        }
    }

    /// The next step of the thread. The task that ran before it, if any, is over.
    pub fn run(&mut self, processor: &mut RootProcessor) -> (r: RootStep)
        requires
            old(processor).wf(),
            old(self).id() < old(processor).nworkers(),
            old(processor).total() == 1 || old(processor).active() > 0,
        ensures
            final(processor).wf(),
            final(self).id() == old(self).id(),
            final(self).current() == match r {
                RootStep::Run(task) => Some(task.root),
                _ => None,
            },
            final(processor).nworkers() == old(processor).nworkers(),
            final(processor).total() == old(processor).total(),
            forall|i: int|
                0 <= i < old(processor).nworkers() && i != old(self).id()
                    ==> #[trigger] final(processor).local(i) == old(processor).local(i),
            ({
                let was = old(processor).upcoming(old(self).id());
                let now = final(processor).upcoming(old(self).id());
                let sole = old(processor).total() == 1;
                if was.len() == 0 {
                    &&& now == was
                    &&& r == if sole || old(processor).active() == 1 {
                        RootStep::Done
                    } else {
                        RootStep::Sleep
                    }
                    &&& final(processor).active() == old(processor).active() - if sole {
                        0int
                    } else {
                        1
                    }
                } else {
                    &&& final(processor).active() == old(processor).active()
                    &&& r == RootStep::Again && now == was || r == RootStep::Run(was[0]) && now
                        == was.skip(1)
                    &&& r == RootStep::Again ==> old(processor).local(old(self).id()).len() == 0
                }
            }),
    {
        self.current_root = None;
        match self.pick_next(processor) {
            Picked::Task(task) => {
                self.current_root = Some(task.root);
                RootStep::Run(task)
            },
            Picked::Retry => RootStep::Again,
            Picked::Empty => {
                let ghost before = *processor;
                let step = processor.terminator.try_terminate();
                proof {
                    let id = self.id();
                    assert(processor.local(id) =~= before.local(id));
                    assert(processor.shared() =~= before.shared());
                    assert forall|i: int| 0 <= i < before.nworkers() && i != id implies
                        #[trigger] processor.local(i) == before.local(i) by {
                        assert(processor.local(i) =~= before.local(i));
                    }
                }
                match step {
                    TerminateStep::Done => RootStep::Done,
                    TerminateStep::Sleep => RootStep::Sleep,
                }
            },
        }
    }
}

/// A root under a name.
pub struct SimpleRoot {
    name: &'static str,
    abbreviated_name: &'static str,
}

impl SimpleRoot {
    pub closed spec fn full(&self) -> Seq<char> {
        self.name@
    }

    pub closed spec fn short(&self) -> Seq<char> {
        self.abbreviated_name@
    }

    pub fn new(name: &'static str, abbreviated_name: &'static str) -> (r: SimpleRoot)
        ensures
            r.full() == name@,
            r.short() == abbreviated_name@,
    {
        SimpleRoot { name, abbreviated_name }
    }

    pub fn name(&self) -> (r: &str)
        ensures
            r@ == self.full(),
    {
        self.name
    }

    pub fn abbreviated_name(&self) -> (r: &str)
        ensures
            r@ == self.short(),
    {
        self.abbreviated_name
    }
}

/// `found` are the starts of the objects that `words` point into, in order, without
/// the words that point into none.
pub open spec fn conservative_roots(heap: &Heap, words: Seq<usize>, found: Seq<usize>) -> bool
    decreases words.len(),
{
    if words.len() == 0 {
        found.len() == 0
    } else {
        let addr = words.last() as int;
        ||| heap.is_object_start(addr, 0) && conservative_roots(heap, words.drop_last(), found)
        ||| {
            &&& found.len() > 0
            &&& found.last() != 0
            &&& heap.is_object_start(addr, found.last() as int)
            &&& conservative_roots(heap, words.drop_last(), found.drop_last())
        }
    }
}

/// The starts of the objects that the words of a stack or of registers may point into.
pub fn conservative(heap: &Heap, words: &Vec<usize>) -> (r: Vec<usize>)
    requires
        heap.wf(),
        forall|k: int| 0 <= k < words@.len() ==> heap.starts_known((#[trigger] words@[k]) as int),
    ensures
        conservative_roots(heap, words@, r@),
{
    let mut found: Vec<usize> = Vec::new();
    let mut k: usize = 0;
    while k < words.len()
        invariant
            k <= words@.len(),
            heap.wf(),
            forall|k: int|
                0 <= k < words@.len() ==> heap.starts_known((#[trigger] words@[k]) as int),
            conservative_roots(heap, words@.take(k as int), found@),
        decreases words@.len() - k,
    {
        let start: usize = heap.object_start(words[k]);
        let ghost before = found@;
        if start != 0 {
            found.push(start);
            assert(found@.drop_last() =~= before);
        }
        k = k + 1;
        assert(words@.take(k as int).drop_last() =~= words@.take(k - 1));
    }
    assert(words@.take(k as int) =~= words@);
    found
}

/// Visits the objects that words may point into.
pub fn visit_conservative(
    ctx: &mut MarkingContext,
    objs: &Vec<Object>,
    heap: &Heap,
    words: &Vec<usize>,
)
    requires
        objects_wf(objs@),
        old(ctx).wf(),
        fits(objs@, old(ctx)),
        heap.wf(),
        forall|k: int| 0 <= k < words@.len() ==> heap.starts_known((#[trigger] words@[k]) as int),
        forall|k: int, start: int|
            0 <= k < words@.len() && start != 0 && #[trigger] heap.is_object_start(
                words@[k] as int,
                start,
            ) ==> is_object(objs@, start),
    ensures
        final(ctx).wf(),
        fits(objs@, final(ctx)),
        final(ctx).complete() == old(ctx).complete(),
        final(ctx).queues().views() == old(ctx).queues().views(),
        exists|found: Seq<usize>| #[trigger]
            conservative_roots(heap, words@, found) && state(objs@, final(ctx)) == visit_seq(
                objs@,
                state(objs@, old(ctx)),
                found,
            ),
{
    let found = conservative(heap, words);
    proof {
        lemma_found(heap, words@, found@);
    }
    visit_roots(ctx, objs, &found);
}

/// Some word points into an object that starts at `start`.
pub open spec fn pointed_into(heap: &Heap, words: Seq<usize>, start: int) -> bool {
    start != 0 && exists|k: int|
        0 <= k < words.len() && #[trigger] heap.is_object_start(words[k] as int, start)
}

/// Each start that is found is that of an object that some word points into.
pub proof fn lemma_found(heap: &Heap, words: Seq<usize>, found: Seq<usize>)
    requires
        conservative_roots(heap, words, found),
    ensures
        forall|j: int|
            0 <= j < found.len() ==> pointed_into(heap, words, (#[trigger] found[j]) as int),
    decreases words.len(),
{
    if words.len() > 0 {
        let fewer = words.drop_last();
        let skipped = heap.is_object_start(words.last() as int, 0) && conservative_roots(
            heap,
            fewer,
            found,
        );
        let earlier = if skipped {
            found
        } else {
            found.drop_last()
        };
        lemma_found(heap, fewer, earlier);
        assert forall|j: int| 0 <= j < found.len() implies pointed_into(
            heap,
            words,
            (#[trigger] found[j]) as int,
        ) by {
            if j < earlier.len() {
                assert(earlier[j] == found[j]);
                let k = choose|k: int|
                    0 <= k < fewer.len() && #[trigger] heap.is_object_start(
                        fewer[k] as int,
                        earlier[j] as int,
                    );
                assert(heap.is_object_start(words[k] as int, found[j] as int));
            } else {
                assert(heap.is_object_start(words[words.len() - 1] as int, found[j] as int));
            }
        }
    }
}

} // verus!
