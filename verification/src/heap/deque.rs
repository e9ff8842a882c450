//! Work-stealing queues of task words, from `crossbeam_deque`, and the choice of a
//! victim, from `rand`.
//!
//! The functions here hand each call through. What they promise holds while nobody
//! else has access to the queues: an injector is reached through a unique
//! reference, and a worker is one of which no stealer is kept.

use crossbeam_deque::{Injector, Steal, Worker};
use rand::distributions::{Distribution, Uniform};
use vstd::prelude::*;

verus! {

/// The worker queue of `crossbeam_deque`.
#[verifier::external_type_specification]
#[verifier::external_body]
#[verifier::reject_recursive_types(T)]
pub struct ExWorker<T>(crossbeam_deque::Worker<T>);

/// The injector queue of `crossbeam_deque`.
#[verifier::external_type_specification]
#[verifier::external_body]
#[verifier::reject_recursive_types(T)]
pub struct ExInjector<T>(crossbeam_deque::Injector<T>);

/// The tasks in a worker queue, from the front, where others steal, to the back.
pub uninterp spec fn worker_tasks(worker: Worker<u64>) -> Seq<u64>;

/// Whether a worker queue pops from the back and no stealer of it is kept.
pub uninterp spec fn worker_private(worker: Worker<u64>) -> bool;

/// The tasks in an injector queue, from the front to the back.
pub uninterp spec fn injector_tasks(injector: Injector<u64>) -> Seq<u64>;

/// What an attempt to take a task from a queue came to.
#[derive(Clone, Copy, PartialEq, Eq, Debug, Structural)]
pub enum Taken {
    /// There is no task.
    Empty,
    /// The attempt has to be made again.
    Retry,
    /// A task.
    Task(u64),
}

/// `crossbeam_deque::Worker::new_lifo`: a queue without tasks that pops from the
/// back.
#[verifier::external_body]
pub(crate) fn worker_new() -> (r: Worker<u64>)
    ensures
        worker_private(r),
        worker_tasks(r) == Seq::<u64>::empty(),
{
    Worker::new_lifo()
}

/// `crossbeam_deque::Worker::push`: adds a task at the back.
#[verifier::external_body]
pub(crate) fn worker_push(worker: &mut Worker<u64>, task: u64)
    requires
        worker_private(*old(worker)),
    ensures
        worker_private(*final(worker)),
        worker_tasks(*final(worker)) == worker_tasks(*old(worker)).push(task),
{
    worker.push(task)
}

/// `crossbeam_deque::Worker::pop`: takes the task at the back, if there is one.
#[verifier::external_body]
pub(crate) fn worker_pop(worker: &mut Worker<u64>) -> (r: Option<u64>)
    requires
        worker_private(*old(worker)),
    ensures
        worker_private(*final(worker)),
        worker_tasks(*old(worker)).len() == 0 ==> r is None && worker_tasks(*final(worker))
            == worker_tasks(*old(worker)),
        worker_tasks(*old(worker)).len() > 0 ==> {
            &&& r == Some(worker_tasks(*old(worker)).last())
            &&& worker_tasks(*final(worker)) == worker_tasks(*old(worker)).drop_last()
        },
{
    worker.pop()
}

/// `crossbeam_deque::Stealer::steal_batch_and_pop`, through a stealer of `victim`
/// that is made for the call: moves some tasks from the front of `victim` to the
/// back of `dest`, in order, and returns the one behind them. How many are moved
/// is left open. An attempt has to be made again only where somebody else takes the
/// task at the front meanwhile, and here nobody can.
#[verifier::external_body]
pub(crate) fn worker_steal(victim: &mut Worker<u64>, dest: &mut Worker<u64>) -> (r: Taken)
    requires
        worker_private(*old(victim)),
        worker_private(*old(dest)),
    ensures
        worker_private(*final(victim)),
        worker_private(*final(dest)),
        r == Taken::Empty <==> worker_tasks(*old(victim)).len() == 0,
        r != Taken::Retry,
        !(r is Task) ==> worker_tasks(*final(victim)) == worker_tasks(*old(victim))
            && worker_tasks(*final(dest)) == worker_tasks(*old(dest)),
        r matches Taken::Task(task) ==> exists|n: int|
            #![trigger worker_tasks(*old(victim))[n]]
            {
                &&& 0 <= n < worker_tasks(*old(victim)).len()
                &&& task == worker_tasks(*old(victim))[n]
                &&& worker_tasks(*final(victim)) == worker_tasks(*old(victim)).skip(n + 1)
                &&& worker_tasks(*final(dest)) == worker_tasks(*old(dest)) + worker_tasks(
                    *old(victim),
                ).take(n)
            },
{
    match victim.stealer().steal_batch_and_pop(dest) {
        Steal::Empty => Taken::Empty,
        Steal::Retry => Taken::Retry,
        Steal::Success(task) => Taken::Task(task),
    }
}

/// `crossbeam_deque::Injector::new`: a queue without tasks.
#[verifier::external_body]
pub(crate) fn injector_new() -> (r: Injector<u64>)
    ensures
        injector_tasks(r) == Seq::<u64>::empty(),
{
    Injector::new()
}

/// `crossbeam_deque::Injector::push`: adds a task at the back.
#[verifier::external_body]
pub(crate) fn injector_push(injector: &mut Injector<u64>, task: u64)
    ensures
        injector_tasks(*final(injector)) == injector_tasks(*old(injector)).push(task),
{
    injector.push(task)
}

/// `crossbeam_deque::Injector::steal_batch_and_pop`: takes the task at the front
/// and moves some of those behind it to the back of `dest`, in reverse, so that
/// they are popped in order. How many are moved is left open; an attempt that has
/// to be made again changes nothing.
#[verifier::external_body]
pub(crate) fn injector_steal(injector: &mut Injector<u64>, dest: &mut Worker<u64>) -> (r: Taken)
    requires
        worker_private(*old(dest)),
    ensures
        worker_private(*final(dest)),
        r == Taken::Empty <==> injector_tasks(*old(injector)).len() == 0,
        !(r is Task) ==> injector_tasks(*final(injector)) == injector_tasks(*old(injector))
            && worker_tasks(*final(dest)) == worker_tasks(*old(dest)),
        r matches Taken::Task(task) ==> {
            &&& task == injector_tasks(*old(injector))[0]
            &&& exists|n: int|
                #![trigger injector_tasks(*old(injector)).skip(n)]
                {
                    &&& 1 <= n <= injector_tasks(*old(injector)).len()
                    &&& injector_tasks(*final(injector)) == injector_tasks(*old(injector)).skip(n)
                    &&& worker_tasks(*final(dest)) == worker_tasks(*old(dest)) + injector_tasks(
                        *old(injector),
                    ).subrange(1, n).reverse()
                }
        },
{
    match injector.steal_batch_and_pop(dest) {
        Steal::Empty => Taken::Empty,
        Steal::Retry => Taken::Retry,
        Steal::Success(task) => Taken::Task(task),
    }
}

/// `rand::distributions::Uniform::sample` over `0..n`: some number below `n`. Which
/// one is left to chance.
#[verifier::external_body]
pub(crate) fn random_below(n: usize) -> (r: usize)
    requires
        n > 0,
    ensures
        r < n,
{
    Uniform::new(0, n).sample(&mut rand::thread_rng())
}

} // verus!
