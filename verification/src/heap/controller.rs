//! The thread that starts collection cycles.

use vstd::prelude::*;

use super::concurrent_thread::ConcurrentGCThread;
use super::region::HeapOptions;
use super::shared_vars::SharedFlag;

verus! {

/// What kind of cycle is to run.
#[derive(Clone, Copy, PartialEq, Eq, PartialOrd, Ord, Debug, Structural)]
pub enum GCMode {
    /// No cycle is to run.
    NoCycle,
    /// Happens when the user explicitly requested a collection, or an allocation failed.
    FullSTW,
    /// Happens when a threshold is reached.
    ConcurrentSweep,
}

/// Where the service stands.
#[derive(Clone, Copy, PartialEq, Eq, Debug, Structural)]
pub enum ServicePhase {
    /// It decides whether to collect.
    Decide,
    /// A cycle that it asked for is running. It answers the requests that it saw.
    Collecting { explicit: bool, failure: bool },
    /// It waits until it is asked to terminate.
    Drain,
    /// It has ended.
    Ended,
}

/// What is to be done for the service before its next step.
#[derive(Clone, Copy, PartialEq, Eq, Debug, Structural)]
pub enum ServiceAction {
    /// A cycle is to be run.
    Collect { mode: GCMode },
    /// The thread is to sleep for some milliseconds.
    Sleep { millis: usize },
    /// The thread is to let others run.
    Yield,
    /// There is nothing left to do.
    Stop,
}

/// The state of the thread that starts collection cycles.
pub struct ControlThread {
    should_terminate: bool,
    has_terminated: bool,
    gc_requested: SharedFlag,
    alloc_failure_gc: SharedFlag,
    graceful_shutdown: SharedFlag,
    heap_changed: SharedFlag,
    gc_id: usize,
    phase: ServicePhase,
    sleep: usize,
    last_sleep_adjust_time: u64,
}

/// What the contracts say of the thread.
pub struct ControlView {
    pub asked_to_stop: bool,
    pub stopped: bool,
    pub requested: bool,
    pub failure: bool,
    pub shutdown: bool,
    pub changed: bool,
    pub gc_id: usize,
    pub phase: ServicePhase,
    pub sleep: usize,
    pub adjusted: u64,
}

/// The time to sleep before the next decision: the shortest if the heap has changed, and
/// twice the last one, within limits, if that time was last adjusted long ago.
pub open spec fn next_sleep(v: ControlView, now: u64, opts: HeapOptions) -> ControlView {
    if v.changed {
        ControlView { changed: false, sleep: opts.control_interval_min, ..v }
    } else if now - v.adjusted > opts.control_interval_adjust_period {
        let doubled = if v.sleep == 0 {
            1
        } else {
            2 * v.sleep
        };
        ControlView {
            adjusted: now,
            sleep: if doubled < opts.control_interval_max {
                doubled as usize
            } else {
                opts.control_interval_max
            },
            ..v
        }
    } else {
        v
    }
}

/// The step of the service. `start` says whether the heuristics ask for a cycle.
pub open spec fn service_step(v: ControlView, start: bool, now: u64, opts: HeapOptions) -> (
    ControlView,
    ServiceAction,
) {
    match v.phase {
        ServicePhase::Decide => if v.shutdown || v.asked_to_stop {
            drain_step(v)
        } else if v.failure || v.requested || start {
            (
                ControlView {
                    gc_id: next_id(v.gc_id),
                    phase: ServicePhase::Collecting { explicit: v.requested, failure: v.failure },
                    ..v
                },
                ServiceAction::Collect { mode: GCMode::FullSTW },
            )
        } else {
            let w = next_sleep(v, now, opts);
            (w, ServiceAction::Sleep { millis: w.sleep })
        },
        ServicePhase::Collecting { explicit, failure } => {
            let w = next_sleep(
                ControlView {
                    requested: v.requested && !explicit,
                    failure: v.failure && !failure,
                    phase: ServicePhase::Decide,
                    ..v
                },
                now,
                opts,
            );
            (w, ServiceAction::Sleep { millis: w.sleep })
        },
        ServicePhase::Drain => drain_step(v),
        ServicePhase::Ended => (v, ServiceAction::Stop),
    }
}

/// The step of a service that has no more cycles to start.
pub open spec fn drain_step(v: ControlView) -> (ControlView, ServiceAction) {
    if v.asked_to_stop {
        (ControlView { stopped: true, phase: ServicePhase::Ended, ..v }, ServiceAction::Stop)
    } else {
        (ControlView { phase: ServicePhase::Drain, ..v }, ServiceAction::Yield)
    }
}

/// The number of the next cycle.
pub open spec fn next_id(id: usize) -> usize {
    if id == usize::MAX {
        0
    } else {
        (id + 1) as usize
    }
}

impl ConcurrentGCThread for ControlThread {
    closed spec fn asked_to_stop(&self) -> bool {
        self.should_terminate
    }

    closed spec fn stopped(&self) -> bool {
        self.has_terminated
    }

    fn should_terminate(&self) -> (r: bool) {
        self.should_terminate
    }

    fn has_terminated(&self) -> (r: bool) {
        self.has_terminated
    }

    fn stop(&mut self)
        ensures
            old(self).wf() ==> final(self).wf(),
            final(self).view() == (ControlView { asked_to_stop: true, ..old(self).view() }),
    {
        self.should_terminate = true;
    }
}

impl ControlThread {
    pub closed spec fn view(&self) -> ControlView {
        ControlView {
            asked_to_stop: self.should_terminate,
            stopped: self.has_terminated,
            requested: self.gc_requested.on(),
            failure: self.alloc_failure_gc.on(),
            shutdown: self.graceful_shutdown.on(),
            changed: self.heap_changed.on(),
            gc_id: self.gc_id,
            phase: self.phase,
            sleep: self.sleep,
            adjusted: self.last_sleep_adjust_time,
        }
    }

    pub closed spec fn wf(&self) -> bool {
        &&& self.gc_requested.wf()
        &&& self.alloc_failure_gc.wf()
        &&& self.graceful_shutdown.wf()
        &&& self.heap_changed.wf()
    }

    /// A thread that is about to serve. Times are in milliseconds.
    pub fn new(opts: &HeapOptions, now: u64) -> (r: Self)
        ensures
            r.wf(),
            r.view() == (ControlView {
                asked_to_stop: false,
                stopped: false,
                requested: false,
                failure: false,
                shutdown: false,
                changed: false,
                gc_id: 0,
                phase: ServicePhase::Decide,
                sleep: opts.control_interval_min,
                adjusted: now,
            }),
    {
        ControlThread {
            should_terminate: false,
            has_terminated: false,
            gc_requested: SharedFlag::new(),
            alloc_failure_gc: SharedFlag::new(),
            graceful_shutdown: SharedFlag::new(),
            heap_changed: SharedFlag::new(),
            gc_id: 0,
            phase: ServicePhase::Decide,
            sleep: opts.control_interval_min,
            last_sleep_adjust_time: now,
        }
    }

    pub fn prepare_for_graceful_shutdown(&mut self)
        requires
            old(self).wf(),
        ensures
            final(self).wf(),
            final(self).view() == (ControlView { shutdown: true, ..old(self).view() }),
    {
        self.graceful_shutdown.set();
    }

    pub fn in_graceful_shutdown(&self) -> (r: bool)
        ensures
            r == self.view().shutdown,
    {
        self.graceful_shutdown.is_set()
    }

    pub fn notify_heap_changed(&mut self)
        requires
            old(self).wf(),
        ensures
            final(self).wf(),
            final(self).view() == (ControlView { changed: true, ..old(self).view() }),
    {
        if self.heap_changed.is_unset() {
            self.heap_changed.set();
        }
    }

    pub fn reset_gc_id(&mut self)
        requires
            old(self).wf(),
        ensures
            final(self).wf(),
            final(self).view() == (ControlView { gc_id: 0, ..old(self).view() }),
    {
        self.gc_id = 0;
    }

    pub fn update_gc_id(&mut self)
        requires
            old(self).wf(),
        ensures
            final(self).wf(),
            final(self).view() == (ControlView {
                gc_id: next_id(old(self).view().gc_id),
                ..old(self).view()
            }),
    {
        self.gc_id = self.gc_id.wrapping_add(1);
    }

    pub fn get_gc_id(&self) -> (r: usize)
        ensures
            r == self.view().gc_id,
    {
        self.gc_id
    }

    /// Notes that an allocation failed, and tells whether this is the first failure since
    /// the last cycle. The caller then waits as long as `alloc_failure_pending` holds.
    pub fn handle_alloc_failure_gc(&mut self) -> (r: bool)
        requires
            old(self).wf(),
        ensures
            final(self).wf(),
            r == !old(self).view().failure,
            final(self).view() == (ControlView { failure: true, ..old(self).view() }),
    {
        self.alloc_failure_gc.try_set()
    }

    /// Whether an allocation failed and no cycle has answered it yet.
    pub fn alloc_failure_pending(&self) -> (r: bool)
        ensures
            r == self.view().failure,
    {
        self.alloc_failure_gc.is_set()
    }

    /// Tells all mutators whose allocation failed that the cycle is finished.
    pub fn notify_alloc_failure_waiters(&mut self)
        requires
            old(self).wf(),
        ensures
            final(self).wf(),
            final(self).view() == (ControlView { failure: false, ..old(self).view() }),
    {
        self.alloc_failure_gc.unset();
    }

    pub fn notify_gc_waiters(&mut self)
        requires
            old(self).wf(),
        ensures
            final(self).wf(),
            final(self).view() == (ControlView { requested: false, ..old(self).view() }),
    {
        self.gc_requested.unset();
    }

    /// The number that the next cycle will have. One who asks for a cycle waits for it.
    pub fn required_gc_id(&self) -> (r: usize)
        requires
            self.view().gc_id < usize::MAX,
        ensures
            r == self.view().gc_id + 1,
    {
        self.gc_id + 1
    }

    /// Asks for a cycle, unless the one that has to be waited for has started. Tells
    /// whether the caller has to wait, and to ask again afterwards.
    pub fn handle_requested_gc(&mut self, required_gc_id: usize) -> (r: bool)
        requires
            old(self).wf(),
        ensures
            final(self).wf(),
            r == (old(self).view().gc_id < required_gc_id),
            final(self).view() == (ControlView {
                requested: r || old(self).view().requested,
                ..old(self).view()
            }),
    {
        if self.gc_id < required_gc_id {
            self.gc_requested.set();
            true
        } else {
            false
        }
    }

    /// Whether the heuristics decide the next step: nobody has asked for a cycle, or for the
    /// service to end.
    pub fn asks_heuristics(&self) -> (r: bool)
        requires
            self.wf(),
        ensures
            r == heuristics_decide(self.view()),
    {
        self.phase == ServicePhase::Decide && !self.graceful_shutdown.is_set()
            && !self.should_terminate && !self.alloc_failure_gc.is_set()
            && !self.gc_requested.is_set()
    }

    /// What kind of cycle is to start now. `start` says whether the heuristics ask for one.
    pub fn choose_mode(&self, start: bool) -> (r: GCMode)
        ensures
            r == if self.view().failure || self.view().requested || start {
                GCMode::FullSTW
            } else {
                GCMode::NoCycle
            },
    {
        if self.alloc_failure_gc.is_set() {
            GCMode::FullSTW
        } else if self.gc_requested.is_set() {
            GCMode::FullSTW
        } else if start {
            GCMode::FullSTW
        } else {
            GCMode::NoCycle
        }
    }

    /// Waits before the next decision. If the heap has changed, the wait is short, so
    /// that the heuristics see the new conditions soon. At idle, it grows exponentially.
    fn adjust_sleep(&mut self, now: u64, opts: &HeapOptions)
        requires
            old(self).wf(),
            old(self).view().adjusted <= now,
            2 * old(self).view().sleep <= usize::MAX,
        ensures
            final(self).wf(),
            final(self).view() == next_sleep(old(self).view(), now, *opts),
    {
        if self.heap_changed.try_unset() {
            self.sleep = opts.control_interval_min;
        } else if now - self.last_sleep_adjust_time > opts.control_interval_adjust_period as u64 {
            self.last_sleep_adjust_time = now;
            let doubled: usize = if self.sleep == 0 {
                1
            } else {
                self.sleep * 2
            };
            self.sleep = if doubled < opts.control_interval_max {
                doubled
            } else {
                opts.control_interval_max
            };
        }
    }

    /// Does one step of the service, and tells what is to be done before the next one. A
    /// cycle that was asked for has run when the next step is made.
    pub fn run_service(&mut self, start: bool, now: u64, opts: &HeapOptions) -> (r: ServiceAction)
        requires
            old(self).wf(),
            old(self).view().adjusted <= now,
            2 * old(self).view().sleep <= usize::MAX,
        ensures
            final(self).wf(),
            (final(self).view(), r) == service_step(old(self).view(), start, now, *opts),
    {
        match self.phase {
            ServicePhase::Decide => {
                if self.in_graceful_shutdown() || self.should_terminate {
                    return self.drain();
                }
                let failure: bool = self.alloc_failure_gc.is_set();
                let explicit: bool = self.gc_requested.is_set();
                let mode: GCMode = self.choose_mode(start);
                if mode != GCMode::NoCycle {
                    self.update_gc_id();
                    self.phase = ServicePhase::Collecting { explicit, failure };
                    return ServiceAction::Collect { mode };
                }
            },
            ServicePhase::Collecting { explicit, failure } => {
                if explicit {
                    self.notify_gc_waiters();
                }
                if failure {
                    self.notify_alloc_failure_waiters();
                }
                self.phase = ServicePhase::Decide;
            },
            ServicePhase::Drain => {
                return self.drain();
            },
            ServicePhase::Ended => {
                return ServiceAction::Stop;
            },
        }
        self.adjust_sleep(now, opts);
        ServiceAction::Sleep { millis: self.sleep }
    }

    fn drain(&mut self) -> (r: ServiceAction)
        requires
            old(self).wf(),
        ensures
            final(self).wf(),
            (final(self).view(), r) == drain_step(old(self).view()),
    {
        if self.should_terminate {
            self.has_terminated = true;
            self.phase = ServicePhase::Ended;
            ServiceAction::Stop
        } else {
            self.phase = ServicePhase::Drain;
            ServiceAction::Yield
        }
    }
}

/// Whether the heuristics decide the next step.
pub open spec fn heuristics_decide(v: ControlView) -> bool {
    v.phase is Decide && !v.shutdown && !v.asked_to_stop && !v.failure && !v.requested
}

/// Where the heuristics do not decide, the step is the same whatever they ask for; where they
/// do, a cycle is started exactly if they ask for one.
pub proof fn lemma_heuristics_decide(v: ControlView, now: u64, opts: HeapOptions)
    ensures
        !heuristics_decide(v) ==> service_step(v, true, now, opts) == service_step(
            v,
            false,
            now,
            opts,
        ),
        heuristics_decide(v) ==> service_step(v, true, now, opts).1 is Collect && !(service_step(
            v,
            false,
            now,
            opts,
        ).1 is Collect),
{
}

/// A request is answered by the next cycle: the service starts one, the one who asked has
/// to wait no longer, and after the cycle the request is gone.
pub proof fn lemma_request_answered(
    v: ControlView,
    start: bool,
    now: u64,
    later: u64,
    opts: HeapOptions,
)
    requires
        v.phase is Decide,
        !v.shutdown,
        !v.asked_to_stop,
        v.requested,
        v.gc_id < usize::MAX,
    ensures
        ({
            let (w, action) = service_step(v, start, now, opts);
            let (u, wait) = service_step(w, false, later, opts);
            &&& action == (ServiceAction::Collect { mode: GCMode::FullSTW })
            &&& w.gc_id >= v.gc_id + 1
            &&& !u.requested
            &&& u.phase is Decide
            &&& wait is Sleep
        }),
{
}

/// A failed allocation is answered by the next cycle, and by nothing else.
pub proof fn lemma_failure_answered(
    v: ControlView,
    start: bool,
    now: u64,
    later: u64,
    opts: HeapOptions,
)
    requires
        v.phase is Decide,
        !v.shutdown,
        !v.asked_to_stop,
        v.failure,
    ensures
        ({
            let (w, action) = service_step(v, start, now, opts);
            let (u, wait) = service_step(w, false, later, opts);
            &&& action == (ServiceAction::Collect { mode: GCMode::FullSTW })
            &&& w.failure
            &&& !u.failure
        }),
{
}

/// Once it has been asked to terminate, the service starts no cycle any more, and it ends
/// with the next decision.
pub proof fn lemma_terminates(v: ControlView, start: bool, now: u64, opts: HeapOptions)
    requires
        v.asked_to_stop,
        v.phase is Decide || v.phase is Drain,
    ensures
        service_step(v, start, now, opts).1 == ServiceAction::Stop,
        service_step(v, start, now, opts).0.stopped,
{
}

/// The time to sleep stays within the limits that the options set.
pub proof fn lemma_sleep_bounded(v: ControlView, start: bool, now: u64, opts: HeapOptions)
    requires
        opts.control_interval_min <= opts.control_interval_max,
        v.sleep <= opts.control_interval_max,
    ensures
        service_step(v, start, now, opts).0.sleep <= opts.control_interval_max,
{
}

} // verus!
