//! The pace of allocation: threads that collect provide credit, and threads that allocate
//! spend it, or wait when there is none. Times are in milliseconds.

use vstd::prelude::*;

use super::region::HeapOptions;
use super::shared_vars::SharedFlag;

verus! {

/// The credit of a cycle.
pub struct Pacer {
    need_notify_waiters: SharedFlag,
    epoch: i64,
    budget: i64,
    progress: i64,
}

/// What the contracts say of the credit.
pub struct PacerView {
    pub notify: bool,
    pub epoch: i64,
    pub budget: i64,
    pub progress: i64,
}

/// What an allocation has to do for its credit.
#[derive(Clone, Copy, PartialEq, Eq, Debug, Structural)]
pub enum PaceStep {
    /// It may go on.
    Go,
    /// It has to wait for more credit.
    Wait,
}

/// The state after credit has been added. Those who wait are woken up when there is none
/// missing any more.
pub open spec fn credited(v: PacerView, bytes: int) -> PacerView {
    PacerView {
        budget: (v.budget + bytes) as i64,
        notify: v.notify || (v.budget < 0 && v.budget + bytes >= 0),
        ..v
    }
}

/// The state after credit has been claimed, if it is there or force is used.
pub open spec fn claimed(v: PacerView, tax: i64, force: bool) -> (PacerView, bool) {
    if v.budget < tax && !force {
        (v, false)
    } else {
        (PacerView { budget: (v.budget - tax) as i64, ..v }, true)
    }
}

impl Pacer {
    pub closed spec fn view(&self) -> PacerView {
        PacerView {
            notify: self.need_notify_waiters.on(),
            epoch: self.epoch,
            budget: self.budget,
            progress: self.progress,
        }
    }

    pub closed spec fn wf(&self) -> bool {
        self.need_notify_waiters.wf()
    }

    pub fn new() -> (r: Self)
        ensures
            r.wf(),
            r@ == (PacerView { notify: false, epoch: 0, budget: 0, progress: (-1) as i64 }),
    {
        Pacer { need_notify_waiters: SharedFlag::new(), epoch: 0, budget: 0, progress: -1 }
    }

    fn add_budget(&mut self, bytes: i64)
        requires
            old(self).wf(),
            0 <= bytes,
            old(self)@.budget + bytes <= i64::MAX,
        ensures
            final(self).wf(),
            final(self)@ == credited(old(self)@, bytes as int),
    {
        let new_budget: i64 = self.budget + bytes;
        self.budget = new_budget;
        if new_budget >= 0 && (new_budget - bytes) < 0 {
            let first: bool = self.need_notify_waiters.try_set();
        }
    }

    pub fn report_alloc(&mut self, bytes: i64)
        requires
            old(self).wf(),
            0 <= bytes,
            old(self)@.budget + bytes <= i64::MAX,
        ensures
            final(self).wf(),
            final(self)@ == credited(old(self)@, bytes as int),
    {
        self.add_budget(bytes);
    }

    pub fn report_mark(&mut self, bytes: i64)
        requires
            old(self).wf(),
            0 <= bytes,
            old(self)@.budget + bytes <= i64::MAX,
            old(self)@.progress + bytes <= i64::MAX,
        ensures
            final(self).wf(),
            final(self)@ == (PacerView {
                progress: (old(self)@.progress + bytes) as i64,
                ..credited(old(self)@, bytes as int)
            }),
    {
        self.add_budget(bytes);
        self.progress = self.progress + bytes;
    }

    pub fn report_sweep(&mut self, bytes: i64)
        requires
            old(self).wf(),
            0 <= bytes,
            old(self)@.budget + bytes <= i64::MAX,
        ensures
            final(self).wf(),
            final(self)@ == credited(old(self)@, bytes as int),
    {
        self.add_budget(bytes);
    }

    /// The progress of the last marking, if there was one. A new one starts from nothing.
    pub fn update_and_get_progress(&mut self) -> (r: Option<i64>)
        requires
            old(self).wf(),
        ensures
            final(self).wf(),
            final(self)@ == (PacerView { progress: 0, ..old(self)@ }),
            r == if old(self)@.progress < 0 {
                None
            } else {
                Some(old(self)@.progress)
            },
    {
        let progress: i64 = self.progress;
        self.progress = 0;
        if progress < 0 {
            None
        } else {
            Some(progress)
        }
    }

    /// Starts a new epoch with some credit.
    pub fn restart_with(&mut self, initial: i64)
        requires
            old(self).wf(),
            old(self)@.epoch < i64::MAX,
        ensures
            final(self).wf(),
            final(self)@ == (PacerView {
                budget: initial,
                epoch: (old(self)@.epoch + 1) as i64,
                notify: true,
                ..old(self)@
            }),
    {
        self.budget = initial;
        self.epoch = self.epoch + 1;
        let first: bool = self.need_notify_waiters.try_set();
    }

    /// What may be allocated of the free bytes without credit, and what may not.
    pub fn split_free(free: usize, opts: &HeapOptions) -> (r: (usize, usize))
        requires
            free * opts.pacing_cycle_slack <= usize::MAX,
            opts.pacing_cycle_slack <= 100,
        ensures
            r.0 == free * opts.pacing_cycle_slack / 100,
            r.0 + r.1 == free,
    {
        let slack: usize = opts.pacing_cycle_slack;
        assert(free * slack <= free * 100) by (nonlinear_arith)
            requires
                slack <= 100,
        ;
        let non_taxable: usize = free * slack / 100;
        (non_taxable, free - non_taxable)
    }

    /// What may be allocated without credit between cycles.
    pub fn idle_slack(max_capacity: usize, opts: &HeapOptions) -> (r: usize)
        requires
            max_capacity as int / 100 * opts.pacing_idle_slack <= usize::MAX,
        ensures
            r == max_capacity as int / 100 * opts.pacing_idle_slack,
    {
        max_capacity / 100 * opts.pacing_idle_slack
    }

    /// Claims credit.
    pub fn claim_for_alloc(&mut self, tax: i64, force: bool) -> (r: bool)
        requires
            old(self).wf(),
            1 <= tax,
            i64::MIN <= old(self)@.budget - tax,
        ensures
            final(self).wf(),
            (final(self)@, r) == claimed(old(self)@, tax, force),
    {
        let cur: i64 = self.budget;
        if cur < tax && !force {
            return false;
        }
        self.budget = cur - tax;
        true
    }

    /// Claims credit for an allocation of an epoch, and tells whether it has to wait. If
    /// there is not enough, the credit goes below zero.
    pub fn update_for_alloc(&mut self, epoch: i64, tax: i64) -> (r: PaceStep)
        requires
            old(self).wf(),
            1 <= tax,
            i64::MIN <= old(self)@.budget - tax,
        ensures
            final(self).wf(),
            ({
                let v = old(self)@;
                &&& r == if v.epoch != epoch || v.budget >= tax {
                    PaceStep::Go
                } else {
                    PaceStep::Wait
                }
                &&& final(self)@ == if v.epoch != epoch {
                    v
                } else {
                    PacerView { budget: (v.budget - tax) as i64, ..v }
                }
            }),
    {
        if self.epoch != epoch {
            return PaceStep::Go;
        }
        if self.claim_for_alloc(tax, false) {
            return PaceStep::Go;
        }
        let forced: bool = self.claim_for_alloc(tax, true);
        PaceStep::Wait
    }

    /// How long an allocation waits that has waited for `total`.
    pub fn wait_time(max: u64, total: u64) -> (r: u64)
        ensures
            r == if max > total {
                max - total
            } else {
                1
            },
    {
        if max > total {
            max - total
        } else {
            1
        }
    }

    /// Whether an allocation that has waited for `total` goes on: it has waited long enough,
    /// or its claim is satisfied.
    pub fn stops_waiting(&self, max: u64, total: u64) -> (r: bool)
        ensures
            r == (total > max || self@.budget >= 0),
    {
        total > max || self.budget >= 0
    }

    /// Whether those who wait have to be woken up.
    pub fn notify_waiters(&mut self) -> (r: bool)
        requires
            old(self).wf(),
        ensures
            final(self).wf(),
            r == old(self)@.notify,
            final(self)@ == (PacerView { notify: false, ..old(self)@ }),
    {
        self.need_notify_waiters.try_unset()
    }
}

/// A claim that went below zero is satisfied, and those who wait are woken up, as soon as as
/// much has been credited as was missing.
pub proof fn lemma_credit_wakes(v: PacerView, tax: i64, bytes: int)
    requires
        0 <= v.budget < tax,
        i64::MIN <= v.budget - tax,
        tax - v.budget <= bytes,
        v.budget - tax + bytes <= i64::MAX,
    ensures
        ({
            let w = claimed(v, tax, true).0;
            let u = credited(w, bytes);
            &&& w.budget < 0
            &&& u.budget >= 0
            &&& u.notify
        }),
{
}

/// What claims and credit do to the budget. A claim without force is granted if and only if
/// there is enough credit, which then stays at or above zero; one that is refused changes
/// nothing. Crediting what was claimed restores the budget, credit adds up, and those who
/// wait are woken up only when it passes zero.
pub proof fn lemma_credit(v: PacerView, tax: i64, force: bool, a: int, b: int)
    requires
        1 <= tax,
        i64::MIN <= v.budget - tax,
        0 <= a,
        0 <= b,
        v.budget + a + b <= i64::MAX,
    ensures
        ({
            let (w, granted) = claimed(v, tax, force);
            &&& !force ==> (granted <==> tax <= v.budget)
            &&& force ==> granted
            &&& granted && !force ==> 0 <= w.budget
            &&& !granted ==> w == v
            &&& granted ==> credited(w, tax as int).budget == v.budget
            &&& w.epoch == v.epoch && w.progress == v.progress && w.notify == v.notify
        }),
        credited(credited(v, a), b) == credited(v, a + b),
        credited(v, a).budget >= v.budget,
        !v.notify && credited(v, a).notify ==> v.budget < 0 <= credited(v, a).budget,
        credited(v, a).epoch == v.epoch && credited(v, a).progress == v.progress,
{
}

} // verus!
