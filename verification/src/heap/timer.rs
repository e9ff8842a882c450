//! The phases of a cycle and their durations. Times are counted from a common start.

use vstd::prelude::*;

verus! {

/// What a phase does to the mutators.
#[derive(Clone, Copy, PartialEq, Eq, PartialOrd, Ord, Debug, Structural)]
pub enum PhaseType {
    Pause,
    Concurrent,
}

/// A phase of a cycle.
#[derive(Clone, Copy)]
pub struct GCPhase {
    pub name: &'static str,
    pub level: i32,
    pub start: u64,
    pub end: u64,
    pub typ: PhaseType,
}

/// Somebody who looks at phases, or changes them.
pub trait PhaseVisitor: Sized {
    /// Whether looking at a phase turns the visitor into another.
    spec fn visits(self, phase: GCPhase, after: Self) -> bool;

    /// Whether changing a phase turns the visitor and the phase into others.
    spec fn changes(self, phase: GCPhase, after: Self, phase_after: GCPhase) -> bool;

    fn visit(&mut self, phase: &GCPhase)
        ensures
            old(self).visits(*phase, *final(self)),
    ;

    fn visit_mut(&mut self, phase: &mut GCPhase)
        ensures
            old(self).changes(*old(phase), *final(self), *final(phase)),
    ;
}

impl GCPhase {
    /// Lets a visitor look at the phase.
    pub fn accept<V: PhaseVisitor>(&self, visitor: &mut V)
        ensures
            old(visitor).visits(*self, *final(visitor)),
    {
        visitor.visit(self);
    }

    /// Lets a visitor change the phase.
    pub fn accept_mut<V: PhaseVisitor>(&mut self, visitor: &mut V)
        ensures
            old(visitor).changes(*old(self), *final(visitor), *final(self)),
    {
        visitor.visit_mut(self);
    }
}

impl GCPhase {
    pub fn new(name: &'static str, level: i32, start: u64, end: u64, typ: PhaseType) -> (r: Self)
        ensures
            r == (GCPhase { name, level, start, end, typ }),
    {
        GCPhase { name, level, start, end, typ }
    }

    pub fn set_name(&mut self, name: &'static str)
        ensures
            *final(self) == (GCPhase { name, ..*old(self) }),
    {
        self.name = name;
    }

    pub fn set_level(&mut self, level: i32)
        ensures
            *final(self) == (GCPhase { level, ..*old(self) }),
    {
        self.level = level;
    }

    pub fn set_start(&mut self, start: u64)
        ensures
            *final(self) == (GCPhase { start, ..*old(self) }),
    {
        self.start = start;
    }

    pub fn set_end(&mut self, end: u64)
        ensures
            *final(self) == (GCPhase { end, ..*old(self) }),
    {
        self.end = end;
    }

    pub fn set_type(&mut self, typ: PhaseType)
        ensures
            *final(self) == (GCPhase { typ, ..*old(self) }),
    {
        self.typ = typ;
    }

    pub fn name(&self) -> (r: &'static str)
        ensures
            r == self.name,
    {
        self.name
    }

    pub fn level(&self) -> (r: i32)
        ensures
            r == self.level,
    {
        self.level
    }

    pub fn start(&self) -> (r: u64)
        ensures
            r == self.start,
    {
        self.start
    }

    pub fn end(&self) -> (r: u64)
        ensures
            r == self.end,
    {
        self.end
    }

    pub fn typ(&self) -> (r: PhaseType)
        ensures
            r == self.typ,
    {
        self.typ
    }

    pub fn duration(&self) -> (r: u64)
        requires
            self.start <= self.end,
        ensures
            r == self.end - self.start,
    {
        self.end - self.start
    }
}

/// The number of phases that can be open within each other.
pub const MAX_PHASE_LEVELS: usize = 6;

/// The phases that are open, by number.
pub struct PhasesStack {
    phase_indices: Vec<i32>,
    next_phase_level: i32,
}

impl PhasesStack {
    /// There are always places for all levels.
    pub closed spec fn wf(&self) -> bool {
        self.phase_indices@.len() == 6 && 0 <= self.next_phase_level <= 6
    }

    /// The phases that are open, the innermost one at the end.
    pub closed spec fn view(&self) -> Seq<i32> {
        self.phase_indices@.take(self.next_phase_level as int)
    }

    pub fn new() -> (r: Self)
        ensures
            r.wf(),
            r@ == Seq::<i32>::empty(),
    {
        let r = PhasesStack { phase_indices: vec![0i32; MAX_PHASE_LEVELS], next_phase_level: 0 };
        assert(r@ =~= Seq::<i32>::empty());
        r
    }

    pub fn clear(&mut self)
        requires
            old(self).wf(),
        ensures
            final(self).wf(),
            final(self)@ == Seq::<i32>::empty(),
    {
        self.next_phase_level = 0;
        assert(self@ =~= Seq::<i32>::empty());
    }

    pub fn push(&mut self, phase_index: i32)
        requires
            old(self).wf(),
            old(self)@.len() < 6,
        ensures
            final(self).wf(),
            final(self)@ == old(self)@.push(phase_index),
    {
        let ghost before = self@;
        let at: usize = self.next_phase_level as usize;
        self.phase_indices.set(at, phase_index);
        self.next_phase_level = self.next_phase_level + 1;
        assert(self@ =~= before.push(phase_index));
    }

    pub fn pop(&mut self) -> (r: i32)
        requires
            old(self).wf(),
            old(self)@.len() > 0,
        ensures
            final(self).wf(),
            r == old(self)@.last(),
            final(self)@ == old(self)@.drop_last(),
    {
        let ghost before = self@;
        self.next_phase_level = self.next_phase_level - 1;
        assert(self@ =~= before.drop_last());
        self.phase_indices[self.next_phase_level as usize]
    }

    pub fn count(&self) -> (r: i32)
        requires
            self.wf(),
        ensures
            r == self@.len(),
            0 <= r <= 6,
    {
        self.next_phase_level
    }

    pub fn phase_index(&self, level: i32) -> (r: i32)
        requires
            self.wf(),
            0 <= level < self@.len(),
        ensures
            r == self@[level as int],
    {
        self.phase_indices[level as usize]
    }
}

/// The phases of a cycle, and how long its pauses are.
pub struct TimePartitions {
    phases: Vec<GCPhase>,
    active_phases: PhasesStack,
    sum_of_pauses: u64,
    longest_pause: u64,
}

/// What the contracts say of the phases.
#[verifier::ext_equal]
pub struct PartitionsView {
    pub phases: Seq<GCPhase>,
    pub open: Seq<i32>,
    pub sum: int,
    pub longest: int,
}

/// The state after a phase has been opened. `now` is a time to note as its end for now.
pub open spec fn phase_started(
    v: PartitionsView,
    name: &'static str,
    time: u64,
    now: u64,
    typ: PhaseType,
) -> PartitionsView {
    PartitionsView {
        phases: v.phases.push(
            GCPhase { name, level: v.open.len() as i32, start: time, end: now, typ },
        ),
        open: v.open.push(v.phases.len() as i32),
        ..v
    }
}

/// The state after the innermost phase has been closed. A pause that is not part of another
/// phase counts.
pub open spec fn phase_ended(v: PartitionsView, end: u64) -> PartitionsView {
    let i = v.open.last() as int;
    let p = GCPhase { end, ..v.phases[i] };
    let pause = end - p.start;
    let counts = p.typ == PhaseType::Pause && p.level == 0;
    PartitionsView {
        phases: v.phases.update(i, p),
        open: v.open.drop_last(),
        sum: if counts {
            v.sum + pause
        } else {
            v.sum
        },
        longest: if counts && pause > v.longest {
            pause
        } else {
            v.longest
        },
    }
}

/// Whether the innermost phase can be closed. Of a pause that counts, the time has to go
/// forward and the sum has to have room.
pub open spec fn closable(v: PartitionsView, end: u64) -> bool {
    let p = v.phases[v.open.last() as int];
    &&& v.open.len() > 0
    &&& p.typ == PhaseType::Pause && p.level == 0 ==> p.start <= end && v.sum + (end - p.start)
        <= u64::MAX
}

impl TimePartitions {
    pub closed spec fn view(&self) -> PartitionsView {
        PartitionsView {
            phases: self.phases@,
            open: self.active_phases@,
            sum: self.sum_of_pauses as int,
            longest: self.longest_pause as int,
        }
    }

    /// The open phases are there.
    pub closed spec fn wf(&self) -> bool {
        &&& self.active_phases.wf()
        &&& forall|k: int|
            0 <= k < self.active_phases@.len() ==> 0 <= (#[trigger] self.active_phases@[k])
                < self.phases@.len()
    }

    pub fn new() -> (r: Self)
        ensures
            r.wf(),
            r@ == (PartitionsView {
                phases: Seq::empty(),
                open: Seq::empty(),
                sum: 0,
                longest: 0,
            }),
    {
        let r = TimePartitions {
            phases: Vec::with_capacity(100),
            active_phases: PhasesStack::new(),
            sum_of_pauses: 0,
            longest_pause: 0,
        };
        assert(r@.phases =~= Seq::<GCPhase>::empty());
        r
    }

    pub fn clear(&mut self)
        requires
            old(self).wf(),
        ensures
            final(self).wf(),
            final(self)@ == (PartitionsView {
                phases: Seq::empty(),
                open: Seq::empty(),
                sum: 0,
                longest: 0,
            }),
    {
        self.phases.clear();
        self.active_phases.clear();
        self.sum_of_pauses = 0;
        self.longest_pause = 0;
        assert(self@.phases =~= Seq::<GCPhase>::empty());
    }

    pub fn report_gc_phase_start(
        &mut self,
        name: &'static str,
        time: u64,
        now: u64,
        typ: PhaseType,
    )
        requires
            old(self).wf(),
            old(self)@.open.len() < 6,
            old(self)@.phases.len() < i32::MAX,
        ensures
            final(self).wf(),
            final(self)@ == phase_started(old(self)@, name, time, now, typ),
    {
        let level: i32 = self.active_phases.count();
        let phase = GCPhase::new(name, level, time, now, typ);
        let index: usize = self.phases.len();
        self.phases.push(phase);
        let ghost open = self.active_phases@;
        self.active_phases.push(index as i32);
        proof {
            assert forall|k: int| 0 <= k < self.active_phases@.len() implies 0 <= (
            #[trigger] self.active_phases@[k]) < self.phases@.len() by {
                if k < open.len() {
                    assert(self.active_phases@[k] == open[k]);
                }
            }
        }
    }

    /// Opens a phase that is not part of another one.
    pub fn report_gc_phase_start_top_level(
        &mut self,
        name: &'static str,
        time: u64,
        now: u64,
        typ: PhaseType,
    )
        requires
            old(self).wf(),
            old(self)@.open.len() == 0,
            old(self)@.phases.len() < i32::MAX,
        ensures
            final(self).wf(),
            final(self)@ == phase_started(old(self)@, name, time, now, typ),
    {
        self.report_gc_phase_start(name, time, now, typ);
    }

    /// Opens a phase that is part of another one, and of the same kind.
    pub fn report_gc_phase_start_sub_phase(&mut self, name: &'static str, time: u64, now: u64)
        requires
            old(self).wf(),
            0 < old(self)@.open.len() < 6,
            old(self)@.phases.len() < i32::MAX,
        ensures
            final(self).wf(),
            final(self)@ == phase_started(
                old(self)@,
                name,
                time,
                now,
                old(self)@.phases[old(self)@.open.last() as int].typ,
            ),
    {
        let typ: PhaseType = self.current_phase_type();
        self.report_gc_phase_start(name, time, now, typ);
    }

    /// Closes the innermost phase.
    pub fn report_gc_phase_end(&mut self, end: u64)
        requires
            old(self).wf(),
            closable(old(self)@, end),
        ensures
            final(self).wf(),
            final(self)@ == phase_ended(old(self)@, end),
    {
        let ghost before = *self;
        proof {
            assert(self.active_phases@[self.active_phases@.len() - 1] >= 0);
        }
        let phase_index: i32 = self.active_phases.pop();
        let at: usize = phase_index as usize;
        let mut phase: GCPhase = self.phases[at];
        phase.set_end(end);
        self.phases.set(at, phase);
        if phase.typ() == PhaseType::Pause && phase.level() == 0 {
            let pause: u64 = phase.end() - phase.start();
            self.sum_of_pauses = self.sum_of_pauses + pause;
            if pause > self.longest_pause {
                self.longest_pause = pause;
            }
        }
        proof {
            assert forall|k: int| 0 <= k < self.active_phases@.len() implies 0 <= (
            #[trigger] self.active_phases@[k]) < self.phases@.len() by {
                assert(self.active_phases@[k] == before.active_phases@[k]);
            }
            assert(self@ =~= phase_ended(before@, end));
        }
    }

    pub fn num_phases(&self) -> (r: usize)
        ensures
            r == self@.phases.len(),
    {
        self.phases.len()
    }

    pub fn phase(&self, index: usize) -> (r: &GCPhase)
        requires
            index < self@.phases.len(),
        ensures
            *r == self@.phases[index as int],
    {
        &self.phases[index]
    }

    pub fn phase_mut(&mut self, index: usize) -> (r: &mut GCPhase)
        requires
            old(self).wf(),
            index < old(self)@.phases.len(),
        ensures
            *r == old(self)@.phases[index as int],
            final(self)@ == (PartitionsView {
                phases: old(self)@.phases.update(index as int, *final(r)),
                ..old(self)@
            }),
            final(self).wf(),
    {
        &mut self.phases[index]
    }

    pub fn current_phase_type(&self) -> (r: PhaseType)
        requires
            self.wf(),
            self@.open.len() > 0,
        ensures
            r == self@.phases[self@.open.last() as int].typ,
    {
        let count: i32 = self.active_phases.count();
        let index: i32 = self.active_phases.phase_index(count - 1);
        assert(self.active_phases@[count - 1] >= 0);
        self.phases[index as usize].typ()
    }

    pub fn sum_of_pauses(&self) -> (r: u64)
        ensures
            r == self@.sum,
    {
        self.sum_of_pauses
    }

    pub fn longest_pause(&self) -> (r: u64)
        ensures
            r == self@.longest,
    {
        self.longest_pause
    }
}

/// Opening a phase and closing it leaves the phases that were open as they were. It adds to
/// the pauses exactly if it is a pause that is not part of another phase.
pub proof fn lemma_phase_closed(
    v: PartitionsView,
    name: &'static str,
    time: u64,
    now: u64,
    typ: PhaseType,
    end: u64,
)
    requires
        v.open.len() < 6,
        v.phases.len() < i32::MAX,
    ensures
        ({
            let w = phase_ended(phase_started(v, name, time, now, typ), end);
            let counts = typ == PhaseType::Pause && v.open.len() == 0;
            &&& w.open == v.open
            &&& w.phases.len() == v.phases.len() + 1
            &&& w.phases.drop_last() == v.phases
            &&& w.phases.last() == (GCPhase {
                name,
                level: v.open.len() as i32,
                start: time,
                end,
                typ,
            })
            &&& w.sum == if counts {
                v.sum + (end - time)
            } else {
                v.sum
            }
            &&& w.longest >= v.longest
        }),
{
    let w = phase_ended(phase_started(v, name, time, now, typ), end);
    assert(w.open =~= v.open);
    assert(w.phases.drop_last() =~= v.phases);
}

/// No pause is longer than the longest one, and the longest one is not longer than all
/// pauses together.
pub proof fn lemma_longest(v: PartitionsView, end: u64)
    requires
        0 <= v.longest <= v.sum,
        closable(v, end),
    ensures
        ({
            let w = phase_ended(v, end);
            &&& 0 <= w.longest <= w.sum
            &&& v.longest <= w.longest
        }),
{
}

/// The timer of a cycle.
pub struct GCTimer {
    gc_start: u64,
    gc_end: u64,
    time_partitions: TimePartitions,
    concurrent: bool,
}

impl GCTimer {
    pub closed spec fn start(&self) -> u64 {
        self.gc_start
    }

    pub closed spec fn end(&self) -> u64 {
        self.gc_end
    }

    pub closed spec fn parts(&self) -> PartitionsView {
        self.time_partitions@
    }

    pub closed spec fn is_concurrent(&self) -> bool {
        self.concurrent
    }

    pub closed spec fn wf(&self) -> bool {
        self.time_partitions.wf()
    }

    pub fn new(concurrent: bool, now: u64) -> (r: Self)
        ensures
            r.wf(),
            r.start() == now,
            r.end() == now,
            r.is_concurrent() == concurrent,
            r.parts() == (PartitionsView {
                phases: Seq::empty(),
                open: Seq::empty(),
                sum: 0,
                longest: 0,
            }),
    {
        GCTimer {
            gc_start: now,
            gc_end: now,
            time_partitions: TimePartitions::new(),
            concurrent,
        }
    }

    pub fn time_partitions(&self) -> (r: &TimePartitions)
        ensures
            r@ == self.parts(),
            self.wf() ==> r.wf(),
    {
        &self.time_partitions
    }

    /// Starts a cycle. One that does not run beside the mutators is a pause.
    pub fn register_gc_start(&mut self, time: u64, now: u64)
        requires
            old(self).wf(),
        ensures
            final(self).wf(),
            final(self).start() == time,
            final(self).end() == old(self).end(),
            final(self).is_concurrent() == old(self).is_concurrent(),
            ({
                let none = PartitionsView {
                    phases: Seq::empty(),
                    open: Seq::empty(),
                    sum: 0,
                    longest: 0,
                };
                final(self).parts() == if old(self).is_concurrent() {
                    none
                } else {
                    phase_started(none, "GC Pause", time, now, PhaseType::Pause)
                }
            }),
    {
        self.time_partitions.clear();
        self.gc_start = time;
        if !self.concurrent {
            self.register_gc_pause_start("GC Pause", time, now);
        }
    }

    /// Ends a cycle.
    pub fn register_gc_end(&mut self, time: u64)
        requires
            old(self).wf(),
            !old(self).is_concurrent() ==> closable(old(self).parts(), time),
        ensures
            final(self).wf(),
            final(self).start() == old(self).start(),
            final(self).end() == time,
            final(self).is_concurrent() == old(self).is_concurrent(),
            final(self).parts() == if old(self).is_concurrent() {
                old(self).parts()
            } else {
                phase_ended(old(self).parts(), time)
            },
    {
        if !self.concurrent {
            self.register_gc_pause_end(time);
        }
        self.gc_end = time;
    }

    pub fn register_gc_pause_start(&mut self, name: &'static str, time: u64, now: u64)
        requires
            old(self).wf(),
            old(self).parts().open.len() == 0,
            old(self).parts().phases.len() < i32::MAX,
        ensures
            final(self).same_cycle(old(self)),
            final(self).parts() == phase_started(
                old(self).parts(),
                name,
                time,
                now,
                PhaseType::Pause,
            ),
    {
        self.time_partitions.report_gc_phase_start_top_level(name, time, now, PhaseType::Pause);
    }

    /// Only the phases differ.
    pub open spec fn same_cycle(&self, other: &Self) -> bool {
        &&& self.wf()
        &&& self.start() == other.start()
        &&& self.end() == other.end()
        &&& self.is_concurrent() == other.is_concurrent()
    }

    /// Whether the innermost phase can be closed.
    pub open spec fn can_end(&self, time: u64) -> bool {
        self.wf() && closable(self.parts(), time)
    }

    pub fn register_gc_pause_end(&mut self, time: u64)
        requires
            old(self).can_end(time),
        ensures
            final(self).same_cycle(old(self)),
            final(self).parts() == phase_ended(old(self).parts(), time),
    {
        self.time_partitions.report_gc_phase_end(time);
    }

    pub fn register_gc_phase_start(&mut self, name: &'static str, time: u64, now: u64)
        requires
            old(self).wf(),
            0 < old(self).parts().open.len() < 6,
            old(self).parts().phases.len() < i32::MAX,
        ensures
            final(self).same_cycle(old(self)),
            final(self).parts() == phase_started(
                old(self).parts(),
                name,
                time,
                now,
                old(self).parts().phases[old(self).parts().open.last() as int].typ,
            ),
    {
        self.time_partitions.report_gc_phase_start_sub_phase(name, time, now);
    }

    pub fn register_gc_phase_end(&mut self, time: u64)
        requires
            old(self).can_end(time),
        ensures
            final(self).same_cycle(old(self)),
            final(self).parts() == phase_ended(old(self).parts(), time),
    {
        self.time_partitions.report_gc_phase_end(time);
    }

    pub fn register_gc_concurrent_start(&mut self, name: &'static str, time: u64, now: u64)
        requires
            old(self).wf(),
            old(self).parts().open.len() == 0,
            old(self).parts().phases.len() < i32::MAX,
        ensures
            final(self).same_cycle(old(self)),
            final(self).parts() == phase_started(
                old(self).parts(),
                name,
                time,
                now,
                PhaseType::Concurrent,
            ),
    {
        self.time_partitions.report_gc_phase_start_top_level(
            name,
            time,
            now,
            PhaseType::Concurrent,
        );
    }

    pub fn register_gc_concurrent_end(&mut self, time: u64)
        requires
            old(self).can_end(time),
        ensures
            final(self).same_cycle(old(self)),
            final(self).parts() == phase_ended(old(self).parts(), time),
    {
        self.time_partitions.report_gc_phase_end(time);
    }
}

} // verus!
