//! Cycles that run beside the mutators.

use vstd::multiset::Multiset;
use vstd::prelude::*;

use super::bitmap::HeapBitmap;
use super::card_table::CardTable;
use super::cycle::{
    advanced, at_rest, in_order, lemma_progress_prefix, lemma_walked, marking_done, may,
    needs_stop, outcome, progress, sound, walked, world_stopped, GcAction, Progress,
};
use super::free_set::RegionFreeSet;
use super::heap::{Heap, HeapRegionClosure};
use super::mark::{MarkTask, Terminator};
use super::marking::{fits, is_object, objects_wf, state, visit_roots, visit_seq, Object};
use super::marking_context::MarkingContext;
use super::region::{HeapRegion, RegionState};
use super::thread::{flushed_tasks, Thread};
use super::DegenPoint;

verus! {

/// A cycle that marks and sweeps beside the mutators.
#[derive(Clone, Copy, PartialEq, Eq, Debug, Structural)]
pub struct ConcurrentGC {
    pub degen_point: DegenPoint,
    /// The number of steps that have been made.
    pub steps: u8,
}

/// The steps of a cycle that is not cancelled.
pub open spec fn concurrent_cycle() -> Seq<GcAction> {
    seq![
        GcAction::StopTheWorld,
        GcAction::PrepareGc,
        GcAction::RetireTlabs { raise_barriers: true },
        GcAction::CollectRoots,
        GcAction::MarkInProgress { on: true },
        GcAction::ResumeTheWorld,
        GcAction::Mark,
        GcAction::StopTheWorld,
        GcAction::RetireTlabs { raise_barriers: false },
        GcAction::MarkInProgress { on: false },
        GcAction::CollectRoots,
        GcAction::FinishMark,
        GcAction::PrepareUnswept,
        GcAction::ResumeTheWorld,
        GcAction::Sweep { concurrent: true, parallel: true },
        GcAction::Rebuild,
        GcAction::Finished { done: true },
    ]
}

/// The step of a cycle. A cancellation is looked for after marking and after sweeping.
pub open spec fn concurrent_step(gc: ConcurrentGC, cancelled: bool) -> (ConcurrentGC, GcAction) {
    if gc.steps >= 17 {
        (gc, GcAction::Finished { done: gc.degen_point is Unset })
    } else if cancelled && gc.steps == 7 {
        (
            ConcurrentGC { degen_point: DegenPoint::ConcurrentMark, steps: 17 },
            GcAction::Finished { done: false },
        )
    } else if cancelled && gc.steps == 15 {
        (
            ConcurrentGC { degen_point: DegenPoint::ConcurrentSweep, steps: 17 },
            GcAction::Finished { done: false },
        )
    } else {
        (ConcurrentGC { steps: (gc.steps + 1) as u8, ..gc }, concurrent_cycle()[gc.steps as int])
    }
}

/// The steps that a cycle makes of its own accord are in order.
pub proof fn lemma_concurrent_in_order()
    ensures
        in_order(concurrent_cycle()),
{
    let all = concurrent_cycle();
    reveal_with_fuel(world_stopped, 18);
    reveal_with_fuel(marking_done, 18);
    assert forall|i: int| 0 <= i < all.len() && needs_stop(#[trigger] all[i]) implies world_stopped(
        all,
        i,
    ) by {}
    assert forall|i: int| 0 <= i < all.len() && (#[trigger] all[i]) is Sweep implies marking_done(
        all,
        i,
    ) by {}
}

/// A cycle that is not cancelled does all its work, each part once those that it needs are
/// done. Above all the write barriers of the mutators are up whenever objects are marked
/// beside them.
pub proof fn lemma_concurrent_sound()
    ensures
        ({
            let all = concurrent_cycle();
            let start = at_rest(false, false);
            let end = outcome(start, all);
            &&& sound(start, all)
            &&& end.begun && end.complete && end.noted && end.swept && end.rebuilt
            &&& end.finished && !end.stopped && !end.barriers && !end.in_progress
            &&& forall|i: int|
                0 <= i < all.len() && (#[trigger] all[i]) is Mark ==> progress(start, all, i).barriers
            &&& forall|i: int|
                0 <= i < all.len() && (#[trigger] all[i]) is Sweep ==> {
                    &&& progress(start, all, i).noted
                    &&& all[i] == (GcAction::Sweep { concurrent: true, parallel: true })
                }
        }),
{
    lemma_concurrent_walk();
    lemma_kinds();
    lemma_kinds_sound(concurrent_cycle(), at_rest(false, false));
}

/// Where steps of some kinds are.
spec fn kinds(all: Seq<GcAction>) -> bool {
    &&& all.len() == 17
    &&& forall|i: int| 0 <= i < 17 ==> ((#[trigger] all[i]) is Mark <==> i == 6)
    &&& forall|i: int| 0 <= i < 17 ==> ((#[trigger] all[i]) is Sweep <==> i == 14)
    &&& forall|i: int| 0 <= i < 17 ==> ((#[trigger] all[i]) is Finished <==> i == 16)
    &&& all[14] == (GcAction::Sweep { concurrent: true, parallel: true })
    &&& all[16] == (GcAction::Finished { done: true })
}

proof fn lemma_kinds()
    ensures
        kinds(concurrent_cycle()),
{
    let all = concurrent_cycle();
    assert forall|i: int| 0 <= i < 17 implies ((#[trigger] all[i]) is Mark <==> i == 6) by {}
    assert forall|i: int| 0 <= i < 17 implies ((#[trigger] all[i]) is Sweep <==> i == 14) by {}
    assert forall|i: int| 0 <= i < 17 implies ((#[trigger] all[i]) is Finished <==> i == 16) by {}
}

proof fn lemma_kinds_sound(all: Seq<GcAction>, start: Progress)
    requires
        kinds(all),
        sound(start, all),
        progress(start, all, 14).noted,
    ensures
        forall|i: int|
            0 <= i < all.len() && (#[trigger] all[i]) is Mark ==> progress(start, all, i).barriers,
        forall|i: int|
            0 <= i < all.len() && (#[trigger] all[i]) is Sweep ==> {
                &&& progress(start, all, i).noted
                &&& all[i] == (GcAction::Sweep { concurrent: true, parallel: true })
            },
{
    assert(may(progress(start, all, 6), all[6]));
}

proof fn lemma_concurrent_walk()
    ensures
        ({
            let all = concurrent_cycle();
            let start = at_rest(false, false);
            &&& sound(start, all)
            &&& progress(start, all, 14).noted
            &&& outcome(start, all) == (Progress {
                retired: true,
                roots: true,
                begun: true,
                complete: true,
                noted: true,
                swept: true,
                rebuilt: true,
                finished: true,
                ..start
            })
        }),
{
    let all = concurrent_cycle();
    let start = at_rest(false, false);
    let p0 = start;
    assert(progress(start, all, 0) == p0);
    let p1 = advanced(p0, all[0]);
    assert(progress(start, all, 1) == p1);
    let p2 = advanced(p1, all[1]);
    assert(progress(start, all, 2) == p2);
    let p3 = advanced(p2, all[2]);
    assert(progress(start, all, 3) == p3);
    let p4 = advanced(p3, all[3]);
    assert(progress(start, all, 4) == p4);
    let p5 = advanced(p4, all[4]);
    assert(progress(start, all, 5) == p5);
    let p6 = advanced(p5, all[5]);
    assert(progress(start, all, 6) == p6);
    let p7 = advanced(p6, all[6]);
    assert(progress(start, all, 7) == p7);
    let p8 = advanced(p7, all[7]);
    assert(progress(start, all, 8) == p8);
    let p9 = advanced(p8, all[8]);
    assert(progress(start, all, 9) == p9);
    let p10 = advanced(p9, all[9]);
    assert(progress(start, all, 10) == p10);
    let p11 = advanced(p10, all[10]);
    assert(progress(start, all, 11) == p11);
    let p12 = advanced(p11, all[11]);
    assert(progress(start, all, 12) == p12);
    let p13 = advanced(p12, all[12]);
    assert(progress(start, all, 13) == p13);
    let p14 = advanced(p13, all[13]);
    assert(progress(start, all, 14) == p14);
    let p15 = advanced(p14, all[14]);
    assert(progress(start, all, 15) == p15);
    let p16 = advanced(p15, all[15]);
    assert(progress(start, all, 16) == p16);
    let p17 = advanced(p16, all[16]);
    assert(progress(start, all, 17) == p17);
    assert(walked(p17, all, 17) == Some(p17));
    assert(walked(p16, all, 16) == Some(p17));
    assert(walked(p15, all, 15) == Some(p17));
    assert(walked(p14, all, 14) == Some(p17));
    assert(walked(p13, all, 13) == Some(p17));
    assert(walked(p12, all, 12) == Some(p17));
    assert(walked(p11, all, 11) == Some(p17));
    assert(walked(p10, all, 10) == Some(p17));
    assert(walked(p9, all, 9) == Some(p17));
    assert(walked(p8, all, 8) == Some(p17));
    assert(walked(p7, all, 7) == Some(p17));
    assert(walked(p6, all, 6) == Some(p17));
    assert(walked(p5, all, 5) == Some(p17));
    assert(walked(p4, all, 4) == Some(p17));
    assert(walked(p3, all, 3) == Some(p17));
    assert(walked(p2, all, 2) == Some(p17));
    assert(walked(p1, all, 1) == Some(p17));
    assert(walked(p0, all, 0) == Some(p17));
    lemma_walked(start, all, 0);
}

/// The cycle and its steps after it has been asked for a step once for each flag, which says
/// whether it was cancelled by then.
pub open spec fn concurrent_run(flags: Seq<bool>) -> (ConcurrentGC, Seq<GcAction>)
    decreases flags.len(),
{
    if flags.len() == 0 {
        (ConcurrentGC { degen_point: DegenPoint::Unset, steps: 0 }, Seq::empty())
    } else {
        let (gc, made) = concurrent_run(flags.drop_last());
        let (next, action) = concurrent_step(gc, flags.last());
        (next, made.push(action))
    }
}

/// Whether none of the steps but the last one is the end of the cycle.
pub open spec fn ends_last(made: Seq<GcAction>) -> bool {
    forall|i: int| 0 <= i < made.len() - 1 ==> !((#[trigger] made[i]) is Finished)
}

proof fn lemma_run_prefix(flags: Seq<bool>)
    requires
        ends_last(concurrent_run(flags).1),
    ensures
        ({
            let (gc, made) = concurrent_run(flags);
            let n = made.len() as int;
            &&& n == flags.len()
            &&& n > 0 && made.last() is Finished || ({
                &&& n <= 16
                &&& gc == (ConcurrentGC { degen_point: DegenPoint::Unset, steps: n as u8 })
                &&& made == concurrent_cycle().take(n)
            })
            &&& n > 0 && made.last() is Finished ==> ({
                &&& made.drop_last() == concurrent_cycle().take(n - 1)
                &&& n == 17 && gc.degen_point is Unset && made.last() == (GcAction::Finished {
                    done: true,
                }) || ({
                    &&& flags.last()
                    &&& made.last() == (GcAction::Finished { done: false })
                    &&& n == 8 && gc.degen_point is ConcurrentMark || n == 16
                        && gc.degen_point is ConcurrentSweep
                })
            })
        }),
    decreases flags.len(),
{
    let (gc, made) = concurrent_run(flags);
    let all = concurrent_cycle();
    if flags.len() == 0 {
        assert(made =~= all.take(0));
    } else {
        let (before, less) = concurrent_run(flags.drop_last());
        assert(made.drop_last() =~= less);
        assert forall|i: int| 0 <= i < less.len() implies !((#[trigger] less[i]) is Finished) by {
            assert(made[i] == less[i]);
        }
        lemma_run_prefix(flags.drop_last());
        if less.len() > 0 {
            assert(!(less[less.len() - 1] is Finished));
        }
        let n = less.len() as int;
        assert(all.take(n).push(all[n]) =~= all.take(n + 1));
    }
}

/// Whenever a cycle is cancelled, its steps are sound. It ends after marking or after
/// sweeping exactly if it has been cancelled by then, with its work not done, and says at
/// which of the two; and otherwise it goes on, and ends with its work done.
pub proof fn lemma_concurrent_run(flags: Seq<bool>)
    requires
        flags.len() > 0,
        ends_last(concurrent_run(flags).1),
    ensures
        ({
            let (gc, made) = concurrent_run(flags);
            let start = at_rest(false, false);
            let last = made.last();
            let end = outcome(start, made);
            let asked = made.len() > 1 && (made[made.len() - 2] is Mark || made[made.len()
                - 2] is Sweep);
            &&& made.len() == flags.len() <= 17
            &&& sound(start, made)
            &&& last == (GcAction::Finished { done: false }) <==> asked && flags.last()
            &&& last is Finished ==> {
                &&& made.len() > 1
                &&& gc.degen_point is ConcurrentMark <==> asked && flags.last()
                    && made[made.len() - 2] is Mark
                &&& gc.degen_point is ConcurrentSweep <==> asked && flags.last()
                    && made[made.len() - 2] is Sweep
                &&& gc.degen_point is Unset <==> last == (GcAction::Finished { done: true })
                &&& end.begun && end.swept == !(gc.degen_point is ConcurrentMark)
                &&& end.complete == end.swept && end.barriers == !end.complete
                &&& end.in_progress == !end.complete
            }
            &&& made.len() == 17 ==> last is Finished
        }),
{
    let (gc, made) = concurrent_run(flags);
    let all = concurrent_cycle();
    lemma_run_prefix(flags);
    lemma_concurrent_walk();
    lemma_kinds();
    lemma_at_cancellation();
    if !(made.last() is Finished) || made.len() == 17 {
        lemma_before_last(flags);
    }
    lemma_run_sound(all, made);
}

/// What a cycle has done that was cancelled after marking, or else after sweeping.
pub open spec fn cancelled_at(marking: bool) -> Progress {
    Progress {
        retired: true,
        roots: true,
        begun: true,
        complete: !marking,
        noted: !marking,
        swept: !marking,
        finished: true,
        ..at_rest(marking, marking)
    }
}

pub(crate) proof fn lemma_cancelled_run(flags: Seq<bool>)
    requires
        flags.len() > 0,
        ends_last(concurrent_run(flags).1),
        concurrent_run(flags).1.last() == (GcAction::Finished { done: false }),
    ensures
        ({
            let (gc, made) = concurrent_run(flags);
            let end = outcome(at_rest(false, false), made);
            ||| gc.degen_point is ConcurrentMark && end == cancelled_at(true)
            ||| gc.degen_point is ConcurrentSweep && end == cancelled_at(false)
        }),
{
    lemma_run_prefix(flags);
    lemma_concurrent_walk();
    lemma_kinds();
    lemma_at_cancellation();
    lemma_run_sound(concurrent_cycle(), concurrent_run(flags).1);
}

/// The first steps of a cycle, with its end or a cancellation behind them.
proof fn lemma_run_sound(all: Seq<GcAction>, made: Seq<GcAction>)
    requires
        kinds(all),
        sound(at_rest(false, false), all),
        0 < made.len() <= 17,
        cancellation_points(all),
        made.last() is Finished ==> made.drop_last() == all.take(made.len() - 1),
        !(made.last() is Finished) ==> made == all.take(made.len() as int) && made.len() <= 16,
        made.last() is Finished ==> (made.len() == 17 && made.last() == (GcAction::Finished {
            done: true,
        })) || ((made.len() == 8 || made.len() == 16) && made.last() == (GcAction::Finished {
            done: false,
        })),
    ensures
        sound(at_rest(false, false), made),
        made.last() == (GcAction::Finished { done: false }) ==> outcome(
            at_rest(false, false),
            made,
        ) == cancelled_at(made.len() == 8),
        made.last() is Finished ==> ({
            let end = outcome(at_rest(false, false), made);
            let marking = made.len() == 8;
            &&& end.begun
            &&& end.swept == !marking
            &&& end.complete == !marking
            &&& end.barriers == marking
            &&& end.in_progress == marking
        }),
        made.len() > 1 ==> (made[made.len() - 2] is Mark <==> made.len() == 8),
        made.len() > 1 ==> (made[made.len() - 2] is Sweep <==> made.len() == 16),
{
    let start = at_rest(false, false);
    let n = made.len() as int;
    assert forall|i: int| 0 <= i < n - 1 implies (#[trigger] made[i]) == all[i] by {
        if made.last() is Finished {
            assert(made.drop_last()[i] == all.take(n - 1)[i]);
        } else {
            assert(made[i] == all.take(n)[i]);
        }
    }
    assert forall|i: int| 0 <= i < n implies may(progress(start, made, i), #[trigger] made[i]) by {
        lemma_progress_prefix(start, made, all, i);
        assert(may(progress(start, all, i), all[i]));
        if i == n - 1 && !(made.last() is Finished) {
            assert(made[i] == all.take(n)[i]);
        }
    }
    lemma_progress_prefix(start, made, all, n - 1);
    assert(progress(start, made, n) == advanced(progress(start, made, n - 1), made[n - 1]));
}

/// What has been done when a cancellation is looked for, and at the end.
spec fn cancellation_points(all: Seq<GcAction>) -> bool {
    let start = at_rest(false, false);
    let q = Progress {
        retired: true,
        roots: true,
        begun: true,
        complete: true,
        noted: true,
        swept: true,
        ..start
    };
    &&& progress(start, all, 7) == (Progress {
        retired: true,
        roots: true,
        begun: true,
        ..at_rest(true, true)
    })
    &&& progress(start, all, 15) == q
    &&& progress(start, all, 16) == (Progress { rebuilt: true, ..q })
}

proof fn lemma_at_cancellation()
    ensures
        cancellation_points(concurrent_cycle()),
{
    let all = concurrent_cycle();
    let start = at_rest(false, false);
    let p0 = start;
    assert(progress(start, all, 0) == p0);
    let p1 = advanced(p0, all[0]);
    assert(progress(start, all, 1) == p1);
    let p2 = advanced(p1, all[1]);
    assert(progress(start, all, 2) == p2);
    let p3 = advanced(p2, all[2]);
    assert(progress(start, all, 3) == p3);
    let p4 = advanced(p3, all[3]);
    assert(progress(start, all, 4) == p4);
    let p5 = advanced(p4, all[4]);
    assert(progress(start, all, 5) == p5);
    let p6 = advanced(p5, all[5]);
    assert(progress(start, all, 6) == p6);
    let p7 = advanced(p6, all[6]);
    assert(progress(start, all, 7) == p7);
    let p8 = advanced(p7, all[7]);
    assert(progress(start, all, 8) == p8);
    let p9 = advanced(p8, all[8]);
    assert(progress(start, all, 9) == p9);
    let p10 = advanced(p9, all[9]);
    assert(progress(start, all, 10) == p10);
    let p11 = advanced(p10, all[10]);
    assert(progress(start, all, 11) == p11);
    let p12 = advanced(p11, all[11]);
    assert(progress(start, all, 12) == p12);
    let p13 = advanced(p12, all[12]);
    assert(progress(start, all, 13) == p13);
    let p14 = advanced(p13, all[13]);
    assert(progress(start, all, 14) == p14);
    let p15 = advanced(p14, all[14]);
    assert(progress(start, all, 15) == p15);
    let p16 = advanced(p15, all[15]);
    assert(progress(start, all, 16) == p16);
    let p17 = advanced(p16, all[16]);
    assert(progress(start, all, 17) == p17);
    assert(walked(p17, all, 17) == Some(p17));
    assert(walked(p16, all, 16) == Some(p17));
    assert(walked(p15, all, 15) == Some(p17));
    assert(walked(p14, all, 14) == Some(p17));
    assert(walked(p13, all, 13) == Some(p17));
    assert(walked(p12, all, 12) == Some(p17));
    assert(walked(p11, all, 11) == Some(p17));
    assert(walked(p10, all, 10) == Some(p17));
    assert(walked(p9, all, 9) == Some(p17));
    assert(walked(p8, all, 8) == Some(p17));
    assert(walked(p7, all, 7) == Some(p17));
    assert(walked(p6, all, 6) == Some(p17));
    assert(walked(p5, all, 5) == Some(p17));
    assert(walked(p4, all, 4) == Some(p17));
    assert(walked(p3, all, 3) == Some(p17));
    assert(walked(p2, all, 2) == Some(p17));
    assert(walked(p1, all, 1) == Some(p17));
    assert(walked(p0, all, 0) == Some(p17));
    lemma_walked(start, all, 0);
}

/// A cycle that goes on was not cancelled when it was last asked for.
proof fn lemma_before_last(flags: Seq<bool>)
    requires
        flags.len() > 0,
        ends_last(concurrent_run(flags).1),
        !(concurrent_run(flags).1.last() is Finished) || concurrent_run(flags).1.len() == 17,
    ensures
        ({
            let made = concurrent_run(flags).1;
            made.len() > 1 && (made[made.len() - 2] is Mark || made[made.len() - 2] is Sweep)
                ==> !flags.last()
        }),
{
    let made = concurrent_run(flags).1;
    let less = concurrent_run(flags.drop_last()).1;
    assert(made.drop_last() =~= less);
    assert forall|i: int| 0 <= i < less.len() implies !((#[trigger] less[i]) is Finished) by {
        assert(made[i] == less[i]);
    }
    lemma_run_prefix(flags.drop_last());
    if less.len() > 0 {
        assert(!(less[less.len() - 1] is Finished));
    }
}

impl ConcurrentGC {
    pub fn new() -> (r: Self)
        ensures
            r == (ConcurrentGC { degen_point: DegenPoint::Unset, steps: 0 }),
    {
        ConcurrentGC { degen_point: DegenPoint::Unset, steps: 0 }
    }

    /// Where the cycle was cancelled.
    pub fn degen_point(&self) -> (r: DegenPoint)
        ensures
            r == self.degen_point,
    {
        self.degen_point
    }

    fn check_cancellation_and_abort(&mut self, point: DegenPoint, cancelled: bool) -> (r: bool)
        ensures
            r == cancelled,
            *final(self) == if cancelled {
                ConcurrentGC { degen_point: point, steps: 17 }
            } else {
                *old(self)
            },
    {
        if cancelled {
            self.degen_point = point;
            self.steps = 17;
            return true;
        }
        false
    }

    /// The next step of the cycle, to be made before the one after it is asked for.
    /// `cancelled` says whether the cycle has been cancelled.
    pub fn collect(&mut self, cancelled: bool) -> (r: GcAction)
        ensures
            (*final(self), r) == concurrent_step(*old(self), cancelled),
    {
        if self.steps >= 17 {
            return GcAction::Finished { done: self.degen_point == DegenPoint::Unset };
        }
        if self.steps == 7 {
            if self.check_cancellation_and_abort(DegenPoint::ConcurrentMark, cancelled) {
                return GcAction::Finished { done: false };
            }
        }
        if self.steps == 15 {
            if self.check_cancellation_and_abort(DegenPoint::ConcurrentSweep, cancelled) {
                return GcAction::Finished { done: false };
            }
        }
        let at: u8 = self.steps;
        self.steps = at + 1;
        match at {
            0 => GcAction::StopTheWorld,
            1 => GcAction::PrepareGc,
            2 => GcAction::RetireTlabs { raise_barriers: true },
            3 => GcAction::CollectRoots,
            4 => GcAction::MarkInProgress { on: true },
            5 => GcAction::ResumeTheWorld,
            6 => GcAction::Mark,
            7 => GcAction::StopTheWorld,
            8 => GcAction::RetireTlabs { raise_barriers: false },
            9 => GcAction::MarkInProgress { on: false },
            10 => GcAction::CollectRoots,
            11 => GcAction::FinishMark,
            12 => GcAction::PrepareUnswept,
            13 => GcAction::ResumeTheWorld,
            14 => GcAction::Sweep { concurrent: true, parallel: true },
            15 => GcAction::Rebuild,
            _ => GcAction::Finished { done: true },
        }
    }
}

/// Notes that a region is to be swept.
pub struct PrepareUnsweptRegions {}

/// Whether a region holds objects that have to be swept.
pub open spec fn has_objects(region: HeapRegion) -> bool {
    region.typ == RegionState::Regular || region.typ == RegionState::HumongousStart
}

impl HeapRegionClosure for PrepareUnsweptRegions {
    open spec fn turns(&self, before: HeapRegion, after: HeapRegion) -> bool {
        after == if has_objects(before) {
            HeapRegion { to_sweep: true, ..before }
        } else {
            before
        }
    }

    fn heap_region_do(&self, r: &mut HeapRegion) {
        if r.is_regular() || r.is_humongous_start() {
            r.to_sweep = true;
        }
    }
}

impl PrepareUnsweptRegions {
    /// Notes which regions are to be swept, and takes them out of the set of regions with
    /// room.
    pub fn prepare(&self, heap: &mut Heap)
        requires
            old(heap).regions@.len() <= 8 * old(heap).free_set.mutator_free_bitmap.bytes().len(),
        ensures
            final(heap).regions@.len() == old(heap).regions@.len(),
            forall|i: int|
                0 <= i < old(heap).regions@.len() ==> self.turns(
                    old(heap).regions@[i],
                    #[trigger] final(heap).regions@[i],
                ),
            forall|i: int| #[trigger]
                final(heap).free_set.ones().contains(i) <==> old(heap).free_set.ones().contains(i)
                    && !(0 <= i < old(heap).regions@.len() && has_objects(old(heap).regions@[i])),
            final(heap).free_set == (RegionFreeSet {
                mutator_free_bitmap: final(heap).free_set.mutator_free_bitmap,
                ..old(heap).free_set
            }),
            *final(heap) == (Heap {
                regions: final(heap).regions,
                free_set: final(heap).free_set,
                ..*old(heap)
            }),
    {
        let ghost before = *heap;
        heap.heap_region_iterate(self);
        let mut i: usize = 0;
        while i < heap.regions.len()
            invariant
                i <= heap.regions@.len(),
                before == *old(heap),
                heap.regions@.len() == before.regions@.len(),
                before.regions@.len() <= 8 * heap.free_set.mutator_free_bitmap.bytes().len(),
                forall|k: int|
                    0 <= k < before.regions@.len() ==> self.turns(
                        before.regions@[k],
                        #[trigger] heap.regions@[k],
                    ),
                forall|k: int| #[trigger]
                    heap.free_set.ones().contains(k) <==> before.free_set.ones().contains(k) && !(0
                        <= k < i && has_objects(before.regions@[k])),
                heap.free_set == (RegionFreeSet {
                    mutator_free_bitmap: heap.free_set.mutator_free_bitmap,
                    ..before.free_set
                }),
                *heap == (Heap { regions: heap.regions, free_set: heap.free_set, ..before }),
            decreases heap.regions@.len() - i,
        {
            assert(self.turns(before.regions@[i as int], heap.regions@[i as int]));
            if heap.regions[i].is_regular() || heap.regions[i].is_humongous_start() {
                heap.free_set.mutator_free_bitmap.set(i, false);
            }
            i = i + 1;
        }
    }
}

/// Marking beside the mutators.
pub struct ConcMark {}

/// The tasks after what the first `n` mutators have recorded has been flushed.
pub open spec fn all_flushed(
    bits: &HeapBitmap<16>,
    tasks: Multiset<u64>,
    threads: Seq<Thread>,
    n: int,
) -> Multiset<u64>
    decreases n,
{
    if n <= 0 {
        tasks
    } else {
        flushed_tasks(bits, all_flushed(bits, tasks, threads, n - 1), threads[n - 1].queue())
    }
}

impl ConcMark {
    pub fn new() -> (r: Self) {
        ConcMark {  }
    }

    /// Drops what the mutators have recorded, and lowers their write barriers.
    pub fn cancel(&self, threads: &mut Vec<Thread>)
        requires
            forall|i: int| 0 <= i < old(threads)@.len() ==> (#[trigger] old(threads)@[i]).wf(),
        ensures
            final(threads)@.len() == old(threads)@.len(),
            forall|i: int|
                0 <= i < old(threads)@.len() ==> (#[trigger] final(threads)@[i]).queue().len() == 0
                    && final(threads)@[i] == (Thread {
                    index: final(threads)@[i].index,
                    cm_in_progress: false,
                    ..old(threads)@[i]
                }),
    {
        let ghost before = threads@;
        let mut i: usize = 0;
        while i < threads.len()
            invariant
                i <= threads@.len(),
                threads@.len() == before.len(),
                forall|k: int| 0 <= k < before.len() ==> (#[trigger] before[k]).wf(),
                forall|k: int|
                    0 <= k < i ==> (#[trigger] threads@[k]).queue().len() == 0 && threads@[k] == (
                    Thread { index: threads@[k].index, cm_in_progress: false, ..before[k] }),
                forall|k: int| i <= k < before.len() ==> (#[trigger] threads@[k]) == before[k],
            decreases threads@.len() - i,
        {
            assert(before[i as int].wf());
            threads[i].cancel_marking();
            i = i + 1;
        }
    }

    /// Visits roots.
    pub fn collect_roots(&self, ctx: &mut MarkingContext, objs: &Vec<Object>, roots: &Vec<usize>)
        requires
            objects_wf(objs@),
            old(ctx).wf(),
            fits(objs@, old(ctx)),
            forall|k: int|
                0 <= k < roots@.len() ==> is_object(objs@, (#[trigger] roots@[k]) as int),
        ensures
            final(ctx).wf(),
            fits(objs@, final(ctx)),
            state(objs@, final(ctx)) == visit_seq(objs@, state(objs@, old(ctx)), roots@),
            final(ctx).complete() == old(ctx).complete(),
            final(ctx).queues().views() == old(ctx).queues().views(),
    {
        visit_roots(ctx, objs, roots);
    }

    /// There is nothing to mark again.
    pub fn recursive_mark_dirty_objects(&mut self)
        ensures
            *final(self) == *old(self),
    {
    }

    /// The terminator for the threads that mark.
    pub fn mark(&self, ctx: &MarkingContext) -> (r: Terminator)
        requires
            ctx.wf(),
        ensures
            r.total() == ctx.queues().views().len(),
            r.active() == ctx.queues().views().len(),
    {
        Terminator::new(ctx.mark_queues().nworkers())
    }

    /// Flushes what the mutators have recorded and lowers their write barriers. Returns
    /// the terminator for the threads that bring marking to an end.
    pub fn finish(&self, ctx: &mut MarkingContext, threads: &mut Vec<Thread>) -> (r: Terminator)
        requires
            old(ctx).wf(),
            forall|i: int|
                0 <= i < old(threads)@.len() ==> (#[trigger] old(threads)@[i]).wf() && old(threads)@[i].covered(
                    old(ctx),
                ),
        ensures
            r.total() == old(ctx).queues().views().len(),
            r.active() == old(ctx).queues().views().len(),
            final(ctx).wf(),
            final(ctx).bits() == old(ctx).bits(),
            final(ctx).complete() == old(ctx).complete(),
            final(ctx).queues().views() == old(ctx).queues().views(),
            final(ctx).queues().tasks() == all_flushed(
                &old(ctx).bits(),
                old(ctx).queues().tasks(),
                old(threads)@,
                old(threads)@.len() as int,
            ),
            final(threads)@.len() == old(threads)@.len(),
            forall|i: int|
                0 <= i < old(threads)@.len() ==> (#[trigger] final(threads)@[i]).queue().len() == 0
                    && final(threads)@[i] == (Thread {
                    index: final(threads)@[i].index,
                    cm_in_progress: false,
                    ..old(threads)@[i]
                }),
    {
        let terminator = Terminator::new(ctx.mark_queues().nworkers());
        let ghost before = threads@;
        let ghost start = *ctx;
        let mut i: usize = 0;
        while i < threads.len()
            invariant
                i <= threads@.len(),
                threads@.len() == before.len(),
                ctx.wf(),
                ctx.bits() == start.bits(),
                ctx.complete() == start.complete(),
                ctx.queues().views() == start.queues().views(),
                ctx.queues().tasks() == all_flushed(
                    &start.bits(),
                    start.queues().tasks(),
                    before,
                    i as int,
                ),
                forall|k: int|
                    0 <= k < before.len() ==> (#[trigger] before[k]).wf() && before[k].covered(
                        &start,
                    ),
                forall|k: int|
                    0 <= k < i ==> (#[trigger] threads@[k]).queue().len() == 0 && threads@[k] == (
                    Thread { index: threads@[k].index, cm_in_progress: false, ..before[k] }),
                forall|k: int| i <= k < before.len() ==> (#[trigger] threads@[k]) == before[k],
            decreases threads@.len() - i,
        {
            assert(before[i as int].wf() && before[i as int].covered(&start));
            assert(threads@[i as int].covered(ctx));
            threads[i].flush_ssb(ctx);
            threads[i].toggle_write_barrier(false);
            i = i + 1;
        }
        terminator
    }

    /// Marks the objects on the cards of regions that have a least age, and then cleans
    /// the cards if asked to. Tells whether there were objects to mark.
    pub fn scan_gray_objects(
        &self,
        cards: &mut CardTable,
        ctx: &mut MarkingContext,
        heap_start: usize,
        heap_end: usize,
        regions: &Vec<HeapRegion>,
        paused: bool,
        minimum_age: u8,
    ) -> (r: bool)
        requires
            old(ctx).wf(),
            old(cards).in_map(heap_start as int, heap_end as int),
            forall|i: int|
                0 <= i < regions@.len() ==> scannable(
                    old(cards),
                    &old(ctx).bits(),
                    #[trigger] regions@[i],
                ),
        ensures
            final(ctx).wf(),
            final(cards).same_map(old(cards)),
            gray(final(ctx), r) == regions_grayed(
                old(cards),
                &old(ctx).bits(),
                gray(old(ctx), false),
                regions@,
                minimum_age,
            ),
            final(ctx).bits().same_shape(&old(ctx).bits()),
            forall|k: int|
                0 <= k < old(cards)@.len() ==> (#[trigger] final(cards)@[k]) == if paused
                    && old(cards).card(heap_start as int) <= k < old(cards).card(heap_end as int) {
                    CardTable::CARD_CLEAN
                } else {
                    old(cards)@[k]
                },
    {
        let ghost before = *cards;
        let ghost shape = ctx.bits();
        let ghost start = gray(ctx, false);
        let task = ScanCardsForRegionsTask { minimum_age };
        let mut has_work: bool = false;
        let mut i: usize = 0;
        assert(regions@.take(0).len() == 0);
        while i < regions.len()
            invariant
                i <= regions@.len(),
                task.minimum_age == minimum_age,
                ctx.wf(),
                ctx.bits().same_shape(&shape),
                cards.same_map(&before),
                cards@ == before@,
                before.in_map(heap_start as int, heap_end as int),
                forall|i: int|
                    0 <= i < regions@.len() ==> scannable(&before, &shape, #[trigger] regions@[i]),
                gray(ctx, has_work) == regions_grayed(
                    &before,
                    &shape,
                    start,
                    regions@.take(i as int),
                    minimum_age,
                ),
            decreases regions@.len() - i,
        {
            let ghost g = gray(ctx, has_work);
            proof {
                lemma_scannable(&before, cards, &shape, &ctx.bits(), regions@[i as int]);
                lemma_grayed_same(
                    &before,
                    cards,
                    &shape,
                    &ctx.bits(),
                    g,
                    regions@[i as int],
                    minimum_age,
                );
                let more = regions@.take(i + 1);
                assert(more.drop_last() =~= regions@.take(i as int));
                assert(more.last() == regions@[i as int]);
            }
            let found: bool = task.heap_region_do(cards, ctx, &regions[i], has_work);
            has_work = found;
            i = i + 1;
        }
        assert(regions@.take(i as int) =~= regions@);
        if paused {
            cards.clear_card_range(heap_start, heap_end);
        }
        has_work
    }
}

/// The marks, the tasks that wait, and whether there were objects to mark.
#[verifier::ext_equal]
pub struct GrayState {
    pub slots: Set<int>,
    pub tasks: Multiset<u64>,
    pub has_work: bool,
}

pub open spec fn gray(ctx: &MarkingContext, has_work: bool) -> GrayState {
    GrayState { slots: ctx.bits().slots(), tasks: ctx.queues().tasks(), has_work }
}

/// The state after an object has been marked, with a task for it if it was not before.
pub open spec fn grayed(
    bits: &super::bitmap::HeapBitmap<16>,
    g: GrayState,
    a: usize,
) -> GrayState {
    if g.slots.contains(bits.slot(a as int)) {
        g
    } else {
        GrayState {
            slots: g.slots.insert(bits.slot(a as int)),
            tasks: g.tasks.insert(MarkTask::oop_word(a as u64, false, false)),
            has_work: true,
        }
    }
}

pub open spec fn all_grayed(
    bits: &super::bitmap::HeapBitmap<16>,
    g: GrayState,
    list: Seq<usize>,
) -> GrayState
    decreases list.len(),
{
    if list.len() == 0 {
        g
    } else {
        grayed(bits, all_grayed(bits, g, list.drop_last()), list.last())
    }
}

/// The objects on the cards of a region that have a least age.
pub open spec fn gray_objects(cards: &CardTable, region: HeapRegion, minimum_age: u8) -> Seq<
    usize,
> {
    if region.typ == RegionState::HumongousStart {
        if cards@[cards.card(region.begin as int)] >= minimum_age {
            seq![region.begin]
        } else {
            Seq::empty()
        }
    } else if region.typ == RegionState::Regular {
        cards.scan_list(
            &region.object_start_bitmap,
            cards.card(region.begin as int),
            cards.card(region.end as int),
            minimum_age,
            cards.card(region.end as int),
        )
    } else {
        Seq::empty()
    }
}

pub open spec fn regions_grayed(
    cards: &CardTable,
    bits: &super::bitmap::HeapBitmap<16>,
    g: GrayState,
    regions: Seq<HeapRegion>,
    minimum_age: u8,
) -> GrayState
    decreases regions.len(),
{
    if regions.len() == 0 {
        g
    } else {
        all_grayed(
            bits,
            regions_grayed(cards, bits, g, regions.drop_last(), minimum_age),
            gray_objects(cards, regions.last(), minimum_age),
        )
    }
}

/// Whether the cards of a region can be scanned, and its objects can be marked.
pub open spec fn scannable(
    cards: &CardTable,
    bits: &super::bitmap::HeapBitmap<16>,
    region: HeapRegion,
) -> bool {
    let starts = region.object_start_bitmap;
    &&& region.begin < region.end
    &&& cards.in_map(region.begin as int, region.end as int)
    &&& cards.card(region.begin as int) < cards@.len()
    &&& starts.addressable()
    &&& starts.start() == region.begin
    &&& region.begin % 1024 == 0
    &&& starts.slot(region.end as int / 1024 * 1024) <= starts.capacity()
    &&& bits.covers(region.begin as int)
    &&& forall|n: int|
        #![trigger starts.slots().contains(n)]
        starts.slots().contains(n) ==> bits.covers(starts.start() + n * 16)
}

proof fn lemma_scannable(
    before: &CardTable,
    cards: &CardTable,
    shape: &super::bitmap::HeapBitmap<16>,
    bits: &super::bitmap::HeapBitmap<16>,
    region: HeapRegion,
)
    requires
        scannable(before, shape, region),
        cards.same_map(before),
        bits.same_shape(shape),
    ensures
        scannable(cards, bits, region),
{
    let starts = region.object_start_bitmap;
    assert forall|n: int|
        #![trigger starts.slots().contains(n)]
        starts.slots().contains(n) implies bits.covers(starts.start() + n * 16) by {
        assert(shape.covers(starts.start() + n * 16));
    }
}

proof fn lemma_scan_same(
    before: &CardTable,
    cards: &CardTable,
    starts: &super::bitmap::HeapBitmap<16>,
    b: int,
    e: int,
    minimum_age: u8,
    k: int,
)
    requires
        cards.same_map(before),
        cards@ == before@,
    ensures
        cards.scan_list(starts, b, e, minimum_age, k) == before.scan_list(
            starts,
            b,
            e,
            minimum_age,
            k,
        ),
    decreases k - b,
{
    if k > b {
        lemma_scan_same(before, cards, starts, b, e, minimum_age, k - 1);
    }
}

proof fn lemma_all_grayed_same(
    shape: &super::bitmap::HeapBitmap<16>,
    bits: &super::bitmap::HeapBitmap<16>,
    g: GrayState,
    list: Seq<usize>,
)
    requires
        bits.same_shape(shape),
    ensures
        all_grayed(bits, g, list) == all_grayed(shape, g, list),
    decreases list.len(),
{
    if list.len() > 0 {
        lemma_all_grayed_same(shape, bits, g, list.drop_last());
    }
}

proof fn lemma_grayed_same(
    before: &CardTable,
    cards: &CardTable,
    shape: &super::bitmap::HeapBitmap<16>,
    bits: &super::bitmap::HeapBitmap<16>,
    g: GrayState,
    region: HeapRegion,
    minimum_age: u8,
)
    requires
        cards.same_map(before),
        cards@ == before@,
        bits.same_shape(shape),
    ensures
        all_grayed(bits, g, gray_objects(cards, region, minimum_age)) == all_grayed(
            shape,
            g,
            gray_objects(before, region, minimum_age),
        ),
{
    lemma_scan_same(
        before,
        cards,
        &region.object_start_bitmap,
        before.card(region.begin as int),
        before.card(region.end as int),
        minimum_age,
        before.card(region.end as int),
    );
    lemma_all_grayed_same(shape, bits, g, gray_objects(before, region, minimum_age));
}

/// Whether an address is that of an object start.
pub open spec fn starts_at(starts: &super::bitmap::HeapBitmap<16>, a: usize) -> bool {
    exists|n: int|
        #![trigger starts.slots().contains(n)]
        starts.slots().contains(n) && a == starts.start() + n * 16
}

proof fn lemma_scan_starts(
    cards: &CardTable,
    starts: &super::bitmap::HeapBitmap<16>,
    b: int,
    e: int,
    minimum_age: u8,
    k: int,
)
    requires
        starts.addressable(),
    ensures
        forall|j: int|
            0 <= j < cards.scan_list(starts, b, e, minimum_age, k).len() ==> starts_at(
                starts,
                #[trigger] cards.scan_list(starts, b, e, minimum_age, k)[j],
            ),
    decreases k - b,
{
    if k > b {
        lemma_scan_starts(cards, starts, b, e, minimum_age, k - 1);
        let list = cards.scan_list(starts, b, e, minimum_age, k);
        let rest = cards.scan_list(starts, b, e, minimum_age, k - 1);
        if crate::heap::card_table::card_selected(cards@, b, e, minimum_age, k - 1) {
            let lo = starts.slot(cards.card_start(k - 1));
            let hi = starts.slot(cards.card_start(k - 1) + 1024);
            let found = crate::bits::ascending(starts.slots(), lo, hi);
            crate::bits::lemma_ascending(starts.slots(), lo, hi);
            starts.lemma_slots();
            assert forall|j: int| 0 <= j < list.len() implies starts_at(starts, #[trigger] list[j])
                by {
                if j < rest.len() {
                    assert(list[j] == rest[j]);
                } else {
                    let n = found[j - rest.len()];
                    assert(found.contains(n));
                    assert(starts.slots().contains(n));
                    assert(0 <= n * 16 <= starts.capacity() * 16) by (nonlinear_arith)
                        requires
                            0 <= n < starts.capacity(),
                    ;
                    assert(list[j] == (starts.start() + n * 16) as usize);
                }
            }
        }
    }
}

/// Marks the objects on the cards of a region.
#[derive(Clone, Copy, PartialEq, Eq, Debug, Structural)]
pub struct ScanCardsForRegionsTask {
    pub minimum_age: u8,
}

impl ScanCardsForRegionsTask {
    /// Marks an object, with a task for it if it was not marked.
    fn gray_object(ctx: &mut MarkingContext, addr: usize, has_work: bool) -> (r: bool)
        requires
            old(ctx).wf(),
            old(ctx).bits().covers(addr as int),
        ensures
            final(ctx).wf(),
            final(ctx).bits().same_shape(&old(ctx).bits()),
            gray(final(ctx), r) == grayed(&old(ctx).bits(), gray(old(ctx), has_work), addr),
    {
        let ghost before = *ctx;
        if ctx.mark(addr) {
            ctx.inject(MarkTask::new(addr as u64, false, false));
            return true;
        }
        assert(gray(ctx, has_work) =~= gray(&before, has_work));
        has_work
    }

    /// Marks the objects on the cards of a region that have the least age. Tells whether
    /// there were objects to mark, there or before.
    pub fn heap_region_do(
        &self,
        cards: &mut CardTable,
        ctx: &mut MarkingContext,
        r: &HeapRegion,
        has_work: bool,
    ) -> (found: bool)
        requires
            old(ctx).wf(),
            scannable(old(cards), &old(ctx).bits(), *r),
        ensures
            final(ctx).wf(),
            final(cards).same_map(old(cards)),
            final(cards)@ == old(cards)@,
            final(ctx).bits().same_shape(&old(ctx).bits()),
            gray(final(ctx), found) == all_grayed(
                &old(ctx).bits(),
                gray(old(ctx), has_work),
                gray_objects(old(cards), *r, self.minimum_age),
            ),
    {
        let ghost shape = ctx.bits();
        let ghost start = gray(ctx, has_work);
        if r.is_humongous_start() {
            if cards.get_card(r.bottom()) >= self.minimum_age {
                proof {
                    let one = seq![r.begin];
                    assert(one.drop_last() =~= Seq::<usize>::empty());
                    assert(all_grayed(&shape, start, one.drop_last()) == start);
                }
                return Self::gray_object(ctx, r.bottom(), has_work);
            }
            has_work
        } else if r.is_regular() {
            let (count, list): (usize, Vec<usize>) = cards.scan::<false>(
                &r.object_start_bitmap,
                r.bottom(),
                r.end(),
                self.minimum_age,
            );
            proof {
                lemma_scan_starts(
                    old(cards),
                    &r.object_start_bitmap,
                    old(cards).card(r.begin as int),
                    old(cards).card(r.end as int),
                    self.minimum_age,
                    old(cards).card(r.end as int),
                );
            }
            let mut found: bool = has_work;
            let mut i: usize = 0;
            assert(list@.take(0).len() == 0);
            while i < list.len()
                invariant
                    i <= list@.len(),
                    ctx.wf(),
                    ctx.bits().same_shape(&shape),
                    forall|n: int|
                        #![trigger r.object_start_bitmap.slots().contains(n)]
                        r.object_start_bitmap.slots().contains(n) ==> shape.covers(
                            r.object_start_bitmap.start() + n * 16,
                        ),
                    forall|j: int|
                        0 <= j < list@.len() ==> starts_at(
                            &r.object_start_bitmap,
                            #[trigger] list@[j],
                        ),
                    gray(ctx, found) == all_grayed(&shape, start, list@.take(i as int)),
                decreases list@.len() - i,
            {
                proof {
                    assert(starts_at(&r.object_start_bitmap, list@[i as int]));
                    assert(shape.covers(list@[i as int] as int));
                    let more = list@.take(i + 1);
                    assert(more.drop_last() =~= list@.take(i as int));
                    assert(more.last() == list@[i as int]);
                }
                found = Self::gray_object(ctx, list[i], found);
                i = i + 1;
            }
            assert(list@.take(i as int) =~= list@);
            found
        } else {
            has_work
        }
    }
}

} // verus!
