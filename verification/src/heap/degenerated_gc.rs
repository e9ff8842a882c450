//! Cycles that bring a cancelled cycle to an end while the world is stopped.

use vstd::prelude::*;

use super::concurrent_gc::{
    concurrent_cycle, concurrent_run, concurrent_step, ends_last, lemma_cancelled_run, ConcurrentGC,
};
use super::cycle::{
    advanced, at_rest, in_order, lemma_walked, marking_done, needs_stop, outcome, progress, sound,
    walked, world_stopped, GcAction, Progress,
};
use super::DegenPoint;

verus! {

/// A cycle that goes on from where another one was cancelled.
#[derive(Clone, Copy, PartialEq, Eq, Debug, Structural)]
pub struct DegeneratedGC {
    pub degen_point: DegenPoint,
}

/// What every such cycle starts with.
pub open spec fn degenerated_start() -> Seq<GcAction> {
    seq![
        GcAction::StopTheWorld,
        GcAction::ClearCancelled,
        GcAction::RetireTlabs { raise_barriers: false },
    ]
}

/// What is left to do of marking. If no cycle was running, all of it is done anew. If
/// marking was cancelled, it is brought to an end.
pub open spec fn degenerated_mark(point: DegenPoint, mark_in_progress: bool) -> Seq<GcAction> {
    match point {
        DegenPoint::OutsideCycle => seq![
            GcAction::PrepareGc,
            GcAction::CancelMark,
            GcAction::MarkStw,
            GcAction::MarkInProgress { on: false },
        ],
        DegenPoint::ConcurrentMark => if mark_in_progress {
            seq![
                GcAction::CollectRoots,
                GcAction::FinishMark,
                GcAction::MarkInProgress { on: false },
            ]
        } else {
            Seq::empty()
        },
        _ => Seq::empty(),
    }
}

/// What is done after marking, if there was a point to go on from.
pub open spec fn degenerated_sweep(point: DegenPoint) -> Seq<GcAction> {
    if point is Unset {
        Seq::empty()
    } else {
        seq![
            GcAction::ProcessWeak,
            GcAction::Sweep { concurrent: false, parallel: true },
            GcAction::Rebuild,
        ]
    }
}

pub open spec fn degenerated_end() -> Seq<GcAction> {
    seq![GcAction::ResumeTheWorld, GcAction::Finished { done: true }]
}

/// All steps of the cycle.
pub open spec fn degenerated_cycle(point: DegenPoint, mark_in_progress: bool) -> Seq<GcAction> {
    degenerated_start() + degenerated_mark(point, mark_in_progress) + degenerated_sweep(point)
        + degenerated_end()
}

impl DegeneratedGC {
    pub fn new(degen_point: DegenPoint) -> (r: Self)
        ensures
            r.degen_point == degen_point,
    {
        DegeneratedGC { degen_point }
    }

    /// The steps of the cycle. `mark_in_progress` says whether marking goes on beside the
    /// mutators when the cycle starts.
    ///
    /// The parts below form a device like Duff's: they describe one cycle, but enter it at
    /// different points, depending on which phase was cancelled.
    pub fn collect(&mut self, mark_in_progress: bool) -> (r: Vec<GcAction>)
        ensures
            r@ == degenerated_cycle(old(self).degen_point, mark_in_progress),
            final(self).degen_point == if old(self).degen_point is Unset {
                DegenPoint::Unset
            } else {
                DegenPoint::ConcurrentSweep
            },
    {
        let ghost point = self.degen_point;
        let mut out: Vec<GcAction> = Vec::new();
        let mut in_progress: bool = mark_in_progress;
        out.push(GcAction::StopTheWorld);
        out.push(GcAction::ClearCancelled);
        out.push(GcAction::RetireTlabs { raise_barriers: false });
        if self.degen_point == DegenPoint::OutsideCycle {
            // Something is bad with the heap, most probably it is fragmented or very low on
            // free space. The most aggressive cycle is made at once.
            out.push(GcAction::PrepareGc);
            out.push(GcAction::CancelMark);
            out.push(GcAction::MarkStw);
            self.degen_point = DegenPoint::ConcurrentMark;
            out.push(GcAction::MarkInProgress { on: false });
            in_progress = false;
        }
        if self.degen_point == DegenPoint::ConcurrentMark {
            if in_progress {
                out.push(GcAction::CollectRoots);
                out.push(GcAction::FinishMark);
                out.push(GcAction::MarkInProgress { on: false });
            }
            self.degen_point = DegenPoint::ConcurrentSweep;
        }
        assert(out@ =~= degenerated_start() + degenerated_mark(point, mark_in_progress));
        if self.degen_point == DegenPoint::ConcurrentSweep {
            out.push(GcAction::ProcessWeak);
            out.push(GcAction::Sweep { concurrent: false, parallel: true });
            out.push(GcAction::Rebuild);
        }
        out.push(GcAction::ResumeTheWorld);
        out.push(GcAction::Finished { done: true });
        assert(out@ =~= degenerated_cycle(point, mark_in_progress));
        out
    }
}

/// A cycle that was cancelled and the one that goes on from there are, together, in order:
/// nothing is swept before marking is complete, whenever the first one was cancelled.
pub proof fn lemma_degenerated_in_order(point: DegenPoint)
    requires
        point is ConcurrentMark || point is ConcurrentSweep,
    ensures
        ({
            let made = if point is ConcurrentMark {
                concurrent_cycle().take(7)
            } else {
                concurrent_cycle().take(15)
            };
            in_order(made + degenerated_cycle(point, point is ConcurrentMark))
        }),
{
    if point is ConcurrentMark {
        lemma_after_mark();
    } else {
        lemma_after_sweep();
    }
}

proof fn lemma_after_mark()
    ensures
        in_order(concurrent_cycle().take(7) + degenerated_cycle(DegenPoint::ConcurrentMark, true)),
{
    let all = seq![
        GcAction::StopTheWorld,
        GcAction::PrepareGc,
        GcAction::RetireTlabs { raise_barriers: true },
        GcAction::CollectRoots,
        GcAction::MarkInProgress { on: true },
        GcAction::ResumeTheWorld,
        GcAction::Mark,
        GcAction::StopTheWorld,
        GcAction::ClearCancelled,
        GcAction::RetireTlabs { raise_barriers: false },
        GcAction::CollectRoots,
        GcAction::FinishMark,
        GcAction::MarkInProgress { on: false },
        GcAction::ProcessWeak,
        GcAction::Sweep { concurrent: false, parallel: true },
        GcAction::Rebuild,
        GcAction::ResumeTheWorld,
        GcAction::Finished { done: true },
    ];
    assert(concurrent_cycle().take(7) + degenerated_cycle(DegenPoint::ConcurrentMark, true)
        =~= all);
    reveal_with_fuel(ordered_from, 25);
    lemma_written_out(all);
}

proof fn lemma_after_sweep()
    ensures
        in_order(
            concurrent_cycle().take(15) + degenerated_cycle(DegenPoint::ConcurrentSweep, false),
        ),
{
    let all = seq![
        GcAction::StopTheWorld,
        GcAction::PrepareGc,
        GcAction::RetireTlabs { raise_barriers: true },
        GcAction::CollectRoots,
        GcAction::MarkInProgress { on: true },
        GcAction::ResumeTheWorld,
        GcAction::Mark,
        GcAction::StopTheWorld,
        GcAction::RetireTlabs { raise_barriers: false },
        GcAction::MarkInProgress { on: false },
        GcAction::CollectRoots,
        GcAction::FinishMark,
        GcAction::PrepareUnswept,
        GcAction::ResumeTheWorld,
        GcAction::Sweep { concurrent: true, parallel: true },
        GcAction::StopTheWorld,
        GcAction::ClearCancelled,
        GcAction::RetireTlabs { raise_barriers: false },
        GcAction::ProcessWeak,
        GcAction::Sweep { concurrent: false, parallel: true },
        GcAction::Rebuild,
        GcAction::ResumeTheWorld,
        GcAction::Finished { done: true },
    ];
    assert(concurrent_cycle().take(15) + degenerated_cycle(DegenPoint::ConcurrentSweep, false)
        =~= all);
    reveal_with_fuel(ordered_from, 25);
    lemma_written_out(all);
}

/// A step in order, after steps in order.
proof fn lemma_step_in_order(all: Seq<GcAction>, i: int)
    requires
        0 <= i < all.len(),
    ensures
        world_stopped(all, i + 1) == match all[i] {
            GcAction::StopTheWorld => true,
            GcAction::ResumeTheWorld => false,
            _ => world_stopped(all, i),
        },
        marking_done(all, i + 1) == match all[i] {
            GcAction::FinishMark | GcAction::MarkStw => true,
            GcAction::PrepareGc => false,
            _ => marking_done(all, i),
        },
{
}

/// Whether steps are in order can be found out step by step.
proof fn lemma_written_out(all: Seq<GcAction>)
    requires
        ordered_from(all, 0, false, false),
    ensures
        in_order(all),
{
    lemma_ordered_from(all, 0, false, false);
}

spec fn ordered_from(all: Seq<GcAction>, i: int, stopped: bool, marked: bool) -> bool
    decreases all.len() - i,
{
    if i >= all.len() {
        !stopped
    } else {
        &&& needs_stop(all[i]) ==> stopped
        &&& all[i] is Sweep ==> marked
        &&& ordered_from(
            all,
            i + 1,
            match all[i] {
                GcAction::StopTheWorld => true,
                GcAction::ResumeTheWorld => false,
                _ => stopped,
            },
            match all[i] {
                GcAction::FinishMark | GcAction::MarkStw => true,
                GcAction::PrepareGc => false,
                _ => marked,
            },
        )
    }
}

proof fn lemma_ordered_from(all: Seq<GcAction>, i: int, stopped: bool, marked: bool)
    requires
        0 <= i <= all.len(),
        ordered_from(all, i, stopped, marked),
        stopped == world_stopped(all, i),
        marked == marking_done(all, i),
    ensures
        forall|k: int|
            i <= k < all.len() && needs_stop(#[trigger] all[k]) ==> world_stopped(all, k),
        forall|k: int|
            i <= k < all.len() && (#[trigger] all[k]) is Sweep ==> marking_done(all, k),
        !world_stopped(all, all.len() as int),
    decreases all.len() - i,
{
    if i < all.len() {
        lemma_step_in_order(all, i);
        lemma_ordered_from(all, i + 1, world_stopped(all, i + 1), marking_done(all, i + 1));
    }
}

/// A cycle that starts from outside of one is in order.
pub proof fn lemma_outside_in_order(mark_in_progress: bool)
    ensures
        in_order(degenerated_cycle(DegenPoint::OutsideCycle, mark_in_progress)),
{
    let all = degenerated_cycle(DegenPoint::OutsideCycle, mark_in_progress);
    reveal_with_fuel(world_stopped, 20);
    reveal_with_fuel(marking_done, 20);
    assert forall|i: int| 0 <= i < all.len() && needs_stop(#[trigger] all[i]) implies world_stopped(
        all,
        i,
    ) by {}
    assert forall|i: int| 0 <= i < all.len() && (#[trigger] all[i]) is Sweep implies marking_done(
        all,
        i,
    ) by {}
}

/// A cancelled cycle says where it was cancelled, and makes no further step.
pub proof fn lemma_cancelled(gc: ConcurrentGC, cancelled: bool)
    requires
        gc.degen_point is Unset,
        gc.steps < 17,
        concurrent_step(gc, cancelled).1 == (GcAction::Finished { done: false }),
    ensures
        ({
            let next = concurrent_step(gc, cancelled).0;
            &&& cancelled
            &&& next.degen_point is ConcurrentMark <==> gc.steps == 7
            &&& next.degen_point is ConcurrentSweep <==> gc.steps == 15
            &&& forall|c: bool| #[trigger]
                concurrent_step(next, c) == (next, GcAction::Finished { done: false })
        }),
{
    if !cancelled || (gc.steps != 7 && gc.steps != 15) {
        assert(concurrent_cycle()[gc.steps as int] != (GcAction::Finished { done: false }));
    }
}

/// Whether the work of a cycle is done: all that can be reached is marked, weak references
/// are cleared, what is left is swept and offered again, and the mutators go on as they did
/// before.
pub open spec fn brought_to_end(p: Progress) -> bool {
    &&& p.complete && p.weak && p.swept && p.rebuilt && p.cleared && p.finished
    &&& !p.stopped && !p.barriers && !p.in_progress
}

/// Wherever a cycle beside the mutators is cancelled, the one that goes on from there is
/// sound, and brings its work to an end.
pub proof fn lemma_degenerated_sound(flags: Seq<bool>)
    requires
        flags.len() > 0,
        ends_last(concurrent_run(flags).1),
        concurrent_run(flags).1.last() == (GcAction::Finished { done: false }),
    ensures
        ({
            let (gc, made) = concurrent_run(flags);
            let start = Progress { finished: false, ..outcome(at_rest(false, false), made) };
            let rest = degenerated_cycle(gc.degen_point, start.in_progress);
            &&& sound(start, rest)
            &&& brought_to_end(outcome(start, rest))
            &&& rest.last() == (GcAction::Finished { done: true })
        }),
{
    lemma_cancelled_run(flags);
    let (gc, made) = concurrent_run(flags);
    let start = Progress { finished: false, ..outcome(at_rest(false, false), made) };
    if gc.degen_point is ConcurrentMark {
        lemma_from_mark(start);
    } else {
        lemma_from_sweep(start, start.in_progress);
    }
}

proof fn lemma_from_mark(start: Progress)
    requires
        start == (Progress { retired: true, roots: true, begun: true, ..at_rest(true, true) }),
    ensures
        ({
            let rest = degenerated_cycle(DegenPoint::ConcurrentMark, true);
            &&& sound(start, rest)
            &&& brought_to_end(outcome(start, rest))
            &&& rest.last() == (GcAction::Finished { done: true })
        }),
{
    let all = seq![
        GcAction::StopTheWorld,
        GcAction::ClearCancelled,
        GcAction::RetireTlabs { raise_barriers: false },
        GcAction::CollectRoots,
        GcAction::FinishMark,
        GcAction::MarkInProgress { on: false },
        GcAction::ProcessWeak,
        GcAction::Sweep { concurrent: false, parallel: true },
        GcAction::Rebuild,
        GcAction::ResumeTheWorld,
        GcAction::Finished { done: true },
    ];
    assert(degenerated_cycle(DegenPoint::ConcurrentMark, true) =~= all);
    let p0 = start;
    assert(progress(start, all, 0) == p0);
    let p1 = advanced(p0, all[0]);
    assert(progress(start, all, 1) == p1);
    let p2 = advanced(p1, all[1]);
    assert(progress(start, all, 2) == p2);
    let p3 = advanced(p2, all[2]);
    assert(progress(start, all, 3) == p3);
    let p4 = advanced(p3, all[3]);
    assert(progress(start, all, 4) == p4);
    let p5 = advanced(p4, all[4]);
    assert(progress(start, all, 5) == p5);
    let p6 = advanced(p5, all[5]);
    assert(progress(start, all, 6) == p6);
    let p7 = advanced(p6, all[6]);
    assert(progress(start, all, 7) == p7);
    let p8 = advanced(p7, all[7]);
    assert(progress(start, all, 8) == p8);
    let p9 = advanced(p8, all[8]);
    assert(progress(start, all, 9) == p9);
    let p10 = advanced(p9, all[9]);
    assert(progress(start, all, 10) == p10);
    let p11 = advanced(p10, all[10]);
    assert(progress(start, all, 11) == p11);
    assert(walked(p11, all, 11) == Some(p11));
    assert(walked(p10, all, 10) == Some(p11));
    assert(walked(p9, all, 9) == Some(p11));
    assert(walked(p8, all, 8) == Some(p11));
    assert(walked(p7, all, 7) == Some(p11));
    assert(walked(p6, all, 6) == Some(p11));
    assert(walked(p5, all, 5) == Some(p11));
    assert(walked(p4, all, 4) == Some(p11));
    assert(walked(p3, all, 3) == Some(p11));
    assert(walked(p2, all, 2) == Some(p11));
    assert(walked(p1, all, 1) == Some(p11));
    assert(walked(p0, all, 0) == Some(p11));
    lemma_walked(start, all, 0);
}

proof fn lemma_from_sweep(start: Progress, mark_in_progress: bool)
    requires
        start == (Progress {
            retired: true,
            roots: true,
            begun: true,
            complete: true,
            noted: true,
            swept: true,
            ..at_rest(false, false)
        }),
    ensures
        ({
            let rest = degenerated_cycle(DegenPoint::ConcurrentSweep, mark_in_progress);
            &&& sound(start, rest)
            &&& brought_to_end(outcome(start, rest))
            &&& rest.last() == (GcAction::Finished { done: true })
        }),
{
    let all = seq![
        GcAction::StopTheWorld,
        GcAction::ClearCancelled,
        GcAction::RetireTlabs { raise_barriers: false },
        GcAction::ProcessWeak,
        GcAction::Sweep { concurrent: false, parallel: true },
        GcAction::Rebuild,
        GcAction::ResumeTheWorld,
        GcAction::Finished { done: true },
    ];
    assert(degenerated_cycle(DegenPoint::ConcurrentSweep, mark_in_progress) =~= all);
    let p0 = start;
    assert(progress(start, all, 0) == p0);
    let p1 = advanced(p0, all[0]);
    assert(progress(start, all, 1) == p1);
    let p2 = advanced(p1, all[1]);
    assert(progress(start, all, 2) == p2);
    let p3 = advanced(p2, all[2]);
    assert(progress(start, all, 3) == p3);
    let p4 = advanced(p3, all[3]);
    assert(progress(start, all, 4) == p4);
    let p5 = advanced(p4, all[4]);
    assert(progress(start, all, 5) == p5);
    let p6 = advanced(p5, all[5]);
    assert(progress(start, all, 6) == p6);
    let p7 = advanced(p6, all[6]);
    assert(progress(start, all, 7) == p7);
    let p8 = advanced(p7, all[7]);
    assert(progress(start, all, 8) == p8);
    assert(walked(p8, all, 8) == Some(p8));
    assert(walked(p7, all, 7) == Some(p8));
    assert(walked(p6, all, 6) == Some(p8));
    assert(walked(p5, all, 5) == Some(p8));
    assert(walked(p4, all, 4) == Some(p8));
    assert(walked(p3, all, 3) == Some(p8));
    assert(walked(p2, all, 2) == Some(p8));
    assert(walked(p1, all, 1) == Some(p8));
    assert(walked(p0, all, 0) == Some(p8));
    lemma_walked(start, all, 0);
}

/// A cycle that starts from outside of one does all its work, whatever state the write
/// barriers and the note on marking were left in.
pub proof fn lemma_outside_sound(barriers: bool, mark_in_progress: bool)
    ensures
        ({
            let start = at_rest(barriers, mark_in_progress);
            let rest = degenerated_cycle(DegenPoint::OutsideCycle, mark_in_progress);
            &&& sound(start, rest)
            &&& brought_to_end(outcome(start, rest))
            &&& rest.last() == (GcAction::Finished { done: true })
        }),
{
    let start = at_rest(barriers, mark_in_progress);
    let all = seq![
        GcAction::StopTheWorld,
        GcAction::ClearCancelled,
        GcAction::RetireTlabs { raise_barriers: false },
        GcAction::PrepareGc,
        GcAction::CancelMark,
        GcAction::MarkStw,
        GcAction::MarkInProgress { on: false },
        GcAction::ProcessWeak,
        GcAction::Sweep { concurrent: false, parallel: true },
        GcAction::Rebuild,
        GcAction::ResumeTheWorld,
        GcAction::Finished { done: true },
    ];
    assert(degenerated_cycle(DegenPoint::OutsideCycle, mark_in_progress) =~= all);
    let p0 = start;
    assert(progress(start, all, 0) == p0);
    let p1 = advanced(p0, all[0]);
    assert(progress(start, all, 1) == p1);
    let p2 = advanced(p1, all[1]);
    assert(progress(start, all, 2) == p2);
    let p3 = advanced(p2, all[2]);
    assert(progress(start, all, 3) == p3);
    let p4 = advanced(p3, all[3]);
    assert(progress(start, all, 4) == p4);
    let p5 = advanced(p4, all[4]);
    assert(progress(start, all, 5) == p5);
    let p6 = advanced(p5, all[5]);
    assert(progress(start, all, 6) == p6);
    let p7 = advanced(p6, all[6]);
    assert(progress(start, all, 7) == p7);
    let p8 = advanced(p7, all[7]);
    assert(progress(start, all, 8) == p8);
    let p9 = advanced(p8, all[8]);
    assert(progress(start, all, 9) == p9);
    let p10 = advanced(p9, all[9]);
    assert(progress(start, all, 10) == p10);
    let p11 = advanced(p10, all[10]);
    assert(progress(start, all, 11) == p11);
    let p12 = advanced(p11, all[11]);
    assert(progress(start, all, 12) == p12);
    assert(walked(p12, all, 12) == Some(p12));
    assert(walked(p11, all, 11) == Some(p12));
    assert(walked(p10, all, 10) == Some(p12));
    assert(walked(p9, all, 9) == Some(p12));
    assert(walked(p8, all, 8) == Some(p12));
    assert(walked(p7, all, 7) == Some(p12));
    assert(walked(p6, all, 6) == Some(p12));
    assert(walked(p5, all, 5) == Some(p12));
    assert(walked(p4, all, 4) == Some(p12));
    assert(walked(p3, all, 3) == Some(p12));
    assert(walked(p2, all, 2) == Some(p12));
    assert(walked(p1, all, 1) == Some(p12));
    assert(walked(p0, all, 0) == Some(p12));
    lemma_walked(start, all, 0);
}

} // verus!
