//! Cycles that mark and sweep while the world is stopped.

use vstd::multiset::Multiset;
use vstd::prelude::*;

use super::cycle::{
    advanced, at_rest, in_order, lemma_walked, marking_done, needs_stop, outcome, progress, sound, walked,
    world_stopped, GcAction,
};
use super::marking::{
    is_object, lemma_marking_complete, marking_inv, reachable, state, Object,
};
use super::marking_context::MarkingContext;
use super::sweeper::{live, offset, Block};

verus! {

/// A full cycle: it marks and sweeps, all while the world is stopped.
pub struct FullGC {}

/// The steps of a full cycle.
pub open spec fn full_cycle(parallel_sweep: bool) -> Seq<GcAction> {
    seq![
        GcAction::StopTheWorld,
        GcAction::PrepareGc,
        GcAction::ClearCancelled,
        GcAction::RetireTlabs { raise_barriers: false },
        GcAction::MarkStw,
        GcAction::ProcessWeak,
        GcAction::PrepareUnswept,
        GcAction::Sweep { concurrent: false, parallel: parallel_sweep },
        GcAction::RecycleTrash,
        GcAction::Rebuild,
        GcAction::ResumeTheWorld,
        GcAction::Finished { done: true },
    ]
}

impl FullGC {
    pub fn new() -> (r: Self) {
        FullGC {  }
    }

    /// The steps of the cycle.
    pub fn do_collect(&self, parallel_sweep: bool) -> (r: Vec<GcAction>)
        ensures
            r@ == full_cycle(parallel_sweep),
    {
        let mut out: Vec<GcAction> = Vec::new();
        out.push(GcAction::StopTheWorld);
        out.push(GcAction::PrepareGc);
        out.push(GcAction::ClearCancelled);
        out.push(GcAction::RetireTlabs { raise_barriers: false });
        out.push(GcAction::MarkStw);
        out.push(GcAction::ProcessWeak);
        out.push(GcAction::PrepareUnswept);
        out.push(GcAction::Sweep { concurrent: false, parallel: parallel_sweep });
        out.push(GcAction::RecycleTrash);
        out.push(GcAction::Rebuild);
        out.push(GcAction::ResumeTheWorld);
        out.push(GcAction::Finished { done: true });
        assert(out@ =~= full_cycle(parallel_sweep));
        out
    }
}

/// What a weak reference refers to after a cycle: the object if it is marked, and nothing
/// otherwise.
pub fn process_weak(ctx: &MarkingContext, pointers: &mut Vec<Option<usize>>)
    requires
        ctx.wf(),
        forall|i: int|
            0 <= i < old(pointers)@.len() ==> ((#[trigger] old(pointers)@[i]) matches Some(a)
                ==> ctx.bits().covers(a as int)),
    ensures
        final(pointers)@.len() == old(pointers)@.len(),
        forall|i: int|
            0 <= i < old(pointers)@.len() ==> (#[trigger] final(pointers)@[i]) == weak_after(
                ctx,
                old(pointers)@[i],
            ),
{
    let ghost before = pointers@;
    let mut i: usize = 0;
    while i < pointers.len()
        invariant
            i <= pointers@.len(),
            pointers@.len() == before.len(),
            ctx.wf(),
            forall|k: int|
                0 <= k < before.len() ==> ((#[trigger] before[k]) matches Some(a)
                    ==> ctx.bits().covers(a as int)),
            forall|k: int|
                0 <= k < i ==> (#[trigger] pointers@[k]) == weak_after(ctx, before[k]),
            forall|k: int| i <= k < before.len() ==> (#[trigger] pointers@[k]) == before[k],
        decreases pointers@.len() - i,
    {
        let p: Option<usize> = pointers[i];
        assert(p == before[i as int]);
        match p {
            Some(a) => {
                if !ctx.is_marked(a) {
                    pointers.set(i, None);
                }
            },
            None => {},
        }
        i = i + 1;
    }
}

/// What a weak reference refers to after a cycle.
pub open spec fn weak_after(ctx: &MarkingContext, p: Option<usize>) -> Option<usize> {
    match p {
        Some(a) => if ctx.marked(a as int) {
            Some(a)
        } else {
            None
        },
        None => None,
    }
}

/// The steps of a full cycle are in order.
pub proof fn lemma_full_in_order(parallel_sweep: bool)
    ensures
        in_order(full_cycle(parallel_sweep)),
{
    let all = full_cycle(parallel_sweep);
    reveal_with_fuel(world_stopped, 14);
    reveal_with_fuel(marking_done, 14);
    assert forall|i: int| 0 <= i < all.len() && needs_stop(#[trigger] all[i]) implies world_stopped(
        all,
        i,
    ) by {}
    assert forall|i: int| 0 <= i < all.len() && (#[trigger] all[i]) is Sweep implies marking_done(
        all,
        i,
    ) by {}
}

/// A full cycle does all its work, each part once those that it needs are done: it forgets
/// the marks of earlier cycles, marks, clears weak references to what is not marked, sweeps
/// the regions that it has noted, and offers what has become free. The sweep is shared
/// exactly if asked for.
pub proof fn lemma_full_sound(parallel_sweep: bool)
    ensures
        ({
            let all = full_cycle(parallel_sweep);
            let start = at_rest(false, false);
            let end = outcome(start, all);
            &&& sound(start, all)
            &&& end.complete && end.weak && end.noted && end.swept && end.recycled && end.rebuilt
            &&& end.cleared && end.finished && !end.stopped
            &&& all.last() == (GcAction::Finished { done: true })
            &&& forall|i: int|
                0 <= i < all.len() && (#[trigger] all[i]) is Sweep ==> {
                    &&& progress(start, all, i).noted
                    &&& !progress(start, all, i).swept
                    &&& all[i] == (GcAction::Sweep { concurrent: false, parallel: parallel_sweep })
                }
        }),
{
    let all = full_cycle(parallel_sweep);
    let start = at_rest(false, false);
    let p0 = start;
    assert(progress(start, all, 0) == p0);
    let p1 = advanced(p0, all[0]);
    assert(progress(start, all, 1) == p1);
    let p2 = advanced(p1, all[1]);
    assert(progress(start, all, 2) == p2);
    let p3 = advanced(p2, all[2]);
    assert(progress(start, all, 3) == p3);
    let p4 = advanced(p3, all[3]);
    assert(progress(start, all, 4) == p4);
    let p5 = advanced(p4, all[4]);
    assert(progress(start, all, 5) == p5);
    let p6 = advanced(p5, all[5]);
    assert(progress(start, all, 6) == p6);
    let p7 = advanced(p6, all[6]);
    assert(progress(start, all, 7) == p7);
    let p8 = advanced(p7, all[7]);
    assert(progress(start, all, 8) == p8);
    let p9 = advanced(p8, all[8]);
    assert(progress(start, all, 9) == p9);
    let p10 = advanced(p9, all[9]);
    assert(progress(start, all, 10) == p10);
    let p11 = advanced(p10, all[10]);
    assert(progress(start, all, 11) == p11);
    let p12 = advanced(p11, all[11]);
    assert(progress(start, all, 12) == p12);
    assert(walked(p12, all, 12) == Some(p12));
    assert(walked(p11, all, 11) == Some(p12));
    assert(walked(p10, all, 10) == Some(p12));
    assert(walked(p9, all, 9) == Some(p12));
    assert(walked(p8, all, 8) == Some(p12));
    assert(walked(p7, all, 7) == Some(p12));
    assert(walked(p6, all, 6) == Some(p12));
    assert(walked(p5, all, 5) == Some(p12));
    assert(walked(p4, all, 4) == Some(p12));
    assert(walked(p3, all, 3) == Some(p12));
    assert(walked(p2, all, 2) == Some(p12));
    assert(walked(p1, all, 1) == Some(p12));
    assert(walked(p0, all, 0) == Some(p12));
    lemma_walked(start, all, 0);
}

/// When marking has come to an end, sweeping keeps the objects that the roots lead to, and
/// no others: an object is live for the sweeper if and only if it can be reached.
pub proof fn lemma_swept_is_unreachable(
    objs: Seq<Object>,
    roots: Set<int>,
    ctx: &MarkingContext,
    blocks: Seq<Block>,
    begin: int,
    i: int,
)
    requires
        marking_inv(objs, roots, state(objs, ctx)),
        ctx.queues().tasks() == Multiset::<u64>::empty(),
        0 <= i < blocks.len(),
        !blocks[i].is_free,
        is_object(objs, begin + offset(blocks, i)),
    ensures
        live(ctx, blocks, begin, i) <==> reachable(objs, roots, begin + offset(blocks, i)),
{
    lemma_marking_complete(objs, roots, state(objs, ctx));
    let a = begin + offset(blocks, i);
    assert(state(objs, ctx).marked.contains(a) <==> ctx.marked(a));
}

/// A weak reference keeps an object if and only if the roots lead to it.
pub proof fn lemma_weak_is_reachable(
    objs: Seq<Object>,
    roots: Set<int>,
    ctx: &MarkingContext,
    a: usize,
)
    requires
        marking_inv(objs, roots, state(objs, ctx)),
        ctx.queues().tasks() == Multiset::<u64>::empty(),
        is_object(objs, a as int),
    ensures
        weak_after(ctx, Some(a)) == Some(a) <==> reachable(objs, roots, a as int),
{
    lemma_marking_complete(objs, roots, state(objs, ctx));
    assert(state(objs, ctx).marked.contains(a as int) <==> ctx.marked(a as int));
}

} // verus!
