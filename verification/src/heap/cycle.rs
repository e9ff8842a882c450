//! The steps that collection cycles are made of.

use vstd::prelude::*;

verus! {

/// A step of a cycle.
#[derive(Clone, Copy, PartialEq, Eq, Debug, Structural)]
pub enum GcAction {
    /// All mutators are stopped.
    StopTheWorld,
    /// The mutators go on.
    ResumeTheWorld,
    /// All marks are forgotten.
    PrepareGc,
    /// A cancellation is forgotten.
    ClearCancelled,
    /// The local buffers of the mutators are retired. With it the write barriers of the
    /// mutators are raised, if asked for.
    RetireTlabs { raise_barriers: bool },
    /// The roots are visited.
    CollectRoots,
    /// It is noted whether marking goes on beside the mutators.
    MarkInProgress { on: bool },
    /// Objects are marked beside the mutators, until the cycle is cancelled.
    Mark,
    /// What the mutators have recorded is flushed, their write barriers are lowered, and
    /// marking is brought to an end.
    FinishMark,
    /// What the mutators have recorded is dropped, and their write barriers are lowered.
    CancelMark,
    /// The roots are visited and all objects that they lead to are marked.
    MarkStw,
    /// Weak references to objects that are not marked are cleared.
    ProcessWeak,
    /// The regions to sweep are noted.
    PrepareUnswept,
    /// The regions are swept.
    Sweep { concurrent: bool, parallel: bool },
    /// Trash regions become empty ones.
    RecycleTrash,
    /// The set of regions with room is built anew.
    Rebuild,
    /// The cycle has ended. Tells whether it has done its work.
    Finished { done: bool },
}

/// Whether marking is complete after the first `n` steps: it has been brought to an end
/// since the marks were last forgotten.
pub open spec fn marking_done(actions: Seq<GcAction>, n: int) -> bool
    decreases n,
{
    if n <= 0 {
        false
    } else {
        match actions[n - 1] {
            GcAction::FinishMark | GcAction::MarkStw => true,
            GcAction::PrepareGc => false,
            _ => marking_done(actions, n - 1),
        }
    }
}

/// Whether the world is stopped after the first `n` steps.
pub open spec fn world_stopped(actions: Seq<GcAction>, n: int) -> bool
    decreases n,
{
    if n <= 0 {
        false
    } else {
        match actions[n - 1] {
            GcAction::StopTheWorld => true,
            GcAction::ResumeTheWorld => false,
            _ => world_stopped(actions, n - 1),
        }
    }
}

/// Whether a step needs the world to be stopped.
pub open spec fn needs_stop(action: GcAction) -> bool {
    match action {
        GcAction::PrepareGc
        | GcAction::RetireTlabs { .. }
        | GcAction::CollectRoots
        | GcAction::FinishMark
        | GcAction::CancelMark
        | GcAction::MarkStw
        | GcAction::PrepareUnswept => true,
        GcAction::Sweep { concurrent, .. } => !concurrent,
        _ => false,
    }
}

/// Whether the steps of a cycle are in order: the world is stopped for those that need it,
/// and it goes on in the end, and nothing is swept before marking is complete.
pub open spec fn in_order(actions: Seq<GcAction>) -> bool {
    &&& forall|i: int|
        0 <= i < actions.len() && needs_stop(#[trigger] actions[i]) ==> world_stopped(actions, i)
    &&& forall|i: int|
        0 <= i < actions.len() && (#[trigger] actions[i]) is Sweep ==> marking_done(actions, i)
    &&& !world_stopped(actions, actions.len() as int)
}

/// What the steps of a cycle have come to.
pub struct Progress {
    /// The mutators are stopped.
    pub stopped: bool,
    /// Since they were, their local buffers have been retired.
    pub retired: bool,
    /// Since they were, the roots have been visited.
    pub roots: bool,
    /// The write barriers of the mutators are up.
    pub barriers: bool,
    /// It is noted that marking goes on beside the mutators.
    pub in_progress: bool,
    /// Nothing is marked.
    pub clean: bool,
    /// Objects have been marked beside the mutators.
    pub begun: bool,
    /// All that can be reached is marked.
    pub complete: bool,
    /// Weak references refer to marked objects only.
    pub weak: bool,
    /// The regions to sweep have been noted.
    pub noted: bool,
    pub swept: bool,
    /// No region is trash.
    pub recycled: bool,
    /// The set of regions with room is that of the swept heap.
    pub rebuilt: bool,
    /// A cancellation has been forgotten.
    pub cleared: bool,
    pub finished: bool,
}

/// Before a cycle, with the write barriers and the note as they are.
pub open spec fn at_rest(barriers: bool, in_progress: bool) -> Progress {
    Progress {
        stopped: false,
        retired: false,
        roots: false,
        barriers,
        in_progress,
        clean: false,
        begun: false,
        complete: false,
        weak: false,
        noted: false,
        swept: false,
        recycled: false,
        rebuilt: false,
        cleared: false,
        finished: false,
    }
}

/// What a step adds.
pub open spec fn advanced(p: Progress, action: GcAction) -> Progress {
    match action {
        GcAction::StopTheWorld => Progress { stopped: true, retired: false, roots: false, ..p },
        GcAction::ResumeTheWorld => Progress { stopped: false, ..p },
        GcAction::PrepareGc => Progress { clean: true, ..p },
        GcAction::ClearCancelled => Progress { cleared: true, ..p },
        GcAction::RetireTlabs { raise_barriers } => Progress {
            retired: true,
            barriers: p.barriers || raise_barriers,
            ..p
        },
        GcAction::CollectRoots => Progress { roots: true, ..p },
        GcAction::MarkInProgress { on } => Progress { in_progress: on, ..p },
        GcAction::Mark => Progress { begun: true, clean: false, ..p },
        GcAction::FinishMark => Progress { complete: true, barriers: false, ..p },
        GcAction::CancelMark => Progress { barriers: false, ..p },
        GcAction::MarkStw => Progress { complete: true, clean: false, ..p },
        GcAction::ProcessWeak => Progress { weak: true, ..p },
        GcAction::PrepareUnswept => Progress { noted: true, ..p },
        GcAction::Sweep { .. } => Progress { swept: true, ..p },
        GcAction::RecycleTrash => Progress { recycled: true, ..p },
        GcAction::Rebuild => Progress { rebuilt: true, ..p },
        GcAction::Finished { .. } => Progress { finished: true, ..p },
    }
}

/// Whether a step may be made. Beside the mutators nothing is marked unless their write
/// barriers are up; marking starts from roots and without marks; weak references are looked
/// at, and regions are swept, once marking is complete; what was swept is offered again
/// after that, with no trash left behind; and the mutators go on in the end.
pub open spec fn may(p: Progress, action: GcAction) -> bool {
    &&& !p.finished
    &&& match action {
        GcAction::StopTheWorld => !p.stopped,
        GcAction::ResumeTheWorld => p.stopped,
        GcAction::PrepareGc => p.stopped && !p.clean && !p.begun && !p.complete,
        GcAction::ClearCancelled => p.stopped && !p.cleared,
        GcAction::RetireTlabs { .. } => p.stopped && !p.retired,
        GcAction::CollectRoots => p.stopped && p.retired && !p.roots && !p.complete,
        GcAction::MarkInProgress { .. } => p.stopped,
        GcAction::Mark => {
            &&& !p.stopped
            &&& p.barriers
            &&& p.in_progress
            &&& p.clean
            &&& p.roots
            &&& !p.complete
        },
        GcAction::FinishMark => {
            &&& p.stopped
            &&& p.retired
            &&& p.barriers
            &&& p.begun
            &&& p.roots
            &&& !p.complete
        },
        GcAction::CancelMark => p.stopped && !p.complete,
        GcAction::MarkStw => {
            &&& p.stopped
            &&& p.retired
            &&& p.clean
            &&& !p.barriers
            &&& !p.complete
        },
        GcAction::ProcessWeak => p.stopped && p.complete && !p.weak && !p.rebuilt,
        GcAction::PrepareUnswept => p.stopped && p.complete && !p.noted && !p.swept,
        GcAction::Sweep { concurrent, .. } => {
            &&& p.complete
            &&& !p.barriers
            &&& !p.in_progress
            &&& !p.rebuilt
            &&& !concurrent ==> p.stopped && p.retired && p.weak
        },
        GcAction::RecycleTrash => p.swept && !p.recycled && !p.rebuilt,
        GcAction::Rebuild => p.swept && !p.rebuilt,
        GcAction::Finished { done } => {
            &&& !p.stopped
            &&& done ==> p.complete && p.swept && p.rebuilt && !p.barriers && !p.in_progress
        },
    }
}

/// What the first `n` steps come to.
pub open spec fn progress(start: Progress, actions: Seq<GcAction>, n: int) -> Progress
    decreases n,
{
    if n <= 0 {
        start
    } else {
        advanced(progress(start, actions, n - 1), actions[n - 1])
    }
}

/// What all steps come to.
pub open spec fn outcome(start: Progress, actions: Seq<GcAction>) -> Progress {
    progress(start, actions, actions.len() as int)
}

/// Whether every step may be made when it is.
pub open spec fn sound(start: Progress, actions: Seq<GcAction>) -> bool {
    forall|i: int|
        0 <= i < actions.len() ==> may(progress(start, actions, i), #[trigger] actions[i])
}

/// What the first steps come to does not depend on those that follow.
pub(crate) proof fn lemma_progress_prefix(
    start: Progress,
    actions: Seq<GcAction>,
    more: Seq<GcAction>,
    n: int,
)
    requires
        0 <= n <= actions.len(),
        n <= more.len(),
        forall|k: int| 0 <= k < n ==> (#[trigger] more[k]) == actions[k],
    ensures
        progress(start, actions, n) == progress(start, more, n),
    decreases n,
{
    if n > 0 {
        lemma_progress_prefix(start, actions, more, n - 1);
        assert(more[n - 1] == actions[n - 1]);
    }
}

/// What a walk along the steps from step `i` on comes to, or nothing if one of them may not
/// be made.
pub(crate) open spec fn walked(p: Progress, actions: Seq<GcAction>, i: int) -> Option<Progress>
    decreases actions.len() - i,
{
    if i >= actions.len() {
        Some(p)
    } else if may(p, actions[i]) {
        walked(advanced(p, actions[i]), actions, i + 1)
    } else {
        None
    }
}

/// A walk along the steps tells whether they are sound, and what they come to.
pub(crate) proof fn lemma_walked(start: Progress, actions: Seq<GcAction>, i: int)
    requires
        0 <= i <= actions.len(),
        walked(progress(start, actions, i), actions, i) is Some,
    ensures
        forall|k: int|
            i <= k < actions.len() ==> may(progress(start, actions, k), #[trigger] actions[k]),
        outcome(start, actions) == walked(progress(start, actions, i), actions, i)->0,
    decreases actions.len() - i,
{
    if i < actions.len() {
        lemma_walked(start, actions, i + 1);
    }
}

} // verus!
