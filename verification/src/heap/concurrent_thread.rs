//! Threads that serve the collector.

use vstd::prelude::*;

verus! {

/// What a thread of the collector has in common with others: it is asked to terminate, and
/// later has terminated.
pub trait ConcurrentGCThread {
    spec fn asked_to_stop(&self) -> bool;

    spec fn stopped(&self) -> bool;

    fn should_terminate(&self) -> (r: bool)
        ensures
            r == self.asked_to_stop(),
    ;

    fn has_terminated(&self) -> (r: bool)
        ensures
            r == self.stopped(),
    ;

    /// Asks the thread to terminate.
    fn stop(&mut self)
        ensures
            final(self).asked_to_stop(),
            final(self).stopped() == old(self).stopped(),
    ;
}

} // verus!
