//! The task waker of `std`, as the rest of the crate sees it, and the
//! single-slot waker that a channel registers its receiver in.
use std::task::Waker;
use vstd::prelude::*;

verus! {

/// `std::task::Waker`, which wakes the task that an executor polls.
/// Verus sees nothing inside it; the library only stores it, compares it
/// with `will_wake` and hands it back to be woken.
#[verifier::external_type_specification]
#[verifier::external_body]
pub struct ExWaker(Waker);

/// Calls `Waker::will_wake`. Its documentation calls it best effort: it
/// may answer `false` even for two wakers of one task, so no clause ties
/// its answer to its arguments.
#[verifier::external_body]
pub(crate) fn waker_will_wake(waker: &Waker, other: &Waker) -> (same: bool) {
    waker.will_wake(other)
}

/// A slot for at most one waker, for a single consumer that registers the
/// waker of its task and is woken by producers.
pub struct UnsyncWaker {
    waker: Option<Waker>,
}

impl View for UnsyncWaker {
    type V = Option<Waker>;

    /// The registered waker, if any.
    closed spec fn view(&self) -> Option<Waker> {
        self.waker
    }
}

impl Default for UnsyncWaker {
    /// An empty slot.
    fn default() -> (slot: Self)
        ensures
            slot@ is None,
    {
        UnsyncWaker { waker: None }
    }
}

impl UnsyncWaker {
    /// Registers the waker of the current task. A registered waker that
    /// already wakes the same task is kept (and `waker` dropped); otherwise
    /// `waker` takes its place.
    pub fn register(&mut self, waker: Waker)
        ensures
            final(self)@ == old(self)@ || final(self)@ == Some(waker),
            old(self)@ is None ==> final(self)@ == Some(waker),
    {
        let registered = self.waker.take();
        self.waker = match registered {
            Some(current) if waker_will_wake(&current, &waker) => Some(current),
            _ => Some(waker),
        };
    }

    /// Takes the registered waker out of the slot, if there is one, and
    /// hands it to the caller, who wakes it.
    pub fn wake(&mut self) -> (woken: Option<Waker>)
        ensures
            woken == old(self)@,
            final(self)@ is None,
    {
        self.waker.take()
    }
}

} // verus!
