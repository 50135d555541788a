use std::task::Waker;
use vstd::prelude::*;

verus! {

/// Holds the waker of a parent task, to be woken when a child makes
/// progress.
pub struct ParentWaker(Option<Waker>);

impl View for ParentWaker {
    type V = Option<Waker>;

    /// The stored waker, if any.
    closed spec fn view(&self) -> Option<Waker> {
        self.0
    }
}

impl Default for ParentWaker {
    /// Holds no waker.
    fn default() -> (parent: Self)
        ensures
            parent@ is None,
    {
        ParentWaker(None)
    }
}

impl ParentWaker {
    /// Stores `waker`, dropping any waker stored before.
    pub fn set(&mut self, waker: Waker)
        ensures
            final(self)@ == Some(waker),
    {
        self.0 = Some(waker);
    }

    /// Takes the stored waker, if any, and hands it to the caller, who
    /// wakes it: afterwards no waker is stored, so a second `wake` before
    /// the next `set` hands out nothing.
    pub fn wake(&mut self) -> (woken: Option<Waker>)
        ensures
            woken == old(self)@,
            final(self)@ is None,
    {
        self.0.take()
    }

    /// The stored waker, if any, for the caller to wake while it stays
    /// stored.
    pub fn wake_by_ref(&self) -> (woken: Option<&Waker>)
        ensures
            match woken {
                Some(waker) => self@ == Some(*waker),
                None => self@ is None,
            },
    {
        match &self.0 {
            Some(waker) => Some(waker),
            None => None,
        }
    }
}

} // verus!
