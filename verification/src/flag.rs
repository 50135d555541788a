use std::sync::atomic::AtomicBool;
use std::sync::atomic::Ordering;
use vstd::prelude::*;

verus! {

/// A flag that can be raised or lowered.
/// Useful for indicating if an event has occurred.
#[derive(Debug)]
pub struct Flag(bool);

impl View for Flag {
    type V = bool;

    /// Whether the flag is raised.
    closed spec fn view(&self) -> bool {
        self.0
    }
}

impl Default for Flag {
    /// A lowered flag.
    fn default() -> (flag: Self)
        ensures
            !flag@,
    {
        Flag(false)
    }
}

impl Flag {
    /// Creates a new flag that's raised.
    pub fn raised() -> (flag: Self)
        ensures
            flag@,
    {
        Flag(true)
    }

    /// Raises the flag, returning whether it was lowered before
    /// (that is, whether this call changed it).
    pub fn raise(&mut self) -> (changed: bool)
        ensures
            final(self)@,
            changed == !old(self)@,
    {
        let was = self.0;
        self.0 = true;
        !was
    }

    /// Lowers the flag, returning whether it was raised before
    /// (that is, whether this call changed it).
    pub fn lower(&mut self) -> (changed: bool)
        ensures
            !final(self)@,
            changed == old(self)@,
    {
        let was = self.0;
        self.0 = false;
        was
    }

    /// Gets if the flag is raised.
    pub fn is_raised(&self) -> (raised: bool)
        ensures
            raised == self@,
    {
        self.0
    }
}

/// A flag backed by an atomic boolean, so that it can be shared between
/// threads. Every access is sequentially consistent.
///
/// Because other threads may change the flag at any moment, what a call
/// observes is decided by the interleaving, not by this thread's history:
/// the results below are whatever the atomic operation read.
#[derive(Debug, Default)]
pub struct AtomicFlag(AtomicBool);

impl AtomicFlag {
    /// Creates a new flag that's raised.
    pub fn raised() -> AtomicFlag {
        AtomicFlag(AtomicBool::new(true))
    }

    /// Raises the flag, returning whether the raise changed it
    /// (that is, whether it was lowered just before).
    pub fn raise(&self) -> bool {
        !self.0.swap(true, Ordering::SeqCst)
    }

    /// Lowers the flag, returning whether the lower changed it
    /// (that is, whether it was raised just before).
    pub fn lower(&self) -> bool {
        self.0.swap(false, Ordering::SeqCst)
    }

    /// Gets if the flag is raised.
    pub fn is_raised(&self) -> bool {
        self.0.load(Ordering::SeqCst)
    }
}

} // verus!
