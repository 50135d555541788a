use vstd::prelude::*;

verus! {

/// The outcome of polling: a value, or not yet.
#[derive(Debug)]
pub enum Poll<T> {
    /// The value is ready.
    Ready(T),
    /// The value is not ready; the polling task will be woken.
    Pending,
}

} // verus!
