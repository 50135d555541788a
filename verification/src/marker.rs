use std::marker::PhantomData;
use std::sync::MutexGuard;
use vstd::prelude::*;

verus! {

/// `std::sync::MutexGuard`, named here only so that [`UnsendMarker`] can
/// borrow its auto traits: it is `Sync` but not `Send`.
#[verifier::external_type_specification]
#[verifier::external_body]
#[verifier::reject_recursive_types(T)]
pub struct ExMutexGuard<'a, T: ?Sized + 'a>(MutexGuard<'a, T>);

/// Marker for items that are not `Send`.
#[derive(Copy, Clone, Default, Eq, PartialEq, PartialOrd, Ord, Debug, Hash)]
pub struct UnsendMarker(PhantomData<MutexGuard<'static, ()>>);

} // verus!
