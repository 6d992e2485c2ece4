use vstd::prelude::*;

use std::sync::Mutex;

verus! {

#[verifier::external_type_specification]
#[verifier::external_body]
#[verifier::reject_recursive_types(T)]
pub struct ExMutex<T: ?Sized>(Mutex<T>);

/// Relies on `std::sync::Mutex::new`: it wraps the value in an unlocked mutex
/// and cannot fail.
pub assume_specification<T>[ Mutex::<T>::new ](t: T) -> (r: Mutex<T>);

/// An engine behind a mutual-exclusion guard, so that every operation on it
/// runs to completion before the next one starts.
#[verifier::reject_recursive_types(A)]
pub struct Locked<A> {
    inner: Mutex<A>,
}

impl<A> Locked<A> {
    /// The mutex that guards the engine.
    pub closed spec fn guard(&self) -> Mutex<A> {
        self.inner
    }

    /// Puts `inner` behind a new, unlocked mutex.
    pub fn new(inner: A) -> (r: Self) {
        Locked { inner: Mutex::new(inner) }
    }

    /// The mutex that guards the engine.
    pub fn mutex(&self) -> (r: &Mutex<A>)
        ensures
            *r == self.guard(),
    {
        &self.inner
    }
}

} // verus!
