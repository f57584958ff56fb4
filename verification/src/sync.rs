//! Sharing one queue state among the clones of a handle.
//!
//! The state lies in a mutex behind a reference count. Whoever holds the lock
//! takes the state out of its place, works on it by exclusive borrow, and puts
//! it back before the lock is released.

use vstd::prelude::*;
use std::sync::Mutex;
use std::sync::MutexGuard;

verus! {

/// `std::sync::Mutex`, of which nothing is known but its name.
#[verifier::external_type_specification]
#[verifier::external_body]
#[verifier::reject_recursive_types(T)]
pub struct ExMutex<T: ?Sized>(Mutex<T>);

/// `std::sync::MutexGuard`, of which nothing is known but its name.
#[verifier::external_type_specification]
#[verifier::external_body]
#[verifier::reject_recursive_types(T)]
pub struct ExMutexGuard<'a, T: ?Sized + 'a>(MutexGuard<'a, T>);

/// `Mutex::new`: a mutex, unlocked, that holds `value`. Nothing is claimed of
/// it.
#[verifier::external_body]
pub(crate) fn mutex_new<T>(value: T) -> Mutex<T> {
    Mutex::new(value)
}

/// `Mutex::lock`: waits for the lock and returns its guard; a lock that a
/// panicking holder left poisoned is taken all the same. Nothing is claimed of
/// what the guard holds.
#[verifier::external_body]
pub(crate) fn mutex_lock<'a, T>(mutex: &'a Mutex<T>) -> MutexGuard<'a, T> {
    match mutex.lock() {
        Ok(guard) => guard,
        Err(poisoned) => poisoned.into_inner(),
    }
}

/// `Mutex::try_lock`: the guard where the lock is free (or was left poisoned),
/// `None` where another holder has it. Nothing is claimed of which, nor of what
/// the guard holds.
#[verifier::external_body]
pub(crate) fn mutex_try_lock<'a, T>(mutex: &'a Mutex<T>) -> Option<MutexGuard<'a, T>> {
    match mutex.try_lock() {
        Ok(guard) => Some(guard),
        Err(std::sync::TryLockError::Poisoned(poisoned)) => Some(poisoned.into_inner()),
        Err(std::sync::TryLockError::WouldBlock) => None,
    }
}

/// `DerefMut::deref_mut` of a guard: the value that the mutex protects, for as
/// long as the guard is borrowed. Nothing is claimed of the value.
#[verifier::external_body]
pub(crate) fn guard_mut<'a, 'b, T>(guard: &'a mut MutexGuard<'b, T>) -> &'a mut T {
    &mut **guard
}

/// A state type with a validity predicate that all its operations keep.
pub trait Valid {
    spec fn valid(&self) -> bool;
}

/// The place in which a shared state lies: it holds a valid state, or nothing
/// while a holder of the lock works on the state (or where one never put it
/// back).
pub struct Place<S: Valid> {
    slot: Option<S>,
}

impl<S: Valid> View for Place<S> {
    type V = Option<S>;

    /// The state that lies in the place, if one does.
    closed spec fn view(&self) -> Option<S> {
        self.slot
    }
}

impl<S: Valid> Place<S> {
    #[verifier::type_invariant]
    spec fn holds_valid(self) -> bool {
        match self.slot {
            Some(s) => s.valid(),
            None => true,
        }
    }

    /// A place that holds `state`.
    pub fn new(state: S) -> (p: Self)
        requires
            state.valid(),
        ensures
            p@ == Some(state),
    {
        Place { slot: Some(state) }
    }

    /// Takes the state out, leaving the place empty; `None` where it is empty
    /// already. A state that comes out is valid.
    pub fn take(&mut self) -> (r: Option<S>)
        ensures
            r == old(self)@,
            final(self)@.is_none(),
            match r {
                Some(s) => s.valid(),
                None => true,
            },
    {
        proof {
            use_type_invariant(&*self);
        }
        let mut taken: Option<S> = None;
        std::mem::swap(&mut taken, &mut self.slot);
        taken
    }

    /// Puts `state` into the place.
    pub fn put(&mut self, state: S)
        requires
            state.valid(),
        ensures
            final(self)@ == Some(state),
    {
        let mut given: Option<S> = Some(state);
        std::mem::swap(&mut given, &mut self.slot);
    }
}

} // verus!
