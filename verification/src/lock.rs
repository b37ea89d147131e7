//! The lock around what devices share: `spin::Mutex`.
//!
//! Other holders of the lock may change the protected value at any time it is
//! not held, so nothing is claimed of the value that a lock gives access to.
use vstd::prelude::*;

verus! {

/// `spin::mutex::Mutex`, which `spin::Mutex` names.
#[verifier::external_type_specification]
#[verifier::external_body]
#[verifier::reject_recursive_types(T)]
#[verifier::reject_recursive_types(R)]
pub struct ExMutex<T: ?Sized, R>(spin::mutex::Mutex<T, R>);

/// `spin::Spin`, the waiting strategy of `spin::Mutex`.
#[verifier::external_type_specification]
#[verifier::external_body]
pub struct ExSpin(spin::Spin);

/// `spin::MutexGuard`, which releases the lock when it goes out of scope.
#[verifier::external_type_specification]
#[verifier::external_body]
#[verifier::reject_recursive_types(T)]
pub struct ExMutexGuard<'a, T: 'a + ?Sized>(spin::MutexGuard<'a, T>);

/// `spin::Mutex::new`: an unlocked mutex around `value`. Nothing is claimed of
/// the mutex as a value, because what it protects changes behind shared
/// references.
#[verifier::external_body]
pub(crate) fn protected<T>(value: T) -> (mutex: spin::Mutex<T>) {
    spin::Mutex::new(value)
}

/// `spin::Mutex::lock`: waits until the lock is free and takes it. The caller
/// must not hold it already. Nothing is claimed of the value behind the guard:
/// it is what the last holder left.
#[verifier::external_body]
pub(crate) fn locked<'a, T>(mutex: &'a spin::Mutex<T>) -> (guard: spin::MutexGuard<'a, T>) {
    mutex.lock()
}

/// `spin::MutexGuard::deref_mut`: access to the protected value. Nothing is
/// claimed of the value: it is what the last holder left.
#[verifier::external_body]
pub(crate) fn guarded<'g, 'a, T>(guard: &'g mut spin::MutexGuard<'a, T>) -> (value: &'g mut T) {
    &mut **guard
}

} // verus!
