use spin::mutex::SpinMutex;
use spin::mutex::SpinMutexGuard;
use spin::relax::Spin;
use vstd::prelude::*;

verus! {

/// `spin::mutex::SpinMutex`, a spin lock around a value. Nothing is known of
/// what it holds: that may change between any two looks at it.
#[verifier::external_type_specification]
#[verifier::external_body]
#[verifier::reject_recursive_types(T)]
#[verifier::reject_recursive_types(R)]
pub struct ExSpinMutex<T: ?Sized, R>(SpinMutex<T, R>);

/// `spin::mutex::SpinMutexGuard`, the proof that its holder has the lock. The
/// lock is released when the guard is dropped.
#[verifier::external_type_specification]
#[verifier::external_body]
#[verifier::reject_recursive_types(T)]
pub struct ExSpinMutexGuard<'a, T: ?Sized>(SpinMutexGuard<'a, T>);

/// `spin::relax::Spin`, the way in which a `SpinMutex` waits by default.
#[verifier::external_type_specification]
#[verifier::external_body]
pub struct ExSpin(Spin);

/// `SpinMutex::try_lock`: one attempt at the lock, which never waits. It
/// gives a guard if the lock was free and `None` if it was taken. Which of
/// the two happens depends on the other holders, so nothing is claimed of it.
#[verifier::external_body]
pub(crate) fn try_lock<'a, T>(mutex: &'a SpinMutex<T>) -> (guard: Option<SpinMutexGuard<'a, T>>) {
    mutex.try_lock()
}

/// `DerefMut::deref_mut` of `SpinMutexGuard`: access to the value behind the
/// lock for as long as the guard is borrowed. Nothing is claimed of the value
/// found there.
#[verifier::external_body]
pub(crate) fn held<'a, 'b, T>(guard: &'a mut SpinMutexGuard<'b, T>) -> (data: &'a mut T) {
    &mut **guard
}

} // verus!
