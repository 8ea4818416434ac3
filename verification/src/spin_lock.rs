use std::sync::atomic::AtomicBool;
use std::sync::atomic::Ordering;
use vstd::prelude::*;

verus! {

/// A lock taken by flipping a flag from `false` to `true`; the data it
/// guards is reached through the guard that taking it hands out.
pub struct SpinLock<T> {
    lock: AtomicBool,
    data: T,
}

/// Proof of having taken a [`SpinLock`]; `unlock` gives the lock back.
pub struct SpinLockGuard<'a, T> {
    owner: &'a SpinLock<T>,
}

impl<T> SpinLock<T> {
    pub closed spec fn data_of(&self) -> T {
        self.data
    }

    /// A lock, not taken, that guards `data`.
    pub fn new(data: T) -> (l: SpinLock<T>)
        ensures
            l.data_of() == data,
    {
        SpinLock { lock: AtomicBool::new(false), data }
    }

    /// Takes the lock if nobody holds it. Whether that succeeds depends on
    /// the other holders of the lock; a guard, when there is one, belongs to
    /// this lock.
    pub fn try_lock(&self) -> (g: Option<SpinLockGuard<'_, T>>)
        ensures
            g matches Some(guard) ==> guard.owner_of() == *self,
    {
        match self.lock.compare_exchange(false, true, Ordering::Acquire, Ordering::Relaxed) {
            Ok(_) => Some(SpinLockGuard { owner: self }),
            Err(_) => None,
        }
    }
}

impl<'a, T> SpinLockGuard<'a, T> {
    pub closed spec fn owner_of(&self) -> SpinLock<T> {
        *self.owner
    }

    /// Gives the lock back.
    pub fn unlock(self) {
        self.owner.lock.store(false, Ordering::Release);
    }
}


impl<T: Default> Default for SpinLock<T> {
    /// A lock, not taken, that guards the default value of `T`.
    fn default() -> (l: SpinLock<T>)
        ensures
            call_ensures(T::default, (), l.data_of()),
    {
        SpinLock { lock: AtomicBool::new(false), data: T::default() }
    }
}


impl<'a, T> std::ops::Deref for SpinLockGuard<'a, T> {
    type Target = T;

    /// The guarded data.
    fn deref(&self) -> (r: &T)
        ensures
            *r == self.owner_of().data_of(),
    {
        &self.owner.data
    }
}

} // verus!
