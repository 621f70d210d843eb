//! A lock for what several threads share.
use vstd::prelude::*;
use vstd::rwlock::{RwLock, RwLockPredicate, WriteHandle};

verus! {

/// A value that can be kept in a lock.
pub trait Guarded {
    /// What holds of the value whenever the lock is free.
    spec fn guarded(&self) -> bool;

    /// What does not change while the value is in the lock.
    spec fn label(&self) -> Option<nat>;
}

/// The values that a lock can keep, and the one that it was made with.
pub struct Kept<T> {
    pub label: Option<nat>,
    pub made_with: T,
}

impl<T: Guarded> RwLockPredicate<T> for Kept<T> {
    open spec fn inv(self, value: T) -> bool {
        value.guarded() && value.label() == self.label
    }
}

/// A simple spinlock
pub struct Spinlock<T: Guarded> {
    value: RwLock<T, Kept<T>>,
}

impl<T: Guarded> Spinlock<T> {
    /// What does not change about the value in the lock.
    pub closed spec fn label(&self) -> Option<nat> {
        self.value.pred().label
    }

    /// The value that the lock was made with.
    pub closed spec fn made_with(&self) -> T {
        self.value.pred().made_with
    }

    /// Returns a new spinlock initialized with `value`.
    pub fn new(value: T) -> (lock: Self)
        requires
            value.guarded(),
        ensures
            lock.label() == value.label(),
            lock.made_with() == value,
    {
        let ghost kept = Kept { label: value.label(), made_with: value };
        Spinlock { value: RwLock::new(value, Ghost(kept)) }
    }

    /// Locks the spinlock: waits until no guard of another call is left.
    pub fn lock(&self) -> (guard: SpinlockGuard<'_, T>)
        ensures
            guard@.guarded(),
            guard@.label() == self.label(),
            guard.parent() == *self,
    {
        let (value, handle) = self.value.acquire_write();
        SpinlockGuard { value, handle }
    }
}

/// A guard holding a spinlock locked.
///
/// The lock stays locked until the guard is given back with `unlock`.
pub struct SpinlockGuard<'a, T: Guarded> {
    value: T,
    handle: WriteHandle<'a, T, Kept<T>>,
}

impl<'a, T: Guarded> View for SpinlockGuard<'a, T> {
    type V = T;

    closed spec fn view(&self) -> T {
        self.value
    }
}

impl<'a, T: Guarded> SpinlockGuard<'a, T> {
    /// The lock that is held.
    pub closed spec fn parent(&self) -> Spinlock<T> {
        Spinlock { value: self.handle.rwlock() }
    }

    /// The value in the lock.
    pub fn deref(&self) -> (value: &T)
        ensures
            *value == self@,
    {
        &self.value
    }

    /// The value in the lock, to be changed.
    pub fn deref_mut(&mut self) -> (value: &mut T)
        ensures
            *value == old(self)@,
            final(self)@ == *final(value),
            final(self).parent() == old(self).parent(),
    {
        &mut self.value
    }

    /// Puts the value back and frees the lock.
    pub fn unlock(self)
        requires
            self@.guarded(),
            self@.label() == self.parent().label(),
    {
        self.handle.release_write(self.value);
    }
}

} // verus!
