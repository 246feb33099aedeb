//! Spin-lock primitives, as seen by one thread: a mutex over a value and a one-time
//! initialization flag.
use vstd::prelude::*;

verus! {

/// A value behind a lock that is taken by spinning.
pub struct SpinMutex<T> {
    locked: bool,
    value: T,
}

impl<T> SpinMutex<T> {
    /// Whether the lock is taken.
    pub closed spec fn is_locked(&self) -> bool {
        self.locked
    }

    /// The value behind the lock.
    pub closed spec fn value(&self) -> T {
        self.value
    }

    /// An unlocked mutex over `value`.
    pub fn new(value: T) -> (r: Self)
        ensures
            !r.is_locked(),
            r.value() == value,
    {
        SpinMutex { locked: false, value }
    }

    /// The value, through exclusive access to the mutex itself; no locking needed.
    pub fn get_mut(&mut self) -> (r: &mut T)
        ensures
            *r == old(self).value(),
            final(self).value() == *final(r),
            final(self).is_locked() == old(self).is_locked(),
    {
        &mut self.value
    }

    /// Takes the lock, which must be free: one thread holding it would spin forever.
    pub fn lock(&mut self) -> (r: SpinMutexGuard)
        requires
            !old(self).is_locked(),
        ensures
            final(self).is_locked(),
            final(self).value() == old(self).value(),
    {
        self.locked = true;
        SpinMutexGuard { _held: () }
    }

    /// Gives the lock back; the guard must be the one the lock gave.
    pub fn unlock(&mut self, guard: SpinMutexGuard)
        requires
            old(self).is_locked(),
        ensures
            !final(self).is_locked(),
            final(self).value() == old(self).value(),
    {
        self.locked = false;
    }
}

/// The proof that a [`SpinMutex`] is held.
pub struct SpinMutexGuard {
    _held: (),
}

/// The states of a [`SpinOnce`].
pub const ONCE_UNINIT: u8 = 0;
pub const ONCE_LOCKED: u8 = 1;
pub const ONCE_INIT: u8 = 2;

/// A flag for work done only the first time.
pub struct SpinOnce(u8);

impl SpinOnce {
    /// The state of the flag.
    pub closed spec fn state(&self) -> u8 {
        self.0
    }

    /// A flag whose work is not done yet.
    pub fn new() -> (r: Self)
        ensures
            r.state() == ONCE_UNINIT,
    {
        SpinOnce(ONCE_UNINIT)
    }

    /// Runs `f` and returns what it gives, when this is the first call; else `None`. The
    /// work must not be under way: one thread would spin forever.
    pub fn call_once<R, F: FnOnce() -> R>(&mut self, f: F) -> (r: Option<R>)
        requires
            old(self).state() == ONCE_UNINIT ==> f.requires(()),
            old(self).state() == ONCE_UNINIT || old(self).state() == ONCE_INIT,
        ensures
            final(self).state() == ONCE_INIT,
            old(self).state() == ONCE_UNINIT ==> (r matches Some(x) && f.ensures((), x)),
            old(self).state() == ONCE_INIT ==> r is None,
    {
        if self.0 == ONCE_UNINIT {
            self.0 = ONCE_LOCKED;
            let result = f();
            self.0 = ONCE_INIT;
            Some(result)
        } else {
            None
        }
    }
}

} // verus!
