//! Locking primitives.

use vstd::prelude::*;
use crate::cpu::COUNT;
use crate::sync::advisor::Advisor;

verus! {

/// Lock container.
pub struct Lock<T> {
    /// Actual spin-lock.
    pub advisor: Advisor,
    /// Protected content.
    pub content: T,
}

/// Lock guard whose lifetime determines how long the lock is held.
pub struct Guard<'a, T> {
    /// Lock to be released once this guard is given back.
    pub lock: &'a mut Lock<T>,
    /// The logical CPU that holds the lock.
    pub affinity: usize,
}

impl<T> Lock<T> {
    /// Creates and initializes a new lock, which nobody holds.
    pub fn new(content: T) -> (lock: Lock<T>)
        ensures
            lock.advisor.holder() is None,
            lock.content == content,
    {
        Lock { advisor: Advisor::new(), content }
    }

    /// Attempts to lock access to the content for the logical CPU
    /// `affinity`.
    ///
    /// Returns a [`Guard`] which allows access to the content and holds the
    /// lock until released, or nothing while another logical CPU holds the
    /// lock. A logical CPU that holds the lock must not ask for it again.
    pub fn lock(&mut self, affinity: usize) -> (guard: Option<Guard<'_, T>>)
        requires
            affinity < COUNT,
            old(self).advisor.holder() != Some(affinity),
        ensures
            guard is Some <==> old(self).advisor.holder() is None,
            guard matches Some(g) ==> {
                &&& g.affinity == affinity
                &&& g.lock.advisor.holder() == Some(affinity)
                &&& g.lock.content == old(self).content
                &&& *final(self) == *final(g.lock)
            },
            guard is None ==> *final(self) == *old(self),
    {
        if self.advisor.lock(affinity) {
            Some(Guard { lock: self, affinity })
        } else {
            None
        }
    }
}

impl<'a, T> Guard<'a, T> {
    /// Whether the guard stands for a hold on its lock.
    pub open spec fn wf(&self) -> bool {
        self.lock.advisor.holder() == Some(self.affinity)
    }

    /// The content that the guard gives access to.
    pub open spec fn content(&self) -> T {
        self.lock.content
    }

    /// Shared access to the content.
    pub fn get(&self) -> (content: &T)
        ensures
            *content == self.content(),
    {
        &self.lock.content
    }

    /// Exclusive access to the content.
    pub fn get_mut(&mut self) -> (content: &mut T)
        ensures
            *content == old(self).lock.content,
            final(self).lock.content == *final(content),
            final(self).lock.advisor == old(self).lock.advisor,
            final(self).affinity == old(self).affinity,
            *final(final(self).lock) == *final(old(self).lock),
    {
        &mut self.lock.content
    }

    /// Releases the lock.
    pub fn release(self)
        requires
            self.wf(),
        ensures
            final(self.lock).advisor.holder() is None,
            final(self.lock).content == old(self.lock).content,
    {
        self.lock.advisor.unlock(self.affinity);
    }
}

} // verus!
