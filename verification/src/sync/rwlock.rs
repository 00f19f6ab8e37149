//! Read-write locking primitives.

use vstd::prelude::*;
use crate::cpu::COUNT;
use crate::sync::advisor::Advisor;

verus! {

/// Read-write lock.
pub struct RwLock<T> {
    /// Spin-lock.
    pub advisor: Advisor,
    /// Reader count.
    pub share_count: usize,
    /// Protected content.
    pub content: T,
}

/// Read grant on the lock.
pub struct ReadGuard<'a, T> {
    /// Lock to which this guard grants shared access to.
    pub lock: &'a mut RwLock<T>,
}

/// Write grant on the lock.
pub struct WriteGuard<'a, T> {
    /// Lock which this guard grants exclusive access to.
    pub lock: &'a mut RwLock<T>,
    /// The logical CPU that holds the lock.
    pub affinity: usize,
}

impl<T> RwLock<T> {
    /// Creates and initializes a new lock, which nobody holds or reads.
    pub fn new(content: T) -> (lock: RwLock<T>)
        ensures
            lock.advisor.holder() is None,
            lock.share_count == 0,
            lock.content == content,
    {
        RwLock { advisor: Advisor::new(), share_count: 0, content }
    }

    /// Attempts to lock access to the content non-exclusively for the
    /// logical CPU `affinity`.
    ///
    /// Returns a [`ReadGuard`] which allows shared access to the content and
    /// counts as a reader until released, or nothing while a logical CPU
    /// holds the lock. The lock itself is held only while the reader is
    /// counted.
    pub fn rlock(&mut self, affinity: usize) -> (guard: Option<ReadGuard<'_, T>>)
        requires
            affinity < COUNT,
            old(self).advisor.holder() != Some(affinity),
            old(self).share_count < usize::MAX,
        ensures
            guard is Some <==> old(self).advisor.holder() is None,
            guard matches Some(g) ==> {
                &&& g.lock.advisor.holder() is None
                &&& g.lock.share_count == old(self).share_count + 1
                &&& g.lock.content == old(self).content
                &&& *final(self) == *final(g.lock)
            },
            guard is None ==> *final(self) == *old(self),
    {
        if self.advisor.lock(affinity) {
            self.share_count = self.share_count + 1;
            self.advisor.unlock(affinity);
            Some(ReadGuard { lock: self })
        } else {
            None
        }
    }

    /// Attempts to lock access to the content exclusively for the logical
    /// CPU `affinity`.
    ///
    /// Returns a [`WriteGuard`] which allows exclusive access to the content
    /// and holds the lock until released, or nothing while the content has
    /// readers or another logical CPU holds the lock.
    pub fn wlock(&mut self, affinity: usize) -> (guard: Option<WriteGuard<'_, T>>)
        requires
            affinity < COUNT,
            old(self).advisor.holder() != Some(affinity),
        ensures
            guard is Some <==> old(self).share_count == 0 && old(self).advisor.holder() is None,
            guard matches Some(g) ==> {
                &&& g.affinity == affinity
                &&& g.lock.advisor.holder() == Some(affinity)
                &&& g.lock.share_count == 0
                &&& g.lock.content == old(self).content
                &&& *final(self) == *final(g.lock)
            },
            guard is None ==> *final(self) == *old(self),
    {
        if self.share_count != 0 {
            return None;
        }
        if self.advisor.lock(affinity) {
            Some(WriteGuard { lock: self, affinity })
        } else {
            None
        }
    }
}

impl<'a, T> ReadGuard<'a, T> {
    /// Whether the guard stands for a reader that its lock counts.
    pub open spec fn wf(&self) -> bool {
        self.lock.share_count > 0
    }

    /// The content that the guard gives access to.
    pub open spec fn content(&self) -> T {
        self.lock.content
    }

    /// Shared access to the content.
    pub fn get(&self) -> (content: &T)
        ensures
            *content == self.content(),
    {
        &self.lock.content
    }

    /// Gives the read grant back: the lock counts one reader less.
    pub fn release(self)
        requires
            self.wf(),
        ensures
            final(self.lock).share_count == old(self.lock).share_count - 1,
            final(self.lock).advisor == old(self.lock).advisor,
            final(self.lock).content == old(self.lock).content,
    {
        self.lock.share_count = self.lock.share_count - 1;
    }
}

impl<'a, T> WriteGuard<'a, T> {
    /// Whether the guard stands for a hold on its lock.
    pub open spec fn wf(&self) -> bool {
        self.lock.advisor.holder() == Some(self.affinity)
    }

    /// The content that the guard gives access to.
    pub open spec fn content(&self) -> T {
        self.lock.content
    }

    /// Shared access to the content.
    pub fn get(&self) -> (content: &T)
        ensures
            *content == self.content(),
    {
        &self.lock.content
    }

    /// Exclusive access to the content.
    pub fn get_mut(&mut self) -> (content: &mut T)
        ensures
            *content == old(self).lock.content,
            final(self).lock.content == *final(content),
            final(self).lock.advisor == old(self).lock.advisor,
            final(self).lock.share_count == old(self).lock.share_count,
            final(self).affinity == old(self).affinity,
            *final(final(self).lock) == *final(old(self).lock),
    {
        &mut self.lock.content
    }

    /// Releases the lock.
    pub fn release(self)
        requires
            self.wf(),
        ensures
            final(self.lock).advisor.holder() is None,
            final(self.lock).share_count == old(self.lock).share_count,
            final(self.lock).content == old(self.lock).content,
    {
        self.lock.advisor.unlock(self.affinity);
    }
}

} // verus!
