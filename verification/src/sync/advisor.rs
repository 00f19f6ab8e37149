//! Advisory spin-lock primitive.
//!
//! The core of all other locks, only acts as an advisor and doesn't actually
//! own any content.

use vstd::prelude::*;
use crate::cpu::COUNT;

verus! {

/// Lock advisor.
#[derive(Debug)]
pub struct Advisor {
    /// The logical CPU that currently holds the lock, or the number of
    /// logical CPUs while nobody holds it.
    affinity: usize,
}

impl Advisor {
    /// The logical CPU that holds the lock, if any does.
    pub closed spec fn holder(&self) -> Option<usize> {
        if self.affinity == COUNT {
            None
        } else {
            Some(self.affinity)
        }
    }

    /// Creates and initializes a new lock advisor, which nobody holds.
    pub fn new() -> (advisor: Advisor)
        ensures
            advisor.holder() is None,
    {
        Advisor { affinity: COUNT }
    }

    /// Attempts to place a hold on the lock for the logical CPU `affinity`.
    ///
    /// Returns whether the hold was placed; it is not while another logical
    /// CPU holds the lock, and the caller then tries again. A logical CPU
    /// that holds the lock must not ask for it again.
    pub fn lock(&mut self, affinity: usize) -> (taken: bool)
        requires
            affinity < COUNT,
            old(self).holder() != Some(affinity),
        ensures
            taken == (old(self).holder() is None),
            taken ==> final(self).holder() == Some(affinity),
            !taken ==> *final(self) == *old(self),
    {
        if self.affinity == COUNT {
            self.affinity = affinity;
            true
        } else {
            false
        }
    }

    /// Relinquishes the hold that the logical CPU `affinity` has on the lock.
    pub fn unlock(&mut self, affinity: usize)
        requires
            old(self).holder() == Some(affinity),
        ensures
            final(self).holder() is None,
    {
        self.affinity = COUNT;
    }

    /// Tells which logical CPU holds the lock, if any does.
    pub fn held_by(&self) -> (holder: Option<usize>)
        ensures
            holder == self.holder(),
    {
        if self.affinity == COUNT {
            None
        } else {
            Some(self.affinity)
        }
    }
}

} // verus!
