//! Synchronization primitives, as the protocols they follow.

pub mod advisor;
pub mod lazy;
pub mod lock;
pub mod rwlock;
