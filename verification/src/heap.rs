//! First fit free list memory allocator.
//!
//! * [`layout`]: what is asked for, a size and an alignment.
//! * [`freelist`]: the free list as a sequence of spans, and what taking a
//!   block from it and releasing one into it mean.
//! * [`request`]: what each request to a region gives.
//! * [`memory`] and [`chain`]: how the list stands in the managed bytes.
//! * [`region`]: the region itself, with `allocate`, `deallocate`, `grow`
//!   and `shrink`.
//! * [`front`]: the front-end that takes the lock of a region for each call.

pub mod chain;
pub mod freelist;
pub mod front;
pub mod layout;
pub mod memory;
pub mod region;
pub mod request;
