//! Verified core of a bare-metal runtime.
//!
//! The heart of the crate is [`heap`]: a first-fit, coalescing free-list
//! allocator whose bookkeeping lives in the memory that it manages. Around it
//! stand the locks of [`sync`], and the parts of the drivers and of the
//! scheduler that compute and decide: what is written to a register, which
//! timer is due, which task is polled next. Reading the clock, the registers
//! and the identity of the logical CPU is left to the caller, who hands the
//! values in.

pub mod audio;
pub mod builtin;
pub mod cpu;
pub mod dma;
pub mod heap;
pub mod irq;
pub mod math;
pub mod mbox;
pub mod pixvalve;
pub mod prim;
pub mod sched;
pub mod sync;
pub mod timer;
pub mod touch;
pub mod uart;
pub mod video;
