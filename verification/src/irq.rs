//! Interrupt controller bookkeeping.
//!
//! Keeps the handlers of the interrupts, and computes what is written to the
//! registers of the controller and what is read from them means.

use vstd::prelude::*;
use std::collections::BTreeMap;

verus! {

broadcast use vstd::std_specs::btree::group_btree_axioms;

/// Number of SPIs.
pub const SPI_COUNT: u32 = 192;

/// Total number of IRQs.
pub const IRQ_COUNT: u32 = 224;

/// Number of software generated interrupts.
pub const SGI_COUNT: u32 = 16;

/// IRQ driver.
pub struct Irq<H> {
    /// Registered handlers.
    handlers: BTreeMap<u32, H>,
}

/// The bit of an interrupt in its set enable register.
pub open spec fn enable_bit(irq: u32) -> u32 {
    1u32 << (irq & 0x1F)
}

/// What is written to the software generated interrupt register to raise
/// the interrupt on all logical CPUs.
pub open spec fn to_all(irq: u32) -> u32 {
    0xFF8000 | irq
}

/// What is written to the software generated interrupt register to raise
/// the interrupt on all logical CPUs but the one that writes.
pub open spec fn to_others(irq: u32) -> u32 {
    0x1008000 | irq
}

/// What is written to the software generated interrupt register to raise
/// the interrupt on the logical CPU that writes.
pub open spec fn to_caller(irq: u32) -> u32 {
    0x2008000 | irq
}

/// The interrupt that a value read from the acknowledge register stands
/// for, without the sender of a software generated interrupt.
pub open spec fn acknowledged(val: u32) -> u32 {
    val & 0x3FF
}

impl<H> Irq<H> {
    /// The registered handlers.
    pub closed spec fn handlers(&self) -> Map<u32, H> {
        self.handlers@
    }

    /// Creates and initializes a new interrupt controller driver, without
    /// handlers.
    pub fn new() -> (irq: Irq<H>)
        ensures
            irq.handlers() == Map::<u32, H>::empty(),
    {
        Irq { handlers: BTreeMap::new() }
    }

    /// Tells whether a handler is registered for the specified IRQ.
    pub fn is_registered(&self, irq: u32) -> (found: bool)
        ensures
            found == self.handlers().contains_key(irq),
    {
        self.handlers.contains_key(&irq)
    }

    /// Registers a handler to be called when the specified IRQ is triggered.
    ///
    /// * `irq`: IRQ to wait for, which has no handler yet.
    /// * `handler`: Handler function to register.
    ///
    /// Returns the index of the set enable register of the IRQ and the value
    /// to write to it.
    pub fn register(&mut self, irq: u32, handler: H) -> (enable: (usize, u32))
        requires
            irq < IRQ_COUNT,
            !old(self).handlers().contains_key(irq),
        ensures
            final(self).handlers() == old(self).handlers().insert(irq, handler),
            enable.0 == irq / 32,
            enable.1 == enable_bit(irq),
    {
        self.handlers.insert(irq, handler);
        assert(irq & 0x1F < 32) by (bit_vector);
        let val: u32 = 0x1u32 << (irq & 0x1F);
        assert(irq >> 5 == irq / 32) by (bit_vector);
        let idx: usize = (irq >> 5) as usize;
        (idx, val)
    }

    /// Computes the value that raises the specified software generated
    /// interrupt on all logical CPUs.
    pub fn notify_all(irq: u32) -> (val: u32)
        requires
            irq < SGI_COUNT,
        ensures
            val == to_all(irq),
    {
        0xFF8000 | irq
    }

    /// Computes the value that raises the specified software generated
    /// interrupt on all logical CPUs except the one that is calling.
    pub fn notify_others(irq: u32) -> (val: u32)
        requires
            irq < SGI_COUNT,
        ensures
            val == to_others(irq),
    {
        0x1008000 | irq
    }

    /// Computes the value that raises the specified software generated
    /// interrupt on the logical CPU that is calling.
    pub fn notify_self(irq: u32) -> (val: u32)
        requires
            irq < SGI_COUNT,
        ensures
            val == to_caller(irq),
    {
        0x2008000 | irq
    }

    /// Tells which IRQ a value read from the acknowledge register stands
    /// for, if any is pending.
    pub fn pending(val: u32) -> (irq: Option<u32>)
        ensures
            irq is Some <==> acknowledged(val) < IRQ_COUNT,
            irq matches Some(n) ==> n == acknowledged(val),
    {
        let irq: u32 = val & 0x3FF;
        if irq >= IRQ_COUNT {
            return None;
        }
        Some(irq)
    }
}

impl<H: Fn()> Irq<H> {
    /// Calls the handler of an IRQ that was received.
    ///
    /// * `irq`: The IRQ, for which a handler is registered.
    pub fn dispatch(&self, irq: u32)
        requires
            self.handlers().contains_key(irq),
            self.handlers()[irq].requires(()),
        ensures
            self.handlers()[irq].ensures((), ()),
    {
        match self.handlers.get(&irq) {
            Some(handler) => handler(),
            None => {},
        }
    }
}

} // verus!
