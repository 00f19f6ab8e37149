//! Mini UART settings.
//!
//! Computes what the driver of the Mini UART writes to the registers of the
//! device and what it reads from them means.

use vstd::prelude::*;

verus! {

/// Clock of the Mini UART in Hz.
pub const CLOCK: u32 = 500000000;

/// BAUD rate of the line.
pub const BAUD: u32 = 115200;

/// Transmit FIFO full flag of the status register.
pub const FIFO_FULL: u32 = 0x20;

/// Mini UART driver.
#[derive(Debug)]
pub struct Uart {
    /// Private zero-sized type to prevent public initialization.
    _dummy: (),
}

impl Uart {
    /// Creates and initializes a new Mini UART driver instance.
    pub fn new() -> Uart {
        Uart { _dummy: () }
    }

    /// Computes the BAUD rate divisor for a clock and a BAUD rate: the
    /// clock is divided by eight times the divisor plus one.
    pub fn baud_divisor(clock: u32, baud: u32) -> (div: u32)
        requires
            baud > 0,
            clock / baud / 8 >= 1,
        ensures
            div == clock / baud / 8 - 1,
    {
        clock / baud / 8 - 1
    }

    /// Computes the function selection that gives GPIOs 14 and 15 their
    /// alternate function 5 and leaves the other GPIOs as they are.
    pub fn select_alt5(val: u32) -> (res: u32)
        ensures
            res == val & 0xFFFC0FFF | 0x12000,
    {
        val & 0xFFFC0FFF | 0x12000
    }

    /// Computes the pull state that gives GPIOs 14 and 15 neither pull-up
    /// nor pull-down and leaves the other GPIOs as they are.
    pub fn no_pull(val: u32) -> (res: u32)
        ensures
            res == val & 0xFFFFFF,
    {
        val & 0xFFFFFF
    }

    /// Tells whether the status of the device shows a full transmit FIFO, so
    /// that the next byte has to wait.
    pub fn is_full(status: u32) -> (full: bool)
        ensures
            full == (status & FIFO_FULL != 0),
    {
        status & 0x20 != 0
    }
}

} // verus!
