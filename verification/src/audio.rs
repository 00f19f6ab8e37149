//! Audio buffer swaps.

use vstd::prelude::*;
use crate::sched::chan::Polled;

verus! {

/// Future that that becomes ready at the next buffer swap.
#[derive(Debug)]
pub struct WillSwap {
    /// Time at which this future was created.
    time: u64,
}

impl WillSwap {
    /// Time at which this future was created.
    pub closed spec fn since(&self) -> u64 {
        self.time
    }

    /// Creates and initialize a new will swap future.
    ///
    /// * `time`: Time counter of the audio driver when this future was created.
    pub fn new(time: u64) -> (fut: WillSwap)
        ensures
            fut.since() == time,
    {
        WillSwap { time }
    }

    /// Polls the future: it is ready once the time counter of the audio
    /// driver has moved on, which it does at each buffer swap.
    ///
    /// * `time`: Time counter of the audio driver now.
    pub fn poll(&self, time: u64) -> (res: Polled<()>)
        ensures
            res is Ready <==> time != self.since(),
    {
        if time != self.time {
            return Polled::Ready(());
        }
        Polled::Pending
    }
}

} // verus!
