//! CPU-related utilities.

use vstd::prelude::*;

verus! {

/// Number of logical CPUs in the system.
pub const COUNT: usize = 4;

/// Size of a cache line.
pub const CACHELINE_SIZE: usize = 64;

/// The cache lines that hold an object, and how many bytes of the first and
/// of the last of them belong to other objects.
#[derive(Clone, Copy, Debug, PartialEq, Eq, Structural)]
pub struct Lines {
    /// Address of the first cache line.
    pub start: usize,
    /// Address past the last cache line.
    pub end: usize,
    /// Number of bytes of the first cache line below the object.
    pub below: usize,
    /// Number of bytes of the last cache line above the object.
    pub above: usize,
}

/// The cache lines that hold the object of `size` bytes at `addr`: from the
/// multiple of the cache line size at or below its first byte to the one at
/// or above the byte after its last.
pub open spec fn lines_of(addr: int, size: int) -> Lines {
    let start = addr / 64 * 64;
    let end = (addr + size + 63) / 64 * 64;
    Lines {
        start: start as usize,
        end: end as usize,
        below: (addr - start) as usize,
        above: (end - (addr + size)) as usize,
    }
}

/// Finds the cache lines that hold the object of `size` bytes at `addr`, so
/// that they can be cleaned or invalidated one by one. An empty object is
/// held by no cache line.
pub fn cache_lines(addr: usize, size: usize) -> (lines: Option<Lines>)
    requires
        addr + size + 63 <= usize::MAX,
    ensures
        lines is Some <==> size > 0,
        lines matches Some(l) ==> l == lines_of(addr as int, size as int) && l.start <= addr
            && addr + size <= l.end && l.below < 64 && l.above < 64,
{
    if size == 0 {
        return None;
    }
    let last: usize = addr + size + 63;
    let mask: usize = !63usize;
    let start: usize = addr & mask;
    let end: usize = last & mask;
    assert(addr & !63usize == addr / 64 * 64) by (bit_vector);
    assert(last & !63usize == last / 64 * 64) by (bit_vector);
    Some(Lines { start, end, below: addr - start, above: end - (addr + size) })
}

/// Load monitor.
///
/// Times are readings of the system clock in milliseconds, handed in by the
/// caller.
#[derive(Debug)]
pub struct Load {
    /// Last reset time.
    ref_time: u64,
    /// Total idle time since last reset.
    idle_time: u64,
}

impl Load {
    /// Time of the last reset.
    pub closed spec fn since(&self) -> u64 {
        self.ref_time
    }

    /// Idle time of all logical CPUs since the last reset.
    pub closed spec fn idle(&self) -> u64 {
        self.idle_time
    }

    /// Returns the time of the last reset.
    pub fn ref_time(&self) -> (time: u64)
        ensures
            time == self.since(),
    {
        self.ref_time
    }

    /// Returns the idle time of all logical CPUs since the last reset.
    pub fn idle_time(&self) -> (time: u64)
        ensures
            time == self.idle(),
    {
        self.idle_time
    }

    /// Creates and initializes a new load monitor.
    pub fn new() -> (load: Load)
        ensures
            load.since() == 0,
            load.idle() == 0,
    {
        Load { ref_time: 0, idle_time: 0 }
    }

    /// Registers the duration of a logical CPU's last idle period, which
    /// began at `time` and ends at `now`, ignoring any idle time before the
    /// last reset.
    pub fn idle_since(&mut self, now: u64, time: u64)
        requires
            time <= now,
            old(self).since() <= now,
            old(self).idle() + (now - time) <= u64::MAX,
        ensures
            final(self).since() == old(self).since(),
            final(self).idle() == old(self).idle() + if time >= old(self).since() {
                now - time
            } else {
                now - old(self).since()
            },
    {
        let whole: u64 = now - time;
        let counted: u64 = now - self.ref_time;
        let duration: u64 = if whole <= counted {
            whole
        } else {
            counted
        };
        self.idle_time = self.idle_time + duration;
    }

    /// Returns the amount of active and idle time of all logical CPUs at
    /// time `now`: together they are the time since the last reset, once for
    /// each logical CPU.
    pub fn report(&self, now: u64) -> (times: (u64, u64))
        requires
            self.since() <= now,
            (now - self.since()) * COUNT <= u64::MAX,
            self.idle() <= (now - self.since()) * COUNT,
        ensures
            times.1 == self.idle(),
            times.0 + times.1 == (now - self.since()) * COUNT,
    {
        let duration: u64 = (now - self.ref_time) * 4;
        let active: u64 = duration - self.idle_time;
        let idle: u64 = self.idle_time;
        (active, idle)
    }

    /// Resets the monitor at time `now`.
    pub fn reset(&mut self, now: u64)
        ensures
            final(self).since() == now,
            final(self).idle() == 0,
    {
        self.ref_time = now;
        self.idle_time = 0;
    }
}

} // verus!
