//! Address translation for the DMA controller.
//!
//! The DMA controller sees the memory of the system at other addresses than
//! the logical CPUs do. Four kinds of ranges are visible to it: the uncached
//! range, the cached range, the peripherals range and the stack of each
//! logical CPU.

use vstd::prelude::*;

verus! {

/// A range of addresses of the logical CPUs together with the address at
/// which the DMA controller sees its first byte.
pub struct Window {
    /// First address of the range.
    pub start: u64,
    /// First address past the range.
    pub end: u64,
    /// Address of the first byte from the perspective of the DMA controller.
    pub dma_start: u64,
}

/// Number of windows.
pub const WINDOWS: usize = 7;

/// The windows in the order in which they are tried: the uncached range,
/// the cached range, the peripherals range, and the stacks of the logical
/// CPUs zero to three.
pub open spec fn window(i: int) -> Window {
    if i == 0 {
        Window { start: 0x84000000, end: 0x85600000, dma_start: 0xC0200000 }
    } else if i == 1 {
        Window { start: 0x40000000, end: 0x7C000000, dma_start: 0xC2000000 }
    } else if i == 2 {
        Window { start: 0x80000000, end: 0x84000000, dma_start: 0x7C000000 }
    } else if i == 3 {
        Window { start: 0xFFE00000, end: 0x100000000, dma_start: 0xC1E00000 }
    } else if i == 4 {
        Window { start: 0xFFA00000, end: 0xFFC00000, dma_start: 0xC1C00000 }
    } else if i == 5 {
        Window { start: 0xFF600000, end: 0xFF800000, dma_start: 0xC1A00000 }
    } else {
        Window { start: 0xFF200000, end: 0xFF400000, dma_start: 0xC1800000 }
    }
}

/// Whether the address lies in the window.
pub open spec fn shows(w: Window, addr: u64) -> bool {
    w.start <= addr < w.end
}

/// Whether the DMA controller can access the address.
pub open spec fn visible(addr: u64) -> bool {
    exists|i: int| 0 <= i < WINDOWS && shows(#[trigger] window(i), addr)
}

/// The address as the DMA controller sees it: as far into the DMA range of
/// its window as it is into the window.
pub open spec fn translated(addr: u64) -> int {
    let i = choose|i: int| 0 <= i < WINDOWS && shows(#[trigger] window(i), addr);
    addr - window(i).start + window(i).dma_start
}

/// The window with the given index.
pub fn nth_window(i: usize) -> (w: Window)
    requires
        i < WINDOWS,
    ensures
        w == window(i as int),
{
    if i == 0 {
        Window { start: 0x84000000, end: 0x85600000, dma_start: 0xC0200000 }
    } else if i == 1 {
        Window { start: 0x40000000, end: 0x7C000000, dma_start: 0xC2000000 }
    } else if i == 2 {
        Window { start: 0x80000000, end: 0x84000000, dma_start: 0x7C000000 }
    } else if i == 3 {
        Window { start: 0xFFE00000, end: 0x100000000, dma_start: 0xC1E00000 }
    } else if i == 4 {
        Window { start: 0xFFA00000, end: 0xFFC00000, dma_start: 0xC1C00000 }
    } else if i == 5 {
        Window { start: 0xFF600000, end: 0xFF800000, dma_start: 0xC1A00000 }
    } else {
        Window { start: 0xFF200000, end: 0xFF400000, dma_start: 0xC1800000 }
    }
}

/// No address lies in two windows.
pub proof fn lemma_windows_apart(i: int, j: int, addr: u64)
    requires
        0 <= i < WINDOWS,
        0 <= j < WINDOWS,
        shows(window(i), addr),
        shows(window(j), addr),
    ensures
        i == j,
{
}

/// Tells whether the DMA controller can access the address.
pub fn is_visible(addr: u64) -> (ok: bool)
    ensures
        ok == visible(addr),
{
    let mut i: usize = 0;
    while i < WINDOWS
        invariant
            0 <= i <= WINDOWS,
            forall|k: int| 0 <= k < i ==> !shows(#[trigger] window(k), addr),
        decreases WINDOWS - i,
    {
        let w = nth_window(i);
        if w.start <= addr && addr < w.end {
            return true;
        }
        i = i + 1;
    }
    false
}

/// Converts the specified virtual address to a physical address from the
/// perspective of the DMA controller.
///
/// * `addr`: Address to convert, which the DMA controller can access.
///
/// Returns the converted address.
pub fn to_dma(addr: u64) -> (res: u64)
    requires
        visible(addr),
    ensures
        res == translated(addr),
{
    let ghost at = choose|i: int| 0 <= i < WINDOWS && shows(#[trigger] window(i), addr);
    let mut i: usize = 0;
    while i < WINDOWS
        invariant
            0 <= i <= WINDOWS,
            0 <= at < WINDOWS,
            shows(window(at), addr),
            at == choose|i: int| 0 <= i < WINDOWS && shows(#[trigger] window(i), addr),
            forall|k: int| 0 <= k < i ==> !shows(#[trigger] window(k), addr),
        decreases WINDOWS - i,
    {
        let w = nth_window(i);
        if w.start <= addr && addr < w.end {
            proof {
                lemma_windows_apart(i as int, at, addr);
            }
            return addr - w.start + w.dma_start;
        }
        i = i + 1;
    }
    proof {
        assert(!shows(window(at), addr));
    }
    0
}

} // verus!
