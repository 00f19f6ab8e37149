//! Video frames.

pub mod fb;

use vstd::prelude::*;
use crate::sched::chan::Polled;

verus! {

/// Future that becomes ready at the next vertical synchronization.
#[derive(Debug)]
pub struct VerticalSync {
    /// ID of the current frame when this future was created.
    count: u64,
}

impl VerticalSync {
    /// ID of the current frame when this future was created.
    pub closed spec fn since(&self) -> u64 {
        self.count
    }

    /// Creates and initializes a new vertical sync future.
    ///
    /// * `count`: Current frame.
    pub fn new(count: u64) -> (fut: VerticalSync)
        ensures
            fut.since() == count,
    {
        VerticalSync { count }
    }

    /// Polls the future: it is ready once the current frame is another than
    /// the one at which the future was created.
    ///
    /// * `count`: Current frame.
    pub fn poll(&self, count: u64) -> (res: Polled<()>)
        ensures
            res is Ready <==> count != self.since(),
    {
        if count != self.count {
            return Polled::Ready(());
        }
        Polled::Pending
    }
}

/// Whether a control word of the display list starts a plane with unity
/// scaling.
pub open spec fn is_unity(ctrl: u32) -> bool {
    (ctrl >> 15) & 0x1 != 0
}

/// Whether a control word of the display list ends the list.
pub open spec fn is_end(ctrl: u32) -> bool {
    ctrl >> 30 == 0x2
}

/// The number of words of the plane that a control word starts.
pub open spec fn plane_len(ctrl: u32) -> int {
    ((ctrl >> 24) & 0x3F) as int
}

/// Offset of the frame buffer pointer in a plane.
pub const POINTER_WORD: usize = 5;

/// Whether the plane that starts at word `at` of the display list has unity
/// scaling and shows one of the two frame buffers.
pub open spec fn shows_buffer(list: Seq<u32>, at: int, cfb: u32, ofb: u32) -> bool {
    &&& is_unity(list[at])
    &&& at + POINTER_WORD < list.len()
    &&& (list[at + POINTER_WORD as int] == cfb || list[at + POINTER_WORD as int] == ofb)
}

/// Index of the frame buffer pointer of the first plane from word `at` on
/// that has unity scaling and shows one of the two frame buffers, if the
/// display list has one before its end.
pub open spec fn pointer_from(list: Seq<u32>, at: int, cfb: u32, ofb: u32) -> Option<int>
    decreases list.len() - at,
{
    if at < 0 || at >= list.len() {
        None
    } else if shows_buffer(list, at, cfb, ofb) {
        Some(at + POINTER_WORD)
    } else if is_end(list[at]) || plane_len(list[at]) == 0 || at + plane_len(list[at])
        >= list.len() {
        None
    } else {
        pointer_from(list, at + plane_len(list[at]), cfb, ofb)
    }
}

/// Looks through the display list for the frame buffer pointer to update
/// when the frame buffers are flipped.
///
/// * `list`: The display list.
/// * `start`: Index of the word at which the first plane starts.
/// * `cfb`: Pointer to the frame buffer that is shown.
/// * `ofb`: Pointer to the frame buffer that is to be shown.
///
/// Returns the index of the pointer, or nothing if the list ends, or leaves
/// its buffer, before a plane with one of the two pointers is found.
#[verifier::rlimit(30)]
pub fn find_pointer(list: &Vec<u32>, start: usize, cfb: u32, ofb: u32) -> (found: Option<usize>)
    ensures
        found is Some <==> pointer_from(list@, start as int, cfb, ofb) is Some,
        found matches Some(idx) ==> pointer_from(list@, start as int, cfb, ofb) == Some(idx as int),
{
    let mut idx: usize = start;
    while idx < list.len()
        invariant
            pointer_from(list@, idx as int, cfb, ofb) == pointer_from(list@, start as int, cfb, ofb),
        decreases list@.len() - idx,
    {
        let ctrl: u32 = list[idx];
        // Look for a plane with unity scaling.
        if (ctrl >> 15) & 0x1 != 0 && list.len() - idx > 5 {
            // Check whether this plane contains one of our frame buffers.
            let fb: u32 = list[idx + 5];
            if fb == cfb || fb == ofb {
                return Some(idx + 5);
            }
        }
        // Check whether this is an end control word.
        if ctrl >> 30 == 0x2 {
            return None;
        }
        // Skip to the next plane.
        assert((ctrl >> 24) & 0x3F < 64) by (bit_vector);
        let len: usize = ((ctrl >> 24) & 0x3F) as usize;
        if len == 0 || len >= list.len() - idx {
            return None;
        }
        idx = idx + len;
    }
    None
}

} // verus!
