//! Free list allocator front-end.
//!
//! A front-end is bound to one region behind its lock and to a minimum
//! alignment. Each of its calls takes the lock for the calling logical CPU,
//! hands the request to the region and releases the lock again.

use vstd::prelude::*;
use crate::cpu::COUNT;
use crate::heap::layout::{AllocError, Layout, granules, layout_ok};
use crate::heap::region::Region;
use crate::heap::request::{allocated, block_align, block_size, deallocated, grew, shrank};
use crate::sync::lock::Lock;

verus! {

/// Valid alignment marker.
pub trait ValidAlign {

}

/// Free list allocator front-end.
pub struct Alloc<'a, const ALIGN: usize> where Self: ValidAlign {
    /// Allocator region.
    pub region: &'a mut Lock<Region>,
}

impl<'a> ValidAlign for Alloc<'a, 0x10> {

}

impl<'a> ValidAlign for Alloc<'a, 0x40> {

}

impl<'a> ValidAlign for Alloc<'a, 0x1000> {

}

impl<'a> ValidAlign for Alloc<'a, 0x200000> {

}

/// The larger of two alignments.
pub open spec fn larger(a: usize, b: usize) -> usize {
    if a >= b {
        a
    } else {
        b
    }
}

/// The result that an address from the global hook stands for: zero is a
/// failure.
pub open spec fn from_null(ptr: usize) -> Result<usize, AllocError> {
    if ptr == 0 {
        Err(AllocError)
    } else {
        Ok(ptr)
    }
}

/// The address in a result of the typed hook.
pub open spec fn address_of(res: Result<(usize, usize), AllocError>) -> Result<usize, AllocError> {
    match res {
        Ok(block) => Ok(block.0),
        Err(e) => Err(e),
    }
}

impl<'a, const ALIGN: usize> Alloc<'a, ALIGN> where Self: ValidAlign {
    /// Whether the front-end can serve a call: nobody holds the lock, and
    /// the region behind it is in a valid state.
    pub open spec fn ready(&self) -> bool {
        self.region.advisor.holder() is None && self.region.content.wf()
    }

    /// The region behind the lock.
    pub open spec fn target(&self) -> Region {
        self.region.content
    }

    /// Creates and initializes a new allocator front-end.
    ///
    /// * `region`: Memory region covered by this allocator.
    ///
    /// Returns the created allocator front-end.
    pub fn with_region(region: &'a mut Lock<Region>) -> (front: Self)
        ensures
            front.region.advisor == old(region).advisor,
            front.region.content == old(region).content,
            *final(region) == *final(front.region),
    {
        Alloc { region }
    }

    /// Takes the lock, allocates from the region and releases the lock.
    #[verifier::rlimit(30)]
    fn locked_allocate(&mut self, affinity: usize, layout: Layout) -> (res: Result<
        usize,
        AllocError,
    >)
        requires
            affinity < COUNT,
            old(self).ready(),
        ensures
            final(self).ready(),
            *final(final(self).region) == *final(old(self).region),
            allocated(old(self).target(), final(self).target(), layout, res),
    {
        match self.region.lock(affinity) {
            Some(mut guard) => {
                let region = guard.get_mut();
                let res = region.allocate(layout);
                guard.release();
                res
            },
            None => Err(AllocError),
        }
    }

    /// Takes the lock, deallocates from the region and releases the lock.
    #[verifier::rlimit(30)]
    fn locked_deallocate(&mut self, affinity: usize, ptr: usize, layout: Layout)
        requires
            affinity < COUNT,
            old(self).ready(),
            old(self).target().initialized(),
            old(self).target().holds_block(ptr as int, block_size(layout)),
        ensures
            final(self).ready(),
            *final(final(self).region) == *final(old(self).region),
            deallocated(old(self).target(), final(self).target(), ptr, layout),
    {
        match self.region.lock(affinity) {
            Some(mut guard) => {
                let region = guard.get_mut();
                region.deallocate(ptr, layout);
                guard.release();
            },
            None => {},
        }
    }

    /// Takes the lock, grows a block of the region and releases the lock.
    #[verifier::rlimit(30)]
    fn locked_grow(&mut self, affinity: usize, ptr: usize, old_layout: Layout, new_layout: Layout)
        -> (res: Result<usize, AllocError>)
        requires
            affinity < COUNT,
            old(self).ready(),
            old(self).target().holds_block(ptr as int, block_size(old_layout)),
            (ptr as int) % block_align(old_layout) == 0,
        ensures
            final(self).ready(),
            *final(final(self).region) == *final(old(self).region),
            grew(old(self).target(), final(self).target(), ptr, old_layout, new_layout, res),
    {
        match self.region.lock(affinity) {
            Some(mut guard) => {
                let region = guard.get_mut();
                let res = region.grow(ptr, old_layout, new_layout);
                guard.release();
                res
            },
            None => Err(AllocError),
        }
    }

    /// Takes the lock, shrinks a block of the region and releases the lock.
    #[verifier::rlimit(30)]
    fn locked_shrink(
        &mut self,
        affinity: usize,
        ptr: usize,
        old_layout: Layout,
        new_layout: Layout,
    ) -> (res: Result<usize, AllocError>)
        requires
            affinity < COUNT,
            old(self).ready(),
            old(self).target().holds_block(ptr as int, block_size(old_layout)),
            (ptr as int) % block_align(old_layout) == 0,
        ensures
            final(self).ready(),
            *final(final(self).region) == *final(old(self).region),
            shrank(old(self).target(), final(self).target(), ptr, old_layout, new_layout, res),
    {
        match self.region.lock(affinity) {
            Some(mut guard) => {
                let region = guard.get_mut();
                let res = region.shrink(ptr, old_layout, new_layout);
                guard.release();
                res
            },
            None => Err(AllocError),
        }
    }

    /// Forms the layout that the typed hook works with: the size as it was
    /// asked for, on the larger of the alignment asked for and the front-end's
    /// own.
    fn raise(layout: Layout) -> (raised: Layout)
        requires
            layout_ok(layout.size(), larger(ALIGN, layout.align())),
        ensures
            raised == Layout::of(layout.size(), larger(ALIGN, layout.align())),
    {
        let align: usize = if ALIGN >= layout.align() {
            ALIGN
        } else {
            layout.align()
        };
        match Layout::from_size_align(layout.size(), align) {
            Ok(raised) => raised,
            Err(_) => layout,
        }
    }

    /// Global hook: allocates a block with the specified layout on behalf
    /// of the logical CPU `affinity`. Returns its address, or zero if no
    /// fragment has room for it.
    pub fn global_alloc(&mut self, affinity: usize, layout: Layout) -> (ptr: usize)
        requires
            affinity < COUNT,
            old(self).ready(),
        ensures
            final(self).ready(),
            *final(final(self).region) == *final(old(self).region),
            allocated(old(self).target(), final(self).target(), layout, from_null(ptr)),
    {
        match self.locked_allocate(affinity, layout) {
            Ok(ptr) => ptr,
            Err(_) => 0,
        }
    }

    /// Global hook: deallocates the block at `ptr` with the specified
    /// layout on behalf of the logical CPU `affinity`.
    pub fn global_dealloc(&mut self, affinity: usize, ptr: usize, layout: Layout)
        requires
            affinity < COUNT,
            old(self).ready(),
            old(self).target().initialized(),
            old(self).target().holds_block(ptr as int, block_size(layout)),
        ensures
            final(self).ready(),
            *final(final(self).region) == *final(old(self).region),
            deallocated(old(self).target(), final(self).target(), ptr, layout),
    {
        self.locked_deallocate(affinity, ptr, layout);
    }

    /// Global hook: gives the block at `ptr` with the specified layout the
    /// size `new_size`, growing it if that is not below the old size and
    /// shrinking it else. Returns the address of the block after that, or
    /// zero if the request fails.
    #[verifier::rlimit(30)]
    pub fn global_realloc(
        &mut self,
        affinity: usize,
        ptr: usize,
        layout: Layout,
        new_size: usize,
    ) -> (res: usize)
        requires
            affinity < COUNT,
            old(self).ready(),
            old(self).target().holds_block(ptr as int, block_size(layout)),
            (ptr as int) % block_align(layout) == 0,
            layout_ok(new_size, layout.align()),
        ensures
            final(self).ready(),
            *final(final(self).region) == *final(old(self).region),
            new_size >= layout.size() ==> grew(
                old(self).target(),
                final(self).target(),
                ptr,
                layout,
                Layout::of(new_size, layout.align()),
                from_null(res),
            ),
            new_size < layout.size() ==> shrank(
                old(self).target(),
                final(self).target(),
                ptr,
                layout,
                Layout::of(new_size, layout.align()),
                from_null(res),
            ),
    {
        proof {
            Layout::lemma_of(new_size, layout.align());
        }
        let new_layout = match Layout::from_size_align(new_size, layout.align()) {
            Ok(l) => l,
            Err(_) => layout,
        };
        let res = if new_size >= layout.size() {
            self.locked_grow(affinity, ptr, layout, new_layout)
        } else {
            self.locked_shrink(affinity, ptr, layout, new_layout)
        };
        match res {
            Ok(p) => p,
            Err(_) => 0,
        }
    }

    /// Typed hook: allocates a block with the specified layout, on the
    /// front-end's alignment at least. Returns its address and its length.
    #[verifier::rlimit(30)]
    pub fn allocate(&mut self, affinity: usize, layout: Layout) -> (res: Result<
        (usize, usize),
        AllocError,
    >)
        requires
            affinity < COUNT,
            old(self).ready(),
            layout_ok(layout.size(), larger(ALIGN, layout.align())),
        ensures
            final(self).ready(),
            *final(final(self).region) == *final(old(self).region),
            allocated(
                old(self).target(),
                final(self).target(),
                Layout::of(layout.size(), larger(ALIGN, layout.align())),
                address_of(res),
            ),
            res matches Ok(block) ==> block.1 == block_size(layout),
    {
        proof {
            Layout::lemma_of(layout.size(), larger(ALIGN, layout.align()));
        }
        let raised = Self::raise(layout);
        match self.locked_allocate(affinity, raised) {
            Ok(ptr) => Ok((ptr, granules(raised.size()))),
            Err(e) => Err(e),
        }
    }

    /// Typed hook: deallocates the block at `ptr` with the specified layout.
    #[verifier::rlimit(30)]
    pub fn deallocate(&mut self, affinity: usize, ptr: usize, layout: Layout)
        requires
            affinity < COUNT,
            old(self).ready(),
            old(self).target().initialized(),
            old(self).target().holds_block(ptr as int, block_size(layout)),
            layout_ok(layout.size(), larger(ALIGN, layout.align())),
        ensures
            final(self).ready(),
            *final(final(self).region) == *final(old(self).region),
            deallocated(
                old(self).target(),
                final(self).target(),
                ptr,
                Layout::of(layout.size(), larger(ALIGN, layout.align())),
            ),
    {
        proof {
            Layout::lemma_of(layout.size(), larger(ALIGN, layout.align()));
        }
        let raised = Self::raise(layout);
        self.locked_deallocate(affinity, ptr, raised);
    }

    /// Typed hook: grows the block at `ptr` from the old layout to the new,
    /// each on the front-end's alignment at least. Returns the address of the
    /// block after that and its length.
    #[verifier::rlimit(30)]
    pub fn grow(&mut self, affinity: usize, ptr: usize, old_layout: Layout, new_layout: Layout) -> (res:
        Result<(usize, usize), AllocError>)
        requires
            affinity < COUNT,
            old(self).ready(),
            layout_ok(old_layout.size(), larger(ALIGN, old_layout.align())),
            layout_ok(new_layout.size(), larger(ALIGN, new_layout.align())),
            old(self).target().holds_block(ptr as int, block_size(old_layout)),
            (ptr as int) % block_align(
                Layout::of(old_layout.size(), larger(ALIGN, old_layout.align())),
            ) == 0,
        ensures
            final(self).ready(),
            *final(final(self).region) == *final(old(self).region),
            grew(
                old(self).target(),
                final(self).target(),
                ptr,
                Layout::of(old_layout.size(), larger(ALIGN, old_layout.align())),
                Layout::of(new_layout.size(), larger(ALIGN, new_layout.align())),
                address_of(res),
            ),
            res matches Ok(block) ==> block.1 == block_size(new_layout),
    {
        proof {
            Layout::lemma_of(old_layout.size(), larger(ALIGN, old_layout.align()));
            Layout::lemma_of(new_layout.size(), larger(ALIGN, new_layout.align()));
        }
        let old_raised = Self::raise(old_layout);
        let new_raised = Self::raise(new_layout);
        match self.locked_grow(affinity, ptr, old_raised, new_raised) {
            Ok(p) => Ok((p, granules(new_raised.size()))),
            Err(e) => Err(e),
        }
    }

    /// Typed hook: shrinks the block at `ptr` from the old layout to the
    /// new, each on the front-end's alignment at least. Returns the address of
    /// the block after that and its length.
    #[verifier::rlimit(30)]
    pub fn shrink(&mut self, affinity: usize, ptr: usize, old_layout: Layout, new_layout: Layout)
        -> (res: Result<(usize, usize), AllocError>)
        requires
            affinity < COUNT,
            old(self).ready(),
            layout_ok(old_layout.size(), larger(ALIGN, old_layout.align())),
            layout_ok(new_layout.size(), larger(ALIGN, new_layout.align())),
            old(self).target().holds_block(ptr as int, block_size(old_layout)),
            (ptr as int) % block_align(
                Layout::of(old_layout.size(), larger(ALIGN, old_layout.align())),
            ) == 0,
        ensures
            final(self).ready(),
            *final(final(self).region) == *final(old(self).region),
            shrank(
                old(self).target(),
                final(self).target(),
                ptr,
                Layout::of(old_layout.size(), larger(ALIGN, old_layout.align())),
                Layout::of(new_layout.size(), larger(ALIGN, new_layout.align())),
                address_of(res),
            ),
            res matches Ok(block) ==> block.1 == block_size(new_layout),
    {
        proof {
            Layout::lemma_of(old_layout.size(), larger(ALIGN, old_layout.align()));
            Layout::lemma_of(new_layout.size(), larger(ALIGN, new_layout.align()));
        }
        let old_raised = Self::raise(old_layout);
        let new_raised = Self::raise(new_layout);
        match self.locked_shrink(affinity, ptr, old_raised, new_raised) {
            Ok(p) => Ok((p, granules(new_raised.size()))),
            Err(e) => Err(e),
        }
    }
}

} // verus!
