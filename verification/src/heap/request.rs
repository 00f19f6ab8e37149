//! What the requests to a region give: where blocks are placed, what
//! becomes of the free list, and which bytes are written.

use vstd::prelude::*;
use crate::heap::freelist::{
    Span, align_up, apart, covers, cut, first_fit, fits, in_header, lemma_align_up,
    lemma_cut_release, lemma_first_fit_from, lemma_header_covered, lemma_neighbours,
    lemma_take_covered, list_ok, merged, place, raise_align, release, round_size, slot, take,
    trails_at, within,
};
use crate::heap::layout::{AllocError, Layout, layout_ok, lemma_power_of_two};
use crate::heap::region::Region;

verus! {

/// The size of the block that a request gets.
pub open spec fn block_size(layout: Layout) -> int {
    round_size(layout.size() as int)
}

/// The alignment of the block that a request gets.
pub open spec fn block_align(layout: Layout) -> int {
    raise_align(layout.align() as int)
}

/// Whether a block for the request has room in some fragment of the list.
pub open spec fn has_room(free: Seq<Span>, layout: Layout) -> bool {
    first_fit(free, block_size(layout), block_align(layout)) < free.len()
}

/// The address of the block that a request gets from the list.
pub open spec fn placed_at(free: Seq<Span>, layout: Layout) -> int {
    place(free, block_size(layout), block_align(layout))
}

/// The list after a request was served from it.
pub open spec fn after_allocate(free: Seq<Span>, layout: Layout) -> Seq<Span> {
    take(free, block_size(layout), block_align(layout))
}

/// Whether serving the request writes the header of a new fragment at `addr`.
pub open spec fn trails(free: Seq<Span>, layout: Layout, addr: int) -> bool {
    trails_at(free, block_size(layout), block_align(layout), addr)
}

/// Whether the fragment below the block ends where the block starts.
pub open spec fn joins_below(free: Seq<Span>, block: Span) -> bool {
    merged(free, block).base < block.base
}

/// Whether every byte of `[p, p + size)` belongs to the block or to a
/// fragment of the list: a block that is made of such bytes overlaps no
/// other block that was handed out.
pub open spec fn made_of(free: Seq<Span>, block: Span, p: int, size: int) -> bool {
    forall|a: int| p <= a < p + size ==> #[trigger] covers(free, a) || within(block, a)
}

/// Whether a block can be moved into the run of free bytes that releasing it
/// would form, when that run starts below it.
pub open spec fn can_shift(free: Seq<Span>, block: Span, size: int, align: int) -> bool {
    joins_below(free, block) && fits(merged(free, block), size, align)
}

/// Where a block that has to move is put, and the list after the move.
///
/// If the fragment below the block ends where the block starts, and the run
/// of free bytes that releasing the block forms has room for the new block,
/// the block is released and the new one taken from that list. Otherwise the
/// new block is taken first, if any fragment has room for it, and the old one
/// released after.
pub open spec fn relocated(free: Seq<Span>, block: Span, size: int, align: int) -> (
    Option<int>,
    Seq<Span>,
) {
    if can_shift(free, block, size, align) {
        (
            Some(place(release(free, block), size, align)),
            take(release(free, block), size, align),
        )
    } else if first_fit(free, size, align) < free.len() {
        (Some(place(free, size, align)), release(take(free, size, align), block))
    } else {
        (None, free)
    }
}

/// Whether a block can grow to `size` bytes where it stands: its address
/// has the alignment asked for, and the fragment that starts where the block
/// ends is long enough for the bytes that are added.
pub open spec fn can_extend(free: Seq<Span>, block: Span, size: int, align: int) -> bool {
    let i = slot(free, block.base);
    &&& block.base % align == 0
    &&& i < free.len()
    &&& free[i].base == block.base + block.size
    &&& size - block.size <= free[i].size
}

/// The list after a block grew to `size` bytes where it stands: the bytes
/// that were added are cut off the front of the fragment behind the block.
pub open spec fn extended(free: Seq<Span>, block: Span, size: int) -> Seq<Span> {
    if size == block.size {
        free
    } else {
        cut(free, slot(free, block.base), block.base + block.size, size - block.size)
    }
}

/// What growing a block to `size` bytes aligned to `align` gives: the
/// address of the block after it, if there is room, and the list.
pub open spec fn grown(free: Seq<Span>, block: Span, size: int, align: int) -> (
    Option<int>,
    Seq<Span>,
) {
    if can_extend(free, block, size, align) {
        (Some(block.base), extended(free, block, size))
    } else {
        relocated(free, block, size, align)
    }
}

/// What shrinking a block to `size` bytes aligned to `align` gives: the
/// address of the block after it, if there is room, and the list. A block
/// whose address has the alignment asked for stays, and its tail is released.
pub open spec fn shrunk(free: Seq<Span>, block: Span, size: int, align: int) -> (
    Option<int>,
    Seq<Span>,
) {
    if block.base % align == 0 {
        (
            Some(block.base),
            release(free, (Span { base: block.base + size, size: block.size - size })),
        )
    } else {
        relocated(free, block, size, align)
    }
}

/// Where `grow` puts a block at `ptr` with the old layout that is to have
/// the new layout, if it can, and the list it leaves. The new size must not
/// be below the old.
pub open spec fn grow_result(free: Seq<Span>, ptr: usize, old_layout: Layout, new_layout: Layout)
    -> (Option<int>, Seq<Span>) {
    let block = Span { base: ptr as int, size: block_size(old_layout) };
    if block_size(new_layout) == block_size(old_layout) && block_align(new_layout) == block_align(
        old_layout,
    ) {
        (Some(ptr as int), free)
    } else {
        grown(free, block, block_size(new_layout), block_align(new_layout))
    }
}

/// Where `shrink` puts a block at `ptr` with the old layout that is to have
/// the new layout, if it can, and the list it leaves. The new size must be
/// below the old.
pub open spec fn shrink_result(
    free: Seq<Span>,
    ptr: usize,
    old_layout: Layout,
    new_layout: Layout,
) -> (Option<int>, Seq<Span>) {
    let block = Span { base: ptr as int, size: block_size(old_layout) };
    shrunk(free, block, block_size(new_layout), block_align(new_layout))
}

/// What `allocate` does: how the region after the call and the result
/// relate to the region before it and the request.
///
/// The request succeeds exactly if some fragment has room for the block. The
/// block then stands at the lowest address that the alignment allows in the
/// first such fragment, and the pieces of that fragment around it stay free.
/// Every byte of the block was free before, so that the block overlaps no
/// block that was handed out earlier.
/// A request that fails leaves the free list as it is. Bytes outside the
/// first granule of a free fragment and outside the granule behind the new
/// block are never written.
pub open spec fn allocated(pre: Region, post: Region, layout: Layout, res: Result<usize, AllocError>)
    -> bool {
    &&& post.wf()
    &&& post.initialized()
    &&& post.lo() == pre.lo()
    &&& post.hi() == pre.hi()
    &&& res is Ok <==> has_room(pre.free(), layout)
    &&& res matches Ok(p) ==> {
        &&& p == placed_at(pre.free(), layout)
        &&& post.free() == after_allocate(pre.free(), layout)
        &&& p % layout.align() == 0
        &&& post.holds_block(p as int, block_size(layout))
        &&& forall|a: int| p <= a < p + block_size(layout) ==> #[trigger] covers(pre.free(), a)
    }
    &&& res is Err ==> post.free() == pre.free()
    &&& forall|a: int|
        pre.lo() <= a < pre.hi() && !in_header(pre.free(), a) && !trails(pre.free(), layout, a)
            ==> #[trigger] post.byte(a) == pre.byte(a)
}

/// What `deallocate` does: the block enters the free list in address order,
/// merged with the fragments that touch it, and only the first granule of the
/// block and of free fragments is written.
pub open spec fn deallocated(pre: Region, post: Region, ptr: usize, layout: Layout) -> bool {
    &&& post.wf()
    &&& post.initialized()
    &&& post.lo() == pre.lo()
    &&& post.hi() == pre.hi()
    &&& post.free() == release(pre.free(), (Span { base: ptr as int, size: block_size(layout) }))
    &&& forall|a: int|
        pre.lo() <= a < pre.hi() && !in_header(pre.free(), a) && !(ptr <= a < ptr + 16)
            ==> #[trigger] post.byte(a) == pre.byte(a)
}

/// What `grow` does.
///
/// A new size below the old fails and leaves the free list as it is. Else
/// the result and the list are those of `grow_result`. The block that is
/// returned has the new alignment and size, and its first bytes are the
/// bytes of the old block. Bytes
/// outside the old block and outside every free fragment are unchanged, and
/// so are those of the old block where the request fails.
pub open spec fn grew(
    pre: Region,
    post: Region,
    ptr: usize,
    old_layout: Layout,
    new_layout: Layout,
    res: Result<usize, AllocError>,
) -> bool {
    &&& post.wf()
    &&& post.initialized()
    &&& post.lo() == pre.lo()
    &&& post.hi() == pre.hi()
    &&& block_size(new_layout) < block_size(old_layout) ==> res is Err && post.free() == pre.free()
    &&& block_size(new_layout) >= block_size(old_layout) ==> {
        &&& res is Ok <==> grow_result(pre.free(), ptr, old_layout, new_layout).0 is Some
        &&& post.free() == grow_result(pre.free(), ptr, old_layout, new_layout).1
    }
    &&& res matches Ok(p) ==> {
        &&& Some(p as int) == grow_result(pre.free(), ptr, old_layout, new_layout).0
        &&& p % new_layout.align() == 0
        &&& post.holds_block(p as int, block_size(new_layout))
        &&& made_of(
            pre.free(),
            (Span { base: ptr as int, size: block_size(old_layout) }),
            p as int,
            block_size(new_layout),
        )
        &&& forall|j: int|
            0 <= j < block_size(old_layout) ==> #[trigger] post.byte(p + j) == pre.byte(ptr + j)
    }
    &&& forall|a: int|
        pre.lo() <= a < pre.hi() && !covers(pre.free(), a) && (res is Ok ==> !(ptr <= a < ptr
            + block_size(old_layout))) ==> #[trigger] post.byte(a) == pre.byte(a)
}

/// What `shrink` does.
///
/// A new size that is not below the old fails and leaves the free list as
/// it is. Else the result and the list are those of `shrink_result`. The
/// block that is returned has the new alignment and size, and its bytes are
/// the first bytes of the old block.
/// Bytes outside the old block and outside every free fragment are unchanged,
/// and so are those of the old block where the request fails.
pub open spec fn shrank(
    pre: Region,
    post: Region,
    ptr: usize,
    old_layout: Layout,
    new_layout: Layout,
    res: Result<usize, AllocError>,
) -> bool {
    &&& post.wf()
    &&& post.initialized()
    &&& post.lo() == pre.lo()
    &&& post.hi() == pre.hi()
    &&& block_size(new_layout) >= block_size(old_layout) ==> res is Err && post.free()
        == pre.free()
    &&& block_size(new_layout) < block_size(old_layout) ==> {
        &&& res is Ok <==> shrink_result(pre.free(), ptr, old_layout, new_layout).0 is Some
        &&& post.free() == shrink_result(pre.free(), ptr, old_layout, new_layout).1
    }
    &&& res matches Ok(p) ==> {
        &&& Some(p as int) == shrink_result(pre.free(), ptr, old_layout, new_layout).0
        &&& p % new_layout.align() == 0
        &&& post.holds_block(p as int, block_size(new_layout))
        &&& made_of(
            pre.free(),
            (Span { base: ptr as int, size: block_size(old_layout) }),
            p as int,
            block_size(new_layout),
        )
        &&& forall|j: int|
            0 <= j < block_size(new_layout) ==> #[trigger] post.byte(p + j) == pre.byte(ptr + j)
    }
    &&& forall|a: int|
        pre.lo() <= a < pre.hi() && !covers(pre.free(), a) && (res is Ok ==> !(ptr <= a < ptr
            + block_size(old_layout))) ==> #[trigger] post.byte(a) == pre.byte(a)
}

/// The fragments of a valid free list stand in address order, none overlaps
/// another, and between any two of them lies at least one byte that is not
/// free: two fragments that touch would have been merged.
pub proof fn lemma_sorted_and_coalesced(free: Seq<Span>, lo: int, hi: int, i: int, j: int)
    requires
        list_ok(free, lo, hi),
        0 <= i < j < free.len(),
    ensures
        free[i].base < free[j].base,
        free[i].base + free[i].size < free[j].base,
        !covers(free, free[i].base + free[i].size),
{
    assert(apart(free, i, j));
    lemma_neighbours(free, lo, hi, i);
    let gap = free[i].base + free[i].size;
    if covers(free, gap) {
        let k = choose|k: int| 0 <= k < free.len() && within(#[trigger] free[k], gap);
        if k < i {
            assert(apart(free, k, i));
        } else if k > i {
            assert(apart(free, i, k));
        }
    }
}

/// Allocating a block and deallocating it right after, with the same
/// layout, gives the free list back as it was before the allocation.
pub proof fn lemma_allocate_then_deallocate(free: Seq<Span>, lo: int, hi: int, layout: Layout)
    requires
        list_ok(free, lo, hi),
        lo >= 0,
        layout_ok(layout.size(), layout.align()),
        has_room(free, layout),
    ensures
        release(
            after_allocate(free, layout),
            (Span { base: placed_at(free, layout), size: block_size(layout) }),
        ) == free,
{
    let size = block_size(layout);
    let align = block_align(layout);
    let i = first_fit(free, size, align);
    lemma_power_of_two(layout.align());
    lemma_first_fit_from(free, 0, size, align);
    lemma_neighbours(free, lo, hi, i);
    lemma_align_up(free[i].base, align);
    lemma_cut_release(free, lo, hi, i, align_up(free[i].base, align), size);
}

/// A request that finds no room leaves every byte of every block that was
/// handed out as it is; one that is served writes only bytes that were free.
pub proof fn lemma_allocate_spares_blocks(
    pre: Region,
    post: Region,
    layout: Layout,
    res: Result<usize, AllocError>,
    addr: int,
)
    requires
        pre.wf(),
        layout_ok(layout.size(), layout.align()),
        allocated(pre, post, layout, res),
        pre.lo() <= addr < pre.hi(),
        !covers(pre.free(), addr),
    ensures
        post.byte(addr) == pre.byte(addr),
{
    let free = pre.free();
    if in_header(free, addr) {
        lemma_header_covered(free, pre.lo(), pre.hi(), addr);
    }
    if trails(free, layout, addr) {
        lemma_power_of_two(layout.align());
        lemma_take_covered(free, pre.lo(), pre.hi(), block_size(layout), block_align(layout), addr);
    }
}

/// Deallocating a block writes only bytes of that block and bytes that were
/// free.
pub proof fn lemma_deallocate_spares_blocks(
    pre: Region,
    post: Region,
    ptr: usize,
    layout: Layout,
    addr: int,
)
    requires
        pre.wf(),
        deallocated(pre, post, ptr, layout),
        pre.lo() <= addr < pre.hi(),
        !covers(pre.free(), addr),
        !(ptr <= addr < ptr + block_size(layout)),
    ensures
        post.byte(addr) == pre.byte(addr),
{
    let free = pre.free();
    if in_header(free, addr) {
        lemma_header_covered(free, pre.lo(), pre.hi(), addr);
    }
}

} // verus!
