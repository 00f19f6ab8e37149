//! The allocator region: a range of addresses, the bytes behind it, and the
//! list of free fragments that is threaded through those bytes.

use vstd::prelude::*;
use crate::builtin::{memmove, shifted};
use crate::heap::chain::{
    chain_is, header_is, lemma_chain_kept, lemma_cut_chain, lemma_header_kept, lemma_moved,
    lemma_release_chain, linked, moved, with_pair,
};
use crate::heap::freelist::{
    Span, align_up, apart, base_of, block_in, block_is_live, covers, cut, first_fit, first_fit_from, fits,
    heads, in_header, lemma_align_up, lemma_covered_apart, lemma_cut_covers, lemma_cut_live,
    lemma_cut_ok, lemma_first_fit_from, lemma_header_apart, lemma_header_covered,
    lemma_neighbours,
    lemma_release_covers, lemma_release_headers, lemma_release_live, lemma_release_merged,
    lemma_merged_bounds, lemma_release_neighbours, lemma_release_ok, lemma_take_covered,
    lemma_trailing_header, list_ok, merged, next_of, place, release, slot, slot_from, take,
    trails_at, within,
};
use crate::heap::layout::{AllocError, Layout, align_addr, granules, lemma_aligned, raised};
use crate::heap::memory::{
    lemma_with_word_same, lemma_word_frame, load_word, store_word, with_word, word_at,
};
use crate::heap::request::{
    allocated, block_align, block_size, can_shift, deallocated, grew, made_of, relocated, shrank,
};

verus! {

/// Allocator region.
///
/// The bytes of the range are held in `memory`, the byte at address `a` at
/// index `a - start`. A free fragment keeps its size in its first eight bytes
/// and the address of the next fragment, or zero, in the eight bytes after.
pub struct Region {
    /// First address of the range.
    start: usize,
    /// First address past the range.
    end: usize,
    /// Address of the first free fragment, zero if there is none; `None`
    /// until the first allocation.
    head: Option<usize>,
    /// The bytes of the range.
    memory: Vec<u8>,
    /// The free fragments in address order.
    frags: Ghost<Seq<Span>>,
}

/// Whether `[start, end)` can be managed as a region: it is not empty, both
/// ends are multiples of the granule, address zero is not part of it, and no
/// address in it exceeds the largest object size.
pub open spec fn range_ok(start: int, end: int) -> bool {
    &&& 0 < start < end
    &&& start % 16 == 0
    &&& end % 16 == 0
    &&& end <= isize::MAX
}

/// The free list of a range that is free as a whole.
pub open spec fn whole(start: int, end: int) -> Seq<Span> {
    seq![Span { base: start, size: end - start }]
}

impl Region {
    /// First address of the range.
    pub closed spec fn lo(&self) -> int {
        self.start as int
    }

    /// First address past the range.
    pub closed spec fn hi(&self) -> int {
        self.end as int
    }

    /// Whether the region was allocated from before.
    pub closed spec fn initialized(&self) -> bool {
        self.head is Some
    }

    /// The free fragments in address order. A region that was never
    /// allocated from is free as a whole.
    pub closed spec fn free(&self) -> Seq<Span> {
        self.frags@
    }

    /// The byte at address `addr`.
    pub closed spec fn byte(&self, addr: int) -> u8 {
        self.memory@[addr - self.start]
    }

    /// Whether the fields agree with each other: the bytes cover the range,
    /// and the list threaded through them is the list of free fragments.
    pub closed spec fn repr(&self) -> bool {
        &&& range_ok(self.start as int, self.end as int)
        &&& self.memory@.len() == self.end - self.start
        &&& match self.head {
            None => self.frags@ == whole(self.start as int, self.end as int),
            Some(h) => h == base_of(self.frags@, 0) && chain_is(
                self.memory@,
                self.start as int,
                self.frags@,
            ),
        }
    }

    /// Whether the region is in a valid state: its representation is
    /// consistent and its free list is sorted by address, free of overlap
    /// and free of adjacent fragments.
    pub open spec fn wf(&self) -> bool {
        self.repr() && range_ok(self.lo(), self.hi()) && list_ok(self.free(), self.lo(), self.hi())
    }

    /// Whether `[addr, addr + size)` is a block handed out by this region:
    /// it lies in the range on granule boundaries and is clear of every free
    /// fragment.
    pub open spec fn holds_block(&self, addr: int, size: int) -> bool {
        &&& self.lo() <= addr
        &&& addr + size <= self.hi()
        &&& addr % 16 == 0
        &&& size % 16 == 0
        &&& size >= 16
        &&& block_is_live(self.free(), (Span { base: addr, size }))
    }

    /// Creates a region over `[start, end)`, free as a whole.
    pub fn new(start: usize, end: usize) -> (region: Region)
        requires
            range_ok(start as int, end as int),
        ensures
            region.wf(),
            !region.initialized(),
            region.lo() == start,
            region.hi() == end,
            region.free() == whole(start as int, end as int),
            forall|a: int| start <= a < end ==> #[trigger] region.byte(a) == 0xFF,
    {
        let len: usize = end - start;
        let memory: Vec<u8> = vec![0xFFu8; len];
        let frags: Ghost<Seq<Span>> = Ghost(whole(start as int, end as int));
        let region = Region { start, end, head: None, memory, frags };
        assert(region.frags@[0].base == start);
        region
    }

    /// Tells whether `[start, end)` can be managed as a region.
    pub fn valid_range(start: usize, end: usize) -> (ok: bool)
        ensures
            ok == range_ok(start as int, end as int),
    {
        0 < start && start < end && start % 16 == 0 && end % 16 == 0 && end <= isize::MAX as usize
    }

    /// First address of the range.
    pub fn start(&self) -> (a: usize)
        ensures
            a == self.lo(),
    {
        self.start
    }

    /// First address past the range.
    pub fn end(&self) -> (a: usize)
        ensures
            a == self.hi(),
    {
        self.end
    }

    /// Whether the bytes cover the range.
    spec fn shaped(&self) -> bool {
        range_ok(self.start as int, self.end as int) && self.memory@.len() == self.end - self.start
    }

    /// Reads the size that the header at `addr` holds.
    fn size_at(&self, addr: usize) -> (v: usize)
        requires
            self.shaped(),
            self.start <= addr,
            addr + 16 <= self.end,
            word_at(self.memory@, addr - self.start) <= usize::MAX,
        ensures
            v == word_at(self.memory@, addr - self.start),
    {
        load_word(&self.memory, addr - self.start) as usize
    }

    /// Reads the link that the header at `addr` holds.
    fn next_at(&self, addr: usize) -> (v: usize)
        requires
            self.shaped(),
            self.start <= addr,
            addr + 16 <= self.end,
            word_at(self.memory@, addr - self.start + 8) <= usize::MAX,
        ensures
            v == word_at(self.memory@, addr - self.start + 8),
    {
        load_word(&self.memory, addr - self.start + 8) as usize
    }

    /// Writes the size of the header at `addr`.
    fn put_size(&mut self, addr: usize, size: usize)
        requires
            old(self).shaped(),
            old(self).start <= addr,
            addr + 16 <= old(self).end,
        ensures
            final(self).memory@ == with_word(
                old(self).memory@,
                addr - old(self).start,
                size as int,
            ),
            final(self).memory@.len() == old(self).memory@.len(),
            word_at(final(self).memory@, addr - old(self).start) == size,
            final(self).start == old(self).start,
            final(self).end == old(self).end,
            final(self).head == old(self).head,
            final(self).frags == old(self).frags,
    {
        proof {
            lemma_with_word_same(self.memory@, addr - self.start, size as int);
        }
        store_word(&mut self.memory, addr - self.start, size as u64);
    }

    /// Writes the link of the header at `addr`.
    fn put_next(&mut self, addr: usize, next: usize)
        requires
            old(self).shaped(),
            old(self).start <= addr,
            addr + 16 <= old(self).end,
        ensures
            final(self).memory@ == with_word(
                old(self).memory@,
                addr - old(self).start + 8,
                next as int,
            ),
            final(self).memory@.len() == old(self).memory@.len(),
            word_at(final(self).memory@, addr - old(self).start + 8) == next,
            final(self).start == old(self).start,
            final(self).end == old(self).end,
            final(self).head == old(self).head,
            final(self).frags == old(self).frags,
    {
        proof {
            lemma_with_word_same(self.memory@, addr - self.start + 8, next as int);
        }
        store_word(&mut self.memory, addr - self.start + 8, next as u64);
    }

    /// Writes a whole header at `addr`.
    fn put_header(&mut self, addr: usize, size: usize, next: usize)
        requires
            old(self).shaped(),
            old(self).start <= addr,
            addr + 16 <= old(self).end,
        ensures
            final(self).memory@.len() == old(self).memory@.len(),
            header_is(
                final(self).memory@,
                old(self).start as int,
                addr as int,
                size as int,
                next as int,
            ),
            forall|j: int|
                0 <= j < old(self).memory@.len() && !(addr - old(self).start <= j < addr - old(
                    self,
                ).start + 16) ==> final(self).memory@[j] == old(self).memory@[j],
            final(self).start == old(self).start,
            final(self).end == old(self).end,
            final(self).head == old(self).head,
            final(self).frags == old(self).frags,
    {
        self.put_size(addr, size);
        let ghost mid = self.memory@;
        self.put_next(addr, next);
        proof {
            lemma_word_frame(mid, self.memory@, addr - self.start);
        }
    }

    /// Walks the list for the first fragment with room for a block of `size`
    /// bytes aligned to `align`. Returns the address of the fragment before
    /// it and its own, each zero if there is none, and its index.
    #[verifier::loop_isolation(false)]
    #[verifier::rlimit(30)]
    fn find_fit(&self, size: usize, align: usize) -> (found: (usize, usize, Ghost<int>))
        requires
            self.wf(),
            self.head is Some,
            0 < align <= isize::MAX + 1,
        ensures
            found.2@ == first_fit(self.frags@, size as int, align as int),
            0 <= found.2@ <= self.frags@.len(),
            found.1 == base_of(self.frags@, found.2@),
            found.0 == base_of(self.frags@, found.2@ - 1),
    {
        let ghost free = self.frags@;
        let mut current: usize = self.head.unwrap();
        let mut prev: usize = 0;
        let mut hit: bool = false;
        let ghost mut idx: int = 0;
        while current != 0 && !hit
            invariant
                0 <= idx <= free.len(),
                current == base_of(free, idx),
                prev == base_of(free, idx - 1),
                first_fit_from(free, idx, size as int, align as int) == first_fit(
                    free,
                    size as int,
                    align as int,
                ),
                hit ==> idx < free.len() && fits(free[idx], size as int, align as int),
            decreases free.len() - idx + (if hit { 0int } else { 1int }),
        {
            assert(idx < free.len());
            let ghost f = free[idx];
            assert(linked(self.memory@, self.start as int, free, idx));
            let fsize: usize = self.size_at(current);
            let base: usize = align_addr(current, align);
            let fend: usize = current + fsize;
            if base <= fend && fend - base >= size {
                hit = true;
            } else {
                proof {
                    if idx + 1 < free.len() {
                        assert(apart(free, idx, idx + 1));
                    }
                }
                prev = current;
                current = self.next_at(current);
                proof {
                    idx = idx + 1;
                }
            }
        }
        proof {
            if !hit {
                if idx < free.len() {
                    assert(free[idx].base >= self.start);
                }
                assert(idx == free.len());
            }
            lemma_first_fit_from(free, idx, size as int, align as int);
        }
        (prev, current, Ghost(idx))
    }

    /// Cuts the block `[base, base + size)` out of fragment `idx`, which
    /// starts at `current` and follows the fragment at `prev`.
    #[verifier::rlimit(40)]
    fn take_from(
        &mut self,
        prev: usize,
        current: usize,
        Ghost(idx): Ghost<int>,
        base: usize,
        size: usize,
    )
        requires
            old(self).wf(),
            old(self).head is Some,
            0 <= idx < old(self).frags@.len(),
            current == old(self).frags@[idx].base,
            prev == base_of(old(self).frags@, idx - 1),
            block_in(old(self).frags@[idx], base as int, size as int),
        ensures
            final(self).wf(),
            final(self).head is Some,
            final(self).start == old(self).start,
            final(self).end == old(self).end,
            final(self).frags@ == cut(old(self).frags@, idx, base as int, size as int),
            forall|a: int|
                old(self).start <= a < old(self).end && !in_header(old(self).frags@, a) && !(
                old(self).frags@[idx].base + old(self).frags@[idx].size > base + size && base + size
                    <= a < base + size + 16) ==> #[trigger] final(self).byte(a) == old(self).byte(a),
    {
        let ghost free = self.frags@;
        let ghost f = free[idx];
        let ghost m0 = self.memory@;
        let ghost lo = self.start as int;
        let ghost head0 = self.head->0;
        proof {
            lemma_neighbours(free, lo, self.end as int, idx);
            assert(linked(m0, lo, free, idx));
            if idx > 0 {
                assert(linked(m0, lo, free, idx - 1));
            }
        }
        let fsize: usize = self.size_at(current);
        let after: usize = self.next_at(current);
        let fend: usize = current + fsize;
        let top: usize = base + size;
        let mut link: usize = after;
        if top < fend {
            self.put_header(top, fend - top, after);
            link = top;
        }
        let ghost m1 = self.memory@;
        if base > current {
            self.put_header(current, base - current, link);
            proof {
                let m2 = self.memory@;
                if top < fend {
                    lemma_header_kept(m1, m2, lo, top as int, fend - top, after as int);
                }
                if idx > 0 {
                    let p = free[idx - 1];
                    lemma_header_kept(m0, m1, lo, p.base, p.size, current as int);
                    lemma_header_kept(m1, m2, lo, p.base, p.size, current as int);
                }
            }
        } else if prev != 0 {
            self.put_next(prev, link);
            proof {
                let m2 = self.memory@;
                lemma_word_frame(m0, m1, prev - lo);
                lemma_word_frame(m1, m2, prev - lo);
                if top < fend {
                    lemma_header_kept(m1, m2, lo, top as int, fend - top, after as int);
                }
            }
        } else {
            self.head = Some(link);
        }
        proof {
            self.frags@ = cut(free, idx, base as int, size as int);
            lemma_cut_ok(free, lo, self.end as int, idx, base as int, size as int);
            lemma_cut_chain(m0, self.memory@, lo, self.end as int, free, idx, base as int, size as int);
            assert forall|a: int|
                old(self).start <= a < old(self).end && !in_header(free, a) && !(f.base + f.size
                    > base + size && base + size <= a < base + size + 16) implies #[trigger] self.byte(
                a,
            ) == old(self).byte(a) by {
                assert(!heads(free[idx], a));
                if idx > 0 {
                    assert(!heads(free[idx - 1], a));
                }
            }
        }
    }

    /// Attempts to allocate memory with the specified layout.
    ///
    /// The size is rounded up to the granule and the alignment raised to it.
    /// The block is cut out of the first fragment, in address order, that has
    /// room for it, at the lowest address the alignment allows; what is left
    /// of the fragment below and above the block stays free. Where no
    /// fragment has room the request fails and the free list stays as it is.
    /// Only bytes in the first granule of a free fragment, or in the granule
    /// that follows the new block inside its fragment, are written.
    #[verifier::rlimit(30)]
    pub fn allocate(&mut self, layout: Layout) -> (res: Result<usize, AllocError>)
        requires
            old(self).wf(),
        ensures
            allocated(*old(self), *final(self), layout, res),
    {
        let size: usize = granules(layout.size());
        let align: usize = raised(layout.align());
        let res = self.obtain(size, align);
        proof {
            if let Ok(p) = res {
                lemma_aligned(p as int, layout.align());
                assert forall|a: int| p <= a < p + size implies #[trigger] covers(
                    old(self).frags@,
                    a,
                ) by {
                    lemma_take_covered(
                        old(self).frags@,
                        self.start as int,
                        self.end as int,
                        size as int,
                        align as int,
                        a,
                    );
                }
            }
        }
        res
    }

    /// Takes a block of `size` bytes aligned to `align` from the first
    /// fragment with room for it.
    #[verifier::rlimit(40)]
    fn obtain(&mut self, size: usize, align: usize) -> (res: Result<usize, AllocError>)
        requires
            old(self).wf(),
            size >= 16,
            size % 16 == 0,
            align % 16 == 0,
            0 < align <= isize::MAX + 1,
        ensures
            final(self).wf(),
            final(self).head is Some,
            final(self).start == old(self).start,
            final(self).end == old(self).end,
            res is Ok <==> first_fit(old(self).frags@, size as int, align as int) < old(
                self,
            ).frags@.len(),
            res matches Ok(p) ==> {
                &&& p == place(old(self).frags@, size as int, align as int)
                &&& final(self).frags@ == take(old(self).frags@, size as int, align as int)
                &&& p % align == 0
                &&& final(self).holds_block(p as int, size as int)
            },
            res is Err ==> final(self).frags@ == old(self).frags@,
            forall|a: int|
                old(self).start <= a < old(self).end && !in_header(old(self).frags@, a)
                    && !trails_at(old(self).frags@, size as int, align as int, a)
                    ==> #[trigger] final(self).byte(a) == old(self).byte(a),
    {
        let ghost free = self.frags@;
        self.materialize();
        let ghost mid = self.memory@;
        let (prev, current, Ghost(idx)) = self.find_fit(size, align);
        proof {
            lemma_first_fit_from(free, 0, size as int, align as int);
        }
        if current == 0 {
            proof {
                if idx < free.len() {
                    lemma_neighbours(free, self.start as int, self.end as int, idx);
                }
            }
            return Err(AllocError);
        }
        proof {
            lemma_align_up(free[idx].base, align as int);
            lemma_neighbours(free, self.start as int, self.end as int, idx);
        }
        let base: usize = align_addr(current, align);
        self.take_from(prev, current, Ghost(idx), base, size);
        proof {
            lemma_cut_ok(free, self.start as int, self.end as int, idx, base as int, size as int);
            assert forall|a: int|
                old(self).start <= a < old(self).end && !in_header(free, a) && !trails_at(
                    free,
                    size as int,
                    align as int,
                    a,
                ) implies #[trigger] self.byte(a) == old(self).byte(a) by {
                assert(self.byte(a) == mid[a - self.start]);
            }
        }
        Ok(base)
    }

    /// Threads the list through the bytes of a region that was never
    /// allocated from: one fragment that spans the range.
    #[verifier::rlimit(30)]
    fn materialize(&mut self)
        requires
            old(self).wf(),
        ensures
            final(self).wf(),
            final(self).head is Some,
            final(self).start == old(self).start,
            final(self).end == old(self).end,
            final(self).frags == old(self).frags,
            forall|a: int|
                old(self).start <= a < old(self).end && !in_header(old(self).frags@, a)
                    ==> #[trigger] final(self).memory@[a - old(self).start] == old(self).byte(a),
    {
        if self.head.is_none() {
            let ghost free = self.frags@;
            let whole_size: usize = self.end - self.start;
            let first: usize = self.start;
            self.put_header(first, whole_size, 0);
            self.head = Some(first);
            proof {
                assert(linked(self.memory@, self.start as int, free, 0));
                assert forall|a: int|
                    old(self).start <= a < old(self).end && !in_header(free, a) implies self.memory@[a
                        - old(self).start] == old(self).byte(a) by {
                    assert(!heads(free[0], a));
                }
            }
        }
    }

    /// Walks the list for the first fragment that starts at or above `addr`.
    /// Returns the address of the fragment before it and its own, each zero
    /// if there is none, and its index.
    #[verifier::loop_isolation(false)]
    #[verifier::rlimit(30)]
    fn find_slot(&self, addr: usize) -> (found: (usize, usize, Ghost<int>))
        requires
            self.wf(),
            self.head is Some,
        ensures
            found.2@ == slot(self.frags@, addr as int),
            0 <= found.2@ <= self.frags@.len(),
            found.1 == base_of(self.frags@, found.2@),
            found.0 == base_of(self.frags@, found.2@ - 1),
    {
        let ghost free = self.frags@;
        let mut next: usize = self.head.unwrap();
        let mut prev: usize = 0;
        let ghost mut idx: int = 0;
        while next != 0 && next < addr
            invariant
                0 <= idx <= free.len(),
                next == base_of(free, idx),
                prev == base_of(free, idx - 1),
                slot_from(free, idx, addr as int) == slot(free, addr as int),
            decreases free.len() - idx,
        {
            proof {
                lemma_neighbours(free, self.start as int, self.end as int, idx);
                assert(linked(self.memory@, self.start as int, free, idx));
            }
            prev = next;
            next = self.next_at(next);
            proof {
                idx = idx + 1;
            }
        }
        proof {
            if idx < free.len() {
                lemma_neighbours(free, self.start as int, self.end as int, idx);
            }
        }
        (prev, next, Ghost(idx))
    }

    /// Puts the block `[ptr, ptr + size)` back into the list.
    #[verifier::rlimit(40)]
    fn give_back(&mut self, ptr: usize, size: usize)
        requires
            old(self).wf(),
            old(self).head is Some,
            old(self).holds_block(ptr as int, size as int),
        ensures
            final(self).wf(),
            final(self).head is Some,
            final(self).start == old(self).start,
            final(self).end == old(self).end,
            final(self).frags@ == release(
                old(self).frags@,
                (Span { base: ptr as int, size: size as int }),
            ),
            forall|a: int|
                old(self).start <= a < old(self).end && !in_header(old(self).frags@, a) && !(ptr
                    <= a < ptr + 16) ==> #[trigger] final(self).byte(a) == old(self).byte(a),
    {
        let ghost free = self.frags@;
        let ghost m0 = self.memory@;
        let ghost lo = self.start as int;
        let ghost block = Span { base: ptr as int, size: size as int };
        let (prev, next, Ghost(idx)) = self.find_slot(ptr);
        proof {
            lemma_release_neighbours(free, lo, self.end as int, block);
            if idx > 0 {
                lemma_neighbours(free, lo, self.end as int, idx - 1);
                assert(linked(m0, lo, free, idx - 1));
            }
            if idx < free.len() {
                lemma_neighbours(free, lo, self.end as int, idx);
                assert(linked(m0, lo, free, idx));
            }
        }
        let top: usize = ptr + size;
        let mut csize: usize = size;
        let mut cnext: usize = next;
        if next != 0 && next == top {
            csize = size + self.size_at(next);
            cnext = self.next_at(next);
        }
        self.put_header(ptr, csize, cnext);
        let ghost m1 = self.memory@;
        if prev != 0 {
            proof {
                lemma_header_kept(
                    m0,
                    m1,
                    lo,
                    free[idx - 1].base,
                    free[idx - 1].size,
                    next_of(free, idx - 1),
                );
            }
            let psize: usize = self.size_at(prev);
            if prev + psize == ptr {
                self.put_header(prev, psize + csize, cnext);
            } else {
                self.put_next(prev, ptr);
                proof {
                    let m2 = self.memory@;
                    lemma_word_frame(m1, m2, prev - lo);
                    lemma_header_kept(m1, m2, lo, ptr as int, csize as int, cnext as int);
                }
            }
        } else {
            self.head = Some(ptr);
        }
        proof {
            self.frags@ = release(free, block);
            lemma_release_ok(free, lo, self.end as int, block);
            lemma_release_chain(m0, self.memory@, lo, self.end as int, free, block);
            assert forall|a: int|
                old(self).start <= a < old(self).end && !in_header(free, a) && !(ptr <= a < ptr
                    + 16) implies #[trigger] self.byte(a) == old(self).byte(a) by {
                if idx > 0 {
                    assert(!heads(free[idx - 1], a));
                }
            }
        }
    }

    /// Deallocates the block at `ptr` that was allocated with the specified
    /// layout.
    ///
    /// The block enters the free list in address order and is merged with
    /// the fragment that starts where it ends and with the fragment that
    /// ends where it starts. Only the first granule of the block and of free
    /// fragments is written.
    #[verifier::rlimit(30)]
    pub fn deallocate(&mut self, ptr: usize, layout: Layout)
        requires
            old(self).wf(),
            old(self).initialized(),
            old(self).holds_block(ptr as int, block_size(layout)),
        ensures
            deallocated(*old(self), *final(self), ptr, layout),
    {
        let size: usize = granules(layout.size());
        self.give_back(ptr, size);
    }

    /// Copies `len` bytes from address `src` to address `dst`; the two runs
    /// may overlap.
    fn move_bytes(&mut self, dst: usize, src: usize, len: usize)
        requires
            old(self).shaped(),
            old(self).start <= dst,
            dst + len <= old(self).end,
            old(self).start <= src,
            src + len <= old(self).end,
        ensures
            final(self).memory@ == shifted(
                old(self).memory@,
                dst - old(self).start,
                src - old(self).start,
                len as int,
            ),
            final(self).start == old(self).start,
            final(self).end == old(self).end,
            final(self).head == old(self).head,
            final(self).frags == old(self).frags,
    {
        memmove(&mut self.memory, dst - self.start, src - self.start, len);
    }

    /// Reads the two words of the granule at `addr`.
    fn load_pair(&self, addr: usize) -> (pair: (u64, u64))
        requires
            self.shaped(),
            self.start <= addr,
            addr + 16 <= self.end,
        ensures
            pair.0 == word_at(self.memory@, addr - self.start),
            pair.1 == word_at(self.memory@, addr - self.start + 8),
    {
        let a: u64 = load_word(&self.memory, addr - self.start);
        let b: u64 = load_word(&self.memory, addr - self.start + 8);
        (a, b)
    }

    /// Writes the two words of the granule at `addr`.
    fn store_pair(&mut self, addr: usize, a: u64, b: u64)
        requires
            old(self).shaped(),
            old(self).start <= addr,
            addr + 16 <= old(self).end,
        ensures
            final(self).memory@ == with_pair(
                old(self).memory@,
                addr - old(self).start,
                a as int,
                b as int,
            ),
            final(self).start == old(self).start,
            final(self).end == old(self).end,
            final(self).head == old(self).head,
            final(self).frags == old(self).frags,
    {
        store_word(&mut self.memory, addr - self.start, a);
        store_word(&mut self.memory, addr - self.start + 8, b);
    }

    /// Releases the block `[ptr, ptr + old_size)` and takes a block of `size`
    /// bytes aligned to `align` from the list that this forms, where the run
    /// of free bytes around the old block starts below it and has room.
    ///
    /// Of the bytes of the old block only the first granule is written, and
    /// the granule behind the new block where the new block is taken from
    /// that run, at `first`.
    #[verifier::rlimit(100)]
    fn reseat(
        &mut self,
        ptr: usize,
        old_size: usize,
        size: usize,
        align: usize,
        Ghost(first): Ghost<int>,
    ) -> (p: usize)
        requires
            old(self).wf(),
            old(self).head is Some,
            old(self).holds_block(ptr as int, old_size as int),
            size >= 16,
            size % 16 == 0,
            align % 16 == 0,
            0 < align <= isize::MAX + 1,
            can_shift(
                old(self).frags@,
                (Span { base: ptr as int, size: old_size as int }),
                size as int,
                align as int,
            ),
            first == align_up(
                merged(
                    old(self).frags@,
                    (Span { base: ptr as int, size: old_size as int }),
                ).base,
                align as int,
            ),
        ensures
            final(self).wf(),
            final(self).head is Some,
            final(self).start == old(self).start,
            final(self).end == old(self).end,
            p == place(
                release(old(self).frags@, (Span { base: ptr as int, size: old_size as int })),
                size as int,
                align as int,
            ),
            final(self).frags@ == take(
                release(old(self).frags@, (Span { base: ptr as int, size: old_size as int })),
                size as int,
                align as int,
            ),
            p % align == 0,
            final(self).holds_block(p as int, size as int),
            made_of(
                old(self).frags@,
                (Span { base: ptr as int, size: old_size as int }),
                p as int,
                size as int,
            ),
            forall|a: int|
                ptr + 16 <= a < ptr + old_size && !(first + size <= a < first + size + 16)
                    ==> #[trigger] final(self).byte(a) == old(self).byte(a),
            forall|a: int|
                old(self).start <= a < old(self).end && !covers(old(self).frags@, a) && !(ptr <= a
                    < ptr + old_size) ==> #[trigger] final(self).byte(a) == old(self).byte(a),
    {
        let ghost free = self.frags@;
        let ghost block = Span { base: ptr as int, size: old_size as int };
        let ghost lo = self.start as int;
        let ghost hi = self.end as int;
        let ghost f1 = release(free, block);
        self.give_back(ptr, old_size);
        let ghost s1 = *self;
        proof {
            lemma_release_merged(free, lo, hi, block);
            lemma_first_fit_from(f1, 0, size as int, align as int);
        }
        let res = self.obtain(size, align);
        let p: usize = match res {
            Ok(p) => p,
            Err(_) => 0,
        };
        proof {
            assert forall|a: int| p <= a < p + size implies #[trigger] covers(free, a) || within(
                block,
                a,
            ) by {
                lemma_take_covered(f1, lo, hi, size as int, align as int, a);
                lemma_release_covers(free, lo, hi, block, a);
            }
            assert forall|a: int|
                ptr + 16 <= a < ptr + old_size && !(first + size <= a < first + size
                    + 16) implies #[trigger] self.byte(a) == old(self).byte(a) by {
                if in_header(free, a) {
                    lemma_header_covered(free, lo, hi, a);
                    let w = choose|w: int| 0 <= w < free.len() && within(#[trigger] free[w], a);
                    assert(false);
                }
                assert(s1.byte(a) == old(self).byte(a));
                if in_header(f1, a) {
                    lemma_release_headers(free, lo, hi, block, a);
                    assert(false);
                }
                if trails_at(f1, size as int, align as int, a) {
                    lemma_trailing_header(free, lo, hi, block, size as int, align as int, a);
                    assert(false);
                }
            }
            assert forall|a: int|
                old(self).start <= a < old(self).end && !covers(free, a) && !(ptr <= a < ptr
                    + old_size) implies #[trigger] self.byte(a) == old(self).byte(a) by {
                if in_header(free, a) {
                    lemma_header_covered(free, lo, hi, a);
                }
                assert(s1.byte(a) == old(self).byte(a));
                lemma_release_covers(free, lo, hi, block, a);
                assert(!covers(f1, a));
                if in_header(f1, a) {
                    lemma_header_covered(f1, lo, hi, a);
                }
                lemma_take_covered(f1, lo, hi, size as int, align as int, a);
            }
        }
        p
    }

    /// Moves the block `[ptr, ptr + old_size)` into the run of free bytes
    /// that releasing it forms, which starts below it.
    ///
    /// Releasing the block writes a header on its first granule, and taking
    /// the new block may write the header of the fragment behind it on a
    /// later granule of the old block. Both granules are saved before, and
    /// written to their place in the new block after the `keep` first bytes
    /// were copied over.
    ///
    /// * `first`: Lowest address in the run that the alignment allows.
    #[verifier::rlimit(100)]
    fn shift(
        &mut self,
        ptr: usize,
        old_size: usize,
        size: usize,
        align: usize,
        keep: usize,
        first: usize,
    ) -> (p: usize)
        requires
            old(self).wf(),
            old(self).head is Some,
            old(self).holds_block(ptr as int, old_size as int),
            size >= 16,
            size % 16 == 0,
            align % 16 == 0,
            0 < align <= isize::MAX + 1,
            16 <= keep <= old_size,
            keep % 16 == 0,
            keep <= size,
            can_shift(
                old(self).frags@,
                (Span { base: ptr as int, size: old_size as int }),
                size as int,
                align as int,
            ),
            first == align_up(
                merged(
                    old(self).frags@,
                    (Span { base: ptr as int, size: old_size as int }),
                ).base,
                align as int,
            ),
        ensures
            final(self).wf(),
            final(self).head is Some,
            final(self).start == old(self).start,
            final(self).end == old(self).end,
            p == place(
                release(old(self).frags@, (Span { base: ptr as int, size: old_size as int })),
                size as int,
                align as int,
            ),
            final(self).frags@ == take(
                release(old(self).frags@, (Span { base: ptr as int, size: old_size as int })),
                size as int,
                align as int,
            ),
            p % align == 0,
            final(self).holds_block(p as int, size as int),
            made_of(
                old(self).frags@,
                (Span { base: ptr as int, size: old_size as int }),
                p as int,
                size as int,
            ),
            forall|j: int|
                0 <= j < keep ==> #[trigger] final(self).byte(p + j) == old(self).byte(ptr + j),
            forall|a: int|
                old(self).start <= a < old(self).end && !covers(old(self).frags@, a) && !(ptr <= a
                    < ptr + old_size) ==> #[trigger] final(self).byte(a) == old(self).byte(a),
    {
        let ghost free = self.frags@;
        let ghost block = Span { base: ptr as int, size: old_size as int };
        let ghost lo = self.start as int;
        let ghost hi = self.end as int;
        let ghost m0 = self.memory@;
        proof {
            lemma_merged_bounds(free, lo, hi, block);
            lemma_align_up(merged(free, block).base, align as int);
        }
        let saved = self.load_pair(ptr);
        // Where the new block ends if it is taken from the run.
        let top: usize = first + size;
        let behind: bool = ptr + 16 <= top && top < ptr + keep;
        let kept = if behind {
            self.load_pair(top)
        } else {
            (0, 0)
        };
        let p: usize = self.reseat(ptr, old_size, size, align, Ghost(first as int));
        let ghost s2 = *self;
        let ghost m2 = self.memory@;
        let ghost f2 = self.frags@;
        let offset: usize = if behind {
            top - ptr
        } else {
            0
        };
        let ghost d = offset as int;
        let ghost fresh = Span { base: p as int, size: size as int };
        self.carry(p, ptr, keep, saved, behind, offset, kept, Ghost(m0));
        let ghost m5 = self.memory@;
        proof {
            assert forall|a: int|
                (ptr - lo) + 16 <= a < (ptr - lo) + keep && !(behind && (ptr - lo) + d <= a < (ptr
                    - lo) + d + 16) implies #[trigger] m2[a] == m0[a] by {
                assert(s2.byte(a + lo) == old(self).byte(a + lo));
            }
            lemma_moved(m0, m2, p - lo, ptr - lo, keep as int, behind, d);
            // the list still stands in the bytes: only bytes of the new block changed
            assert forall|j: int| 0 <= j < m2.len() && in_header(f2, j + lo) implies #[trigger] m5[j]
                == m2[j] by {
                lemma_header_apart(f2, lo, hi, fresh, j + lo);
            }
            lemma_chain_kept(m2, m5, lo, hi, f2);
            assert forall|j: int| 0 <= j < keep implies #[trigger] self.byte(p + j) == old(
                self,
            ).byte(ptr + j) by {
                assert(m5[p + j - lo] == m0[(p + j - lo) - (p - lo) + (ptr - lo)]);
            }
            assert forall|a: int|
                old(self).start <= a < old(self).end && !covers(free, a) && !(ptr <= a < ptr
                    + old_size) implies #[trigger] self.byte(a) == old(self).byte(a) by {
                assert(s2.byte(a) == old(self).byte(a));
                assert(m5[a - lo] == m2[a - lo]);
            }
        }
        p
    }

    /// Copies the `keep` first bytes of the block at `ptr` to `p` and writes
    /// the granules that were saved of it to their place in the new block.
    ///
    /// * `saved`: The first granule of the block.
    /// * `behind`: Whether a second granule was saved.
    /// * `d`: Offset of the second granule in the block.
    /// * `kept`: The second granule.
    fn carry(
        &mut self,
        p: usize,
        ptr: usize,
        keep: usize,
        saved: (u64, u64),
        behind: bool,
        d: usize,
        kept: (u64, u64),
        Ghost(before): Ghost<Seq<u8>>,
    )
        requires
            old(self).shaped(),
            old(self).start <= p,
            p + keep <= old(self).end,
            old(self).start <= ptr,
            ptr + keep <= old(self).end,
            keep >= 16,
            behind ==> 16 <= d && d + 16 <= keep,
            saved.0 == word_at(before, ptr - old(self).start),
            saved.1 == word_at(before, ptr - old(self).start + 8),
            behind ==> kept.0 == word_at(before, ptr - old(self).start + d) && kept.1 == word_at(
                before,
                ptr - old(self).start + d + 8,
            ),
        ensures
            final(self).memory@ == moved(
                before,
                old(self).memory@,
                p - old(self).start,
                ptr - old(self).start,
                keep as int,
                behind,
                d as int,
            ),
            final(self).start == old(self).start,
            final(self).end == old(self).end,
            final(self).head == old(self).head,
            final(self).frags == old(self).frags,
    {
        self.move_bytes(p, ptr, keep);
        self.store_pair(p, saved.0, saved.1);
        if behind {
            self.store_pair(p + d, kept.0, kept.1);
        }
    }

    /// Moves the block `[ptr, ptr + old_size)` to a new block taken from the
    /// list as it stands: takes the new block, copies the `keep` first bytes
    /// over and releases the old block. Where no fragment has room for the new
    /// block nothing changes.
    #[verifier::rlimit(40)]
    fn copy_over(&mut self, ptr: usize, old_size: usize, size: usize, align: usize, keep: usize)
        -> (res: Result<usize, AllocError>)
        requires
            old(self).wf(),
            old(self).head is Some,
            old(self).holds_block(ptr as int, old_size as int),
            size >= 16,
            size % 16 == 0,
            align % 16 == 0,
            0 < align <= isize::MAX + 1,
            16 <= keep <= old_size,
            keep <= size,
        ensures
            final(self).wf(),
            final(self).head is Some,
            final(self).start == old(self).start,
            final(self).end == old(self).end,
            res is Ok <==> first_fit(old(self).frags@, size as int, align as int) < old(
                self,
            ).frags@.len(),
            res matches Ok(p) ==> {
                &&& p == place(old(self).frags@, size as int, align as int)
                &&& final(self).frags@ == release(
                    take(old(self).frags@, size as int, align as int),
                    (Span { base: ptr as int, size: old_size as int }),
                )
                &&& p % align == 0
                &&& final(self).holds_block(p as int, size as int)
                &&& made_of(
                    old(self).frags@,
                    (Span { base: ptr as int, size: old_size as int }),
                    p as int,
                    size as int,
                )
                &&& forall|j: int|
                    0 <= j < keep ==> #[trigger] final(self).byte(p + j) == old(self).byte(ptr + j)
            },
            res is Err ==> final(self).frags@ == old(self).frags@,
            forall|a: int|
                old(self).start <= a < old(self).end && !covers(old(self).frags@, a) && (res is Ok
                    ==> !(ptr <= a < ptr + old_size)) ==> #[trigger] final(self).byte(a) == old(
                    self,
                ).byte(a),
    {
        let ghost free = self.frags@;
        let ghost block = Span { base: ptr as int, size: old_size as int };
        let ghost lo = self.start as int;
        let ghost hi = self.end as int;
        let ghost m0 = self.memory@;
        let res = self.obtain(size, align);
        let ghost s1 = *self;
        let ghost m1 = self.memory@;
        let ghost f1 = self.frags@;
        let p: usize = match res {
            Ok(p) => p,
            Err(_) => {
                proof {
                    assert forall|a: int|
                        old(self).start <= a < old(self).end && !covers(
                            free,
                            a,
                        ) implies #[trigger] self.byte(a) == old(self).byte(a) by {
                        if in_header(free, a) {
                            lemma_header_covered(free, lo, hi, a);
                        }
                    }
                }
                return Err(AllocError);
            },
        };
        let ghost idx = first_fit(free, size as int, align as int);
        let ghost fresh = Span { base: p as int, size: size as int };
        proof {
            lemma_first_fit_from(free, 0, size as int, align as int);
            lemma_align_up(free[idx].base, align as int);
            lemma_neighbours(free, lo, hi, idx);
            lemma_cut_live(free, lo, hi, idx, p as int, size as int, block);
            lemma_covered_apart(free, fresh, free[idx], block);
            assert forall|a: int| p <= a < p + size implies #[trigger] covers(free, a) || within(
                block,
                a,
            ) by {
                lemma_take_covered(free, lo, hi, size as int, align as int, a);
            }
        }
        self.move_bytes(p, ptr, keep);
        let ghost m2 = self.memory@;
        proof {
            assert forall|j: int| 0 <= j < m1.len() && in_header(f1, j + lo) implies #[trigger] m2[j]
                == m1[j] by {
                lemma_header_covered(f1, lo, hi, j + lo);
                let w = choose|w: int| 0 <= w < f1.len() && within(#[trigger] f1[w], j + lo);
                assert(f1[w].base + f1[w].size <= p || p + size <= f1[w].base);
            }
            lemma_chain_kept(m1, m2, lo, hi, f1);
        }
        let ghost s2 = *self;
        self.give_back(ptr, old_size);
        proof {
            lemma_release_live(f1, lo, hi, block, fresh);
            assert forall|j: int| 0 <= j < keep implies #[trigger] self.byte(p + j) == old(
                self,
            ).byte(ptr + j) by {
                let a = ptr + j;
                if in_header(free, a) {
                    lemma_header_covered(free, lo, hi, a);
                    let w = choose|w: int| 0 <= w < free.len() && within(#[trigger] free[w], a);
                    assert(false);
                }
                lemma_take_covered(free, lo, hi, size as int, align as int, a);
                if covers(free, a) {
                    let w = choose|w: int| 0 <= w < free.len() && within(#[trigger] free[w], a);
                    assert(false);
                }
                assert(s1.byte(a) == old(self).byte(a));
                assert(m2[p + j - lo] == m1[a - lo]);
                if in_header(f1, p + j) {
                    lemma_header_covered(f1, lo, hi, p + j);
                    let w = choose|w: int| 0 <= w < f1.len() && within(#[trigger] f1[w], p + j);
                    assert(f1[w].base + f1[w].size <= p || p + size <= f1[w].base);
                    assert(false);
                }
                assert(self.byte(p + j) == s2.byte(p + j));
            }
            assert forall|a: int|
                old(self).start <= a < old(self).end && !covers(free, a) && !(ptr <= a < ptr
                    + old_size) implies #[trigger] self.byte(a) == old(self).byte(a) by {
                if in_header(free, a) {
                    lemma_header_covered(free, lo, hi, a);
                }
                lemma_take_covered(free, lo, hi, size as int, align as int, a);
                assert(s1.byte(a) == old(self).byte(a));
                assert(m2[a - lo] == m1[a - lo]);
                lemma_cut_covers(free, lo, hi, idx, p as int, size as int, a);
                if in_header(f1, a) {
                    lemma_header_covered(f1, lo, hi, a);
                }
                assert(self.byte(a) == s2.byte(a));
            }
        }
        Ok(p)
    }

    /// A region that holds a block was allocated from.
    proof fn lemma_block_means_initialized(&self, addr: int, size: int)
        requires
            self.wf(),
            self.holds_block(addr, size),
        ensures
            self.head is Some,
    {
        if self.head is None {
            assert(self.frags@[0].base == self.start);
        }
    }

    /// Moves a block that cannot stay where it is: into the run of free
    /// bytes around it where that run starts below the block and has room,
    /// else to a new block.
    #[verifier::rlimit(40)]
    fn relocate(
        &mut self,
        ptr: usize,
        old_size: usize,
        size: usize,
        align: usize,
        keep: usize,
        prev: usize,
        next: usize,
    ) -> (res: Result<usize, AllocError>)
        requires
            old(self).wf(),
            old(self).head is Some,
            old(self).holds_block(ptr as int, old_size as int),
            size >= 16,
            size % 16 == 0,
            align % 16 == 0,
            0 < align <= isize::MAX + 1,
            16 <= keep <= old_size,
            keep % 16 == 0,
            keep <= size,
            next == base_of(old(self).frags@, slot(old(self).frags@, ptr as int)),
            prev == base_of(old(self).frags@, slot(old(self).frags@, ptr as int) - 1),
        ensures
            final(self).wf(),
            final(self).head is Some,
            final(self).start == old(self).start,
            final(self).end == old(self).end,
            res is Ok <==> relocated(
                old(self).frags@,
                (Span { base: ptr as int, size: old_size as int }),
                size as int,
                align as int,
            ).0 is Some,
            final(self).frags@ == relocated(
                old(self).frags@,
                (Span { base: ptr as int, size: old_size as int }),
                size as int,
                align as int,
            ).1,
            res matches Ok(p) ==> {
                &&& Some(p as int) == relocated(
                    old(self).frags@,
                    (Span { base: ptr as int, size: old_size as int }),
                    size as int,
                    align as int,
                ).0
                &&& p % align == 0
                &&& final(self).holds_block(p as int, size as int)
                &&& made_of(
                    old(self).frags@,
                    (Span { base: ptr as int, size: old_size as int }),
                    p as int,
                    size as int,
                )
                &&& forall|j: int|
                    0 <= j < keep ==> #[trigger] final(self).byte(p + j) == old(self).byte(ptr + j)
            },
            forall|a: int|
                old(self).start <= a < old(self).end && !covers(old(self).frags@, a) && (res is Ok
                    ==> !(ptr <= a < ptr + old_size)) ==> #[trigger] final(self).byte(a) == old(
                    self,
                ).byte(a),
    {
        let ghost free = self.frags@;
        let ghost block = Span { base: ptr as int, size: old_size as int };
        let ghost lo = self.start as int;
        let ghost hi = self.end as int;
        let ghost idx = slot(free, ptr as int);
        proof {
            lemma_release_neighbours(free, lo, hi, block);
            if idx > 0 {
                lemma_neighbours(free, lo, hi, idx - 1);
                assert(linked(self.memory@, lo, free, idx - 1));
            }
            if idx < free.len() {
                lemma_neighbours(free, lo, hi, idx);
                assert(linked(self.memory@, lo, free, idx));
            }
        }
        let top: usize = ptr + old_size;
        if prev != 0 {
            let psize: usize = self.size_at(prev);
            if prev + psize == ptr {
                let first: usize = align_addr(prev, align);
                let mut last: usize = top;
                if next != 0 && next == top {
                    last = top + self.size_at(next);
                }
                if first <= last && last - first >= size {
                    let p: usize = self.shift(ptr, old_size, size, align, keep, first);
                    return Ok(p);
                }
            }
        }
        self.copy_over(ptr, old_size, size, align, keep)
    }

    /// Attempts to grow the block at `ptr` from the old layout to the new.
    ///
    /// A new size below the old is refused. With the same size and alignment
    /// the block stays as it is. Else the block grows where it stands, if its
    /// address has the new alignment and the fragment behind it is long
    /// enough; else it moves into the run of free bytes around it, if that
    /// run starts below the block and has room; else it moves to a new block,
    /// and if no fragment has room for one the request fails and nothing
    /// changes. The bytes of the old block are the first bytes of the new
    /// one.
    #[verifier::rlimit(40)]
    pub fn grow(&mut self, ptr: usize, old_layout: Layout, new_layout: Layout) -> (res: Result<
        usize,
        AllocError,
    >)
        requires
            old(self).wf(),
            old(self).holds_block(ptr as int, block_size(old_layout)),
            (ptr as int) % block_align(old_layout) == 0,
        ensures
            grew(*old(self), *final(self), ptr, old_layout, new_layout, res),
    {
        let os: usize = granules(old_layout.size());
        let oa: usize = raised(old_layout.align());
        let ns: usize = granules(new_layout.size());
        let na: usize = raised(new_layout.align());
        let ghost free = self.frags@;
        let ghost block = Span { base: ptr as int, size: os as int };
        let ghost lo = self.start as int;
        let ghost hi = self.end as int;
        proof {
            self.lemma_block_means_initialized(ptr as int, os as int);
        }
        if ns < os {
            return Err(AllocError);
        }
        if ns == os && na == oa {
            proof {
                lemma_aligned(ptr as int, new_layout.align());
            }
            return Ok(ptr);
        }
        let (prev, next, Ghost(idx)) = self.find_slot(ptr);
        proof {
            lemma_release_neighbours(free, lo, hi, block);
            if idx < free.len() {
                lemma_neighbours(free, lo, hi, idx);
                assert(linked(self.memory@, lo, free, idx));
            }
        }
        let top: usize = ptr + os;
        if ptr % na == 0 && next != 0 && next == top {
            let nsize: usize = self.size_at(next);
            let extra: usize = ns - os;
            if extra <= nsize {
                if extra > 0 {
                    self.take_from(prev, next, Ghost(idx), top, extra);
                    proof {
                        let added = Span { base: top as int, size: extra as int };
                        lemma_cut_ok(free, lo, hi, idx, top as int, extra as int);
                        lemma_cut_live(free, lo, hi, idx, top as int, extra as int, block);
                        let r = self.frags@;
                        assert forall|k: int| 0 <= k < r.len() implies (#[trigger] r[k]).base
                            + r[k].size <= ptr || ptr + ns <= r[k].base by {
                            assert(r[k].base + r[k].size <= block.base || block.base + block.size
                                <= r[k].base);
                            assert(r[k].base + r[k].size <= added.base || added.base + added.size
                                <= r[k].base);
                        }
                    }
                }
                proof {
                    lemma_aligned(ptr as int, new_layout.align());
                    assert forall|a: int|
                        old(self).lo() <= a < old(self).hi() && !covers(
                            free,
                            a,
                        ) implies #[trigger] self.byte(a) == old(self).byte(a) by {
                        if in_header(free, a) {
                            lemma_header_covered(free, lo, hi, a);
                        }
                        if top <= a < top + nsize {
                            assert(within(free[idx], a));
                        }
                    }
                }
                return Ok(ptr);
            }
        }
        let res = self.relocate(ptr, os, ns, na, os, prev, next);
        proof {
            if let Ok(p) = res {
                lemma_aligned(p as int, new_layout.align());
            }
        }
        res
    }

    /// Attempts to shrink the block at `ptr` from the old layout to the new.
    ///
    /// A new size that is not below the old is refused. A block whose
    /// address has the new alignment stays, and its tail is released. Else
    /// the block moves as a growing block does. The first bytes of the old
    /// block, as many as the new block has, are the bytes of the new one.
    #[verifier::rlimit(40)]
    pub fn shrink(&mut self, ptr: usize, old_layout: Layout, new_layout: Layout) -> (res: Result<
        usize,
        AllocError,
    >)
        requires
            old(self).wf(),
            old(self).holds_block(ptr as int, block_size(old_layout)),
            (ptr as int) % block_align(old_layout) == 0,
        ensures
            shrank(*old(self), *final(self), ptr, old_layout, new_layout, res),
    {
        let os: usize = granules(old_layout.size());
        let ns: usize = granules(new_layout.size());
        let na: usize = raised(new_layout.align());
        let ghost free = self.frags@;
        let ghost block = Span { base: ptr as int, size: os as int };
        let ghost lo = self.start as int;
        let ghost hi = self.end as int;
        proof {
            self.lemma_block_means_initialized(ptr as int, os as int);
        }
        if ns >= os {
            return Err(AllocError);
        }
        if ptr % na == 0 {
            let ghost tail = Span { base: ptr + ns, size: os - ns };
            let ghost kept = Span { base: ptr as int, size: ns as int };
            proof {
                assert(block_is_live(free, tail)) by {
                    assert forall|k: int| 0 <= k < free.len() implies (#[trigger] free[k]).base
                        + free[k].size <= tail.base || tail.base + tail.size <= free[k].base by {
                        assert(free[k].base + free[k].size <= block.base || block.base + block.size
                            <= free[k].base);
                    }
                }
                assert(block_is_live(free, kept)) by {
                    assert forall|k: int| 0 <= k < free.len() implies (#[trigger] free[k]).base
                        + free[k].size <= kept.base || kept.base + kept.size <= free[k].base by {
                        assert(free[k].base + free[k].size <= block.base || block.base + block.size
                            <= free[k].base);
                    }
                }
                lemma_release_live(free, lo, hi, tail, kept);
            }
            self.give_back(ptr + ns, os - ns);
            proof {
                lemma_aligned(ptr as int, new_layout.align());
                assert forall|j: int| 0 <= j < ns implies #[trigger] self.byte(ptr + j) == old(
                    self,
                ).byte(ptr + j) by {
                    if in_header(free, ptr + j) {
                        lemma_header_covered(free, lo, hi, ptr + j);
                        let w = choose|w: int|
                            0 <= w < free.len() && within(#[trigger] free[w], ptr + j);
                        assert(false);
                    }
                }
                assert forall|a: int|
                    old(self).lo() <= a < old(self).hi() && !covers(free, a) && !(ptr <= a < ptr
                        + os) implies #[trigger] self.byte(a) == old(self).byte(a) by {
                    if in_header(free, a) {
                        lemma_header_covered(free, lo, hi, a);
                    }
                }
            }
            return Ok(ptr);
        }
        let (prev, next, Ghost(idx)) = self.find_slot(ptr);
        let res = self.relocate(ptr, os, ns, na, ns, prev, next);
        proof {
            if let Ok(p) = res {
                lemma_aligned(p as int, new_layout.align());
            }
        }
        res
    }

    /// Writes the byte at `addr`, which belongs to a block that was handed
    /// out.
    #[verifier::rlimit(30)]
    pub fn write(&mut self, addr: usize, val: u8)
        requires
            old(self).wf(),
            old(self).lo() <= addr < old(self).hi(),
            !covers(old(self).free(), addr as int),
        ensures
            final(self).wf(),
            final(self).initialized() == old(self).initialized(),
            final(self).lo() == old(self).lo(),
            final(self).hi() == old(self).hi(),
            final(self).free() == old(self).free(),
            final(self).byte(addr as int) == val,
            forall|a: int|
                old(self).lo() <= a < old(self).hi() && a != addr ==> #[trigger] final(self).byte(a)
                    == old(self).byte(a),
    {
        let ghost m0 = self.memory@;
        let off: usize = addr - self.start;
        self.memory[off] = val;
        proof {
            let lo = self.start as int;
            if self.head is Some {
                assert forall|j: int|
                    0 <= j < m0.len() && in_header(
                        self.frags@,
                        j + lo,
                    ) implies #[trigger] self.memory@[j] == m0[j] by {
                    lemma_header_covered(self.frags@, lo, self.end as int, j + lo);
                }
                lemma_chain_kept(m0, self.memory@, lo, self.end as int, self.frags@);
            }
        }
    }

    /// Lists the free fragments in address order, each by its address and
    /// its size.
    #[verifier::loop_isolation(false)]
    #[verifier::rlimit(30)]
    pub fn fragments(&self) -> (list: Vec<(usize, usize)>)
        requires
            self.wf(),
        ensures
            list@.len() == self.free().len(),
            forall|i: int|
                0 <= i < list@.len() ==> (#[trigger] list@[i]).0 == self.free()[i].base
                    && list@[i].1 == self.free()[i].size,
    {
        let mut list: Vec<(usize, usize)> = Vec::new();
        let ghost free = self.frags@;
        match self.head {
            None => {
                list.push((self.start, self.end - self.start));
            },
            Some(head) => {
                let mut current: usize = head;
                while current != 0
                    invariant
                        0 <= list@.len() <= free.len(),
                        current == base_of(free, list@.len() as int),
                        forall|i: int|
                            0 <= i < list@.len() ==> (#[trigger] list@[i]).0 == free[i].base
                                && list@[i].1 == free[i].size,
                    decreases free.len() - list@.len(),
                {
                    proof {
                        let idx = list@.len() as int;
                        lemma_neighbours(free, self.start as int, self.end as int, idx);
                        assert(linked(self.memory@, self.start as int, free, idx));
                    }
                    let size: usize = self.size_at(current);
                    list.push((current, size));
                    current = self.next_at(current);
                }
                proof {
                    let idx = list@.len() as int;
                    if idx < free.len() {
                        lemma_neighbours(free, self.start as int, self.end as int, idx);
                    }
                }
            },
        }
        list
    }

    /// Reads the byte at `addr`.
    pub fn read(&self, addr: usize) -> (val: u8)
        requires
            self.wf(),
            self.lo() <= addr < self.hi(),
        ensures
            val == self.byte(addr as int),
    {
        self.memory[addr - self.start]
    }
}

} // verus!
