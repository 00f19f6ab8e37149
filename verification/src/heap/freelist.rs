//! Mathematical model of the free list: a sequence of spans of free bytes,
//! and what allocating from it and releasing into it mean.

use vstd::prelude::*;
use vstd::arithmetic::div_mod::lemma_fundamental_div_mod;
use vstd::arithmetic::div_mod::lemma_mod_multiples_basic;
use vstd::arithmetic::mul::lemma_mul_is_associative;
use vstd::arithmetic::mul::lemma_mul_is_commutative;
use vstd::arithmetic::mul::lemma_mul_is_distributive_add;

verus! {

/// Granule of the allocator: every block and every fragment starts at a
/// multiple of it and is a multiple of it long.
pub const GRANULE: usize = 16;

/// A run of bytes, by the address of its first byte and its length.
pub struct Span {
    pub base: int,
    pub size: int,
}

/// The least address that is at or above `addr` and a multiple of `align`.
pub open spec fn align_up(addr: int, align: int) -> int {
    if addr % align == 0 {
        addr
    } else {
        addr + align - addr % align
    }
}

/// A requested size rounded up to the granule; an empty request takes one
/// granule.
pub open spec fn round_size(size: int) -> int {
    if size == 0 {
        16
    } else {
        (size + 15) / 16 * 16
    }
}

/// A requested alignment raised to the granule.
pub open spec fn raise_align(align: int) -> int {
    if align < 16 {
        16
    } else {
        align
    }
}

/// A valid free list inside `[lo, hi)`: every fragment lies in the range,
/// is granule-aligned and at least one granule long, and each fragment ends
/// strictly below the start of every later one, so that the list is sorted
/// by address, free of overlap and free of adjacent fragments.
pub open spec fn list_ok(free: Seq<Span>, lo: int, hi: int) -> bool {
    &&& forall|i: int|
        0 <= i < free.len() ==> {
            &&& lo <= (#[trigger] free[i]).base
            &&& free[i].base + free[i].size <= hi
            &&& free[i].size >= 16
            &&& free[i].base % 16 == 0
            &&& free[i].size % 16 == 0
        }
    &&& forall|i: int, j: int| 0 <= i < j < free.len() ==> #[trigger] apart(free, i, j)
}

/// Whether fragment `i` ends strictly below the start of fragment `j`.
pub open spec fn apart(free: Seq<Span>, i: int, j: int) -> bool {
    free[i].base + free[i].size < free[j].base
}

/// Whether the byte at `addr` belongs to one of the fragments.
pub open spec fn covers(free: Seq<Span>, addr: int) -> bool {
    exists|i: int| 0 <= i < free.len() && within(#[trigger] free[i], addr)
}

/// Whether the byte at `addr` belongs to the span.
pub open spec fn within(s: Span, addr: int) -> bool {
    s.base <= addr < s.base + s.size
}

/// Whether the byte at `addr` belongs to the first granule of the span, where
/// a fragment keeps its size and its link.
pub open spec fn heads(s: Span, addr: int) -> bool {
    s.base <= addr < s.base + 16
}

/// Whether the byte at `addr` belongs to the first granule of a fragment.
pub open spec fn in_header(free: Seq<Span>, addr: int) -> bool {
    exists|i: int| 0 <= i < free.len() && heads(#[trigger] free[i], addr)
}

/// Whether no byte of the block belongs to a fragment.
pub open spec fn block_is_live(free: Seq<Span>, block: Span) -> bool {
    forall|i: int|
        0 <= i < free.len() ==> (#[trigger] free[i]).base + free[i].size <= block.base
            || block.base + block.size <= free[i].base
}

/// Whether a block of `size` bytes aligned to `align` has room in the fragment.
pub open spec fn fits(f: Span, size: int, align: int) -> bool {
    align_up(f.base, align) + size <= f.base + f.size
}

/// Index of the first fragment at or after index `k` with room for the
/// block, or the length of the list if there is none.
pub open spec fn first_fit_from(free: Seq<Span>, k: int, size: int, align: int) -> int
    decreases free.len() - k,
{
    if k < 0 || k >= free.len() {
        free.len() as int
    } else if fits(free[k], size, align) {
        k
    } else {
        first_fit_from(free, k + 1, size, align)
    }
}

/// Index of the first fragment with room for the block, or the length of the
/// list if there is none.
pub open spec fn first_fit(free: Seq<Span>, size: int, align: int) -> int {
    first_fit_from(free, 0, size, align)
}

/// The list with the fragments from index `i` up to, not including, index
/// `j` replaced by `mid`.
#[verifier::opaque]
pub open spec fn splice(free: Seq<Span>, i: int, j: int, mid: Seq<Span>) -> Seq<Span> {
    free.subrange(0, i) + mid + free.subrange(j, free.len() as int)
}

/// Address of the fragment that follows fragment `i`, or zero after the last.
pub open spec fn next_of(free: Seq<Span>, i: int) -> int {
    if i + 1 < free.len() {
        free[i + 1].base
    } else {
        0
    }
}

/// Address of fragment `i`, or zero past the end of the list.
pub open spec fn base_of(free: Seq<Span>, i: int) -> int {
    if 0 <= i < free.len() {
        free[i].base
    } else {
        0
    }
}

/// The free list after the block `[base, base + size)` was cut out of
/// fragment `i`: what lies below the block stays a fragment, what lies above
/// it becomes one, and neither is kept if it is empty.
pub open spec fn cut(free: Seq<Span>, i: int, base: int, size: int) -> Seq<Span> {
    splice(free, i, i + 1, remains(free[i], base, size))
}

/// What is left of a fragment around a block cut out of it.
pub open spec fn remains(f: Span, base: int, size: int) -> Seq<Span> {
    let below = if base > f.base {
        seq![Span { base: f.base, size: base - f.base }]
    } else {
        Seq::<Span>::empty()
    };
    let above = if base + size < f.base + f.size {
        seq![Span { base: base + size, size: f.base + f.size - (base + size) }]
    } else {
        Seq::<Span>::empty()
    };
    below + above
}

/// The free list after a block of `size` bytes aligned to `align` was cut out
/// of fragment `i`, at the lowest address the alignment allows.
pub open spec fn carve(free: Seq<Span>, i: int, size: int, align: int) -> Seq<Span> {
    cut(free, i, align_up(free[i].base, align), size)
}

/// Index of the first fragment at or after index `k` that starts at or above
/// `addr`, or the length of the list if there is none.
pub open spec fn slot_from(free: Seq<Span>, k: int, addr: int) -> int
    decreases free.len() - k,
{
    if k < 0 || k >= free.len() {
        free.len() as int
    } else if free[k].base >= addr {
        k
    } else {
        slot_from(free, k + 1, addr)
    }
}

/// Index at which a block starting at `addr` enters the list.
pub open spec fn slot(free: Seq<Span>, addr: int) -> int {
    slot_from(free, 0, addr)
}

/// The free list after the block was given back: it enters the list in
/// address order and absorbs the fragment that starts where it ends and the
/// fragment that ends where it starts.
pub open spec fn release(free: Seq<Span>, block: Span) -> Seq<Span> {
    let i = slot(free, block.base);
    let joins_next = i < free.len() && free[i].base == block.base + block.size;
    let joins_prev = i > 0 && free[i - 1].base + free[i - 1].size == block.base;
    let lo = if joins_prev {
        free[i - 1].base
    } else {
        block.base
    };
    let hi = if joins_next {
        free[i].base + free[i].size
    } else {
        block.base + block.size
    };
    let kept_below = if joins_prev {
        i - 1
    } else {
        i
    };
    let kept_above = if joins_next {
        i + 1
    } else {
        i
    };
    splice(free, kept_below, kept_above, seq![Span { base: lo, size: hi - lo }])
}

/// The link that a released block, or the fragment that absorbs it, gets:
/// the fragment after the slot if the block joins the one at the slot, else
/// the fragment at the slot.
pub open spec fn link_after_release(free: Seq<Span>, block: Span) -> int {
    let i = slot(free, block.base);
    if i < free.len() && free[i].base == block.base + block.size {
        next_of(free, i)
    } else {
        base_of(free, i)
    }
}

/// The fragment that a released block becomes, with what it absorbed.
pub open spec fn merged(free: Seq<Span>, block: Span) -> Span {
    let i = slot(free, block.base);
    let lo = if i > 0 && free[i - 1].base + free[i - 1].size == block.base {
        free[i - 1].base
    } else {
        block.base
    };
    let hi = if i < free.len() && free[i].base == block.base + block.size {
        free[i].base + free[i].size
    } else {
        block.base + block.size
    };
    Span { base: lo, size: hi - lo }
}

/// The address of the block of `size` bytes aligned to `align` that the
/// list gives: the lowest address that the alignment allows in the first
/// fragment with room for it.
pub open spec fn place(free: Seq<Span>, size: int, align: int) -> int {
    align_up(free[first_fit(free, size, align)].base, align)
}

/// The list after a block of `size` bytes aligned to `align` was taken from
/// the first fragment with room for it.
pub open spec fn take(free: Seq<Span>, size: int, align: int) -> Seq<Span> {
    carve(free, first_fit(free, size, align), size, align)
}

/// Whether taking a block of `size` bytes aligned to `align` from the list
/// writes the header of a new fragment at `addr`: the block ends below the
/// end of the fragment it is cut from, and `addr` is one of the sixteen
/// bytes after the block.
pub open spec fn trails_at(free: Seq<Span>, size: int, align: int, addr: int) -> bool {
    let i = first_fit(free, size, align);
    let top = place(free, size, align) + size;
    i < free.len() && top < free[i].base + free[i].size && top <= addr < top + 16
}

/// `align_up` returns the least multiple of `align` that is not below `addr`;
/// it is a multiple of the granule when `align` is.
#[verifier::rlimit(30)]
pub proof fn lemma_align_up(addr: int, align: int)
    requires
        addr >= 0,
        align > 0,
    ensures
        addr <= align_up(addr, align) < addr + align,
        align_up(addr, align) % align == 0,
        align % 16 == 0 ==> align_up(addr, align) % 16 == 0,
{
    let r = align_up(addr, align);
    let q = addr / align;
    lemma_fundamental_div_mod(addr, align);
    let k = if addr % align == 0 {
        q
    } else {
        q + 1
    };
    assert(r == align * k) by {
        lemma_mul_is_distributive_add(align, q, 1);
    }
    lemma_mul_is_commutative(align, k);
    lemma_mod_multiples_basic(k, align);
    if align % 16 == 0 {
        let c = align / 16;
        lemma_fundamental_div_mod(align, 16);
        assert(align == 16 * c);
        lemma_mul_is_associative(16, c, k);
        assert(r == 16 * (c * k));
        lemma_mul_is_commutative(16, c * k);
        lemma_mod_multiples_basic(c * k, 16);
    }
}

/// Where each fragment of a spliced list comes from.
pub proof fn lemma_splice_index(free: Seq<Span>, i: int, j: int, mid: Seq<Span>)
    requires
        0 <= i <= j <= free.len(),
    ensures
        splice(free, i, j, mid).len() == i + mid.len() + (free.len() - j),
        forall|k: int| 0 <= k < i ==> #[trigger] splice(free, i, j, mid)[k] == free[k],
        forall|k: int|
            i <= k < i + mid.len() ==> #[trigger] splice(free, i, j, mid)[k] == mid[k - i],
        forall|k: int|
            i + mid.len() <= k < i + mid.len() + (free.len() - j) ==> #[trigger] splice(
                free,
                i,
                j,
                mid,
            )[k] == free[k - i - mid.len() + j],
{
    reveal(splice);
}

/// Splicing a valid list into a gap of a valid list gives a valid list,
/// provided the new fragments keep their distance from both neighbours.
#[verifier::rlimit(40)]
pub proof fn lemma_splice_ok(free: Seq<Span>, lo: int, hi: int, i: int, j: int, mid: Seq<Span>)
    requires
        list_ok(free, lo, hi),
        list_ok(mid, lo, hi),
        0 <= i <= j <= free.len(),
        i > 0 && mid.len() > 0 ==> free[i - 1].base + free[i - 1].size < mid[0].base,
        j < free.len() && mid.len() > 0 ==> mid.last().base + mid.last().size < free[j].base,
    ensures
        list_ok(splice(free, i, j, mid), lo, hi),
{
    let r = splice(free, i, j, mid);
    let n = mid.len() as int;
    lemma_splice_index(free, i, j, mid);
    assert forall|a: int, b: int| 0 <= a < b < r.len() implies #[trigger] apart(r, a, b) by {
        if b < i {
            assert(r[a] == free[a]);
            assert(r[b] == free[b]);
            assert(apart(free, a, b));
        } else if a >= i + n {
            assert(r[a] == free[a - i - n + j]);
            assert(r[b] == free[b - i - n + j]);
            assert(apart(free, a - i - n + j, b - i - n + j));
        } else if a < i && b >= i + n {
            assert(r[a] == free[a]);
            assert(r[b] == free[b - i - n + j]);
            assert(apart(free, a, b - i - n + j));
        } else if a < i {
            // b in mid
            assert(r[a] == free[a]);
            assert(r[b] == mid[b - i]);
            if a < i - 1 {
                assert(apart(free, a, i - 1));
            }
            if b - i > 0 {
                assert(apart(mid, 0, b - i));
            }
        } else if b >= i + n {
            // a in mid
            assert(r[a] == mid[a - i]);
            assert(r[b] == free[b - i - n + j]);
            if a - i < n - 1 {
                assert(apart(mid, a - i, n - 1));
            }
            if b - i - n + j > j {
                assert(apart(free, j, b - i - n + j));
            }
        } else {
            assert(r[a] == mid[a - i]);
            assert(r[b] == mid[b - i]);
            assert(apart(mid, a - i, b - i));
        }
    }
}

/// A byte is covered by a spliced list exactly if it is covered by one of
/// the fragments that were kept or by one of those that came in.
#[verifier::rlimit(30)]
pub proof fn lemma_splice_covers(free: Seq<Span>, i: int, j: int, mid: Seq<Span>, addr: int)
    requires
        0 <= i <= j <= free.len(),
    ensures
        covers(splice(free, i, j, mid), addr) <==> covers(free.subrange(0, i), addr) || covers(
            mid,
            addr,
        ) || covers(free.subrange(j, free.len() as int), addr),
{
    let r = splice(free, i, j, mid);
    let n = mid.len() as int;
    let left = free.subrange(0, i);
    let right = free.subrange(j, free.len() as int);
    lemma_splice_index(free, i, j, mid);
    if covers(r, addr) {
        let k = choose|k: int| 0 <= k < r.len() && within(#[trigger] r[k], addr);
        if k < i {
            assert(within(left[k], addr));
        } else if k < i + n {
            assert(within(mid[k - i], addr));
        } else {
            assert(within(right[k - i - n], addr));
        }
    }
    if covers(left, addr) {
        let k = choose|k: int| 0 <= k < left.len() && within(#[trigger] left[k], addr);
        assert(within(r[k], addr));
    }
    if covers(mid, addr) {
        let k = choose|k: int| 0 <= k < mid.len() && within(#[trigger] mid[k], addr);
        assert(within(r[k + i], addr));
    }
    if covers(right, addr) {
        let k = choose|k: int| 0 <= k < right.len() && within(#[trigger] right[k], addr);
        assert(r[k + i + n] == free[k + j]);
        assert(within(r[k + i + n], addr));
    }
}

/// What `slot_from` finds: every fragment from `k` up to the slot starts
/// below `addr`, and the fragment at the slot, if any, does not.
pub proof fn lemma_slot_from(free: Seq<Span>, k: int, addr: int)
    requires
        0 <= k <= free.len(),
    ensures
        k <= slot_from(free, k, addr) <= free.len(),
        forall|m: int| k <= m < slot_from(free, k, addr) ==> (#[trigger] free[m]).base < addr,
        slot_from(free, k, addr) < free.len() ==> free[slot_from(free, k, addr)].base >= addr,
    decreases free.len() - k,
{
    if k < free.len() && free[k].base < addr {
        lemma_slot_from(free, k + 1, addr);
    }
}

/// What `first_fit_from` finds: no fragment from `k` up to the result has
/// room for the block, and the fragment at the result, if any, has.
pub proof fn lemma_first_fit_from(free: Seq<Span>, k: int, size: int, align: int)
    requires
        0 <= k <= free.len(),
    ensures
        k <= first_fit_from(free, k, size, align) <= free.len(),
        forall|m: int|
            k <= m < first_fit_from(free, k, size, align) ==> !fits(
                #[trigger] free[m],
                size,
                align,
            ),
        first_fit_from(free, k, size, align) < free.len() ==> fits(
            free[first_fit_from(free, k, size, align)],
            size,
            align,
        ),
    decreases free.len() - k,
{
    if k < free.len() && !fits(free[k], size, align) {
        lemma_first_fit_from(free, k + 1, size, align);
    }
}

/// The slot of an address is the one index whose earlier fragments all start
/// below the address and whose fragment, if any, does not.
pub proof fn lemma_slot_unique(free: Seq<Span>, addr: int, s: int)
    requires
        0 <= s <= free.len(),
        forall|m: int| 0 <= m < s ==> (#[trigger] free[m]).base < addr,
        s < free.len() ==> free[s].base >= addr,
    ensures
        slot(free, addr) == s,
{
    lemma_slot_from(free, 0, addr);
    let t = slot(free, addr);
    if t < s {
        assert(free[t].base < addr);
    } else if t > s {
        assert(free[s].base < addr);
    }
}

/// Whether `[base, base + size)` is a granule-aligned block inside the span.
pub open spec fn block_in(f: Span, base: int, size: int) -> bool {
    &&& f.base <= base
    &&& base + size <= f.base + f.size
    &&& base % 16 == 0
    &&& size % 16 == 0
    &&& size >= 16
}

/// Cutting a block out of a fragment keeps the list valid and leaves the
/// block clear of every fragment.
#[verifier::rlimit(40)]
pub proof fn lemma_cut_ok(free: Seq<Span>, lo: int, hi: int, i: int, base: int, size: int)
    requires
        list_ok(free, lo, hi),
        0 <= i < free.len(),
        block_in(free[i], base, size),
    ensures
        list_ok(cut(free, i, base, size), lo, hi),
        block_is_live(cut(free, i, base, size), (Span { base, size })),
{
    let f = free[i];
    let block = Span { base, size };
    let mid = remains(f, base, size);
    let r = cut(free, i, base, size);
    let n = mid.len() as int;
    assert(list_ok(mid, lo, hi));
    if i > 0 {
        assert(apart(free, i - 1, i));
    }
    if i + 1 < free.len() {
        assert(apart(free, i, i + 1));
    }
    lemma_splice_ok(free, lo, hi, i, i + 1, mid);
    lemma_splice_index(free, i, i + 1, mid);
    assert forall|k: int| 0 <= k < r.len() implies (#[trigger] r[k]).base + r[k].size <= block.base
        || block.base + block.size <= r[k].base by {
        if k < i {
            assert(r[k] == free[k]);
            assert(apart(free, k, i));
        } else if k < i + n {
            assert(r[k] == mid[k - i]);
        } else {
            assert(r[k] == free[k - n + 1]);
            assert(apart(free, i, k - n + 1));
        }
    }
}

/// Cutting a block out of a fragment takes exactly the block's bytes out of
/// the free bytes.
#[verifier::rlimit(40)]
pub proof fn lemma_cut_covers(free: Seq<Span>, lo: int, hi: int, i: int, base: int, size: int, a: int)
    requires
        list_ok(free, lo, hi),
        0 <= i < free.len(),
        block_in(free[i], base, size),
    ensures
        covers(cut(free, i, base, size), a) <==> covers(free, a) && !within(
            (Span { base, size }),
            a,
        ),
{
    let f = free[i];
    let block = Span { base, size };
    let mid = remains(f, base, size);
    let n = mid.len() as int;
    lemma_splice_covers(free, i, i + 1, mid, a);
    let left = free.subrange(0, i);
    let right = free.subrange(i + 1, free.len() as int);
    if covers(left, a) {
        let k = choose|k: int| 0 <= k < left.len() && within(#[trigger] left[k], a);
        assert(within(free[k], a));
        assert(apart(free, k, i));
    }
    if covers(right, a) {
        let k = choose|k: int| 0 <= k < right.len() && within(#[trigger] right[k], a);
        assert(right[k] == free[k + i + 1]);
        assert(within(free[k + i + 1], a));
        assert(apart(free, i, k + i + 1));
    }
    if covers(mid, a) {
        let k = choose|k: int| 0 <= k < mid.len() && within(#[trigger] mid[k], a);
        assert(within(free[i], a));
    }
    if covers(free, a) && !within(block, a) {
        let k = choose|k: int| 0 <= k < free.len() && within(#[trigger] free[k], a);
        if k < i {
            assert(within(left[k], a));
        } else if k > i {
            assert(within(right[k - i - 1], a));
        } else if a < base {
            assert(within(mid[0], a));
        } else {
            assert(within(mid[n - 1], a));
        }
    }
}

/// Releasing a block right after it was cut out of a fragment gives the
/// list back as it was.
#[verifier::rlimit(40)]
pub proof fn lemma_cut_release(free: Seq<Span>, lo: int, hi: int, i: int, base: int, size: int)
    requires
        list_ok(free, lo, hi),
        0 <= i < free.len(),
        block_in(free[i], base, size),
    ensures
        release(cut(free, i, base, size), (Span { base, size })) == free,
{
    let f = free[i];
    let top = base + size;
    let block = Span { base, size };
    let mid = remains(f, base, size);
    let r = cut(free, i, base, size);
    let n = mid.len() as int;
    let nb: int = if base > f.base {
        1
    } else {
        0
    };
    let na: int = if top < f.base + f.size {
        1
    } else {
        0
    };
    assert(n == nb + na);
    lemma_splice_index(free, i, i + 1, mid);
    let s = i + nb;
    assert forall|m: int| 0 <= m < s implies (#[trigger] r[m]).base < base by {
        if m < i {
            assert(r[m] == free[m]);
            assert(apart(free, m, i));
        } else {
            assert(r[m] == mid[m - i]);
        }
    }
    if s < r.len() {
        if na > 0 {
            assert(r[s] == mid[s - i]);
        } else {
            assert(r[s] == free[s - n + 1]);
            assert(apart(free, i, s - n + 1));
        }
    }
    lemma_slot_unique(r, base, s);
    let joins_next = s < r.len() && r[s].base == top;
    let joins_prev = s > 0 && r[s - 1].base + r[s - 1].size == base;
    if na > 0 {
        assert(r[s] == mid[s - i]);
        assert(joins_next);
    } else if s < r.len() {
        assert(r[s] == free[s - n + 1]);
        assert(!joins_next);
    }
    if nb > 0 {
        assert(r[s - 1] == mid[0]);
        assert(joins_prev);
    } else if s > 0 {
        assert(r[s - 1] == free[s - 1]);
        assert(apart(free, i - 1, i));
        assert(!joins_prev);
    }
    let back = release(r, block);
    assert(back == splice(r, i, i + n, seq![f]));
    lemma_splice_index(r, i, i + n, seq![f]);
    assert(back.len() == free.len());
    assert forall|k: int| 0 <= k < free.len() implies back[k] == free[k] by {
        if k < i {
            assert(back[k] == r[k]);
        } else if k == i {
        } else {
            assert(back[k] == r[k - 1 + n]);
            assert(r[k - 1 + n] == free[k]);
        }
    }
    assert(back =~= free);
}

/// Where a released block enters a valid list, its neighbours lie clear of
/// it on both sides.
pub proof fn lemma_release_neighbours(free: Seq<Span>, lo: int, hi: int, block: Span)
    requires
        list_ok(free, lo, hi),
        block_is_live(free, block),
        block.size > 0,
    ensures
        0 <= slot(free, block.base) <= free.len(),
        slot(free, block.base) > 0 ==> free[slot(free, block.base) - 1].base + free[slot(
            free,
            block.base,
        ) - 1].size <= block.base,
        slot(free, block.base) < free.len() ==> block.base + block.size <= free[slot(
            free,
            block.base,
        )].base,
{
    let i = slot(free, block.base);
    lemma_slot_from(free, 0, block.base);
    if i > 0 {
        assert(free[i - 1].base < block.base);
    }
    if i < free.len() {
        assert(free[i].base >= block.base);
    }
}

/// Giving back a live block keeps the list valid.
#[verifier::rlimit(40)]
pub proof fn lemma_release_ok(free: Seq<Span>, lo: int, hi: int, block: Span)
    requires
        list_ok(free, lo, hi),
        block_is_live(free, block),
        lo <= block.base,
        block.base + block.size <= hi,
        block.size >= 16,
        block.base % 16 == 0,
        block.size % 16 == 0,
    ensures
        list_ok(release(free, block), lo, hi),
{
    let i = slot(free, block.base);
    lemma_release_neighbours(free, lo, hi, block);
    let joins_next = i < free.len() && free[i].base == block.base + block.size;
    let joins_prev = i > 0 && free[i - 1].base + free[i - 1].size == block.base;
    let lo_addr = if joins_prev {
        free[i - 1].base
    } else {
        block.base
    };
    let hi_addr = if joins_next {
        free[i].base + free[i].size
    } else {
        block.base + block.size
    };
    let kb = if joins_prev {
        i - 1
    } else {
        i
    };
    let ka = if joins_next {
        i + 1
    } else {
        i
    };
    let merged = Span { base: lo_addr, size: hi_addr - lo_addr };
    let mid = seq![merged];
    assert(release(free, block) == splice(free, kb, ka, mid));
    if i > 0 {
        assert(lo <= free[i - 1].base && free[i - 1].base % 16 == 0 && free[i - 1].size % 16 == 0);
        if i - 1 > 0 {
            assert(apart(free, i - 2, i - 1));
        }
    }
    if i < free.len() {
        assert(free[i].base + free[i].size <= hi && free[i].base % 16 == 0 && free[i].size % 16
            == 0);
        if i + 1 < free.len() {
            assert(apart(free, i, i + 1));
        }
    }
    assert(list_ok(mid, lo, hi)) by {
        assert(mid[0] == merged);
        assert(merged.size % 16 == 0);
    }
    lemma_splice_ok(free, lo, hi, kb, ka, mid);
}

/// Giving back a live block adds exactly the block's bytes to the free bytes.
#[verifier::rlimit(40)]
pub proof fn lemma_release_covers(free: Seq<Span>, lo: int, hi: int, block: Span, a: int)
    requires
        list_ok(free, lo, hi),
        block_is_live(free, block),
        block.size > 0,
    ensures
        covers(release(free, block), a) <==> covers(free, a) || within(block, a),
{
    let i = slot(free, block.base);
    lemma_release_neighbours(free, lo, hi, block);
    let joins_next = i < free.len() && free[i].base == block.base + block.size;
    let joins_prev = i > 0 && free[i - 1].base + free[i - 1].size == block.base;
    let lo_addr = if joins_prev {
        free[i - 1].base
    } else {
        block.base
    };
    let hi_addr = if joins_next {
        free[i].base + free[i].size
    } else {
        block.base + block.size
    };
    let kb = if joins_prev {
        i - 1
    } else {
        i
    };
    let ka = if joins_next {
        i + 1
    } else {
        i
    };
    let merged = Span { base: lo_addr, size: hi_addr - lo_addr };
    let mid = seq![merged];
    assert(release(free, block) == splice(free, kb, ka, mid));
    lemma_splice_covers(free, kb, ka, mid, a);
    let left = free.subrange(0, kb);
    let right = free.subrange(ka, free.len() as int);
    if covers(left, a) {
        let k = choose|k: int| 0 <= k < left.len() && within(#[trigger] left[k], a);
        assert(within(free[k], a));
    }
    if covers(right, a) {
        let k = choose|k: int| 0 <= k < right.len() && within(#[trigger] right[k], a);
        assert(right[k] == free[k + ka]);
        assert(within(free[k + ka], a));
    }
    if covers(mid, a) {
        let k = choose|k: int| 0 <= k < mid.len() && within(#[trigger] mid[k], a);
        assert(within(merged, a));
        if a < block.base {
            assert(within(free[i - 1], a));
        } else if a >= block.base + block.size {
            assert(within(free[i], a));
        }
    }
    if within(block, a) {
        assert(within(mid[0], a));
    }
    if covers(free, a) {
        let k = choose|k: int| 0 <= k < free.len() && within(#[trigger] free[k], a);
        if k < kb {
            assert(within(left[k], a));
        } else if k >= ka {
            assert(within(right[k - ka], a));
        } else {
            assert(within(mid[0], a));
        }
    }
}

/// The fragment that a released block becomes stands in the new list where
/// the block entered it, or one place before if it joined the fragment there.
#[verifier::rlimit(30)]
pub proof fn lemma_release_merged(free: Seq<Span>, lo: int, hi: int, block: Span)
    requires
        list_ok(free, lo, hi),
        block_is_live(free, block),
        block.size > 0,
    ensures
        merged(free, block).base <= block.base,
        block.base + block.size <= merged(free, block).base + merged(free, block).size,
        merged(free, block).base < block.base ==> 0 < slot(free, block.base) <= release(
            free,
            block,
        ).len() && release(free, block)[slot(free, block.base) - 1] == merged(free, block)
            && merged(free, block).base + 16 <= block.base,
        merged(free, block).base == block.base ==> slot(free, block.base) < release(
            free,
            block,
        ).len() && release(free, block)[slot(free, block.base)] == merged(free, block),
{
    let i = slot(free, block.base);
    lemma_release_neighbours(free, lo, hi, block);
    let joins_next = i < free.len() && free[i].base == block.base + block.size;
    let joins_prev = i > 0 && free[i - 1].base + free[i - 1].size == block.base;
    let kb = if joins_prev {
        i - 1
    } else {
        i
    };
    let ka = if joins_next {
        i + 1
    } else {
        i
    };
    let mid = seq![merged(free, block)];
    assert(release(free, block) == splice(free, kb, ka, mid));
    lemma_splice_index(free, kb, ka, mid);
    assert(release(free, block)[kb] == mid[0]);
}

/// The first granule of a fragment of the list after a release is the first
/// granule of a fragment of the list before it, or of the block if the block
/// did not join the fragment below it.
#[verifier::rlimit(30)]
pub proof fn lemma_release_headers(free: Seq<Span>, lo: int, hi: int, block: Span, a: int)
    requires
        list_ok(free, lo, hi),
        block_is_live(free, block),
        block.size > 0,
        in_header(release(free, block), a),
    ensures
        in_header(free, a) || (merged(free, block).base == block.base && heads(block, a)),
{
    let r = release(free, block);
    let i = slot(free, block.base);
    lemma_release_neighbours(free, lo, hi, block);
    let joins_next = i < free.len() && free[i].base == block.base + block.size;
    let joins_prev = i > 0 && free[i - 1].base + free[i - 1].size == block.base;
    let kb = if joins_prev {
        i - 1
    } else {
        i
    };
    let ka = if joins_next {
        i + 1
    } else {
        i
    };
    let mid = seq![merged(free, block)];
    assert(r == splice(free, kb, ka, mid));
    lemma_splice_index(free, kb, ka, mid);
    let k = choose|k: int| 0 <= k < r.len() && heads(#[trigger] r[k], a);
    if k < kb {
        assert(heads(free[k], a));
    } else if k == kb {
        assert(r[k] == mid[0]);
        if joins_prev {
            assert(heads(free[i - 1], a));
        }
    } else {
        assert(r[k] == free[k - kb - 1 + ka]);
        assert(heads(free[k - kb - 1 + ka], a));
    }
}

/// The block that the list gives, and the granule after it where a header
/// is written, consist of bytes that were free.
pub proof fn lemma_take_covered(free: Seq<Span>, lo: int, hi: int, size: int, align: int, a: int)
    requires
        list_ok(free, lo, hi),
        lo >= 0,
        first_fit(free, size, align) < free.len(),
        size >= 16,
        size % 16 == 0,
        align > 0,
        align % 16 == 0,
    ensures
        trails_at(free, size, align, a) ==> covers(free, a),
        place(free, size, align) <= a < place(free, size, align) + size ==> covers(free, a),
        lo <= place(free, size, align),
        place(free, size, align) + size <= hi,
{
    let i = first_fit(free, size, align);
    lemma_first_fit_from(free, 0, size, align);
    lemma_align_up(free[i].base, align);
    if trails_at(free, size, align, a) {
        assert(within(free[i], a));
    }
    if place(free, size, align) <= a < place(free, size, align) + size {
        assert(within(free[i], a));
    }
}

/// A block that is clear of every fragment stays so when another block is
/// cut out of a fragment.
#[verifier::rlimit(30)]
pub proof fn lemma_cut_live(
    free: Seq<Span>,
    lo: int,
    hi: int,
    i: int,
    base: int,
    size: int,
    other: Span,
)
    requires
        list_ok(free, lo, hi),
        0 <= i < free.len(),
        block_in(free[i], base, size),
        block_is_live(free, other),
    ensures
        block_is_live(cut(free, i, base, size), other),
{
    let r = cut(free, i, base, size);
    let mid = remains(free[i], base, size);
    let n = mid.len() as int;
    lemma_splice_index(free, i, i + 1, mid);
    assert forall|k: int| 0 <= k < r.len() implies (#[trigger] r[k]).base + r[k].size <= other.base
        || other.base + other.size <= r[k].base by {
        if k < i {
            assert(r[k] == free[k]);
        } else if k < i + n {
            assert(r[k] == mid[k - i]);
            assert(free[i].base + free[i].size <= other.base || other.base + other.size
                <= free[i].base);
        } else {
            assert(r[k] == free[k - n + 1]);
        }
    }
}

/// A block that is clear of every fragment and of a second block stays
/// clear of every fragment when the second block is released.
#[verifier::rlimit(30)]
pub proof fn lemma_release_live(free: Seq<Span>, lo: int, hi: int, block: Span, other: Span)
    requires
        list_ok(free, lo, hi),
        block_is_live(free, block),
        block.size > 0,
        block_is_live(free, other),
        other.size > 0,
        other.base + other.size <= block.base || block.base + block.size <= other.base,
    ensures
        block_is_live(release(free, block), other),
{
    let r = release(free, block);
    let i = slot(free, block.base);
    lemma_release_neighbours(free, lo, hi, block);
    let joins_next = i < free.len() && free[i].base == block.base + block.size;
    let joins_prev = i > 0 && free[i - 1].base + free[i - 1].size == block.base;
    let kb = if joins_prev {
        i - 1
    } else {
        i
    };
    let ka = if joins_next {
        i + 1
    } else {
        i
    };
    let mid = seq![merged(free, block)];
    assert(r == splice(free, kb, ka, mid));
    lemma_splice_index(free, kb, ka, mid);
    assert forall|k: int| 0 <= k < r.len() implies (#[trigger] r[k]).base + r[k].size <= other.base
        || other.base + other.size <= r[k].base by {
        if k < kb {
            assert(r[k] == free[k]);
        } else if k == kb {
            assert(r[k] == mid[0]);
            if joins_prev {
                assert(free[i - 1].base + free[i - 1].size <= other.base || other.base
                    + other.size <= free[i - 1].base);
            }
            if joins_next {
                assert(free[i].base + free[i].size <= other.base || other.base + other.size
                    <= free[i].base);
            }
        } else {
            assert(r[k] == free[k - kb - 1 + ka]);
        }
    }
}

/// A block all of whose bytes belong to fragments is clear of a block that
/// is clear of every fragment.
pub proof fn lemma_covered_apart(free: Seq<Span>, inner: Span, f: Span, block: Span)
    requires
        block_is_live(free, block),
        free.contains(f),
        f.base <= inner.base,
        inner.base + inner.size <= f.base + f.size,
        inner.size > 0,
        block.size > 0,
    ensures
        inner.base + inner.size <= block.base || block.base + block.size <= inner.base,
{
    let k = choose|k: int| 0 <= k < free.len() && free[k] == f;
    assert(free[k].base + free[k].size <= block.base || block.base + block.size <= free[k].base);
}

/// The fragments next to fragment `idx` of a valid list lie clear of it.
pub proof fn lemma_neighbours(free: Seq<Span>, lo: int, hi: int, idx: int)
    requires
        list_ok(free, lo, hi),
        0 <= idx < free.len(),
    ensures
        lo <= free[idx].base,
        free[idx].base + free[idx].size <= hi,
        free[idx].size >= 16,
        free[idx].base % 16 == 0,
        free[idx].size % 16 == 0,
        idx > 0 ==> lo <= free[idx - 1].base && free[idx - 1].size >= 16 && free[idx - 1].base
            + free[idx - 1].size < free[idx].base,
        idx + 1 < free.len() ==> free[idx].base + free[idx].size < free[idx + 1].base && free[idx
            + 1].base + free[idx + 1].size <= hi && free[idx + 1].size >= 16,
{
    if idx > 0 {
        assert(apart(free, idx - 1, idx));
    }
    if idx + 1 < free.len() {
        assert(apart(free, idx, idx + 1));
    }
}

/// A byte in the first granule of a fragment is a byte of the fragment.
pub proof fn lemma_header_covered(free: Seq<Span>, lo: int, hi: int, addr: int)
    requires
        list_ok(free, lo, hi),
        in_header(free, addr),
    ensures
        covers(free, addr),
{
    let i = choose|i: int| 0 <= i < free.len() && heads(#[trigger] free[i], addr);
    assert(within(free[i], addr));
}

/// Where a block is moved into the run of free bytes that releasing it
/// forms, and the header of the fragment behind the new block is written on
/// a byte of the old block, the new block was taken from that run: it stands
/// at the lowest address in it that the alignment allows.
#[verifier::rlimit(40)]
pub proof fn lemma_trailing_header(
    free: Seq<Span>,
    lo: int,
    hi: int,
    block: Span,
    size: int,
    align: int,
    a: int,
)
    requires
        list_ok(free, lo, hi),
        lo >= 0,
        block_is_live(free, block),
        lo <= block.base,
        block.base + block.size <= hi,
        block.size >= 16,
        block.base % 16 == 0,
        block.size % 16 == 0,
        size >= 16,
        size % 16 == 0,
        align > 0,
        align % 16 == 0,
        merged(free, block).base < block.base,
        within(block, a),
        trails_at(release(free, block), size, align, a),
    ensures
        place(release(free, block), size, align) == align_up(merged(free, block).base, align),
{
    let f1 = release(free, block);
    let s = slot(free, block.base);
    lemma_release_ok(free, lo, hi, block);
    lemma_release_merged(free, lo, hi, block);
    let i = first_fit(f1, size, align);
    lemma_first_fit_from(f1, 0, size, align);
    lemma_neighbours(f1, lo, hi, i);
    lemma_align_up(f1[i].base, align);
    let top = place(f1, size, align) + size;
    assert(top % 16 == 0);
    assert(top + 16 <= f1[i].base + f1[i].size);
    assert(within(f1[i], a));
    assert(within(f1[s - 1], a));
    if i < s - 1 {
        assert(apart(f1, i, s - 1));
    } else if i > s - 1 {
        assert(apart(f1, s - 1, i));
    }
}

/// The run of free bytes that releasing a block forms lies in the range.
pub proof fn lemma_merged_bounds(free: Seq<Span>, lo: int, hi: int, block: Span)
    requires
        list_ok(free, lo, hi),
        block_is_live(free, block),
        lo <= block.base,
        block.base + block.size <= hi,
        block.size >= 16,
        block.base % 16 == 0,
        block.size % 16 == 0,
    ensures
        lo <= merged(free, block).base,
        merged(free, block).base + merged(free, block).size <= hi,
        merged(free, block).base % 16 == 0,
{
    let i = slot(free, block.base);
    lemma_release_neighbours(free, lo, hi, block);
    if i > 0 {
        lemma_neighbours(free, lo, hi, i - 1);
    }
    if i < free.len() {
        lemma_neighbours(free, lo, hi, i);
    }
}

/// No byte of a block that is clear of every fragment lies in the first
/// granule of a fragment.
pub proof fn lemma_header_apart(free: Seq<Span>, lo: int, hi: int, block: Span, a: int)
    requires
        list_ok(free, lo, hi),
        block_is_live(free, block),
        in_header(free, a),
    ensures
        !within(block, a),
{
    let i = choose|i: int| 0 <= i < free.len() && heads(#[trigger] free[i], a);
    assert(free[i].base + free[i].size <= block.base || block.base + block.size <= free[i].base);
}

} // verus!
