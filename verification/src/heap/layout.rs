//! Request descriptors: how many bytes, and on what boundary.

use vstd::prelude::*;
use crate::heap::freelist::{align_up, raise_align, round_size};

verus! {

/// Marker of a request that no free fragment can satisfy.
#[derive(Clone, Copy, Debug, PartialEq, Eq, Structural)]
pub struct AllocError;

/// Marker of a size and alignment that do not form a layout.
#[derive(Clone, Copy, Debug, PartialEq, Eq, Structural)]
pub struct LayoutError;

/// Whether `n` is a power of two: it is not zero and has a single bit set,
/// so that clearing its lowest set bit leaves nothing.
pub open spec fn is_power_of_two(n: usize) -> bool {
    n > 0 && n & ((n - 1) as usize) == 0
}

/// Whether a size and an alignment form a layout: the alignment is a power
/// of two, and the size rounded up to it fits the largest object size.
pub open spec fn layout_ok(size: usize, align: usize) -> bool {
    is_power_of_two(align) && size + align - 1 <= isize::MAX
}

/// Size and alignment of a block of memory.
#[derive(Clone, Copy, Debug)]
pub struct Layout {
    size: usize,
    align: usize,
}

impl Layout {
    #[verifier::type_invariant]
    spec fn inv(self) -> bool {
        layout_ok(self.size, self.align)
    }

    /// The requested number of bytes.
    pub closed spec fn spec_size(&self) -> usize {
        self.size
    }

    /// The requested alignment.
    pub closed spec fn spec_align(&self) -> usize {
        self.align
    }

    /// The layout of `size` bytes aligned to `align`.
    pub closed spec fn of(size: usize, align: usize) -> Layout {
        Layout { size, align }
    }

    /// A layout is made of its size and its alignment.
    pub broadcast proof fn lemma_of(size: usize, align: usize)
        ensures
            (#[trigger] Layout::of(size, align)).spec_size() == size,
            Layout::of(size, align).spec_align() == align,
    {
    }

    /// Forms a layout, or reports that the alignment is no power of two or
    /// that the size is too large for it.
    pub fn from_size_align(size: usize, align: usize) -> (res: Result<Layout, LayoutError>)
        ensures
            res is Ok <==> layout_ok(size, align),
            res matches Ok(l) ==> l == Layout::of(size, align) && l.spec_size() == size
                && l.spec_align() == align,
    {
        if align == 0 || align & (align - 1) != 0 {
            return Err(LayoutError);
        }
        if align - 1 > isize::MAX as usize || size > isize::MAX as usize - (align - 1) {
            return Err(LayoutError);
        }
        Ok(Layout { size, align })
    }

    /// The requested number of bytes.
    #[verifier::when_used_as_spec(spec_size)]
    pub fn size(&self) -> (s: usize)
        ensures
            s == self.spec_size(),
            layout_ok(s, self.spec_align()),
    {
        proof {
            use_type_invariant(self);
        }
        self.size
    }

    /// The requested alignment.
    #[verifier::when_used_as_spec(spec_align)]
    pub fn align(&self) -> (a: usize)
        ensures
            a == self.spec_align(),
            layout_ok(self.spec_size(), a),
    {
        proof {
            use_type_invariant(self);
        }
        self.align
    }
}

/// A power of two that is not below the granule is a multiple of it, and
/// one that is below the granule divides it.
pub proof fn lemma_power_of_two(a: usize)
    requires
        is_power_of_two(a),
    ensures
        a >= 16 ==> a % 16 == 0,
        a < 16 ==> a == 1 || a == 2 || a == 4 || a == 8,
{
    let b = (a - 1) as usize;
    assert(a >= 16 ==> a % 16 == 0) by (bit_vector)
        requires
            a > 0,
            b == a - 1,
            a & b == 0,
    ;
    assert(a < 16 ==> a == 1 || a == 2 || a == 4 || a == 8) by (bit_vector)
        requires
            a > 0,
            b == a - 1,
            a & b == 0,
    ;
}

/// An address that is aligned to the raised alignment is aligned to the
/// requested one.
pub proof fn lemma_aligned(p: int, align: usize)
    requires
        is_power_of_two(align),
        p >= 0,
        p % raise_align(align as int) == 0,
    ensures
        p % (align as int) == 0,
{
    lemma_power_of_two(align);
}

/// Raises a request's alignment to the granule.
pub fn raised(align: usize) -> (r: usize)
    requires
        is_power_of_two(align),
        align <= isize::MAX + 1,
    ensures
        r == raise_align(align as int),
        r % 16 == 0,
        0 < r <= isize::MAX + 1,
{
    proof {
        lemma_power_of_two(align);
    }
    if align < 16 {
        16
    } else {
        align
    }
}

/// Rounds a request's size up to the granule.
pub fn granules(size: usize) -> (r: usize)
    requires
        size <= isize::MAX,
    ensures
        r == round_size(size as int),
        r >= size,
        r >= 16,
        r % 16 == 0,
{
    if size == 0 {
        16
    } else {
        (size + 15) / 16 * 16
    }
}

/// The lowest multiple of `align` at or above `addr`.
pub fn align_addr(addr: usize, align: usize) -> (r: usize)
    requires
        align > 0,
        addr + align - 1 <= usize::MAX,
    ensures
        r == align_up(addr as int, align as int),
{
    let rem: usize = addr % align;
    if rem == 0 {
        addr
    } else {
        addr + (align - rem)
    }
}

} // verus!
