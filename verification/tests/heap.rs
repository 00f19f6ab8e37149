use bare_rt::heap::front::Alloc;
use bare_rt::heap::layout::{AllocError, Layout, LayoutError};
use bare_rt::heap::region::Region;
use bare_rt::sync::lock::Lock;
use std::cmp::min;
use std::ops::Range;

/// Address at which the test region starts.
const ORIGIN: usize = 0x40000;

#[derive(Debug)]
enum BufferProvisionError {
    InvalidRange(Range<usize>),
    ShortRange(Range<usize>),
    Overflow(Range<usize>),
    ShortGap(usize),
}

#[derive(Debug)]
enum BufferValidationError {
    InvalidRange(Range<usize>),
    ShortRange(Range<usize>),
    Overflow(Range<usize>),
    ShortGap(usize),
    MissingBlock(Range<usize>),
    FragmentMismatch(usize, usize),
    SizeMismatch(usize, usize),
    ExcessBlock(usize),
}

#[derive(Debug)]
enum TestError {
    Input(BufferProvisionError),
    Output(BufferValidationError),
    Full,
    Corrupted,
}

fn new_region() -> Lock<Region> {
    assert!(Region::valid_range(ORIGIN, ORIGIN + 0x1000));
    Lock::new(Region::new(ORIGIN, ORIGIN + 0x1000))
}

/// Brings the region to the state in which exactly `frags` are free.
fn provide(region: &mut Lock<Region>, frags: &[Range<usize>]) -> Result<(), BufferProvisionError> {
    let mut offset = 0usize;
    for frag in frags {
        let frag = frag.start..frag.end;
        if frag.start >= frag.end {
            return Err(BufferProvisionError::InvalidRange(frag));
        }
        if frag.start + 16 > frag.end {
            return Err(BufferProvisionError::ShortRange(frag));
        }
        if frag.end > 0x1000 {
            return Err(BufferProvisionError::Overflow(frag));
        }
        if offset != 0 && frag.start - offset < 16 {
            return Err(BufferProvisionError::ShortGap(frag.start - offset));
        }
        offset += frag.end - frag.start;
    }
    let whole = Layout::from_size_align(0x1000, 16).unwrap();
    assert_eq!(region.content.allocate(whole), Ok(ORIGIN));
    for frag in frags {
        let layout = Layout::from_size_align(frag.end - frag.start, 16).unwrap();
        region.content.deallocate(ORIGIN + frag.start, layout);
    }
    Ok(())
}

/// Checks that exactly `frags` are free in the region.
fn validate(region: &Lock<Region>, frags: &[Range<usize>]) -> Result<(), BufferValidationError> {
    let mut offset = 0usize;
    let list = region.content.fragments();
    let mut current = 0usize;
    for frag in frags {
        let frag = frag.start..frag.end;
        if frag.start >= frag.end {
            return Err(BufferValidationError::InvalidRange(frag));
        }
        if frag.start + 16 > frag.end {
            return Err(BufferValidationError::ShortRange(frag));
        }
        if frag.end > 0x1000 {
            return Err(BufferValidationError::Overflow(frag));
        }
        if offset != 0 && frag.start - offset < 16 {
            return Err(BufferValidationError::ShortGap(frag.start - offset));
        }
        if current >= list.len() {
            return Err(BufferValidationError::MissingBlock(frag));
        }
        let (addr, size) = list[current];
        if addr - ORIGIN != frag.start {
            return Err(BufferValidationError::FragmentMismatch(addr - ORIGIN, frag.start));
        }
        if size != frag.end - frag.start {
            return Err(BufferValidationError::SizeMismatch(size, frag.end - frag.start));
        }
        current += 1;
        offset += frag.end - frag.start;
    }
    if current < list.len() {
        return Err(BufferValidationError::ExcessBlock(list[current].0 - ORIGIN));
    }
    Ok(())
}

fn test_alloc(layout: Layout, input: &[Range<usize>], output: &[Range<usize>]) -> Result<usize, TestError> {
    let mut region = new_region();
    provide(&mut region, input).map_err(TestError::Input)?;
    let mut alloc = Alloc::<0x10>::with_region(&mut region);
    let base = alloc.global_alloc(0, layout);
    validate(&region, output).map_err(TestError::Output)?;
    if base == 0 {
        return Err(TestError::Full);
    }
    let base = base - ORIGIN;
    Ok(base)
}

fn test_dealloc(base: usize, layout: Layout, input: &[Range<usize>], output: &[Range<usize>]) -> Result<(), TestError> {
    let mut region = new_region();
    provide(&mut region, input).map_err(TestError::Input)?;
    let base = base + ORIGIN;
    let mut alloc = Alloc::<0x10>::with_region(&mut region);
    alloc.global_dealloc(0, base, layout);
    validate(&region, output).map_err(TestError::Output)?;
    Ok(())
}

fn test_realloc(
    base: usize,
    layout: Layout,
    new_size: usize,
    input: &[Range<usize>],
    output: &[Range<usize>],
) -> Result<usize, TestError> {
    let mut region = new_region();
    provide(&mut region, input).map_err(TestError::Input)?;
    let base = base + ORIGIN;
    let size = min(layout.size(), new_size);
    for offset in 0..size / 2 {
        let val = offset as u16;
        region.content.write(base + 2 * offset, val.to_le_bytes()[0]);
        region.content.write(base + 2 * offset + 1, val.to_le_bytes()[1]);
    }
    let mut alloc = Alloc::<0x10>::with_region(&mut region);
    let base = alloc.global_realloc(0, base, layout, new_size);
    validate(&region, output).map_err(TestError::Output)?;
    if base == 0 {
        return Err(TestError::Full);
    }
    for offset in 0..size / 2 {
        let lo = region.content.read(base + 2 * offset);
        let hi = region.content.read(base + 2 * offset + 1);
        if u16::from_le_bytes([lo, hi]) != offset as u16 {
            return Err(TestError::Corrupted);
        }
    }
    let base = base - ORIGIN;
    Ok(base)
}

#[test]
fn alloc_loose() {
    let layout = Layout::from_size_align(0x800, 16).unwrap();
    let base = test_alloc(layout, &[0x0..0x1000], &[0x800..0x1000]).unwrap();
    assert_eq!(base, 0x0);
}

#[test]
fn alloc_tight() {
    let layout = Layout::from_size_align(0x1000, 16).unwrap();
    let base = test_alloc(layout, &[0x0..0x1000], &[]).unwrap();
    assert_eq!(base, 0x0);
}

#[test]
fn alloc_align() {
    let layout = Layout::from_size_align(0x800, 0x400).unwrap();
    let base = test_alloc(layout, &[0x100..0x1000], &[0x100..0x400, 0xC00..0x1000]).unwrap();
    assert_eq!(base, 0x400);
}

#[test]
fn alloc_align_tight() {
    let layout = Layout::from_size_align(0x600, 0x200).unwrap();
    let base = test_alloc(layout, &[0x100..0x700, 0x800..0xE00], &[0x100..0x700]).unwrap();
    assert_eq!(base, 0x800);
}

#[test]
fn alloc_first() {
    let layout = Layout::from_size_align(0x800, 16).unwrap();
    let base = test_alloc(layout, &[0x100..0x400, 0x500..0x1000], &[0x100..0x400, 0xD00..0x1000]).unwrap();
    assert_eq!(base, 0x500);
}

#[test]
fn alloc_first_tight() {
    let layout = Layout::from_size_align(0x800, 16).unwrap();
    let base = test_alloc(layout, &[0x100..0x400, 0x500..0xD00], &[0x100..0x400]).unwrap();
    assert_eq!(base, 0x500);
}

#[test]
fn alloc_unfit() {
    let layout = Layout::from_size_align(0x800, 16).unwrap();
    let err = test_alloc(layout, &[0x0..0x700, 0x800..0xF00], &[0x0..0x700, 0x800..0xF00]).unwrap_err();
    assert!(matches!(err, TestError::Full));
}

#[test]
fn alloc_full() {
    let layout = Layout::from_size_align(0x1000, 16).unwrap();
    let err = test_alloc(layout, &[], &[]).unwrap_err();
    assert!(matches!(err, TestError::Full));
}

#[test]
fn dealloc_tight() {
    let layout = Layout::from_size_align(0x1000, 16).unwrap();
    test_dealloc(0x0, layout, &[], &[0x0..0x1000]).unwrap();
}

#[test]
fn dealloc_front() {
    let layout = Layout::from_size_align(0x600, 16).unwrap();
    test_dealloc(0x0, layout, &[0xA00..0x1000], &[0x0..0x600, 0xA00..0x1000]).unwrap();
}

#[test]
fn dealloc_front_tight() {
    let layout = Layout::from_size_align(0x800, 16).unwrap();
    test_dealloc(0x0, layout, &[0x800..0x1000], &[0x0..0x1000]).unwrap();
}

#[test]
fn dealloc_back() {
    let layout = Layout::from_size_align(0x600, 16).unwrap();
    test_dealloc(0xA00, layout, &[0x0..0x600], &[0x0..0x600, 0xA00..0x1000]).unwrap();
}

#[test]
fn dealloc_back_tight() {
    let layout = Layout::from_size_align(0x800, 16).unwrap();
    test_dealloc(0x800, layout, &[0x0..0x800], &[0x0..0x1000]).unwrap();
}

#[test]
fn dealloc_middle() {
    let layout = Layout::from_size_align(0x800, 16).unwrap();
    test_dealloc(0x400, layout, &[0x0..0x200, 0xE00..0x1000], &[0x0..0x200, 0x400..0xC00, 0xE00..0x1000]).unwrap();
}

#[test]
fn dealloc_middle_tight() {
    let layout = Layout::from_size_align(0x800, 16).unwrap();
    test_dealloc(0x400, layout, &[0x0..0x400, 0xC00..0x1000], &[0x0..0x1000]).unwrap();
}

#[test]
fn realloc_shwrink() {
    let layout = Layout::from_size_align(0x1000, 16).unwrap();
    let base = test_realloc(0x0, layout, 0x800, &[], &[0x800..0x1000]).unwrap();
    assert_eq!(base, 0x0);
}

#[test]
fn realloc_grow() {
    let layout = Layout::from_size_align(0x800, 16).unwrap();
    let base = test_realloc(0x0, layout, 0xA00, &[0x800..0x1000], &[0xA00..0x1000]).unwrap();
    assert_eq!(base, 0x0);
}

#[test]
fn realloc_grow_tight() {
    let layout = Layout::from_size_align(0x800, 16).unwrap();
    let base = test_realloc(0x0, layout, 0x1000, &[0x800..0x1000], &[]).unwrap();
    assert_eq!(base, 0x0);
}

#[test]
fn realloc_move() {
    let layout = Layout::from_size_align(0x800, 16).unwrap();
    let base = test_realloc(0x800, layout, 0xC00, &[0x400..0x800], &[]).unwrap();
    assert_eq!(base, 0x400);
}

#[test]
fn realloc_copy() {
    let layout = Layout::from_size_align(0x400, 16).unwrap();
    let base = test_realloc(0x0, layout, 0x600, &[0xA00..0x1000], &[0x0..0x400]).unwrap();
    assert_eq!(base, 0xA00);
}

#[test]
fn provide_rejects_bad_fragments() {
    let mut region = new_region();
    assert!(matches!(provide(&mut region, &[0x10..0x10]), Err(BufferProvisionError::InvalidRange(_))));
    assert!(matches!(provide(&mut region, &[0x10..0x18]), Err(BufferProvisionError::ShortRange(_))));
    assert!(matches!(provide(&mut region, &[0x10..0x1010]), Err(BufferProvisionError::Overflow(_))));
    assert!(matches!(provide(&mut region, &[0x0..0x100, 0x108..0x200]), Err(BufferProvisionError::ShortGap(8))));
}

#[test]
fn validate_reports_mismatches() {
    let mut region = new_region();
    provide(&mut region, &[0x100..0x200, 0x400..0x800]).unwrap();
    assert!(validate(&region, &[0x100..0x200, 0x400..0x800]).is_ok());
    assert!(matches!(validate(&region, &[0x100..0x200]), Err(BufferValidationError::ExcessBlock(0x400))));
    assert!(matches!(
        validate(&region, &[0x100..0x200, 0x400..0x800, 0x900..0xA00]),
        Err(BufferValidationError::MissingBlock(_))
    ));
    assert!(matches!(
        validate(&region, &[0x110..0x200, 0x400..0x800]),
        Err(BufferValidationError::FragmentMismatch(0x100, 0x110))
    ));
    assert!(matches!(
        validate(&region, &[0x100..0x300, 0x400..0x800]),
        Err(BufferValidationError::SizeMismatch(0x100, 0x200))
    ));
    assert!(matches!(validate(&region, &[0x10..0x10]), Err(BufferValidationError::InvalidRange(_))));
    assert!(matches!(validate(&region, &[0x10..0x18]), Err(BufferValidationError::ShortRange(_))));
    assert!(matches!(validate(&region, &[0x10..0x1010]), Err(BufferValidationError::Overflow(_))));
    assert!(matches!(
        validate(&region, &[0x100..0x200, 0x108..0x200]),
        Err(BufferValidationError::ShortGap(8))
    ));
}

#[test]
fn layout_is_checked() {
    assert_eq!(Layout::from_size_align(8, 0).unwrap_err(), LayoutError);
    assert_eq!(Layout::from_size_align(8, 3).unwrap_err(), LayoutError);
    assert_eq!(Layout::from_size_align(8, 24).unwrap_err(), LayoutError);
    assert_eq!(Layout::from_size_align(isize::MAX as usize, 2).unwrap_err(), LayoutError);
    let layout = Layout::from_size_align(isize::MAX as usize, 1).unwrap();
    assert_eq!(layout.size(), isize::MAX as usize);
    assert_eq!(layout.align(), 1);
    let layout = Layout::from_size_align(0x30, 0x40).unwrap();
    assert_eq!(layout.size(), 0x30);
    assert_eq!(layout.align(), 0x40);
}

#[test]
fn new_region_is_free_as_a_whole() {
    let region = Region::new(ORIGIN, ORIGIN + 0x1000);
    assert_eq!(region.start(), ORIGIN);
    assert_eq!(region.end(), ORIGIN + 0x1000);
    assert_eq!(region.fragments(), vec![(ORIGIN, 0x1000)]);
}

#[test]
fn valid_range_tells_good_ranges_from_bad() {
    assert!(Region::valid_range(0x10, 0x20));
    assert!(!Region::valid_range(0, 0x20));
    assert!(!Region::valid_range(0x20, 0x20));
    assert!(!Region::valid_range(0x30, 0x20));
    assert!(!Region::valid_range(0x18, 0x20));
    assert!(!Region::valid_range(0x10, 0x28));
    assert!(!Region::valid_range(0x10, usize::MAX - 15));
}

#[test]
fn size_is_rounded_and_empty_requests_take_a_granule() {
    let mut region = Region::new(ORIGIN, ORIGIN + 0x1000);
    let empty = Layout::from_size_align(0, 1).unwrap();
    assert_eq!(region.allocate(empty), Ok(ORIGIN));
    assert_eq!(region.fragments(), vec![(ORIGIN + 0x10, 0xFF0)]);
    let odd = Layout::from_size_align(0x11, 2).unwrap();
    assert_eq!(region.allocate(odd), Ok(ORIGIN + 0x10));
    assert_eq!(region.fragments(), vec![(ORIGIN + 0x30, 0xFD0)]);
    region.deallocate(ORIGIN + 0x10, odd);
    region.deallocate(ORIGIN, empty);
    assert_eq!(region.fragments(), vec![(ORIGIN, 0x1000)]);
}

#[test]
fn failing_allocate_leaves_the_list_as_it_is() {
    let mut region = new_region();
    provide(&mut region, &[0x100..0x300, 0x800..0x900]).unwrap();
    let before = region.content.fragments();
    let layout = Layout::from_size_align(0x400, 16).unwrap();
    assert_eq!(region.content.allocate(layout), Err(AllocError));
    assert_eq!(region.content.fragments(), before);
    // room enough in bytes, but not on the boundary asked for
    let layout = Layout::from_size_align(0x200, 0x400).unwrap();
    assert_eq!(region.content.allocate(layout), Err(AllocError));
    assert_eq!(region.content.fragments(), before);
}

#[test]
fn allocate_then_deallocate_restores_the_list() {
    let mut region = new_region();
    provide(&mut region, &[0x100..0x300, 0x410..0xFF0]).unwrap();
    let before = region.content.fragments();
    for (size, align) in [(0x10, 16), (0x200, 16), (0x1F1, 0x100), (0x400, 0x800), (0xBE0, 16)] {
        let layout = Layout::from_size_align(size, align).unwrap();
        let base = region.content.allocate(layout).unwrap();
        assert_eq!(base % align, 0);
        assert!(ORIGIN <= base && base + size <= ORIGIN + 0x1000);
        region.content.deallocate(base, layout);
        assert_eq!(region.content.fragments(), before);
    }
}

/// Tells whether the list is sorted by address, on granule boundaries, and
/// free of overlapping and of adjacent fragments.
fn list_is_valid(list: &[(usize, usize)]) -> bool {
    let mut last_end = 0usize;
    for (i, &(base, size)) in list.iter().enumerate() {
        if base % 16 != 0 || size % 16 != 0 || size < 16 {
            return false;
        }
        if base < ORIGIN || base + size > ORIGIN + 0x1000 {
            return false;
        }
        if i > 0 && base <= last_end {
            return false;
        }
        last_end = base + size;
    }
    true
}

#[test]
fn list_stays_valid_over_a_sequence_of_calls() {
    let mut region = Region::new(ORIGIN, ORIGIN + 0x1000);
    let mut live: Vec<(usize, Layout)> = Vec::new();
    let mut seed = 0x2545F491u32;
    for round in 0..400 {
        seed ^= seed << 13;
        seed ^= seed >> 17;
        seed ^= seed << 5;
        let size = (seed as usize >> 4) % 0x180;
        let align = 1usize << ((seed as usize >> 20) % 9);
        if round % 3 != 2 || live.is_empty() {
            let layout = Layout::from_size_align(size, align).unwrap();
            if let Ok(base) = region.allocate(layout) {
                assert_eq!(base % align, 0);
                for &(other, other_layout) in live.iter() {
                    let other_size = (other_layout.size().max(1) + 15) & !15;
                    let this_size = (size.max(1) + 15) & !15;
                    assert!(base + this_size <= other || other + other_size <= base);
                }
                live.push((base, layout));
            }
        } else {
            let (base, layout) = live.swap_remove(seed as usize % live.len());
            region.deallocate(base, layout);
        }
        assert!(list_is_valid(&region.fragments()));
    }
    while let Some((base, layout)) = live.pop() {
        region.deallocate(base, layout);
        assert!(list_is_valid(&region.fragments()));
    }
    assert_eq!(region.fragments(), vec![(ORIGIN, 0x1000)]);
}

fn fill(region: &mut Region, base: usize, len: usize, salt: u8) {
    for i in 0..len {
        region.write(base + i, (i as u8).wrapping_mul(7).wrapping_add(salt));
    }
}

fn holds(region: &Region, base: usize, len: usize, salt: u8) -> bool {
    (0..len).all(|i| region.read(base + i) == (i as u8).wrapping_mul(7).wrapping_add(salt))
}

#[test]
fn grow_refuses_a_smaller_size() {
    let mut region = new_region();
    provide(&mut region, &[0x800..0x1000]).unwrap();
    let old = Layout::from_size_align(0x800, 16).unwrap();
    let new = Layout::from_size_align(0x7F0, 16).unwrap();
    assert_eq!(region.content.grow(ORIGIN, old, new), Err(AllocError));
    assert_eq!(region.content.fragments(), vec![(ORIGIN + 0x800, 0x800)]);
}

#[test]
fn grow_with_the_same_layout_changes_nothing() {
    let mut region = new_region();
    provide(&mut region, &[0x800..0x1000]).unwrap();
    fill(&mut region.content, ORIGIN, 0x800, 3);
    let old = Layout::from_size_align(0x7F8, 8).unwrap();
    let new = Layout::from_size_align(0x800, 16).unwrap();
    assert_eq!(region.content.grow(ORIGIN, old, new), Ok(ORIGIN));
    assert_eq!(region.content.fragments(), vec![(ORIGIN + 0x800, 0x800)]);
    assert!(holds(&region.content, ORIGIN, 0x800, 3));
}

#[test]
fn shrink_refuses_a_size_that_is_not_smaller() {
    let mut region = new_region();
    provide(&mut region, &[0x800..0x1000]).unwrap();
    let old = Layout::from_size_align(0x800, 16).unwrap();
    assert_eq!(region.content.shrink(ORIGIN, old, old), Err(AllocError));
    let new = Layout::from_size_align(0x900, 16).unwrap();
    assert_eq!(region.content.shrink(ORIGIN, old, new), Err(AllocError));
    assert_eq!(region.content.fragments(), vec![(ORIGIN + 0x800, 0x800)]);
}

#[test]
fn shrink_in_place_releases_the_tail() {
    let mut region = new_region();
    provide(&mut region, &[0x800..0x1000]).unwrap();
    fill(&mut region.content, ORIGIN, 0x800, 9);
    let old = Layout::from_size_align(0x800, 16).unwrap();
    let new = Layout::from_size_align(0x300, 16).unwrap();
    assert_eq!(region.content.shrink(ORIGIN, old, new), Ok(ORIGIN));
    assert_eq!(region.content.fragments(), vec![(ORIGIN + 0x300, 0xD00)]);
    assert!(holds(&region.content, ORIGIN, 0x300, 9));
}

#[test]
fn shrink_to_a_stricter_alignment_moves_the_block() {
    let mut region = new_region();
    // the block stands at 0x100, which is no multiple of 0x200
    provide(&mut region, &[0x0..0x100, 0x900..0x1000]).unwrap();
    fill(&mut region.content, ORIGIN + 0x100, 0x800, 5);
    let old = Layout::from_size_align(0x800, 16).unwrap();
    let new = Layout::from_size_align(0x100, 0x200).unwrap();
    let base = region.content.shrink(ORIGIN + 0x100, old, new).unwrap();
    assert_eq!(base, ORIGIN);
    assert_eq!(region.content.fragments(), vec![(ORIGIN + 0x100, 0xF00)]);
    assert!(holds(&region.content, base, 0x100, 5));
}

#[test]
fn grow_fails_without_room_and_keeps_the_block() {
    let mut region = new_region();
    provide(&mut region, &[0x900..0xA00]).unwrap();
    fill(&mut region.content, ORIGIN, 0x800, 1);
    let old = Layout::from_size_align(0x800, 16).unwrap();
    let new = Layout::from_size_align(0xA00, 16).unwrap();
    assert_eq!(region.content.grow(ORIGIN, old, new), Err(AllocError));
    assert_eq!(region.content.fragments(), vec![(ORIGIN + 0x900, 0x100)]);
    assert!(holds(&region.content, ORIGIN, 0x800, 1));
}

#[test]
fn grow_by_copy_keeps_other_blocks() {
    let mut region = new_region();
    provide(&mut region, &[0x800..0x1000]).unwrap();
    fill(&mut region.content, ORIGIN, 0x200, 11);
    fill(&mut region.content, ORIGIN + 0x200, 0x600, 13);
    let old = Layout::from_size_align(0x200, 16).unwrap();
    let new = Layout::from_size_align(0x400, 16).unwrap();
    let base = region.content.grow(ORIGIN, old, new).unwrap();
    assert_eq!(base, ORIGIN + 0x800);
    assert_eq!(region.content.fragments(), vec![(ORIGIN, 0x200), (ORIGIN + 0xC00, 0x400)]);
    assert!(holds(&region.content, base, 0x200, 11));
    assert!(holds(&region.content, ORIGIN + 0x200, 0x600, 13));
}

#[test]
fn typed_hook_raises_the_alignment() {
    let mut region = new_region();
    provide(&mut region, &[0x10..0x1000]).unwrap();
    let mut alloc = Alloc::<0x40>::with_region(&mut region);
    let layout = Layout::from_size_align(0x21, 1).unwrap();
    assert_eq!(alloc.allocate(0, layout), Ok((ORIGIN + 0x40, 0x30)));
    let bigger = Layout::from_size_align(0x50, 1).unwrap();
    assert_eq!(alloc.grow(0, ORIGIN + 0x40, layout, bigger), Ok((ORIGIN + 0x40, 0x50)));
    assert_eq!(alloc.shrink(0, ORIGIN + 0x40, bigger, layout), Ok((ORIGIN + 0x40, 0x30)));
    alloc.deallocate(0, ORIGIN + 0x40, layout);
    assert_eq!(region.content.fragments(), vec![(ORIGIN + 0x10, 0xFF0)]);
    assert!(region.advisor.held_by().is_none());
}

#[test]
fn typed_hook_reports_failure() {
    let mut region = new_region();
    provide(&mut region, &[]).unwrap();
    let mut alloc = Alloc::<0x1000>::with_region(&mut region);
    let layout = Layout::from_size_align(0x10, 16).unwrap();
    assert_eq!(alloc.allocate(1, layout), Err(AllocError));
}

#[test]
fn grow_into_the_surrounding_run_moves_the_bytes() {
    let mut region = new_region();
    provide(&mut region, &[0x400..0x800]).unwrap();
    fill(&mut region.content, ORIGIN + 0x800, 0x800, 17);
    let old = Layout::from_size_align(0x800, 16).unwrap();
    let new = Layout::from_size_align(0xC00, 16).unwrap();
    assert_eq!(region.content.grow(ORIGIN + 0x800, old, new), Ok(ORIGIN + 0x400));
    assert_eq!(region.content.fragments(), vec![]);
    assert!(holds(&region.content, ORIGIN + 0x400, 0x800, 17));
}

#[test]
fn grow_into_the_surrounding_run_keeps_the_bytes_under_the_new_header() {
    let mut region = new_region();
    provide(&mut region, &[0x400..0x800]).unwrap();
    fill(&mut region.content, ORIGIN + 0x800, 0x800, 17);
    let old = Layout::from_size_align(0x800, 16).unwrap();
    let new = Layout::from_size_align(0x810, 16).unwrap();
    assert_eq!(region.content.grow(ORIGIN + 0x800, old, new), Ok(ORIGIN + 0x400));
    // the new block ends at 0xC10, inside the old one, where the fragment
    // behind it has its header
    assert_eq!(region.content.fragments(), vec![(ORIGIN + 0xC10, 0x3F0)]);
    assert!(holds(&region.content, ORIGIN + 0x400, 0x800, 17));
}

#[test]
fn grow_far_into_the_surrounding_run_keeps_every_byte() {
    let mut region = new_region();
    provide(&mut region, &[0x0..0x800]).unwrap();
    fill(&mut region.content, ORIGIN + 0x800, 0x800, 23);
    let old = Layout::from_size_align(0x800, 16).unwrap();
    let new = Layout::from_size_align(0xA00, 16).unwrap();
    assert_eq!(region.content.grow(ORIGIN + 0x800, old, new), Ok(ORIGIN));
    assert_eq!(region.content.fragments(), vec![(ORIGIN + 0xA00, 0x600)]);
    assert!(holds(&region.content, ORIGIN, 0x800, 23));
}

#[test]
fn shrink_into_the_surrounding_run_keeps_every_byte() {
    let mut region = new_region();
    provide(&mut region, &[0x400..0x600]).unwrap();
    fill(&mut region.content, ORIGIN + 0x600, 0x800, 29);
    let old = Layout::from_size_align(0x800, 16).unwrap();
    let new = Layout::from_size_align(0x400, 0x400).unwrap();
    assert_eq!(region.content.shrink(ORIGIN + 0x600, old, new), Ok(ORIGIN + 0x400));
    assert_eq!(region.content.fragments(), vec![(ORIGIN + 0x800, 0x600)]);
    assert!(holds(&region.content, ORIGIN + 0x400, 0x400, 29));
}

#[test]
fn moving_blocks_keep_their_bytes_over_a_sequence_of_calls() {
    let mut region = Region::new(ORIGIN, ORIGIN + 0x1000);
    let mut live: Vec<(usize, Layout, u8)> = Vec::new();
    let mut seed = 0x9E3779B9u32;
    for round in 0..600u32 {
        seed ^= seed << 13;
        seed ^= seed >> 17;
        seed ^= seed << 5;
        let size = 1 + (seed as usize >> 4) % 0x200;
        let align = 1usize << ((seed as usize >> 20) % 8);
        let salt = round as u8;
        let layout = Layout::from_size_align(size, align).unwrap();
        match round % 4 {
            0 | 1 => {
                if let Ok(base) = region.allocate(layout) {
                    fill(&mut region, base, size, salt);
                    live.push((base, layout, salt));
                }
            }
            2 if !live.is_empty() => {
                let at = seed as usize % live.len();
                let (base, old, old_salt) = live[at];
                let kept = old.size().min(size);
                let res = if (size + 15) / 16 >= (old.size() + 15) / 16 {
                    region.grow(base, old, layout)
                } else {
                    region.shrink(base, old, layout)
                };
                match res {
                    Ok(moved) => {
                        assert_eq!(moved % align, 0);
                        assert!(holds(&region, moved, kept, old_salt));
                        fill(&mut region, moved, size, salt);
                        live[at] = (moved, layout, salt);
                    }
                    Err(_) => assert!(holds(&region, base, old.size(), old_salt)),
                }
            }
            _ if !live.is_empty() => {
                let (base, layout, _) = live.swap_remove(seed as usize % live.len());
                region.deallocate(base, layout);
            }
            _ => (),
        }
        assert!(list_is_valid(&region.fragments()));
        for &(base, layout, salt) in live.iter() {
            assert!(holds(&region, base, layout.size(), salt));
        }
    }
}
