use bare_rt::dma::{is_visible, nth_window, to_dma, WINDOWS};
use bare_rt::video::fb::{side_of, FrameBuffer, FrameBufferIterator, Tile};
use bare_rt::video::find_pointer;

#[test]
fn to_dma_translates_each_window() {
    assert_eq!(to_dma(0x84000000), 0xC0200000);
    assert_eq!(to_dma(0x85000010), 0xC1200010);
    assert_eq!(to_dma(0x40000000), 0xC2000000);
    assert_eq!(to_dma(0x7BFFFFFF), 0xFDFFFFFF);
    assert_eq!(to_dma(0x80000004), 0x7C000004);
    assert_eq!(to_dma(0xFFE00000), 0xC1E00000);
    assert_eq!(to_dma(0xFFFFFFFF), 0xC1FFFFFF);
    assert_eq!(to_dma(0xFFA00008), 0xC1C00008);
    assert_eq!(to_dma(0xFF600000), 0xC1A00000);
    assert_eq!(to_dma(0xFF3FFFFF), 0xC19FFFFF);
}

#[test]
fn addresses_outside_the_windows_are_not_visible() {
    assert!(!is_visible(0));
    assert!(!is_visible(0x3FFFFFFF));
    assert!(!is_visible(0x7C000000));
    assert!(!is_visible(0x85600000));
    assert!(!is_visible(0xFF400000));
    assert!(!is_visible(0x100000000));
    assert!(is_visible(0x855FFFFF));
    assert_eq!(WINDOWS, 7);
    assert_eq!(nth_window(6).dma_start, 0xC1800000);
}

#[test]
fn tile_sides_are_the_largest_that_divide() {
    assert_eq!(side_of(800), 32);
    assert_eq!(side_of(480), 32);
    assert_eq!(side_of(72), 24);
    assert_eq!(side_of(80), 16);
    assert_eq!(side_of(40), 8);
    assert_eq!(side_of(100), 0);
    assert!(FrameBuffer::valid_size(800, 480));
    assert!(!FrameBuffer::valid_size(0, 480));
    assert!(!FrameBuffer::valid_size(800, 100));
    assert!(!FrameBuffer::valid_size(usize::MAX - 31, 32));
}

#[test]
fn tiles_fill_the_frame_row_by_row() {
    let mut fb = FrameBuffer::new(80, 48, 0x84000000, 0x84100000);
    // tiles of 16 x 24: five to a row, two rows
    let mut iter = fb.tiles();
    let mut tiles = Vec::new();
    while let Some(tile) = iter.next(&mut fb) {
        tiles.push(tile);
    }
    assert_eq!(tiles.len(), 10);
    assert_eq!(tiles[0], Tile { col: 0, row: 0, width: 16, height: 24 });
    assert_eq!(tiles[4], Tile { col: 64, row: 0, width: 16, height: 24 });
    assert_eq!(tiles[5], Tile { col: 0, row: 24, width: 16, height: 24 });
    assert_eq!(tiles[9], Tile { col: 64, row: 24, width: 16, height: 24 });
    assert_eq!(tiles[9].offset(80), 24 * 80 + 64);
    assert_eq!(Tile::new(&fb, 13), tiles[3]);
}

#[test]
fn frame_advances_when_all_tiles_are_finished() {
    let mut fb = FrameBuffer::new(64, 32, 0x84000000, 0x84100000);
    assert_eq!(fb.frame(), 0);
    assert_eq!(fb.vsync(), 0xC0200000);
    let mut iter = FrameBufferIterator::new(&fb);
    assert!(iter.next(&mut fb).is_some());
    assert!(iter.next(&mut fb).is_some());
    assert!(iter.next(&mut fb).is_none());
    fb.finish();
    assert_eq!(fb.frame(), 0);
    fb.finish();
    assert_eq!(fb.frame(), 1);
    assert_eq!(fb.vsync(), 0xC0300000);
    // the iterator of the frame before gives no tile of the next
    assert!(iter.next(&mut fb).is_none());
    let mut iter = fb.tiles();
    assert_eq!(iter.next(&mut fb), Some(Tile { col: 0, row: 0, width: 32, height: 32 }));
}

#[test]
fn flush_writes_the_quads_of_a_tile() {
    let tile = Tile { col: 2, row: 1, width: 4, height: 2 };
    let mut image: Vec<u16> = vec![0xFFFF; 6 * 4];
    // upper row: 1 2 5 6, lower row: 3 4 7 8
    let cb: Vec<u16> = vec![1, 2, 3, 4, 5, 6, 7, 8];
    tile.flush(&cb, &mut image, 6);
    let x = 0xFFFF;
    assert_eq!(
        image,
        vec![
            x, x, x, x, x, x, //
            x, x, 1, 2, 5, 6, //
            x, x, 3, 4, 7, 8, //
            x, x, x, x, x, x,
        ]
    );
    assert_eq!(tile.offset(6), 8);
}

#[test]
fn flush_paints_black_what_the_color_buffer_lacks() {
    let tile = Tile { col: 0, row: 0, width: 2, height: 4 };
    let mut image: Vec<u16> = vec![9; 8];
    let cb: Vec<u16> = vec![1, 2, 3, 4, 5];
    tile.flush(&cb, &mut image, 2);
    assert_eq!(image, vec![1, 2, 3, 4, 5, 0, 0, 0]);
}

#[test]
fn drawn_buffer_is_the_one_that_is_not_shown() {
    let mut fb = FrameBuffer::new(32, 32, 0x84000000, 0x84100000);
    assert_eq!(fb.drawn(), 0x84100000);
    fb.finish();
    assert_eq!(fb.frame(), 1);
    assert_eq!(fb.drawn(), 0x84000000);
}

/// A plane of `len` words with the given pointer.
fn plane(len: u32, unity: bool, last: bool, pointer: u32) -> Vec<u32> {
    let mut words = vec![0u32; len as usize];
    words[0] = (len << 24) | ((unity as u32) << 15) | if last { 0x2 << 30 } else { 0 };
    if len > 5 {
        words[5] = pointer;
    }
    words
}

#[test]
fn find_pointer_skips_planes_that_do_not_match() {
    let mut list = vec![0u32; 3];
    list.extend(plane(7, true, false, 0x1000));
    list.extend(plane(8, false, false, 0x2000));
    list.extend(plane(7, true, false, 0x2000));
    list.extend(plane(1, false, true, 0));
    assert_eq!(find_pointer(&list, 3, 0x2000, 0x3000), Some(3 + 7 + 8 + 5));
    assert_eq!(find_pointer(&list, 3, 0x3000, 0x1000), Some(3 + 5));
    assert_eq!(find_pointer(&list, 3, 0x4000, 0x5000), None);
    assert_eq!(find_pointer(&list, 100, 0x1000, 0x2000), None);
}

#[test]
fn find_pointer_stops_at_the_end_word_and_at_empty_planes() {
    let mut list = plane(7, true, true, 0x1000);
    list.extend(plane(7, true, false, 0x2000));
    // the first plane ends the list, but is looked at itself
    assert_eq!(find_pointer(&list, 0, 0x1000, 0), Some(5));
    assert_eq!(find_pointer(&list, 0, 0x2000, 0), None);
    let list = vec![0u32; 16];
    assert_eq!(find_pointer(&list, 0, 0x2000, 0x1000), None);
}
