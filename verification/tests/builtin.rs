use bare_rt::builtin::{memcpy, memmove, memset};
use bare_rt::cpu::{cache_lines, Lines, CACHELINE_SIZE};

#[test]
fn memcpy_copies_forward() {
    let mut buf: Vec<u8> = (0..16).collect();
    memcpy(&mut buf, 0, 8, 8);
    assert_eq!(buf, vec![8, 9, 10, 11, 12, 13, 14, 15, 8, 9, 10, 11, 12, 13, 14, 15]);
    let mut buf: Vec<u8> = (0..8).collect();
    // the run that is written starts below the run that is read
    memcpy(&mut buf, 1, 3, 5);
    assert_eq!(buf, vec![0, 3, 4, 5, 6, 7, 6, 7]);
}

#[test]
fn memmove_copies_overlapping_runs() {
    let mut buf: Vec<u8> = (0..8).collect();
    memmove(&mut buf, 3, 1, 5);
    assert_eq!(buf, vec![0, 1, 2, 1, 2, 3, 4, 5]);
    let mut buf: Vec<u8> = (0..8).collect();
    memmove(&mut buf, 1, 3, 5);
    assert_eq!(buf, vec![0, 3, 4, 5, 6, 7, 6, 7]);
    let mut buf: Vec<u8> = (0..8).collect();
    memmove(&mut buf, 4, 0, 4);
    assert_eq!(buf, vec![0, 1, 2, 3, 0, 1, 2, 3]);
    memmove(&mut buf, 2, 2, 0);
    assert_eq!(buf, vec![0, 1, 2, 3, 0, 1, 2, 3]);
}

#[test]
fn memset_writes_the_low_byte() {
    let mut buf: Vec<u8> = vec![1; 6];
    memset(&mut buf, 2, 0x1234, 3);
    assert_eq!(buf, vec![1, 1, 0x34, 0x34, 0x34, 1]);
    memset(&mut buf, 0, -1, 1);
    assert_eq!(buf, vec![0xFF, 1, 0x34, 0x34, 0x34, 1]);
}

#[test]
fn cache_lines_cover_the_object() {
    assert_eq!(CACHELINE_SIZE, 64);
    assert_eq!(cache_lines(0x1000, 0), None);
    assert_eq!(cache_lines(0x1000, 64), Some(Lines { start: 0x1000, end: 0x1040, below: 0, above: 0 }));
    assert_eq!(cache_lines(0x1010, 4), Some(Lines { start: 0x1000, end: 0x1040, below: 0x10, above: 0x2C }));
    assert_eq!(cache_lines(0x103F, 2), Some(Lines { start: 0x1000, end: 0x1080, below: 0x3F, above: 0x3F }));
}
