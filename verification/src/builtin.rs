//! Byte block operations.
//!
//! The operations work inside one buffer, on runs of bytes given by the
//! index of their first byte and their length.

use vstd::prelude::*;

verus! {

/// The bytes with the `len` bytes from index `dst` on replaced by the `len`
/// bytes that stood from index `src` on.
pub open spec fn shifted(mem: Seq<u8>, dst: int, src: int, len: int) -> Seq<u8> {
    Seq::new(
        mem.len(),
        |j: int|
            if dst <= j < dst + len {
                mem[j - dst + src]
            } else {
                mem[j]
            },
    )
}

/// The bytes with the `len` bytes from index `at` on replaced by `val`.
pub open spec fn filled(mem: Seq<u8>, at: int, val: u8, len: int) -> Seq<u8> {
    Seq::new(
        mem.len(),
        |j: int|
            if at <= j < at + len {
                val
            } else {
                mem[j]
            },
    )
}

/// Copies `len` bytes from index `src` to index `dst`, the first byte
/// first. The run that is written must not reach into the part of the run
/// that is still to be read: it starts at or below it, or lies clear of it.
pub fn memcpy(buf: &mut Vec<u8>, dst: usize, src: usize, len: usize)
    requires
        dst + len <= old(buf)@.len(),
        src + len <= old(buf)@.len(),
        dst <= src || src + len <= dst,
    ensures
        final(buf)@ == shifted(old(buf)@, dst as int, src as int, len as int),
{
    let ghost before = buf@;
    let total: usize = buf.len();
    let mut i: usize = 0;
    while i < len
        invariant
            0 <= i <= len,
            total == before.len(),
            dst + len <= before.len(),
            src + len <= before.len(),
            dst <= src || src + len <= dst,
            buf@.len() == before.len(),
            forall|j: int| dst <= j < dst + i ==> #[trigger] buf@[j] == before[j - dst + src],
            forall|j: int|
                0 <= j < before.len() && !(dst <= j < dst + i) ==> #[trigger] buf@[j] == before[j],
        decreases len - i,
    {
        let byte: u8 = buf[src + i];
        buf[dst + i] = byte;
        i = i + 1;
    }
    assert(buf@ =~= shifted(before, dst as int, src as int, len as int));
}

/// Copies `len` bytes from index `src` to index `dst`; the two runs may
/// overlap. Where the run that is written starts inside the run that is
/// read, the last byte is copied first.
pub fn memmove(buf: &mut Vec<u8>, dst: usize, src: usize, len: usize)
    requires
        dst + len <= old(buf)@.len(),
        src + len <= old(buf)@.len(),
    ensures
        final(buf)@ == shifted(old(buf)@, dst as int, src as int, len as int),
{
    let total: usize = buf.len();
    if dst <= src || src + len <= dst {
        memcpy(buf, dst, src, len);
        return ;
    }
    let ghost before = buf@;
    let mut i: usize = len;
    while i > 0
        invariant
            0 <= i <= len,
            total == before.len(),
            dst + len <= before.len(),
            src + len <= before.len(),
            src < dst,
            buf@.len() == before.len(),
            forall|j: int| dst + i <= j < dst + len ==> #[trigger] buf@[j] == before[j - dst + src],
            forall|j: int|
                0 <= j < before.len() && !(dst + i <= j < dst + len) ==> #[trigger] buf@[j]
                    == before[j],
        decreases i,
    {
        i = i - 1;
        let byte: u8 = buf[src + i];
        buf[dst + i] = byte;
    }
    assert(buf@ =~= shifted(before, dst as int, src as int, len as int));
}

/// Sets `len` bytes from index `at` on to the low byte of `val`.
pub fn memset(buf: &mut Vec<u8>, at: usize, val: i32, len: usize)
    requires
        at + len <= old(buf)@.len(),
    ensures
        final(buf)@ == filled(old(buf)@, at as int, low_byte(val), len as int),
{
    let ghost before = buf@;
    let total: usize = buf.len();
    assert(0 <= val & 0xFF < 256) by (bit_vector);
    let byte: u8 = (val & 0xFF) as u8;
    let mut i: usize = 0;
    while i < len
        invariant
            0 <= i <= len,
            total == before.len(),
            at + len <= before.len(),
            buf@.len() == before.len(),
            byte == low_byte(val),
            forall|j: int| at <= j < at + i ==> #[trigger] buf@[j] == byte,
            forall|j: int|
                0 <= j < before.len() && !(at <= j < at + i) ==> #[trigger] buf@[j] == before[j],
        decreases len - i,
    {
        buf[at + i] = byte;
        i = i + 1;
    }
    assert(buf@ =~= filled(before, at as int, low_byte(val), len as int));
}

/// The low byte of a number: the number itself where it is a byte.
pub open spec fn low_byte(val: i32) -> u8 {
    (val & 0xFF) as u8
}

} // verus!
