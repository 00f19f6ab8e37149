//! Words stored in the managed bytes, least significant byte first.

use vstd::prelude::*;

verus! {

/// The number that the eight bytes from offset `off` on hold.
pub closed spec fn word_at(mem: Seq<u8>, off: int) -> int {
    mem[off] as int + 0x100 * (mem[off + 1] as int) + 0x1_0000 * (mem[off + 2] as int)
        + 0x100_0000 * (mem[off + 3] as int) + 0x1_0000_0000 * (mem[off + 4] as int)
        + 0x100_0000_0000 * (mem[off + 5] as int) + 0x1_0000_0000_0000 * (mem[off + 6] as int)
        + 0x100_0000_0000_0000 * (mem[off + 7] as int)
}

/// The bytes with the eight from offset `off` on replaced by those of `val`.
pub open spec fn with_word(mem: Seq<u8>, off: int, val: int) -> Seq<u8> {
    Seq::new(
        mem.len(),
        |j: int|
            if off <= j < off + 8 {
                byte_of(val, j - off)
            } else {
                mem[j]
            },
    )
}

/// Byte `k` of a number, counted from the least significant.
pub open spec fn byte_of(val: int, k: int) -> u8 {
    if k == 0 {
        (val % 0x100) as u8
    } else if k == 1 {
        (val / 0x100 % 0x100) as u8
    } else if k == 2 {
        (val / 0x1_0000 % 0x100) as u8
    } else if k == 3 {
        (val / 0x100_0000 % 0x100) as u8
    } else if k == 4 {
        (val / 0x1_0000_0000 % 0x100) as u8
    } else if k == 5 {
        (val / 0x100_0000_0000 % 0x100) as u8
    } else if k == 6 {
        (val / 0x1_0000_0000_0000 % 0x100) as u8
    } else {
        (val / 0x100_0000_0000_0000 % 0x100) as u8
    }
}

/// The eight bytes of a number that fits in eight bytes add up to it.
#[verifier::rlimit(30)]
pub proof fn lemma_bytes_of(val: int)
    requires
        0 <= val <= u64::MAX,
    ensures
        val == byte_of(val, 0) as int + 0x100 * (byte_of(val, 1) as int) + 0x1_0000 * (byte_of(
            val,
            2,
        ) as int) + 0x100_0000 * (byte_of(val, 3) as int) + 0x1_0000_0000 * (byte_of(val, 4) as int)
            + 0x100_0000_0000 * (byte_of(val, 5) as int) + 0x1_0000_0000_0000 * (byte_of(
            val,
            6,
        ) as int) + 0x100_0000_0000_0000 * (byte_of(val, 7) as int),
{
    let r1 = val / 0x100;
    let r2 = r1 / 0x100;
    let r3 = r2 / 0x100;
    let r4 = r3 / 0x100;
    let r5 = r4 / 0x100;
    let r6 = r5 / 0x100;
    let r7 = r6 / 0x100;
    assert(r2 == val / 0x1_0000);
    assert(r3 == val / 0x100_0000);
    assert(r4 == val / 0x1_0000_0000);
    assert(r5 == val / 0x100_0000_0000);
    assert(r6 == val / 0x1_0000_0000_0000);
    assert(r7 == val / 0x100_0000_0000_0000);
    assert(r7 < 0x100);
    assert(val == val % 0x100 + 0x100 * r1);
    assert(r1 == r1 % 0x100 + 0x100 * r2);
    assert(r2 == r2 % 0x100 + 0x100 * r3);
    assert(r3 == r3 % 0x100 + 0x100 * r4);
    assert(r4 == r4 % 0x100 + 0x100 * r5);
    assert(r5 == r5 % 0x100 + 0x100 * r6);
    assert(r6 == r6 % 0x100 + 0x100 * r7);
}

/// A word that was stored is the word that is read back.
pub proof fn lemma_with_word_same(mem: Seq<u8>, off: int, val: int)
    requires
        0 <= off,
        off + 8 <= mem.len(),
        0 <= val <= u64::MAX,
    ensures
        with_word(mem, off, val).len() == mem.len(),
        word_at(with_word(mem, off, val), off) == val,
{
    let m = with_word(mem, off, val);
    assert(m[off] == byte_of(val, 0));
    assert(m[off + 1] == byte_of(val, 1));
    assert(m[off + 2] == byte_of(val, 2));
    assert(m[off + 3] == byte_of(val, 3));
    assert(m[off + 4] == byte_of(val, 4));
    assert(m[off + 5] == byte_of(val, 5));
    assert(m[off + 6] == byte_of(val, 6));
    assert(m[off + 7] == byte_of(val, 7));
    lemma_bytes_of(val);
}

/// The bytes of a word that was read are the bytes it was read from.
#[verifier::rlimit(30)]
pub proof fn lemma_word_bytes(mem: Seq<u8>, off: int)
    requires
        0 <= off,
        off + 8 <= mem.len(),
    ensures
        byte_of(word_at(mem, off), 0) == mem[off],
        byte_of(word_at(mem, off), 1) == mem[off + 1],
        byte_of(word_at(mem, off), 2) == mem[off + 2],
        byte_of(word_at(mem, off), 3) == mem[off + 3],
        byte_of(word_at(mem, off), 4) == mem[off + 4],
        byte_of(word_at(mem, off), 5) == mem[off + 5],
        byte_of(word_at(mem, off), 6) == mem[off + 6],
        byte_of(word_at(mem, off), 7) == mem[off + 7],
{
    let w = word_at(mem, off);
    let b0 = mem[off] as int;
    let b1 = mem[off + 1] as int;
    let b2 = mem[off + 2] as int;
    let b3 = mem[off + 3] as int;
    let b4 = mem[off + 4] as int;
    let b5 = mem[off + 5] as int;
    let b6 = mem[off + 6] as int;
    let b7 = mem[off + 7] as int;
    let r7 = b7;
    let r6 = b6 + 0x100 * r7;
    let r5 = b5 + 0x100 * r6;
    let r4 = b4 + 0x100 * r5;
    let r3 = b3 + 0x100 * r4;
    let r2 = b2 + 0x100 * r3;
    let r1 = b1 + 0x100 * r2;
    assert(w == b0 + 0x100 * r1);
    assert(w / 0x100 == r1 && w % 0x100 == b0);
    assert(r1 / 0x100 == r2 && r1 % 0x100 == b1);
    assert(r2 / 0x100 == r3 && r2 % 0x100 == b2);
    assert(r3 / 0x100 == r4 && r3 % 0x100 == b3);
    assert(r4 / 0x100 == r5 && r4 % 0x100 == b4);
    assert(r5 / 0x100 == r6 && r5 % 0x100 == b5);
    assert(r6 / 0x100 == r7 && r6 % 0x100 == b6);
    assert(w / 0x1_0000 == r2);
    assert(w / 0x100_0000 == r3);
    assert(w / 0x1_0000_0000 == r4);
    assert(w / 0x100_0000_0000 == r5);
    assert(w / 0x1_0000_0000_0000 == r6);
    assert(w / 0x100_0000_0000_0000 == r7);
}

/// Words read the same from two memories that agree on their bytes.
pub proof fn lemma_word_frame(m1: Seq<u8>, m2: Seq<u8>, off: int)
    requires
        0 <= off,
        off + 8 <= m1.len(),
        off + 8 <= m2.len(),
        forall|j: int| off <= j < off + 8 ==> m1[j] == m2[j],
    ensures
        word_at(m1, off) == word_at(m2, off),
{
}

/// Reads the word at offset `off`.
#[verifier::rlimit(30)]
pub fn load_word(mem: &Vec<u8>, off: usize) -> (val: u64)
    requires
        off + 8 <= mem.len(),
    ensures
        val == word_at(mem@, off as int),
{
    let b0: u64 = mem[off] as u64;
    let b1: u64 = mem[off + 1] as u64;
    let b2: u64 = mem[off + 2] as u64;
    let b3: u64 = mem[off + 3] as u64;
    let b4: u64 = mem[off + 4] as u64;
    let b5: u64 = mem[off + 5] as u64;
    let b6: u64 = mem[off + 6] as u64;
    let b7: u64 = mem[off + 7] as u64;
    b0 + 0x100 * b1 + 0x1_0000 * b2 + 0x100_0000 * b3 + 0x1_0000_0000 * b4 + 0x100_0000_0000 * b5
        + 0x1_0000_0000_0000 * b6 + 0x100_0000_0000_0000 * b7
}

/// Stores `val` as the word at offset `off`.
#[verifier::rlimit(30)]
pub fn store_word(mem: &mut Vec<u8>, off: usize, val: u64)
    requires
        off + 8 <= old(mem).len(),
    ensures
        final(mem)@ == with_word(old(mem)@, off as int, val as int),
{
    let ghost before = mem@;
    mem[off] = (val % 0x100) as u8;
    mem[off + 1] = (val / 0x100 % 0x100) as u8;
    mem[off + 2] = (val / 0x1_0000 % 0x100) as u8;
    mem[off + 3] = (val / 0x100_0000 % 0x100) as u8;
    mem[off + 4] = (val / 0x1_0000_0000 % 0x100) as u8;
    mem[off + 5] = (val / 0x100_0000_0000 % 0x100) as u8;
    mem[off + 6] = (val / 0x1_0000_0000_0000 % 0x100) as u8;
    mem[off + 7] = (val / 0x100_0000_0000_0000 % 0x100) as u8;
    assert(mem@ =~= with_word(before, off as int, val as int));
}

} // verus!
