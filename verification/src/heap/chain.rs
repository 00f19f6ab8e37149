//! The free list as it stands in the managed bytes.
//!
//! A free fragment keeps its size in the first eight bytes of its first
//! granule and the address of the next fragment, or zero, in the eight bytes
//! after.

use vstd::prelude::*;
use crate::builtin::shifted;
use crate::heap::freelist::{
    Span, apart, base_of, block_in, block_is_live, cut, heads, in_header, lemma_neighbours,
    lemma_release_neighbours, lemma_splice_index, link_after_release, list_ok, merged, next_of,
    release, remains, slot, splice,
};
use crate::heap::memory::{lemma_word_bytes, lemma_word_frame, with_word, word_at};

verus! {

/// Whether the bytes hold the header of a fragment at `addr` with the given
/// size and link.
pub open spec fn header_is(mem: Seq<u8>, start: int, addr: int, size: int, next: int) -> bool {
    word_at(mem, addr - start) == size && word_at(mem, addr - start + 8) == next
}

/// Whether the bytes hold, for every fragment of the list, its size and the
/// address of the fragment after it.
pub open spec fn chain_is(mem: Seq<u8>, start: int, free: Seq<Span>) -> bool {
    forall|i: int| 0 <= i < free.len() ==> #[trigger] linked(mem, start, free, i)
}

/// Whether the bytes hold the header of fragment `i` of the list: its size
/// and the address of the fragment after it.
pub open spec fn linked(mem: Seq<u8>, start: int, free: Seq<Span>, i: int) -> bool {
    header_is(mem, start, free[i].base, free[i].size, next_of(free, i))
}

/// A header that lies in bytes which two memories agree on reads the same
/// from both.
pub proof fn lemma_header_kept(
    m1: Seq<u8>,
    m2: Seq<u8>,
    start: int,
    addr: int,
    size: int,
    next: int,
)
    requires
        header_is(m1, start, addr, size, next),
        0 <= addr - start,
        addr - start + 16 <= m1.len(),
        m1.len() == m2.len(),
        forall|j: int| addr - start <= j < addr - start + 16 ==> m1[j] == m2[j],
    ensures
        header_is(m2, start, addr, size, next),
{
    lemma_word_frame(m1, m2, addr - start);
    lemma_word_frame(m1, m2, addr - start + 8);
}

/// The link that the fragment before a cut fragment, or the head, gets: the
/// first piece that is left of the fragment, or what followed it.
pub open spec fn link_after_cut(free: Seq<Span>, idx: int, base: int, size: int) -> int {
    if base > free[idx].base {
        free[idx].base
    } else if base + size < free[idx].base + free[idx].size {
        base + size
    } else {
        next_of(free, idx)
    }
}

/// After a block was cut out of fragment `idx`, bytes that hold the headers
/// of the pieces left of it, and the new link in the fragment before it,
/// hold the chain of the list that `cut` gives.
#[verifier::rlimit(40)]
pub proof fn lemma_cut_chain(
    m0: Seq<u8>,
    m2: Seq<u8>,
    lo: int,
    hi: int,
    free: Seq<Span>,
    idx: int,
    base: int,
    size: int,
)
    requires
        list_ok(free, lo, hi),
        chain_is(m0, lo, free),
        m0.len() == hi - lo,
        m2.len() == hi - lo,
        0 <= idx < free.len(),
        block_in(free[idx], base, size),
        base + size < free[idx].base + free[idx].size ==> header_is(
            m2,
            lo,
            base + size,
            free[idx].base + free[idx].size - (base + size),
            next_of(free, idx),
        ),
        base > free[idx].base ==> header_is(
            m2,
            lo,
            free[idx].base,
            base - free[idx].base,
            if base + size < free[idx].base + free[idx].size {
                base + size
            } else {
                next_of(free, idx)
            },
        ),
        idx > 0 ==> header_is(
            m2,
            lo,
            free[idx - 1].base,
            free[idx - 1].size,
            link_after_cut(free, idx, base, size),
        ),
        forall|j: int|
            0 <= j < m0.len() && !(free[idx].base - lo <= j < free[idx].base + free[idx].size - lo)
                && !(idx > 0 && free[idx - 1].base - lo <= j < free[idx - 1].base - lo + 16)
                ==> m2[j] == m0[j],
    ensures
        chain_is(m2, lo, cut(free, idx, base, size)),
        base_of(cut(free, idx, base, size), 0) == if idx > 0 {
            free[0].base
        } else {
            link_after_cut(free, idx, base, size)
        },
{
    let f = free[idx];
    let mid = remains(f, base, size);
    let r = cut(free, idx, base, size);
    let n = mid.len() as int;
    let nb: int = if base > f.base {
        1
    } else {
        0
    };
    let top = base + size;
    lemma_splice_index(free, idx, idx + 1, mid);
    lemma_neighbours(free, lo, hi, idx);
    assert forall|k: int| 0 <= k < r.len() implies #[trigger] linked(m2, lo, r, k) by {
        if k < idx {
            assert(r[k] == free[k]);
            assert(linked(m0, lo, free, k));
            if k + 1 < idx {
                assert(r[k + 1] == free[k + 1]);
                assert(apart(free, k, idx - 1));
                lemma_header_kept(m0, m2, lo, free[k].base, free[k].size, next_of(free, k));
            } else {
                if k + 1 < r.len() {
                    if n > 0 {
                        assert(r[k + 1] == mid[0]);
                    } else {
                        assert(r[k + 1] == free[k + 2]);
                    }
                }
            }
        } else if k < idx + n {
            assert(r[k] == mid[k - idx]);
            if k + 1 < r.len() {
                if k + 1 < idx + n {
                    assert(r[k + 1] == mid[k + 1 - idx]);
                } else {
                    assert(r[k + 1] == free[k + 1 - n + 1]);
                }
            }
        } else {
            let j = k - n + 1;
            assert(r[k] == free[j]);
            if k + 1 < r.len() {
                assert(r[k + 1] == free[j + 1]);
            }
            assert(linked(m0, lo, free, j));
            assert(apart(free, idx, j));
            lemma_header_kept(m0, m2, lo, free[j].base, free[j].size, next_of(free, j));
        }
    }
    if r.len() > 0 {
        if idx > 0 {
            assert(r[0] == free[0]);
        } else if n > 0 {
            assert(r[0] == mid[0]);
        } else {
            assert(r[0] == free[1]);
        }
    }
}

/// After a block was released, bytes that hold the header of the fragment it
/// became, and the new link in the fragment before it, hold the chain of the
/// list that `release` gives.
#[verifier::rlimit(40)]
pub proof fn lemma_release_chain(
    m0: Seq<u8>,
    m2: Seq<u8>,
    lo: int,
    hi: int,
    free: Seq<Span>,
    block: Span,
)
    requires
        list_ok(free, lo, hi),
        chain_is(m0, lo, free),
        m0.len() == hi - lo,
        m2.len() == hi - lo,
        block_is_live(free, block),
        lo <= block.base,
        block.base + block.size <= hi,
        block.size >= 16,
        header_is(
            m2,
            lo,
            merged(free, block).base,
            merged(free, block).size,
            link_after_release(free, block),
        ),
        slot(free, block.base) > 0 && merged(free, block).base == block.base ==> header_is(
            m2,
            lo,
            free[slot(free, block.base) - 1].base,
            free[slot(free, block.base) - 1].size,
            block.base,
        ),
        forall|j: int|
            0 <= j < m0.len() && !(block.base - lo <= j < block.base - lo + 16) && !(slot(
                free,
                block.base,
            ) > 0 && free[slot(free, block.base) - 1].base - lo <= j < free[slot(
                free,
                block.base,
            ) - 1].base - lo + 16) ==> m2[j] == m0[j],
    ensures
        chain_is(m2, lo, release(free, block)),
        base_of(release(free, block), 0) == if slot(free, block.base) > 1 || (slot(
            free,
            block.base,
        ) == 1 && merged(free, block).base == block.base) {
            free[0].base
        } else {
            merged(free, block).base
        },
{
    let i = slot(free, block.base);
    lemma_release_neighbours(free, lo, hi, block);
    let joins_next = i < free.len() && free[i].base == block.base + block.size;
    let joins_prev = i > 0 && free[i - 1].base + free[i - 1].size == block.base;
    let kb = if joins_prev {
        i - 1
    } else {
        i
    };
    let ka = if joins_next {
        i + 1
    } else {
        i
    };
    let m = merged(free, block);
    let mid = seq![m];
    let r = release(free, block);
    assert(r == splice(free, kb, ka, mid));
    lemma_splice_index(free, kb, ka, mid);
    if i > 0 {
        lemma_neighbours(free, lo, hi, i - 1);
    }
    if i < free.len() {
        lemma_neighbours(free, lo, hi, i);
    }
    assert forall|k: int| 0 <= k < r.len() implies #[trigger] linked(m2, lo, r, k) by {
        if k < kb {
            assert(r[k] == free[k]);
            assert(linked(m0, lo, free, k));
            if k + 1 < kb {
                assert(r[k + 1] == free[k + 1]);
            } else {
                assert(r[k + 1] == mid[0]);
            }
            if k < i - 1 {
                assert(apart(free, k, i - 1));
                assert(free[k].base + free[k].size <= block.base);
                lemma_header_kept(m0, m2, lo, free[k].base, free[k].size, next_of(free, k));
            }
        } else if k == kb {
            assert(r[k] == mid[0]);
            if k + 1 < r.len() {
                assert(r[k + 1] == free[ka]);
            }
        } else {
            let j = k - kb - 1 + ka;
            assert(r[k] == free[j]);
            if k + 1 < r.len() {
                assert(r[k + 1] == free[j + 1]);
            }
            assert(linked(m0, lo, free, j));
            if j > i {
                assert(apart(free, i, j));
            }
            if i > 0 {
                assert(apart(free, i - 1, j));
            }
            assert(block.base + block.size <= free[j].base || free[j].base + free[j].size
                <= block.base);
            lemma_header_kept(m0, m2, lo, free[j].base, free[j].size, next_of(free, j));
        }
    }
    if kb > 0 {
        assert(r[0] == free[0]);
    } else {
        assert(r[0] == mid[0]);
    }
}

/// Bytes that differ only outside the first granule of every fragment hold
/// the same chain.
#[verifier::rlimit(30)]
pub proof fn lemma_chain_kept(m1: Seq<u8>, m2: Seq<u8>, lo: int, hi: int, free: Seq<Span>)
    requires
        list_ok(free, lo, hi),
        chain_is(m1, lo, free),
        m1.len() == hi - lo,
        m2.len() == hi - lo,
        forall|j: int| 0 <= j < m1.len() && in_header(free, j + lo) ==> #[trigger] m2[j] == m1[j],
    ensures
        chain_is(m2, lo, free),
{
    assert forall|k: int| 0 <= k < free.len() implies #[trigger] linked(m2, lo, free, k) by {
        assert(linked(m1, lo, free, k));
        lemma_neighbours(free, lo, hi, k);
        assert forall|j: int| free[k].base - lo <= j < free[k].base - lo + 16 implies m1[j]
            == m2[j] by {
            assert(heads(free[k], j + lo));
        }
        lemma_header_kept(m1, m2, lo, free[k].base, free[k].size, next_of(free, k));
    }
}

/// The bytes with the sixteen from offset `off` on replaced by the two
/// words `a` and `b`.
pub open spec fn with_pair(mem: Seq<u8>, off: int, a: int, b: int) -> Seq<u8> {
    with_word(with_word(mem, off, a), off + 8, b)
}

/// Storing the two words that were read from sixteen bytes of one memory
/// writes those sixteen bytes, and leaves all other bytes as they are.
#[verifier::rlimit(30)]
pub proof fn lemma_restore(src: Seq<u8>, soff: int, mem: Seq<u8>, off: int)
    requires
        0 <= soff,
        soff + 16 <= src.len(),
        0 <= off,
        off + 16 <= mem.len(),
    ensures
        with_pair(mem, off, word_at(src, soff), word_at(src, soff + 8)).len() == mem.len(),
        forall|k: int|
            0 <= k < 16 ==> #[trigger] with_pair(
                mem,
                off,
                word_at(src, soff),
                word_at(src, soff + 8),
            )[off + k] == src[soff + k],
        forall|j: int|
            0 <= j < mem.len() && !(off <= j < off + 16) ==> #[trigger] with_pair(
                mem,
                off,
                word_at(src, soff),
                word_at(src, soff + 8),
            )[j] == mem[j],
{
    lemma_word_bytes(src, soff);
    lemma_word_bytes(src, soff + 8);
}

/// The bytes after a block was moved: the `keep` bytes from offset `src` of
/// `mem` copied to offset `dst`, then the first granule written from what
/// `saved` held at `src`, then, where `behind` says so, the granule at
/// offset `d` of the block written from what `saved` held there.
pub open spec fn moved(
    saved: Seq<u8>,
    mem: Seq<u8>,
    dst: int,
    src: int,
    keep: int,
    behind: bool,
    d: int,
) -> Seq<u8> {
    let copied = with_pair(
        shifted(mem, dst, src, keep),
        dst,
        word_at(saved, src),
        word_at(saved, src + 8),
    );
    if behind {
        with_pair(copied, dst + d, word_at(saved, src + d), word_at(saved, src + d + 8))
    } else {
        copied
    }
}

/// A block that is moved holds afterwards what it held at first, if the
/// only bytes of it that were written in between are those of its first
/// granule and of the granule that is saved besides. No byte outside the new
/// place of the block is written by the move.
#[verifier::rlimit(60)]
pub proof fn lemma_moved(
    saved: Seq<u8>,
    mem: Seq<u8>,
    dst: int,
    src: int,
    keep: int,
    behind: bool,
    d: int,
)
    requires
        saved.len() == mem.len(),
        0 <= src,
        src + keep <= mem.len(),
        0 <= dst,
        dst + keep <= mem.len(),
        keep >= 16,
        behind ==> 16 <= d && d + 16 <= keep,
        forall|a: int|
            src + 16 <= a < src + keep && !(behind && src + d <= a < src + d + 16)
                ==> #[trigger] mem[a] == saved[a],
    ensures
        moved(saved, mem, dst, src, keep, behind, d).len() == mem.len(),
        forall|i: int|
            dst <= i < dst + keep ==> #[trigger] moved(saved, mem, dst, src, keep, behind, d)[i]
                == saved[i - dst + src],
        forall|i: int|
            0 <= i < mem.len() && !(dst <= i < dst + keep) ==> #[trigger] moved(
                saved,
                mem,
                dst,
                src,
                keep,
                behind,
                d,
            )[i] == mem[i],
{
    let m3 = shifted(mem, dst, src, keep);
    let m4 = with_pair(m3, dst, word_at(saved, src), word_at(saved, src + 8));
    let m5 = moved(saved, mem, dst, src, keep, behind, d);
    lemma_restore(saved, src, m3, dst);
    if behind {
        lemma_restore(saved, src + d, m4, dst + d);
    }
    assert forall|i: int| dst <= i < dst + keep implies #[trigger] m5[i] == saved[i - dst
        + src] by {
        let j = i - dst;
        if j < 16 {
            assert(m4[dst + j] == saved[src + j]);
            if behind {
                assert(m5[i] == m4[i]);
            }
        } else if behind && d <= j < d + 16 {
            let k = j - d;
            assert(m5[(dst + d) + k] == saved[(src + d) + k]);
        } else {
            assert(m3[i] == mem[src + j]);
            assert(mem[src + j] == saved[src + j]);
            assert(m4[i] == m3[i]);
            if behind {
                assert(m5[i] == m4[i]);
            }
        }
    }
    assert forall|i: int| 0 <= i < mem.len() && !(dst <= i < dst + keep) implies #[trigger] m5[i]
        == mem[i] by {
        assert(m3[i] == mem[i]);
        assert(m4[i] == m3[i]);
        if behind {
            assert(m5[i] == m4[i]);
        }
    }
}

} // verus!
