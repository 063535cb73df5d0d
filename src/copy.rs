//! The bulk copy engine: size-tiered word moves, then wide blocks for long runs.
use vstd::prelude::*;
use crate::handle::MemoryHandle;

verus! {

/// `dst` with `bytes` written over it from position `at` on.
pub open spec fn spliced(dst: Seq<u8>, at: int, bytes: Seq<u8>) -> Seq<u8> {
    dst.subrange(0, at) + bytes + dst.subrange(at + bytes.len(), dst.len() as int)
}

/// Position by position: `new` is `old` with bytes `k..k + w` of the transfer of
/// `src[s..]` to `d..` done.
pub open spec fn moved(new: Seq<u8>, old: Seq<u8>, src: Seq<u8>, s: int, d: int, k: int, w: int) -> bool {
    &&& new.len() == old.len()
    &&& forall|i: int|
        0 <= i < new.len() ==> #[trigger] new[i] == if d + k <= i < d + k + w {
            src[s + i - d]
        } else {
            old[i]
        }
}

proof fn lemma_moved_is_spliced(new: Seq<u8>, old: Seq<u8>, src: Seq<u8>, s: int, d: int, len: int)
    requires
        moved(new, old, src, s, d, 0, len),
        0 <= s,
        s + len <= src.len(),
        0 <= d,
        d + len <= old.len(),
        0 <= len,
    ensures
        new == spliced(old, d, src.subrange(s, s + len)),
{
    assert(new =~= spliced(old, d, src.subrange(s, s + len)));
}

/// One copy inside the managed region: source handle, destination handle, length.
pub type CopyOp = (MemoryHandle, MemoryHandle, usize);

/// A copy that moves something: it is not empty, neither handle is null, and both
/// runs lie inside a region of `mem_len` bytes.
pub open spec fn op_applies(mem_len: int, op: CopyOp) -> bool {
    &&& op.2 > 0
    &&& !op.0.spec_is_null()
    &&& !op.1.spec_is_null()
    &&& op.0.0 + op.2 <= mem_len
    &&& op.1.0 + op.2 <= mem_len
}

/// The region after one copy; the source run is read whole before it is written.
pub open spec fn apply_copy(mem: Seq<u8>, op: CopyOp) -> Seq<u8> {
    if op_applies(mem.len() as int, op) {
        spliced(mem, op.1.0 as int, mem.subrange(op.0.0 as int, op.0.0 + op.2))
    } else {
        mem
    }
}

/// The region after the copies, in order.
pub open spec fn apply_copies(mem: Seq<u8>, ops: Seq<CopyOp>) -> Seq<u8>
    decreases ops.len(),
{
    if ops.len() == 0 {
        mem
    } else {
        apply_copy(apply_copies(mem, ops.drop_last()), ops.last())
    }
}

/// Copies never change the region's length.
pub proof fn lemma_apply_copies_len(mem: Seq<u8>, ops: Seq<CopyOp>)
    ensures
        apply_copies(mem, ops).len() == mem.len(),
    decreases ops.len(),
{
    if ops.len() > 0 {
        lemma_apply_copies_len(mem, ops.drop_last());
    }
}

/// Copies of byte runs between buffers.
pub struct SIMDOps;

/// Widest move the engine makes at once, in bytes.
pub const VECTOR_WIDTH: usize = 32;

/// Bytes moved per iteration of the wide loop: four vectors.
pub const BLOCK_WIDTH: usize = 128;

impl SIMDOps {
    /// Moves bytes `k..k + w` of the transfer as one word: all loaded, then all stored.
    fn move_word(src: &[u8], s: usize, dst: &mut Vec<u8>, d: usize, k: usize, w: usize)
        requires
            w <= VECTOR_WIDTH,
            s + k + w <= src@.len(),
            d + k + w <= old(dst)@.len(),
        ensures
            moved(final(dst)@, old(dst)@, src@, s as int, d as int, k as int, w as int),
    {
        let src_len = src.len();
        let dst_len = dst.len();
        let mut word: [u8; 32] = [0u8; 32];
        let mut j: usize = 0;
        while j < w
            invariant
                src@.len() == src_len,
                j <= w,
                w <= VECTOR_WIDTH,
                s + k + w <= src@.len(),
                forall|t: int| 0 <= t < j ==> #[trigger] word@[t] == src@[s + k + t],
            decreases w - j,
        {
            word[j] = src[s + k + j];
            j = j + 1;
        }
        let ghost before = dst@;
        let mut j: usize = 0;
        while j < w
            invariant
                dst@.len() == dst_len,
                before.len() == dst_len,
                src@.len() == src_len,
                s + k + w <= src@.len(),
                j <= w,
                w <= VECTOR_WIDTH,
                d + k + w <= before.len(),
                forall|t: int| 0 <= t < w ==> #[trigger] word@[t] == src@[s + k + t],
                moved(dst@, before, src@, s as int, d as int, k as int, j as int),
            decreases w - j,
        {
            dst.set(d + k + j, word[j]);
            j = j + 1;
        }
    }

    /// Copies `len` bytes of `src` from `src_off` over `dst` from `dst_off`.
    ///
    /// Up to 8 bytes move as two overlapping 4-byte words (or one by one below 4),
    /// up to 16 as two overlapping 8-byte words, up to 32 as two overlapping 16-byte
    /// words; longer runs take the wide path.
    pub fn fast_copy(src: &[u8], src_off: usize, dst: &mut Vec<u8>, dst_off: usize, len: usize)
        requires
            src_off + len <= src@.len(),
            dst_off + len <= old(dst)@.len(),
        ensures
            final(dst)@ == spliced(old(dst)@, dst_off as int, src@.subrange(src_off as int, src_off + len)),
    {
        let ghost before = dst@;
        if len <= VECTOR_WIDTH {
            Self::copy_small(src, src_off, dst, dst_off, 0, len);
        } else {
            Self::copy_vectorized(src, src_off, dst, dst_off, len);
        }
        proof {
            lemma_moved_is_spliced(dst@, before, src@, src_off as int, dst_off as int, len as int);
        }
    }

    /// Carries out the copies in order, skipping any that is empty, names a null
    /// handle, or runs past the end of `memory`.
    pub fn bulk_copy_optimized(memory: &mut Vec<u8>, operations: &[CopyOp])
        ensures
            final(memory)@ == apply_copies(old(memory)@, operations@),
    {
        let ghost start = memory@;
        let mem_len = memory.len();
        let mut i: usize = 0;
        while i < operations.len()
            invariant
                i <= operations@.len(),
                memory@.len() == mem_len,
                memory@ == apply_copies(start, operations@.subrange(0, i as int)),
            decreases operations@.len() - i,
        {
            let op = operations[i];
            proof {
                assert(operations@.subrange(0, i + 1).drop_last() =~= operations@.subrange(0, i as int));
                assert(operations@.subrange(0, i + 1).last() == op);
            }
            let (src, dst, len) = op;
            if len > 0 && !src.is_null() && !dst.is_null() && src.0 <= mem_len && len <= mem_len - src.0
                && dst.0 <= mem_len && len <= mem_len - dst.0 {
                let mut tmp: Vec<u8> = vec![0u8; len];
                Self::fast_copy(memory.as_slice(), src.0, &mut tmp, 0, len);
                proof {
                    assert(tmp@ =~= memory@.subrange(src.0 as int, src.0 + len));
                }
                Self::fast_copy(tmp.as_slice(), 0, memory, dst.0, len);
                proof {
                    assert(tmp@.subrange(0, len as int) =~= tmp@);
                }
            }
            i = i + 1;
        }
        proof {
            assert(operations@.subrange(0, operations@.len() as int) =~= operations@);
        }
    }

    /// Moves bytes `k..len` of the transfer, at most 32 of them.
    fn copy_small(src: &[u8], s: usize, dst: &mut Vec<u8>, d: usize, k: usize, len: usize)
        requires
            k <= len,
            len - k <= VECTOR_WIDTH,
            s + len <= src@.len(),
            d + len <= old(dst)@.len(),
        ensures
            moved(final(dst)@, old(dst)@, src@, s as int, d as int, k as int, len - k),
    {
        let n = len - k;
        if n == 0 {
            return;
        }
        let ghost before = dst@;
        if n < 4 {
            Self::move_word(src, s, dst, d, k, n);
        } else {
            let w: usize = if n <= 8 {
                4
            } else if n <= 16 {
                8
            } else {
                16
            };
            Self::move_word(src, s, dst, d, k, w);
            let ghost mid = dst@;
            Self::move_word(src, s, dst, d, len - w, w);
            proof {
                assert forall|i: int| 0 <= i < dst@.len() implies #[trigger] dst@[i] == if d + k <= i < d + len {
                    src@[s + i - d]
                } else {
                    before[i]
                } by {
                    assert(dst@[i] == mid[i] || d + len - w <= i < d + len);
                    assert(mid[i] == before[i] || d + k <= i < d + k + w);
                }
            }
        }
    }

    /// The wide path: blocks of four vectors, then single vectors, then the tail
    /// through the small-size moves.
    pub fn copy_vectorized(src: &[u8], s: usize, dst: &mut Vec<u8>, d: usize, len: usize)
        requires
            s + len <= src@.len(),
            d + len <= old(dst)@.len(),
        ensures
            moved(final(dst)@, old(dst)@, src@, s as int, d as int, 0, len as int),
    {
        let ghost before = dst@;
        let mut offset: usize = 0;
        while len - offset >= BLOCK_WIDTH
            invariant
                offset <= len,
                s + len <= src@.len(),
                d + len <= before.len(),
                moved(dst@, before, src@, s as int, d as int, 0, offset as int),
            decreases len - offset,
        {
            let mut v: usize = 0;
            while v < 4
                invariant
                    v <= 4,
                    offset + BLOCK_WIDTH <= len,
                    s + len <= src@.len(),
                    d + len <= before.len(),
                    moved(dst@, before, src@, s as int, d as int, 0, offset + v * VECTOR_WIDTH),
                decreases 4 - v,
            {
                let ghost prev = dst@;
                Self::move_word(src, s, dst, d, offset + v * VECTOR_WIDTH, VECTOR_WIDTH);
                proof {
                    assert forall|i: int| 0 <= i < dst@.len() implies #[trigger] dst@[i] == if d <= i < d + offset + (v + 1) * VECTOR_WIDTH {
                        src@[s + i - d]
                    } else {
                        before[i]
                    } by {
                        assert(dst@[i] == prev[i] || d + offset + v * VECTOR_WIDTH <= i < d + offset + (v + 1) * VECTOR_WIDTH);
                    }
                }
                v = v + 1;
            }
            offset = offset + BLOCK_WIDTH;
        }
        while len - offset >= VECTOR_WIDTH
            invariant
                offset <= len,
                s + len <= src@.len(),
                d + len <= before.len(),
                moved(dst@, before, src@, s as int, d as int, 0, offset as int),
            decreases len - offset,
        {
            let ghost prev = dst@;
            Self::move_word(src, s, dst, d, offset, VECTOR_WIDTH);
            proof {
                assert forall|i: int| 0 <= i < dst@.len() implies #[trigger] dst@[i] == if d <= i < d + offset + VECTOR_WIDTH {
                    src@[s + i - d]
                } else {
                    before[i]
                } by {
                    assert(dst@[i] == prev[i] || d + offset <= i < d + offset + VECTOR_WIDTH);
                }
            }
            offset = offset + VECTOR_WIDTH;
        }
        if offset < len {
            let ghost prev = dst@;
            Self::copy_small(src, s, dst, d, offset, len);
            proof {
                assert forall|i: int| 0 <= i < dst@.len() implies #[trigger] dst@[i] == if d <= i < d + len {
                    src@[s + i - d]
                } else {
                    before[i]
                } by {
                    assert(dst@[i] == prev[i] || d + offset <= i < d + len);
                }
            }
        }
    }
}

} // verus!
