//! The arena of one tier: bump allocation plus size-classed free stacks.
use vstd::prelude::*;
use crate::blocks::{
    Block, block_end, blocks_disjoint, pairwise_disjoint, all_within, total_size, ends_by,
    lemma_total_push, lemma_total_remove, lemma_total_nonneg, lemma_total_filter, lemma_filter_disjoint, lemma_total_prefix, max_end, lemma_max_end,
};
use crate::handle::MemoryHandle;
use crate::tier::Tier;

verus! {

/// Granularity of arena bases.
pub const CACHE_LINE_SIZE: usize = 64;

/// Bytes that a free-stack entry would occupy in place; smaller blocks are not reused.
pub const FREE_NODE_SIZE: usize = 16;

/// Number of size classes, hence of free stacks, per arena.
pub const SIZE_CLASSES: usize = 8;

/// Largest region the allocator manages, in bytes.
pub const MAX_MEMORY_LIMIT: usize = 2 * 1024 * 1024 * 1024;

/// The block alignment of a tier: block lengths, and the offsets of blocks that the
/// bump cursor hands out, are multiples of it.
pub open spec fn tier_block_alignment(tier: Tier) -> int {
    tier.spec_alignment() as int
}

/// `size` rounded up to a multiple of `alignment`.
pub open spec fn spec_align_size(size: int, alignment: int) -> int {
    (size + alignment - 1) / alignment * alignment
}

/// The size class of a block length: one class per power of two from 32 bytes on,
/// the last class taking everything from 4096 bytes up. Allocation and release both
/// use this one function.
pub open spec fn spec_size_class(size: int) -> int {
    if size < 64 {
        0
    } else if size < 128 {
        1
    } else if size < 256 {
        2
    } else if size < 512 {
        3
    } else if size < 1024 {
        4
    } else if size < 2048 {
        5
    } else if size < 4096 {
        6
    } else {
        7
    }
}

pub fn size_class_for(size: usize) -> (r: usize)
    ensures
        r == spec_size_class(size as int),
        r < SIZE_CLASSES,
{
    if size < 64 {
        0
    } else if size < 128 {
        1
    } else if size < 256 {
        2
    } else if size < 512 {
        3
    } else if size < 1024 {
        4
    } else if size < 2048 {
        5
    } else if size < 4096 {
        6
    } else {
        7
    }
}

/// Rounding down to a multiple of `a` stays within `a` below and lands on a multiple.
pub proof fn lemma_round_down(x: int, a: int)
    requires
        0 <= x,
        0 < a,
    ensures
        0 <= x / a * a <= x < x / a * a + a,
        (x / a * a) % a == 0,
{
    vstd::arithmetic::div_mod::lemma_fundamental_div_mod(x, a);
    vstd::arithmetic::div_mod::lemma_mod_pos_bound(x, a);
    vstd::arithmetic::mul::lemma_mul_is_commutative(a, x / a);
    vstd::arithmetic::div_mod::lemma_mod_multiples_basic(x / a, a);
    assert(x / a >= 0) by {
        vstd::arithmetic::div_mod::lemma_div_is_ordered(0, x, a);
    }
    vstd::arithmetic::mul::lemma_mul_inequality(0, x / a, a);
}

/// What rounding a length up to a tier's block alignment gives.
pub proof fn lemma_align(size: int, tier: Tier, cap: int)
    requires
        0 <= size,
        0 <= cap,
        cap % tier_block_alignment(tier) == 0,
    ensures
        size <= spec_align_size(size, tier_block_alignment(tier)) < size + tier_block_alignment(tier),
        size <= cap ==> spec_align_size(size, tier_block_alignment(tier)) <= cap,
        spec_align_size(size, tier_block_alignment(tier)) % tier_block_alignment(tier) == 0,
        spec_align_size(0, tier_block_alignment(tier)) == 0,
{
    let a = tier_block_alignment(tier);
    lemma_round_down(size + a - 1, a);
    lemma_round_down(a - 1, a);
    vstd::arithmetic::div_mod::lemma_basic_div(a - 1, a);
    lemma_round_down(cap, a);
    let q = (size + a - 1) / a;
    let k = cap / a;
    assert(k * a == cap) by {
        vstd::arithmetic::div_mod::lemma_fundamental_div_mod(cap, a);
        vstd::arithmetic::mul::lemma_mul_is_commutative(a, k);
    }
    if size <= cap && q > k {
        vstd::arithmetic::mul::lemma_mul_inequality(k + 1, q, a);
        assert((k + 1) * a == k * a + a) by {
            vstd::arithmetic::mul::lemma_mul_is_distributive_add_other_way(a, k, 1);
        }
    } else if size <= cap {
        vstd::arithmetic::mul::lemma_mul_inequality(q, k, a);
    }
}

/// `x + y`, or `usize::MAX` where that does not fit.
pub open spec fn saturating_sum(x: int, y: int) -> usize {
    if x + y <= usize::MAX {
        (x + y) as usize
    } else {
        usize::MAX
    }
}

/// Position of the topmost block of the stack `fl` that is `len` bytes long, or -1
/// when there is none.
pub open spec fn topmost_fit(fl: Seq<Block>, len: int) -> int
    decreases fl.len(),
{
    if fl.len() == 0 {
        -1
    } else if fl.last().1 == len {
        fl.len() - 1
    } else {
        topmost_fit(fl.drop_last(), len)
    }
}

/// The topmost fit has the length asked for, and no block above it has.
pub proof fn lemma_topmost_fit(fl: Seq<Block>, len: int)
    ensures
        -1 <= topmost_fit(fl, len) < fl.len(),
        topmost_fit(fl, len) >= 0 ==> fl[topmost_fit(fl, len)].1 == len,
        forall|j: int| topmost_fit(fl, len) < j < fl.len() ==> (#[trigger] fl[j]).1 != len,
    decreases fl.len(),
{
    if fl.len() > 0 && fl.last().1 != len {
        let p = fl.drop_last();
        lemma_topmost_fit(p, len);
        assert forall|j: int| topmost_fit(fl, len) < j < fl.len() implies (#[trigger] fl[j]).1 != len by {
            if j < p.len() {
                assert(fl[j] == p[j]);
            }
        }
    }
}

/// The block starts and ends on a multiple of `a`.
pub open spec fn aligned_block(b: Block, a: int) -> bool {
    (b.0 as int) % a == 0 && (b.1 as int) % a == 0
}

/// Facts about multiples of a tier's block alignment.
pub proof fn lemma_multiples(tier: Tier, x: int, y: int)
    ensures
        0int % tier_block_alignment(tier) == 0,
        x % tier_block_alignment(tier) == 0 && y % tier_block_alignment(tier) == 0 ==> (x + y) % tier_block_alignment(tier) == 0
            && (x - y) % tier_block_alignment(tier) == 0,
        x % tier_block_alignment(tier) == 0 ==> spec_align_size(x, tier_block_alignment(tier)) == x,
        x % tier_block_alignment(tier) == 0 ==> x % (tier.spec_alignment() as int) == 0,
{
    let a = tier_block_alignment(tier);
    vstd::arithmetic::div_mod::lemma_mod_multiples_basic(0, a);
    if x % a == 0 {
        vstd::arithmetic::div_mod::lemma_fundamental_div_mod(x, a);
        let q = x / a;
        assert(x == a * q);
        if y % a == 0 {
            vstd::arithmetic::div_mod::lemma_fundamental_div_mod(y, a);
            let w = y / a;
            vstd::arithmetic::mul::lemma_mul_is_distributive_add(a, q, w);
            vstd::arithmetic::mul::lemma_mul_is_distributive_sub(a, q, w);
            vstd::arithmetic::mul::lemma_mul_is_commutative(a, q + w);
            vstd::arithmetic::mul::lemma_mul_is_commutative(a, q - w);
            vstd::arithmetic::div_mod::lemma_mod_multiples_basic(q + w, a);
            vstd::arithmetic::div_mod::lemma_mod_multiples_basic(q - w, a);
        }
        vstd::arithmetic::div_mod::lemma_div_multiples_vanish_fancy(q, a - 1, a);
        vstd::arithmetic::mul::lemma_mul_is_commutative(a, q);
        let t = tier.spec_alignment() as int;
        let f = a / t;
        match tier {
            Tier::Top => assert(a == 128 && t == 128 && f == 1),
            Tier::Middle => assert(a == 64 && t == 64 && f == 1),
            Tier::Bottom => assert(a == 8 && t == 8 && f == 1),
        }
        assert(a == t * f);
        vstd::arithmetic::mul::lemma_mul_is_associative(t, f, q);
        vstd::arithmetic::mul::lemma_mul_is_commutative(t, f * q);
        vstd::arithmetic::div_mod::lemma_mod_multiples_basic(f * q, t);
    }
}

/// What an arena holds, as values.
pub struct ArenaView {
    pub tier: Tier,
    /// Offset of the arena's first byte in the managed region.
    pub base: usize,
    pub capacity: usize,
    /// The bump cursor: bytes from the base that have been handed out at some time.
    pub head: usize,
    /// The blocks handed out and not given back, as (offset from base, length).
    pub live: Seq<Block>,
    /// One stack of reusable blocks per size class, top last.
    pub free: Seq<Seq<Block>>,
    /// Largest bump cursor seen since construction.
    pub peak: usize,
    /// Bytes handed out since construction, saturating.
    pub lifetime_total: usize,
}

impl ArenaView {
    pub open spec fn alignment(self) -> int {
        tier_block_alignment(self.tier)
    }

    /// Bytes in live blocks.
    pub open spec fn used(self) -> int {
        total_size(self.live)
    }

    pub open spec fn free_block(self, c: int, k: int) -> Block {
        self.free[c][k]
    }

    pub open spec fn wf(self) -> bool {
        &&& self.head <= self.capacity
        &&& self.base + self.capacity <= MAX_MEMORY_LIMIT
        &&& (self.capacity as int) % self.alignment() == 0
        &&& self.peak >= self.head
        &&& self.free.len() == SIZE_CLASSES
        &&& pairwise_disjoint(self.live)
        &&& all_within(self.live, self.head as int)
        &&& forall|c: int, k: int|
            0 <= c < SIZE_CLASSES && 0 <= k < self.free[c].len() ==> {
                &&& block_end(#[trigger] self.free[c][k]) <= self.head
                &&& self.free[c][k].1 >= FREE_NODE_SIZE
                &&& spec_size_class(self.free[c][k].1 as int) == c
                &&& aligned_block(self.free[c][k], self.alignment())
            }
        &&& forall|c: int, k: int, d: int, l: int|
            0 <= c < SIZE_CLASSES && 0 <= k < self.free[c].len() && 0 <= d < SIZE_CLASSES && 0 <= l
                < self.free[d].len() && (c != d || k != l) ==> blocks_disjoint(
                #[trigger] self.free[c][k],
                #[trigger] self.free[d][l],
            )
        &&& forall|i: int, c: int, k: int|
            0 <= i < self.live.len() && 0 <= c < SIZE_CLASSES && 0 <= k < self.free[c].len()
                ==> blocks_disjoint(#[trigger] self.live[i], #[trigger] self.free[c][k])
    }

    /// Where the next bump allocation starts: the cursor rounded up to the block
    /// alignment.
    pub open spec fn bump_start(self) -> int {
        spec_align_size(self.head as int, self.alignment())
    }

    /// Bytes that bump allocation can still hand out.
    pub open spec fn remaining(self) -> int {
        self.capacity - self.bump_start()
    }

    /// What `allocate(size)` leaves, and the offset it hands out: the topmost block of
    /// the size class's free stack whose length is exactly the aligned size, if there
    /// is one; else the block at the bump cursor rounded up to the block alignment,
    /// when it fits; else nothing.
    pub open spec fn after_allocate(self, size: int) -> (ArenaView, Option<usize>) {
        let a = spec_align_size(size, self.alignment());
        let c = spec_size_class(a);
        let fl = self.free[c];
        let k = topmost_fit(fl, a);
        if k >= 0 {
            (
                ArenaView {
                    live: self.live.push(fl[k]),
                    free: self.free.update(c, fl.remove(k)),
                    lifetime_total: saturating_sum(self.lifetime_total as int, a),
                    ..self
                },
                Some((self.base + fl[k].0) as usize),
            )
        } else if self.bump_start() + a <= self.capacity {
            let s = self.bump_start();
            (
                ArenaView {
                    head: (s + a) as usize,
                    live: self.live.push((s as usize, a as usize)),
                    peak: if s + a > self.peak { (s + a) as usize } else { self.peak },
                    lifetime_total: saturating_sum(self.lifetime_total as int, a),
                    ..self
                },
                Some((self.base + s) as usize),
            )
        } else {
            (self, None)
        }
    }

    /// A live block starts `off` bytes from the base and is `len` bytes long.
    pub open spec fn holds_block(self, off: int, len: int) -> bool {
        exists|i: int| 0 <= i < self.live.len() && self.live[i].0 == off && self.live[i].1 == len
    }

    /// Position of the first live block equal to `b`, if any.
    pub open spec fn first_live(self, b: Block) -> int {
        choose|i: int| 0 <= i < self.live.len() && self.live[i] == b && forall|j: int| 0 <= j < i ==> self.live[j] != b
    }

    /// What `deallocate(handle, size)` leaves, and whether it succeeds: the first live
    /// block at `handle` of the aligned length leaves the live blocks, and goes on top
    /// of its size class's free stack unless it is shorter than a free-stack entry.
    pub open spec fn after_deallocate(self, handle: MemoryHandle, size: int) -> (ArenaView, bool) {
        let a = spec_align_size(size, self.alignment());
        if !handle.spec_is_null() && handle.0 >= self.base && self.holds_block(handle.0 - self.base, a) {
            let b: Block = ((handle.0 - self.base) as usize, a as usize);
            let i = self.first_live(b);
            (
                ArenaView {
                    live: self.live.remove(i),
                    free: if a >= FREE_NODE_SIZE && (b.0 as int) % self.alignment() == 0 {
                        self.free.update(spec_size_class(a), self.free[spec_size_class(a)].push(b))
                    } else {
                        self.free
                    },
                    ..self
                },
                true,
            )
        } else {
            (self, false)
        }
    }

    /// What `fast_compact(n)` leaves when it succeeds: the cursor at `n`, and only the
    /// live blocks that end by then.
    pub open spec fn after_fast_compact(self, n: int) -> ArenaView {
        ArenaView {
            head: n as usize,
            live: self.live.filter(ends_by(n)),
            free: Seq::new(SIZE_CLASSES as nat, |c: int| Seq::<Block>::empty()),
            ..self
        }
    }

    /// What `advance_to(n)` leaves: the cursor at `n`, the bytes passed over one live
    /// block.
    pub open spec fn after_advance(self, n: int) -> ArenaView {
        ArenaView {
            head: n as usize,
            live: self.live.push((self.head, (n - self.head) as usize)),
            free: Seq::new(SIZE_CLASSES as nat, |c: int| Seq::<Block>::empty()),
            peak: if n > self.peak { n as usize } else { self.peak },
            ..self
        }
    }

    /// What `reset()` leaves.
    pub open spec fn after_reset(self) -> ArenaView {
        ArenaView {
            head: 0,
            live: Seq::empty(),
            free: Seq::new(SIZE_CLASSES as nat, |c: int| Seq::<Block>::empty()),
            ..self
        }
    }

    /// The free stacks, all empty.
    pub open spec fn no_free(self) -> bool {
        self.free == Seq::new(SIZE_CLASSES as nat, |c: int| Seq::<Block>::empty())
    }
}

/// The arena of one tier. Callers serialise access to it: every method that changes
/// it takes `&mut self`.
pub struct LockFreeArena {
    base_offset: usize,
    size: usize,
    allocation_head: usize,
    freelists: Vec<Vec<Block>>,
    live: Vec<Block>,
    tier: Tier,
    allocated: usize,
    peak_usage: usize,
    total_allocated: usize,
}

impl View for LockFreeArena {
    type V = ArenaView;

    closed spec fn view(&self) -> ArenaView {
        ArenaView {
            tier: self.tier,
            base: self.base_offset,
            capacity: self.size,
            head: self.allocation_head,
            live: self.live@,
            free: self.freelists@.map_values(|v: Vec<Block>| v@),
            peak: self.peak_usage,
            lifetime_total: self.total_allocated,
        }
    }
}

fn empty_freelists() -> (r: Vec<Vec<Block>>)
    ensures
        r@.map_values(|v: Vec<Block>| v@) == Seq::new(SIZE_CLASSES as nat, |c: int| Seq::<Block>::empty()),
{
    let mut r: Vec<Vec<Block>> = Vec::new();
    let mut i: usize = 0;
    while i < SIZE_CLASSES
        invariant
            i <= SIZE_CLASSES,
            r@.len() == i,
            forall|c: int| 0 <= c < i ==> (#[trigger] r@[c])@ == Seq::<Block>::empty(),
        decreases SIZE_CLASSES - i,
    {
        r.push(Vec::new());
        i = i + 1;
    }
    assert(r@.map_values(|v: Vec<Block>| v@) =~= Seq::new(SIZE_CLASSES as nat, |c: int| Seq::<Block>::empty()));
    r
}

impl LockFreeArena {
    pub closed spec fn wf(&self) -> bool {
        &&& self@.wf()
        &&& self.allocated == self@.used()
    }

    /// A well-formed arena has a well-formed view.
    pub proof fn lemma_wf(&self)
        requires
            self.wf(),
        ensures
            self@.wf(),
    {
    }

    /// An empty arena over `size` bytes from offset `base`. The base is moved up to a
    /// cache line and the length cut down to a multiple of the tier's block alignment.
    pub fn new(base: usize, size: usize, tier: Tier) -> (r: LockFreeArena)
        requires
            base + size <= MAX_MEMORY_LIMIT,
        ensures
            r.wf(),
            r@.tier == tier,
            r@.base == (base as int + CACHE_LINE_SIZE - 1) / (CACHE_LINE_SIZE as int) * (CACHE_LINE_SIZE as int),
            r@.capacity == ({
                let pad = r@.base - base;
                let rest: int = if size >= pad { size - pad } else { 0 };
                rest / tier_block_alignment(tier) * tier_block_alignment(tier)
            }),
            r@.head == 0,
            r@.live.len() == 0,
            r@.no_free(),
            r@.peak == 0,
            r@.lifetime_total == 0,
    {
        let aligned_base = (base + CACHE_LINE_SIZE - 1) / CACHE_LINE_SIZE * CACHE_LINE_SIZE;
        let pad = aligned_base - base;
        let rest = if size >= pad { size - pad } else { 0 };
        let a = Self::block_alignment(tier);
        proof {
            lemma_round_down(rest as int, a as int);
        }
        let capacity = rest / a * a;
        let r = LockFreeArena {
            base_offset: aligned_base,
            size: capacity,
            allocation_head: 0,
            freelists: empty_freelists(),
            live: Vec::new(),
            tier,
            allocated: 0,
            peak_usage: 0,
            total_allocated: 0,
        };
        proof {
            assert(r@.live.len() == 0);
        }
        r
    }

    fn block_alignment(tier: Tier) -> (r: usize)
        ensures
            r == tier_block_alignment(tier),
    {
        tier.alignment()
    }

    /// `size` rounded up to this arena's block alignment.
    pub fn align_size(&self, size: usize) -> (r: usize)
        requires
            size <= MAX_MEMORY_LIMIT,
        ensures
            r == spec_align_size(size as int, self@.alignment()),
    {
        let a = Self::block_alignment(self.tier);
        proof {
            lemma_round_down(size + a - 1, a as int);
        }
        (size + a - 1) / a * a
    }

    pub fn tier(&self) -> (r: Tier)
        ensures
            r == self@.tier,
    {
        self.tier
    }

    pub fn base_offset(&self) -> (r: usize)
        ensures
            r == self@.base,
    {
        self.base_offset
    }

    /// The handle of the arena's first byte.
    pub fn base_ptr(&self) -> (r: MemoryHandle)
        ensures
            r.0 == self@.base,
    {
        MemoryHandle(self.base_offset)
    }

    pub fn capacity(&self) -> (r: usize)
        ensures
            r == self@.capacity,
    {
        self.size
    }

    /// The bump cursor.
    pub fn usage(&self) -> (r: usize)
        ensures
            r == self@.head,
    {
        self.allocation_head
    }

    /// Bytes in live blocks.
    pub fn used(&self) -> (r: usize)
        requires
            self.wf(),
        ensures
            r == self@.used(),
    {
        self.allocated
    }

    /// Number of live blocks.
    pub fn allocation_count(&self) -> (r: usize)
        ensures
            r == self@.live.len(),
    {
        self.live.len()
    }

    /// Bytes in live blocks, capacity, peak bump cursor, and bytes handed out since
    /// construction.
    pub fn stats(&self) -> (r: (usize, usize, usize, usize))
        requires
            self.wf(),
        ensures
            r == (self@.used() as usize, self@.capacity, self@.peak, self@.lifetime_total),
    {
        (self.allocated, self.size, self.peak_usage, self.total_allocated)
    }

    /// Hands out a block of `size` bytes rounded up to the block alignment, as its
    /// offset in the managed region: see `ArenaView::after_allocate`.
    pub fn allocate(&mut self, size: usize) -> (r: Option<usize>)
        requires
            old(self).wf(),
        ensures
            final(self).wf(),
            (final(self)@, r) == old(self)@.after_allocate(size as int),
    {
        if size > self.size {
            proof {
                let a = spec_align_size(size as int, self@.alignment());
                lemma_align(size as int, self.tier, self.size as int);
                let c = spec_size_class(a);
                lemma_topmost_fit(self@.free[c], a);
                let k = topmost_fit(self@.free[c], a);
                if k >= 0 {
                    assert(block_end(self@.free[c][k]) <= self@.head);
                }
            }
            return None;
        }
        let aligned_size = self.align_size(size);
        proof {
            lemma_align(size as int, self.tier, self.size as int);
        }
        let c = size_class_for(aligned_size);
        let ghost o = self@;
        let ghost fl = o.free[c as int];
        let n = self.freelists[c].len();
        let mut k: usize = n;
        let mut found = false;
        while k > 0
            invariant_except_break
                !found,
                forall|j: int| k <= j < n ==> (#[trigger] fl[j]).1 != aligned_size,
            invariant
                self@ == o,
                self.freelists@.len() == SIZE_CLASSES,
                c < SIZE_CLASSES,
                fl == self.freelists@[c as int]@,
                n == fl.len(),
                k <= n,
            ensures
                k <= n,
                found ==> k < n && fl[k as int].1 == aligned_size,
                !found ==> k == 0,
                forall|j: int| k < j < n ==> (#[trigger] fl[j]).1 != aligned_size,
                !found ==> forall|j: int| 0 <= j < n ==> (#[trigger] fl[j]).1 != aligned_size,
            decreases k,
        {
            if self.freelists[c][k - 1].1 == aligned_size {
                proof {
                    assert forall|j: int| k - 1 < j < n implies (#[trigger] fl[j]).1 != aligned_size by {
                        assert(k <= j);
                    }
                }
                k = k - 1;
                found = true;
                break;
            }
            k = k - 1;
        }
        proof {
            lemma_topmost_fit(fl, aligned_size as int);
            let t = topmost_fit(fl, aligned_size as int);
            if found {
                assert(t == k as int);
            } else {
                assert(t == -1);
            }
        }
        if found {
            let fb = self.freelists[c][k];
            let mut stack = Vec::new();
            std::mem::swap(&mut stack, &mut self.freelists[c]);
            stack.remove(k);
            std::mem::swap(&mut stack, &mut self.freelists[c]);
            self.live.push(fb);
            proof {
                assert(fb == fl[k as int]);
                assert(self@.free =~= o.free.update(c as int, fl.remove(k as int)));
                assert(self@.live =~= o.live.push(fb));
                lemma_total_push(o.live, fb);
                lemma_allocate_block(o, size as int);
                crate::blocks::lemma_disjoint_total(self@.live, self@.head as int);
            }
            self.allocated = self.allocated + aligned_size;
            self.total_allocated = self.total_allocated.saturating_add(aligned_size);
            return Some(self.base_offset + fb.0);
        }
        proof {
            lemma_align(self.allocation_head as int, self.tier, self.size as int);
        }
        let offset = self.align_size(self.allocation_head);
        if aligned_size > self.size - offset {
            return None;
        }
        let blk: Block = (offset, aligned_size);
        self.live.push(blk);
        self.allocation_head = offset + aligned_size;
        if self.allocation_head > self.peak_usage {
            self.peak_usage = self.allocation_head;
        }
        proof {
            assert(self@.live =~= o.live.push(blk));
            lemma_total_push(o.live, blk);
            lemma_allocate_block(o, size as int);
            crate::blocks::lemma_disjoint_total(self@.live, self@.head as int);
        }
        self.allocated = self.allocated + aligned_size;
        self.total_allocated = self.total_allocated.saturating_add(aligned_size);
        Some(self.base_offset + offset)
    }

    /// Gives back the block at `handle` that was handed out for `size` bytes. Fails,
    /// changing nothing, unless that block is live. A block shorter than a free-stack
    /// entry is only dropped from the live blocks; a longer one goes on top of its size
    /// class's free stack.
    pub fn deallocate(&mut self, handle: MemoryHandle, size: usize) -> (r: bool)
        requires
            old(self).wf(),
        ensures
            final(self).wf(),
            (final(self)@, r) == old(self)@.after_deallocate(handle, size as int),
    {
        let ghost o = self@;
        if handle.is_null() || handle.0 < self.base_offset || size > self.size {
            proof {
                if !handle.spec_is_null() && handle.0 >= o.base && size > o.capacity {
                    lemma_align(size as int, self.tier, self.size as int);
                    if o.holds_block(handle.0 - o.base, spec_align_size(size as int, o.alignment())) {
                        let i = choose|i: int| 0 <= i < o.live.len() && o.live[i].0 == handle.0 - o.base
                            && o.live[i].1 == spec_align_size(size as int, o.alignment());
                        assert(block_end(o.live[i]) <= o.head);
                    }
                }
            }
            return false;
        }
        let local = handle.0 - self.base_offset;
        let aligned_size = self.align_size(size);
        let mut i: usize = 0;
        while i < self.live.len()
            invariant
                self@ == o,
                i <= self.live@.len(),
                forall|j: int| 0 <= j < i ==> #[trigger] self.live@[j] != (local, aligned_size),
            ensures
                i <= self.live@.len(),
                forall|j: int| 0 <= j < i ==> #[trigger] self.live@[j] != (local, aligned_size),
                i < self.live@.len() ==> self.live@[i as int] == (local, aligned_size),
            decreases self.live@.len() - i,
        {
            if self.live[i].0 == local && self.live[i].1 == aligned_size {
                break;
            }
            i = i + 1;
        }
        if i == self.live.len() {
            return false;
        }
        let blk = self.live.remove(i);
        proof {
            let b = o.live[i as int];
            assert(o.live[i as int] == b && forall|j: int| 0 <= j < i ==> o.live[j] != b);
            let f = o.first_live(b);
            assert(0 <= f < o.live.len() && o.live[f] == b && forall|j: int| 0 <= j < f ==> o.live[j] != b);
            assert(f == i as int);
            lemma_total_remove(o.live, i as int);
            lemma_total_nonneg(o.live.remove(i as int));
            assert(self@.live =~= o.live.remove(i as int));
            assert forall|j: int, k: int|
                0 <= j < self@.live.len() && 0 <= k < self@.live.len() && j != k
                implies blocks_disjoint(#[trigger] self@.live[j], #[trigger] self@.live[k]) by {
                let jj = if j < i { j } else { j + 1 };
                let kk = if k < i { k } else { k + 1 };
                assert(self@.live[j] == o.live[jj] && self@.live[k] == o.live[kk]);
            }
            assert forall|j: int| 0 <= j < self@.live.len()
                implies block_end(#[trigger] self@.live[j]) <= self@.head by {
                let jj = if j < i { j } else { j + 1 };
                assert(self@.live[j] == o.live[jj]);
            }
            assert forall|j: int, d: int, l: int|
                0 <= j < self@.live.len() && 0 <= d < SIZE_CLASSES && 0 <= l < self@.free[d].len()
                implies blocks_disjoint(#[trigger] self@.live[j], #[trigger] self@.free[d][l]) by {
                let jj = if j < i { j } else { j + 1 };
                assert(self@.live[j] == o.live[jj]);
            }
        }
        self.allocated = self.allocated - aligned_size;
        if aligned_size < FREE_NODE_SIZE || local % Self::block_alignment(self.tier) != 0 {
            return true;
        }
        let c = size_class_for(aligned_size);
        let ghost m = self@;
        let mut stack = Vec::new();
        std::mem::swap(&mut stack, &mut self.freelists[c]);
        stack.push(blk);
        std::mem::swap(&mut stack, &mut self.freelists[c]);
        proof {
            let ci = c as int;
            assert(self@.free =~= m.free.update(ci, m.free[ci].push(blk)));
            assert(block_end(o.live[i as int]) <= o.head);
            assert forall|j: int, d: int, l: int|
                0 <= j < self@.live.len() && 0 <= d < SIZE_CLASSES && 0 <= l < self@.free[d].len()
                implies blocks_disjoint(#[trigger] self@.live[j], #[trigger] self@.free[d][l]) by {
                let jj = if j < i { j } else { j + 1 };
                assert(self@.live[j] == o.live[jj]);
                if d == ci && l == m.free[ci].len() {
                    assert(blocks_disjoint(o.live[jj], o.live[i as int]));
                } else {
                    assert(self@.free[d][l] == m.free[d][l]);
                }
            }
            assert forall|d: int, l: int, e: int, n: int|
                0 <= d < SIZE_CLASSES && 0 <= l < self@.free[d].len() && 0 <= e < SIZE_CLASSES && 0 <= n
                    < self@.free[e].len() && (d != e || l != n)
                implies blocks_disjoint(#[trigger] self@.free[d][l], #[trigger] self@.free[e][n]) by {
                let top_l = d == ci && l == m.free[ci].len();
                let top_n = e == ci && n == m.free[ci].len();
                if top_l {
                    assert(blocks_disjoint(o.live[i as int], o.free[e][n]));
                } else if top_n {
                    assert(blocks_disjoint(o.live[i as int], o.free[d][l]));
                } else {
                    assert(self@.free[d][l] == m.free[d][l]);
                    assert(self@.free[e][n] == m.free[e][n]);
                }
            }
            assert forall|d: int, l: int| 0 <= d < SIZE_CLASSES && 0 <= l < self@.free[d].len()
                implies block_end(#[trigger] self@.free[d][l]) <= self@.head
                    && self@.free[d][l].1 >= FREE_NODE_SIZE
                    && spec_size_class(self@.free[d][l].1 as int) == d by {
                if !(d == ci && l == m.free[ci].len()) {
                    assert(self@.free[d][l] == m.free[d][l]);
                }
            }
        }
        true
    }

    /// Frees the whole tier at once: no live block, no free block, cursor at zero.
    pub fn reset(&mut self)
        requires
            old(self).wf(),
        ensures
            final(self).wf(),
            final(self)@ == old(self)@.after_reset(),
    {
        self.allocation_head = 0;
        self.freelists = empty_freelists();
        self.live = Vec::new();
        self.allocated = 0;
        proof {
            assert(self@.live =~= Seq::<Block>::empty());
        }
    }

    /// Moves the bump cursor back to `preserve_bytes` and empties the free stacks;
    /// only the live blocks that end by then stay live. Fails, changing nothing, when `preserve_bytes` is past the cursor.
    pub fn fast_compact(&mut self, preserve_bytes: usize) -> (r: bool)
        requires
            old(self).wf(),
        ensures
            final(self).wf(),
            r == (preserve_bytes <= old(self)@.head),
            !r ==> final(self)@ == old(self)@,
            r ==> final(self)@ == old(self)@.after_fast_compact(preserve_bytes as int),
    {
        if preserve_bytes > self.allocation_head {
            return false;
        }
        let ghost o = self@;
        let ghost keep = ends_by(preserve_bytes as int);
        let mut kept: Vec<Block> = Vec::new();
        let mut i: usize = 0;
        while i < self.live.len()
            invariant
                self@ == o,
                i <= self.live@.len(),
                keep == ends_by(preserve_bytes as int),
                kept@ == o.live.subrange(0, i as int).filter(keep),
            decreases self.live@.len() - i,
        {
            let b = self.live[i];
            proof {
                assert(o.live.subrange(0, i + 1) =~= o.live.subrange(0, i as int).push(b));
                o.live.subrange(0, i as int).lemma_filter_push(b, keep);
            }
            if b.1 <= preserve_bytes && b.0 <= preserve_bytes - b.1 {
                kept.push(b);
            }
            i = i + 1;
        }
        proof {
            assert(o.live.subrange(0, o.live.len() as int) =~= o.live);
            lemma_filter_disjoint(o.live, keep);
            lemma_total_filter(o.live, keep);
            assert forall|j: int| 0 <= j < kept@.len() implies block_end(#[trigger] kept@[j]) <= preserve_bytes by {
                assert(keep(kept@[j]));
            }
        }
        let mut total: usize = 0;
        let mut j: usize = 0;
        while j < kept.len()
            invariant
                j <= kept@.len(),
                total == total_size(kept@.subrange(0, j as int)),
                total_size(kept@) <= o.used(),
                o.used() == self.allocated,
            decreases kept@.len() - j,
        {
            proof {
                assert(kept@.subrange(0, j + 1).drop_last() =~= kept@.subrange(0, j as int));
                lemma_total_prefix(kept@, j as int);
            }
            total = total + kept[j].1;
            j = j + 1;
        }
        proof {
            assert(kept@.subrange(0, kept@.len() as int) =~= kept@);
        }
        self.live = kept;
        self.allocation_head = preserve_bytes;
        self.freelists = empty_freelists();
        self.allocated = total;
        true
    }

    /// Moves the bump cursor forward to `new_head`, the bytes passed over becoming one
    /// live block, and empties the free stacks.
    pub fn advance_to(&mut self, new_head: usize)
        requires
            old(self).wf(),
            old(self)@.head < new_head <= old(self)@.capacity,
        ensures
            final(self).wf(),
            final(self)@ == old(self)@.after_advance(new_head as int),
    {
        let ghost o = self@;
        let blk: Block = (self.allocation_head, new_head - self.allocation_head);
        self.live.push(blk);
        self.allocation_head = new_head;
        if new_head > self.peak_usage {
            self.peak_usage = new_head;
        }
        self.freelists = empty_freelists();
        proof {
            assert(self@.live =~= o.live.push(blk));
            lemma_total_push(o.live, blk);
            assert forall|i: int, j: int|
                0 <= i < self@.live.len() && 0 <= j < self@.live.len() && i != j
                implies blocks_disjoint(#[trigger] self@.live[i], #[trigger] self@.live[j]) by {
                if i < o.live.len() && j < o.live.len() {
                    assert(blocks_disjoint(o.live[i], o.live[j]));
                } else if i < o.live.len() {
                    assert(block_end(o.live[i]) <= o.head);
                } else {
                    assert(block_end(o.live[j]) <= o.head);
                }
            }
            assert forall|i: int| 0 <= i < self@.live.len()
                implies block_end(#[trigger] self@.live[i]) <= self@.head by {
                if i < o.live.len() {
                    assert(block_end(o.live[i]) <= o.head);
                }
            }
            crate::blocks::lemma_disjoint_total(self@.live, self@.head as int);
        }
        self.allocated = self.allocated + blk.1;
    }

    /// Raises the capacity, for a tier whose region has grown behind it.
    pub fn extend_capacity(&mut self, new_size: usize)
        requires
            old(self).wf(),
            old(self)@.capacity <= new_size,
            old(self)@.base + new_size <= MAX_MEMORY_LIMIT,
            (new_size as int) % old(self)@.alignment() == 0,
        ensures
            final(self).wf(),
            final(self)@ == (ArenaView { capacity: new_size, ..old(self)@ }),
    {
        self.size = new_size;
    }

    /// The furthest end of a live block: everything past it is free or unused.
    pub fn live_extent(&self) -> (r: usize)
        requires
            self.wf(),
        ensures
            r == max_end(self@.live),
            r <= self@.head,
    {
        let mut r: usize = 0;
        let mut i: usize = 0;
        proof {
            lemma_max_end(self@.live, self@.head as int);
        }
        while i < self.live.len()
            invariant
                self.wf(),
                i <= self.live@.len(),
                r == max_end(self.live@.subrange(0, i as int)),
                r <= self.allocation_head,
            decreases self.live@.len() - i,
        {
            let b = self.live[i];
            proof {
                assert(block_end(self@.live[i as int]) <= self@.head);
                assert(self.live@.subrange(0, i + 1).drop_last() =~= self.live@.subrange(0, i as int));
                assert(self.live@.subrange(0, i + 1).last() == b);
            }
            if b.0 + b.1 > r {
                r = b.0 + b.1;
            }
            i = i + 1;
        }
        proof {
            assert(self.live@.subrange(0, self.live@.len() as int) =~= self.live@);
        }
        r
    }
}

/// A block handed out by a well-formed arena lies inside it and shares no byte with
/// any block still live there; the arena stays well formed.
pub proof fn lemma_allocate_block(a: ArenaView, size: int)
    requires
        a.wf(),
        0 <= size,
    ensures
        a.after_allocate(size).0.wf(),
        a.after_allocate(size).1 matches Some(off) ==> {
            let b: Block = ((off - a.base) as usize, spec_align_size(size, a.alignment()) as usize);
            &&& off >= a.base
            &&& a.after_allocate(size).0.live == a.live.push(b)
            &&& block_end(b) <= a.after_allocate(size).0.head
            &&& a.head <= a.after_allocate(size).0.head
            &&& forall|i: int| 0 <= i < a.live.len() ==> blocks_disjoint(#[trigger] a.live[i], b)
            &&& aligned_block(b, a.alignment())
            &&& (off - a.base) % (a.tier.spec_alignment() as int) == 0
            &&& spec_align_size(size, a.alignment()) <= a.capacity
            &&& off - a.base + spec_align_size(size, a.alignment()) <= a.after_allocate(size).0.head
            &&& a.after_allocate(size).0.head <= a.capacity
            &&& a.after_allocate(size).0.capacity == a.capacity
            &&& a.after_allocate(size).0.base == a.base
            &&& a.after_allocate(size).0.tier == a.tier
        },
        a.after_allocate(size).1 is None ==> a.after_allocate(size).0 == a,
{
    let al = spec_align_size(size, a.alignment());
    lemma_align(size, a.tier, a.capacity as int);
    lemma_align(a.head as int, a.tier, a.capacity as int);
    let c = spec_size_class(al);
    let fl = a.free[c];
    let n = a.after_allocate(size).0;
    lemma_topmost_fit(fl, al);
    let k = topmost_fit(fl, al);
    if k >= 0 {
        let fb = fl[k];
        assert(fb == a.free[c][k]);
        assert(block_end(a.free[c][k]) <= a.head);
        assert(n.free == a.free.update(c, fl.remove(k)));
        assert forall|i: int, j: int|
            0 <= i < n.live.len() && 0 <= j < n.live.len() && i != j
            implies blocks_disjoint(#[trigger] n.live[i], #[trigger] n.live[j]) by {
            if i < a.live.len() && j < a.live.len() {
                assert(blocks_disjoint(a.live[i], a.live[j]));
            } else if i < a.live.len() {
                assert(blocks_disjoint(a.live[i], a.free[c][k]));
            } else {
                assert(blocks_disjoint(a.live[j], a.free[c][k]));
            }
        }
        assert forall|i: int, d: int, l: int|
            0 <= i < n.live.len() && 0 <= d < SIZE_CLASSES && 0 <= l < n.free[d].len()
            implies blocks_disjoint(#[trigger] n.live[i], #[trigger] n.free[d][l]) by {
            let ll = if d == c && l >= k { l + 1 } else { l };
            assert(n.free[d][l] == a.free[d][ll]);
            if i < a.live.len() {
                assert(blocks_disjoint(a.live[i], a.free[d][ll]));
            } else {
                assert(blocks_disjoint(a.free[c][k], a.free[d][ll]));
            }
        }
        assert forall|d: int, l: int, e: int, m: int|
            0 <= d < SIZE_CLASSES && 0 <= l < n.free[d].len() && 0 <= e < SIZE_CLASSES && 0 <= m
                < n.free[e].len() && (d != e || l != m)
            implies blocks_disjoint(#[trigger] n.free[d][l], #[trigger] n.free[e][m]) by {
            let ll = if d == c && l >= k { l + 1 } else { l };
            let mm = if e == c && m >= k { m + 1 } else { m };
            assert(n.free[d][l] == a.free[d][ll]);
            assert(n.free[e][m] == a.free[e][mm]);
        }
        assert forall|d: int, l: int| 0 <= d < SIZE_CLASSES && 0 <= l < n.free[d].len()
            implies block_end(#[trigger] n.free[d][l]) <= n.head
                && n.free[d][l].1 >= FREE_NODE_SIZE
                && spec_size_class(n.free[d][l].1 as int) == d
                && aligned_block(n.free[d][l], n.alignment()) by {
            let ll = if d == c && l >= k { l + 1 } else { l };
            assert(n.free[d][l] == a.free[d][ll]);
        }
        assert forall|i: int| 0 <= i < n.live.len()
            implies block_end(#[trigger] n.live[i]) <= n.head by {
            if i < a.live.len() {
                assert(block_end(a.live[i]) <= a.head);
            }
        }
        assert forall|i: int| 0 <= i < a.live.len() implies blocks_disjoint(#[trigger] a.live[i], fb) by {
            assert(blocks_disjoint(a.live[i], a.free[c][k]));
        }
        assert(aligned_block(a.free[c][k], a.alignment()));
        lemma_multiples(a.tier, fb.0 as int, 0);
    } else if a.bump_start() + al <= a.capacity {
        let b: Block = (a.bump_start() as usize, al as usize);
        assert forall|i: int, j: int|
            0 <= i < n.live.len() && 0 <= j < n.live.len() && i != j
            implies blocks_disjoint(#[trigger] n.live[i], #[trigger] n.live[j]) by {
            if i < a.live.len() && j < a.live.len() {
                assert(blocks_disjoint(a.live[i], a.live[j]));
            } else if i < a.live.len() {
                assert(block_end(a.live[i]) <= a.head);
            } else {
                assert(block_end(a.live[j]) <= a.head);
            }
        }
        assert forall|i: int, d: int, l: int|
            0 <= i < n.live.len() && 0 <= d < SIZE_CLASSES && 0 <= l < n.free[d].len()
            implies blocks_disjoint(#[trigger] n.live[i], #[trigger] n.free[d][l]) by {
            if i < a.live.len() {
                assert(blocks_disjoint(a.live[i], a.free[d][l]));
            } else {
                assert(block_end(a.free[d][l]) <= a.head);
            }
        }
        assert forall|i: int| 0 <= i < n.live.len()
            implies block_end(#[trigger] n.live[i]) <= n.head by {
            if i < a.live.len() {
                assert(block_end(a.live[i]) <= a.head);
            }
        }
        assert forall|i: int| 0 <= i < a.live.len() implies blocks_disjoint(#[trigger] a.live[i], b) by {
            assert(block_end(a.live[i]) <= a.head);
        }
        lemma_multiples(a.tier, a.bump_start(), 0);
    }
}

/// A successful release takes the block's length off the live bytes; a failed one
/// changes nothing.
pub proof fn lemma_deallocate_used(a: ArenaView, handle: MemoryHandle, size: int)
    ensures
        ({
            let r = a.after_deallocate(handle, size);
            &&& r.1 ==> {
                let b: Block = ((handle.0 - a.base) as usize, spec_align_size(size, a.alignment()) as usize);
                let i = a.first_live(b);
                &&& 0 <= i < a.live.len()
                &&& a.live[i] == b
                &&& forall|j: int| 0 <= j < i ==> a.live[j] != b
                &&& r.0.live == a.live.remove(i)
                &&& r.0.used() == a.used() - b.1
            }
            &&& !r.1 ==> r.0 == a
        }),
{
    let al = spec_align_size(size, a.alignment());
    if !handle.spec_is_null() && handle.0 >= a.base && a.holds_block(handle.0 - a.base, al) {
        let b: Block = ((handle.0 - a.base) as usize, al as usize);
        let w = choose|w: int| 0 <= w < a.live.len() && a.live[w].0 == handle.0 - a.base && a.live[w].1 == al;
        assert(a.live[w] == b);
        lemma_first_live_exists(a.live, b, w);
        let i = a.first_live(b);
        lemma_total_remove(a.live, i);
    }
}

proof fn lemma_first_live_exists(s: Seq<Block>, b: Block, w: int)
    requires
        0 <= w < s.len(),
        s[w] == b,
    ensures
        exists|i: int| 0 <= i < s.len() && s[i] == b && forall|j: int| 0 <= j < i ==> s[j] != b,
    decreases w,
{
    if exists|j: int| 0 <= j < w && s[j] == b {
        let j = choose|j: int| 0 <= j < w && s[j] == b;
        lemma_first_live_exists(s, b, j);
    } else {
        assert(forall|j: int| 0 <= j < w ==> s[j] != b);
    }
}

} // verus!
