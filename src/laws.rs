//! Properties of the allocator that span several calls.
use vstd::prelude::*;
use crate::arena::{ArenaView, spec_align_size, lemma_align, lemma_allocate_block, lemma_deallocate_used};
use crate::blocks::{
    Block, block_end, blocks_disjoint, pairwise_disjoint, all_within, max_end, lemma_total_push,
    lemma_total_filter, lemma_disjoint_total, lemma_max_end_bounds, lemma_filter_all_within, ends_by,
};
use crate::copy::spliced;
use crate::handle::MemoryHandle;
use crate::owner::OwnedBlock;
use crate::tier::Tier;
use crate::walloc::{WallocView, fast_compact_tier_result, released};

verus! {

/// The blocks an arena has handed out and not taken back share no byte and lie
/// inside it; and a block it hands out shares no byte with any of them.
pub proof fn lemma_no_overlap(a: ArenaView, size: usize)
    requires
        a.wf(),
    ensures
        pairwise_disjoint(a.live),
        all_within(a.live, a.capacity as int),
        a.after_allocate(size as int).1 matches Some(off) ==> {
            let b: Block = ((off - a.base) as usize, spec_align_size(size as int, a.alignment()) as usize);
            &&& block_end(b) <= a.capacity
            &&& forall|i: int| 0 <= i < a.live.len() ==> blocks_disjoint(#[trigger] a.live[i], b)
            &&& (off - a.base) % (a.tier.spec_alignment() as int) == 0
        },
{
    lemma_allocate_block(a, size as int);
    assert forall|i: int| 0 <= i < a.live.len() implies block_end(#[trigger] a.live[i]) <= a.capacity by {
        assert(block_end(a.live[i]) <= a.head);
    }
}

/// Bytes written to a block just allocated for them read back unchanged, whenever the
/// tier has that many bytes left for bump allocation (past its cursor rounded up to
/// the block alignment).
pub proof fn lemma_write_read_round_trip(w: WallocView, tier: Tier, b: Seq<u8>)
    requires
        w.wf(),
        w.space.spec_is_established(),
        b.len() <= w.arena(tier).remaining(),
    ensures
        w.after_allocate(tier, b.len() as int).1 is Some,
        ({
            let p = w.after_allocate(tier, b.len() as int);
            let h = p.1->Some_0;
            &&& p.0.readable(h, b.len() as int)
            &&& (WallocView { memory: spliced(p.0.memory, h.0 as int, b), ..p.0 }).read(h, b.len() as int) == Some(b)
        }),
{
    let a = w.arena(tier);
    assert(a.wf());
    lemma_align(a.head as int, tier, a.capacity as int);
    crate::arena::lemma_multiples(tier, a.capacity as int, a.bump_start());
    lemma_align(b.len() as int, tier, a.capacity - a.bump_start());
    lemma_allocate_block(a, b.len() as int);
    let p = w.after_allocate(tier, b.len() as int);
    let h = p.1->Some_0;
    assert(a.base + a.capacity <= w.memory.len());
    assert(p.0.memory == w.memory);
    let m = spliced(p.0.memory, h.0 as int, b);
    assert(m.subrange(h.0 as int, h.0 + b.len()) =~= b);
}

/// A reset tier holds no live bytes, a second reset changes nothing, and any size up
/// to the capacity can then be allocated.
pub proof fn lemma_reset(a: ArenaView, size: usize)
    requires
        a.wf(),
        size <= a.capacity,
    ensures
        a.after_reset().used() == 0,
        a.after_reset().after_reset() == a.after_reset(),
        a.after_reset().after_allocate(size as int).1 is Some,
{
    lemma_align(size as int, a.tier, a.capacity as int);
    let r = a.after_reset();
    assert(r.free[crate::arena::spec_size_class(spec_align_size(size as int, r.alignment()))].len() == 0);
}

/// Compacting a tier to at most its live bytes succeeds and never raises them; asking
/// a host tier for more than its capacity fails and changes nothing.
pub proof fn lemma_prefix_compaction(w: WallocView, tier: Tier, n: usize, r: bool, f: WallocView)
    requires
        w.wf(),
        fast_compact_tier_result(w, tier, n as int, r, f),
    ensures
        n <= w.arena(tier).used() ==> r && f.arena(tier).used() <= w.arena(tier).used(),
        !w.is_linear() && n > w.arena(tier).capacity ==> !r && f == w && f.arena(tier).used() == w.arena(tier).used(),
{
    let a = w.arena(tier);
    assert(a.wf());
    lemma_disjoint_total(a.live, a.head as int);
    lemma_total_filter(a.live, ends_by(n as int));
}

proof fn lemma_released_one(a: ArenaView, h: MemoryHandle, s: usize, b: Block)
    requires
        a.live.contains(b),
        b.0 == h.0 - a.base,
        b.1 == spec_align_size(s as int, a.alignment()),
        h.0 >= a.base,
        !h.spec_is_null(),
    ensures
        ({
            let r = released(a, seq![(h, s)]);
            let i = a.first_live(b);
            &&& 0 <= i < a.live.len()
            &&& a.live[i] == b
            &&& forall|j: int| 0 <= j < i ==> a.live[j] != b
            &&& r.live == a.live.remove(i)
            &&& r.used() == a.used() - b.1
            &&& r.base == a.base
            &&& r.tier == a.tier
        }),
{
    let allocs: Seq<OwnedBlock> = seq![(h, s)];
    assert(allocs.drop_last() =~= Seq::<OwnedBlock>::empty());
    assert(allocs.last() == (h, s));
    assert(released(a, allocs.drop_last()) == a);
    assert(released(a, allocs) == a.after_deallocate(h, s as int).0);
    let j = choose|j: int| 0 <= j < a.live.len() && a.live[j] == b;
    assert(a.live[j].0 == h.0 - a.base && a.live[j].1 == spec_align_size(s as int, a.alignment()));
    assert(a.holds_block(h.0 - a.base, spec_align_size(s as int, a.alignment())));
    lemma_deallocate_used(a, h, s as int);
}

proof fn lemma_compact_to_extent(r: ArenaView)
    ensures
        r.after_fast_compact(max_end(r.live)).live == r.live,
        r.after_fast_compact(max_end(r.live)).base == r.base,
        r.after_fast_compact(max_end(r.live)).tier == r.tier,
{
    lemma_max_end_bounds(r.live);
    lemma_filter_all_within(r.live, max_end(r.live));
}

proof fn lemma_release_one(w: WallocView, tier: Tier, allocs: Seq<OwnedBlock>)
    requires
        w.arenas.len() == 3,
    ensures
        ({
            let r = released(w.arena(tier), allocs);
            let n = w.after_release(tier, allocs);
            &&& n.arena(tier).live == r.live
            &&& n.arena(tier).base == r.base
            &&& n.arena(tier).tier == r.tier
            &&& n.memory == w.memory
            &&& n.space == w.space
            &&& n.arenas.len() == 3
        }),
{
    let r = released(w.arena(tier), allocs);
    lemma_compact_to_extent(r);
}

/// Two owners each hold one block of a tier. Releasing the first takes live bytes
/// away (when the first block is not empty) and leaves the second block's bytes as
/// they were; releasing the second too brings the live bytes back to where they
/// stood before either allocation.
#[verifier::rlimit(100)]
pub proof fn lemma_ownership_release(w0: WallocView, tier: Tier, s1: usize, s2: usize)
    requires
        w0.wf(),
        w0.after_allocate(tier, s1 as int).1 is Some,
        w0.after_allocate(tier, s1 as int).0.after_allocate(tier, s2 as int).1 is Some,
    ensures
        ({
            let first = w0.after_allocate(tier, s1 as int);
            let second = first.0.after_allocate(tier, s2 as int);
            let h1 = first.1->Some_0;
            let h2 = second.1->Some_0;
            let w3 = second.0.after_release(tier, seq![(h1, s1)]);
            let w4 = w3.after_release(tier, seq![(h2, s2)]);
            &&& w3.arena(tier).used() <= second.0.arena(tier).used()
            &&& 0 < s1 ==> w3.arena(tier).used() < second.0.arena(tier).used()
            &&& w3.read(h2, s2 as int) == second.0.read(h2, s2 as int)
            &&& w4.arena(tier).used() == w0.arena(tier).used()
        }),
{
    let first = w0.after_allocate(tier, s1 as int);
    let second = first.0.after_allocate(tier, s2 as int);
    let h1 = first.1->Some_0;
    let h2 = second.1->Some_0;
    let a0 = w0.arena(tier);
    assert(a0.wf());
    lemma_allocate_block(a0, s1 as int);
    let a1 = a0.after_allocate(s1 as int).0;
    assert(first.0.arena(tier) == a1);
    lemma_allocate_block(a1, s2 as int);
    let a2 = a1.after_allocate(s2 as int).0;
    assert(second.0.arena(tier) == a2);
    let al1 = spec_align_size(s1 as int, a0.alignment());
    let al2 = spec_align_size(s2 as int, a0.alignment());
    lemma_align(s1 as int, tier, a0.capacity as int);
    lemma_align(s2 as int, tier, a0.capacity as int);
    let b1: Block = ((h1.0 - a0.base) as usize, al1 as usize);
    let b2: Block = ((h2.0 - a0.base) as usize, al2 as usize);
    let n0: int = a0.live.len() as int;
    lemma_total_push(a0.live, b1);
    lemma_total_push(a1.live, b2);
    assert(a2.live[n0] == b1);
    assert(a2.live[n0 + 1] == b2);
    assert(a2.live.contains(b1));
    assert(h1.0 <= crate::arena::MAX_MEMORY_LIMIT);
    lemma_released_one(a2, h1, s1, b1);
    lemma_release_one(second.0, tier, seq![(h1, s1)]);
    let w3 = second.0.after_release(tier, seq![(h1, s1)]);
    let a3 = w3.arena(tier);
    let i = a2.first_live(b1);
    assert(i <= n0);
    assert(a3.live[n0] == b2);
    assert(a3.live.contains(b2));
    lemma_released_one(a3, h2, s2, b2);
    lemma_release_one(w3, tier, seq![(h2, s2)]);
}

/// One step of use of an arena: an allocation, or giving a block back.
pub enum ArenaOp {
    Allocate(usize),
    Deallocate(MemoryHandle, usize),
}

/// The arena after the steps, in order.
pub open spec fn run(a: ArenaView, ops: Seq<ArenaOp>) -> ArenaView
    decreases ops.len(),
{
    if ops.len() == 0 {
        a
    } else {
        let p = run(a, ops.drop_last());
        match ops.last() {
            ArenaOp::Allocate(size) => p.after_allocate(size as int).0,
            ArenaOp::Deallocate(h, size) => p.after_deallocate(h, size as int).0,
        }
    }
}

/// Aligned bytes of the allocations that succeeded, less those of the blocks that were
/// given back.
pub open spec fn net_bytes(a: ArenaView, ops: Seq<ArenaOp>) -> int
    decreases ops.len(),
{
    if ops.len() == 0 {
        0
    } else {
        let p = run(a, ops.drop_last());
        let before = net_bytes(a, ops.drop_last());
        match ops.last() {
            ArenaOp::Allocate(size) => if p.after_allocate(size as int).1 is Some {
                before + spec_align_size(size as int, p.alignment())
            } else {
                before
            },
            ArenaOp::Deallocate(h, size) => if p.after_deallocate(h, size as int).1 {
                before - spec_align_size(size as int, p.alignment())
            } else {
                before
            },
        }
    }
}

/// After any steps, the live bytes are the starting live bytes plus those allocated
/// and not given back: none lost, none counted twice.
pub proof fn lemma_used_accounting(a: ArenaView, ops: Seq<ArenaOp>)
    ensures
        run(a, ops).used() == a.used() + net_bytes(a, ops),
        run(a, ops).tier == a.tier,
    decreases ops.len(),
{
    if ops.len() > 0 {
        lemma_used_accounting(a, ops.drop_last());
        let p = run(a, ops.drop_last());
        match ops.last() {
            ArenaOp::Allocate(size) => {
                let al = spec_align_size(size as int, p.alignment());
                let c = crate::arena::spec_size_class(al);
                let fl = p.free[c];
                crate::arena::lemma_topmost_fit(fl, al);
                let k = crate::arena::topmost_fit(fl, al);
                if k >= 0 {
                    lemma_total_push(p.live, fl[k]);
                } else if p.bump_start() + al <= p.capacity {
                    lemma_align(size as int, p.tier, 0);
                    lemma_total_push(p.live, (p.bump_start() as usize, al as usize));
                }
            },
            ArenaOp::Deallocate(h, size) => {
                lemma_deallocate_used(p, h, size as int);
            },
        }
    }
}

} // verus!
