//! Ownership guards: the allocations one owner gives back together.
use vstd::prelude::*;
use crate::handle::MemoryHandle;
use crate::tier::Tier;

verus! {

/// A tracked allocation: its handle and the size it was asked for.
pub type OwnedBlock = (MemoryHandle, usize);

/// The sum of the tracked sizes.
pub open spec fn tracked_total(s: Seq<OwnedBlock>) -> int
    decreases s.len(),
{
    if s.len() == 0 {
        0
    } else {
        tracked_total(s.drop_last()) + s.last().1
    }
}

/// The allocations of one tier that one owner is responsible for. The allocator gives
/// them all back at once when the owner is released (`Walloc::release_owner`).
pub struct MemoryOwner {
    tier: Tier,
    allocations: Vec<OwnedBlock>,
}

impl MemoryOwner {
    pub closed spec fn spec_tier(&self) -> Tier {
        self.tier
    }

    pub closed spec fn spec_allocations(&self) -> Seq<OwnedBlock> {
        self.allocations@
    }

    pub open spec fn wf(&self) -> bool {
        tracked_total(self.spec_allocations()) <= usize::MAX
    }

    /// An owner of nothing yet, drawing from `tier`.
    pub fn new(tier: Tier) -> (r: MemoryOwner)
        ensures
            r.wf(),
            r.spec_tier() == tier,
            r.spec_allocations() == Seq::<OwnedBlock>::empty(),
    {
        MemoryOwner { tier, allocations: Vec::new() }
    }

    /// Adds an allocation to those this owner gives back.
    pub fn add_allocation(&mut self, handle: MemoryHandle, size: usize)
        requires
            old(self).wf(),
            tracked_total(old(self).spec_allocations()) + size <= usize::MAX,
        ensures
            final(self).wf(),
            final(self).spec_tier() == old(self).spec_tier(),
            final(self).spec_allocations() == old(self).spec_allocations().push((handle, size)),
    {
        let ghost o = self.allocations@;
        self.allocations.push((handle, size));
        proof {
            assert(self.allocations@.drop_last() =~= o);
        }
    }

    /// The sum of the tracked sizes.
    pub fn total_size(&self) -> (r: usize)
        requires
            self.wf(),
        ensures
            r == tracked_total(self.spec_allocations()),
    {
        let mut total: usize = 0;
        let mut i: usize = 0;
        while i < self.allocations.len()
            invariant
                self.wf(),
                i <= self.allocations@.len(),
                total == tracked_total(self.allocations@.subrange(0, i as int)),
            decreases self.allocations@.len() - i,
        {
            proof {
                assert(self.allocations@.subrange(0, i + 1).drop_last() =~= self.allocations@.subrange(0, i as int));
                lemma_tracked_prefix(self.allocations@, i as int);
            }
            total = total + self.allocations[i].1;
            i = i + 1;
        }
        proof {
            assert(self.allocations@.subrange(0, self.allocations@.len() as int) =~= self.allocations@);
        }
        total
    }

    pub fn tier(&self) -> (r: Tier)
        ensures
            r == self.spec_tier(),
    {
        self.tier
    }

    /// Index of the arena this owner draws from.
    pub fn arena_index(&self) -> (r: usize)
        ensures
            r == self.spec_tier().spec_index(),
    {
        self.tier.index()
    }

    pub fn allocations(&self) -> (r: &Vec<OwnedBlock>)
        ensures
            r@ == self.spec_allocations(),
    {
        &self.allocations
    }
}

proof fn lemma_tracked_prefix(s: Seq<OwnedBlock>, j: int)
    requires
        0 <= j < s.len(),
    ensures
        tracked_total(s.subrange(0, j + 1)) == tracked_total(s.subrange(0, j)) + s[j].1,
        tracked_total(s.subrange(0, j + 1)) <= tracked_total(s),
    decreases s.len() - j,
{
    assert(s.subrange(0, j + 1).drop_last() =~= s.subrange(0, j));
    if j + 1 < s.len() {
        lemma_tracked_prefix(s, j + 1);
    } else {
        assert(s.subrange(0, j + 1) =~= s);
    }
}

} // verus!
