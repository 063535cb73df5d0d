//! A tiered arena allocator over one managed byte region.
//!
//! The region is split into three tiers (`Tier`), each served by its own arena
//! (`LockFreeArena`): bump allocation plus size-classed free stacks. Callers hold
//! handles (`MemoryHandle`), never addresses; bytes move through the copy engine
//! (`SIMDOps`). Ownership guards (`MemoryOwner`) give their blocks back together, and
//! the asset registry (`SimpleAssetRegistry`) records which blocks hold named assets
//! so that eviction can repack a tier.
use vstd::prelude::*;

pub mod arena;
pub mod blocks;
pub mod copy;
pub mod handle;
pub mod laws;
pub mod owner;
pub mod registry;
pub mod tier;
pub mod walloc;

pub use crate::arena::{LockFreeArena, size_class_for};
pub use crate::copy::{CopyOp, SIMDOps};
pub use crate::handle::{AddressSpace, MemoryHandle};
pub use crate::owner::MemoryOwner;
pub use crate::registry::{AssetMetadata, AssetType, SimpleAssetRegistry};
pub use crate::tier::Tier;
pub use crate::walloc::Walloc;

verus! {

/// An allocator over a fresh host region: see `Walloc::new`.
pub fn create_walloc() -> (r: Result<Walloc, &'static str>)
    ensures
        r is Ok,
        r matches Ok(w) ==> w.wf() && crate::walloc::default_layout(w@),
{
    Walloc::new()
}

} // verus!
