//! The allocator: one managed region split into three tier arenas, plus the asset
//! registry that records which blocks hold which named assets.
use vstd::prelude::*;
use crate::arena::{
    ArenaView, LockFreeArena, MAX_MEMORY_LIMIT, tier_block_alignment, spec_align_size, lemma_round_down, lemma_align,
};
use crate::blocks::{Block, block_end, blocks_disjoint, total_size, max_end, lemma_disjoint_total, lemma_total_push};
use crate::owner::{MemoryOwner, OwnedBlock, tracked_total};
use crate::copy::{SIMDOps, CopyOp, spliced, apply_copies, lemma_apply_copies_len};
use crate::handle::{AddressSpace, MemoryHandle};
use crate::registry::{AssetMetadata, AssetType, SimpleAssetRegistry, lists_exactly, tier_assets, after_remove_all, names_of};
use crate::tier::Tier;

verus! {

/// Region given to an allocator made by `Walloc::new`, in bytes.
pub const DEFAULT_MEMORY_SIZE: usize = 64 * 1024 * 1024;

/// Granularity by which linear memory grows, in bytes.
pub const PAGE_SIZE: usize = 65536;

/// A guard that gives back more than this many bytes in linear memory also compacts
/// its tier down to the end of its last live block.
pub const AUTO_COMPACT_THRESHOLD: usize = 65536;

/// The arena after giving back each of `allocs` in order.
pub open spec fn released(a: ArenaView, allocs: Seq<OwnedBlock>) -> ArenaView
    decreases allocs.len(),
{
    if allocs.len() == 0 {
        a
    } else {
        released(a, allocs.drop_last()).after_deallocate(allocs.last().0, allocs.last().1 as int).0
    }
}

/// Length of the region after growing it so that the last tier, of capacity `cap`,
/// can hold `n` bytes: the shortfall up to `n` aligned, in whole pages.
pub open spec fn grown_len(len: int, cap: int, n: int) -> int {
    let short = spec_align_size(n, 8) - cap;
    len + (short + PAGE_SIZE - 1) / (PAGE_SIZE as int) * PAGE_SIZE
}

/// `k` names an asset of `tier` other than `path`.
pub open spec fn survivor(o: WallocView, path: Seq<char>, tier: Tier, k: Seq<char>) -> bool {
    o.assets.contains_key(k) && k != path && o.assets[k].tier == tier
}

/// The record names a block inside arena `a`.
pub open spec fn in_arena(a: ArenaView, md: AssetMetadata) -> bool {
    !md.handle.spec_is_null() && a.base <= md.handle.0 && md.handle.0 + md.size <= a.base + a.capacity
}

/// The two records name no common byte.
pub open spec fn records_disjoint(x: AssetMetadata, y: AssetMetadata) -> bool {
    x.size == 0 || y.size == 0 || x.handle.0 + x.size <= y.handle.0 || y.handle.0 + y.size <= x.handle.0
}

/// Evicting `path` from `tier` repacks the tier: some other asset of the tier is
/// left, and each one's record names a block inside the tier's arena that shares no
/// byte with another's.
pub open spec fn repackable(o: WallocView, path: Seq<char>, tier: Tier) -> bool {
    &&& exists|k: Seq<char>| #[trigger] survivor(o, path, tier, k)
    &&& forall|k: Seq<char>| #[trigger] survivor(o, path, tier, k) ==> in_arena(o.arena(tier), o.assets[k])
    &&& forall|k1: Seq<char>, k2: Seq<char>|
        #[trigger] survivor(o, path, tier, k1) && #[trigger] survivor(o, path, tier, k2) && k1 != k2
            ==> records_disjoint(o.assets[k1], o.assets[k2])
}

/// In `n`, the asset `k` of `o` sits inside the first `total` bytes of its tier, with
/// its bytes and everything but its place unchanged.
pub open spec fn packed_at(o: WallocView, n: WallocView, total: int, k: Seq<char>) -> bool {
    let a = o.arena(o.assets[k].tier);
    &&& n.assets[k] == relocated(o.assets[k], n.assets[k].offset as int)
    &&& a.base <= n.assets[k].offset
    &&& n.assets[k].offset + o.assets[k].size <= a.base + total
    &&& n.asset_bytes(k) == o.asset_bytes(k)
}

/// `n` is `o` with the other assets of `tier` packed, without gaps or overlap, into
/// one block of `total` bytes at the start of the reset tier.
pub open spec fn repacked_with(o: WallocView, n: WallocView, path: Seq<char>, tier: Tier, total: int) -> bool {
    let a = o.arena(tier);
    &&& 0 <= total <= a.capacity
    &&& n.arena(tier) == a.after_reset().after_allocate(total).0
    &&& forall|k: Seq<char>| #[trigger] survivor(o, path, tier, k) ==> packed_at(o, n, total, k)
    &&& forall|k1: Seq<char>, k2: Seq<char>|
        #[trigger] survivor(o, path, tier, k1) && #[trigger] survivor(o, path, tier, k2) && k1 != k2
            ==> records_disjoint(n.assets[k1], n.assets[k2])
    &&& forall|q: int| 0 <= q < total ==> #[trigger] byte_packed(o, n, path, tier, q)
}

/// Byte `q` of the pack belongs to some other asset of `tier`.
pub open spec fn byte_packed(o: WallocView, n: WallocView, path: Seq<char>, tier: Tier, q: int) -> bool {
    exists|k: Seq<char>| #[trigger] survivor(o, path, tier, k)
        && n.assets[k].offset <= o.arena(tier).base + q < n.assets[k].offset + o.assets[k].size
}

pub open spec fn repacked(o: WallocView, n: WallocView, path: Seq<char>, tier: Tier) -> bool {
    exists|total: int| repacked_with(o, n, path, tier, total)
}

/// The blocks, relative to `base`, that the gathered records name.
pub open spec fn blocks_of(mv: Seq<(String, usize, AssetMetadata)>, base: int) -> Seq<Block> {
    mv.map_values(|e: (String, usize, AssetMetadata)| ((e.2.handle.0 - base) as usize, e.2.size))
}

/// `buf` packs the bytes of the assets listed in `mv`, each at the offset given
/// beside it, one after another and with no gap.
pub open spec fn gathered_so_far(
    o: WallocView,
    path: Seq<char>,
    tier: Tier,
    buf: Seq<u8>,
    mv: Seq<(String, usize, AssetMetadata)>,
) -> bool {
    &&& forall|j: int| 0 <= j < mv.len() ==> {
        let e = #[trigger] mv[j];
        &&& survivor(o, path, tier, e.0@)
        &&& e.2 == o.assets[e.0@]
        &&& in_arena(o.arena(tier), e.2)
        &&& e.1 + e.2.size <= buf.len()
        &&& o.asset_bytes(e.0@) == Some(buf.subrange(e.1 as int, e.1 + e.2.size))
    }
    &&& forall|j: int, l: int| 0 <= j < mv.len() && 0 <= l < mv.len() && j != l
        ==> (#[trigger] mv[j]).0@ != (#[trigger] mv[l]).0@ && records_disjoint(mv[j].2, mv[l].2)
    &&& forall|j: int, l: int| 0 <= j < l < mv.len() ==> (#[trigger] mv[j]).1 + mv[j].2.size <= (#[trigger] mv[l]).1
    &&& forall|q: int| 0 <= q < buf.len() ==> #[trigger] entry_covers(mv, q)
    &&& buf.len() <= o.arena(tier).capacity
}

/// Byte `q` of the pack belongs to some gathered entry.
pub open spec fn entry_covers(mv: Seq<(String, usize, AssetMetadata)>, q: int) -> bool {
    exists|j: int| 0 <= j < mv.len() && (#[trigger] mv[j]).1 <= q < mv[j].1 + mv[j].2.size
}

/// Every other asset of `tier` is gathered into `buf`.
pub open spec fn gathered(
    o: WallocView,
    path: Seq<char>,
    tier: Tier,
    buf: Seq<u8>,
    mv: Seq<(String, usize, AssetMetadata)>,
) -> bool {
    &&& gathered_so_far(o, path, tier, buf, mv)
    &&& mv.len() > 0
    &&& forall|k: Seq<char>| #[trigger] survivor(o, path, tier, k)
        ==> exists|j: int| 0 <= j < mv.len() && (#[trigger] mv[j]).0@ == k
}

proof fn lemma_pack_bound(
    o: WallocView,
    path: Seq<char>,
    tier: Tier,
    mv: Seq<(String, usize, AssetMetadata)>,
    md: AssetMetadata,
)
    requires
        forall|j: int| 0 <= j < mv.len() ==> in_arena(o.arena(tier), (#[trigger] mv[j]).2),
        forall|j: int, l: int| 0 <= j < mv.len() && 0 <= l < mv.len() && j != l
            ==> records_disjoint((#[trigger] mv[j]).2, (#[trigger] mv[l]).2),
        in_arena(o.arena(tier), md),
        forall|l: int| 0 <= l < mv.len() ==> records_disjoint((#[trigger] mv[l]).2, md),
    ensures
        total_size(blocks_of(mv, o.arena(tier).base as int)) + md.size <= o.arena(tier).capacity,
{
    let a = o.arena(tier);
    let base = a.base as int;
    let b: Block = ((md.handle.0 - base) as usize, md.size);
    let bs = blocks_of(mv, base).push(b);
    assert forall|i: int, j: int| 0 <= i < bs.len() && 0 <= j < bs.len() && i != j
        implies blocks_disjoint(#[trigger] bs[i], #[trigger] bs[j]) by {
        if i < mv.len() && j < mv.len() {
            assert(records_disjoint(mv[i].2, mv[j].2));
        } else if i < mv.len() {
            assert(records_disjoint(mv[i].2, md));
        } else if j < mv.len() {
            assert(records_disjoint(mv[j].2, md));
        }
    }
    assert forall|i: int| 0 <= i < bs.len() implies block_end(#[trigger] bs[i]) <= a.capacity by {
        if i < mv.len() {
            assert(in_arena(a, mv[i].2));
        }
    }
    lemma_disjoint_total(bs, a.capacity as int);
    lemma_total_push(blocks_of(mv, base), b);
}

proof fn lemma_gathered_push(
    o: WallocView,
    path: Seq<char>,
    tier: Tier,
    before: Seq<u8>,
    before_moved: Seq<(String, usize, AssetMetadata)>,
    buf: Seq<u8>,
    mv: Seq<(String, usize, AssetMetadata)>,
    e: (String, usize, AssetMetadata),
)
    requires
        gathered_so_far(o, path, tier, before, before_moved),
        mv == before_moved.push(e),
        e.1 == before.len(),
        buf.len() == before.len() + e.2.size,
        buf.subrange(0, before.len() as int) == before,
        o.asset_bytes(e.0@) == Some(buf.subrange(before.len() as int, buf.len() as int)),
        survivor(o, path, tier, e.0@),
        e.2 == o.assets[e.0@],
        in_arena(o.arena(tier), e.2),
        forall|l: int| 0 <= l < before_moved.len() ==> (#[trigger] before_moved[l]).0@ != e.0@,
        forall|l: int| 0 <= l < before_moved.len() ==> records_disjoint((#[trigger] before_moved[l]).2, e.2),
        buf.len() <= o.arena(tier).capacity,
    ensures
        gathered_so_far(o, path, tier, buf, mv),
{
    let n = before_moved.len() as int;
    assert forall|j: int| 0 <= j < mv.len() implies {
        let x = #[trigger] mv[j];
        &&& survivor(o, path, tier, x.0@)
        &&& x.2 == o.assets[x.0@]
        &&& in_arena(o.arena(tier), x.2)
        &&& x.1 + x.2.size <= buf.len()
        &&& o.asset_bytes(x.0@) == Some(buf.subrange(x.1 as int, x.1 + x.2.size))
    } by {
        if j < n {
            let x = mv[j];
            assert(x == before_moved[j]);
            assert(buf.subrange(x.1 as int, x.1 + x.2.size) =~= before.subrange(x.1 as int, x.1 + x.2.size));
        }
    }
    assert forall|j: int, l: int| 0 <= j < mv.len() && 0 <= l < mv.len() && j != l
        implies (#[trigger] mv[j]).0@ != (#[trigger] mv[l]).0@ && records_disjoint(mv[j].2, mv[l].2) by {
        if j < n && l < n {
            assert(mv[j] == before_moved[j] && mv[l] == before_moved[l]);
        } else if j < n {
            assert(mv[j] == before_moved[j]);
        } else if l < n {
            assert(mv[l] == before_moved[l]);
        }
    }
    assert forall|j: int, l: int| 0 <= j < l < mv.len() implies (#[trigger] mv[j]).1 + mv[j].2.size <= (#[trigger] mv[l]).1 by {
        if l < n {
            assert(mv[j] == before_moved[j] && mv[l] == before_moved[l]);
        } else {
            assert(mv[j] == before_moved[j]);
        }
    }
    assert forall|q: int| 0 <= q < buf.len() implies #[trigger] entry_covers(mv, q) by {
        if q < before.len() {
            assert(entry_covers(before_moved, q));
            let j = choose|j: int| 0 <= j < before_moved.len() && (#[trigger] before_moved[j]).1 <= q < before_moved[j].1 + before_moved[j].2.size;
            assert(mv[j] == before_moved[j]);
        } else {
            assert(mv[n] == e);
            assert(mv[n].1 <= q < mv[n].1 + mv[n].2.size);
        }
    }
}

/// What `evict_asset(path)` returns (`r`) and leaves (`f`), from `o`. The record
/// goes; every other asset of its tier keeps its bytes and everything but perhaps its
/// place; other records, other tiers, and bytes outside the tier's arena stay as they
/// were. In linear memory the tier is repacked exactly when it is `repackable`;
/// otherwise, and on the host, the block goes back to its arena alone.
pub open spec fn evict_result(o: WallocView, path: Seq<char>, r: bool, f: WallocView) -> bool {
    let ev = o.assets[path];
    let t = ev.tier;
    let a = o.arena(t);
    let released_alone = WallocView {
        assets: o.assets.remove(path),
        ..if ev.handle.spec_is_null() {
            o
        } else {
            o.with_arena(t, a.after_deallocate(ev.handle, ev.size as int).0)
        }
    };
    &&& r == o.assets.contains_key(path)
    &&& !r ==> f == o
    &&& f.assets.dom() == o.assets.dom().remove(path)
    &&& f.memory.len() == o.memory.len()
    &&& r ==> forall|k: Seq<char>| #[trigger] f.assets.contains_key(k) && o.assets[k].tier == t ==> {
        &&& f.asset_bytes(k) == o.asset_bytes(k)
        &&& (f.assets[k] == o.assets[k] || f.assets[k] == relocated(o.assets[k], f.assets[k].offset as int))
    }
    &&& r ==> forall|k: Seq<char>| #[trigger] f.assets.contains_key(k) && o.assets[k].tier != t ==> f.assets[k] == o.assets[k]
    &&& r ==> forall|i: int| 0 <= i < o.memory.len() && !(a.base <= i < a.base + a.capacity)
        ==> #[trigger] f.memory[i] == o.memory[i]
    &&& r ==> forall|u: Tier| u != t ==> #[trigger] f.arena(u) == o.arena(u)
    &&& r && o.is_linear() && repackable(o, path, t) ==> repacked(o, f, path, t)
    &&& r && o.is_linear() && !repackable(o, path, t) ==> f == released_alone
    &&& r && !o.is_linear() ==> f == released_alone
}

/// `ws` are the states that evicting `names` one after the other passes through,
/// from `ws[0]`, and `rs` what each eviction returned.
pub open spec fn evict_chain(ws: Seq<WallocView>, rs: Seq<bool>, names: Seq<Seq<char>>) -> bool {
    &&& ws.len() == names.len() + 1
    &&& rs.len() == names.len()
    &&& forall|i: int| 0 <= i < names.len() ==> #[trigger] evict_result(ws[i], names[i], rs[i], ws[i + 1])
}

/// `md` moved to the block at offset `at`.
pub open spec fn relocated(md: AssetMetadata, at: int) -> AssetMetadata {
    AssetMetadata { handle: MemoryHandle(at as usize), offset: at as usize, ..md }
}

/// What `fast_compact_tier(tier, n)` returns (`r`) and leaves (`f`), from `o`.
pub open spec fn fast_compact_tier_result(o: WallocView, tier: Tier, n: int, r: bool, f: WallocView) -> bool {
    let a = o.arena(tier);
    let g = grown_len(o.memory.len() as int, a.capacity as int, n);
    if n <= a.head {
        r && f == o.with_arena(tier, a.after_fast_compact(n))
    } else if n <= a.capacity {
        r && f == o.with_arena(tier, a.after_advance(n))
    } else if o.is_linear() && tier == Tier::Bottom && g <= MAX_MEMORY_LIMIT {
        &&& r
        &&& f.memory.len() == g
        &&& f.memory.subrange(0, o.memory.len() as int) == o.memory
        &&& f == (WallocView {
            memory: f.memory,
            ..o.with_arena(tier, (ArenaView { capacity: round_down(g - a.base, 8) as usize, ..a }).after_advance(n))
        })
    } else {
        !r && f == o
    }
}

/// `x` rounded up to a cache line.
pub open spec fn round_up_line(x: int) -> int {
    (x + 63) / 64 * 64
}

/// Bytes set aside for `tier` in a region of `n` bytes, before alignment: its
/// percentage, rounded up to a cache line.
pub open spec fn tier_share(n: int, tier: Tier) -> int {
    round_up_line(n * tier.spec_memory_percentage() / 100)
}

/// The two upper tiers' shares leave room for the bottom one.
pub open spec fn layout_fits(n: int) -> bool {
    tier_share(n, Tier::Top) + tier_share(n, Tier::Middle) <= n
}

/// `x` cut down to a multiple of `a`.
pub open spec fn round_down(x: int, a: int) -> int {
    x / a * a
}

fn tier_share_of(n: usize, tier: Tier) -> (r: usize)
    requires
        n <= MAX_MEMORY_LIMIT,
    ensures
        r == tier_share(n as int, tier),
        r <= n / 2 + 64,
{
    let pct = tier.memory_percentage();
    assert((n as u64) * (pct as u64) <= (MAX_MEMORY_LIMIT as u64) * 50) by (nonlinear_arith)
        requires
            n <= MAX_MEMORY_LIMIT,
            pct <= 50,
    ;
    let wide = (n as u64) * (pct as u64) / 100;
    assert(wide <= n / 2) by (nonlinear_arith)
        requires
            wide == (n as u64) * (pct as u64) / 100,
            pct <= 50,
    ;
    let part = wide as usize;
    proof {
        lemma_round_down(part + 63, 64);
    }
    (part + 63) / 64 * 64
}

/// The allocator `Walloc::new` makes: a fresh host region of `DEFAULT_MEMORY_SIZE`
/// bytes, its tiers at offsets 0, 33554432 and 53687104 with capacities 33554432,
/// 20132672 and 13421760, and nothing allocated or registered.
pub open spec fn default_layout(w: WallocView) -> bool {
    &&& w.wf()
    &&& w.memory.len() == DEFAULT_MEMORY_SIZE
    &&& w.space == (AddressSpace::Hosted { base: Some(0) })
    &&& w.assets == Map::<Seq<char>, AssetMetadata>::empty()
    &&& w.base_url == Seq::<char>::empty()
    &&& fresh_arena(w.arenas[0], Tier::Top, 0, 33554432)
    &&& fresh_arena(w.arenas[1], Tier::Middle, 33554432, 20132672)
    &&& fresh_arena(w.arenas[2], Tier::Bottom, 53687104, 13421760)
    &&& w.arenas[0].capacity == 33554432
    &&& w.arenas[1].capacity == 20132672
    &&& w.arenas[2].capacity == 13421760
}

/// An arena as construction leaves it.
pub open spec fn fresh_arena(a: ArenaView, tier: Tier, base: int, len: int) -> bool {
    &&& a.tier == tier
    &&& a.base == base
    &&& a.capacity == round_down(len, tier_block_alignment(tier))
    &&& a.head == 0
    &&& a.live.len() == 0
    &&& a.no_free()
    &&& a.peak == 0
    &&& a.lifetime_total == 0
}

/// What an allocator holds, as values.
pub struct WallocView {
    /// The arenas of `Top`, `Middle` and `Bottom`, in that order.
    pub arenas: Seq<ArenaView>,
    pub assets: Map<Seq<char>, AssetMetadata>,
    /// The managed region.
    pub memory: Seq<u8>,
    pub space: AddressSpace,
    pub base_url: Seq<char>,
}

impl WallocView {
    pub open spec fn arena(self, tier: Tier) -> ArenaView {
        self.arenas[tier.spec_index() as int]
    }

    /// The allocator runs in sandboxed linear memory.
    pub open spec fn is_linear(self) -> bool {
        self.space == AddressSpace::Linear
    }

    /// `self` with the arena of `tier` replaced.
    pub open spec fn with_arena(self, tier: Tier, a: ArenaView) -> WallocView {
        WallocView { arenas: self.arenas.update(tier.spec_index() as int, a), ..self }
    }

    /// What `allocate(size, tier)` leaves, and the handle it gives.
    pub open spec fn after_allocate(self, tier: Tier, size: int) -> (WallocView, Option<MemoryHandle>) {
        let r = self.arena(tier).after_allocate(size);
        (
            self.with_arena(tier, r.0),
            match r.1 {
                Some(o) => Some(MemoryHandle(o)),
                None => None,
            },
        )
    }

    /// What `allocate_batch(requests)` leaves, and the handles it gives: the requests
    /// served in order.
    pub open spec fn after_allocate_batch(self, requests: Seq<(usize, Tier)>) -> (WallocView, Seq<Option<MemoryHandle>>)
        decreases requests.len(),
    {
        if requests.len() == 0 {
            (self, Seq::empty())
        } else {
            let p = self.after_allocate_batch(requests.drop_last());
            let q = p.0.after_allocate(requests.last().1, requests.last().0 as int);
            (q.0, p.1.push(q.1))
        }
    }

    /// What releasing an owner of `allocs` in `tier` leaves: each allocation given back
    /// in turn; then, in linear memory when more than `AUTO_COMPACT_THRESHOLD` bytes
    /// were tracked, the tier compacted down to the end of its last live block.
    pub open spec fn after_release(self, tier: Tier, allocs: Seq<OwnedBlock>) -> WallocView {
        let b = released(self.arena(tier), allocs);
        self.with_arena(
            tier,
            if self.is_linear() && tracked_total(allocs) > AUTO_COMPACT_THRESHOLD {
                b.after_fast_compact(max_end(b.live))
            } else {
                b
            },
        )
    }

    /// The bytes of the asset recorded under `k`.
    pub open spec fn asset_bytes(self, k: Seq<char>) -> Option<Seq<u8>> {
        self.read(self.assets[k].handle, self.assets[k].size as int)
    }

    /// `len` bytes at `h` can be reached.
    pub open spec fn readable(self, h: MemoryHandle, len: int) -> bool {
        &&& !h.spec_is_null()
        &&& self.space.spec_is_established()
        &&& h.0 + len <= self.memory.len()
    }

    /// The `len` bytes at `h`, where they can be reached.
    pub open spec fn read(self, h: MemoryHandle, len: int) -> Option<Seq<u8>> {
        if self.readable(h, len) {
            Some(self.memory.subrange(h.0 as int, h.0 + len))
        } else {
            None
        }
    }

    /// Each arena is well formed and belongs to its tier; the arenas lie one after
    /// the other inside the region.
    pub open spec fn wf(self) -> bool {
        &&& self.arenas.len() == 3
        &&& forall|i: int| 0 <= i < 3 ==> (#[trigger] self.arenas[i]).wf()
        &&& self.arenas[0].tier == Tier::Top
        &&& self.arenas[1].tier == Tier::Middle
        &&& self.arenas[2].tier == Tier::Bottom
        &&& self.arenas[0].base + self.arenas[0].capacity <= self.arenas[1].base
        &&& self.arenas[1].base + self.arenas[1].capacity <= self.arenas[2].base
        &&& self.arenas[2].base + self.arenas[2].capacity <= self.memory.len()
        &&& self.memory.len() <= MAX_MEMORY_LIMIT
    }
}

/// The tiered allocator. Callers serialise access: every method that changes it
/// takes `&mut self`.
pub struct Walloc {
    arenas: Vec<LockFreeArena>,
    assets: SimpleAssetRegistry,
    base_url: String,
    memory: Vec<u8>,
    space: AddressSpace,
}

impl View for Walloc {
    type V = WallocView;

    closed spec fn view(&self) -> WallocView {
        WallocView {
            arenas: self.arenas@.map_values(|a: LockFreeArena| a@),
            assets: self.assets@,
            memory: self.memory@,
            space: self.space,
            base_url: self.base_url@,
        }
    }
}

impl Walloc {
    pub closed spec fn wf(&self) -> bool {
        &&& self@.wf()
        &&& forall|i: int| 0 <= i < self.arenas@.len() ==> (#[trigger] self.arenas@[i]).wf()
        &&& self.assets.wf()
    }

    /// A well-formed allocator has a well-formed view: three arenas, each well formed
    /// and belonging to its tier, lying one after the other inside the region.
    pub proof fn lemma_wf(&self)
        requires
            self.wf(),
        ensures
            self@.wf(),
    {
    }

    /// An allocator over a fresh host region of `DEFAULT_MEMORY_SIZE` bytes, whose
    /// addresses count from the region's first byte.
    pub fn new() -> (r: Result<Walloc, &'static str>)
        ensures
            r is Ok,
            r matches Ok(w) ==> w.wf() && default_layout(w@),
    {
        proof {
            let n = DEFAULT_MEMORY_SIZE as int;
            assert(n * 50 / 100 == 33554432);
            assert(n * 30 / 100 == 20132659);
            assert(tier_share(n, Tier::Top) == 33554432);
            assert(tier_share(n, Tier::Middle) == 20132672);
            assert(round_down(33554432, 128) == 33554432);
            assert(round_down(20132672, 64) == 20132672);
            assert(round_down(13421760, 8) == 13421760);
        }
        Self::with_memory(DEFAULT_MEMORY_SIZE, AddressSpace::Hosted { base: Some(0) })
    }

    /// An allocator over a fresh region of `memory_size` bytes. The top and middle
    /// tiers take their percentage of it rounded up to a cache line, the bottom tier
    /// the rest; each arena's length is then cut to its block alignment. Fails when
    /// the region is larger than `MAX_MEMORY_LIMIT` or too small for that layout.
    pub fn with_memory(memory_size: usize, space: AddressSpace) -> (r: Result<Walloc, &'static str>)
        ensures
            r is Ok <==> memory_size <= MAX_MEMORY_LIMIT && layout_fits(memory_size as int),
            r matches Ok(w) ==> {
                let n = memory_size as int;
                let top = tier_share(n, Tier::Top);
                let mid = tier_share(n, Tier::Middle);
                &&& w.wf()
                &&& w@.wf()
                &&& w@.arenas.len() == 3
                &&& w@.memory.len() == n
                &&& w@.space == space
                &&& w@.assets == Map::<Seq<char>, AssetMetadata>::empty()
                &&& w@.base_url == Seq::<char>::empty()
                &&& fresh_arena(w@.arenas[0], Tier::Top, 0, top)
                &&& fresh_arena(w@.arenas[1], Tier::Middle, top, mid)
                &&& fresh_arena(w@.arenas[2], Tier::Bottom, top + mid, n - top - mid)
            },
    {
        if memory_size > MAX_MEMORY_LIMIT {
            return Err("Memory region too large");
        }
        let top_size = tier_share_of(memory_size, Tier::Top);
        let mid_size = tier_share_of(memory_size, Tier::Middle);
        if top_size > memory_size || mid_size > memory_size - top_size {
            return Err("Memory region too small");
        }
        let bottom_size = memory_size - top_size - mid_size;
        let top = LockFreeArena::new(0, top_size, Tier::Top);
        let mid = LockFreeArena::new(top_size, mid_size, Tier::Middle);
        let bottom = LockFreeArena::new(top_size + mid_size, bottom_size, Tier::Bottom);
        proof {
            assert(top_size % 64 == 0);
            assert((top_size + mid_size) % 64 == 0);
            assert((0int + 63) / 64 * 64 == 0);
            assert((top_size + 63) / 64 * 64 == top_size);
            assert((top_size + mid_size + 63) / 64 * 64 == top_size + mid_size);
            lemma_round_down(top_size as int, tier_block_alignment(Tier::Top));
            lemma_round_down(mid_size as int, tier_block_alignment(Tier::Middle));
            lemma_round_down(bottom_size as int, tier_block_alignment(Tier::Bottom));
            assert(top@.capacity <= top_size);
            assert(mid@.capacity <= mid_size);
            assert(bottom@.capacity <= bottom_size);
        }
        let mut arenas: Vec<LockFreeArena> = Vec::new();
        arenas.push(top);
        arenas.push(mid);
        arenas.push(bottom);
        let memory: Vec<u8> = vec![0u8; memory_size];
        let w = Walloc {
            arenas,
            assets: SimpleAssetRegistry::new(),
            base_url: String::new(),
            memory,
            space,
        };
        proof {
            assert(w@.arenas[0] == top@);
            assert(w@.arenas[1] == mid@);
            assert(w@.arenas[2] == bottom@);
        }
        Ok(w)
    }

    /// Sets the prefix that fetched asset paths are resolved against.
    pub fn with_base_url(self, url: String) -> (r: Walloc)
        requires
            self.wf(),
        ensures
            r.wf(),
            r@ == (WallocView { base_url: url@, ..self@ }),
    {
        let mut w = self;
        w.base_url = url;
        w
    }

    pub fn set_base_url(&mut self, url: String)
        requires
            old(self).wf(),
        ensures
            final(self).wf(),
            final(self)@ == (WallocView { base_url: url@, ..old(self)@ }),
    {
        self.base_url = url;
    }

    pub fn base_url(&self) -> (r: &String)
        ensures
            r@ == self@.base_url,
    {
        &self.base_url
    }

    pub fn address_space(&self) -> (r: AddressSpace)
        ensures
            r == self@.space,
    {
        self.space
    }

    /// The managed region, for callers that show it to a host.
    pub fn memory(&self) -> (r: &Vec<u8>)
        ensures
            r@ == self@.memory,
    {
        &self.memory
    }

    /// A block of `size` bytes from the arena of `tier`: see `ArenaView::after_allocate`.
    pub fn allocate(&mut self, size: usize, tier: Tier) -> (r: Option<MemoryHandle>)
        requires
            old(self).wf(),
        ensures
            final(self).wf(),
            (final(self)@, r) == old(self)@.after_allocate(tier, size as int),
    {
        let t = tier.index();
        let ghost o = self@;
        let r = self.arenas[t].allocate(size);
        proof {
            assert(self@.arenas =~= o.arenas.update(t as int, self.arenas@[t as int]@));
            assert(self@ =~= o.with_arena(tier, self.arenas@[t as int]@));
            assert forall|i: int| 0 <= i < self.arenas@.len() implies (#[trigger] self.arenas@[i]).wf() by {
                if i != t {
                    assert(self.arenas@[i] == old(self).arenas@[i]);
                }
            }
            self.arenas@[t as int].lemma_wf();
            assert(self@.arenas[t as int].wf());
        }
        match r {
            Some(o) => Some(MemoryHandle(o)),
            None => None,
        }
    }

    /// Like `allocate`, and on success an owner that tracks the new allocation.
    pub fn allocate_with_owner(&mut self, size: usize, tier: Tier) -> (r: Option<(MemoryOwner, MemoryHandle)>)
        requires
            old(self).wf(),
        ensures
            final(self).wf(),
            (final(self)@, match r {
                Some(p) => Some(p.1),
                None => None,
            }) == old(self)@.after_allocate(tier, size as int),
            r matches Some(p) ==> p.0.wf() && p.0.spec_tier() == tier && p.0.spec_allocations() == seq![(p.1, size)],
    {
        match self.allocate(size, tier) {
            Some(handle) => {
                let mut owner = MemoryOwner::new(tier);
                owner.add_allocation(handle, size);
                proof {
                    assert(owner.spec_allocations() =~= seq![(handle, size)]);
                }
                Some((owner, handle))
            },
            None => None,
        }
    }

    /// Gives back the block at `handle` that was handed out for `size` bytes from
    /// `tier`: see `ArenaView::after_deallocate`.
    pub fn deallocate(&mut self, handle: MemoryHandle, size: usize, tier: Tier) -> (r: bool)
        requires
            old(self).wf(),
        ensures
            final(self).wf(),
            final(self)@ == old(self)@.with_arena(tier, old(self)@.arena(tier).after_deallocate(handle, size as int).0),
            r == old(self)@.arena(tier).after_deallocate(handle, size as int).1,
    {
        let t = tier.index();
        let ghost o = self@;
        let ghost old_arenas = self.arenas@;
        let r = self.arenas[t].deallocate(handle, size);
        proof {
            self.arenas@[t as int].lemma_wf();
            assert(self@.arenas =~= o.arenas.update(t as int, self.arenas@[t as int]@));
            assert(self@ =~= o.with_arena(tier, self.arenas@[t as int]@));
            assert forall|j: int| 0 <= j < self.arenas@.len() implies (#[trigger] self.arenas@[j]).wf() by {
                if j != t {
                    assert(self.arenas@[j] == old_arenas[j]);
                }
            }
        }
        r
    }

    /// Compacts `tier` down to the end of its last live block, which keeps every live
    /// block.
    fn compact_to_live_extent(&mut self, tier: Tier)
        requires
            old(self).wf(),
        ensures
            final(self).wf(),
            final(self)@ == old(self)@.with_arena(tier, old(self)@.arena(tier).after_fast_compact(max_end(old(self)@.arena(tier).live))),
    {
        let t = tier.index();
        let ghost o = self@;
        let ghost old_arenas = self.arenas@;
        let e = self.arenas[t].live_extent();
        let _done = self.arenas[t].fast_compact(e);
        proof {
            self.arenas@[t as int].lemma_wf();
            assert(self@.arenas =~= o.arenas.update(t as int, self.arenas@[t as int]@));
            assert(self@ =~= o.with_arena(tier, self.arenas@[t as int]@));
            assert forall|j: int| 0 <= j < self.arenas@.len() implies (#[trigger] self.arenas@[j]).wf() by {
                if j != t {
                    assert(self.arenas@[j] == old_arenas[j]);
                }
            }
        }
    }

    /// The bytes of the assets of `tier` other than `path`, packed one after another,
    /// and where each one's bytes start in the pack; `None` unless a repack can be
    /// made (`repackable`).
    #[verifier::rlimit(100)]
    fn gather_survivors(&self, path: &String, tier: Tier) -> (r: Option<(Vec<u8>, Vec<(String, usize, AssetMetadata)>)>)
        requires
            self.wf(),
            self@.is_linear(),
        ensures
            r is Some <==> repackable(self@, path@, tier),
            r matches Some(p) ==> gathered(self@, path@, tier, p.0@, p.1@),
    {
        let ghost o = self@;
        let ghost a = o.arena(tier);
        proof {
            assert(a.wf());
            assert(a.base + a.capacity <= o.memory.len());
        }
        let list = self.assets.get_assets_by_tier(tier);
        let ghost m = tier_assets(o.assets, tier);
        let t = tier.index();
        let cap = self.arenas[t].capacity();
        let base = self.arenas[t].base_offset();
        let mut buffer: Vec<u8> = Vec::new();
        let mut moved: Vec<(String, usize, AssetMetadata)> = Vec::new();
        let mut i: usize = 0;
        while i < list.len()
            invariant
                self@ == o,
                self.wf(),
                o.wf(),
                o.is_linear(),
                a == o.arena(tier),
                a.base + a.capacity <= o.memory.len(),
                lists_exactly(list@, m),
                m == tier_assets(o.assets, tier),
                cap == a.capacity,
                base == a.base,
                i <= list@.len(),
                gathered_so_far(o, path@, tier, buffer@, moved@),
                buffer@.len() == total_size(blocks_of(moved@, a.base as int)),
                forall|j: int| 0 <= j < moved@.len() ==> exists|q: int| 0 <= q < i && list@[q].0@ == (#[trigger] moved@[j]).0@,
                forall|q: int| 0 <= q < i && (#[trigger] list@[q]).0@ != path@
                    ==> exists|j: int| 0 <= j < moved@.len() && (#[trigger] moved@[j]).0@ == list@[q].0@,
            decreases list@.len() - i,
        {
            let name = &list[i].0;
            let md = list[i].1;
            proof {
                assert(m.contains_key(list@[i as int].0@));
            }
            if *name != *path {
                proof {
                    assert(survivor(o, path@, tier, name@));
                }
                if md.handle.is_null() || md.handle.0 < base || md.handle.0 - base > cap
                    || md.size > cap - (md.handle.0 - base) {
                    return None;
                }
                proof {
                    assert forall|l: int| 0 <= l < moved@.len() implies (#[trigger] moved@[l]).0@ != name@ by {
                        let q = choose|q: int| 0 <= q < i && list@[q].0@ == (#[trigger] moved@[l]).0@;
                        assert(list@[q].0@ != list@[i as int].0@);
                    }
                }
                let mut j: usize = 0;
                while j < moved.len()
                    invariant
                        0 <= j <= moved@.len(),
                        in_arena(a, md),
                        survivor(o, path@, tier, name@),
                        md == o.assets[name@],
                        a == o.arena(tier),
                        self@ == o,
                        forall|l: int| 0 <= l < moved@.len() ==> (#[trigger] moved@[l]).0@ != name@,
                        gathered_so_far(o, path@, tier, buffer@, moved@),
                        a.base + a.capacity <= crate::arena::MAX_MEMORY_LIMIT,
                        forall|l: int| 0 <= l < j ==> records_disjoint((#[trigger] moved@[l]).2, md),
                    decreases moved@.len() - j,
                {
                    proof {
                        assert(in_arena(a, moved@[j as int].2));
                    }
                    let e = moved[j].2;
                    if !(e.size == 0 || md.size == 0 || e.handle.0 + e.size <= md.handle.0
                        || md.handle.0 + md.size <= e.handle.0) {
                        proof {
                            let k = moved@[j as int].0@;
                            assert(survivor(o, path@, tier, k));
                            assert(e == o.assets[k]);
                            assert(k != name@);
                            assert(!records_disjoint(o.assets[k], o.assets[name@]));
                        }
                        return None;
                    }
                    j = j + 1;
                }
                let ghost before = buffer@;
                let ghost before_moved = moved@;
                let ghost b: Block = ((md.handle.0 - a.base) as usize, md.size);
                proof {
                    lemma_pack_bound(o, path@, tier, before_moved, md);
                }
                let mut bytes = match self.read_data(md.handle, md.size) {
                    Some(v) => v,
                    None => {
                        return None;
                    },
                };
                let off = buffer.len();
                buffer.append(&mut bytes);
                moved.push((name.clone(), off, md));
                proof {
                    let n = before_moved.len() as int;
                    assert(blocks_of(moved@, a.base as int) =~= blocks_of(before_moved, a.base as int).push(b));
                    crate::blocks::lemma_total_push(blocks_of(before_moved, a.base as int), b);
                    assert(buffer@.subrange(0, before.len() as int) =~= before);
                    assert(buffer@.subrange(before.len() as int, buffer@.len() as int) =~= o.memory.subrange(md.handle.0 as int, md.handle.0 + md.size));
                    assert(moved@ =~= before_moved.push(moved@[n]));
                    lemma_gathered_push(o, path@, tier, before, before_moved, buffer@, moved@, moved@[n]);
                    assert forall|j: int| 0 <= j < moved@.len() implies exists|q: int| 0 <= q < i + 1 && list@[q].0@ == (#[trigger] moved@[j]).0@ by {
                        if j < n {
                            assert(moved@[j] == before_moved[j]);
                            let q = choose|q: int| 0 <= q < i && list@[q].0@ == (#[trigger] before_moved[j]).0@;
                            assert(list@[q].0@ == moved@[j].0@);
                        } else {
                            assert(list@[i as int].0@ == moved@[j].0@);
                        }
                    }
                    assert forall|q: int| 0 <= q < i + 1 && (#[trigger] list@[q]).0@ != path@
                        implies exists|j: int| 0 <= j < moved@.len() && (#[trigger] moved@[j]).0@ == list@[q].0@ by {
                        if q < i {
                            let j = choose|j: int| 0 <= j < before_moved.len() && (#[trigger] before_moved[j]).0@ == list@[q].0@;
                            assert(moved@[j] == before_moved[j]);
                        } else {
                            assert(moved@[n].0@ == list@[q].0@);
                        }
                    }
                }
            }
            i = i + 1;
        }
        if moved.len() == 0 {
            proof {
                assert forall|k: Seq<char>| !survivor(o, path@, tier, k) by {
                    if survivor(o, path@, tier, k) {
                        assert(m.contains_key(k));
                        let q = choose|q: int| 0 <= q < list@.len() && (#[trigger] list@[q]).0@ == k;
                    }
                }
            }
            return None;
        }
        proof {
            assert forall|k: Seq<char>| #[trigger] survivor(o, path@, tier, k)
                implies exists|j: int| 0 <= j < moved@.len() && (#[trigger] moved@[j]).0@ == k by {
                assert(m.contains_key(k));
                let q = choose|q: int| 0 <= q < list@.len() && (#[trigger] list@[q]).0@ == k;
            }
            assert forall|k: Seq<char>| #[trigger] survivor(o, path@, tier, k) implies in_arena(a, o.assets[k]) by {
                let j = choose|j: int| 0 <= j < moved@.len() && (#[trigger] moved@[j]).0@ == k;
            }
            assert forall|k1: Seq<char>, k2: Seq<char>|
                #[trigger] survivor(o, path@, tier, k1) && #[trigger] survivor(o, path@, tier, k2) && k1 != k2
                implies records_disjoint(o.assets[k1], o.assets[k2]) by {
                let j1 = choose|j: int| 0 <= j < moved@.len() && (#[trigger] moved@[j]).0@ == k1;
                let j2 = choose|j: int| 0 <= j < moved@.len() && (#[trigger] moved@[j]).0@ == k2;
                assert(j1 != j2);
            }
            assert(survivor(o, path@, tier, moved@[0].0@));
        }
        Some((buffer, moved))
    }

    /// Packs the assets of `tier` other than `path` into one block at the start of the
    /// freshly reset tier, and points their records at their new places. Fails,
    /// changing nothing, unless a repack can be made (`repackable`).
    #[verifier::rlimit(100)]
    fn repack_tier(&mut self, path: &String, tier: Tier) -> (r: bool)
        requires
            old(self).wf(),
            old(self)@.is_linear(),
        ensures
            final(self).wf(),
            r == repackable(old(self)@, path@, tier),
            !r ==> final(self)@ == old(self)@,
            r ==> {
                let o = old(self)@;
                let n = final(self)@;
                let a = o.arena(tier);
                &&& repacked(o, n, path@, tier)
                &&& n.assets.dom() == o.assets.dom()
                &&& forall|k: Seq<char>| #[trigger] o.assets.contains_key(k) && (k == path@ || o.assets[k].tier != tier)
                    ==> n.assets[k] == o.assets[k]
                &&& n.memory.len() == o.memory.len()
                &&& forall|i: int| 0 <= i < o.memory.len() && !(a.base <= i < a.base + a.capacity)
                    ==> #[trigger] n.memory[i] == o.memory[i]
                &&& forall|t: Tier| t != tier ==> #[trigger] n.arena(t) == o.arena(t)
                &&& n.space == o.space
                &&& n.base_url == o.base_url
            },
    {
        let ghost o = self@;
        let ghost a = o.arena(tier);
        let (buffer, moved) = match self.gather_survivors(path, tier) {
            Some(p) => p,
            None => {
                return false;
            },
        };
        proof {
            assert(a.wf());
        }
        let total = buffer.len();
        self.reset_tier(tier);
        let ghost after_reset = self@;
        proof {
            let ra = after_reset.arena(tier);
            assert(ra.wf());
            lemma_align(total as int, tier, ra.capacity as int);
            assert(ra.free[crate::arena::spec_size_class(spec_align_size(total as int, ra.alignment()))].len() == 0);
        }
        proof {
            assert(after_reset.arena(tier).after_allocate(total as int).1 is Some);
        }
        let h = match self.allocate(total, tier) {
            Some(h) => h,
            None => {
                return false;
            },
        };
        let ghost allocated = self@;
        proof {
            assert(h.0 == o.arena(tier).base);
            assert(o.arena(tier).base + o.arena(tier).capacity <= o.memory.len());
        }
        SIMDOps::fast_copy(buffer.as_slice(), 0, &mut self.memory, h.0, total);
        let ghost written = self@;
        proof {
            assert(buffer@.subrange(0, total as int) =~= buffer@);
        }
        let mut j: usize = 0;
        while j < moved.len()
            invariant
                self.wf(),
                j <= moved@.len(),
                h.0 + total <= written.memory.len(),
                total == buffer@.len(),
                self@ == (WallocView { assets: self@.assets, ..written }),
                written.memory == spliced(o.memory, h.0 as int, buffer@),
                self@.assets.dom() == o.assets.dom(),
                gathered(o, path@, tier, buffer@, moved@),
                forall|l: int| 0 <= l < j ==> self@.assets[(#[trigger] moved@[l]).0@] == relocated(moved@[l].2, h.0 + moved@[l].1),
                forall|k: Seq<char>| #[trigger] o.assets.contains_key(k) && (forall|l: int| 0 <= l < j ==> (#[trigger] moved@[l]).0@ != k)
                    ==> self@.assets[k] == o.assets[k],
            decreases moved@.len() - j,
        {
            let e = &moved[j];
            let at = h.0 + e.1;
            let md = AssetMetadata { handle: MemoryHandle(at), offset: at, ..e.2 };
            let ghost before = self@.assets;
            self.register_asset(e.0.clone(), md);
            proof {
                assert(self@.assets.dom() =~= o.assets.dom());
                assert forall|l: int| 0 <= l < j + 1 implies self@.assets[(#[trigger] moved@[l]).0@] == relocated(moved@[l].2, h.0 + moved@[l].1) by {
                    if l < j {
                        assert(moved@[l].0@ != moved@[j as int].0@);
                    }
                }
                assert forall|k: Seq<char>| #[trigger] o.assets.contains_key(k) && (forall|l: int| 0 <= l < j + 1 ==> (#[trigger] moved@[l]).0@ != k)
                    implies self@.assets[k] == o.assets[k] by {
                    assert(moved@[j as int].0@ != k);
                    assert forall|l: int| 0 <= l < j implies (#[trigger] moved@[l]).0@ != k by {
                        assert(0 <= l < j + 1);
                    }
                }
            }
            j = j + 1;
        }
        proof {
            let n = self@;
            let total_i = total as int;
            assert(n.arenas == allocated.arenas);
            assert(n.arena(tier) == a.after_reset().after_allocate(total_i).0);
            assert forall|k: Seq<char>| #[trigger] survivor(o, path@, tier, k) implies packed_at(o, n, total_i, k) by {
                let l = choose|l: int| 0 <= l < moved@.len() && (#[trigger] moved@[l]).0@ == k;
                let e = moved@[l];
                assert(n.assets[k] == relocated(e.2, h.0 + e.1));
                assert(n.memory.subrange(h.0 + e.1, h.0 + e.1 + e.2.size) =~= buffer@.subrange(e.1 as int, e.1 + e.2.size));
            }
            assert forall|k1: Seq<char>, k2: Seq<char>|
                #[trigger] survivor(o, path@, tier, k1) && #[trigger] survivor(o, path@, tier, k2) && k1 != k2
                implies records_disjoint(n.assets[k1], n.assets[k2]) by {
                let l1 = choose|l: int| 0 <= l < moved@.len() && (#[trigger] moved@[l]).0@ == k1;
                let l2 = choose|l: int| 0 <= l < moved@.len() && (#[trigger] moved@[l]).0@ == k2;
                assert(l1 != l2);
                assert(n.assets[k1] == relocated(moved@[l1].2, h.0 + moved@[l1].1));
                assert(n.assets[k2] == relocated(moved@[l2].2, h.0 + moved@[l2].1));
            }
            assert forall|q: int| 0 <= q < total_i implies #[trigger] byte_packed(o, n, path@, tier, q) by {
                assert(entry_covers(moved@, q));
                let l = choose|l: int| 0 <= l < moved@.len() && (#[trigger] moved@[l]).1 <= q < moved@[l].1 + moved@[l].2.size;
                let k = moved@[l].0@;
                assert(n.assets[k] == relocated(moved@[l].2, h.0 + moved@[l].1));
                assert(survivor(o, path@, tier, k));
            }
            assert(repacked_with(o, n, path@, tier, total_i));
            assert forall|k: Seq<char>| #[trigger] o.assets.contains_key(k) && (k == path@ || o.assets[k].tier != tier)
                implies n.assets[k] == o.assets[k] by {
                assert forall|l: int| 0 <= l < moved@.len() implies (#[trigger] moved@[l]).0@ != k by {
                    assert(survivor(o, path@, tier, moved@[l].0@));
                }
            }
            assert forall|t2: Tier| t2 != tier implies #[trigger] n.arena(t2) == o.arena(t2) by {
                assert(t2.spec_index() != tier.spec_index());
            }
        }
        true
    }

    /// Evicts the asset named `path`: its record goes, and so does its block. In
    /// linear memory the other assets of its tier are packed together at the start
    /// of the reset tier (see `repack_tier`), each eviction repacking once; where
    /// that cannot be done, and on the host, the block goes back to its arena
    /// alone (a record with a null handle has no block to give back). Either way every other asset of the tier keeps its bytes, and nothing
    /// outside the tier's arena changes. False when there is no such asset.
    #[verifier::rlimit(100)]
    pub fn evict_asset(&mut self, path: &str) -> (r: bool)
        requires
            old(self).wf(),
        ensures
            final(self).wf(),
            evict_result(old(self)@, path@, r, final(self)@),
    {
        let md = match self.assets.get(path) {
            Some(m) => m,
            None => {
                proof {
                    assert(self@.assets.dom() =~= self@.assets.dom().remove(path@));
                }
                return false;
            },
        };
        let ghost o = self@;
        let key = path.to_owned();
        let packed = if self.space.is_linear() {
            self.repack_tier(&key, md.tier)
        } else {
            false
        };
        let ghost did_repack = packed;
        if !packed && !md.handle.is_null() {
            let _freed = self.deallocate(md.handle, md.size, md.tier);
        }
        let ghost mid = self@;
        self.assets.remove(path);
        proof {
            let n = self@;
            let a = o.arena(md.tier);
            assert(o.assets[path@] == md);
            assert(n.assets =~= mid.assets.remove(path@));
            assert(n == (WallocView { assets: mid.assets.remove(path@), ..mid }));
            assert(n.assets.dom() =~= o.assets.dom().remove(path@));
            if !did_repack {
                if md.handle.spec_is_null() {
                    assert(mid == o);
                } else {
                    assert(mid == o.with_arena(md.tier, a.after_deallocate(md.handle, md.size as int).0));
                }
                assert(mid.memory == o.memory);
                assert(mid.assets == o.assets);
                assert(mid.space == o.space);
                assert forall|t: Tier| t != md.tier implies #[trigger] n.arena(t) == o.arena(t) by {
                    assert(t.spec_index() != md.tier.spec_index());
                }
                assert forall|k: Seq<char>| #[trigger] n.assets.contains_key(k) && o.assets[k].tier == md.tier implies {
                    &&& n.asset_bytes(k) == o.asset_bytes(k)
                    &&& (n.assets[k] == o.assets[k] || n.assets[k] == relocated(o.assets[k], n.assets[k].offset as int))
                } by {
                    assert(n.assets[k] == o.assets[k]);
                }
                if !o.is_linear() || !md.handle.spec_is_null() {
                    assert(n =~= (WallocView {
                        assets: o.assets.remove(path@),
                        ..if md.handle.spec_is_null() {
                            o
                        } else {
                            o.with_arena(md.tier, a.after_deallocate(md.handle, md.size as int).0)
                        }
                    }));
                }
            } else {
                assert(o.is_linear());
                let total = choose|total: int| repacked_with(o, mid, path@, md.tier, total);
                assert(repacked_with(o, mid, path@, md.tier, total));
                assert forall|t: Tier| t != md.tier implies #[trigger] n.arena(t) == o.arena(t) by {
                    assert(mid.arena(t) == o.arena(t));
                    assert(n.arenas == mid.arenas);
                }
                assert forall|k: Seq<char>| #[trigger] n.assets.contains_key(k) && o.assets[k].tier == md.tier implies {
                    &&& n.asset_bytes(k) == o.asset_bytes(k)
                    &&& (n.assets[k] == o.assets[k] || n.assets[k] == relocated(o.assets[k], n.assets[k].offset as int))
                } by {
                    assert(k != path@);
                    assert(o.assets.contains_key(k));
                    assert(n.assets[k] == mid.assets[k]);
                    assert(survivor(o, path@, md.tier, k));
                    assert(packed_at(o, mid, total, k));
                }
                assert(repacked(o, n, path@, md.tier)) by {
                    assert forall|k: Seq<char>| #[trigger] survivor(o, path@, md.tier, k) implies packed_at(o, n, total, k) by {
                        assert(packed_at(o, mid, total, k));
                        assert(n.assets[k] == mid.assets[k]);
                    }
                    assert forall|k1: Seq<char>, k2: Seq<char>|
                        #[trigger] survivor(o, path@, md.tier, k1) && #[trigger] survivor(o, path@, md.tier, k2) && k1 != k2
                        implies records_disjoint(n.assets[k1], n.assets[k2]) by {
                        assert(n.assets[k1] == mid.assets[k1] && n.assets[k2] == mid.assets[k2]);
                    }
                    assert forall|q: int| 0 <= q < total implies #[trigger] byte_packed(o, n, path@, md.tier, q) by {
                        assert(byte_packed(o, mid, path@, md.tier, q));
                        let k = choose|k: Seq<char>| #[trigger] survivor(o, path@, md.tier, k)
                            && mid.assets[k].offset <= o.arena(md.tier).base + q < mid.assets[k].offset + o.assets[k].size;
                        assert(n.assets[k] == mid.assets[k]);
                    }
                    assert(repacked_with(o, n, path@, md.tier, total));
                }
                assert forall|k: Seq<char>| #[trigger] n.assets.contains_key(k) && o.assets[k].tier != md.tier implies n.assets[k] == o.assets[k] by {
                    assert(o.assets.contains_key(k));
                    assert(n.assets[k] == mid.assets[k]);
                }
            }
        }
        true
    }

    /// Evicts each of `paths` in turn (see `evict_asset`), and counts the evictions.
    pub fn evict_assets_batch(&mut self, paths: &[String]) -> (r: usize)
        requires
            old(self).wf(),
        ensures
            exists|ws: Seq<WallocView>, rs: Seq<bool>|
                evict_chain(ws, rs, names_of(paths@)) && ws[0] == old(self)@ && ws.last() == final(self)@,
            final(self).wf(),
            r == after_remove_all(old(self)@.assets, names_of(paths@)).1,
            final(self)@.assets.dom() == after_remove_all(old(self)@.assets, names_of(paths@)).0.dom(),
    {
        let ghost start = self@.assets;
        let ghost mut ws: Seq<WallocView> = seq![self@];
        let ghost mut rs: Seq<bool> = Seq::empty();
        let mut evicted: usize = 0;
        let mut i: usize = 0;
        while i < paths.len()
            invariant
                self.wf(),
                evict_chain(ws, rs, names_of(paths@).subrange(0, i as int)),
                ws[0] == old(self)@,
                ws.last() == self@,
                i <= paths@.len(),
                evicted <= i,
                evicted == after_remove_all(start, names_of(paths@).subrange(0, i as int)).1,
                self@.assets.dom() == after_remove_all(start, names_of(paths@).subrange(0, i as int)).0.dom(),
            decreases paths@.len() - i,
        {
            let ghost pre = after_remove_all(start, names_of(paths@).subrange(0, i as int));
            proof {
                assert(names_of(paths@).subrange(0, i + 1).drop_last() =~= names_of(paths@).subrange(0, i as int));
                assert(names_of(paths@).subrange(0, i + 1).last() == paths@[i as int]@);
            }
            let ghost before = self@;
            let ghost before_ws = ws;
            let ghost before_rs = rs;
            let done = self.evict_asset(paths[i].as_str());
            proof {
                ws = ws.push(self@);
                rs = rs.push(done);
                let names = names_of(paths@).subrange(0, i + 1);
                assert forall|q: int| 0 <= q < names.len() implies #[trigger] evict_result(ws[q], names[q], rs[q], ws[q + 1]) by {
                    if q < i {
                        assert(ws[q] == before_ws[q] && ws[q + 1] == before_ws[q + 1] && rs[q] == before_rs[q]);
                        assert(names[q] == names_of(paths@).subrange(0, i as int)[q]);
                    } else {
                        assert(ws[q] == before);
                    }
                }
            }
            if done {
                evicted = evicted + 1;
                proof {
                    assert(pre.0.remove(paths@[i as int]@).dom() =~= pre.0.dom().remove(paths@[i as int]@));
                }
            } else {
                proof {
                    assert(self@.assets.dom() =~= pre.0.dom());
                }
            }
            i = i + 1;
        }
        proof {
            assert(names_of(paths@).subrange(0, paths@.len() as int) =~= names_of(paths@));
            assert(evict_chain(ws, rs, names_of(paths@)));
        }
        evicted
    }

    /// Copies `data` into a new block of `tier`. `None`, changing nothing, when the
    /// region's base is not established or the tier has no room.
    pub fn load_asset_zero_copy(&mut self, data: &[u8], tier: Tier) -> (r: Option<MemoryHandle>)
        requires
            old(self).wf(),
        ensures
            final(self).wf(),
            ({
                let p = old(self)@.after_allocate(tier, data@.len() as int);
                if !old(self)@.space.spec_is_established() || p.1 is None {
                    r is None && final(self)@ == old(self)@
                } else {
                    &&& r == p.1
                    &&& final(self)@ == (WallocView { memory: spliced(p.0.memory, p.1->Some_0.0 as int, data@), ..p.0 })
                }
            }),
    {
        if !self.space.is_established() {
            return None;
        }
        let ghost o = self@;
        proof {
            assert(o.arenas.update(tier.spec_index() as int, o.arena(tier)) =~= o.arenas);
        }
        let h = match self.allocate(data.len(), tier) {
            Some(h) => h,
            None => {
                return None;
            },
        };
        proof {
            let a = o.arena(tier);
            assert(a.wf());
            assert(a.base + a.capacity <= o.memory.len());
            lemma_align(data@.len() as int, tier, a.capacity as int);
            crate::arena::lemma_allocate_block(a, data@.len() as int);
            let na = a.after_allocate(data@.len() as int).0;
            assert(na.head <= na.capacity);
            let off = a.after_allocate(data@.len() as int).1->Some_0;
            assert(h.0 == off);
            assert(off >= a.base);
            assert(off - a.base + spec_align_size(data@.len() as int, a.alignment()) <= na.head);
            assert(h.0 + data@.len() <= a.base + a.capacity);
            assert(self@.readable(h, data@.len() as int));
        }
        let _written = self.write_data(h, data);
        Some(h)
    }

    /// Stores fetched bytes as the asset `path` of type `asset_type`, in the middle
    /// tier: copies them into a new block and records it. `None`, changing nothing,
    /// when the region's base is not established or the tier has no room.
    pub fn load_asset_bytes(&mut self, path: String, asset_type: AssetType, data: &[u8]) -> (r: Option<MemoryHandle>)
        requires
            old(self).wf(),
        ensures
            final(self).wf(),
            ({
                let p = old(self)@.after_allocate(Tier::Middle, data@.len() as int);
                if !old(self)@.space.spec_is_established() || p.1 is None {
                    r is None && final(self)@ == old(self)@
                } else {
                    let h = p.1->Some_0;
                    &&& r == Some(h)
                    &&& final(self)@ == (WallocView {
                        memory: spliced(p.0.memory, h.0 as int, data@),
                        assets: p.0.assets.insert(path@, AssetMetadata {
                            asset_type,
                            size: data@.len() as usize,
                            offset: h.0,
                            tier: Tier::Middle,
                            handle: h,
                        }),
                        ..p.0
                    })
                }
            }),
    {
        let h = match self.load_asset_zero_copy(data, Tier::Middle) {
            Some(h) => h,
            None => {
                return None;
            },
        };
        let md = AssetMetadata { asset_type, size: data.len(), offset: h.0, tier: Tier::Middle, handle: h };
        self.register_asset(path, md);
        Some(h)
    }

    /// Ends the allocator's use of its region: every tier reset, the registry
    /// cleared, and on the host the base forgotten, so that handles no longer
    /// translate.
    pub fn teardown(&mut self)
        requires
            old(self).wf(),
        ensures
            final(self).wf(),
            final(self)@ == (WallocView {
                arenas: Seq::new(3, |i: int| old(self)@.arenas[i].after_reset()),
                assets: Map::empty(),
                space: if old(self)@.is_linear() { AddressSpace::Linear } else { AddressSpace::Hosted { base: None } },
                ..old(self)@
            }),
    {
        self.reset_tier(Tier::Top);
        self.reset_tier(Tier::Middle);
        self.reset_tier(Tier::Bottom);
        self.assets.clear();
        if !self.space.is_linear() {
            self.space = AddressSpace::Hosted { base: None };
        }
        proof {
            assert(self@.arenas =~= Seq::new(3, |i: int| old(self)@.arenas[i].after_reset()));
        }
    }

    /// Gives back everything `owner` tracks, and returns how many bytes that was: see
    /// `WallocView::after_release`.
    #[verifier::rlimit(100)]
    pub fn release_owner(&mut self, owner: MemoryOwner) -> (r: usize)
        requires
            old(self).wf(),
            owner.wf(),
        ensures
            final(self).wf(),
            r == tracked_total(owner.spec_allocations()),
            final(self)@ == old(self)@.after_release(owner.spec_tier(), owner.spec_allocations()),
    {
        let tier = owner.tier();
        let t = tier.index();
        let total = owner.total_size();
        let allocs = owner.allocations();
        let ghost o = self@;
        proof {
            assert(allocs@.subrange(0, 0) =~= Seq::<OwnedBlock>::empty());
            assert(o.arenas.update(t as int, o.arenas[t as int]) =~= o.arenas);
        }
        let mut i: usize = 0;
        while i < allocs.len()
            invariant
                self.wf(),
                o.wf(),
                t == tier.spec_index(),
                i <= allocs@.len(),
                self@ == o.with_arena(tier, released(o.arena(tier), allocs@.subrange(0, i as int))),
            decreases allocs@.len() - i,
        {
            let (h, s) = allocs[i];
            let ghost before = self@;
            let _freed = self.deallocate(h, s, tier);
            proof {
                let pre = allocs@.subrange(0, i as int);
                let post = allocs@.subrange(0, i + 1);
                assert(post.drop_last() =~= pre);
                assert(post.last() == (h, s));
                assert(self@.arenas =~= o.arenas.update(t as int, released(o.arena(tier), post)));
            }
            i = i + 1;
        }
        proof {
            assert(allocs@.subrange(0, allocs@.len() as int) =~= allocs@);
            assert(self@.arenas =~= o.arenas.update(t as int, released(o.arena(tier), allocs@)));
        }
        if self.space.is_linear() && total > AUTO_COMPACT_THRESHOLD {
            let ghost mid = self@;
            self.compact_to_live_extent(tier);
            proof {
                let b = released(o.arena(tier), allocs@);
                assert(mid.arena(tier) == b);
                assert(self@.arenas =~= o.arenas.update(t as int, b.after_fast_compact(max_end(b.live))));
                assert(self@ =~= o.after_release(tier, allocs@));
            }
        } else {
            proof {
                assert(self@ =~= o.after_release(tier, allocs@));
            }
        }
        total
    }

    /// Serves the requests in order, one handle or `None` for each. The tiers'
    /// arenas are independent, so the order across tiers changes nothing.
    pub fn allocate_batch(&mut self, requests: &[(usize, Tier)]) -> (r: Vec<Option<MemoryHandle>>)
        requires
            old(self).wf(),
        ensures
            final(self).wf(),
            (final(self)@, r@) == old(self)@.after_allocate_batch(requests@),
    {
        let ghost o = self@;
        let mut results: Vec<Option<MemoryHandle>> = Vec::new();
        let mut i: usize = 0;
        while i < requests.len()
            invariant
                self.wf(),
                i <= requests@.len(),
                (self@, results@) == o.after_allocate_batch(requests@.subrange(0, i as int)),
            decreases requests@.len() - i,
        {
            let (size, tier) = requests[i];
            proof {
                assert(requests@.subrange(0, i + 1).drop_last() =~= requests@.subrange(0, i as int));
                assert(requests@.subrange(0, i + 1).last() == (size, tier));
            }
            let h = self.allocate(size, tier);
            results.push(h);
            i = i + 1;
        }
        proof {
            assert(requests@.subrange(0, requests@.len() as int) =~= requests@);
        }
        results
    }

    /// Sets the bump cursor of `tier` to `preserve_bytes`, taking the bytes before it
    /// to be what is kept.
    ///
    /// At or below the cursor, the arena compacts (`LockFreeArena::fast_compact`).
    /// Above it but within capacity, the cursor advances over the gap. Beyond the
    /// capacity, only the bottom tier in linear memory can grow: the region grows by
    /// the aligned shortfall in whole pages, keeping its bytes, unless that passes
    /// `MAX_MEMORY_LIMIT`. Every other case fails and changes nothing.
    pub fn fast_compact_tier(&mut self, tier: Tier, preserve_bytes: usize) -> (r: bool)
        requires
            old(self).wf(),
        ensures
            final(self).wf(),
            fast_compact_tier_result(old(self)@, tier, preserve_bytes as int, r, final(self)@),
    {
        let t = tier.index();
        let ghost o = self@;
        let ghost old_arenas = self.arenas@;
        let head = self.arenas[t].usage();
        let cap = self.arenas[t].capacity();
        if preserve_bytes <= head {
            let _done = self.arenas[t].fast_compact(preserve_bytes);
            proof {
                assert(self@.arenas =~= o.arenas.update(t as int, self.arenas@[t as int]@));
                assert(self@ =~= o.with_arena(tier, self.arenas@[t as int]@));
                self.arenas@[t as int].lemma_wf();
                assert(self@.arenas[t as int].wf());
                assert forall|j: int| 0 <= j < self.arenas@.len() implies (#[trigger] self.arenas@[j]).wf() by {
                    if j != t {
                        assert(self.arenas@[j] == old_arenas[j]);
                    }
                }
            }
            return true;
        }
        if preserve_bytes <= cap {
            self.arenas[t].advance_to(preserve_bytes);
            proof {
                assert(self@.arenas =~= o.arenas.update(t as int, self.arenas@[t as int]@));
                assert(self@ =~= o.with_arena(tier, self.arenas@[t as int]@));
                self.arenas@[t as int].lemma_wf();
                assert(self@.arenas[t as int].wf());
                assert forall|j: int| 0 <= j < self.arenas@.len() implies (#[trigger] self.arenas@[j]).wf() by {
                    if j != t {
                        assert(self.arenas@[j] == old_arenas[j]);
                    }
                }
            }
            return true;
        }
        let ghost a = o.arena(tier);
        proof {
            lemma_align(preserve_bytes as int, tier, a.capacity as int);
            assert(a.base + a.capacity <= o.memory.len());
            let short = spec_align_size(preserve_bytes as int, 8) - a.capacity;
            if tier == Tier::Bottom {
                lemma_round_down(short + PAGE_SIZE - 1, PAGE_SIZE as int);
            }
        }
        if !self.space.is_linear() || t != 2 || preserve_bytes > MAX_MEMORY_LIMIT {
            return false;
        }
        let needed = self.arenas[t].align_size(preserve_bytes) - cap;
        let pages = (needed + PAGE_SIZE - 1) / PAGE_SIZE;
        let growth = pages * PAGE_SIZE;
        let len = self.memory.len();
        if growth > MAX_MEMORY_LIMIT - len {
            return false;
        }
        let new_len = len + growth;
        self.memory.resize(new_len, 0u8);
        let base = self.arenas[t].base_offset();
        let new_cap = (new_len - base) / 8 * 8;
        proof {
            lemma_round_down((new_len - base) as int, 8);
            let m = spec_align_size(preserve_bytes as int, 8);
            assert(m % 8 == 0);
            assert(m <= new_len - base);
            assert(new_cap >= m) by (nonlinear_arith)
                requires
                    m % 8 == 0,
                    m <= new_len - base,
                    new_cap == (new_len - base) / 8 * 8,
                    new_len - base >= 0,
            ;
        }
        self.arenas[t].extend_capacity(new_cap);
        self.arenas[t].advance_to(preserve_bytes);
        proof {
            self.arenas@[t as int].lemma_wf();
            assert(self@.arenas[t as int].wf());
            assert(self@.arenas =~= o.arenas.update(t as int, self.arenas@[t as int]@));
            assert forall|j: int| 0 <= j < self.arenas@.len() implies (#[trigger] self.arenas@[j]).wf() by {
                if j != t {
                    assert(self.arenas@[j] == old_arenas[j]);
                }
            }
            assert(self@.memory.subrange(0, o.memory.len() as int) =~= o.memory);
        }
        true
    }

    /// Bytes in live blocks, capacity, peak bump cursor, and bytes handed out since
    /// construction, of the arena of `tier`.
    pub fn tier_stats(&self, tier: Tier) -> (r: (usize, usize, usize, usize))
        requires
            self.wf(),
        ensures
            r == (self@.arena(tier).used() as usize, self@.arena(tier).capacity, self@.arena(tier).peak,
                self@.arena(tier).lifetime_total),
    {
        self.arenas[tier.index()].stats()
    }

    /// The bump cursor of `tier`.
    pub fn tier_usage(&self, tier: Tier) -> (r: usize)
        requires
            self.wf(),
        ensures
            r == self@.arena(tier).head,
    {
        self.arenas[tier.index()].usage()
    }

    /// Bytes in live blocks over all tiers.
    pub fn total_used(&self) -> (r: usize)
        requires
            self.wf(),
        ensures
            r == self@.arenas[0].used() + self@.arenas[1].used() + self@.arenas[2].used(),
    {
        proof {
            crate::blocks::lemma_disjoint_total(self@.arenas[0].live, self@.arenas[0].head as int);
            crate::blocks::lemma_disjoint_total(self@.arenas[1].live, self@.arenas[1].head as int);
            crate::blocks::lemma_disjoint_total(self@.arenas[2].live, self@.arenas[2].head as int);
        }
        self.arenas[0].used() + self.arenas[1].used() + self.arenas[2].used()
    }

    /// Size of the managed region.
    pub fn get_memory_limit(&self) -> (r: usize)
        ensures
            r == self@.memory.len(),
    {
        self.memory.len()
    }

    /// Frees every block of `tier` at once.
    pub fn reset_tier(&mut self, tier: Tier)
        requires
            old(self).wf(),
        ensures
            final(self).wf(),
            final(self)@ == old(self)@.with_arena(tier, old(self)@.arena(tier).after_reset()),
    {
        let t = tier.index();
        let ghost o = self@;
        self.arenas[t].reset();
        proof {
            assert(self@.arenas =~= o.arenas.update(t as int, self.arenas@[t as int]@));
            assert(self@ =~= o.with_arena(tier, self.arenas@[t as int]@));
            assert forall|i: int| 0 <= i < self.arenas@.len() implies (#[trigger] self.arenas@[i]).wf() by {
                if i != t {
                    assert(self.arenas@[i] == old(self).arenas@[i]);
                }
            }
        }
    }

    /// Writes `data` at `handle`. Fails, changing nothing, on the null handle, when
    /// the region's base is not established, or when the bytes would run past the
    /// end of the region.
    pub fn write_data(&mut self, handle: MemoryHandle, data: &[u8]) -> (r: Result<(), &'static str>)
        requires
            old(self).wf(),
        ensures
            final(self).wf(),
            r is Ok <==> old(self)@.readable(handle, data@.len() as int),
            r is Ok ==> final(self)@ == (WallocView { memory: spliced(old(self)@.memory, handle.0 as int, data@), ..old(self)@ }),
            r is Err ==> final(self)@ == old(self)@,
    {
        if handle.is_null() {
            return Err("Memory handle is null");
        }
        if !self.space.is_established() {
            return Err("Memory region is not mapped");
        }
        if handle.0 > self.memory.len() || data.len() > self.memory.len() - handle.0 {
            return Err("Memory access out of bounds");
        }
        SIMDOps::fast_copy(data, 0, &mut self.memory, handle.0, data.len());
        proof {
            assert(data@.subrange(0, data@.len() as int) =~= data@);
        }
        Ok(())
    }

    /// The `length` bytes at `handle`, where they can be reached.
    pub fn read_data(&self, handle: MemoryHandle, length: usize) -> (r: Option<Vec<u8>>)
        requires
            self.wf(),
        ensures
            r matches Some(v) ==> self@.read(handle, length as int) == Some(v@),
            r is None ==> self@.read(handle, length as int) is None,
    {
        if handle.is_null() || !self.space.is_established() || handle.0 > self.memory.len()
            || length > self.memory.len() - handle.0 {
            return None;
        }
        let mut buffer: Vec<u8> = vec![0u8; length];
        SIMDOps::fast_copy(self.memory.as_slice(), handle.0, &mut buffer, 0, length);
        proof {
            assert(buffer@ =~= self@.memory.subrange(handle.0 as int, handle.0 + length));
        }
        Some(buffer)
    }

    /// Carries out the copies in order inside the region; nothing when its base is not
    /// established. See `SIMDOps::bulk_copy_optimized`.
    pub fn bulk_copy(&mut self, operations: &[CopyOp])
        requires
            old(self).wf(),
        ensures
            final(self).wf(),
            final(self)@ == (WallocView {
                memory: if old(self)@.space.spec_is_established() {
                    apply_copies(old(self)@.memory, operations@)
                } else {
                    old(self)@.memory
                },
                ..old(self)@
            }),
    {
        if self.space.is_established() {
            SIMDOps::bulk_copy_optimized(&mut self.memory, operations);
            proof {
                lemma_apply_copies_len(old(self)@.memory, operations@);
            }
        }
    }

    /// Records `metadata` under `key`. True when the name was new.
    pub fn register_asset(&mut self, key: String, metadata: AssetMetadata) -> (r: bool)
        requires
            old(self).wf(),
        ensures
            final(self).wf(),
            r == !old(self)@.assets.contains_key(key@),
            final(self)@ == (WallocView { assets: old(self)@.assets.insert(key@, metadata), ..old(self)@ }),
    {
        self.assets.insert(key, metadata)
    }

    pub fn get_asset(&self, path: &str) -> (r: Option<AssetMetadata>)
        requires
            self.wf(),
        ensures
            r == (if self@.assets.contains_key(path@) { Some(self@.assets[path@]) } else { None::<AssetMetadata> }),
    {
        self.assets.get(path)
    }

    /// The asset registry.
    pub fn assets(&self) -> (r: &SimpleAssetRegistry)
        requires
            self.wf(),
        ensures
            r.wf(),
            r@ == self@.assets,
    {
        &self.assets
    }
}

} // verus!
