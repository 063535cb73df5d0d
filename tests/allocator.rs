use walloc::{create_walloc, AddressSpace, AssetMetadata, AssetType, MemoryHandle, Tier, Walloc};

const MIB: usize = 1024 * 1024;
const MIDDLE_BASE: usize = 524288;
const BOTTOM_BASE: usize = 838912;

fn hosted(n: usize) -> Walloc {
    Walloc::with_memory(n, AddressSpace::Hosted { base: Some(0) }).unwrap()
}

fn linear(n: usize) -> Walloc {
    Walloc::with_memory(n, AddressSpace::Linear).unwrap()
}

fn aligned(size: usize, tier: Tier) -> usize {
    let a = tier.alignment();
    (size + a - 1) / a * a
}

fn register(w: &mut Walloc, name: &str, data: &[u8], tier: Tier) -> MemoryHandle {
    let handle = w.allocate(data.len(), tier).unwrap();
    w.write_data(handle, data).unwrap();
    let metadata = AssetMetadata {
        asset_type: AssetType::Binary,
        size: data.len(),
        offset: handle.offset(),
        tier,
        handle,
    };
    w.register_asset(name.to_string(), metadata);
    handle
}

#[test]
fn layout_of_one_mebibyte() {
    let w = hosted(MIB);
    assert_eq!(w.tier_stats(Tier::Top), (0, 524288, 0, 0));
    assert_eq!(w.tier_stats(Tier::Middle), (0, 314624, 0, 0));
    assert_eq!(w.tier_stats(Tier::Bottom), (0, 209664, 0, 0));
    assert_eq!(w.get_memory_limit(), MIB);
}

#[test]
fn default_allocator_layout() {
    let w = create_walloc().unwrap();
    assert_eq!(w.get_memory_limit(), 64 * MIB);
    assert_eq!(w.tier_stats(Tier::Top).1, 33554432);
    assert_eq!(w.tier_stats(Tier::Middle).1, 20132672);
    assert_eq!(w.tier_stats(Tier::Bottom).1, 13421760);
}

#[test]
fn region_too_small_is_refused() {
    assert!(Walloc::with_memory(100, AddressSpace::Linear).is_err());
}

#[test]
fn empty_region_has_empty_tiers() {
    let mut w = Walloc::with_memory(0, AddressSpace::Linear).unwrap();
    assert_eq!(w.tier_stats(Tier::Top).1, 0);
    assert_eq!(w.tier_stats(Tier::Bottom).1, 0);
    assert_eq!(w.allocate(0, Tier::Top), Some(MemoryHandle(0)));
    assert!(w.allocate(1, Tier::Top).is_none());
}

#[test]
fn region_too_large_is_refused() {
    assert!(Walloc::with_memory(2048 * MIB + 1, AddressSpace::Linear).is_err());
}

#[test]
fn allocations_follow_tier_alignment() {
    let mut w = hosted(MIB);
    assert_eq!(w.allocate(1, Tier::Top), Some(MemoryHandle(0)));
    assert_eq!(w.allocate(1, Tier::Top), Some(MemoryHandle(128)));
    assert_eq!(w.allocate(1, Tier::Middle), Some(MemoryHandle(MIDDLE_BASE)));
    assert_eq!(w.allocate(100, Tier::Middle), Some(MemoryHandle(MIDDLE_BASE + 64)));
    assert_eq!(w.allocate(1, Tier::Bottom), Some(MemoryHandle(BOTTOM_BASE)));
    assert_eq!(w.allocate(1, Tier::Bottom), Some(MemoryHandle(BOTTOM_BASE + 8)));
    assert_eq!(w.tier_stats(Tier::Top).0, 256);
    assert_eq!(w.tier_stats(Tier::Middle).0, 192);
    assert_eq!(w.tier_stats(Tier::Bottom).0, 16);
    assert_eq!(w.total_used(), 464);
}

#[test]
fn write_read_round_trip() {
    let mut w = create_walloc().unwrap();
    let _render = w.allocate(1024, Tier::Top).unwrap();
    let scene = w.allocate(2048, Tier::Middle).unwrap();
    let _temp = w.allocate(512, Tier::Bottom).unwrap();
    let data = b"Hello, Walloc! This is a test string for memory operations.";
    w.write_data(scene, data).unwrap();
    let back = w.read_data(scene, data.len()).unwrap();
    assert_eq!(back.as_slice(), &data[..]);
}

#[test]
fn write_read_round_trip_fills_remaining_capacity() {
    let mut w = hosted(MIB);
    let _first = w.allocate(1000, Tier::Bottom).unwrap();
    let remaining = w.tier_stats(Tier::Bottom).1 - w.tier_usage(Tier::Bottom);
    let data: Vec<u8> = (0..remaining).map(|i| (i % 253) as u8).collect();
    let h = w.allocate(data.len(), Tier::Bottom).unwrap();
    w.write_data(h, &data).unwrap();
    assert_eq!(w.read_data(h, data.len()).unwrap(), data);
}

#[test]
fn null_handle_is_refused() {
    let mut w = hosted(MIB);
    assert_eq!(w.write_data(MemoryHandle::null(), b"test"), Err("Memory handle is null"));
    assert!(w.read_data(MemoryHandle::null(), 4).is_none());
}

#[test]
fn access_past_region_end_is_refused() {
    let mut w = hosted(MIB);
    assert_eq!(w.write_data(MemoryHandle(MIB - 2), b"abcd"), Err("Memory access out of bounds"));
    assert!(w.read_data(MemoryHandle(MIB - 2), 4).is_none());
    assert!(w.write_data(MemoryHandle(MIB - 4), b"abcd").is_ok());
    assert_eq!(w.read_data(MemoryHandle(MIB - 4), 4).unwrap(), b"abcd".to_vec());
}

#[test]
fn huge_allocation_fails() {
    let mut w = create_walloc().unwrap();
    assert!(w.allocate(1_000_000_000, Tier::Top).is_none());
    assert_eq!(w.tier_stats(Tier::Top).0, 0);
}

#[test]
fn owner_release_gives_back_bytes() {
    let mut w = hosted(MIB);
    let start = w.tier_stats(Tier::Middle).0;
    let (owner1, h1) = w.allocate_with_owner(1024, Tier::Middle).unwrap();
    let (owner2, h2) = w.allocate_with_owner(2048, Tier::Middle).unwrap();
    w.write_data(h1, b"Owner 1 data").unwrap();
    w.write_data(h2, b"Owner 2 data").unwrap();
    let used0 = w.tier_stats(Tier::Middle).0;
    assert_eq!(used0, start + 3072);
    assert_eq!(w.release_owner(owner1), 1024);
    let used1 = w.tier_stats(Tier::Middle).0;
    assert!(used1 < used0);
    assert_eq!(used1, start + 2048);
    assert_eq!(w.read_data(h2, 12).unwrap(), b"Owner 2 data".to_vec());
    assert_eq!(w.release_owner(owner2), 2048);
    assert_eq!(w.tier_stats(Tier::Middle).0, start);
}

#[test]
fn owner_tracks_its_allocations() {
    let mut w = hosted(MIB);
    let (mut owner, h) = w.allocate_with_owner(1024, Tier::Middle).unwrap();
    assert_eq!(owner.total_size(), 1024);
    assert_eq!(owner.arena_index(), 1);
    assert_eq!(owner.tier(), Tier::Middle);
    let extra = w.allocate(10, Tier::Middle).unwrap();
    owner.add_allocation(extra, 10);
    assert_eq!(owner.total_size(), 1034);
    assert_eq!(owner.allocations().clone(), vec![(h, 1024), (extra, 10)]);
    assert_eq!(w.release_owner(owner), 1034);
    assert_eq!(w.tier_stats(Tier::Middle).0, 0);
}

#[test]
fn large_release_compacts_in_linear_memory() {
    let mut w = linear(MIB);
    let _kept = w.allocate(64, Tier::Middle).unwrap();
    let (owner, _h) = w.allocate_with_owner(70000, Tier::Middle).unwrap();
    assert_eq!(w.tier_usage(Tier::Middle), 64 + aligned(70000, Tier::Middle));
    assert_eq!(w.release_owner(owner), 70000);
    assert_eq!(w.tier_usage(Tier::Middle), 64);
    assert_eq!(w.tier_stats(Tier::Middle).0, 64);
}

#[test]
fn large_release_does_not_compact_on_host() {
    let mut w = hosted(MIB);
    let _kept = w.allocate(64, Tier::Middle).unwrap();
    let (owner, _h) = w.allocate_with_owner(70000, Tier::Middle).unwrap();
    assert_eq!(w.release_owner(owner), 70000);
    assert_eq!(w.tier_usage(Tier::Middle), 64 + 70016);
    assert_eq!(w.tier_stats(Tier::Middle).0, 64);
}

#[test]
fn fast_compact_keeps_the_prefix() {
    let mut w = hosted(MIB);
    let data1 = b"Important data to preserve";
    let h1 = w.allocate(data1.len(), Tier::Middle).unwrap();
    w.write_data(h1, data1).unwrap();
    let data2 = b"Another important piece";
    let h2 = w.allocate(data2.len(), Tier::Middle).unwrap();
    w.write_data(h2, data2).unwrap();
    let used_before = w.tier_stats(Tier::Middle).0;
    assert!(w.fast_compact_tier(Tier::Middle, data1.len() + 64));
    let used_after = w.tier_stats(Tier::Middle).0;
    assert!(used_after <= used_before);
    assert_eq!(used_after, 64);
    assert_eq!(w.tier_usage(Tier::Middle), 90);
    assert_eq!(w.read_data(h1, data1.len()).unwrap(), data1.to_vec());
    let h3 = w.allocate(32, Tier::Middle).unwrap();
    assert_eq!(h3, MemoryHandle(MIDDLE_BASE + 128));
    assert_eq!(w.tier_usage(Tier::Middle), 192);
    assert!(w.write_data(h3, b"New data after compact").is_ok());
}

#[test]
fn fast_compact_to_current_usage_never_raises_it() {
    let mut w = hosted(MIB);
    let a = w.allocate(100, Tier::Top).unwrap();
    let _b = w.allocate(100, Tier::Top).unwrap();
    assert!(w.deallocate(a, 100, Tier::Top));
    let used = w.tier_stats(Tier::Top).0;
    assert_eq!(used, 128);
    assert!(w.fast_compact_tier(Tier::Top, used));
    assert_eq!(w.tier_stats(Tier::Top).0, 0);
}

#[test]
fn fast_compact_past_capacity_fails_on_host() {
    let mut w = hosted(MIB);
    let _h = w.allocate(4096, Tier::Top).unwrap();
    let before = w.tier_stats(Tier::Top);
    assert!(!w.fast_compact_tier(Tier::Top, usize::MAX));
    assert!(!w.fast_compact_tier(Tier::Top, before.1 + 1));
    assert_eq!(w.tier_stats(Tier::Top), before);
    assert_eq!(w.tier_usage(Tier::Top), 4096);
}

#[test]
fn fast_compact_advances_within_capacity() {
    let mut w = hosted(MIB);
    assert!(w.fast_compact_tier(Tier::Bottom, 1001));
    assert_eq!(w.tier_usage(Tier::Bottom), 1001);
    assert_eq!(w.tier_stats(Tier::Bottom).0, 1001);
    assert_eq!(w.allocate(1, Tier::Bottom), Some(MemoryHandle(BOTTOM_BASE + 1008)));
}

#[test]
fn fast_compact_grows_bottom_tier_in_linear_memory() {
    let mut w = linear(MIB);
    let h = w.allocate(16, Tier::Bottom).unwrap();
    w.write_data(h, b"keep these bytes").unwrap();
    assert!(w.fast_compact_tier(Tier::Bottom, 209664 + 100));
    assert_eq!(w.get_memory_limit(), MIB + 65536);
    assert_eq!(w.tier_stats(Tier::Bottom).1, 275200);
    assert_eq!(w.tier_usage(Tier::Bottom), 209764);
    assert_eq!(w.read_data(h, 16).unwrap(), b"keep these bytes".to_vec());
}

#[test]
fn only_the_bottom_tier_grows() {
    let mut w = linear(MIB);
    assert!(!w.fast_compact_tier(Tier::Top, 524288 + 1));
    assert!(!w.fast_compact_tier(Tier::Middle, 314624 + 1));
    assert_eq!(w.get_memory_limit(), MIB);
}

#[test]
fn growth_past_the_ceiling_fails() {
    let mut w = linear(MIB);
    assert!(!w.fast_compact_tier(Tier::Bottom, usize::MAX));
    assert_eq!(w.get_memory_limit(), MIB);
    assert_eq!(w.tier_usage(Tier::Bottom), 0);
}

#[test]
fn reset_tier_frees_everything() {
    let mut w = hosted(MIB);
    for _ in 0..10 {
        w.allocate(1000, Tier::Middle).unwrap();
    }
    w.reset_tier(Tier::Middle);
    assert_eq!(w.tier_stats(Tier::Middle).0, 0);
    assert_eq!(w.tier_usage(Tier::Middle), 0);
    assert_eq!(w.allocate(314624, Tier::Middle), Some(MemoryHandle(MIDDLE_BASE)));
    w.reset_tier(Tier::Middle);
    w.reset_tier(Tier::Middle);
    assert_eq!(w.tier_stats(Tier::Middle).0, 0);
    assert!(w.allocate(1, Tier::Middle).is_some());
}

#[test]
fn eviction_keeps_survivors_on_host() {
    let mut w = hosted(MIB);
    let a = register(&mut w, "A", b"AAAAAAAAAA", Tier::Middle);
    register(&mut w, "B", b"BBBBBBBBBB", Tier::Middle);
    let c = register(&mut w, "C", b"CCCCCCCCCC", Tier::Middle);
    assert!(w.evict_asset("B"));
    assert!(w.get_asset("B").is_none());
    let ma = w.get_asset("A").unwrap();
    let mc = w.get_asset("C").unwrap();
    assert_eq!(ma.handle, a);
    assert_eq!(mc.handle, c);
    assert_eq!(w.read_data(ma.handle, 10).unwrap(), b"AAAAAAAAAA".to_vec());
    assert_eq!(w.read_data(mc.handle, 10).unwrap(), b"CCCCCCCCCC".to_vec());
    assert_eq!(w.tier_stats(Tier::Middle).0, 128);
}

#[test]
fn eviction_repacks_survivors_in_linear_memory() {
    let mut w = linear(MIB);
    let _pad = w.allocate(500, Tier::Middle).unwrap();
    register(&mut w, "A", b"AAAAAAAAAA", Tier::Middle);
    register(&mut w, "B", b"BBBBBBBBBB", Tier::Middle);
    register(&mut w, "C", b"CCCCCCCCCC", Tier::Middle);
    assert!(w.evict_asset("B"));
    assert!(w.get_asset("B").is_none());
    let ma = w.get_asset("A").unwrap();
    let mc = w.get_asset("C").unwrap();
    assert_eq!(ma.handle, MemoryHandle(MIDDLE_BASE));
    assert_eq!(ma.offset, MIDDLE_BASE);
    assert_eq!(mc.handle, MemoryHandle(MIDDLE_BASE + 10));
    assert_eq!(w.read_data(ma.handle, 10).unwrap(), b"AAAAAAAAAA".to_vec());
    assert_eq!(w.read_data(mc.handle, 10).unwrap(), b"CCCCCCCCCC".to_vec());
    assert_eq!(w.tier_stats(Tier::Middle).0, 64);
    assert_eq!(w.tier_usage(Tier::Middle), 64);
}

#[test]
fn evicting_a_record_without_a_block_repacks_in_linear_memory() {
    let mut w = linear(MIB);
    let _pad = w.allocate(500, Tier::Middle).unwrap();
    register(&mut w, "A", b"AAAAAAAAAA", Tier::Middle);
    let md = AssetMetadata { asset_type: AssetType::Json, size: 0, offset: 0, tier: Tier::Middle, handle: MemoryHandle::null() };
    w.register_asset("N".to_string(), md);
    assert!(w.evict_asset("N"));
    assert!(w.get_asset("N").is_none());
    let ma = w.get_asset("A").unwrap();
    assert_eq!(ma.handle, MemoryHandle(MIDDLE_BASE));
    assert_eq!(w.read_data(ma.handle, 10).unwrap(), b"AAAAAAAAAA".to_vec());
    assert_eq!(w.tier_usage(Tier::Middle), 64);
}

#[test]
fn eviction_of_unknown_asset_fails() {
    let mut w = hosted(MIB);
    register(&mut w, "A", b"AAAA", Tier::Bottom);
    assert!(!w.evict_asset("missing"));
    assert!(w.get_asset("A").is_some());
}

#[test]
fn batch_eviction_counts_present_names() {
    let mut w = hosted(MIB);
    register(&mut w, "name1", b"one", Tier::Middle);
    register(&mut w, "name2", b"two", Tier::Middle);
    register(&mut w, "name3", b"three", Tier::Middle);
    let n = w.evict_assets_batch(&["name1".to_string(), "name3".to_string(), "missing".to_string()]);
    assert_eq!(n, 2);
    assert!(w.get_asset("name2").is_some());
    assert!(w.get_asset("name1").is_none());
}

#[test]
fn batch_eviction_counts_in_linear_memory() {
    let mut w = linear(MIB);
    register(&mut w, "name1", b"one", Tier::Middle);
    register(&mut w, "name2", b"two", Tier::Middle);
    register(&mut w, "name3", b"three", Tier::Middle);
    let n = w.evict_assets_batch(&["name1".to_string(), "name3".to_string(), "missing".to_string()]);
    assert_eq!(n, 2);
    let m2 = w.get_asset("name2").unwrap();
    assert_eq!(w.read_data(m2.handle, 3).unwrap(), b"two".to_vec());
}

#[test]
fn batch_eviction_counts_repeated_name_once() {
    let mut w = hosted(MIB);
    register(&mut w, "x", b"x", Tier::Bottom);
    assert_eq!(w.evict_assets_batch(&["x".to_string(), "x".to_string()]), 1);
}

#[test]
fn asset_eviction_scenario() {
    let mut w = create_walloc().unwrap();
    for i in 0..5 {
        let data = format!("Asset data {}", i).into_bytes();
        register(&mut w, &format!("asset_{}", i), &data, Tier::Middle);
    }
    for i in 0..5 {
        assert!(w.get_asset(&format!("asset_{}", i)).is_some());
    }
    assert!(w.evict_asset("asset_2"));
    assert!(w.get_asset("asset_2").is_none());
    assert!(w.get_asset("asset_1").is_some());
    assert!(w.get_asset("asset_3").is_some());
    let evicted = w.evict_assets_batch(&["asset_0".to_string(), "asset_4".to_string(), "nonexistent".to_string()]);
    assert_eq!(evicted, 2);
}

#[test]
fn bulk_copy_between_tiers() {
    let mut w = create_walloc().unwrap();
    let src = w.allocate(1024, Tier::Middle).unwrap();
    let dst = w.allocate(1024, Tier::Bottom).unwrap();
    let data = vec![0x42u8; 1024];
    w.write_data(src, &data).unwrap();
    w.bulk_copy(&[(src, dst, 1024)]);
    assert_eq!(w.read_data(dst, 1024).unwrap(), data);
}

#[test]
fn bulk_copy_of_many_sizes() {
    let mut w = create_walloc().unwrap();
    for size in [8usize, 32, 128, 1024, 4096, 65536] {
        let src_data: Vec<u8> = (0..size).map(|i| (i % 241) as u8).collect();
        let src = w.allocate(size, Tier::Middle).unwrap();
        let dst = w.allocate(size, Tier::Middle).unwrap();
        w.write_data(src, &src_data).unwrap();
        w.bulk_copy(&[(src, dst, size)]);
        assert_eq!(w.read_data(dst, size).unwrap(), src_data, "size {}", size);
    }
}

#[test]
fn load_asset_bytes_records_the_asset() {
    let mut w = hosted(MIB);
    let body = b"{\"id\": 1, \"title\": \"post\"}";
    let h = w.load_asset_bytes("posts/1".to_string(), AssetType::Json, body).unwrap();
    assert_eq!(h, MemoryHandle(MIDDLE_BASE));
    let md = w.get_asset("posts/1").unwrap();
    assert_eq!(md.size, body.len());
    assert_eq!(md.tier, Tier::Middle);
    assert_eq!(md.asset_type, AssetType::Json);
    assert_eq!(md.handle, h);
    assert_eq!(md.offset, MIDDLE_BASE);
    assert_eq!(w.read_data(h, body.len()).unwrap(), body.to_vec());
}

#[test]
fn load_asset_bytes_fails_without_room() {
    let mut w = hosted(MIB);
    let big = vec![1u8; 400_000];
    assert!(w.load_asset_bytes("big".to_string(), AssetType::Binary, &big).is_none());
    assert!(w.get_asset("big").is_none());
    assert_eq!(w.tier_stats(Tier::Middle).0, 0);
}

#[test]
fn load_asset_zero_copy_copies_in() {
    let mut w = hosted(MIB);
    let h = w.load_asset_zero_copy(b"temporary", Tier::Bottom).unwrap();
    assert_eq!(h, MemoryHandle(BOTTOM_BASE));
    assert_eq!(w.read_data(h, 9).unwrap(), b"temporary".to_vec());
}

#[test]
fn teardown_unmaps_host_region() {
    let mut w = hosted(MIB);
    let h = register(&mut w, "A", b"AAAA", Tier::Top);
    w.teardown();
    assert_eq!(w.address_space(), AddressSpace::Hosted { base: None });
    assert_eq!(w.write_data(h, b"x"), Err("Memory region is not mapped"));
    assert!(w.read_data(h, 1).is_none());
    assert!(w.get_asset("A").is_none());
    assert_eq!(w.tier_stats(Tier::Top).0, 0);
    assert!(w.load_asset_zero_copy(b"x", Tier::Top).is_none());
}

#[test]
fn teardown_keeps_linear_memory_mapped() {
    let mut w = linear(MIB);
    let h = w.allocate(4, Tier::Top).unwrap();
    w.teardown();
    assert!(w.write_data(h, b"abcd").is_ok());
}

#[test]
fn allocate_batch_serves_each_request() {
    let mut w = hosted(MIB);
    let r = w.allocate_batch(&[(64, Tier::Top), (10_000_000, Tier::Middle), (1, Tier::Bottom), (1, Tier::Top)]);
    assert_eq!(r, vec![Some(MemoryHandle(0)), None, Some(MemoryHandle(BOTTOM_BASE)), Some(MemoryHandle(128))]);
}

#[test]
fn stats_track_peak_and_lifetime_total() {
    let mut w = hosted(MIB);
    let a = w.allocate(64, Tier::Middle).unwrap();
    let _b = w.allocate(64, Tier::Middle).unwrap();
    assert_eq!(w.tier_stats(Tier::Middle), (128, 314624, 128, 128));
    assert!(w.deallocate(a, 64, Tier::Middle));
    assert_eq!(w.tier_stats(Tier::Middle), (64, 314624, 128, 128));
    assert_eq!(w.allocate(64, Tier::Middle), Some(a));
    assert_eq!(w.tier_stats(Tier::Middle), (128, 314624, 128, 192));
}

#[test]
fn deallocate_rejects_unknown_and_repeated_release() {
    let mut w = hosted(MIB);
    let a = w.allocate(64, Tier::Middle).unwrap();
    assert!(!w.deallocate(MemoryHandle(a.offset() + 64), 64, Tier::Middle));
    assert!(!w.deallocate(a, 64, Tier::Top));
    assert!(!w.deallocate(a, 1000, Tier::Middle));
    assert!(!w.deallocate(MemoryHandle::null(), 64, Tier::Middle));
    assert!(w.deallocate(a, 64, Tier::Middle));
    assert!(!w.deallocate(a, 64, Tier::Middle));
    assert_eq!(w.tier_stats(Tier::Middle).0, 0);
}

#[test]
fn used_bytes_match_outstanding_allocations() {
    let mut w = hosted(MIB);
    let mut outstanding: Vec<(MemoryHandle, usize)> = Vec::new();
    let mut expected: usize = 0;
    for round in 0..600usize {
        let size = 1 + (round * 37) % 700;
        if let Some(h) = w.allocate(size, Tier::Bottom) {
            outstanding.push((h, size));
            expected += aligned(size, Tier::Bottom);
        }
        if round % 3 == 2 {
            let (h, size) = outstanding.remove(round % outstanding.len());
            assert!(w.deallocate(h, size, Tier::Bottom));
            expected -= aligned(size, Tier::Bottom);
        }
        assert_eq!(w.tier_stats(Tier::Bottom).0, expected);
    }
    for (h, size) in outstanding {
        assert!(w.deallocate(h, size, Tier::Bottom));
    }
    assert_eq!(w.tier_stats(Tier::Bottom).0, 0);
}

#[test]
fn handles_stay_aligned_after_compaction() {
    let mut w = hosted(MIB);
    w.allocate(1, Tier::Top).unwrap();
    assert!(w.fast_compact_tier(Tier::Top, 5));
    assert_eq!(w.tier_usage(Tier::Top), 5);
    assert!(w.fast_compact_tier(Tier::Top, 300));
    assert_eq!(w.tier_usage(Tier::Top), 300);
    let h = w.allocate(1, Tier::Top).unwrap();
    assert_eq!(h.offset() % 128, 0);
    assert_eq!(h, MemoryHandle(384));
}

#[test]
fn live_blocks_never_overlap() {
    let mut w = hosted(MIB);
    let mut outstanding: Vec<(usize, usize)> = Vec::new();
    for round in 0..300usize {
        let size = 32 * (1 + round % 9);
        if let Some(h) = w.allocate(size, Tier::Middle) {
            outstanding.push((h.offset(), aligned(size, Tier::Middle)));
        }
        if round % 4 == 3 {
            let (off, len) = outstanding.remove((round * 7) % outstanding.len());
            assert!(w.deallocate(MemoryHandle(off), len, Tier::Middle));
        }
    }
    for (i, a) in outstanding.iter().enumerate() {
        assert!(a.0 >= MIDDLE_BASE && a.0 + a.1 <= MIDDLE_BASE + 314624);
        for b in outstanding.iter().skip(i + 1) {
            assert!(a.0 + a.1 <= b.0 || b.0 + b.1 <= a.0, "{:?} overlaps {:?}", a, b);
        }
    }
}

#[test]
fn register_asset_reports_new_names() {
    let mut w = hosted(MIB);
    let md = AssetMetadata { asset_type: AssetType::Image, size: 4, offset: 0, tier: Tier::Top, handle: MemoryHandle(0) };
    assert!(w.register_asset("img".to_string(), md));
    assert!(!w.register_asset("img".to_string(), AssetMetadata { size: 8, ..md }));
    assert_eq!(w.get_asset("img").unwrap().size, 8);
}

#[test]
fn base_url_is_kept() {
    let w = hosted(MIB).with_base_url("https://example.org/".to_string());
    assert_eq!(w.base_url().as_str(), "https://example.org/");
    let mut w = w;
    w.set_base_url("https://other.example/".to_string());
    assert_eq!(w.base_url().as_str(), "https://other.example/");
}
