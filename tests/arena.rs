use walloc::{size_class_for, LockFreeArena, MemoryHandle, Tier};

#[test]
fn size_classes_follow_powers_of_two() {
    assert_eq!(size_class_for(0), 0);
    assert_eq!(size_class_for(32), 0);
    assert_eq!(size_class_for(63), 0);
    assert_eq!(size_class_for(64), 1);
    assert_eq!(size_class_for(127), 1);
    assert_eq!(size_class_for(128), 2);
    assert_eq!(size_class_for(2048), 6);
    assert_eq!(size_class_for(4095), 6);
    assert_eq!(size_class_for(4096), 7);
    assert_eq!(size_class_for(1 << 20), 7);
}

#[test]
fn new_arena_aligns_base_and_capacity() {
    let a = LockFreeArena::new(10, 1000, Tier::Bottom);
    assert_eq!(a.base_offset(), 64);
    assert_eq!(a.capacity(), 944);
    assert_eq!(a.usage(), 0);
    assert_eq!(a.tier(), Tier::Bottom);
    assert_eq!(a.base_ptr(), MemoryHandle(64));
    let b = LockFreeArena::new(0, 1000, Tier::Top);
    assert_eq!(b.capacity(), 896);
    let c = LockFreeArena::new(60, 3, Tier::Middle);
    assert_eq!(c.capacity(), 0);
}

#[test]
fn align_size_rounds_to_block_alignment() {
    let top = LockFreeArena::new(0, 4096, Tier::Top);
    let mid = LockFreeArena::new(0, 4096, Tier::Middle);
    let bottom = LockFreeArena::new(0, 4096, Tier::Bottom);
    assert_eq!(top.align_size(1), 128);
    assert_eq!(mid.align_size(65), 128);
    assert_eq!(bottom.align_size(1), 8);
    assert_eq!(bottom.align_size(0), 0);
    assert_eq!(bottom.align_size(64), 64);
}

#[test]
fn bump_allocation_advances_the_cursor() {
    let mut a = LockFreeArena::new(0, 1024, Tier::Middle);
    assert_eq!(a.allocate(1), Some(0));
    assert_eq!(a.allocate(65), Some(64));
    assert_eq!(a.usage(), 192);
    assert_eq!(a.used(), 192);
    assert_eq!(a.allocation_count(), 2);
    assert_eq!(a.allocate(2000), None);
    assert_eq!(a.allocate(832), Some(192));
    assert_eq!(a.allocate(1), None);
    assert_eq!(a.stats(), (1024, 1024, 1024, 1024));
}

#[test]
fn freed_block_is_reused_for_the_same_size() {
    let mut a = LockFreeArena::new(0, 1024, Tier::Middle);
    let x = a.allocate(64).unwrap();
    let _y = a.allocate(64).unwrap();
    assert!(a.deallocate(MemoryHandle(x), 64));
    assert_eq!(a.used(), 64);
    assert_eq!(a.allocate(128), Some(128));
    assert_eq!(a.allocate(64), Some(x));
    assert_eq!(a.usage(), 256);
}

#[test]
fn freed_block_of_other_size_is_not_reused() {
    let mut a = LockFreeArena::new(0, 1024, Tier::Bottom);
    let x = a.allocate(96).unwrap();
    assert!(a.deallocate(MemoryHandle(x), 96));
    assert_eq!(a.allocate(64), Some(96));
    assert_eq!(a.allocate(96), Some(0));
}

#[test]
fn deallocate_needs_a_live_block() {
    let mut a = LockFreeArena::new(256, 1024, Tier::Bottom);
    assert!(!a.deallocate(MemoryHandle::null(), 32));
    assert!(!a.deallocate(MemoryHandle(0), 32));
    let x = a.allocate(32).unwrap();
    assert_eq!(x, 256);
    assert!(!a.deallocate(MemoryHandle(x), 64));
    assert!(a.deallocate(MemoryHandle(x), 32));
    assert!(!a.deallocate(MemoryHandle(x), 32));
}

#[test]
fn small_bottom_blocks_are_not_reused() {
    let mut a = LockFreeArena::new(0, 1024, Tier::Bottom);
    let x = a.allocate(8).unwrap();
    assert!(a.deallocate(MemoryHandle(x), 8));
    assert_eq!(a.used(), 0);
    assert_eq!(a.allocate(8), Some(8));
}

#[test]
fn empty_blocks_come_and_go() {
    let mut a = LockFreeArena::new(0, 1024, Tier::Bottom);
    let _x = a.allocate(32).unwrap();
    let z = a.allocate(0).unwrap();
    assert_eq!(z, 32);
    assert_eq!(a.usage(), 32);
    assert_eq!(a.allocation_count(), 2);
    assert!(a.deallocate(MemoryHandle(z), 0));
    assert_eq!(a.allocation_count(), 1);
    assert_eq!(a.used(), 32);
}

#[test]
fn reset_clears_the_arena() {
    let mut a = LockFreeArena::new(0, 1024, Tier::Bottom);
    let x = a.allocate(100).unwrap();
    a.allocate(100).unwrap();
    assert!(a.deallocate(MemoryHandle(x), 100));
    a.reset();
    assert_eq!(a.usage(), 0);
    assert_eq!(a.used(), 0);
    assert_eq!(a.allocation_count(), 0);
    assert_eq!(a.allocate(1024), Some(0));
    a.reset();
    a.reset();
    assert_eq!(a.used(), 0);
}

#[test]
fn fast_compact_drops_blocks_past_the_prefix() {
    let mut a = LockFreeArena::new(0, 1024, Tier::Middle);
    a.allocate(64).unwrap();
    a.allocate(64).unwrap();
    a.allocate(64).unwrap();
    assert!(!a.fast_compact(193));
    assert!(a.fast_compact(128));
    assert_eq!(a.usage(), 128);
    assert_eq!(a.used(), 128);
    assert_eq!(a.allocation_count(), 2);
    assert!(a.fast_compact(100));
    assert_eq!(a.usage(), 100);
    assert_eq!(a.used(), 64);
    assert_eq!(a.live_extent(), 64);
    assert_eq!(a.allocate(1), Some(128));
}

#[test]
fn advance_and_extend() {
    let mut a = LockFreeArena::new(0, 1024, Tier::Bottom);
    a.allocate(32).unwrap();
    a.advance_to(100);
    assert_eq!(a.usage(), 100);
    assert_eq!(a.used(), 100);
    assert_eq!(a.live_extent(), 100);
    a.extend_capacity(2048);
    assert_eq!(a.capacity(), 2048);
    assert_eq!(a.allocate(1900), Some(104));
}

#[test]
fn peak_and_lifetime_totals() {
    let mut a = LockFreeArena::new(0, 4096, Tier::Bottom);
    let x = a.allocate(1000).unwrap();
    assert!(a.deallocate(MemoryHandle(x), 1000));
    a.allocate(1000).unwrap();
    a.reset();
    assert_eq!(a.stats(), (0, 4096, 1000, 2000));
}

#[test]
fn reuse_searches_below_the_top_of_the_stack() {
    let mut a = LockFreeArena::new(0, 4096, Tier::Bottom);
    let x = a.allocate(96).unwrap();
    let y = a.allocate(64).unwrap();
    let _z = a.allocate(32).unwrap();
    assert!(a.deallocate(MemoryHandle(x), 96));
    assert!(a.deallocate(MemoryHandle(y), 64));
    assert_eq!(a.allocate(96), Some(x));
    assert_eq!(a.allocate(64), Some(y));
    assert_eq!(a.usage(), 192);
}
