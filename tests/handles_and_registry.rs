use walloc::{AddressSpace, AssetMetadata, AssetType, MemoryHandle, SimpleAssetRegistry, Tier};

#[test]
fn null_handle() {
    let n = MemoryHandle::null();
    assert!(n.is_null());
    assert_eq!(n.offset(), usize::MAX);
    assert!(!MemoryHandle(0).is_null());
}

#[test]
fn advance_wraps() {
    assert_eq!(MemoryHandle(10).advance(5), MemoryHandle(15));
    assert_eq!(MemoryHandle(usize::MAX - 1).advance(3), MemoryHandle(1));
}

#[test]
fn handles_are_ordered() {
    assert!(MemoryHandle(3) < MemoryHandle(4));
}

#[test]
fn linear_handles_are_addresses() {
    let s = AddressSpace::Linear;
    assert_eq!(MemoryHandle(1234).to_ptr(&s), Some(1234));
    assert_eq!(MemoryHandle::null().to_ptr(&s), None);
    assert_eq!(MemoryHandle::from_ptr(Some(77), &s), MemoryHandle(77));
    assert!(MemoryHandle::from_ptr(None, &s).is_null());
}

#[test]
fn hosted_handles_are_offsets_from_the_base() {
    let s = AddressSpace::Hosted { base: Some(4096) };
    assert_eq!(MemoryHandle(16).to_ptr(&s), Some(4112));
    assert_eq!(MemoryHandle::from_ptr(Some(4112), &s), MemoryHandle(16));
    assert!(MemoryHandle::from_ptr(Some(100), &s).is_null());
    assert_eq!(MemoryHandle(usize::MAX - 10).to_ptr(&s), None);
    let h = MemoryHandle(999);
    assert_eq!(MemoryHandle::from_ptr(h.to_ptr(&s), &s), h);
}

#[test]
fn hosted_translation_fails_closed_without_a_base() {
    let s = AddressSpace::Hosted { base: None };
    assert!(!s.is_established());
    assert!(AddressSpace::Linear.is_established());
    assert_eq!(MemoryHandle(16).to_ptr(&s), None);
    assert!(MemoryHandle::from_ptr(Some(16), &s).is_null());
}

#[test]
fn tiers_by_number() {
    assert_eq!(Tier::from_u8(0), Some(Tier::Top));
    assert_eq!(Tier::from_u8(1), Some(Tier::Middle));
    assert_eq!(Tier::from_u8(2), Some(Tier::Bottom));
    assert_eq!(Tier::from_u8(3), None);
    assert_eq!(Tier::Top.alignment(), 128);
    assert_eq!(Tier::Middle.alignment(), 64);
    assert_eq!(Tier::Bottom.alignment(), 8);
    assert_eq!(Tier::Top.memory_percentage(), 50);
    assert_eq!(Tier::Middle.memory_percentage(), 30);
    assert_eq!(Tier::Bottom.memory_percentage(), 20);
    assert_eq!(Tier::Bottom.index(), 2);
}

#[test]
fn asset_types_by_tag() {
    assert_eq!(AssetType::from_tag(0), AssetType::Image);
    assert_eq!(AssetType::from_tag(1), AssetType::Json);
    assert_eq!(AssetType::from_tag(2), AssetType::Binary);
    assert_eq!(AssetType::from_tag(9), AssetType::Binary);
}

fn md(size: usize, tier: Tier) -> AssetMetadata {
    AssetMetadata { asset_type: AssetType::Binary, size, offset: size, tier, handle: MemoryHandle(size) }
}

#[test]
fn registry_insert_get_remove() {
    let mut r = SimpleAssetRegistry::new();
    assert!(r.is_empty());
    assert!(r.insert("a".to_string(), md(1, Tier::Top)));
    assert!(r.insert("b".to_string(), md(2, Tier::Middle)));
    assert!(!r.insert("a".to_string(), md(3, Tier::Top)));
    assert_eq!(r.len(), 2);
    assert_eq!(r.get("a"), Some(md(3, Tier::Top)));
    assert_eq!(r.get("c"), None);
    assert!(r.remove("a"));
    assert!(!r.remove("a"));
    assert_eq!(r.len(), 1);
    r.clear();
    assert!(r.is_empty());
    assert_eq!(r.get("b"), None);
}

#[test]
fn registry_batch_removal_counts() {
    let mut r = SimpleAssetRegistry::new();
    r.insert("a".to_string(), md(1, Tier::Top));
    r.insert("b".to_string(), md(2, Tier::Top));
    r.insert("c".to_string(), md(3, Tier::Top));
    let n = r.remove_batch(&["a".to_string(), "a".to_string(), "c".to_string(), "zz".to_string()]);
    assert_eq!(n, 2);
    assert_eq!(r.len(), 1);
    assert!(r.get("b").is_some());
}

#[test]
fn registry_lists_a_tier() {
    let mut r = SimpleAssetRegistry::new();
    r.insert("a".to_string(), md(1, Tier::Top));
    r.insert("b".to_string(), md(2, Tier::Middle));
    r.insert("c".to_string(), md(3, Tier::Top));
    let mut top = r.get_assets_by_tier(Tier::Top);
    top.sort_by(|x, y| x.0.cmp(&y.0));
    assert_eq!(top, vec![("a".to_string(), md(1, Tier::Top)), ("c".to_string(), md(3, Tier::Top))]);
    assert!(r.get_assets_by_tier(Tier::Bottom).is_empty());
}
