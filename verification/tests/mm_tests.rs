use kernel::mm::{init, seed_from_map, MemRegion, PhysAddr, PhysMem, PhysicalMemory};

fn one_region_map() -> Vec<MemRegion> {
    vec![MemRegion { base: 0x100000, length: 0x100000, usable: true }]
}

#[test]
fn boot_scenario_seeds_allocates_and_reports() {
    // One usable region [0x100000, 0x200000).
    let mut rs = seed_from_map(&one_region_map()).unwrap();
    assert_eq!(rs.sum(), Some(0x100000));
    assert_eq!(rs.allocate(4096, 4096), Some(0x100000));
    assert_eq!(rs.allocate(4096, 4096), Some(0x101000));
}

#[test]
fn seeding_skips_unusable_and_empty_regions() {
    let regions = vec![
        MemRegion { base: 0x1000, length: 0x1000, usable: true },
        MemRegion { base: 0x2000, length: 0x1000, usable: false },
        MemRegion { base: 0x3000, length: 0, usable: true },
    ];
    let rs = seed_from_map(&regions).unwrap();
    assert_eq!(rs.sum(), Some(0x1000));
    assert_eq!(rs.entries().len(), 1);
    assert_eq!(rs.entries()[0].start, 0x1000);
    assert_eq!(rs.entries()[0].end, 0x1fff);
}

#[test]
fn seeding_merges_adjacent_regions() {
    let regions = vec![
        MemRegion { base: 0x1000, length: 0x1000, usable: true },
        MemRegion { base: 0x2000, length: 0x1000, usable: true },
    ];
    let rs = seed_from_map(&regions).unwrap();
    assert_eq!(rs.entries().len(), 1);
    assert_eq!(rs.sum(), Some(0x2000));
}

#[test]
fn seeding_rejects_a_region_past_the_address_width() {
    let regions = vec![MemRegion { base: u64::MAX - 10, length: 100, usable: true }];
    assert!(seed_from_map(&regions).is_none());
}

#[test]
fn provider_allocates_fresh_aligned_blocks() {
    let mut pm = init(&one_region_map()).unwrap();
    let a = pm.alloc_phys(4096, 4096).unwrap();
    let b = pm.alloc_phys(4096, 4096).unwrap();
    assert_eq!(a, PhysAddr(0x100000));
    assert_eq!(b, PhysAddr(0x101000));
    // Previously handed-out bytes never come back while not freed.
    assert_ne!(a.0, b.0);
}

#[test]
fn provider_translate_is_identity_except_on_empty_access() {
    let mut pm = init(&one_region_map()).unwrap();
    assert_eq!(pm.translate(PhysAddr(0x1234), 0), None);
    assert_eq!(pm.translate(PhysAddr(0x1234), 8), Some(PhysAddr(0x1234)));
}

#[test]
fn provider_fails_when_memory_is_exhausted() {
    let regions = vec![MemRegion { base: 0x1000, length: 0x2000, usable: true }];
    let mut pm = init(&regions).unwrap();
    assert!(pm.alloc_phys(0x1000, 0x1000).is_some());
    assert!(pm.alloc_phys(0x1000, 0x1000).is_some());
    assert_eq!(pm.alloc_phys(0x1000, 0x1000), None);
}

#[test]
fn freeing_returns_the_bytes_to_the_pool() {
    let mut pm = init(&one_region_map()).unwrap();
    let a = pm.alloc_phys(0x1000, 0x1000).unwrap();
    let b = pm.alloc_phys(0x1000, 0x1000).unwrap();
    assert!(pm.free_phys(a, 0x1000));
    // The freed block is the lowest fit and is served again.
    assert_eq!(pm.alloc_phys(0x1000, 0x1000), Some(a));
    assert_ne!(a, b);
}

#[test]
fn freeing_rejects_an_empty_block() {
    let mut pm = init(&one_region_map()).unwrap();
    assert!(!pm.free_phys(PhysAddr(0x100000), 0));
}

#[test]
fn zeroed_allocation_allocates_the_same_way() {
    let mut pm = init(&one_region_map()).unwrap();
    let a = pm.alloc_phys_zeroed(0x100, 0x100).unwrap();
    assert_eq!(a, PhysAddr(0x100000));
}
