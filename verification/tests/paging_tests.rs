use kernel::mm::{init, MemRegion, VirtAddr};
use kernel::paging::{PageTable, PageType, PAGE_NX, PAGE_PRESENT, PAGE_USER, PAGE_WRITE};

fn provider() -> kernel::mm::PhysicalMemory {
    init(&vec![MemRegion { base: 0x100000, length: 0x100000, usable: true }]).unwrap()
}

#[test]
fn page_type_sizes() {
    assert_eq!(PageType::Page4K.size(), 0x1000);
    assert_eq!(PageType::Page2M.size(), 0x200000);
    assert_eq!(PageType::Page1G.size(), 0x40000000);
}

#[test]
fn fresh_table_maps_nothing() {
    let mut pm = provider();
    let pt = PageTable::new(&mut pm).unwrap();
    assert_eq!(pt.read_raw(VirtAddr(0), PageType::Page4K), None);
    assert_eq!(pt.read_raw(VirtAddr(0xdeadbeef000), PageType::Page4K), None);
    assert_eq!(pt.read_raw(VirtAddr(0x40000000), PageType::Page1G), None);
    assert_eq!(pt.root_addr(), 0x100000);
}

#[test]
fn mapping_then_reading_back_returns_the_exact_entry() {
    let mut pm = provider();
    let mut pt = PageTable::new(&mut pm).unwrap();
    let raw = 0x7000 | PAGE_PRESENT | PAGE_WRITE;
    let va = VirtAddr(0x40201000);
    assert_eq!(pt.map_raw(&mut pm, va, PageType::Page4K, raw, true, false, false), Some(()));
    assert_eq!(pt.read_raw(va, PageType::Page4K), Some(raw));
}

#[test]
fn mapping_preserves_arbitrary_leaf_bits() {
    let mut pm = provider();
    let mut pt = PageTable::new(&mut pm).unwrap();
    // The manager installs the caller's bits verbatim, NX bit included.
    let raw = 0x123000 | PAGE_NX | PAGE_USER | PAGE_PRESENT;
    let va = VirtAddr(0xcafebabe00000000);
    assert_eq!(pt.map_raw(&mut pm, va, PageType::Page4K, raw, true, true, true), Some(()));
    assert_eq!(pt.read_raw(va, PageType::Page4K), Some(raw));
}

#[test]
fn two_megabyte_mapping_round_trips() {
    let mut pm = provider();
    let mut pt = PageTable::new(&mut pm).unwrap();
    let raw = 0x200000 | PAGE_PRESENT | PAGE_WRITE;
    let va = VirtAddr(0x40000000);
    assert_eq!(pt.map_raw(&mut pm, va, PageType::Page2M, raw, true, false, false), Some(()));
    assert_eq!(pt.read_raw(va, PageType::Page2M), Some(raw));
    // A neighbouring leaf slot in the same (now existing) table reads back
    // as the zero entry it still holds.
    assert_eq!(pt.read_raw(VirtAddr(0x48000000), PageType::Page2M), Some(0));
    // A walk whose top-level entry was never installed finds no leaf table.
    assert_eq!(pt.read_raw(VirtAddr(0x8000000000), PageType::Page2M), None);
}

#[test]
fn update_without_permission_fails_and_changes_nothing() {
    let mut pm = provider();
    let mut pt = PageTable::new(&mut pm).unwrap();
    let first = 0x7000 | PAGE_PRESENT;
    let second = 0x8000 | PAGE_PRESENT | PAGE_WRITE;
    let va = VirtAddr(0x1000);
    assert_eq!(pt.map_raw(&mut pm, va, PageType::Page4K, first, true, false, false), Some(()));
    // allow_update = false: the present leaf must survive untouched.
    assert_eq!(pt.map_raw(&mut pm, va, PageType::Page4K, second, true, false, false), None);
    assert_eq!(pt.read_raw(va, PageType::Page4K), Some(first));
}

#[test]
fn update_with_permission_replaces_the_leaf() {
    let mut pm = provider();
    let mut pt = PageTable::new(&mut pm).unwrap();
    let first = 0x7000 | PAGE_PRESENT;
    let second = 0x8000 | PAGE_PRESENT | PAGE_WRITE;
    let va = VirtAddr(0x1000);
    assert_eq!(pt.map_raw(&mut pm, va, PageType::Page4K, first, true, false, false), Some(()));
    assert_eq!(pt.map_raw(&mut pm, va, PageType::Page4K, second, true, true, true), Some(()));
    assert_eq!(pt.read_raw(va, PageType::Page4K), Some(second));
}

#[test]
fn missing_tables_without_permission_to_create_fail() {
    let mut pm = provider();
    let mut pt = PageTable::new(&mut pm).unwrap();
    let raw = 0x7000 | PAGE_PRESENT;
    assert_eq!(
        pt.map_raw(&mut pm, VirtAddr(0x1000), PageType::Page4K, raw, false, false, false),
        None
    );
    assert_eq!(pt.read_raw(VirtAddr(0x1000), PageType::Page4K), None);
}

#[test]
fn a_non_present_leaf_entry_reads_back_as_written() {
    let mut pm = provider();
    let mut pt = PageTable::new(&mut pm).unwrap();
    // The leaf takes the raw bits verbatim even without the present bit.
    let raw = 0xabc000;
    let va = VirtAddr(0x2000);
    assert_eq!(pt.map_raw(&mut pm, va, PageType::Page4K, raw, true, false, false), Some(()));
    assert_eq!(pt.read_raw(va, PageType::Page4K), Some(raw));
    // And mapping again still sees a non-present slot, so no update
    // permission is needed.
    assert_eq!(pt.map_raw(&mut pm, va, PageType::Page4K, 0x5000, true, false, false), Some(()));
    assert_eq!(pt.read_raw(va, PageType::Page4K), Some(0x5000));
}

#[test]
fn neighbouring_pages_keep_their_own_entries() {
    let mut pm = provider();
    let mut pt = PageTable::new(&mut pm).unwrap();
    let a = VirtAddr(0x1000);
    let b = VirtAddr(0x2000);
    assert_eq!(pt.map_raw(&mut pm, a, PageType::Page4K, 0x111000 | 1, true, false, false), Some(()));
    assert_eq!(pt.map_raw(&mut pm, b, PageType::Page4K, 0x222000 | 1, true, false, false), Some(()));
    assert_eq!(pt.read_raw(a, PageType::Page4K), Some(0x111000 | 1));
    assert_eq!(pt.read_raw(b, PageType::Page4K), Some(0x222000 | 1));
}

#[test]
fn mapping_fails_once_physical_memory_runs_out() {
    // Only two free frames: the root consumes one, and the first 4 KiB
    // mapping needs three fresh intermediate tables.
    let mut pm = init(&vec![MemRegion { base: 0x1000, length: 0x2000, usable: true }]).unwrap();
    let mut pt = PageTable::new(&mut pm).unwrap();
    assert_eq!(
        pt.map_raw(&mut pm, VirtAddr(0x1000), PageType::Page4K, 0x7000 | 1, true, false, false),
        None
    );
    assert_eq!(pt.read_raw(VirtAddr(0x1000), PageType::Page4K), None);
}
