use kernel::mm::{init, MemRegion, VirtAddr};
use kernel::paging::{PageTable, PageType, PAGE_NX, PAGE_USER};
use kernel::task::{Task, STACK_BASE};

fn provider() -> kernel::mm::PhysicalMemory {
    init(&vec![MemRegion { base: 0x100000, length: 0x100000, usable: true }]).unwrap()
}

fn put_u16(v: &mut Vec<u8>, off: usize, x: u16) {
    v[off..off + 2].copy_from_slice(&x.to_le_bytes());
}

fn put_u32(v: &mut Vec<u8>, off: usize, x: u32) {
    v[off..off + 4].copy_from_slice(&x.to_le_bytes());
}

fn put_u64(v: &mut Vec<u8>, off: usize, x: u64) {
    v[off..off + 8].copy_from_slice(&x.to_le_bytes());
}

/// A minimal 64-bit little-endian ELF image: the header, a null section
/// header, one PROGBITS section header, and the section's bytes.
fn tiny_elf(entry: u64, sec_addr: u64, sec_size: u64) -> Vec<u8> {
    let data_off = 64 + 2 * 64;
    let mut v = vec![0u8; data_off as usize + sec_size as usize];
    // Identification: magic, 64-bit class, little-endian data, version 1.
    v[0] = 0x7f;
    v[1] = b'E';
    v[2] = b'L';
    v[3] = b'F';
    v[4] = 2;
    v[5] = 1;
    v[6] = 1;
    put_u16(&mut v, 16, 2); // executable
    put_u16(&mut v, 18, 0x3e); // x86-64
    put_u32(&mut v, 20, 1); // version
    put_u64(&mut v, 24, entry);
    put_u64(&mut v, 40, 64); // section headers follow the file header
    put_u16(&mut v, 52, 64); // header size
    put_u16(&mut v, 58, 64); // section-header entry size
    put_u16(&mut v, 60, 2); // two section headers
    // Section 0 stays the all-zero null section. Section 1 is PROGBITS.
    let s1 = 64 + 64;
    put_u32(&mut v, s1 + 4, 1); // PROGBITS
    put_u64(&mut v, s1 + 16, sec_addr);
    put_u64(&mut v, s1 + 24, data_off); // file offset of the bytes
    put_u64(&mut v, s1 + 32, sec_size);
    v
}

#[test]
fn task_creation_maps_the_user_stack() {
    let mut pm = provider();
    let pt = PageTable::new(&mut pm).unwrap();
    let task = Task::new(&mut pm, pt).unwrap();
    assert_eq!(task.context().rsp, STACK_BASE + 4096);
    assert_eq!(task.context().rip, 0);
    // The stack page came from the provider right after the root frame, and
    // is mapped user-accessible, writable and non-executable.
    let leaf = task.page_table().read_raw(VirtAddr(STACK_BASE), PageType::Page4K).unwrap();
    assert_eq!(leaf, 0x101000 | PAGE_NX | PAGE_USER | 3);
}

#[test]
fn loading_an_image_records_the_entry_point_and_maps_its_pages() {
    let mut pm = provider();
    let pt = PageTable::new(&mut pm).unwrap();
    let mut task = Task::new(&mut pm, pt).unwrap();
    let elf = tiny_elf(0x401000, 0x400000, 100);
    let copies = task.load_elf(&mut pm, &elf).unwrap();
    assert_eq!(task.context().rip, 0x401000);
    // One copy operation: the section's 100 bytes into the fresh frame.
    assert_eq!(copies.len(), 1);
    assert_eq!(copies[0].phys, 0x105000);
    assert_eq!(copies[0].vaddr, 0x400000);
    assert_eq!(copies[0].offset, 192);
    assert_eq!(copies[0].len, 100);
    // One page for the 100-byte section, freshly allocated after the stack
    // page and the stack's three intermediate tables.
    let leaf = task.page_table().read_raw(VirtAddr(0x400000), PageType::Page4K).unwrap();
    assert_eq!(leaf & !0xfff & !(PAGE_NX), 0x105000);
    assert_eq!(leaf & 0xfff, PAGE_USER | 3);
}

#[test]
fn loading_a_multi_page_section_maps_every_page() {
    let mut pm = provider();
    let pt = PageTable::new(&mut pm).unwrap();
    let mut task = Task::new(&mut pm, pt).unwrap();
    let elf = tiny_elf(0x400000, 0x400000, 5000);
    let copies = task.load_elf(&mut pm, &elf).unwrap();
    assert_eq!(copies.len(), 2);
    assert_eq!(copies[0].len, 4096);
    assert_eq!(copies[1].len, 5000 - 4096);
    assert_eq!(copies[1].offset, 192 + 4096);
    // ceil(5000 / 4096) = 2 pages.
    assert!(task.page_table().read_raw(VirtAddr(0x400000), PageType::Page4K).is_some());
    let second = task.page_table().read_raw(VirtAddr(0x401000), PageType::Page4K).unwrap();
    assert_eq!(second & 0xfff, PAGE_USER | 3);
}

#[test]
fn loading_rejects_bytes_without_the_elf_magic() {
    let mut pm = provider();
    let pt = PageTable::new(&mut pm).unwrap();
    let mut task = Task::new(&mut pm, pt).unwrap();
    let junk = vec![0u8; 128];
    assert_eq!(task.load_elf(&mut pm, &junk), None);
    assert_eq!(task.context().rip, 0);
}

#[test]
fn loading_rejects_a_section_outside_the_image() {
    let mut pm = provider();
    let pt = PageTable::new(&mut pm).unwrap();
    let mut task = Task::new(&mut pm, pt).unwrap();
    let mut elf = tiny_elf(0x401000, 0x400000, 100);
    // Claim more section bytes than the file holds.
    put_u64(&mut elf, 64 + 64 + 32, 0x10000);
    assert_eq!(task.load_elf(&mut pm, &elf), None);
}

#[test]
fn saved_context_round_trips() {
    let mut pm = provider();
    let pt = PageTable::new(&mut pm).unwrap();
    let mut task = Task::new(&mut pm, pt).unwrap();
    let mut ctx = *task.context();
    ctx.rip = 0x1234;
    ctx.regs.rax = 7;
    task.save_context(ctx);
    assert_eq!(task.context().rip, 0x1234);
    assert_eq!(task.context().regs.rax, 7);
}
