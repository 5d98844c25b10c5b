use kernel::interrupts::{IDTDescriptor, ISTType, Interrupts, Registers, Tss};
use kernel::mm::{init, MemRegion};

#[test]
fn gate_type_bytes_match_the_architecture() {
    assert_eq!(ISTType::NoIst.bits(), 0x0e);
    assert_eq!(ISTType::KernelModeIntGate.bits(), 0x8e);
    assert_eq!(ISTType::Ring1IntGate.bits(), 0xae);
    assert_eq!(ISTType::Ring2ModeIntGate.bits(), 0xce);
    assert_eq!(ISTType::UserModeIntGate.bits(), 0xee);
}

#[test]
fn idt_descriptor_packs_the_documented_byte_pattern() {
    let d = IDTDescriptor::new(0, ISTType::KernelModeIntGate, 0x08, 0x1122334455667788);
    // Bytes 0-1 address low, 2-3 selector, 4 IST, 5 gate type, 6-7 address
    // middle, 8-11 address high, 12-15 reserved.
    assert_eq!(d.to_u128(), 0x11223344_5566_8e00_0008_7788u128);
}

#[test]
fn idt_descriptor_splits_the_handler_address() {
    let d = IDTDescriptor::new(2, ISTType::UserModeIntGate, 0x18, 0xffff800000101234);
    assert_eq!(d.base_low, 0x1234);
    assert_eq!(d.base_mid, 0x0010);
    assert_eq!(d.base_high, 0xffff8000);
    assert_eq!(d.ist, 2);
    assert_eq!(d.type_attributes, 0xee);
    assert_eq!(d.code_selector, 0x18);
    assert_eq!(d.reserved, 0);
    // Round trip: the three slices reassemble the address.
    let back = (d.base_low as u64) | ((d.base_mid as u64) << 16) | ((d.base_high as u64) << 32);
    assert_eq!(back, 0xffff800000101234);
}

#[test]
fn tss_words_follow_the_packed_layout() {
    let t = Tss { rsp: [0xaabbccdd11223344, 0, 0], ist: [0; 7], iopb_offset: 0 };
    let w = t.into_slice();
    // The first stack pointer straddles the first two words at a 32-bit
    // offset (after the leading reserved 32 bits).
    assert_eq!(w[0], 0x11223344_00000000);
    assert_eq!(w[1], 0xaabbccdd);
    for i in 2..13 {
        assert_eq!(w[i], 0);
    }
}

#[test]
fn tss_word_twelve_carries_the_iopb_offset() {
    let t = Tss { rsp: [0; 3], ist: [0; 7], iopb_offset: 0x68 };
    let w = t.into_slice();
    assert_eq!(w[12], 0x68u64 << 48);
}

#[test]
fn default_tss_and_registers_are_zero() {
    let t = Tss::default();
    assert!(t.into_slice().iter().all(|&w| w == 0));
    let r = Registers::default();
    assert_eq!(r.rax, 0);
    assert_eq!(r.r15, 0);
}

#[test]
fn interrupts_init_builds_the_documented_tables() {
    let mut pm = init(&vec![MemRegion { base: 0x100000, length: 0x100000, usable: true }]).unwrap();
    let stack_top = 0x7000;
    let it = Interrupts::init(&mut pm, stack_top, 0x1000, 0x2000, 0x3000).unwrap();

    // GDT: null, kernel code, kernel data, user code, user data, TSS low/high.
    assert_eq!(it.gdt.len(), 7);
    assert_eq!(it.gdt[0], 0);
    assert_eq!(it.gdt[1], 0x00209a0000000000);
    assert_eq!(it.gdt[2], 0x0000920000000000);
    assert_eq!(it.gdt[3], 0x0020fb0000000000);
    assert_eq!(it.gdt[4], 0x0000f30000000000);
    // The TSS page is the provider's first frame, 0x100000: descriptor type
    // 0x89, base slices of 0x100000, limit 103.
    assert_eq!(it.tss_base.0, 0x100000);
    assert_eq!(it.gdt[5], 0x0000890000000000 | (0x100000u64 << 16) | 103);
    assert_eq!(it.gdt[6], 0);

    // TSS: the privileged stack pointer sits across words 0 and 1.
    assert_eq!(it.tss.len(), 13);
    assert_eq!(it.tss[0], (stack_top & 0xffffffff) << 32);
    assert_eq!(it.tss[1], stack_top >> 32);

    // IDT: 256 gates; double fault, page fault, and the user-callable
    // syscall vector are installed, everything else empty.
    assert_eq!(it.idt.len(), 256);
    let df = IDTDescriptor::new(0, ISTType::KernelModeIntGate, 0x08, 0x1000);
    let pf = IDTDescriptor::new(0, ISTType::KernelModeIntGate, 0x08, 0x2000);
    let sc = IDTDescriptor::new(0, ISTType::UserModeIntGate, 0x08, 0x3000);
    assert_eq!(it.idt[0x8], df.to_u128());
    assert_eq!(it.idt[0xe], pf.to_u128());
    assert_eq!(it.idt[0x80], sc.to_u128());
    for i in 0..256 {
        if i != 0x8 && i != 0xe && i != 0x80 {
            assert_eq!(it.idt[i], 0, "gate {} should be empty", i);
        }
    }
}
