//! Descriptor tables: segment descriptors (GDT), interrupt gate descriptors
//! (IDT) and the task-state segment (TSS), built as explicit fixed-layout
//! word values exactly as the architecture mandates them.
//!
//! Loading these tables into the hardware registers (`lgdt`, `ltr`, `lidt`)
//! and the register-save trampolines around handlers are privileged-
//! instruction territory outside this crate; here the tables' contents are
//! computed and proved bit-exact.

use vstd::prelude::*;

use crate::mm::{span_set, PhysMem};

verus! {

/// The hardware-pushed interrupt frame: instruction pointer, code segment,
/// flags, stack pointer and stack segment, in push order.
#[derive(Debug, Clone, Copy, PartialEq, Eq, Structural)]
pub struct InterruptFrame {
    pub rip: u64,
    pub cs: u64,
    pub rflags: u64,
    pub sp: u64,
    pub ss: u64,
}

/// The general-purpose registers a trampoline saves before calling a typed
/// handler and restores afterwards.
#[derive(Debug, Clone, Copy, PartialEq, Eq, Structural)]
pub struct Registers {
    pub rax: u64,
    pub rbx: u64,
    pub rcx: u64,
    pub rdx: u64,
    pub rbp: u64,
    pub rsi: u64,
    pub rdi: u64,
    pub r8: u64,
    pub r9: u64,
    pub r10: u64,
    pub r11: u64,
    pub r12: u64,
    pub r13: u64,
    pub r14: u64,
    pub r15: u64,
}

/// All general-purpose registers zero.
pub open spec fn zero_registers() -> Registers {
    Registers {
        rax: 0,
        rbx: 0,
        rcx: 0,
        rdx: 0,
        rbp: 0,
        rsi: 0,
        rdi: 0,
        r8: 0,
        r9: 0,
        r10: 0,
        r11: 0,
        r12: 0,
        r13: 0,
        r14: 0,
        r15: 0,
    }
}

impl Default for Registers {
    /// All registers zero.
    fn default() -> (r: Registers)
        ensures
            r == zero_registers(),
            r == (Registers {
                rax: 0,
                rbx: 0,
                rcx: 0,
                rdx: 0,
                rbp: 0,
                rsi: 0,
                rdi: 0,
                r8: 0,
                r9: 0,
                r10: 0,
                r11: 0,
                r12: 0,
                r13: 0,
                r14: 0,
                r15: 0,
            }),
    {
        Registers {
            rax: 0,
            rbx: 0,
            rcx: 0,
            rdx: 0,
            rbp: 0,
            rsi: 0,
            rdi: 0,
            r8: 0,
            r9: 0,
            r10: 0,
            r11: 0,
            r12: 0,
            r13: 0,
            r14: 0,
            r15: 0,
        }
    }
}

/// Gate-type byte of an interrupt descriptor: interrupt-stack-table usage and
/// the lowest privilege ring allowed to invoke the vector directly.
#[derive(Clone, Copy, Debug, PartialEq, Eq, Structural)]
pub enum ISTType {
    NoIst,
    KernelModeIntGate,
    Ring1IntGate,
    Ring2ModeIntGate,
    UserModeIntGate,
}

/// The architecture's encoding of each gate type.
pub open spec fn ist_type_bits(t: ISTType) -> u8 {
    match t {
        ISTType::NoIst => 0x0e,
        ISTType::KernelModeIntGate => 0x8e,
        ISTType::Ring1IntGate => 0xae,
        ISTType::Ring2ModeIntGate => 0xce,
        ISTType::UserModeIntGate => 0xee,
    }
}

impl ISTType {
    /// The architecture's byte for this gate type.
    pub fn bits(self) -> (r: u8)
        ensures
            r == ist_type_bits(self),
    {
        match self {
            ISTType::NoIst => 0x0e,
            ISTType::KernelModeIntGate => 0x8e,
            ISTType::Ring1IntGate => 0xae,
            ISTType::Ring2ModeIntGate => 0xce,
            ISTType::UserModeIntGate => 0xee,
        }
    }
}

/// One interrupt gate descriptor, field by field, in the architecture's
/// 16-byte layout order.
#[derive(Clone, Copy, Debug, PartialEq, Eq, Structural)]
pub struct IDTDescriptor {
    pub base_low: u16,
    pub code_selector: u16,
    pub ist: u8,
    pub type_attributes: u8,
    pub base_mid: u16,
    pub base_high: u32,
    pub reserved: u32,
}

/// The 16 descriptor bytes as one little-endian 128-bit value: handler
/// address slices at bits 0-15, 48-63 and 64-95, selector at 16-31, IST byte
/// at 32-39, gate type at 40-47.
pub open spec fn idt_descriptor_bits(d: IDTDescriptor) -> u128 {
    d.base_low as u128 | (d.code_selector as u128) << 16 | (d.ist as u128) << 32 | (
    d.type_attributes as u128) << 40 | (d.base_mid as u128) << 48 | (d.base_high as u128) << 64 | (
    d.reserved as u128) << 96
}

/// The handler address a descriptor's three base slices reassemble to.
pub open spec fn idt_descriptor_handler(d: IDTDescriptor) -> u64 {
    d.base_low as u64 | (d.base_mid as u64) << 16 | (d.base_high as u64) << 32
}

impl IDTDescriptor {
    /// Builds one interrupt descriptor from its parts.
    pub fn new(ist: u8, typ: ISTType, gdt_selector: u16, handler: u64) -> (r: IDTDescriptor)
        ensures
            r.base_low == handler as u16,
            r.base_mid == (handler >> 16) as u16,
            r.base_high == (handler >> 32) as u32,
            r.code_selector == gdt_selector,
            r.ist == ist,
            r.type_attributes == ist_type_bits(typ),
            r.reserved == 0,
            idt_descriptor_handler(r) == handler,
    {
        let r = IDTDescriptor {
            code_selector: gdt_selector,
            base_low: handler as u16,
            base_mid: (handler >> 16) as u16,
            base_high: (handler >> 32) as u32,
            ist,
            type_attributes: typ.bits(),
            reserved: 0,
        };
        proof {
            assert((handler as u16) as u64 | (((handler >> 16) as u16) as u64) << 16 | (((handler
                >> 32) as u32) as u64) << 32 == handler) by (bit_vector);
        }
        r
    }

    /// The descriptor packed into the 128-bit value the hardware reads.
    pub fn to_u128(self) -> (r: u128)
        ensures
            r == idt_descriptor_bits(self),
    {
        self.base_low as u128 | (self.code_selector as u128) << 16 | (self.ist as u128) << 32 | (
        self.type_attributes as u128) << 40 | (self.base_mid as u128) << 48 | (
        self.base_high as u128) << 64 | (self.reserved as u128) << 96
    }
}

/// The task-state segment: the fields the hardware reads. `rsp[0]` is the
/// known-good kernel stack pointer used when an interrupt arrives from user
/// mode.
#[derive(Clone, Copy, Debug, PartialEq, Eq)]
pub struct Tss {
    pub rsp: [u64; 3],
    pub ist: [u64; 7],
    pub iopb_offset: u16,
}

impl Default for Tss {
    /// All stack pointers and the I/O-permission-bitmap offset zero.
    fn default() -> (r: Tss)
        ensures
            r == (Tss { rsp: [0u64, 0u64, 0u64], ist: [0u64, 0u64, 0u64, 0u64, 0u64, 0u64, 0u64], iopb_offset: 0 }),
    {
        Tss { rsp: [0, 0, 0], ist: [0, 0, 0, 0, 0, 0, 0], iopb_offset: 0 }
    }
}

/// The thirteen 64-bit words of the 104-byte TSS in its packed hardware
/// layout: a 32-bit reserved field, then `rsp`, a reserved word, `ist`,
/// ten reserved bytes and the 16-bit I/O-bitmap offset, so the 64-bit fields
/// straddle word boundaries at a 32-bit offset.
pub open spec fn tss_words(t: Tss) -> Seq<u64> {
    seq![
        (t.rsp[0] & 0xffffffff) << 32,
        (t.rsp[0] >> 32) | ((t.rsp[1] & 0xffffffff) << 32),
        (t.rsp[1] >> 32) | ((t.rsp[2] & 0xffffffff) << 32),
        t.rsp[2] >> 32,
        (t.ist[0] & 0xffffffff) << 32,
        (t.ist[0] >> 32) | ((t.ist[1] & 0xffffffff) << 32),
        (t.ist[1] >> 32) | ((t.ist[2] & 0xffffffff) << 32),
        (t.ist[2] >> 32) | ((t.ist[3] & 0xffffffff) << 32),
        (t.ist[3] >> 32) | ((t.ist[4] & 0xffffffff) << 32),
        (t.ist[4] >> 32) | ((t.ist[5] & 0xffffffff) << 32),
        (t.ist[5] >> 32) | ((t.ist[6] & 0xffffffff) << 32),
        t.ist[6] >> 32,
        (t.iopb_offset as u64) << 48,
    ]
}

impl Tss {
    /// The TSS as the thirteen words written into its hardware frame.
    pub fn into_slice(self) -> (r: [u64; 13])
        ensures
            r@ == tss_words(self),
    {
        let r = [
            (self.rsp[0] & 0xffffffff) << 32,
            (self.rsp[0] >> 32) | ((self.rsp[1] & 0xffffffff) << 32),
            (self.rsp[1] >> 32) | ((self.rsp[2] & 0xffffffff) << 32),
            self.rsp[2] >> 32,
            (self.ist[0] & 0xffffffff) << 32,
            (self.ist[0] >> 32) | ((self.ist[1] & 0xffffffff) << 32),
            (self.ist[1] >> 32) | ((self.ist[2] & 0xffffffff) << 32),
            (self.ist[2] >> 32) | ((self.ist[3] & 0xffffffff) << 32),
            (self.ist[3] >> 32) | ((self.ist[4] & 0xffffffff) << 32),
            (self.ist[4] >> 32) | ((self.ist[5] & 0xffffffff) << 32),
            (self.ist[5] >> 32) | ((self.ist[6] & 0xffffffff) << 32),
            self.ist[6] >> 32,
            (self.iopb_offset as u64) << 48,
        ];
        proof {
            assert(r@ =~= tss_words(self));
        }
        r
    }
}

/// Low word of the 16-byte GDT system descriptor for a TSS at `base`: type
/// bits 0x89, base address slices, and the segment limit 103 (the TSS's 104
/// bytes minus one).
pub open spec fn spec_tss_low(base: u64) -> u64 {
    0x890000000000u64 | (((base >> 24) & 0xff) << 56) | ((base & 0xffffff) << 16) | 103
}

/// Per-processor descriptor-table state: the global descriptor table, the
/// task-state segment words, the 256-entry interrupt descriptor table, and
/// the physical frames they live in.
pub struct Interrupts {
    pub gdt: Vec<u64>,
    pub tss: Vec<u64>,
    pub idt: Vec<u128>,
    pub gdt_base: crate::mm::PhysAddr,
    pub tss_base: crate::mm::PhysAddr,
    pub idt_base: crate::mm::PhysAddr,
}

impl Interrupts {
    /// Builds the descriptor tables: a GDT with null, kernel code/data, user
    /// code/data and a TSS descriptor; a TSS whose first privileged stack
    /// pointer is `stack_top`; and an IDT with the double-fault and
    /// page-fault vectors as kernel-only gates and the software syscall
    /// vector callable from ring 3. The handler arguments are the raw
    /// trampoline entry addresses. Loading the tables into the hardware
    /// registers is the caller's privileged step.
    pub fn init<M: PhysMem>(
        allocator: &mut M,
        stack_top: u64,
        double_fault_handler: u64,
        page_fault_handler: u64,
        syscall_handler: u64,
    ) -> (r: Option<Interrupts>)
        requires
            old(allocator).inv(),
        ensures
            final(allocator).inv(),
            match r {
                Some(it) => {
                    &&& it.tss_base.0 % 4096 == 0 && it.gdt_base.0 % 4096 == 0 && it.idt_base.0
                        % 4096 == 0
                    &&& span_set(it.tss_base.0 as int, 4096).disjoint(old(allocator).allocated())
                    &&& span_set(it.gdt_base.0 as int, 4096).disjoint(
                        old(allocator).allocated() + span_set(it.tss_base.0 as int, 4096),
                    )
                    &&& span_set(it.idt_base.0 as int, 4096).disjoint(
                        old(allocator).allocated() + span_set(it.tss_base.0 as int, 4096)
                            + span_set(it.gdt_base.0 as int, 4096),
                    )
                    &&& final(allocator).allocated() == old(allocator).allocated() + span_set(
                        it.tss_base.0 as int,
                        4096,
                    ) + span_set(it.gdt_base.0 as int, 4096) + span_set(it.idt_base.0 as int, 4096)
                    &&& it.gdt@.len() == 7
                    &&& it.gdt@[0] == 0
                    &&& it.gdt@[1] == 0x00209a0000000000u64
                    &&& it.gdt@[2] == 0x0000920000000000u64
                    &&& it.gdt@[3] == 0x0020fb0000000000u64
                    &&& it.gdt@[4] == 0x0000f30000000000u64
                    &&& it.gdt@[5] == spec_tss_low(it.tss_base.0 as u64)
                    &&& it.gdt@[6] == (it.tss_base.0 as u64) >> 32
                    &&& it.tss@ == tss_words(
                        Tss {
                            rsp: [stack_top, 0u64, 0u64],
                            ist: [0u64, 0u64, 0u64, 0u64, 0u64, 0u64, 0u64],
                            iopb_offset: 0,
                        },
                    )
                    &&& it.idt@.len() == 256
                    &&& it.idt@[0x8] == idt_descriptor_bits(
                        IDTDescriptor {
                            base_low: double_fault_handler as u16,
                            code_selector: 0x08,
                            ist: 0,
                            type_attributes: 0x8e,
                            base_mid: (double_fault_handler >> 16) as u16,
                            base_high: (double_fault_handler >> 32) as u32,
                            reserved: 0,
                        },
                    )
                    &&& it.idt@[0xe] == idt_descriptor_bits(
                        IDTDescriptor {
                            base_low: page_fault_handler as u16,
                            code_selector: 0x08,
                            ist: 0,
                            type_attributes: 0x8e,
                            base_mid: (page_fault_handler >> 16) as u16,
                            base_high: (page_fault_handler >> 32) as u32,
                            reserved: 0,
                        },
                    )
                    &&& it.idt@[0x80] == idt_descriptor_bits(
                        IDTDescriptor {
                            base_low: syscall_handler as u16,
                            code_selector: 0x08,
                            ist: 0,
                            type_attributes: 0xee,
                            base_mid: (syscall_handler >> 16) as u16,
                            base_high: (syscall_handler >> 32) as u32,
                            reserved: 0,
                        },
                    )
                    &&& forall|i: int|
                        0 <= i < 256 && i != 0x8 && i != 0xe && i != 0x80 ==> it.idt@[i] == 0
                },
                None => true,
            },
    {
        let tss_page = match allocator.alloc_phys_zeroed(4096, 4096) {
            None => {
                return None;
            },
            Some(p) => p,
        };
        let t = Tss { rsp: [stack_top, 0, 0], ist: [0, 0, 0, 0, 0, 0, 0], iopb_offset: 0 };
        let words = t.into_slice();
        let mut tss: Vec<u64> = Vec::new();
        let mut i: usize = 0;
        while i < 13
            invariant
                i <= 13,
                words@ == tss_words(t),
                tss@ == words@.subrange(0, i as int),
            decreases 13 - i,
        {
            let w = words[i];
            tss.push(w);
            proof {
                assert(tss@ =~= words@.subrange(0, i as int + 1));
            }
            i += 1;
        }
        proof {
            assert(tss@ =~= tss_words(t));
        }

        let gdt_page = match allocator.alloc_phys_zeroed(4096, 4096) {
            None => {
                return None;
            },
            Some(p) => p,
        };
        let tss_base = tss_page.0 as u64;
        let tss_low = 0x890000000000u64 | (((tss_base >> 24) & 0xff) << 56) | ((tss_base
            & 0xffffff) << 16) | 103;
        let tss_high = tss_base >> 32;
        let mut gdt: Vec<u64> = Vec::new();
        gdt.push(0);
        gdt.push(0x00209a0000000000); // 0x08 kernel code
        gdt.push(0x0000920000000000); // 0x10 kernel data
        gdt.push(0x0020fb0000000000); // 0x18 user code
        gdt.push(0x0000f30000000000); // 0x20 user data
        gdt.push(tss_low);
        gdt.push(tss_high);

        let idt_page = match allocator.alloc_phys_zeroed(4096, 4096) {
            None => {
                return None;
            },
            Some(p) => p,
        };
        let mut idt: Vec<u128> = Vec::new();
        let mut k: usize = 0;
        while k < 256
            invariant
                k <= 256,
                idt@.len() == k,
                forall|j: int| 0 <= j < k ==> idt@[j] == 0,
            decreases 256 - k,
        {
            idt.push(0);
            k += 1;
        }
        let df = IDTDescriptor::new(0, ISTType::KernelModeIntGate, 0x08, double_fault_handler);
        idt.set(0x8, df.to_u128());
        let pf = IDTDescriptor::new(0, ISTType::KernelModeIntGate, 0x08, page_fault_handler);
        idt.set(0xe, pf.to_u128());
        let sc = IDTDescriptor::new(0, ISTType::UserModeIntGate, 0x08, syscall_handler);
        idt.set(0x80, sc.to_u128());

        Some(
            Interrupts {
                gdt,
                tss,
                idt,
                gdt_base: gdt_page,
                tss_base: tss_page,
                idt_base: idt_page,
            },
        )
    }
}

} // verus!
