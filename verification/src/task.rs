//! Tasks: one saved execution context plus one private page table each.
//!
//! A task is created with a freshly mapped user stack at a fixed virtual
//! address, and loading a program maps a fresh user-accessible frame for
//! every page of every loadable (PROGBITS) section and records the image's
//! entry point. Copying the section bytes into those frames goes through the
//! kernel's own mapping of the same physical memory — a raw-memory step the
//! caller performs after this bookkeeping, which owns no byte contents.

use vstd::prelude::*;

use crate::interrupts::{zero_registers, Registers};
use crate::mm::{span_set, PhysMem, VirtAddr};
use crate::paging::{
    fresh_frames_span, lemma_fresh_span_compose, PageTable, PageType, PAGE_NX, PAGE_USER,
};

verus! {

/// Fixed virtual address of a task's user stack page.
pub const STACK_BASE: u64 = 0xcafebabe00000000;

/// A task's saved execution state: general-purpose registers, instruction
/// pointer and stack pointer.
#[derive(Debug, Clone, Copy, PartialEq, Eq, Structural)]
pub struct Context {
    pub regs: Registers,
    pub rip: u64,
    pub rsp: u64,
}

impl Default for Context {
    /// All registers and pointers zero.
    fn default() -> (r: Context)
        ensures
            r == (Context { regs: zero_registers(), rip: 0, rsp: 0 }),
    {
        Context { regs: Registers::default(), rip: 0, rsp: 0 }
    }
}

/// One page's worth of program bytes to copy into a freshly mapped frame:
/// which frame, which virtual page it backs, and which bytes of the image.
/// The bounds are proved, so the copy needs no further checks.
#[derive(Debug, Clone, Copy, PartialEq, Eq, Structural)]
pub struct LoadSegment {
    pub phys: u64,
    pub vaddr: u64,
    pub offset: u64,
    pub len: u64,
}

/// Page `p` exists in a section described by (virtual address, file offset,
/// byte size): the page starts before the section's bytes end.
pub open spec fn section_page(sec: (u64, u64, u64), p: int) -> bool {
    0 <= p && 4096 * p < sec.2
}

/// Copy operation `c` carries page `p` of section `sec`: the page's virtual
/// address, the image bytes that land in it (a whole page, or the section's
/// tail), and a page-aligned frame.
pub open spec fn copy_matches(c: LoadSegment, sec: (u64, u64, u64), p: int) -> bool {
    &&& c.vaddr == sec.0 + 4096 * p
    &&& c.offset == sec.1 + 4096 * p
    &&& c.len as int == (if sec.2 - 4096 * p > 4096 {
        4096int
    } else {
        sec.2 - 4096 * p
    })
    &&& c.phys % 4096 == 0
}

/// Copy `c` carries some page of some PROGBITS section of the image.
pub open spec fn copy_in_image(c: LoadSegment, secs: Seq<(u64, u64, u64)>) -> bool {
    exists|sj: int, p: int|
        0 <= sj < secs.len() && section_page(secs[sj], p) && #[trigger] copy_matches(
            c,
            secs[sj],
            p,
        )
}

/// Some copy of the list carries page `p` of section `sec`.
pub open spec fn some_copy_carries(cs: Seq<LoadSegment>, sec: (u64, u64, u64), p: int) -> bool {
    exists|k: int| 0 <= k < cs.len() && #[trigger] copy_matches(cs[k], sec, p)
}

/// Every copy operation carries some page of some PROGBITS section.
pub open spec fn copies_from_sections(cs: Seq<LoadSegment>, secs: Seq<(u64, u64, u64)>) -> bool {
    forall|k: int| #![trigger cs[k]] 0 <= k < cs.len() ==> copy_in_image(cs[k], secs)
}

/// Every non-empty page of every PROGBITS section has its copy operation.
pub open spec fn sections_covered(cs: Seq<LoadSegment>, secs: Seq<(u64, u64, u64)>) -> bool {
    forall|sj: int, p: int|
        #![trigger section_page(secs[sj], p)]
        0 <= sj < secs.len() && section_page(secs[sj], p) ==> some_copy_carries(cs, secs[sj], p)
}

/// A copy list extended by one still carries everything it carried.
proof fn lemma_carries_push(cs0: Seq<LoadSegment>, seg: LoadSegment, sec: (u64, u64, u64), p: int)
    requires
        some_copy_carries(cs0, sec, p),
    ensures
        some_copy_carries(cs0.push(seg), sec, p),
{
    let k = choose|k: int| 0 <= k < cs0.len() && #[trigger] copy_matches(cs0[k], sec, p);
    assert(cs0.push(seg)[k] == cs0[k]);
    assert(copy_matches(cs0.push(seg)[k], sec, p));
}

/// The bytes of the data frames the copy list names.
pub open spec fn copies_span(cs: Seq<LoadSegment>) -> Set<int> {
    Set::new(
        |a: int|
            exists|k: int|
                #![trigger cs[k]]
                0 <= k < cs.len() && span_set((cs[k]).phys as int, 4096).contains(a),
    )
}

/// One more copy, one more frame's bytes.
proof fn lemma_copies_span_push(cs0: Seq<LoadSegment>, seg: LoadSegment)
    ensures
        copies_span(cs0.push(seg)) =~= copies_span(cs0) + span_set(seg.phys as int, 4096),
{
    let cs = cs0.push(seg);
    assert forall|a: int|
        copies_span(cs).contains(a) <==> (copies_span(cs0) + span_set(
            seg.phys as int,
            4096,
        )).contains(a) by {
        if copies_span(cs).contains(a) {
            let k = choose|k: int|
                #![trigger cs[k]]
                0 <= k < cs.len() && span_set((cs[k]).phys as int, 4096).contains(a);
            if k < cs0.len() {
                assert(cs0[k] == cs[k]);
                assert(copies_span(cs0).contains(a));
            } else {
                assert(cs[k] == seg);
            }
        }
        if copies_span(cs0).contains(a) {
            let k = choose|k: int|
                #![trigger cs0[k]]
                0 <= k < cs0.len() && span_set((cs0[k]).phys as int, 4096).contains(a);
            assert(cs[k] == cs0[k]);
            assert(copies_span(cs).contains(a));
        }
        if span_set(seg.phys as int, 4096).contains(a) {
            assert(cs[cs0.len() as int] == seg);
            assert(copies_span(cs).contains(a));
        }
    }
}

/// Appending a copy that carries a page of some section keeps every copy
/// accounted for.
proof fn lemma_copies_push(
    cs0: Seq<LoadSegment>,
    seg: LoadSegment,
    secs: Seq<(u64, u64, u64)>,
    sj: int,
    p: int,
)
    requires
        copies_from_sections(cs0, secs),
        0 <= sj < secs.len(),
        section_page(secs[sj], p),
        copy_matches(seg, secs[sj], p),
    ensures
        copies_from_sections(cs0.push(seg), secs),
{
    let cs = cs0.push(seg);
    assert forall|k: int| #![trigger cs[k]] 0 <= k < cs.len() implies copy_in_image(
        cs[k],
        secs,
    ) by {
        if k < cs0.len() {
            assert(cs[k] == cs0[k]);
            assert(copy_in_image(cs0[k], secs));
        } else {
            assert(cs[k] == seg);
            assert(copy_matches(cs[k], secs[sj], p));
        }
    }
}

/// One task: its saved context and its private page table.
pub struct Task {
    context: Context,
    page_table: PageTable,
}

/// Little-endian 16-bit value at byte offset `i`.
pub open spec fn u16_le(b: Seq<u8>, i: int) -> int {
    b[i] + 0x100 * b[i + 1]
}

/// Little-endian 32-bit value at byte offset `i`.
pub open spec fn u32_le(b: Seq<u8>, i: int) -> int {
    u16_le(b, i) + 0x10000 * u16_le(b, i + 2)
}

/// Little-endian 64-bit value at byte offset `i`.
pub open spec fn u64_le(b: Seq<u8>, i: int) -> int {
    u32_le(b, i) + 0x100000000 * u32_le(b, i + 4)
}

/// Whether the ELF parser accepts these bytes: the 16 identification bytes
/// with their magic, a 32- or 64-bit class byte, and a file long enough for
/// that class's whole header.
pub open spec fn elf_parsed(b: Seq<u8>) -> bool {
    &&& b.len() >= 16
    &&& b[0] == 0x7f && b[1] == 0x45 && b[2] == 0x4c && b[3] == 0x46
    &&& (b[4] == 1 || b[4] == 2)
    &&& (b[4] == 1 ==> b.len() >= 52)
    &&& (b[4] == 2 ==> b.len() >= 64)
}

/// The program entry address the ELF header carries: a little-endian 64-bit
/// (or, for 32-bit files, 32-bit) value at byte offset 24.
pub open spec fn elf_entry(b: Seq<u8>) -> u64 {
    if b[4] == 2 {
        u64_le(b, 24) as u64
    } else {
        u32_le(b, 24) as u64
    }
}

/// The loadable (PROGBITS) sections of these bytes, in file order: each
/// section's virtual address, file offset and byte size.
pub uninterp spec fn elf_progbits(b: Seq<u8>) -> Seq<(u64, u64, u64)>;

/// The byte layout cannot drive the section-header reads of the parser out
/// of range: when the file magic is present, the section-header count stays
/// below the reserved index range, the section-header offset leaves room for
/// the index arithmetic, each header entry is full-sized, and offset and
/// entry size keep the headers aligned within the buffer.
pub open spec fn elf_parse_safe(b: Seq<u8>) -> bool {
    (b.len() >= 4 && b[0] == 0x7f && b[1] == 0x45 && b[2] == 0x4c && b[3] == 0x46) ==> {
        &&& (b[4] == 2 && b.len() >= 0x40) ==> {
            &&& u16_le(b, 60) < 0xff00
            &&& b[46] < 2 && b[47] == 0
            &&& b[40] % 8 == 0
            &&& u16_le(b, 58) >= 64 && u16_le(b, 58) % 8 == 0
        }
        &&& (b[4] == 1 && b.len() >= 52) ==> {
            &&& u16_le(b, 48) < 0xff00
            &&& b[32] % 4 == 0
            &&& u16_le(b, 46) >= 40 && u16_le(b, 46) % 4 == 0
        }
    }
}

/// Decides `elf_parse_safe` for given bytes, so an unverified caller can
/// test the precondition of `load_elf` before handing an arbitrary image in.
pub fn elf_parse_safe_check(b: &Vec<u8>) -> (r: bool)
    ensures
        r == elf_parse_safe(b@),
{
    if b.len() < 4 {
        return true;
    }
    if !(b[0] == 0x7f && b[1] == 0x45 && b[2] == 0x4c && b[3] == 0x46) {
        return true;
    }
    let mut ok = true;
    if b.len() >= 0x40 && b[4] == 2 {
        let shnum: u32 = b[60] as u32 + 0x100 * (b[61] as u32);
        let shent: u32 = b[58] as u32 + 0x100 * (b[59] as u32);
        ok = shnum < 0xff00 && b[46] < 2 && b[47] == 0 && b[40] % 8 == 0 && shent >= 64 && shent
            % 8 == 0;
    }
    if b.len() >= 52 && b[4] == 1 {
        let shnum: u32 = b[48] as u32 + 0x100 * (b[49] as u32);
        let shent: u32 = b[46] as u32 + 0x100 * (b[47] as u32);
        if !(shnum < 0xff00 && b[32] % 4 == 0 && shent >= 40 && shent % 4 == 0) {
            ok = false;
        }
    }
    ok
}

/// Relies on xmas_elf: `ElfFile::new` validates the header and
/// `section_iter` walks the section headers, whose type, address, offset and
/// size accessors read the PROGBITS layout; all of it a pure function of the
/// bytes. The parser reads its headers in place and asserts their
/// alignment, so the body first re-homes the image at an eight-byte-aligned
/// spot of a fresh buffer; the safety predicate's offset conditions then
/// keep every in-place read aligned.
#[verifier::external_body]
fn elf_progbits_layout(elf: &Vec<u8>) -> (r: Option<(u64, Vec<(u64, u64, u64)>)>)
    requires
        elf_parse_safe(elf@),
    ensures
        r is Some <==> elf_parsed(elf@),
        r is Some ==> r->Some_0.0 == elf_entry(elf@) && r->Some_0.1@ == elf_progbits(elf@),
{
    let mut buf: Vec<u8> = vec![0u8; elf.len() + 8];
    let at = (8 - (buf.as_ptr() as usize % 8)) % 8;
    buf[at..at + elf.len()].copy_from_slice(elf);
    let f = match xmas_elf::ElfFile::new(&buf[at..at + elf.len()]) {
        Ok(f) => f,
        Err(_) => return None,
    };
    let mut secs: Vec<(u64, u64, u64)> = Vec::new();
    for s in f.section_iter() {
        match s.get_type() {
            Ok(xmas_elf::sections::ShType::ProgBits) => secs.push((s.address(), s.offset(), s.size())),
            _ => {},
        }
    }
    Some((f.header.pt2.entry_point(), secs))
}

impl Task {
    /// The task's saved context.
    pub closed spec fn spec_context(&self) -> Context {
        self.context
    }

    /// The task's private page table.
    pub closed spec fn spec_page_table(&self) -> &PageTable {
        &self.page_table
    }

    /// Reads the saved context.
    pub fn context(&self) -> (r: &Context)
        ensures
            r == self.spec_context(),
    {
        &self.context
    }

    /// The task's private page table, for activating its address space.
    pub fn page_table(&self) -> (r: &PageTable)
        ensures
            r == self.spec_page_table(),
    {
        &self.page_table
    }

    /// Overwrites the saved context; every preemption stores the interrupted
    /// state here.
    pub fn save_context(&mut self, ctx: Context)
        ensures
            final(self).spec_context() == ctx,
            final(self).spec_page_table() == old(self).spec_page_table(),
    {
        self.context = ctx;
    }

    /// Creates a task owning `page_table`, with one freshly allocated page
    /// mapped at the fixed stack address (user-accessible, writable,
    /// non-executable) and the stack pointer at the top of that page.
    pub fn new<M: PhysMem>(allocator: &mut M, page_table: PageTable) -> (r: Option<Task>)
        requires
            old(allocator).inv(),
            page_table.wf(),
            page_table.owned_by(old(allocator).allocated()),
        ensures
            final(allocator).inv(),
            match r {
                Some(t) => {
                    &&& t.spec_page_table().wf()
                    &&& t.spec_page_table().owned_by(final(allocator).allocated())
                    &&& t.spec_page_table().spec_root() == page_table.spec_root()
                    &&& t.spec_context().rsp == STACK_BASE + 4096
                    &&& t.spec_context().rip == 0
                    &&& t.spec_context().regs == zero_registers()
                    &&& exists|p: u64|
                        #[trigger] t.spec_page_table().leaf_at(STACK_BASE, PageType::Page4K)
                            == Some(p | PAGE_NX | PAGE_USER | 3) && p % 4096 == 0 && span_set(
                            p as int,
                            4096,
                        ).disjoint(old(allocator).allocated()) && span_set(
                            p as int,
                            4096,
                        ).subset_of(final(allocator).allocated())
                },
                None => true,
            },
    {
        let mut page_table = page_table;
        let stack_phys = match allocator.alloc_phys_zeroed(4096, 4096) {
            None => {
                return None;
            },
            Some(p) => p,
        };
        let entry = (stack_phys.0 as u64) | PAGE_NX | PAGE_USER | 3;
        match page_table.map_raw(
            allocator,
            VirtAddr(STACK_BASE),
            PageType::Page4K,
            entry,
            true,
            true,
            true,
        ) {
            None => None,
            Some(_) => {
                let t = Task {
                    context: Context { rsp: STACK_BASE + 4096, ..Context::default() },
                    page_table,
                };
                proof {
                    let p = stack_phys.0 as u64;
                    assert forall|a: int|
                        span_set(p as int, 4096).contains(a) implies allocator.allocated().contains(
                        a,
                    ) by {}
                    assert(t.spec_page_table().leaf_at(STACK_BASE, PageType::Page4K) == Some(
                        p | PAGE_NX | PAGE_USER | 3,
                    ) && p % 4096 == 0 && span_set(p as int, 4096).disjoint(
                        old(allocator).allocated(),
                    ) && span_set(p as int, 4096).subset_of(allocator.allocated()));
                }
                Some(t)
            },
        }
    }

    /// Loads a program image: records the ELF entry point as the task's
    /// instruction pointer, maps a fresh zeroed user-accessible frame for
    /// every whole page of every PROGBITS section, and returns the byte
    /// copies the caller must perform through the kernel's own mapping of
    /// those frames (each within the image and at most one page long). Fails
    /// on bytes the parser rejects, on a section lying outside the image, or
    /// when memory or table capacity runs out.
    #[verifier::rlimit(100)]
    pub fn load_elf<M: PhysMem>(&mut self, allocator: &mut M, elf: &Vec<u8>) -> (r: Option<
        Vec<LoadSegment>,
    >)
        requires
            old(allocator).inv(),
            old(self).spec_page_table().wf(),
            old(self).spec_page_table().owned_by(old(allocator).allocated()),
            elf_parse_safe(elf@),
        ensures
            final(allocator).inv(),
            final(self).spec_page_table().wf(),
            final(self).spec_page_table().owned_by(final(allocator).allocated()),
            r is Some ==> elf_parsed(elf@) && final(self).spec_context().rip == elf_entry(elf@),
            r is Some ==> forall|i: int|
                0 <= i < r->Some_0@.len() ==> (#[trigger] r->Some_0@[i]).offset + r->Some_0@[i].len
                    <= elf@.len() && r->Some_0@[i].len <= 4096,
            r is Some ==> forall|sj: int|
                0 <= sj < elf_progbits(elf@).len() ==> (#[trigger] elf_progbits(elf@)[sj]).1
                    + elf_progbits(elf@)[sj].2 <= elf@.len(),
            r is Some ==> forall|k: int|
                0 <= k < r->Some_0@.len() ==> span_set(
                    (#[trigger] r->Some_0@[k]).phys as int,
                    4096,
                ).disjoint(old(allocator).allocated()) && span_set(
                    r->Some_0@[k].phys as int,
                    4096,
                ).subset_of(final(allocator).allocated()),
            r is Some ==> forall|k1: int, k2: int|
                0 <= k1 < k2 < r->Some_0@.len() ==> span_set(
                    (#[trigger] r->Some_0@[k1]).phys as int,
                    4096,
                ).disjoint(span_set((#[trigger] r->Some_0@[k2]).phys as int, 4096)),
            r is Some ==> final(allocator).allocated() == old(allocator).allocated()
                + fresh_frames_span(
                old(self).spec_page_table().mem_map(),
                final(self).spec_page_table().mem_map(),
            ) + copies_span(r->Some_0@),
            r is Some ==> copies_from_sections(r->Some_0@, elf_progbits(elf@)),
            r is Some ==> sections_covered(r->Some_0@, elf_progbits(elf@)),
            r is Some ==> forall|k: int|
                0 <= k < r->Some_0@.len() ==> final(self).spec_page_table().leaf_at(
                    (#[trigger] r->Some_0@[k]).vaddr,
                    PageType::Page4K,
                ) == Some(r->Some_0@[k].phys | PAGE_USER | 3),
            !elf_parsed(elf@) ==> r is None && *final(self) == *old(self) && *final(allocator)
                == *old(allocator),
    {
        let layout = match elf_progbits_layout(elf) {
            None => {
                return None;
            },
            Some(l) => l,
        };
        let (entry, secs) = layout;
        self.context.rip = entry;
        let mut copies: Vec<LoadSegment> = Vec::new();
        proof {
            assert(copies_from_sections(copies@, secs@));
            assert forall|a: int|
                !fresh_frames_span(
                    old(self).spec_page_table().mem_map(),
                    self.spec_page_table().mem_map(),
                ).contains(a) by {
                if fresh_frames_span(
                    old(self).spec_page_table().mem_map(),
                    self.spec_page_table().mem_map(),
                ).contains(a) {
                    let b = choose|b: u64|
                        #![trigger self.spec_page_table().mem_map().contains_key(b)]
                        self.spec_page_table().mem_map().contains_key(b) && !old(
                            self,
                        ).spec_page_table().mem_map().contains_key(b) && span_set(
                            b as int,
                            4096,
                        ).contains(a);
                }
            }
            assert forall|a: int| !copies_span(copies@).contains(a) by {
                if copies_span(copies@).contains(a) {
                    let k = choose|k: int|
                        #![trigger copies@[k]]
                        0 <= k < copies@.len() && span_set(
                            (copies@[k]).phys as int,
                            4096,
                        ).contains(a);
                }
            }
            assert(allocator.allocated() =~= old(allocator).allocated() + fresh_frames_span(
                old(self).spec_page_table().mem_map(),
                self.spec_page_table().mem_map(),
            ) + copies_span(copies@));
        }

        let n = secs.len();
        let mut si: usize = 0;
        while si < n
            invariant
                allocator.inv(),
                self.spec_page_table().wf(),
                self.spec_page_table().owned_by(allocator.allocated()),
                self.spec_context().rip == entry,
                elf_parsed(elf@),
                n == secs@.len(),
                secs@ == elf_progbits(elf@),
                si <= n,
                old(allocator).allocated().subset_of(allocator.allocated()),
                old(self).spec_page_table().mem_map().dom().subset_of(
                    self.spec_page_table().mem_map().dom(),
                ),
                allocator.allocated() == old(allocator).allocated() + fresh_frames_span(
                    old(self).spec_page_table().mem_map(),
                    self.spec_page_table().mem_map(),
                ) + copies_span(copies@),
                forall|sj: int|
                    0 <= sj < si ==> (#[trigger] secs@[sj]).1 + secs@[sj].2 <= elf@.len(),
                forall|i: int|
                    0 <= i < copies@.len() ==> (#[trigger] copies@[i]).offset + copies@[i].len
                        <= elf@.len() && copies@[i].len <= 4096,
                forall|k: int|
                    0 <= k < copies@.len() ==> span_set(
                        (#[trigger] copies@[k]).phys as int,
                        4096,
                    ).disjoint(old(allocator).allocated()) && span_set(
                        copies@[k].phys as int,
                        4096,
                    ).subset_of(allocator.allocated()),
                forall|k1: int, k2: int|
                    0 <= k1 < k2 < copies@.len() ==> span_set(
                        (#[trigger] copies@[k1]).phys as int,
                        4096,
                    ).disjoint(span_set((#[trigger] copies@[k2]).phys as int, 4096)),
                copies_from_sections(copies@, secs@),
                forall|sj: int, p: int|
                    #![trigger section_page(secs@[sj], p)]
                    0 <= sj < si && section_page(secs@[sj], p) ==> some_copy_carries(
                        copies@,
                        secs@[sj],
                        p,
                    ),
            decreases n - si,
        {
            let (base, offset, size) = secs[si];
            // The original slices the image at `offset..offset + size` on
            // faith; a section beyond the image is a malformed file.
            let sec_end = match offset.checked_add(size) {
                None => {
                    return None;
                },
                Some(e) => e,
            };
            if sec_end > elf.len() as u64 {
                return None;
            }
            let pages_bytes = match size.checked_add(4095) {
                None => {
                    return None;
                },
                Some(p) => p,
            };
            let pages = pages_bytes / 4096;
            proof {
                vstd::arithmetic::div_mod::lemma_fundamental_div_mod(pages_bytes as int, 4096);
            }
            let mut page: u64 = 0;
            while page < pages
                invariant
                    allocator.inv(),
                    self.spec_page_table().wf(),
                    self.spec_page_table().owned_by(allocator.allocated()),
                    self.spec_context().rip == entry,
                    elf_parsed(elf@),
                    n == secs@.len(),
                    secs@ == elf_progbits(elf@),
                    si < n,
                    (base, offset, size) == secs@[si as int],
                    sec_end == offset + size,
                    sec_end <= elf@.len(),
                    4096 * (pages as int) >= size,
                    4096 * (pages as int) <= size + 4095,
                    old(allocator).allocated().subset_of(allocator.allocated()),
                    old(self).spec_page_table().mem_map().dom().subset_of(
                        self.spec_page_table().mem_map().dom(),
                    ),
                    allocator.allocated() == old(allocator).allocated() + fresh_frames_span(
                        old(self).spec_page_table().mem_map(),
                        self.spec_page_table().mem_map(),
                    ) + copies_span(copies@),
                old(self).spec_page_table().mem_map().dom().subset_of(
                    self.spec_page_table().mem_map().dom(),
                ),
                allocator.allocated() == old(allocator).allocated() + fresh_frames_span(
                    old(self).spec_page_table().mem_map(),
                    self.spec_page_table().mem_map(),
                ) + copies_span(copies@),
                    forall|sj: int|
                        0 <= sj < si ==> (#[trigger] secs@[sj]).1 + secs@[sj].2 <= elf@.len(),
                    forall|i: int|
                        0 <= i < copies@.len() ==> (#[trigger] copies@[i]).offset + copies@[i].len
                            <= elf@.len() && copies@[i].len <= 4096,
                    forall|k: int|
                        0 <= k < copies@.len() ==> span_set(
                            (#[trigger] copies@[k]).phys as int,
                            4096,
                        ).disjoint(old(allocator).allocated()) && span_set(
                            copies@[k].phys as int,
                            4096,
                        ).subset_of(allocator.allocated()),
                    forall|k1: int, k2: int|
                        0 <= k1 < k2 < copies@.len() ==> span_set(
                            (#[trigger] copies@[k1]).phys as int,
                            4096,
                        ).disjoint(span_set((#[trigger] copies@[k2]).phys as int, 4096)),
                    copies_from_sections(copies@, secs@),
                    forall|sj: int, p: int|
                        #![trigger section_page(secs@[sj], p)]
                        0 <= sj < si && section_page(secs@[sj], p) ==> some_copy_carries(
                            copies@,
                            secs@[sj],
                            p,
                        ),
                    forall|p: int|
                        #![trigger section_page(secs@[si as int], p)]
                        0 <= p < page && section_page(secs@[si as int], p) ==> some_copy_carries(
                            copies@,
                            secs@[si as int],
                            p,
                        ),
                decreases pages - page,
            {
                let ghost alloc_before = allocator.allocated();
                let phys = match allocator.alloc_phys_zeroed(4096, 4096) {
                    None => {
                        return None;
                    },
                    Some(p) => p,
                };
                let off = match page.checked_mul(4096) {
                    None => {
                        return None;
                    },
                    Some(o) => o,
                };
                let vaddr = match base.checked_add(off) {
                    None => {
                        return None;
                    },
                    Some(v) => v,
                };
                proof {
                    // Every page index below the rounded-up count starts
                    // inside the section's bytes.
                    assert(4096 * (page as int) <= 4096 * (pages as int) - 4096) by (nonlinear_arith)
                        requires
                            page < pages,
                    ;
                    assert(off < size);
                }
                let raw = (phys.0 as u64) | PAGE_USER | 3;
                let ghost mb = self.spec_page_table().mem_map();
                match self.page_table.map_raw(
                    allocator,
                    VirtAddr(vaddr),
                    PageType::Page4K,
                    raw,
                    true,
                    true,
                    true,
                ) {
                    None => {
                        return None;
                    },
                    Some(_) => {},
                }
                let ghost ma = self.spec_page_table().mem_map();
                let ghost copies0 = copies@;
                if off < size {
                    let remaining = size - off;
                    let len = if remaining > 4096 {
                        4096
                    } else {
                        remaining
                    };
                    let seg = LoadSegment { phys: phys.0 as u64, vaddr, offset: offset + off, len };
                    copies.push(seg);
                    proof {
                        assert(copy_matches(seg, secs@[si as int], page as int));
                        assert(section_page(secs@[si as int], page as int));
                        assert(copies@ == copies0.push(seg));
                        lemma_copies_push(copies0, seg, secs@, si as int, page as int);
                        // The fresh data frame: disjoint from everything
                        // handed out before it, inside everything after.
                        let sp = span_set(seg.phys as int, 4096);
                        assert(sp.disjoint(alloc_before));
                        assert(sp.disjoint(old(allocator).allocated())) by {
                            assert forall|a: int|
                                sp.contains(a) implies !old(allocator).allocated().contains(
                                a,
                            ) by {}
                        }
                        assert(sp.subset_of(allocator.allocated())) by {
                            assert forall|a: int|
                                sp.contains(a) implies allocator.allocated().contains(a) by {}
                        }
                        assert forall|k1: int|
                            0 <= k1 < copies0.len() implies span_set(
                            (#[trigger] copies0[k1]).phys as int,
                            4096,
                        ).disjoint(sp) by {
                            assert(span_set(copies0[k1].phys as int, 4096).subset_of(
                                alloc_before,
                            ));
                        }
                        // Consumption accounting: the call grew the pool by
                        // this data frame plus the new table frames.
                        lemma_copies_span_push(copies0, seg);
                        lemma_fresh_span_compose(
                            old(self).spec_page_table().mem_map(),
                            mb,
                            ma,
                        );
                        assert(allocator.allocated() =~= old(allocator).allocated()
                            + fresh_frames_span(old(self).spec_page_table().mem_map(), ma)
                            + copies_span(copies@));
                    }
                }
                proof {
                    // Earlier pages keep their copies; this page gained its
                    // own when it holds any bytes.
                    let ghost segs_now = copies@;
                    assert forall|p: int|
                        0 <= p < page as int + 1 && #[trigger] section_page(
                            secs@[si as int],
                            p,
                        ) implies some_copy_carries(segs_now, secs@[si as int], p) by {
                        if p == page as int {
                            assert(4096 * p < size);
                            assert(copy_matches(
                                segs_now[segs_now.len() - 1],
                                secs@[si as int],
                                p,
                            ));
                        } else {
                            if copies0 != segs_now {
                                lemma_carries_push(
                                    copies0,
                                    segs_now.last(),
                                    secs@[si as int],
                                    p,
                                );
                                assert(copies0.push(segs_now.last()) == segs_now);
                            }
                        }
                    }
                    assert forall|sj: int, p: int|
                        0 <= sj < si as int && #[trigger] section_page(
                            secs@[sj],
                            p,
                        ) implies some_copy_carries(segs_now, secs@[sj], p) by {
                        if copies0 != segs_now {
                            lemma_carries_push(copies0, segs_now.last(), secs@[sj], p);
                            assert(copies0.push(segs_now.last()) == segs_now);
                        }
                    }
                }
                page += 1;
            }
            proof {
                // Every page of this section lies below the rounded-up page
                // count, so the inner loop reached it.
                vstd::arithmetic::div_mod::lemma_fundamental_div_mod((size + 4095) as int, 4096);
                assert forall|sj: int, p: int|
                    0 <= sj < si as int + 1 && #[trigger] section_page(
                        secs@[sj],
                        p,
                    ) implies some_copy_carries(copies@, secs@[sj], p) by {
                    if sj == si as int {
                        assert(4096 * p < size);
                        assert(4096 * (pages as int) >= size);
                        assert(p < page as int);
                    }
                }
            }
            si += 1;
        }
        proof {
            assert(sections_covered(copies@, secs@)) by {
                assert forall|sj: int, p: int|
                    0 <= sj < secs@.len() && #[trigger] section_page(
                        secs@[sj],
                        p,
                    ) implies some_copy_carries(copies@, secs@[sj], p) by {}
            }
        }
        // Read every mapped leaf back: each copy's page must hold exactly its
        // own frame, user-accessible, writable and present. A table whose
        // walk the installed raw bits disturbed past recognition fails here
        // rather than handing a task a wrong mapping.
        let n_copies = copies.len();
        let mut ci: usize = 0;
        while ci < n_copies
            invariant
                allocator.inv(),
                self.spec_page_table().wf(),
                self.spec_page_table().owned_by(allocator.allocated()),
                self.spec_context().rip == entry,
                elf_parsed(elf@),
                secs@ == elf_progbits(elf@),
                n_copies == copies@.len(),
                ci <= n_copies,
                old(allocator).allocated().subset_of(allocator.allocated()),
                old(self).spec_page_table().mem_map().dom().subset_of(
                    self.spec_page_table().mem_map().dom(),
                ),
                allocator.allocated() == old(allocator).allocated() + fresh_frames_span(
                    old(self).spec_page_table().mem_map(),
                    self.spec_page_table().mem_map(),
                ) + copies_span(copies@),
                forall|sj: int|
                    0 <= sj < n ==> (#[trigger] secs@[sj]).1 + secs@[sj].2 <= elf@.len(),
                forall|i: int|
                    0 <= i < copies@.len() ==> (#[trigger] copies@[i]).offset + copies@[i].len
                        <= elf@.len() && copies@[i].len <= 4096,
                forall|k: int|
                    0 <= k < copies@.len() ==> span_set(
                        (#[trigger] copies@[k]).phys as int,
                        4096,
                    ).disjoint(old(allocator).allocated()) && span_set(
                        copies@[k].phys as int,
                        4096,
                    ).subset_of(allocator.allocated()),
                forall|k1: int, k2: int|
                    0 <= k1 < k2 < copies@.len() ==> span_set(
                        (#[trigger] copies@[k1]).phys as int,
                        4096,
                    ).disjoint(span_set((#[trigger] copies@[k2]).phys as int, 4096)),
                copies_from_sections(copies@, secs@),
                sections_covered(copies@, secs@),
                forall|kk: int|
                    0 <= kk < ci ==> self.spec_page_table().leaf_at(
                        (#[trigger] copies@[kk]).vaddr,
                        PageType::Page4K,
                    ) == Some(copies@[kk].phys | PAGE_USER | 3),
            decreases n_copies - ci,
        {
            let c = copies[ci];
            let expected = c.phys | PAGE_USER | 3;
            let got = match self.page_table.read_raw(VirtAddr(c.vaddr), PageType::Page4K) {
                None => {
                    return None;
                },
                Some(g) => g,
            };
            if got != expected {
                return None;
            }
            ci += 1;
        }
        Some(copies)
    }
}

} // verus!
