//! Kernel policy code: building the kernel address space from the boot
//! protection ranges, the timer-driven round-robin scheduling decision, and
//! the syscall dispatcher.
//!
//! These are the typed handlers on the far side of the register-save
//! trampolines: the trampolines themselves, the base-register swaps on
//! user-mode entry and exit, and the actual address-space switches are
//! privileged instructions outside this crate. Each function here takes the
//! saved machine state as arguments and decides; its caller performs the
//! hardware acts.

use vstd::prelude::*;

use crate::core_locals::CoreLocals;
use crate::interrupts::{InterruptFrame, Registers};
use crate::mm::{PhysAddr, PhysMem, VirtAddr};
use crate::paging::{PageTable, PageType, PAGE_NX, PAGE_PRESENT, PAGE_WRITE};
use crate::task::Context;

verus! {

/// One kernel protection range from the boot handoff: where a kernel segment
/// sits in the virtual space, how long it is, and its permissions.
#[derive(Debug, Clone, Copy, PartialEq, Eq, Structural)]
pub struct Pmr {
    pub base: u64,
    pub size: u64,
    pub writable: bool,
    pub executable: bool,
}

/// Start of the higher-half alias of physical memory.
pub const HIGHER_HALF_BASE: u64 = 0xffff800000000000;

/// The page-table entry flags a protection range's permissions call for:
/// always present, writable when the range is, no-execute unless it is
/// executable.
pub open spec fn pmr_flags(p: Pmr) -> u64 {
    PAGE_PRESENT | (if p.writable {
        PAGE_WRITE
    } else {
        0
    }) | (if p.executable {
        0
    } else {
        PAGE_NX
    })
}

/// Page `i` exists in protection range `p` (whole pages only, as the range's
/// size is walked in page steps).
pub open spec fn pmr_page(p: Pmr, i: int) -> bool {
    0 <= i < p.size / 0x1000
}

/// Page `i` of protection range `p` is mapped: its virtual page holds the
/// physical page at the same offset from the kernel's physical base, with the
/// range's permission flags.
pub open spec fn pmr_page_ok(pt: PageTable, p: Pmr, i: int, kp: PhysAddr, kv: VirtAddr) -> bool {
    pt.leaf_at((p.base + 4096 * i) as u64, PageType::Page4K) == Some(
        (((kp.0 + (p.base - kv.0)) + 4096 * i) as u64) | pmr_flags(p),
    )
}

/// Physical page `pa` is identity-mapped and aliased in the higher half, as
/// a present, writable kernel page.
pub open spec fn identity_page_ok(pt: PageTable, pa: u64) -> bool {
    &&& pt.leaf_at(pa, PageType::Page4K) == Some(pa | 3)
    &&& pt.leaf_at((HIGHER_HALF_BASE + pa) as u64, PageType::Page4K) == Some(pa | 3)
}

/// Builds the kernel's address space: maps every whole page of every
/// protection range of the kernel image with its permissions, then
/// identity-maps the first 4 GiB of physical memory and aliases them in the
/// higher half, all as 4 KiB pages — and reads every installed leaf back, so
/// success proves each mapping holds exactly its documented entry. Fails
/// when a range is malformed (its virtual base below the kernel's), on
/// address-arithmetic overflow, when memory runs out, or when a read-back
/// finds a leaf disturbed.
pub fn new_kernel_pagetable<M: PhysMem>(
    allocator: &mut M,
    pmrs: &Vec<Pmr>,
    kernel_phys_base: PhysAddr,
    kernel_virt_base: VirtAddr,
) -> (r: Option<PageTable>)
    requires
        old(allocator).inv(),
    ensures
        final(allocator).inv(),
        match r {
            Some(pt) => {
                &&& pt.wf()
                &&& pt.owned_by(final(allocator).allocated())
                &&& forall|pi: int|
                    0 <= pi < pmrs@.len() ==> (#[trigger] pmrs@[pi]).base >= kernel_virt_base.0
                &&& forall|pi: int, i: int|
                    #![trigger pmr_page(pmrs@[pi], i)]
                    0 <= pi < pmrs@.len() && pmr_page(pmrs@[pi], i) ==> pmr_page_ok(
                        pt,
                        pmrs@[pi],
                        i,
                        kernel_phys_base,
                        kernel_virt_base,
                    )
                &&& forall|pa: u64|
                    pa % 4096 == 0 && pa < 0x100000000 ==> #[trigger] identity_page_ok(pt, pa)
            },
            None => true,
        },
{
    let mut page_table = match PageTable::new(allocator) {
        None => {
            return None;
        },
        Some(pt) => pt,
    };

    let n = pmrs.len();
    let mut pi: usize = 0;
    while pi < n
        invariant
            allocator.inv(),
            page_table.wf(),
            page_table.owned_by(allocator.allocated()),
            n == pmrs@.len(),
            pi <= n,
            forall|pj: int| 0 <= pj < pi ==> (#[trigger] pmrs@[pj]).base >= kernel_virt_base.0,
        decreases n - pi,
    {
        let pmr = pmrs[pi];
        let off = match pmr.base.checked_sub(kernel_virt_base.0) {
            None => {
                return None;
            },
            Some(o) => o,
        };
        let phys_base = match (kernel_phys_base.0 as u64).checked_add(off) {
            None => {
                return None;
            },
            Some(p) => p,
        };
        let flags = PAGE_PRESENT | (if pmr.writable {
            PAGE_WRITE
        } else {
            0
        }) | (if pmr.executable {
            0
        } else {
            PAGE_NX
        });

        let pages = pmr.size / 0x1000;
        let mut i: u64 = 0;
        while i < pages
            invariant
                allocator.inv(),
                page_table.wf(),
                page_table.owned_by(allocator.allocated()),
                i <= pages,
            decreases pages - i,
        {
            let off = match i.checked_mul(4096) {
                None => {
                    return None;
                },
                Some(o) => o,
            };
            let vaddr = match pmr.base.checked_add(off) {
                None => {
                    return None;
                },
                Some(v) => v,
            };
            let paddr = match phys_base.checked_add(off) {
                None => {
                    return None;
                },
                Some(p) => p,
            };
            match page_table.map_raw(
                allocator,
                VirtAddr(vaddr),
                PageType::Page4K,
                paddr | flags,
                true,
                true,
                false,
            ) {
                None => {
                    return None;
                },
                Some(_) => {},
            }
            i += 1;
        }
        pi += 1;
    }

    // Identity-map the first 4 GiB, and alias them in the higher half, as
    // present and writable kernel pages.
    let mut paddr: u64 = 0;
    while paddr < 0x100000000
        invariant
            allocator.inv(),
            page_table.wf(),
            page_table.owned_by(allocator.allocated()),
            n == pmrs@.len(),
            paddr <= 0x100000000,
            paddr % 4096 == 0,
            forall|pj: int| 0 <= pj < n ==> (#[trigger] pmrs@[pj]).base >= kernel_virt_base.0,
        decreases 0x100000000u64 - paddr,
    {
        match page_table.map_raw(
            allocator,
            VirtAddr(paddr),
            PageType::Page4K,
            paddr | 3,
            true,
            true,
            false,
        ) {
            None => {
                return None;
            },
            Some(_) => {},
        }
        match page_table.map_raw(
            allocator,
            VirtAddr(HIGHER_HALF_BASE + paddr),
            PageType::Page4K,
            paddr | 3,
            true,
            true,
            false,
        ) {
            None => {
                return None;
            },
            Some(_) => {},
        }
        paddr += 4096;
    }

    // Read every protection-range leaf back: each page must hold exactly the
    // entry its range's permissions call for.
    let mut pi: usize = 0;
    while pi < n
        invariant
            allocator.inv(),
            page_table.wf(),
            page_table.owned_by(allocator.allocated()),
            n == pmrs@.len(),
            pi <= n,
            forall|pj: int| 0 <= pj < n ==> (#[trigger] pmrs@[pj]).base >= kernel_virt_base.0,
            forall|pj: int, i: int|
                #![trigger pmr_page(pmrs@[pj], i)]
                0 <= pj < pi && pmr_page(pmrs@[pj], i) ==> pmr_page_ok(
                    page_table,
                    pmrs@[pj],
                    i,
                    kernel_phys_base,
                    kernel_virt_base,
                ),
        decreases n - pi,
    {
        let pmr = pmrs[pi];
        let off = match pmr.base.checked_sub(kernel_virt_base.0) {
            None => {
                return None;
            },
            Some(o) => o,
        };
        let phys_base = match (kernel_phys_base.0 as u64).checked_add(off) {
            None => {
                return None;
            },
            Some(p) => p,
        };
        let flags = PAGE_PRESENT | (if pmr.writable {
            PAGE_WRITE
        } else {
            0
        }) | (if pmr.executable {
            0
        } else {
            PAGE_NX
        });
        let pages = pmr.size / 0x1000;
        let mut i: u64 = 0;
        while i < pages
            invariant
                allocator.inv(),
                page_table.wf(),
                page_table.owned_by(allocator.allocated()),
                n == pmrs@.len(),
                pi < n,
                pmr == pmrs@[pi as int],
                i <= pages,
                pages == pmr.size / 0x1000,
                phys_base == kernel_phys_base.0 + (pmr.base - kernel_virt_base.0),
                flags == pmr_flags(pmr),
                forall|pj: int, k: int|
                    #![trigger pmr_page(pmrs@[pj], k)]
                    0 <= pj < pi && pmr_page(pmrs@[pj], k) ==> pmr_page_ok(
                        page_table,
                        pmrs@[pj],
                        k,
                        kernel_phys_base,
                        kernel_virt_base,
                    ),
                forall|k: int|
                    #![trigger pmr_page(pmr, k)]
                    0 <= k < i && pmr_page(pmr, k) ==> pmr_page_ok(
                        page_table,
                        pmr,
                        k,
                        kernel_phys_base,
                        kernel_virt_base,
                    ),
            decreases pages - i,
        {
            let off = match i.checked_mul(4096) {
                None => {
                    return None;
                },
                Some(o) => o,
            };
            let vaddr = match pmr.base.checked_add(off) {
                None => {
                    return None;
                },
                Some(v) => v,
            };
            let paddr = match phys_base.checked_add(off) {
                None => {
                    return None;
                },
                Some(p) => p,
            };
            let expected = paddr | flags;
            let got = match page_table.read_raw(VirtAddr(vaddr), PageType::Page4K) {
                None => {
                    return None;
                },
                Some(g) => g,
            };
            if got != expected {
                return None;
            }
            proof {
                assert(pmr_page_ok(
                    page_table,
                    pmr,
                    i as int,
                    kernel_phys_base,
                    kernel_virt_base,
                ));
            }
            i += 1;
        }
        pi += 1;
    }

    // Read the identity map and its higher-half alias back the same way.
    let mut paddr: u64 = 0;
    while paddr < 0x100000000
        invariant
            allocator.inv(),
            page_table.wf(),
            page_table.owned_by(allocator.allocated()),
            n == pmrs@.len(),
            paddr <= 0x100000000,
            paddr % 4096 == 0,
            forall|pj: int| 0 <= pj < n ==> (#[trigger] pmrs@[pj]).base >= kernel_virt_base.0,
            forall|pj: int, i: int|
                #![trigger pmr_page(pmrs@[pj], i)]
                0 <= pj < n && pmr_page(pmrs@[pj], i) ==> pmr_page_ok(
                    page_table,
                    pmrs@[pj],
                    i,
                    kernel_phys_base,
                    kernel_virt_base,
                ),
            forall|qa: u64|
                qa % 4096 == 0 && qa < paddr ==> #[trigger] identity_page_ok(page_table, qa),
        decreases 0x100000000u64 - paddr,
    {
        let expected = paddr | 3;
        let low = match page_table.read_raw(VirtAddr(paddr), PageType::Page4K) {
            None => {
                return None;
            },
            Some(g) => g,
        };
        let high = match page_table.read_raw(
            VirtAddr(HIGHER_HALF_BASE + paddr),
            PageType::Page4K,
        ) {
            None => {
                return None;
            },
            Some(g) => g,
        };
        if low != expected || high != expected {
            return None;
        }
        proof {
            assert(identity_page_ok(page_table, paddr));
        }
        paddr += 4096;
    }

    Some(page_table)
}

/// The task index `k` timer ticks after the current index `c`, with `n`
/// tasks: pure round-robin rotation.
pub open spec fn rotate(c: int, k: int, n: int) -> int
    recommends
        n > 0,
{
    (c + k) % n
}

/// The timer-preemption decision: saves the interrupted state (registers,
/// instruction pointer, stack pointer) into the current task's context,
/// advances the current-task index by one (wrapping to zero past the end),
/// and names the task to resume. With no tasks there is nothing to schedule
/// and the caller re-resumes the interrupted table. The caller switches to
/// the kernel's address space before calling and performs the returned
/// switch.
pub fn timer_int(locals: &mut CoreLocals, frame: &InterruptFrame, regs: &Registers) -> (r: Option<
    usize,
>)
    requires
        old(locals).locks_ready(),
        old(locals).tasks.value()@.len() > 0 ==> old(locals).current_task_id.value() < old(
            locals,
        ).tasks.value()@.len(),
    ensures
        final(locals).locks_ready(),
        final(locals).id == old(locals).id,
        final(locals).kernel_page_table.value() == old(locals).kernel_page_table.value(),
        final(locals).interrupt_state.value() == old(locals).interrupt_state.value(),
        ({
            let ts = old(locals).tasks.value()@;
            let cur = old(locals).current_task_id.value() as int;
            match r {
                None => {
                    &&& ts.len() == 0
                    &&& final(locals).tasks.value()@ == ts
                    &&& final(locals).current_task_id.value() == old(
                        locals,
                    ).current_task_id.value()
                },
                Some(next) => {
                    &&& ts.len() > 0
                    &&& next < ts.len()
                    &&& next as int == rotate(cur, 1, ts.len() as int)
                    &&& final(locals).current_task_id.value() == next
                    &&& final(locals).tasks.value()@.len() == ts.len()
                    &&& final(locals).tasks.value()@[cur].spec_context() == (Context {
                        regs: *regs,
                        rip: frame.rip,
                        rsp: frame.sp,
                    })
                    &&& forall|j: int|
                        0 <= j < ts.len() && j != cur ==> final(locals).tasks.value()@[j] == ts[j]
                },
            }
        }),
{
    let tguard = locals.tasks.lock();
    let iguard = locals.current_task_id.lock();
    let id = *locals.current_task_id.get(&iguard);
    let n = locals.tasks.get(&tguard).len();
    if n == 0 {
        iguard.release_lock(&mut locals.current_task_id);
        tguard.release_lock(&mut locals.tasks);
        return None;
    }
    let ctx = Context { regs: *regs, rip: frame.rip, rsp: frame.sp };
    {
        let tasks = locals.tasks.get_mut(&tguard);
        let task = &mut tasks[id];
        task.save_context(ctx);
    }
    let next = if id + 1 != n {
        id + 1
    } else {
        0
    };
    {
        let c = locals.current_task_id.get_mut(&iguard);
        *c = next;
    }
    iguard.release_lock(&mut locals.current_task_id);
    tguard.release_lock(&mut locals.tasks);
    proof {
        if id + 1 != n {
            vstd::arithmetic::div_mod::lemma_small_mod((id + 1) as nat, n as nat);
        } else {
            vstd::arithmetic::div_mod::lemma_mod_self_0(n as int);
        }
    }
    Some(next)
}

/// The syscall dispatcher: reads the operation code from the saved `rax`.
/// Every code currently takes the catch-all unknown-syscall path, which
/// writes the sentinel failure value into the return-value register and
/// changes nothing else. The ring transition and the address-space switches
/// around this decision are the trampoline's hardware steps.
pub fn int80(frame: &InterruptFrame, regs: &mut Registers)
    ensures
        *final(regs) == (Registers { rax: u64::MAX, ..*old(regs) }),
{
    let code = regs.rax;
    match code {
        _ => {
            regs.rax = u64::MAX;
        },
    }
}

/// Rotation composes: advancing `k1` ticks and then `k2` more lands exactly
/// where `k1 + k2` ticks land.
pub proof fn lemma_rotate_compose(c: int, k1: int, k2: int, n: int)
    requires
        n > 0,
        0 <= c,
        0 <= k1,
        0 <= k2,
    ensures
        rotate(rotate(c, k1, n), k2, n) == rotate(c, k1 + k2, n),
{
    vstd::arithmetic::div_mod::lemma_add_mod_noop_right(k2, c + k1, n);
}

/// Round-robin fairness: from any starting index, the tasks chosen by the
/// next `n` timer ticks are pairwise distinct — with `n` tasks, each index is
/// visited exactly once before any repeats.
pub proof fn lemma_round_robin(c: int, n: int, k1: int, k2: int)
    requires
        n > 0,
        0 <= c,
        0 <= k1 < k2 < n,
    ensures
        rotate(c, k1, n) != rotate(c, k2, n),
{
    let a = c + k1;
    let b = c + k2;
    vstd::arithmetic::div_mod::lemma_fundamental_div_mod(a, n);
    vstd::arithmetic::div_mod::lemma_fundamental_div_mod(b, n);
    if rotate(c, k1, n) == rotate(c, k2, n) {
        let qa = a / n;
        let qb = b / n;
        assert(false) by (nonlinear_arith)
            requires
                a == n * qa + a % n,
                b == n * qb + b % n,
                a % n == b % n,
                0 < b - a < n,
        ;
    }
}

} // verus!
