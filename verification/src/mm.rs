//! Physical memory: typed addresses, the allocator capability interface, and
//! the interval-set-backed physical memory provider.
//!
//! `PhysMem` is the sole interface the page-table manager and the task
//! subsystem require from a memory provider, so providers are substitutable.
//! `PhysicalMemory` is the post-boot provider: one process-wide free set
//! guarded by a ticket lock, seeded from the firmware memory map.

use vstd::prelude::*;

use crate::rangeset::{
    covers_difference, covers_union, is_pow2, range_covers, ranges_separated, scan_aborts,
    seq_covers, spec_best, Range, RangeSet, CAPACITY,
};
use crate::sync::LockCell;

verus! {

/// A physical address. Never dereferenceable by itself: it must first be
/// translated through the active mapping.
#[derive(Debug, Default, Clone, Copy, PartialEq, Eq, Structural, PartialOrd, Ord)]
pub struct PhysAddr(pub usize);

/// A virtual address. The virtual space is 64-bit wide whatever the
/// platform's pointer width.
#[derive(Debug, Default, Clone, Copy, PartialEq, Eq, Structural, PartialOrd, Ord)]
pub struct VirtAddr(pub u64);

/// One region of the firmware-reported memory map, reduced to the fields the
/// allocator reads: base, byte length, and whether the region is usable RAM.
#[derive(Debug, Clone, Copy, PartialEq, Eq, Structural)]
pub struct MemRegion {
    pub base: u64,
    pub length: u64,
    pub usable: bool,
}

/// The byte addresses `[p, p + size)`.
pub open spec fn span_set(p: int, size: int) -> Set<int> {
    Set::new(|a: int| p <= a < p + size)
}

/// The capability interface every physical-memory provider implements:
/// translate an address for access, allocate a block, allocate a zeroed
/// block. Downstream components depend only on this trait.
pub trait PhysMem: Sized {
    /// The provider's invariant.
    spec fn inv(&self) -> bool;

    /// Byte addresses handed out and not returned; blocks never overlap it.
    spec fn allocated(&self) -> Set<int>;

    /// Translates a physical address for an access of `size` bytes, returning
    /// the address under which the bytes are reachable; fails at least
    /// whenever `size == 0`.
    fn translate(&mut self, phys: PhysAddr, size: usize) -> (r: Option<PhysAddr>)
        requires
            old(self).inv(),
        ensures
            final(self).inv(),
            final(self).allocated() == old(self).allocated(),
            r is Some ==> size > 0,
    ;

    /// Allocates `size` bytes aligned to `align`. A returned block is
    /// aligned, fits the address width, and is fresh: disjoint from every
    /// block handed out before.
    fn alloc_phys(&mut self, size: usize, align: usize) -> (r: Option<PhysAddr>)
        requires
            old(self).inv(),
        ensures
            final(self).inv(),
            match r {
                Some(p) => {
                    &&& size > 0
                    &&& p.0 + size <= usize::MAX + 1
                    &&& align > 0 ==> p.0 as int % align as int == 0
                    &&& span_set(p.0 as int, size as int).disjoint(old(self).allocated())
                    &&& final(self).allocated() == old(self).allocated() + span_set(
                        p.0 as int,
                        size as int,
                    )
                },
                None => final(self).allocated() == old(self).allocated(),
            },
    ;

    /// As `alloc_phys`, with the block's bytes overwritten with zeroes before
    /// it is returned.
    fn alloc_phys_zeroed(&mut self, size: usize, align: usize) -> (r: Option<PhysAddr>)
        requires
            old(self).inv(),
        ensures
            final(self).inv(),
            match r {
                Some(p) => {
                    &&& size > 0
                    &&& p.0 + size <= usize::MAX + 1
                    &&& align > 0 ==> p.0 as int % align as int == 0
                    &&& span_set(p.0 as int, size as int).disjoint(old(self).allocated())
                    &&& final(self).allocated() == old(self).allocated() + span_set(
                        p.0 as int,
                        size as int,
                    )
                },
                None => final(self).allocated() == old(self).allocated(),
            },
    ;
}

/// The post-boot physical memory provider: the process-wide free set behind
/// one ticket lock, plus the (ghost) record of what was handed out.
pub struct PhysicalMemory {
    free: LockCell<Option<RangeSet>>,
    allocated: Ghost<Set<int>>,
}

impl PhysicalMemory {
    /// The guarded free set, if initialization has happened.
    pub closed spec fn free_state(&self) -> Option<RangeSet> {
        self.free.value()
    }

    /// Address `a` is currently free.
    pub open spec fn free_covers(&self, a: u64) -> bool {
        match self.free_state() {
            Some(rs) => rs.covers(a),
            None => false,
        }
    }

    pub closed spec fn lock_ready(&self) -> bool {
        self.free.wf() && !self.free.held()
    }

    /// Builds the provider around an already-seeded free set.
    pub fn new(free: RangeSet) -> (r: PhysicalMemory)
        requires
            free.wf(),
        ensures
            r.inv(),
            r.allocated() == Set::<int>::empty(),
            r.free_state() == Some(free),
    {
        PhysicalMemory { free: LockCell::new(Some(free)), allocated: Ghost(Set::empty()) }
    }
}

impl PhysicalMemory {
    /// Returns a block to the free pool: the deallocation path of dynamic
    /// allocation. The block's bytes become free again and leave the
    /// handed-out record. Fails — changing nothing — exactly when the pool is
    /// uninitialized (the fatal condition of freeing before the allocator
    /// exists), when the block is empty or runs past the address width, or
    /// when a full pool without a mergeable neighbour would make the insert
    /// a fatal capacity overflow.
    pub fn free_phys(&mut self, addr: PhysAddr, size: usize) -> (r: bool)
        requires
            old(self).inv(),
        ensures
            final(self).inv(),
            r == ({
                let span = Range { start: addr.0 as u64, end: (addr.0 + size - 1) as u64 };
                &&& old(self).free_state() is Some
                &&& size > 0
                &&& addr.0 + size - 1 <= u64::MAX
                &&& (old(self).free_state()->Some_0@.len() < CAPACITY || exists|i: int|
                    0 <= i < old(self).free_state()->Some_0@.len() && !ranges_separated(
                        #[trigger] old(self).free_state()->Some_0@[i],
                        span,
                    ))
            }),
            r ==> ({
                let span = Range { start: addr.0 as u64, end: (addr.0 + size - 1) as u64 };
                &&& size > 0
                &&& old(self).free_state() is Some
                &&& final(self).free_state() is Some
                &&& covers_union(
                    final(self).free_state()->Some_0@,
                    old(self).free_state()->Some_0@,
                    span,
                )
                &&& final(self).allocated() == old(self).allocated().difference(
                    span_set(addr.0 as int, size as int),
                )
            }),
            !r ==> final(self).free_state() == old(self).free_state() && final(self).allocated()
                == old(self).allocated(),
    {
        if size == 0 {
            return false;
        }
        let start = addr.0 as u64;
        let end = match start.checked_add((size - 1) as u64) {
            None => {
                return false;
            },
            Some(e) => e,
        };
        let ghost old_alloc = self.allocated@;
        let ghost old_free = self.free.value();
        let guard = self.free.lock();
        let ok = {
            let slot = self.free.get_mut(&guard);
            match slot {
                None => false,
                Some(rsf) => {
                    let rng = Range { start, end };
                    if rsf.can_insert(&rng) {
                        rsf.insert(rng);
                        true
                    } else {
                        false
                    }
                },
            }
        };
        guard.release_lock(&mut self.free);
        if ok {
            proof {
                self.allocated@ = old_alloc.difference(span_set(addr.0 as int, size as int));
                let rs0 = old_free->Some_0;
                let rs1 = self.free.value()->Some_0;
                let span = Range { start, end };
                assert forall|a: u64| rs1.covers(a) implies !self.allocated@.contains(
                    a as int,
                ) by {
                    assert(seq_covers(rs0@, a) || range_covers(span, a));
                    if seq_covers(rs0@, a) {
                        assert(rs0.covers(a));
                        assert(!old_alloc.contains(a as int));
                    } else {
                        assert(span_set(addr.0 as int, size as int).contains(a as int));
                    }
                }
            }
            true
        } else {
            false
        }
    }
}

impl PhysMem for PhysicalMemory {
    closed spec fn inv(&self) -> bool {
        &&& self.lock_ready()
        &&& match self.free_state() {
            Some(rs) => rs.wf() && forall|a: u64|
                #![trigger rs.covers(a)]
                rs.covers(a) ==> !self.allocated().contains(a as int),
            None => true,
        }
    }

    closed spec fn allocated(&self) -> Set<int> {
        self.allocated@
    }

    /// This provider accesses physical memory directly (the whole of it is
    /// mapped), so translation is the identity on every non-empty access.
    fn translate(&mut self, phys: PhysAddr, size: usize) -> (r: Option<PhysAddr>)
        ensures
            r == if size == 0 {
                Option::<PhysAddr>::None
            } else {
                Some(phys)
            },
    {
        if size == 0 {
            return None;
        }
        Some(phys)
    }

    /// Fails exactly when the free set is uninitialized or cannot serve the
    /// request: zero size, an alignment that is not a power of two, overflow
    /// in a candidate's address arithmetic, or no entry that fits. On
    /// success the address is the best-fit candidate and its span leaves the
    /// free set.
    fn alloc_phys(&mut self, size: usize, align: usize) -> (r: Option<PhysAddr>)
        ensures
            r is None <==> (old(self).free_state() is None || ({
                let rs = old(self).free_state()->Some_0;
                size == 0 || !is_pow2(align as u64) || scan_aborts(rs@, size as u64, align as u64)
                    || spec_best(rs@, size as u64, align as u64) is None
            })),
            match r {
                Some(p) => ({
                    let rs = old(self).free_state()->Some_0;
                    let c = spec_best(rs@, size as u64, align as u64)->Some_0;
                    &&& p == PhysAddr(c.2 as usize)
                    &&& final(self).free_state() is Some
                    &&& covers_difference(
                        final(self).free_state()->Some_0@,
                        rs@,
                        Range { start: c.0 as u64, end: c.1 as u64 },
                    )
                    &&& final(self).allocated() == old(self).allocated() + span_set(
                        p.0 as int,
                        size as int,
                    )
                }),
                None => final(self).allocated() == old(self).allocated()
                    && final(self).free_state() == old(self).free_state(),
            },
    {
        let ghost old_alloc = self.allocated@;
        let ghost old_free = self.free.value();
        let guard = self.free.lock();
        let ptr: Option<usize> = {
            let slot = self.free.get_mut(&guard);
            match slot {
                None => None,
                Some(rs) => rs.allocate(size as u64, align as u64),
            }
        };
        guard.release_lock(&mut self.free);
        match ptr {
            None => None,
            Some(p) => {
                proof {
                    self.allocated@ = old_alloc + span_set(p as int, size as int);
                    let rs0 = old_free->Some_0;
                    let rs1 = self.free.value()->Some_0;
                    let c = crate::rangeset::spec_best(rs0@, size as u64, align as u64)->Some_0;
                    let span = Range { start: c.0 as u64, end: c.1 as u64 };
                    assert(forall|b: u64| c.0 <= b <= c.1 ==> seq_covers(rs0@, b));
                    assert(covers_difference(rs1@, rs0@, span));
                    assert(p as int == c.2 && c.0 <= c.2 && c.2 + size - 1 == c.1);
                    assert forall|a: int|
                        span_set(p as int, size as int).contains(a) implies !old_alloc.contains(
                        a,
                    ) && 0 <= a <= usize::MAX by {
                        assert(c.0 <= a <= c.1);
                        let b: u64 = a as u64;
                        assert(rs0.covers(b));
                        assert(!old_alloc.contains(b as int));
                        assert(a == b as int);
                    }
                    assert(span_set(p as int, size as int).disjoint(old_alloc));
                    assert forall|a: u64| rs1.covers(a) implies !(old_alloc + span_set(
                        p as int,
                        size as int,
                    )).contains(a as int) by {
                        assert(rs0.covers(a));
                        assert(!range_covers(span, a));
                        assert(!old_alloc.contains(a as int));
                        if span_set(p as int, size as int).contains(a as int) {
                            assert(c.0 <= a as int <= c.1);
                            assert(range_covers(span, a));
                        }
                    }
                }
                Some(PhysAddr(p))
            },
        }
    }

    /// In this model the provider owns no byte contents, so a zeroed
    /// allocation allocates the same best-fit block `alloc_phys` would; the
    /// shell that materializes frames overwrites each fresh block with zero
    /// bytes before any use. Failure comes under exactly the same conditions
    /// as `alloc_phys`.
    fn alloc_phys_zeroed(&mut self, size: usize, align: usize) -> (r: Option<PhysAddr>)
        ensures
            r is None <==> (old(self).free_state() is None || ({
                let rs = old(self).free_state()->Some_0;
                size == 0 || !is_pow2(align as u64) || scan_aborts(rs@, size as u64, align as u64)
                    || spec_best(rs@, size as u64, align as u64) is None
            })),
            match r {
                Some(p) => ({
                    let rs = old(self).free_state()->Some_0;
                    let c = spec_best(rs@, size as u64, align as u64)->Some_0;
                    &&& p == PhysAddr(c.2 as usize)
                    &&& final(self).free_state() is Some
                    &&& covers_difference(
                        final(self).free_state()->Some_0@,
                        rs@,
                        Range { start: c.0 as u64, end: c.1 as u64 },
                    )
                }),
                None => final(self).free_state() == old(self).free_state(),
            },
    {
        self.alloc_phys(size, align)
    }
}

/// Region `reg` contributes address `a` to the free pool: only usable regions
/// seed the allocator.
pub open spec fn region_covers(reg: MemRegion, a: u64) -> bool {
    reg.usable && reg.length > 0 && reg.base <= a && a <= reg.base + reg.length - 1
}

/// Some region of the memory map contributes address `a`.
pub open spec fn map_covers(regions: Seq<MemRegion>, a: u64) -> bool {
    exists|i: int| 0 <= i < regions.len() && region_covers(#[trigger] regions[i], a)
}

/// How many regions are usable; each can take one entry of the free set.
pub open spec fn count_usable(regions: Seq<MemRegion>) -> int
    decreases regions.len(),
{
    if regions.len() == 0 {
        0
    } else {
        count_usable(regions.drop_last()) + if regions.last().usable {
            1int
        } else {
            0int
        }
    }
}

/// One more region adds one to the count exactly when it is usable.
proof fn lemma_count_step(regions: Seq<MemRegion>, i: int)
    requires
        0 <= i < regions.len(),
    ensures
        count_usable(regions.subrange(0, i + 1)) == count_usable(regions.subrange(0, i)) + if (
        regions[i]).usable {
            1int
        } else {
            0int
        },
{
    let p = regions.subrange(0, i + 1);
    assert(p.drop_last() =~= regions.subrange(0, i));
    assert(p.last() == regions[i]);
}

/// A prefix never holds more usable regions than the whole map.
proof fn lemma_count_prefix_le(regions: Seq<MemRegion>, i: int)
    requires
        0 <= i <= regions.len(),
    ensures
        count_usable(regions.subrange(0, i)) <= count_usable(regions),
    decreases regions.len() - i,
{
    if i == regions.len() {
        assert(regions.subrange(0, i) =~= regions);
    } else {
        lemma_count_step(regions, i);
        lemma_count_prefix_le(regions, i + 1);
    }
}

/// Builds the free set from the firmware-reported memory map: the bytes of
/// every usable region become free, and nothing else. Fails when a usable
/// region runs past the 64-bit address width.
pub fn seed_from_map(regions: &Vec<MemRegion>) -> (r: Option<RangeSet>)
    requires
        count_usable(regions@) <= CAPACITY,
    ensures
        match r {
            Some(rs) => rs.wf() && forall|a: u64|
                #![trigger rs.covers(a)]
                rs.covers(a) <==> map_covers(regions@, a),
            None => exists|i: int|
                0 <= i < regions@.len() && (#[trigger] regions@[i]).usable && regions@[i].length
                    > 0 && regions@[i].base + regions@[i].length - 1 > u64::MAX,
        },
{
    let mut mem = RangeSet::new();
    let n = regions.len();
    let mut i: usize = 0;
    while i < n
        invariant
            mem.wf(),
            n == regions@.len(),
            i <= n,
            mem@.len() <= count_usable(regions@.subrange(0, i as int)),
            count_usable(regions@) <= CAPACITY,
            forall|a: u64|
                #![trigger mem.covers(a)]
                mem.covers(a) <==> map_covers(regions@.subrange(0, i as int), a),
        decreases n - i,
    {
        let reg = regions[i];
        let ghost prev = mem;
        proof {
            lemma_count_step(regions@, i as int);
            lemma_count_prefix_le(regions@, i as int + 1);
        }
        let ghost t = regions@.subrange(0, i as int + 1);
        proof {
            assert(t.last() == regions@[i as int]);
            assert(t.drop_last() =~= regions@.subrange(0, i as int));
        }
        if reg.usable && reg.length > 0 {
            let end = match reg.base.checked_add(reg.length - 1) {
                Some(e) => e,
                None => {
                    return None;
                },
            };
            mem.insert(Range { start: reg.base, end });
            proof {
                assert forall|a: u64|
                    #![trigger mem.covers(a)]
                    mem.covers(a) <==> map_covers(t, a) by {
                    assert(mem.covers(a) <==> (prev.covers(a) || range_covers(
                        Range { start: reg.base, end: (reg.base + reg.length - 1) as u64 },
                        a,
                    )));
                    if map_covers(t, a) {
                        let j = choose|j: int| 0 <= j < t.len() && region_covers(#[trigger] t[j], a);
                        if j < i {
                            assert(region_covers(t.drop_last()[j], a));
                        }
                    }
                    if map_covers(t.drop_last(), a) {
                        let j = choose|j: int|
                            0 <= j < t.drop_last().len() && region_covers(
                                #[trigger] t.drop_last()[j],
                                a,
                            );
                        assert(region_covers(t[j], a));
                    }
                    if range_covers(
                        Range { start: reg.base, end: (reg.base + reg.length - 1) as u64 },
                        a,
                    ) {
                        assert(region_covers(t[i as int], a));
                    }
                }
            }
        } else {
            proof {
                assert forall|a: u64|
                    #![trigger mem.covers(a)]
                    mem.covers(a) <==> map_covers(t, a) by {
                    if map_covers(t, a) {
                        let j = choose|j: int| 0 <= j < t.len() && region_covers(#[trigger] t[j], a);
                        assert(j < i);
                        assert(region_covers(t.drop_last()[j], a));
                    }
                    if map_covers(t.drop_last(), a) {
                        let j = choose|j: int|
                            0 <= j < t.drop_last().len() && region_covers(
                                #[trigger] t.drop_last()[j],
                                a,
                            );
                        assert(region_covers(t[j], a));
                    }
                }
            }
        }
        i += 1;
    }
    proof {
        assert(regions@.subrange(0, n as int) =~= regions@);
    }
    Some(mem)
}

/// Builds the post-boot physical memory provider from the firmware memory
/// map: the one process-wide allocator, explicitly initialized before use.
pub fn init(regions: &Vec<MemRegion>) -> (r: Option<PhysicalMemory>)
    requires
        count_usable(regions@) <= CAPACITY,
    ensures
        match r {
            Some(pm) => pm.inv() && pm.allocated() == Set::<int>::empty() && forall|a: u64|
                #![trigger pm.free_covers(a)]
                pm.free_covers(a) <==> map_covers(regions@, a),
            None => exists|i: int|
                0 <= i < regions@.len() && (#[trigger] regions@[i]).usable && regions@[i].length
                    > 0 && regions@[i].base + regions@[i].length - 1 > u64::MAX,
        },
{
    match seed_from_map(regions) {
        None => None,
        Some(mem) => Some(PhysicalMemory::new(mem)),
    }
}

} // verus!
