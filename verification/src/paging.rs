//! Four-level page tables.
//!
//! A `PageTable` owns one frame holding the top-level table and, transitively,
//! every intermediate table frame created while mapping. Entries are the
//! architecture's raw 64-bit values: a packed physical frame address plus flag
//! bits (bit 0 present, bit 1 writable, bit 2 user-accessible, bit 63
//! no-execute). The manager interprets no more of them than it needs to link
//! tables; callers supply the final leaf entry verbatim.

use vstd::prelude::*;

use crate::mm::{span_set, PhysMem, VirtAddr};

verus! {

pub const PAGE_PRESENT: u64 = 1;

pub const PAGE_WRITE: u64 = 2;

pub const PAGE_USER: u64 = 4;

pub const PAGE_NX: u64 = 0x8000000000000000;

/// Mask selecting the physical frame address packed in an entry (bits 12-51).
pub const PTE_ADDR_MASK: u64 = 0xffffffffff000;

/// One past the highest frame address that an entry can pack.
pub const PTE_BASE_LIMIT: u64 = 0x10000000000000;

/// Leaf granularity of a mapping.
#[derive(Clone, Copy, Debug, PartialEq, Eq, Structural)]
pub enum PageType {
    Page4K,
    Page2M,
    Page1G,
}

/// How many table levels a walk of this granularity visits.
pub open spec fn levels_of(pt: PageType) -> int {
    match pt {
        PageType::Page4K => 4,
        PageType::Page2M => 3,
        PageType::Page1G => 2,
    }
}

impl PageType {
    /// The mapped page's size in bytes.
    pub fn size(self) -> (r: u64)
        ensures
            r == match self {
                PageType::Page4K => 0x1000u64,
                PageType::Page2M => 0x200000u64,
                PageType::Page1G => 0x40000000u64,
            },
    {
        match self {
            PageType::Page4K => 0x1000,
            PageType::Page2M => 0x200000,
            PageType::Page1G => 0x40000000,
        }
    }
}

/// One owned table frame: its physical base address and its 512 entries.
pub struct TableFrame {
    pub base: u64,
    pub entries: Vec<u64>,
}

/// A frame is well-formed: 512 entries, page-aligned, and its address fits
/// the packable width.
pub open spec fn frame_wf(f: TableFrame) -> bool {
    &&& f.entries@.len() == 512
    &&& f.base % 4096 == 0
    &&& f.base < PTE_BASE_LIMIT
}

/// The frames as a map from physical base address to entry values.
pub open spec fn table_map(s: Seq<TableFrame>) -> Map<u64, Seq<u64>>
    decreases s.len(),
{
    if s.len() == 0 {
        Map::empty()
    } else {
        table_map(s.drop_last()).insert(s.last().base, s.last().entries@)
    }
}

/// The nine-bit table index a virtual address selects at walk step `depth`
/// (0 is the top level).
pub open spec fn level_index(v: u64, depth: int) -> u64 {
    (v >> ((39 - 9 * depth) as u64)) & 0x1ff
}

/// The base address of the table reached after `depth` steps of the walk, if
/// every step found a present entry pointing at a known table.
pub open spec fn walk_to(m: Map<u64, Seq<u64>>, root: u64, v: u64, depth: int) -> Option<u64>
    decreases depth,
{
    if depth <= 0 {
        if m.contains_key(root) {
            Some(root)
        } else {
            None
        }
    } else {
        match walk_to(m, root, v, depth - 1) {
            None => None,
            Some(t) => {
                let ent = m[t][level_index(v, depth - 1) as int];
                if ent & PAGE_PRESENT == 0 {
                    None
                } else {
                    let nxt = ent & PTE_ADDR_MASK;
                    if m.contains_key(nxt) {
                        Some(nxt)
                    } else {
                        None
                    }
                }
            },
        }
    }
}

/// Owns the top-level frame and every table frame below it.
pub struct PageTable {
    frames: Vec<TableFrame>,
}

impl PageTable {
    /// The owned frames; the first is the top-level table.
    pub closed spec fn frames_seq(&self) -> Seq<TableFrame> {
        self.frames@
    }

    /// The owned frames as a map from base address to entries.
    pub open spec fn mem_map(&self) -> Map<u64, Seq<u64>> {
        table_map(self.frames_seq())
    }

    /// Physical base address of the top-level table.
    pub open spec fn spec_root(&self) -> u64 {
        self.frames_seq()[0].base
    }

    /// Invariant: at least the root frame, every frame well-formed, and all
    /// base addresses distinct (the structure is a tree built from fresh
    /// frames, never sharing a table).
    pub open spec fn wf(&self) -> bool {
        &&& self.frames_seq().len() >= 1
        &&& forall|i: int|
            0 <= i < self.frames_seq().len() ==> frame_wf(#[trigger] self.frames_seq()[i])
        &&& forall|i: int, j: int|
            0 <= i < self.frames_seq().len() && 0 <= j < self.frames_seq().len() && i != j
                ==> (#[trigger] self.frames_seq()[i]).base != (#[trigger] self.frames_seq()[j]).base
    }

    /// Every owned frame's bytes were allocated from the given pool.
    pub open spec fn owned_by(&self, allocated: Set<int>) -> bool {
        forall|i: int|
            0 <= i < self.frames_seq().len() ==> span_set(
                (#[trigger] self.frames_seq()[i]).base as int,
                4096,
            ).subset_of(allocated)
    }

    /// The raw leaf entry a walk for `v` at granularity `pt` reads, if the
    /// walk reaches the leaf table.
    pub open spec fn leaf_at(&self, v: u64, pt: PageType) -> Option<u64> {
        match walk_to(self.mem_map(), self.spec_root(), v, levels_of(pt) - 1) {
            None => None,
            Some(t) => Some(self.mem_map()[t][level_index(v, levels_of(pt) - 1) as int]),
        }
    }

    /// The walk for `v` reaches the leaf table through distinct frames.
    pub open spec fn path_ok(&self, v: u64, pt: PageType) -> bool {
        &&& walk_to(self.mem_map(), self.spec_root(), v, levels_of(pt) - 1) is Some
        &&& forall|d1: int, d2: int|
            0 <= d1 < d2 <= levels_of(pt) - 1 ==> walk_to(self.mem_map(), self.spec_root(), v, d1)
                != walk_to(self.mem_map(), self.spec_root(), v, d2)
    }

    /// The walk reaches the leaf table and finds the leaf entry present.
    pub open spec fn leaf_present(&self, v: u64, pt: PageType) -> bool {
        self.leaf_at(v, pt) is Some && self.leaf_at(v, pt)->Some_0 & PAGE_PRESENT != 0
    }
}

/// Characterizes the frame map of a sequence with distinct bases: a key is
/// present exactly when some frame has that base, and maps to its entries.
proof fn lemma_table_map_lookup(s: Seq<TableFrame>)
    requires
        forall|i: int, j: int|
            0 <= i < s.len() && 0 <= j < s.len() && i != j ==> (#[trigger] s[i]).base != (
            #[trigger] s[j]).base,
    ensures
        forall|b: u64|
            table_map(s).contains_key(b) <==> exists|i: int|
                0 <= i < s.len() && (#[trigger] s[i]).base == b,
        forall|i: int|
            0 <= i < s.len() ==> table_map(s).contains_key((#[trigger] s[i]).base) && table_map(
                s,
            )[s[i].base] == s[i].entries@,
    decreases s.len(),
{
    if s.len() > 0 {
        let t = s.drop_last();
        assert(forall|k: int| 0 <= k < t.len() ==> t[k] == s[k]);
        lemma_table_map_lookup(t);
        assert forall|b: u64|
            table_map(s).contains_key(b) <==> exists|i: int|
                0 <= i < s.len() && (#[trigger] s[i]).base == b by {
            if table_map(s).contains_key(b) {
                if b == s.last().base {
                    assert(s[s.len() - 1].base == b);
                } else {
                    assert(table_map(t).contains_key(b));
                    let i = choose|i: int| 0 <= i < t.len() && (#[trigger] t[i]).base == b;
                    assert(t[i] == s[i]);
                    assert(s[i].base == b);
                }
            }
            if exists|i: int| 0 <= i < s.len() && (#[trigger] s[i]).base == b {
                let i = choose|i: int| 0 <= i < s.len() && (#[trigger] s[i]).base == b;
                if i < s.len() - 1 {
                    assert(t[i].base == b);
                }
            }
        }
        assert forall|i: int|
            0 <= i < s.len() implies table_map(s).contains_key((#[trigger] s[i]).base)
            && table_map(s)[s[i].base] == s[i].entries@ by {
            if i < s.len() - 1 {
                assert(t[i] == s[i]);
                assert(s[i].base != s.last().base);
            }
        }
    }
}

/// Appending a frame with a fresh base extends the map by one key.
proof fn lemma_table_map_push(s: Seq<TableFrame>, f: TableFrame)
    ensures
        table_map(s.push(f)) == table_map(s).insert(f.base, f.entries@),
{
    assert(s.push(f).drop_last() =~= s);
    assert(s.push(f).last() == f);
}

/// Replacing the entries of the frame at `i` (keeping its base) updates just
/// that key of the map.
proof fn lemma_table_map_update(s: Seq<TableFrame>, i: int, f: TableFrame)
    requires
        0 <= i < s.len(),
        f.base == s[i].base,
        forall|i: int, j: int|
            0 <= i < s.len() && 0 <= j < s.len() && i != j ==> (#[trigger] s[i]).base != (
            #[trigger] s[j]).base,
    ensures
        table_map(s.update(i, f)) =~= table_map(s).insert(f.base, f.entries@),
    decreases s.len(),
{
    let u = s.update(i, f);
    if i == s.len() - 1 {
        assert(u.drop_last() =~= s.drop_last());
        assert(u.last() == f);
        assert(table_map(u) =~= table_map(s).insert(f.base, f.entries@));
    } else {
        assert(u.drop_last() =~= s.drop_last().update(i, f));
        assert(u.last() == s.last());
        lemma_table_map_update(s.drop_last(), i, f);
        assert(table_map(u) =~= table_map(s.drop_last()).insert(f.base, f.entries@).insert(
            s.last().base,
            s.last().entries@,
        ));
        assert(s.last().base != f.base);
        assert(table_map(s.drop_last()).insert(f.base, f.entries@).insert(
            s.last().base,
            s.last().entries@,
        ) =~= table_map(s).insert(f.base, f.entries@));
    }
}

/// A vector of 512 zeroed entries: the content of a freshly allocated table.
fn zero_entries() -> (r: Vec<u64>)
    ensures
        r@.len() == 512,
        forall|i: int| 0 <= i < 512 ==> r@[i] == 0,
{
    let mut v: Vec<u64> = Vec::new();
    let mut i: usize = 0;
    while i < 512
        invariant
            i <= 512,
            v@.len() == i,
            forall|j: int| 0 <= j < i ==> v@[j] == 0,
        decreases 512 - i,
    {
        v.push(0);
        i += 1;
    }
    v
}

/// A level index always selects one of a table's 512 slots.
proof fn lemma_level_index_bound(v: u64, d: int)
    requires
        0 <= d <= 3,
    ensures
        0 <= level_index(v, d) < 512,
{
    let sh = (39 - 9 * d) as u64;
    assert((v >> sh) & 0x1ff < 512) by (bit_vector);
}

/// Does the vector hold this index?
fn contains_idx(v: &Vec<usize>, x: usize) -> (r: bool)
    ensures
        r <==> exists|j: int| 0 <= j < v@.len() && v@[j] == x,
{
    let n = v.len();
    let mut k: usize = 0;
    while k < n
        invariant
            n == v@.len(),
            k <= n,
            forall|j: int| 0 <= j < k ==> v@[j] != x,
        decreases n - k,
    {
        if v[k] == x {
            return true;
        }
        k += 1;
    }
    false
}

/// Once a walk step fails, every deeper step fails.
proof fn lemma_walk_none_sticks(m: Map<u64, Seq<u64>>, root: u64, v: u64, d1: int, d2: int)
    requires
        0 <= d1 <= d2,
        walk_to(m, root, v, d1) is None,
    ensures
        walk_to(m, root, v, d2) is None,
    decreases d2 - d1,
{
    if d2 > d1 {
        lemma_walk_none_sticks(m, root, v, d1, d2 - 1);
    }
}

impl PageTable {
    /// Index of the owned frame with the given base address.
    fn find_frame(&self, base: u64) -> (r: Option<usize>)
        requires
            self.wf(),
        ensures
            match r {
                Some(i) => i < self.frames_seq().len() && self.frames_seq()[i as int].base == base,
                None => forall|i: int|
                    0 <= i < self.frames_seq().len() ==> (#[trigger] self.frames_seq()[i]).base
                        != base,
            },
    {
        let n = self.frames.len();
        let mut i: usize = 0;
        while i < n
            invariant
                n == self.frames_seq().len(),
                i <= n,
                forall|k: int| 0 <= k < i ==> (#[trigger] self.frames_seq()[k]).base != base,
            decreases n - i,
        {
            if self.frames[i].base == base {
                return Some(i);
            }
            i += 1;
        }
        None
    }

    /// Writes entry `idx` of frame `fi`.
    fn set_entry(&mut self, fi: usize, idx: usize, val: u64)
        requires
            fi < old(self).frames_seq().len(),
            idx < old(self).frames_seq()[fi as int].entries@.len(),
        ensures
            final(self).frames_seq().len() == old(self).frames_seq().len(),
            forall|j: int|
                0 <= j < old(self).frames_seq().len() && j != fi
                    ==> final(self).frames_seq()[j] == old(self).frames_seq()[j],
            final(self).frames_seq()[fi as int].base == old(self).frames_seq()[fi as int].base,
            final(self).frames_seq()[fi as int].entries@ == old(self).frames_seq()[
                fi as int
            ].entries@.update(idx as int, val),
    {
        let fr = &mut self.frames[fi];
        fr.entries.set(idx, val);
    }

    /// Allocates one zeroed frame for an empty top-level table: the root is
    /// exactly the one fresh page-aligned block the provider handed out, and
    /// nothing is mapped. Fails when the provider cannot serve the frame (the
    /// pool is then unchanged), or when the frame's address cannot be packed
    /// into a table entry (the one block allocated lies at or above the
    /// packable limit).
    pub fn new<M: PhysMem>(pmem: &mut M) -> (r: Option<PageTable>)
        requires
            old(pmem).inv(),
        ensures
            final(pmem).inv(),
            match r {
                Some(pt) => {
                    &&& pt.wf()
                    &&& pt.owned_by(final(pmem).allocated())
                    &&& forall|v: u64, t: PageType| pt.leaf_at(v, t) is None
                    &&& pt.spec_root() % 4096 == 0 && pt.spec_root() < PTE_BASE_LIMIT
                    &&& span_set(pt.spec_root() as int, 4096).disjoint(old(pmem).allocated())
                    &&& final(pmem).allocated() == old(pmem).allocated() + span_set(
                        pt.spec_root() as int,
                        4096,
                    )
                },
                None => final(pmem).allocated() == old(pmem).allocated() || (exists|p: int|
                    final(pmem).allocated() == old(pmem).allocated() + span_set(p, 4096) && p
                        >= PTE_BASE_LIMIT),
            },
    {
        let base = match pmem.alloc_phys_zeroed(4096, 4096) {
            None => {
                return None;
            },
            Some(p) => p,
        };
        let b = base.0 as u64;
        if b >= PTE_BASE_LIMIT {
            // The frame's address cannot be packed into a table entry.
            return None;
        }
        let frame = TableFrame { base: b, entries: zero_entries() };
        let mut frames: Vec<TableFrame> = Vec::new();
        frames.push(frame);
        let pt = PageTable { frames };
        proof {
            lemma_table_map_lookup(pt.frames_seq());
            assert forall|v: u64, t: PageType| pt.leaf_at(v, t) is None by {
                assert(pt.frames_seq()[0].base == b);
                assert(pt.mem_map().contains_key(b));
                assert(pt.mem_map()[b] == pt.frames_seq()[0].entries@);
                lemma_level_index_bound(v, 0);
                assert(pt.mem_map()[b][level_index(v, 0) as int] == 0);
                assert(0u64 & PAGE_PRESENT == 0) by (bit_vector);
                assert(walk_to(pt.mem_map(), b, v, 0) == Some(b));
                assert(walk_to(pt.mem_map(), b, v, 1) is None);
                lemma_walk_none_sticks(pt.mem_map(), b, v, 1, levels_of(t) - 1);
            }
        }
        Some(pt)
    }
}

/// A walk is unchanged in a map that still contains every table it visits
/// and agrees on the entries of every table it reads.
proof fn lemma_walk_preserved(
    m1: Map<u64, Seq<u64>>,
    m2: Map<u64, Seq<u64>>,
    root: u64,
    v: u64,
    d: int,
)
    requires
        0 <= d,
        forall|k: int| 0 <= k <= d ==> walk_to(m1, root, v, k) is Some,
        forall|k: int|
            0 <= k <= d ==> m2.contains_key((#[trigger] walk_to(m1, root, v, k))->Some_0),
        forall|k: int|
            0 <= k < d ==> m2[(#[trigger] walk_to(m1, root, v, k))->Some_0] == m1[walk_to(
                m1,
                root,
                v,
                k,
            )->Some_0],
    ensures
        forall|k: int|
            0 <= k <= d ==> #[trigger] walk_to(m2, root, v, k) == walk_to(m1, root, v, k),
    decreases d,
{
    if d == 0 {
        assert(walk_to(m1, root, v, 0) == Some(root));
        assert(walk_to(m2, root, v, 0) == Some(root));
    } else {
        lemma_walk_preserved(m1, m2, root, v, d - 1);
        let t = walk_to(m1, root, v, d - 1)->Some_0;
        assert(walk_to(m2, root, v, d - 1) == Some(t));
        assert(m2[t] == m1[t]);
        assert(walk_to(m2, root, v, d) == walk_to(m1, root, v, d));
    }
}

/// The value entry `j` of frame `b` held in map `m`, reading a frame absent
/// from the map as all-zero (the content every fresh frame starts with).
pub open spec fn entry_before(m: Map<u64, Seq<u64>>, b: u64, j: int) -> u64 {
    if m.contains_key(b) {
        m[b][j]
    } else {
        0
    }
}

/// The bytes of the frames `m_new` holds and `m_old` did not: what the call
/// that created them consumed from the provider.
pub open spec fn fresh_frames_span(m_old: Map<u64, Seq<u64>>, m_new: Map<u64, Seq<u64>>) -> Set<
    int,
> {
    Set::new(
        |a: int|
            exists|b: u64|
                #![trigger m_new.contains_key(b)]
                m_new.contains_key(b) && !m_old.contains_key(b) && span_set(
                    b as int,
                    4096,
                ).contains(a),
    )
}

/// No keys beyond `m_old`'s, no fresh span.
proof fn lemma_fresh_span_same_keys(
    m_old: Map<u64, Seq<u64>>,
    m0: Map<u64, Seq<u64>>,
    m1: Map<u64, Seq<u64>>,
)
    requires
        forall|b: u64| #![auto] m1.contains_key(b) <==> m0.contains_key(b),
    ensures
        fresh_frames_span(m_old, m1) =~= fresh_frames_span(m_old, m0),
{
    assert forall|a: int|
        fresh_frames_span(m_old, m1).contains(a) <==> fresh_frames_span(m_old, m0).contains(
            a,
        ) by {
        if fresh_frames_span(m_old, m1).contains(a) {
            let b = choose|b: u64|
                #![trigger m1.contains_key(b)]
                m1.contains_key(b) && !m_old.contains_key(b) && span_set(b as int, 4096).contains(
                    a,
                );
            assert(m0.contains_key(b));
        }
        if fresh_frames_span(m_old, m0).contains(a) {
            let b = choose|b: u64|
                #![trigger m0.contains_key(b)]
                m0.contains_key(b) && !m_old.contains_key(b) && span_set(b as int, 4096).contains(
                    a,
                );
            assert(m1.contains_key(b));
        }
    }
}

/// One more key, one more frame's span.
proof fn lemma_fresh_span_insert(
    m_old: Map<u64, Seq<u64>>,
    m0: Map<u64, Seq<u64>>,
    m1: Map<u64, Seq<u64>>,
    nb: u64,
)
    requires
        forall|b: u64| #![auto] m1.contains_key(b) <==> (m0.contains_key(b) || b == nb),
        !m0.contains_key(nb),
        !m_old.contains_key(nb),
    ensures
        fresh_frames_span(m_old, m1) =~= fresh_frames_span(m_old, m0) + span_set(nb as int, 4096),
{
    assert forall|a: int|
        fresh_frames_span(m_old, m1).contains(a) <==> (fresh_frames_span(m_old, m0) + span_set(
            nb as int,
            4096,
        )).contains(a) by {
        if fresh_frames_span(m_old, m1).contains(a) {
            let b = choose|b: u64|
                #![trigger m1.contains_key(b)]
                m1.contains_key(b) && !m_old.contains_key(b) && span_set(b as int, 4096).contains(
                    a,
                );
            if b != nb {
                assert(m0.contains_key(b));
                assert(fresh_frames_span(m_old, m0).contains(a));
            }
        }
        if fresh_frames_span(m_old, m0).contains(a) {
            let b = choose|b: u64|
                #![trigger m0.contains_key(b)]
                m0.contains_key(b) && !m_old.contains_key(b) && span_set(b as int, 4096).contains(
                    a,
                );
            assert(m1.contains_key(b));
        }
        if span_set(nb as int, 4096).contains(a) {
            assert(m1.contains_key(nb));
        }
    }
}

/// Fresh frames compose across two steps of growth: what `m2` added over
/// `m0` is what `m1` added over `m0` plus what `m2` added over `m1`.
pub proof fn lemma_fresh_span_compose(
    m0: Map<u64, Seq<u64>>,
    m1: Map<u64, Seq<u64>>,
    m2: Map<u64, Seq<u64>>,
)
    requires
        m0.dom().subset_of(m1.dom()),
        m1.dom().subset_of(m2.dom()),
    ensures
        fresh_frames_span(m0, m2) =~= fresh_frames_span(m0, m1) + fresh_frames_span(m1, m2),
{
    assert forall|a: int|
        fresh_frames_span(m0, m2).contains(a) <==> (fresh_frames_span(m0, m1) + fresh_frames_span(
            m1,
            m2,
        )).contains(a) by {
        if fresh_frames_span(m0, m2).contains(a) {
            let b = choose|b: u64|
                #![trigger m2.contains_key(b)]
                m2.contains_key(b) && !m0.contains_key(b) && span_set(b as int, 4096).contains(a);
            if m1.contains_key(b) {
                assert(fresh_frames_span(m0, m1).contains(a));
            } else {
                assert(fresh_frames_span(m1, m2).contains(a));
            }
        }
        if fresh_frames_span(m0, m1).contains(a) {
            let b = choose|b: u64|
                #![trigger m1.contains_key(b)]
                m1.contains_key(b) && !m0.contains_key(b) && span_set(b as int, 4096).contains(a);
            assert(m2.dom().contains(b));
            assert(fresh_frames_span(m0, m2).contains(a));
        }
        if fresh_frames_span(m1, m2).contains(a) {
            let b = choose|b: u64|
                #![trigger m2.contains_key(b)]
                m2.contains_key(b) && !m1.contains_key(b) && span_set(b as int, 4096).contains(a);
            assert(!m0.dom().contains(b));
            assert(fresh_frames_span(m0, m2).contains(a));
        }
    }
}

/// Every entry of `m_new` that differs from its `m_old` value (frames absent
/// from `m_old` reading as all-zero) sits on the walk path of `v` in `m_new`
/// at some depth below `bound`, at that depth's index. A non-leaf change
/// holds the link to the next walk step — a frame `m_old` did not hold — with
/// exactly the user, writable and present bits; a change at `leaf_level`
/// holds `raw` and happens only when `leaf_done`.
#[verifier::opaque]
pub open spec fn writes_confined(
    m_old: Map<u64, Seq<u64>>,
    m_new: Map<u64, Seq<u64>>,
    root: u64,
    v: u64,
    bound: int,
    leaf_level: int,
    leaf_done: bool,
    raw: u64,
) -> bool {
    forall|b: u64, j: int|
        #![trigger m_new[b][j]]
        m_new.contains_key(b) && 0 <= j < 512 && m_new[b][j] != entry_before(m_old, b, j)
            ==> exists|d: int|
            0 <= d < bound && #[trigger] walk_to(m_new, root, v, d) == Some(b) && j == level_index(
                v,
                d,
            ) && (if d == leaf_level {
                leaf_done && m_new[b][j] == raw
            } else {
                m_new[b][j] == (walk_to(m_new, root, v, d + 1)->Some_0 | PAGE_USER | PAGE_WRITE
                    | PAGE_PRESENT) && !m_old.contains_key(walk_to(m_new, root, v, d + 1)->Some_0)
            })
}

/// Confinement weakens with a larger depth bound and a freer leaf flag: the
/// recorded witnesses stay below the old bound, none of them at the leaf.
proof fn lemma_confined_weaken(
    m_old: Map<u64, Seq<u64>>,
    m_new: Map<u64, Seq<u64>>,
    root: u64,
    v: u64,
    b1: int,
    b2: int,
    leaf_level: int,
    leaf_done: bool,
    raw: u64,
)
    requires
        writes_confined(m_old, m_new, root, v, b1, leaf_level, false, raw),
        b1 <= b2,
        b1 <= leaf_level + 1,
    ensures
        writes_confined(m_old, m_new, root, v, b2, leaf_level, leaf_done, raw),
{
    reveal(writes_confined);
    assert forall|b: u64, j: int|
        m_new.contains_key(b) && 0 <= j < 512 && m_new[b][j] != entry_before(
            m_old,
            b,
            j,
        ) implies exists|d: int|
        0 <= d < b2 && #[trigger] walk_to(m_new, root, v, d) == Some(b) && j == level_index(v, d)
            && (if d == leaf_level {
            leaf_done && m_new[b][j] == raw
        } else {
            m_new[b][j] == (walk_to(m_new, root, v, d + 1)->Some_0 | PAGE_USER | PAGE_WRITE
                | PAGE_PRESENT) && !m_old.contains_key(walk_to(m_new, root, v, d + 1)->Some_0)
        }) by {
        let d = choose|d: int|
            0 <= d < b1 && #[trigger] walk_to(m_new, root, v, d) == Some(b) && j == level_index(
                v,
                d,
            ) && (if d == leaf_level {
                false && m_new[b][j] == raw
            } else {
                m_new[b][j] == (walk_to(m_new, root, v, d + 1)->Some_0 | PAGE_USER | PAGE_WRITE
                    | PAGE_PRESENT) && !m_old.contains_key(walk_to(m_new, root, v, d + 1)->Some_0)
            });
        assert(d != leaf_level);
    }
}

/// A map is confined against itself: no entry changed, so there is nothing
/// to justify.
proof fn lemma_confined_refl(
    m: Map<u64, Seq<u64>>,
    root: u64,
    v: u64,
    bound: int,
    leaf_level: int,
    leaf_done: bool,
    raw: u64,
)
    ensures
        writes_confined(m, m, root, v, bound, leaf_level, leaf_done, raw),
{
    reveal(writes_confined);
}

/// Confinement at a failure exit: whether the table is still untouched or
/// carries installs confined below the current depth, it is confined under
/// the full level bound.
proof fn lemma_confined_at_exit(
    m_old: Map<u64, Seq<u64>>,
    m_cur: Map<u64, Seq<u64>>,
    root: u64,
    v: u64,
    depth: int,
    leaf_level: int,
    raw: u64,
    untouched: bool,
)
    requires
        0 <= depth <= leaf_level + 1,
        untouched ==> m_cur == m_old,
        !untouched ==> writes_confined(m_old, m_cur, root, v, depth, leaf_level, false, raw),
    ensures
        writes_confined(m_old, m_cur, root, v, leaf_level + 1, leaf_level, false, raw),
{
    if untouched {
        lemma_confined_refl(m_old, root, v, leaf_level + 1, leaf_level, false, raw);
    } else {
        lemma_confined_weaken(
            m_old,
            m_cur,
            root,
            v,
            depth,
            leaf_level + 1,
            leaf_level,
            false,
            raw,
        );
    }
}

/// Extends confinement over one intermediate-table install: the one changed
/// entry is the link at the walk's current step, pointing at the fresh
/// all-zero frame the map gains.
proof fn lemma_confined_extend_link(
    m_old: Map<u64, Seq<u64>>,
    m0: Map<u64, Seq<u64>>,
    m1: Map<u64, Seq<u64>>,
    root: u64,
    v: u64,
    depth: int,
    leaf_level: int,
    raw: u64,
    wb: u64,
    wj: int,
    fresh: u64,
)
    requires
        writes_confined(m_old, m0, root, v, depth, leaf_level, false, raw),
        0 <= depth,
        depth != leaf_level,
        0 <= wj < 512,
        !m0.contains_key(fresh),
        !m_old.contains_key(fresh),
        forall|bb: u64| #![auto] m1.contains_key(bb) <==> (m0.contains_key(bb) || bb == fresh),
        forall|bb: u64| #![auto] m0.contains_key(bb) && bb != wb ==> m1[bb] == m0[bb],
        m0.contains_key(wb),
        m0[wb].len() == 512,
        m1[wb] == m0[wb].update(wj, fresh | PAGE_USER | PAGE_WRITE | PAGE_PRESENT),
        forall|j: int| 0 <= j < 512 ==> (#[trigger] m1[fresh][j]) == 0,
        wj == level_index(v, depth),
        walk_to(m1, root, v, depth) == Some(wb),
        walk_to(m1, root, v, depth + 1) == Some(fresh),
        forall|k: int| 0 <= k <= depth ==> #[trigger] walk_to(m1, root, v, k) == walk_to(
            m0,
            root,
            v,
            k,
        ),
    ensures
        writes_confined(m_old, m1, root, v, depth + 1, leaf_level, false, raw),
{
    reveal(writes_confined);
    assert forall|bb: u64, j: int|
        m1.contains_key(bb) && 0 <= j < 512 && m1[bb][j] != entry_before(
            m_old,
            bb,
            j,
        ) implies exists|d: int|
        0 <= d < depth + 1 && #[trigger] walk_to(m1, root, v, d) == Some(bb) && j == level_index(
            v,
            d,
        ) && (if d == leaf_level {
            false && m1[bb][j] == raw
        } else {
            m1[bb][j] == (walk_to(m1, root, v, d + 1)->Some_0 | PAGE_USER | PAGE_WRITE
                | PAGE_PRESENT) && !m_old.contains_key(walk_to(m1, root, v, d + 1)->Some_0)
        }) by {
        if bb == fresh {
            assert(m1[bb][j] == 0);
            assert(entry_before(m_old, bb, j) == 0);
        } else if bb == wb && j == wj {
            let d = depth;
            assert(walk_to(m1, root, v, d) == Some(bb));
            assert(m1[bb][j] == (walk_to(m1, root, v, d + 1)->Some_0 | PAGE_USER | PAGE_WRITE
                | PAGE_PRESENT));
        } else {
            assert(m1[bb][j] == m0[bb][j]);
            let d = choose|d: int|
                0 <= d < depth && #[trigger] walk_to(m0, root, v, d) == Some(bb) && j
                    == level_index(v, d) && (if d == leaf_level {
                    false && m0[bb][j] == raw
                } else {
                    m0[bb][j] == (walk_to(m0, root, v, d + 1)->Some_0 | PAGE_USER | PAGE_WRITE
                        | PAGE_PRESENT) && !m_old.contains_key(walk_to(m0, root, v, d + 1)->Some_0)
                });
            assert(walk_to(m1, root, v, d) == walk_to(m0, root, v, d));
            assert(walk_to(m1, root, v, d + 1) == walk_to(m0, root, v, d + 1));
        }
    }
}

/// Extends confinement over the final leaf write: the one changed entry is
/// the leaf slot of the walk, holding `raw`.
proof fn lemma_confined_extend_leaf(
    m_old: Map<u64, Seq<u64>>,
    m0: Map<u64, Seq<u64>>,
    m1: Map<u64, Seq<u64>>,
    root: u64,
    v: u64,
    leaf_level: int,
    raw: u64,
    wb: u64,
    wj: int,
)
    requires
        writes_confined(m_old, m0, root, v, leaf_level, leaf_level, false, raw),
        0 <= leaf_level,
        0 <= wj < 512,
        forall|bb: u64| #![auto] m1.contains_key(bb) <==> m0.contains_key(bb),
        forall|bb: u64| #![auto] m0.contains_key(bb) && bb != wb ==> m1[bb] == m0[bb],
        m0.contains_key(wb),
        m0[wb].len() == 512,
        m1[wb] == m0[wb].update(wj, raw),
        wj == level_index(v, leaf_level),
        walk_to(m1, root, v, leaf_level) == Some(wb),
        forall|k: int| 0 <= k <= leaf_level ==> #[trigger] walk_to(m1, root, v, k) == walk_to(
            m0,
            root,
            v,
            k,
        ),
    ensures
        writes_confined(m_old, m1, root, v, leaf_level + 1, leaf_level, true, raw),
{
    reveal(writes_confined);
    assert forall|bb: u64, j: int|
        m1.contains_key(bb) && 0 <= j < 512 && m1[bb][j] != entry_before(
            m_old,
            bb,
            j,
        ) implies exists|d: int|
        0 <= d < leaf_level + 1 && #[trigger] walk_to(m1, root, v, d) == Some(bb) && j
            == level_index(v, d) && (if d == leaf_level {
            true && m1[bb][j] == raw
        } else {
            m1[bb][j] == (walk_to(m1, root, v, d + 1)->Some_0 | PAGE_USER | PAGE_WRITE
                | PAGE_PRESENT) && !m_old.contains_key(walk_to(m1, root, v, d + 1)->Some_0)
        }) by {
        if bb == wb && j == wj {
            let d = leaf_level;
            assert(walk_to(m1, root, v, d) == Some(bb));
            assert(m1[bb][j] == raw);
        } else {
            assert(m1[bb][j] == m0[bb][j]);
            let d = choose|d: int|
                0 <= d < leaf_level && #[trigger] walk_to(m0, root, v, d) == Some(bb) && j
                    == level_index(v, d) && (if d == leaf_level {
                    false && m0[bb][j] == raw
                } else {
                    m0[bb][j] == (walk_to(m0, root, v, d + 1)->Some_0 | PAGE_USER | PAGE_WRITE
                        | PAGE_PRESENT) && !m_old.contains_key(walk_to(m0, root, v, d + 1)->Some_0)
                });
            assert(walk_to(m1, root, v, d) == walk_to(m0, root, v, d));
            assert(walk_to(m1, root, v, d + 1) == walk_to(m0, root, v, d + 1));
        }
    }
}

impl PageTable {
    /// Maps `vaddr` at granularity `page_type`, installing `raw` verbatim as
    /// the leaf entry. Walks the levels from the root; a missing intermediate
    /// table is created zeroed (present, writable, user-accessible) when
    /// `add` allows it, and a present leaf is only overwritten when `update`
    /// allows it. On the hardware the overwrite of a live mapping is followed
    /// by a TLB invalidation when `invlpg_on_update` asks for one; that cache
    /// side effect is outside this model, so the flag decides nothing here.
    ///
    /// On success the leaf entry for `vaddr` reads back as exactly `raw`; on
    /// failure that leaf is unchanged. When the walk already reaches the leaf
    /// table through distinct frames, the call succeeds unless it would
    /// overwrite a present leaf without permission, and that refusal changes
    /// nothing at all.
    #[allow(unused_variables)]
    #[verifier::rlimit(100)]
    pub fn map_raw<M: PhysMem>(
        &mut self,
        phys_mem: &mut M,
        vaddr: VirtAddr,
        page_type: PageType,
        raw: u64,
        add: bool,
        update: bool,
        invlpg_on_update: bool,
    ) -> (r: Option<()>)
        requires
            old(self).wf(),
            old(phys_mem).inv(),
            old(self).owned_by(old(phys_mem).allocated()),
        ensures
            final(self).wf(),
            final(phys_mem).inv(),
            final(self).owned_by(final(phys_mem).allocated()),
            final(self).spec_root() == old(self).spec_root(),
            r is Some ==> final(self).leaf_at(vaddr.0, page_type) == Some(raw),
            r is None ==> final(self).leaf_at(vaddr.0, page_type) == old(self).leaf_at(
                vaddr.0,
                page_type,
            ),
            old(self).path_ok(vaddr.0, page_type) && !old(self).leaf_present(
                vaddr.0,
                page_type,
            ) ==> r is Some,
            old(self).path_ok(vaddr.0, page_type) && old(self).leaf_present(
                vaddr.0,
                page_type,
            ) && update ==> r is Some,
            old(self).leaf_present(vaddr.0, page_type) && !update ==> r is None && *final(self)
                == *old(self) && *final(phys_mem) == *old(phys_mem),
            !add && r is None ==> *final(self) == *old(self) && *final(phys_mem) == *old(
                phys_mem,
            ),
            !add && walk_to(
                old(self).mem_map(),
                old(self).spec_root(),
                vaddr.0,
                levels_of(page_type) - 1,
            ) is None ==> r is None,
            old(self).path_ok(vaddr.0, page_type) ==> *final(phys_mem) == *old(phys_mem),
            old(self).mem_map().dom().subset_of(final(self).mem_map().dom()),
            r is Some ==> final(phys_mem).allocated() == old(phys_mem).allocated()
                + fresh_frames_span(old(self).mem_map(), final(self).mem_map()),
            r is None ==> final(phys_mem).allocated() == old(phys_mem).allocated()
                + fresh_frames_span(old(self).mem_map(), final(self).mem_map()) || (exists|p: int|
                final(phys_mem).allocated() == old(phys_mem).allocated() + fresh_frames_span(
                    old(self).mem_map(),
                    final(self).mem_map(),
                ) + span_set(p, 4096) && p >= PTE_BASE_LIMIT),
            writes_confined(
                old(self).mem_map(),
                final(self).mem_map(),
                old(self).spec_root(),
                vaddr.0,
                levels_of(page_type),
                levels_of(page_type) - 1,
                r is Some,
                raw,
            ),
    {
        let v = vaddr.0;
        let ghost pt = page_type;
        let levels: usize = match page_type {
            PageType::Page4K => 4,
            PageType::Page2M => 3,
            PageType::Page1G => 2,
        };
        let mut depth: usize = 0;
        let mut cur: usize = 0;
        let mut visited: Vec<usize> = Vec::new();
        visited.push(0);
        let ghost mut installed: bool = false;
        proof {
            lemma_table_map_lookup(self.frames_seq());
            assert(self.mem_map().contains_key(self.spec_root()));
            assert(walk_to(self.mem_map(), self.spec_root(), v, 0) == Some(self.spec_root()));
            assert(writes_confined(
                old(self).mem_map(),
                self.mem_map(),
                self.spec_root(),
                v,
                0,
                levels_of(pt) - 1,
                false,
                raw,
            )) by {
                reveal(writes_confined);
            }
            assert forall|a: int|
                !fresh_frames_span(old(self).mem_map(), self.mem_map()).contains(a) by {
                if fresh_frames_span(old(self).mem_map(), self.mem_map()).contains(a) {
                    let b = choose|b: u64|
                        #![trigger self.mem_map().contains_key(b)]
                        self.mem_map().contains_key(b) && !old(self).mem_map().contains_key(b)
                            && span_set(b as int, 4096).contains(a);
                }
            }
            assert(phys_mem.allocated() =~= old(phys_mem).allocated() + fresh_frames_span(
                old(self).mem_map(),
                self.mem_map(),
            ));
        }
        loop
            invariant
                self.wf(),
                old(self).wf(),
                phys_mem.inv(),
                self.owned_by(phys_mem.allocated()),
                self.spec_root() == old(self).spec_root(),
                levels == levels_of(pt),
                pt == page_type,
                v == vaddr.0,
                depth < levels,
                visited@.len() == depth + 1,
                visited@[0] == 0,
                forall|k: int| 0 <= k <= depth ==> 0 <= #[trigger] visited@[k]
                    < self.frames_seq().len(),
                cur == visited@[depth as int],
                forall|k1: int, k2: int|
                    0 <= k1 < k2 <= depth ==> visited@[k1] != visited@[k2],
                forall|k: int|
                    #![trigger walk_to(self.mem_map(), self.spec_root(), v, k)]
                    0 <= k <= depth ==> walk_to(self.mem_map(), self.spec_root(), v, k) == Some(
                        self.frames_seq()[visited@[k] as int].base,
                    ) && 0 <= visited@[k] < self.frames_seq().len(),
                !installed ==> *self == *old(self) && *phys_mem == *old(phys_mem),
                installed ==> add,
                installed ==> old(self).leaf_at(v, pt) is None && walk_to(
                    old(self).mem_map(),
                    old(self).spec_root(),
                    v,
                    levels_of(pt) - 1,
                ) is None,
                installed ==> forall|j: int|
                    0 <= j < 512 ==> self.frames_seq()[cur as int].entries@[j] == 0,
                installed ==> !old(self).mem_map().contains_key(
                    self.frames_seq()[cur as int].base,
                ),
                old(self).frames_seq().len() <= self.frames_seq().len(),
                forall|i: int|
                    0 <= i < old(self).frames_seq().len() ==> (#[trigger] self.frames_seq()[
                    i]).base == old(self).frames_seq()[i].base,
                old(self).mem_map().dom().subset_of(self.mem_map().dom()),
                phys_mem.allocated() == old(phys_mem).allocated() + fresh_frames_span(
                    old(self).mem_map(),
                    self.mem_map(),
                ),
                writes_confined(
                    old(self).mem_map(),
                    self.mem_map(),
                    self.spec_root(),
                    v,
                    depth as int,
                    levels_of(pt) - 1,
                    false,
                    raw,
                ),
            decreases levels - depth,
        {
            proof {
                lemma_level_index_bound(v, depth as int);
                lemma_table_map_lookup(self.frames_seq());
            }
            let shift: u64 = 39 - 9 * (depth as u64);
            let index: usize = ((v >> shift) & 0x1ff) as usize;
            let ghost m0 = self.mem_map();
            let ent = self.frames[cur].entries[index];
            proof {
                assert(index as u64 == level_index(v, depth as int));
                assert(m0[self.frames_seq()[cur as int].base] == self.frames_seq()[
                    cur as int
                ].entries@);
                assert(ent == m0[self.frames_seq()[cur as int].base][index as int]);
            }
            if depth != levels - 1 && ent & PAGE_PRESENT == 0 {
                proof {
                    // The walk is blocked here, so no complete path existed.
                    assert(walk_to(m0, self.spec_root(), v, depth as int) == Some(
                        self.frames_seq()[cur as int].base,
                    ));
                    assert(walk_to(m0, self.spec_root(), v, depth as int + 1) is None);
                    lemma_walk_none_sticks(
                        m0,
                        self.spec_root(),
                        v,
                        depth as int + 1,
                        levels_of(pt) - 1,
                    );
                    assert(self.leaf_at(v, pt) is None);
                    assert(walk_to(
                        old(self).mem_map(),
                        old(self).spec_root(),
                        v,
                        levels_of(pt) - 1,
                    ) is None) by {
                        if installed {
                            assert(walk_to(
                                old(self).mem_map(),
                                old(self).spec_root(),
                                v,
                                levels_of(pt) - 1,
                            ) is None);
                        } else {
                            assert(walk_to(m0, self.spec_root(), v, levels_of(pt) - 1) is None);
                            assert(*self == *old(self));
                            assert(self.mem_map() == old(self).mem_map());
                            assert(self.spec_root() == old(self).spec_root());
                        }
                    }
                    assert(!old(self).path_ok(v, pt));
                }
                if !add {
                    proof {
                        if !installed {
                            assert(*self == *old(self));
                        }
                        lemma_confined_at_exit(
                            old(self).mem_map(),
                            self.mem_map(),
                            self.spec_root(),
                            v,
                            depth as int,
                            levels_of(pt) - 1,
                            raw,
                            !installed,
                        );
                    }
                    return None;
                }
                let nb = match phys_mem.alloc_phys_zeroed(4096, 4096) {
                    None => {
                        proof {
                        if !installed {
                            assert(*self == *old(self));
                        }
                        lemma_confined_at_exit(
                            old(self).mem_map(),
                            self.mem_map(),
                            self.spec_root(),
                            v,
                            depth as int,
                            levels_of(pt) - 1,
                            raw,
                            !installed,
                        );
                    }
                    return None;
                    },
                    Some(p) => p,
                };
                let b = nb.0 as u64;
                if b >= PTE_BASE_LIMIT {
                    // The frame's address cannot be packed into an entry; the
                    // one block just allocated is the call's only leak.
                    proof {
                        assert(phys_mem.allocated() =~= old(phys_mem).allocated()
                            + fresh_frames_span(old(self).mem_map(), self.mem_map()) + span_set(
                            b as int,
                            4096,
                        ));
                        assert(b as int >= PTE_BASE_LIMIT);
                    }
                    proof {
                        if !installed {
                            assert(*self == *old(self));
                        }
                        lemma_confined_at_exit(
                            old(self).mem_map(),
                            self.mem_map(),
                            self.spec_root(),
                            v,
                            depth as int,
                            levels_of(pt) - 1,
                            raw,
                            !installed,
                        );
                    }
                    return None;
                }
                proof {
                    assert forall|i: int|
                        0 <= i < self.frames_seq().len() implies (#[trigger] self.frames_seq()[
                        i]).base != b by {
                        let bi = self.frames_seq()[i].base;
                        assert(span_set(bi as int, 4096).contains(bi as int));
                        if bi == b {
                            assert(span_set(b as int, 4096).contains(bi as int));
                        }
                    }
                }
                let ghost frames0 = self.frames_seq();
                self.frames.push(TableFrame { base: b, entries: zero_entries() });
                let newent = b | PAGE_USER | PAGE_WRITE | PAGE_PRESENT;
                self.set_entry(cur, index, newent);
                let fresh_idx = self.frames.len() - 1;
                proof {
                    assert((b | 7u64) & PTE_ADDR_MASK == b && (b | 7u64) & PAGE_PRESENT != 0 && (b
                        | 7u64) == (b | PAGE_USER | PAGE_WRITE | PAGE_PRESENT)) by (bit_vector)
                        requires
                            b % 4096 == 0 && b < 0x10000000000000u64,
                    ;
                    let s1 = frames0.push(TableFrame { base: b, entries: self.frames_seq()[
                        fresh_idx as int
                    ].entries });
                    let upd = TableFrame {
                        base: frames0[cur as int].base,
                        entries: self.frames_seq()[cur as int].entries,
                    };
                    assert(self.frames_seq() =~= s1.update(cur as int, upd));
                    lemma_table_map_push(frames0, s1.last());
                    lemma_table_map_update(s1, cur as int, upd);
                    let m1 = self.mem_map();
                    assert(m1 =~= m0.insert(b, s1.last().entries@).insert(
                        upd.base,
                        upd.entries@,
                    ));
                    lemma_table_map_lookup(self.frames_seq());
                    assert forall|k: int| 0 <= k <= depth as int implies {
                        let t = (#[trigger] walk_to(m0, self.spec_root(), v, k))->Some_0;
                        m1.contains_key(t) && (k < depth as int ==> m1[t] == m0[t])
                    } by {
                        let bk = frames0[visited@[k] as int].base;
                        assert(walk_to(m0, self.spec_root(), v, k) == Some(bk));
                        assert(m0.contains_key(bk));
                        assert(bk != b);
                        if k < depth as int {
                            assert(visited@[k] != visited@[depth as int]);
                            assert(bk != upd.base);
                        }
                    }
                    lemma_walk_preserved(m0, m1, self.spec_root(), v, depth as int);
                    assert(walk_to(m1, self.spec_root(), v, depth as int + 1) == Some(b)) by {
                        assert(walk_to(m1, self.spec_root(), v, depth as int) == Some(upd.base));
                        assert(m1[upd.base] == upd.entries@);
                        assert(m1[upd.base][index as int] == newent);
                        assert(m1.contains_key(b));
                    }
                    let old_map = old(self).mem_map();
                    let root0 = self.spec_root();
                    assert(!old_map.contains_key(b)) by {
                        lemma_table_map_lookup(old(self).frames_seq());
                        if old_map.contains_key(b) {
                            let i = choose|i: int|
                                0 <= i < old(self).frames_seq().len() && (
                                #[trigger] old(self).frames_seq()[i]).base == b;
                            assert(frames0[i].base == b);
                        }
                    }
                    assert(writes_confined(old_map, m0, root0, v, depth as int, levels_of(pt) - 1, false, raw));
                    assert(!m0.contains_key(b));
                    assert(forall|bb: u64|
                        #![auto]
                        m1.contains_key(bb) <==> (m0.contains_key(bb) || bb == b));
                    assert(forall|bb: u64| #![auto] m0.contains_key(bb) && bb != upd.base ==> m1[bb] == m0[bb]);
                    assert(m1[upd.base] == m0[upd.base].update(index as int, newent));
                    assert(forall|j: int| 0 <= j < 512 ==> (#[trigger] m1[b][j]) == 0);
                    lemma_confined_extend_link(
                        old_map,
                        m0,
                        m1,
                        root0,
                        v,
                        depth as int,
                        levels_of(pt) - 1,
                        raw,
                        upd.base,
                        index as int,
                        b,
                    );
                    lemma_fresh_span_insert(old_map, m0, m1, b);
                    assert(phys_mem.allocated() =~= old(phys_mem).allocated() + fresh_frames_span(
                        old_map,
                        m1,
                    ));
                    if !installed {
                        installed = true;
                    }
                }
                visited.push(fresh_idx);
                cur = fresh_idx;
                depth += 1;
                continue;
            }
            if depth == levels - 1 {
                if ent & PAGE_PRESENT == 0 || update {
                    proof {
                        if !add {
                            assert(*self == *old(self));
                            assert(walk_to(
                                old(self).mem_map(),
                                old(self).spec_root(),
                                v,
                                levels_of(pt) - 1,
                            ) is Some);
                        }
                        if !update && !installed {
                            assert(*self == *old(self));
                            assert(old(self).leaf_at(v, pt) == Some(ent));
                        }
                    }
                    let ghost frames0 = self.frames_seq();
                    self.set_entry(cur, index, raw);
                    proof {
                        let upd = TableFrame {
                            base: frames0[cur as int].base,
                            entries: self.frames_seq()[cur as int].entries,
                        };
                        assert(self.frames_seq() =~= frames0.update(cur as int, upd));
                        lemma_table_map_update(frames0, cur as int, upd);
                        let m1 = self.mem_map();
                        assert(m1 =~= m0.insert(upd.base, upd.entries@));
                        lemma_table_map_lookup(self.frames_seq());
                        assert forall|k: int| 0 <= k <= depth as int implies {
                            let t = (#[trigger] walk_to(m0, self.spec_root(), v, k))->Some_0;
                            m1.contains_key(t) && (k < depth as int ==> m1[t] == m0[t])
                        } by {
                            let bk = frames0[visited@[k] as int].base;
                            assert(walk_to(m0, self.spec_root(), v, k) == Some(bk));
                            assert(m0.contains_key(bk));
                            if k < depth as int {
                                assert(visited@[k] != visited@[depth as int]);
                                assert(bk != upd.base);
                            }
                        }
                        lemma_walk_preserved(m0, m1, self.spec_root(), v, depth as int);
                        assert(m1[upd.base] == upd.entries@);
                        assert(m1[upd.base][index as int] == raw);
                        assert(self.leaf_at(v, pt) == Some(raw));
                        let old_map = old(self).mem_map();
                        let root0 = self.spec_root();
                        assert(old_map.dom().subset_of(m1.dom()));
                        assert(writes_confined(
                            old_map,
                            m0,
                            root0,
                            v,
                            depth as int,
                            levels_of(pt) - 1,
                            false,
                            raw,
                        ));
                        assert(forall|bb: u64| #![auto] m1.contains_key(bb) <==> m0.contains_key(bb));
                        assert(forall|bb: u64|
                            #![auto]
                            m0.contains_key(bb) && bb != upd.base ==> m1[bb] == m0[bb]);
                        assert(m1[upd.base] == m0[upd.base].update(index as int, raw));
                        lemma_confined_extend_leaf(
                            old_map,
                            m0,
                            m1,
                            root0,
                            v,
                            levels_of(pt) - 1,
                            raw,
                            upd.base,
                            index as int,
                        );
                        lemma_fresh_span_same_keys(old_map, m0, m1);
                        assert(phys_mem.allocated() =~= old(phys_mem).allocated()
                            + fresh_frames_span(old_map, m1));
                    }
                    return Some(());
                } else {
                    proof {
                        assert(!installed) by {
                            if installed {
                                assert(self.frames_seq()[cur as int].entries@[index as int] == 0);
                                assert(0u64 & PAGE_PRESENT == 0) by (bit_vector);
                            }
                        }
                        assert(old(self).leaf_at(v, pt) == Some(ent));
                    }
                    proof {
                        if !installed {
                            assert(*self == *old(self));
                        }
                        lemma_confined_at_exit(
                            old(self).mem_map(),
                            self.mem_map(),
                            self.spec_root(),
                            v,
                            depth as int,
                            levels_of(pt) - 1,
                            raw,
                            !installed,
                        );
                    }
                    return None;
                }
            }
            // Follow the present entry to the next table.
            let target = ent & PTE_ADDR_MASK;
            proof {
                assert(!installed) by {
                    if installed {
                        assert(self.frames_seq()[cur as int].entries@[index as int] == 0);
                        assert(0u64 & PAGE_PRESENT == 0) by (bit_vector);
                    }
                }
            }
            let nxt = match self.find_frame(target) {
                None => {
                    proof {
                        assert(walk_to(m0, self.spec_root(), v, depth as int + 1) is None);
                        lemma_walk_none_sticks(
                            m0,
                            self.spec_root(),
                            v,
                            depth as int + 1,
                            levels_of(pt) - 1,
                        );
                    }
                    proof {
                        if !installed {
                            assert(*self == *old(self));
                        }
                        lemma_confined_at_exit(
                            old(self).mem_map(),
                            self.mem_map(),
                            self.spec_root(),
                            v,
                            depth as int,
                            levels_of(pt) - 1,
                            raw,
                            !installed,
                        );
                    }
                    return None;
                },
                Some(j) => j,
            };
            proof {
                assert(walk_to(m0, self.spec_root(), v, depth as int + 1) == Some(
                    self.frames_seq()[nxt as int].base,
                ));
            }
            // A table revisiting a frame already on this walk would make the
            // structure cyclic; refuse rather than walk in a circle.
            if contains_idx(&visited, nxt) {
                proof {
                    let k = choose|j: int| 0 <= j < visited@.len() && visited@[j] == nxt;
                    assert(walk_to(m0, self.spec_root(), v, k) == Some(
                        self.frames_seq()[visited@[k] as int].base,
                    ));
                    assert(walk_to(m0, self.spec_root(), v, k) == walk_to(
                        m0,
                        self.spec_root(),
                        v,
                        depth as int + 1,
                    ));
                    assert(*self == *old(self));
                    assert(k < depth as int + 1 && depth as int + 1 <= levels_of(pt) - 1);
                    assert(!old(self).path_ok(v, pt));
                }
                proof {
                        if !installed {
                            assert(*self == *old(self));
                        }
                        lemma_confined_at_exit(
                            old(self).mem_map(),
                            self.mem_map(),
                            self.spec_root(),
                            v,
                            depth as int,
                            levels_of(pt) - 1,
                            raw,
                            !installed,
                        );
                    }
                    return None;
            }
            proof {
                lemma_confined_weaken(
                    old(self).mem_map(),
                    self.mem_map(),
                    self.spec_root(),
                    v,
                    depth as int,
                    depth as int + 1,
                    levels_of(pt) - 1,
                    false,
                    raw,
                );
            }
            visited.push(nxt);
            cur = nxt;
            depth += 1;
        }
    }

    /// How many table frames the table owns; the root is frame 0.
    pub fn frame_count(&self) -> (r: usize)
        ensures
            r == self.frames_seq().len(),
    {
        self.frames.len()
    }

    /// Physical base address of owned frame `i`.
    pub fn frame_base(&self, i: usize) -> (r: u64)
        requires
            i < self.frames_seq().len(),
        ensures
            r == self.frames_seq()[i as int].base,
    {
        self.frames[i].base
    }

    /// The entries of owned frame `i`: what materializing the table writes
    /// into the physical frame the hardware will walk.
    pub fn frame_entries(&self, i: usize) -> (r: &Vec<u64>)
        requires
            i < self.frames_seq().len(),
        ensures
            r@ == self.frames_seq()[i as int].entries@,
    {
        &self.frames[i].entries
    }

    /// Physical address of the top-level table: what an address-space switch
    /// loads into the page-table base register.
    pub fn root_addr(&self) -> (r: u64)
        requires
            self.wf(),
        ensures
            r == self.spec_root(),
    {
        self.frames[0].base
    }

    /// Reads back the raw leaf entry installed for `vaddr` at granularity
    /// `page_type`, if the walk reaches the leaf table.
    pub fn read_raw(&self, vaddr: VirtAddr, page_type: PageType) -> (r: Option<u64>)
        requires
            self.wf(),
        ensures
            r == self.leaf_at(vaddr.0, page_type),
    {
        let v = vaddr.0;
        let ghost pt = page_type;
        let levels: usize = match page_type {
            PageType::Page4K => 4,
            PageType::Page2M => 3,
            PageType::Page1G => 2,
        };
        let mut depth: usize = 0;
        let mut cur: usize = 0;
        proof {
            lemma_table_map_lookup(self.frames_seq());
            assert(self.mem_map().contains_key(self.spec_root()));
            assert(walk_to(self.mem_map(), self.spec_root(), v, 0) == Some(self.spec_root()));
        }
        loop
            invariant
                self.wf(),
                levels == levels_of(pt),
                pt == page_type,
                v == vaddr.0,
                depth < levels,
                cur < self.frames_seq().len(),
                walk_to(self.mem_map(), self.spec_root(), v, depth as int) == Some(
                    self.frames_seq()[cur as int].base,
                ),
            decreases levels - depth,
        {
            proof {
                lemma_level_index_bound(v, depth as int);
                lemma_table_map_lookup(self.frames_seq());
            }
            let shift: u64 = 39 - 9 * (depth as u64);
            let index: usize = ((v >> shift) & 0x1ff) as usize;
            let ent = self.frames[cur].entries[index];
            proof {
                assert(index as u64 == level_index(v, depth as int));
                assert(ent == self.mem_map()[self.frames_seq()[cur as int].base][index as int]);
            }
            if depth == levels - 1 {
                return Some(ent);
            }
            if ent & PAGE_PRESENT == 0 {
                proof {
                    assert(walk_to(self.mem_map(), self.spec_root(), v, depth as int + 1) is None);
                    lemma_walk_none_sticks(
                        self.mem_map(),
                        self.spec_root(),
                        v,
                        depth as int + 1,
                        levels_of(pt) - 1,
                    );
                }
                return None;
            }
            let target = ent & PTE_ADDR_MASK;
            let nxt = match self.find_frame(target) {
                None => {
                    proof {
                        assert(walk_to(self.mem_map(), self.spec_root(), v, depth as int + 1)
                            is None);
                        lemma_walk_none_sticks(
                            self.mem_map(),
                            self.spec_root(),
                            v,
                            depth as int + 1,
                            levels_of(pt) - 1,
                        );
                    }
                    return None;
                },
                Some(j) => j,
            };
            cur = nxt;
            depth += 1;
        }
    }
}

} // verus!
