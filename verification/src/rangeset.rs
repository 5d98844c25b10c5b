//! Fixed-capacity set of disjoint, non-adjacent inclusive byte ranges.
//!
//! This is the physical-frame and heap allocator's bookkeeping structure: it
//! tracks free memory, coalesces on insert, splits on remove, and serves
//! best-fit aligned allocations.

use vstd::prelude::*;

verus! {

/// An inclusive range of byte addresses `[start, end]`.
#[derive(Clone, Copy, Debug, PartialEq, Eq, Structural)]
pub struct Range {
    pub start: u64,
    pub end: u64,
}

/// Capacity of a `RangeSet`: more disjoint free ranges than this is a fatal
/// resource-exhaustion condition.
pub const CAPACITY: usize = 32;

/// A set of disjoint, non-adjacent, non-empty inclusive ranges.
///
/// The entries live in a growable vector with the capacity bound kept as the
/// invariant; the verifier's standard library specifies that store. One
/// consequence to know: unlike a fixed in-place array, the vector allocates
/// on growth, so this model of the set could not itself back a global
/// allocator — the deployment that needs a heap-free set keeps it in static
/// storage and holds the same bound.
pub struct RangeSet {
    ranges: Vec<Range>,
}

/// A range is well-shaped when it describes at least one byte.
pub open spec fn range_valid(r: Range) -> bool {
    r.start <= r.end
}

/// Address `a` lies inside range `r`.
pub open spec fn range_covers(r: Range, a: u64) -> bool {
    r.start <= a <= r.end
}

/// Two ranges are separated: disjoint and not even adjacent, so no merge
/// between them applies.
pub open spec fn ranges_separated(r1: Range, r2: Range) -> bool {
    r1.end as int + 1 < r2.start as int || r2.end as int + 1 < r1.start as int
}

/// Address `a` lies inside some range of the sequence.
pub open spec fn seq_covers(s: Seq<Range>, a: u64) -> bool {
    exists|i: int| 0 <= i < s.len() && range_covers(#[trigger] s[i], a)
}

/// `t` covers exactly the addresses of `s` plus those of `r`.
pub open spec fn covers_union(t: Seq<Range>, s: Seq<Range>, r: Range) -> bool {
    forall|a: u64|
        #![trigger seq_covers(t, a)]
        seq_covers(t, a) <==> (seq_covers(s, a) || range_covers(r, a))
}

impl View for RangeSet {
    type V = Seq<Range>;

    closed spec fn view(&self) -> Seq<Range> {
        self.ranges@
    }
}

/// A sequence of ranges is well-formed as a range set: at most `CAPACITY`
/// entries, each non-empty, pairwise separated (disjoint and non-adjacent).
pub open spec fn seq_wf(s: Seq<Range>) -> bool {
    &&& s.len() <= CAPACITY
    &&& forall|i: int| 0 <= i < s.len() ==> range_valid(#[trigger] s[i])
    &&& forall|i: int, j: int|
        0 <= i < s.len() && 0 <= j < s.len() && i != j
            ==> ranges_separated(#[trigger] s[i], #[trigger] s[j])
}

impl RangeSet {
    /// The structure's invariant.
    pub open spec fn wf(&self) -> bool {
        seq_wf(self@)
    }

    /// The mathematical content of the set: which addresses are free.
    pub open spec fn covers(&self, a: u64) -> bool {
        seq_covers(self@, a)
    }

    /// An empty set: no free memory recorded.
    pub fn new() -> (r: RangeSet)
        ensures
            r.wf(),
            r@.len() == 0,
            forall|a: u64| !r.covers(a),
    {
        RangeSet { ranges: Vec::new() }
    }

    /// The current entries; their order carries no meaning.
    pub fn entries(&self) -> (r: &[Range])
        ensures
            r@ == self@,
    {
        self.ranges.as_slice()
    }

    /// Removes the entry at `idx`, preserving the order of the rest.
    fn delete(&mut self, idx: usize)
        requires
            idx < old(self)@.len(),
        ensures
            final(self)@ == old(self)@.remove(idx as int),
    {
        self.ranges.remove(idx);
    }
}

/// Removing one range from a sequence removes exactly its addresses from the
/// coverage of that entry, leaving the others.
proof fn lemma_covers_remove(s: Seq<Range>, i: int, a: u64)
    requires
        0 <= i < s.len(),
    ensures
        seq_covers(s, a) <==> (seq_covers(s.remove(i), a) || range_covers(s[i], a)),
{
    let t = s.remove(i);
    if seq_covers(s, a) {
        let j = choose|j: int| 0 <= j < s.len() && range_covers(s[j], a);
        if j < i {
            assert(t[j] == s[j]);
        } else if j > i {
            assert(t[j - 1] == s[j]);
        }
    }
    if seq_covers(t, a) {
        let j = choose|j: int| 0 <= j < t.len() && range_covers(t[j], a);
        if j < i {
            assert(s[j] == t[j]);
        } else {
            assert(s[j + 1] == t[j]);
        }
    }
}

/// Appending a range to a sequence adds exactly its addresses.
proof fn lemma_covers_push(s: Seq<Range>, r: Range, a: u64)
    ensures
        seq_covers(s.push(r), a) <==> (seq_covers(s, a) || range_covers(r, a)),
{
    let t = s.push(r);
    if seq_covers(s, a) {
        let j = choose|j: int| 0 <= j < s.len() && range_covers(s[j], a);
        assert(t[j] == s[j]);
    }
    if range_covers(r, a) {
        assert(t[s.len() as int] == r);
    }
    if seq_covers(t, a) {
        let j = choose|j: int| 0 <= j < t.len() && range_covers(t[j], a);
        if j < s.len() {
            assert(s[j] == t[j]);
        }
    }
}

impl RangeSet {
    /// Index of some entry that overlaps or touches `range` (so a merge with
    /// it applies), if one exists.
    fn find_mergeable(&self, range: &Range) -> (r: Option<usize>)
        requires
            self.wf(),
            range_valid(*range),
        ensures
            match r {
                Some(i) => i < self@.len() && !ranges_separated(self@[i as int], *range),
                None => forall|i: int|
                    0 <= i < self@.len() ==> ranges_separated(#[trigger] self@[i], *range),
            },
    {
        let n = self.ranges.len();
        let mut ii: usize = 0;
        while ii < n
            invariant
                self.wf(),
                range_valid(*range),
                n == self@.len(),
                ii <= n,
                forall|k: int| 0 <= k < ii ==> ranges_separated(#[trigger] self@[k], *range),
            decreases n - ii,
        {
            let ent = self.ranges[ii];
            if overlaps(
                range.start,
                range.end.saturating_add(1),
                ent.start,
                ent.end.saturating_add(1),
            ) {
                return Some(ii);
            }
            ii += 1;
        }
        None
    }

    /// Adds `range` as free memory, merging with every entry it overlaps or
    /// touches until no further merge applies.
    ///
    /// Exceeding the capacity is a fatal condition in this design, so the
    /// caller must leave room: either a free slot, or at least one entry the
    /// new range will merge with.
    pub fn insert(&mut self, range: Range)
        requires
            old(self).wf(),
            range_valid(range),
            old(self)@.len() < CAPACITY || exists|i: int|
                0 <= i < old(self)@.len() && !ranges_separated(#[trigger] old(self)@[i], range),
        ensures
            final(self).wf(),
            final(self)@.len() <= old(self)@.len() + 1,
            covers_union(final(self)@, old(self)@, range),
    {
        let mut cur = range;
        loop
            invariant
                self.wf(),
                range_valid(cur),
                self@.len() <= old(self)@.len(),
                self@.len() < CAPACITY || (self@ == old(self)@ && cur == range && exists|i: int|
                    0 <= i < self@.len() && !ranges_separated(#[trigger] self@[i], cur)),
                forall|a: u64|
                    (seq_covers(self@, a) || range_covers(cur, a)) <==> (old(self).covers(a)
                        || range_covers(range, a)),
            ensures
                self.wf(),
                range_valid(cur),
                self@.len() <= old(self)@.len(),
                self@.len() < CAPACITY,
                forall|i: int| 0 <= i < self@.len() ==> ranges_separated(#[trigger] self@[i], cur),
                forall|a: u64|
                    (seq_covers(self@, a) || range_covers(cur, a)) <==> (old(self).covers(a)
                        || range_covers(range, a)),
            decreases self@.len(),
        {
            match self.find_mergeable(&cur) {
                None => { break; },
                Some(ii) => {
                    let ent = self.ranges[ii];
                    let ghost prev = self@;
                    let ghost prev_cur = cur;
                    cur.start = if cur.start < ent.start { cur.start } else { ent.start };
                    cur.end = if cur.end > ent.end { cur.end } else { ent.end };
                    self.delete(ii);
                    proof {
                        assert forall|a: u64|
                            (seq_covers(self@, a) || range_covers(cur, a)) <==> (seq_covers(
                                prev,
                                a,
                            ) || range_covers(prev_cur, a)) by {
                            lemma_covers_remove(prev, ii as int, a);
                        }
                    }
                },
            }
        }
        let ghost before_push = self@;
        self.ranges.push(cur);
        proof {
            assert(covers_union(self@, old(self)@, range)) by {
                assert forall|a: u64|
                    #![trigger seq_covers(self@, a)]
                    seq_covers(self@, a) <==> (seq_covers(old(self)@, a) || range_covers(
                        range,
                        a,
                    )) by {
                    lemma_covers_push(before_push, cur, a);
                }
            }
        }
    }
}

/// `t` covers exactly the addresses of `s` that lie outside `r`.
pub open spec fn covers_difference(t: Seq<Range>, s: Seq<Range>, r: Range) -> bool {
    forall|a: u64|
        #![trigger seq_covers(t, a)]
        seq_covers(t, a) <==> (seq_covers(s, a) && !range_covers(r, a))
}

/// Some entry strictly contains `r` on both sides, so removing `r` must split
/// it in two (which consumes one slot of capacity).
pub open spec fn splits_entry(s: Seq<Range>, r: Range) -> bool {
    exists|i: int| 0 <= i < s.len() && (#[trigger] s[i]).start < r.start && r.end < s[i].end
}

/// Range `x` lies inside one of the entries of `s`.
pub open spec fn within_some_entry(x: Range, s: Seq<Range>) -> bool {
    exists|e: int| 0 <= e < s.len() && x.start >= (#[trigger] s[e]).start && x.end <= s[e].end
}

/// Replacing the entry at `i` changes coverage by dropping the old entry's
/// addresses and adding the new one's.
proof fn lemma_covers_update(s: Seq<Range>, i: int, x: Range, a: u64)
    requires
        0 <= i < s.len(),
    ensures
        seq_covers(s.update(i, x), a) <==> (seq_covers(s.remove(i), a) || range_covers(x, a)),
{
    let u = s.update(i, x);
    assert(u.remove(i) =~= s.remove(i));
    lemma_covers_remove(u, i, a);
}

impl RangeSet {
    /// Whether `insert` can accept `range` without the fatal capacity
    /// overflow: a slot is free, or some entry will merge with it.
    pub fn can_insert(&self, range: &Range) -> (r: bool)
        requires
            self.wf(),
            range_valid(*range),
        ensures
            r == (self@.len() < CAPACITY || exists|i: int|
                0 <= i < self@.len() && !ranges_separated(#[trigger] self@[i], *range)),
    {
        if self.ranges.len() < CAPACITY {
            return true;
        }
        match self.find_mergeable(range) {
            Some(_) => true,
            None => false,
        }
    }

    /// Marks every address of `range` as used: overlapping entries are
    /// trimmed, deleted when fully inside `range`, or split in two when
    /// `range` falls strictly inside them.
    ///
    /// A split needs a free slot, so when some entry strictly contains
    /// `range` the set must not be full.
    pub fn remove(&mut self, range: Range)
        requires
            old(self).wf(),
            range_valid(range),
            old(self)@.len() < CAPACITY || !splits_entry(old(self)@, range),
        ensures
            final(self).wf(),
            covers_difference(final(self)@, old(self)@, range),
            final(self)@.len() <= old(self)@.len() + 1,
            !splits_entry(old(self)@, range) ==> final(self)@.len() <= old(self)@.len(),
            forall|x: Range|
                !splits_entry(old(self)@, x) ==> !splits_entry(final(self)@, x),
    {
        let mut ii: usize = 0;
        let ghost mut split_budget: int = 1;
        proof {
            assert forall|k: int| 0 <= k < self@.len() implies within_some_entry(
                #[trigger] self@[k],
                old(self)@,
            ) by {
                assert(self@[k].start >= old(self)@[k].start && self@[k].end <= old(self)@[
                    k
                ].end);
            }
        }
        loop
            invariant
                self.wf(),
                range_valid(range),
                ii <= self@.len(),
                self@.len() < CAPACITY || !splits_entry(self@, range),
                split_budget == 0 || split_budget == 1,
                split_budget == 0 ==> !splits_entry(self@, range),
                self@.len() + split_budget <= old(self)@.len() + 1,
                !splits_entry(old(self)@, range) ==> split_budget == 1 && self@.len() <= old(
                    self,
                )@.len(),
                forall|k: int|
                    0 <= k < self@.len() ==> within_some_entry(#[trigger] self@[k], old(self)@),
                forall|k: int|
                    0 <= k < ii ==> ranges_separated(#[trigger] self@[k], range) || (self@[k].end
                        < range.start || range.end < self@[k].start),
                forall|a: u64|
                    !range_covers(range, a) ==> (seq_covers(self@, a) <==> seq_covers(
                        old(self)@,
                        a,
                    )),
            ensures
                self.wf(),
                self@.len() <= old(self)@.len() + 1,
                !splits_entry(old(self)@, range) ==> self@.len() <= old(self)@.len(),
                forall|k: int|
                    0 <= k < self@.len() ==> within_some_entry(#[trigger] self@[k], old(self)@),
                forall|k: int|
                    0 <= k < self@.len() ==> (#[trigger] self@[k]).end < range.start || range.end
                        < self@[k].start,
                forall|a: u64|
                    !range_covers(range, a) ==> (seq_covers(self@, a) <==> seq_covers(
                        old(self)@,
                        a,
                    )),
            decreases split_budget, self@.len() - ii,
        {
            if ii >= self.ranges.len() {
                break;
            }
            let ent = self.ranges[ii];
            let ghost prev = self@;
            if !overlaps(range.start, range.end, ent.start, ent.end) {
                ii += 1;
                continue;
            }
            if contains(ent.start, ent.end, range.start, range.end) {
                // The entry lies fully inside `range`: drop it.
                self.delete(ii);
                proof {
                    assert forall|a: u64| !range_covers(range, a) implies (seq_covers(self@, a)
                        <==> seq_covers(prev, a)) by {
                        lemma_covers_remove(prev, ii as int, a);
                    }
                    assert(!splits_entry(prev, range) ==> !splits_entry(self@, range)) by {
                        if splits_entry(self@, range) {
                            let j = choose|j: int|
                                0 <= j < self@.len() && (#[trigger] self@[j]).start < range.start
                                    && range.end < self@[j].end;
                            if j < ii as int {
                                assert(self@[j] == prev[j]);
                            } else {
                                assert(self@[j] == prev[j + 1]);
                            }
                        }
                    }
                }
                continue;
            }
            if range.start <= ent.start {
                // `range` clips the low side of the entry.
                let new_ent = Range { start: range.end.saturating_add(1), end: ent.end };
                self.set_entry(ii, new_ent);
                proof {
                    assert forall|a: u64| !range_covers(range, a) implies (seq_covers(self@, a)
                        <==> seq_covers(prev, a)) by {
                        lemma_covers_update(prev, ii as int, new_ent, a);
                        lemma_covers_remove(prev, ii as int, a);
                    }
                    lemma_update_no_split(prev, self@, ii as int, new_ent, range);
                }
                ii += 1;
            } else if range.end >= ent.end {
                // `range` clips the high side of the entry.
                let new_ent = Range { start: ent.start, end: range.start - 1 };
                self.set_entry(ii, new_ent);
                proof {
                    assert forall|a: u64| !range_covers(range, a) implies (seq_covers(self@, a)
                        <==> seq_covers(prev, a)) by {
                        lemma_covers_update(prev, ii as int, new_ent, a);
                        lemma_covers_remove(prev, ii as int, a);
                    }
                    lemma_update_no_split(prev, self@, ii as int, new_ent, range);
                }
                ii += 1;
            } else {
                // `range` falls strictly inside the entry: split it in two.
                let high = Range { start: range.end + 1, end: ent.end };
                let low = Range { start: ent.start, end: range.start - 1 };
                proof {
                    // Only one entry can strictly contain `range`, since two
                    // such entries would both cover `range.start`.
                    assert(splits_entry(self@, range));
                    assert(self@.len() < CAPACITY);
                }
                self.set_entry(ii, high);
                let ghost mid = self@;
                self.ranges.push(low);
                proof {
                    split_budget = 0;
                    assert forall|a: u64| !range_covers(range, a) implies (seq_covers(self@, a)
                        <==> seq_covers(prev, a)) by {
                        lemma_covers_push(mid, low, a);
                        lemma_covers_update(prev, ii as int, high, a);
                        lemma_covers_remove(prev, ii as int, a);
                    }
                    assert forall|i: int, j: int|
                        0 <= i < self@.len() && 0 <= j < self@.len() && i != j implies
                        ranges_separated(#[trigger] self@[i], #[trigger] self@[j]) by {
                        assert(self@.len() == prev.len() + 1);
                        assert(forall|k: int|
                            0 <= k < prev.len() && k != ii ==> self@[k] == prev[k]);
                        assert(self@[ii as int] == high);
                        assert(self@[prev.len() as int] == low);
                        assert(forall|k: int|
                            0 <= k < prev.len() && k != ii ==> ranges_separated(
                                prev[k],
                                prev[ii as int],
                            ));
                    }
                    assert(!splits_entry(self@, range)) by {
                        if splits_entry(self@, range) {
                            let j = choose|j: int|
                                0 <= j < self@.len() && (#[trigger] self@[j]).start < range.start
                                    && range.end < self@[j].end;
                            assert(j != ii && j != prev.len());
                            assert(prev[j] == self@[j]);
                            assert(range_covers(prev[j], range.start));
                            assert(range_covers(prev[ii as int], range.start));
                            assert(!ranges_separated(prev[j], prev[ii as int]));
                        }
                    }
                }
                ii += 1;
            }
        }
        proof {
            assert forall|a: u64|
                #![trigger seq_covers(self@, a)]
                seq_covers(self@, a) <==> (seq_covers(old(self)@, a) && !range_covers(
                    range,
                    a,
                )) by {
                if range_covers(range, a) && seq_covers(self@, a) {
                    let j = choose|j: int| 0 <= j < self@.len() && range_covers(self@[j], a);
                    assert((self@[j]).end < range.start || range.end < self@[j].start);
                }
            }
        }
    }

    /// Marks every address covered by `rs` as used.
    ///
    /// Each removal may split one entry, so the caller leaves room for one
    /// split per entry of `rs` — or none of those entries sits strictly
    /// inside an entry of this set, in which case no split can occur.
    pub fn subtract(&mut self, rs: &RangeSet)
        requires
            old(self).wf(),
            rs.wf(),
            old(self)@.len() + rs@.len() <= CAPACITY || forall|j: int|
                0 <= j < rs@.len() ==> !splits_entry(old(self)@, #[trigger] rs@[j]),
        ensures
            final(self).wf(),
            covers_subtract(final(self)@, old(self)@, rs@),
    {
        let n = rs.ranges.len();
        let mut i: usize = 0;
        while i < n
            invariant
                self.wf(),
                rs.wf(),
                n == rs@.len(),
                i <= n,
                self@.len() + (n - i) <= CAPACITY || (self@.len() <= old(self)@.len() && forall|
                    j: int,
                |
                    0 <= j < n ==> !splits_entry(self@, #[trigger] rs@[j])),
                forall|a: u64|
                    #![trigger seq_covers(self@, a)]
                    seq_covers(self@, a) <==> (seq_covers(old(self)@, a) && !(exists|j: int|
                        0 <= j < i && range_covers(#[trigger] rs@[j], a))),
            decreases n - i,
        {
            let ent = rs.ranges[i];
            let ghost prev = self@;
            self.remove(ent);
            proof {
                assert forall|a: u64|
                    #![trigger seq_covers(self@, a)]
                    seq_covers(self@, a) <==> (seq_covers(old(self)@, a) && !(exists|j: int|
                        0 <= j < i + 1 && range_covers(#[trigger] rs@[j], a))) by {
                    if exists|j: int| 0 <= j < i + 1 && range_covers(#[trigger] rs@[j], a) {
                        let j = choose|j: int| 0 <= j < i + 1 && range_covers(#[trigger] rs@[j], a);
                        if j < i {
                            assert(!seq_covers(prev, a));
                        }
                    }
                }
            }
            i += 1;
        }
        proof {
            assert forall|a: u64| #![trigger seq_covers(self@, a)] seq_covers(rs@, a) <==> (exists|
                j: int,
            |
                0 <= j < n && range_covers(#[trigger] rs@[j], a)) by {}
        }
    }

    /// Total number of free bytes, or `None` when the total does not fit in
    /// 64 bits.
    pub fn sum(&self) -> (r: Option<u64>)
        requires
            self.wf(),
        ensures
            match r {
                Some(t) => t == spec_sum(self@) && spec_sum(self@) <= u64::MAX,
                None => spec_sum(self@) > u64::MAX,
            },
    {
        let n = self.ranges.len();
        let mut acc: u64 = 0;
        let mut i: usize = 0;
        while i < n
            invariant
                self.wf(),
                n == self@.len(),
                i <= n,
                acc == spec_sum(self@.subrange(0, i as int)),
            decreases n - i,
        {
            let ent = self.ranges[i];
            proof {
                lemma_sum_step(self@, i as int);
            }
            let part = match (ent.end - ent.start).checked_add(1) {
                Some(p) => p,
                None => {
                    proof {
                        lemma_sum_prefix_le(self@, i as int + 1);
                    }
                    return None;
                },
            };
            acc = match acc.checked_add(part) {
                Some(a) => a,
                None => {
                    proof {
                        lemma_sum_prefix_le(self@, i as int + 1);
                    }
                    return None;
                },
            };
            i += 1;
        }
        proof {
            assert(self@.subrange(0, n as int) =~= self@);
        }
        Some(acc)
    }

    /// Allocates `size` bytes aligned to `align` (a power of two): scans all
    /// entries, picks the candidate with the smallest resulting span (the
    /// lowest-addressed such span on ties), removes that exact span and
    /// returns its aligned start address.
    ///
    /// Fails on `size == 0`, on an `align` that is not a power of two, when
    /// the address arithmetic for some entry overflows the address width, or
    /// when no entry fits; failure leaves the set unchanged.
    pub fn allocate(&mut self, size: u64, align: u64) -> (r: Option<usize>)
        requires
            old(self).wf(),
        ensures
            final(self).wf(),
            r is None ==> *final(self) == *old(self),
            r is None <==> (size == 0 || !is_pow2(align) || scan_aborts(old(self)@, size, align)
                || spec_best(old(self)@, size, align) is None),
            r is Some ==> ({
                let c = spec_best(old(self)@, size, align)->Some_0;
                &&& spec_best(old(self)@, size, align) is Some
                &&& r == Some(c.2 as usize)
                &&& 0 <= c.0 && c.1 <= usize::MAX
                &&& c.2 % align as int == 0
                &&& c.0 <= c.2 && c.2 + size - 1 == c.1
                &&& forall|a: u64| c.0 <= a <= c.1 ==> seq_covers(old(self)@, a)
                &&& covers_difference(
                    final(self)@,
                    old(self)@,
                    Range { start: c.0 as u64, end: c.1 as u64 },
                )
            }),
    {
        if size == 0 {
            return None;
        }
        if align == 0 || align & (align - 1) != 0 {
            return None;
        }
        let alignmask = align - 1;

        let n = self.ranges.len();
        let mut allocation: Option<(u64, u64, u64)> = None;
        let mut i: usize = 0;
        while i < n
            invariant
                self.wf(),
                size > 0,
                is_pow2(align),
                alignmask == (align - 1) as u64,
                n == self@.len(),
                i <= n,
                forall|k: int|
                    0 <= k < i ==> cand_end(#[trigger] self@[k], size, align) <= u64::MAX,
                match allocation {
                    None => spec_best(self@.subrange(0, i as int), size, align) is None,
                    Some((b, e, p)) => b <= e && spec_best(self@.subrange(0, i as int), size, align)
                        == Some((b as int, e as int, p as int)),
                },
            decreases n - i,
        {
            let ent = self.ranges[i];
            let base = ent.start;
            proof {
                lemma_best_step(self@, i as int, size, align);
                assert((base & alignmask) <= alignmask) by (bit_vector);
            }
            let align_fix = (align - (base & alignmask)) & alignmask;
            proof {
                assert(align_fix == spec_align_fix(ent.start, align));
            }

            let end = match base.checked_add(size - 1) {
                Some(v) => v,
                None => {
                    return None;
                },
            };
            let end = match end.checked_add(align_fix) {
                Some(v) => v,
                None => {
                    return None;
                },
            };

            if base > usize::MAX as u64 || end > usize::MAX as u64 {
                i += 1;
                continue;
            }
            if end > ent.end {
                i += 1;
                continue;
            }

            allocation = match allocation {
                None => Some((base, end, base + align_fix)),
                Some((pb, pe, pp)) => {
                    if pe - pb > end - base || (pe - pb == end - base && pb > base) {
                        Some((base, end, base + align_fix))
                    } else {
                        Some((pb, pe, pp))
                    }
                },
            };
            i += 1;
        }

        proof {
            assert(self@.subrange(0, n as int) =~= self@);
        }
        match allocation {
            None => None,
            Some((base, end, ptr)) => {
                proof {
                    lemma_best_entry(self@, size, align);
                    let w = choose|w: int|
                        0 <= w < self@.len() && entry_viable(#[trigger] self@[w], size, align)
                            && spec_best(self@, size, align) == Some(
                            entry_cand(self@[w], size, align),
                        );
                    lemma_align_fix(self@[w].start, align);
                    assert(cand_end(self@[w], size, align) <= usize::MAX);
                    assert forall|a: u64| base <= a <= end implies seq_covers(self@, a) by {
                        assert(range_covers(self@[w], a));
                    }
                    assert(!splits_entry(self@, Range { start: base, end: end })) by {
                        if splits_entry(self@, Range { start: base, end: end }) {
                            let f = choose|f: int|
                                0 <= f < self@.len() && (#[trigger] self@[f]).start < base && end
                                    < self@[f].end;
                            assert(range_covers(self@[f], base));
                            assert(range_covers(self@[w], base));
                            assert(!ranges_separated(self@[f], self@[w]));
                            assert(f == w);
                        }
                    }
                }
                self.remove(Range { start: base, end: end });
                Some(ptr as usize)
            },
        }
    }

    /// Replaces the entry at `idx`.
    fn set_entry(&mut self, idx: usize, r: Range)
        requires
            idx < old(self)@.len(),
        ensures
            final(self)@ == old(self)@.update(idx as int, r),
    {
        let slot = &mut self.ranges[idx];
        *slot = r;
    }
}

/// `t` covers exactly the addresses of `s` that no range of `u` covers.
pub open spec fn covers_subtract(t: Seq<Range>, s: Seq<Range>, u: Seq<Range>) -> bool {
    forall|a: u64|
        #![trigger seq_covers(t, a)]
        seq_covers(t, a) <==> (seq_covers(s, a) && !seq_covers(u, a))
}

/// The number of bytes described by a sequence of inclusive ranges.
pub open spec fn spec_sum(s: Seq<Range>) -> int
    decreases s.len(),
{
    if s.len() == 0 {
        0
    } else {
        spec_sum(s.drop_last()) + (s.last().end - s.last().start + 1)
    }
}

/// One more entry adds that entry's length to the prefix sum.
proof fn lemma_sum_step(s: Seq<Range>, i: int)
    requires
        0 <= i < s.len(),
    ensures
        spec_sum(s.subrange(0, i + 1)) == spec_sum(s.subrange(0, i)) + (s[i].end - s[i].start + 1),
{
    let p = s.subrange(0, i + 1);
    assert(p.drop_last() =~= s.subrange(0, i));
    assert(p.last() == s[i]);
}

/// Prefix sums never exceed the whole sum when every entry is non-empty.
proof fn lemma_sum_prefix_le(s: Seq<Range>, i: int)
    requires
        0 <= i <= s.len(),
        forall|k: int| 0 <= k < s.len() ==> range_valid(#[trigger] s[k]),
    ensures
        spec_sum(s.subrange(0, i)) <= spec_sum(s),
    decreases s.len() - i,
{
    if i == s.len() {
        assert(s.subrange(0, i) =~= s);
    } else {
        lemma_sum_step(s, i);
        lemma_sum_prefix_le(s, i + 1);
    }
}

/// `align` is a power of two.
pub open spec fn is_pow2(align: u64) -> bool {
    align != 0 && align & ((align - 1) as u64) == 0
}

/// Bytes to skip from `start` to the next multiple of `align`.
pub open spec fn spec_align_fix(start: u64, align: u64) -> u64 {
    (align - (start & ((align - 1) as u64))) as u64 & ((align - 1) as u64)
}

/// Last byte a candidate allocation in `e` would use, alignment slack
/// included, as an unbounded integer so overflow can be stated.
pub open spec fn cand_end(e: Range, size: u64, align: u64) -> int {
    e.start + size - 1 + spec_align_fix(e.start, align)
}

/// The entry can serve the allocation: the candidate span stays inside the
/// entry and all its addresses fit the platform's address width.
pub open spec fn entry_viable(e: Range, size: u64, align: u64) -> bool {
    &&& cand_end(e, size, align) <= u64::MAX
    &&& e.start <= usize::MAX
    &&& cand_end(e, size, align) <= usize::MAX
    &&& cand_end(e, size, align) <= e.end
}

/// The candidate taken from entry `e`: span start, span end, and the aligned
/// address inside it.
pub open spec fn entry_cand(e: Range, size: u64, align: u64) -> (int, int, int) {
    (e.start as int, cand_end(e, size, align), e.start + spec_align_fix(e.start, align))
}

/// Some entry's candidate arithmetic overflows the 64-bit address width; the
/// scan gives up as soon as it meets such an entry.
pub open spec fn scan_aborts(s: Seq<Range>, size: u64, align: u64) -> bool {
    exists|i: int| 0 <= i < s.len() && cand_end(#[trigger] s[i], size, align) > u64::MAX
}

/// Best-fit scan over the entries: the viable candidate with the smallest
/// span wins, the lowest span address winning ties, so the outcome does not
/// depend on entry order.
pub open spec fn spec_best(s: Seq<Range>, size: u64, align: u64) -> Option<(int, int, int)>
    decreases s.len(),
{
    if s.len() == 0 {
        None
    } else {
        let prev = spec_best(s.drop_last(), size, align);
        let e = s.last();
        if !entry_viable(e, size, align) {
            prev
        } else {
            match prev {
                None => Some(entry_cand(e, size, align)),
                Some(p) => if p.1 - p.0 > cand_end(e, size, align) - e.start || (p.1 - p.0
                    == cand_end(e, size, align) - e.start && p.0 > e.start) {
                    Some(entry_cand(e, size, align))
                } else {
                    Some(p)
                },
            }
        }
    }
}

/// Unfolds one step of the best-fit scan along a prefix.
proof fn lemma_best_step(s: Seq<Range>, i: int, size: u64, align: u64)
    requires
        0 <= i < s.len(),
    ensures
        spec_best(s.subrange(0, i + 1), size, align) == ({
            let prev = spec_best(s.subrange(0, i), size, align);
            let e = s[i];
            if !entry_viable(e, size, align) {
                prev
            } else {
                match prev {
                    None => Some(entry_cand(e, size, align)),
                    Some(p) => if p.1 - p.0 > cand_end(e, size, align) - e.start || (p.1 - p.0
                        == cand_end(e, size, align) - e.start && p.0 > e.start) {
                        Some(entry_cand(e, size, align))
                    } else {
                        Some(p)
                    },
                }
            }
        }),
{
    let p = s.subrange(0, i + 1);
    assert(p.drop_last() =~= s.subrange(0, i));
    assert(p.last() == s[i]);
}

/// A winning candidate always comes from some viable entry.
proof fn lemma_best_entry(s: Seq<Range>, size: u64, align: u64)
    requires
        spec_best(s, size, align) is Some,
    ensures
        exists|w: int|
            0 <= w < s.len() && entry_viable(#[trigger] s[w], size, align) && spec_best(
                s,
                size,
                align,
            ) == Some(entry_cand(s[w], size, align)),
    decreases s.len(),
{
    let e = s.last();
    if entry_viable(e, size, align) && spec_best(s, size, align) == Some(
        entry_cand(e, size, align),
    ) {
        assert(s[s.len() - 1] == e);
    } else {
        lemma_best_entry(s.drop_last(), size, align);
        let w = choose|w: int|
            0 <= w < s.drop_last().len() && entry_viable(#[trigger] s.drop_last()[w], size, align)
                && spec_best(s.drop_last(), size, align) == Some(
                entry_cand(s.drop_last()[w], size, align),
            );
        assert(s[w] == s.drop_last()[w]);
    }
}

/// A non-zero value whose low bits vanish under `v & (v - 1)` is a power of
/// two: it equals `pow2(n)` for some exponent below the word width.
proof fn lemma_pow2_exponent(a: u64)
    requires
        a != 0,
        a & ((a - 1) as u64) == 0,
    ensures
        exists|n: nat| n < 64 && vstd::arithmetic::power2::pow2(n) == a,
    decreases a,
{
    if a == 1 {
        vstd::arithmetic::power2::lemma2_to64();
        assert(0 < 64 && vstd::arithmetic::power2::pow2(0) == a);
    } else {
        assert(a % 2 == 0 && a / 2 != 0 && (a / 2) & ((a / 2 - 1) as u64) == 0) by (bit_vector)
            requires
                a != 0 && a != 1 && a & ((a - 1) as u64) == 0,
        ;
        lemma_pow2_exponent(a / 2);
        let n = choose|n: nat| n < 64 && vstd::arithmetic::power2::pow2(n) == a / 2;
        vstd::arithmetic::power2::lemma_pow2_unfold(n + 1);
        assert(vstd::arithmetic::power2::pow2(n + 1) == a);
        if n + 1 >= 64 {
            vstd::arithmetic::power2::lemma2_to64_rest();
            assert(vstd::arithmetic::power2::pow2(64) > u64::MAX as nat) by {
                vstd::arithmetic::power2::lemma_pow2_unfold(64);
            }
        }
    }
}

/// The aligned offset is smaller than the alignment, and skipping it lands on
/// a multiple of the alignment.
proof fn lemma_align_fix(start: u64, align: u64)
    requires
        is_pow2(align),
    ensures
        spec_align_fix(start, align) < align,
        (start + spec_align_fix(start, align)) % (align as int) == 0,
{
    let mask = (align - 1) as u64;
    let fix = spec_align_fix(start, align);
    let m = start & mask;
    lemma_pow2_exponent(align);
    let n = choose|n: nat| n < 64 && vstd::arithmetic::power2::pow2(n) == align;
    assert(vstd::bits::low_bits_mask(n) == mask as nat);
    vstd::bits::lemma_u64_low_bits_mask_is_mod(start, n);
    assert(m == start % align);
    vstd::arithmetic::div_mod::lemma_fundamental_div_mod(start as int, align as int);
    let q = start as int / align as int;
    vstd::bits::lemma_u64_low_bits_mask_is_mod((align - m) as u64, n);
    assert(fix == ((align - m) as u64) % align);
    if m == 0 {
        vstd::arithmetic::div_mod::lemma_mod_self_0(align as int);
        assert(fix == 0);
        assert(start + fix == q * align) by (nonlinear_arith)
            requires
                start == align * q + m && m == 0 && fix == 0,
        ;
        vstd::arithmetic::div_mod::lemma_mod_multiples_basic(q, align as int);
    } else {
        vstd::arithmetic::div_mod::lemma_small_mod((align - m) as nat, align as nat);
        assert(fix == align - m);
        assert(start + fix == (q + 1) * align) by (nonlinear_arith)
            requires
                start == align * q + m && fix == align - m,
        ;
        vstd::arithmetic::div_mod::lemma_mod_multiples_basic(q + 1, align as int);
    }
}

/// Shrinking the entry at `i` to a sub-range that no longer strictly
/// contains `r` cannot create a strict container of `r`.
proof fn lemma_update_no_split(prev: Seq<Range>, now: Seq<Range>, i: int, x: Range, r: Range)
    requires
        0 <= i < prev.len(),
        now == prev.update(i, x),
        !(x.start < r.start && r.end < x.end),
        !splits_entry(prev, r) || prev.len() < CAPACITY,
    ensures
        !splits_entry(prev, r) ==> !splits_entry(now, r),
{
    if !splits_entry(prev, r) && splits_entry(now, r) {
        let j = choose|j: int|
            0 <= j < now.len() && (#[trigger] now[j]).start < r.start && r.end < now[j].end;
        assert(j != i);
        assert(prev[j] == now[j]);
    }
}

/// Do the inclusive ranges `[x1, x2]` and `[y1, y2]` share an address?
/// Arguments may be given in either order.
fn overlaps(x1: u64, x2: u64, y1: u64, y2: u64) -> (r: bool)
    ensures
        r == spec_overlaps(x1, x2, y1, y2),
{
    let (x1, x2) = if x1 > x2 { (x2, x1) } else { (x1, x2) };
    let (y1, y2) = if y1 > y2 { (y2, y1) } else { (y1, y2) };
    x1 <= y2 && y1 <= x2
}

/// Is `[x1, x2]` contained in `[y1, y2]`? Arguments may be given in either
/// order.
fn contains(x1: u64, x2: u64, y1: u64, y2: u64) -> (r: bool)
    ensures
        r == spec_contains(x1, x2, y1, y2),
{
    let (x1, x2) = if x1 > x2 { (x2, x1) } else { (x1, x2) };
    let (y1, y2) = if y1 > y2 { (y2, y1) } else { (y1, y2) };
    x1 >= y1 && x2 <= y2
}

pub open spec fn spec_min(a: u64, b: u64) -> u64 {
    if a < b { a } else { b }
}

pub open spec fn spec_max(a: u64, b: u64) -> u64 {
    if a > b { a } else { b }
}

pub open spec fn spec_overlaps(x1: u64, x2: u64, y1: u64, y2: u64) -> bool {
    spec_min(x1, x2) <= spec_max(y1, y2) && spec_min(y1, y2) <= spec_max(x1, x2)
}

pub open spec fn spec_contains(x1: u64, x2: u64, y1: u64, y2: u64) -> bool {
    spec_min(x1, x2) >= spec_min(y1, y2) && spec_max(x1, x2) <= spec_max(y1, y2)
}

/// The chosen candidate is best-fit: whenever some entry is viable a
/// candidate is chosen, and no viable entry offers a smaller resulting span
/// than the winner's.
pub proof fn lemma_best_fit_minimal(s: Seq<Range>, size: u64, align: u64)
    ensures
        forall|i: int|
            0 <= i < s.len() && entry_viable(#[trigger] s[i], size, align) ==> spec_best(
                s,
                size,
                align,
            ) is Some && spec_best(s, size, align)->Some_0.1 - spec_best(s, size, align)->Some_0.0
                <= cand_end(s[i], size, align) - s[i].start,
    decreases s.len(),
{
    if s.len() > 0 {
        let t = s.drop_last();
        let e = s.last();
        lemma_best_fit_minimal(t, size, align);
        assert forall|i: int|
            0 <= i < s.len() && entry_viable(#[trigger] s[i], size, align) implies spec_best(
            s,
            size,
            align,
        ) is Some && spec_best(s, size, align)->Some_0.1 - spec_best(s, size, align)->Some_0.0
            <= cand_end(s[i], size, align) - s[i].start by {
            let prev = spec_best(t, size, align);
            if i < s.len() - 1 {
                assert(t[i] == s[i]);
                assert(prev is Some);
                if entry_viable(e, size, align) {
                    assert(spec_best(s, size, align)->Some_0.1 - spec_best(
                        s,
                        size,
                        align,
                    )->Some_0.0 <= prev->Some_0.1 - prev->Some_0.0);
                }
            } else {
                assert(s[i] == e);
            }
        }
    }
}

/// The set of addresses (as integers) covered by a sequence of ranges: the
/// naive one-flag-per-byte model of the free memory.
pub open spec fn covered_set(s: Seq<Range>) -> Set<int> {
    Set::new(|a: int| 0 <= a <= u64::MAX && seq_covers(s, a as u64))
}

/// The sum of entry lengths equals the cardinality of the naive
/// one-flag-per-byte model of the set, whatever the entry layout: every
/// insert and remove therefore keeps `sum` in step with that model.
pub proof fn lemma_sum_is_covered_card(s: Seq<Range>)
    requires
        forall|i: int| 0 <= i < s.len() ==> range_valid(#[trigger] s[i]),
        forall|i: int, j: int|
            0 <= i < s.len() && 0 <= j < s.len() && i != j ==> ranges_separated(
                #[trigger] s[i],
                #[trigger] s[j],
            ),
    ensures
        covered_set(s).finite(),
        spec_sum(s) == covered_set(s).len(),
    decreases s.len(),
{
    if s.len() == 0 {
        assert(covered_set(s) =~= Set::<int>::empty());
    } else {
        let t = s.drop_last();
        let r = s.last();
        lemma_sum_is_covered_card(t);
        let iv = vstd::set_lib::set_int_range(r.start as int, r.end + 1);
        vstd::set_lib::lemma_int_range(r.start as int, r.end + 1);
        assert forall|a: int| covered_set(s).contains(a) <==> (covered_set(t) + iv).contains(
            a,
        ) by {
            if covered_set(s).contains(a) {
                let j = choose|j: int| 0 <= j < s.len() && range_covers(s[j], a as u64);
                if j < s.len() - 1 {
                    assert(t[j] == s[j]);
                    assert(covered_set(t).contains(a));
                } else {
                    assert(iv.contains(a));
                }
            }
            if covered_set(t).contains(a) {
                let j = choose|j: int| 0 <= j < t.len() && range_covers(t[j], a as u64);
                assert(s[j] == t[j]);
            }
            if iv.contains(a) {
                assert(range_covers(r, a as u64));
                assert(s[s.len() - 1] == r);
            }
        }
        assert(covered_set(s) =~= covered_set(t) + iv);
        assert(covered_set(t).disjoint(iv)) by {
            if exists|a: int| covered_set(t).contains(a) && iv.contains(a) {
                let a = choose|a: int| covered_set(t).contains(a) && iv.contains(a);
                let j = choose|j: int| 0 <= j < t.len() && range_covers(t[j], a as u64);
                assert(s[j] == t[j]);
                assert(range_covers(s[s.len() - 1], a as u64));
                assert(!ranges_separated(s[j], s[s.len() - 1]));
            }
        }
        vstd::set_lib::lemma_set_disjoint_lens(covered_set(t), iv);
    }
}

/// In a well-formed set an entry is exactly a maximal covered run: covered
/// from its start to its end, with both neighbouring addresses (where they
/// exist) uncovered. The entries are therefore determined by the covered
/// addresses alone.
proof fn lemma_entry_characterization(s: Seq<Range>, e: Range)
    requires
        seq_wf(s),
    ensures
        s.contains(e) <==> ({
            &&& range_valid(e)
            &&& forall|a: u64| range_covers(e, a) ==> seq_covers(s, a)
            &&& e.start > 0 ==> !seq_covers(s, (e.start - 1) as u64)
            &&& e.end < u64::MAX ==> !seq_covers(s, (e.end + 1) as u64)
        }),
{
    if s.contains(e) {
        let i = choose|i: int| 0 <= i < s.len() && s[i] == e;
        assert forall|a: u64| range_covers(e, a) implies seq_covers(s, a) by {
            assert(range_covers(s[i], a));
        }
        if e.start > 0 && seq_covers(s, (e.start - 1) as u64) {
            let j = choose|j: int|
                0 <= j < s.len() && range_covers(#[trigger] s[j], (e.start - 1) as u64);
            assert(!ranges_separated(s[j], s[i]) || j == i);
        }
        if e.end < u64::MAX && seq_covers(s, (e.end + 1) as u64) {
            let j = choose|j: int|
                0 <= j < s.len() && range_covers(#[trigger] s[j], (e.end + 1) as u64);
            assert(!ranges_separated(s[j], s[i]) || j == i);
        }
    }
    if ({
        &&& range_valid(e)
        &&& forall|a: u64| range_covers(e, a) ==> seq_covers(s, a)
        &&& e.start > 0 ==> !seq_covers(s, (e.start - 1) as u64)
        &&& e.end < u64::MAX ==> !seq_covers(s, (e.end + 1) as u64)
    }) {
        assert(range_covers(e, e.start));
        assert(seq_covers(s, e.start));
        let i = choose|i: int| 0 <= i < s.len() && range_covers(#[trigger] s[i], e.start);
        // The entry holding `e.start` starts exactly there: one address lower
        // would put `e.start - 1` inside it.
        assert(s[i].start == e.start) by {
            if s[i].start < e.start {
                assert(range_covers(s[i], (e.start - 1) as u64));
            }
        }
        // And it ends exactly at `e.end`: ending lower leaves a covered
        // address that no separated entry can supply, ending higher covers
        // the address past the run.
        assert(s[i].end == e.end) by {
            if s[i].end < e.end {
                let a = (s[i].end + 1) as u64;
                assert(range_covers(e, a));
                assert(seq_covers(s, a));
                let j = choose|j: int| 0 <= j < s.len() && range_covers(#[trigger] s[j], a);
                assert(j != i);
                assert(!ranges_separated(s[j], s[i]));
            }
            if s[i].end > e.end {
                assert(range_covers(s[i], (e.end + 1) as u64));
            }
        }
        assert(s[i] == e);
    }
}

/// Well-formed sets covering the same addresses hold the same entries: the
/// entry set is canonical, whatever order operations produced it in.
pub proof fn lemma_entries_canonical(s1: Seq<Range>, s2: Seq<Range>)
    requires
        seq_wf(s1),
        seq_wf(s2),
        forall|a: u64| #![trigger seq_covers(s1, a)] seq_covers(s1, a) <==> seq_covers(s2, a),
    ensures
        forall|e: Range| s1.contains(e) <==> s2.contains(e),
{
    assert forall|e: Range| s1.contains(e) <==> s2.contains(e) by {
        lemma_entry_characterization(s1, e);
        lemma_entry_characterization(s2, e);
        assert forall|a: u64| range_covers(e, a) && seq_covers(s1, a) implies seq_covers(
            s2,
            a,
        ) by {}
        assert forall|a: u64| range_covers(e, a) && seq_covers(s2, a) implies seq_covers(
            s1,
            a,
        ) by {}
    }
}

/// Inserting the same range twice yields the same entry set as inserting it
/// once: the second insert adds no address, and equal coverage means equal
/// entries. `s1` is the set after the first insert, `s2` after the second.
pub proof fn lemma_insert_idempotent(s0: Seq<Range>, s1: Seq<Range>, s2: Seq<Range>, r: Range)
    requires
        seq_wf(s1),
        seq_wf(s2),
        covers_union(s1, s0, r),
        covers_union(s2, s1, r),
    ensures
        forall|a: u64| seq_covers(s2, a) <==> seq_covers(s1, a),
        forall|e: Range| s1.contains(e) <==> s2.contains(e),
{
    lemma_entries_canonical(s1, s2);
}

/// Spans allocated one after the other never overlap: the first span was
/// removed from the free set before the second was chosen from what was left.
/// `s0` is the free set before, `s1` after the first allocation of `r1`, `s2`
/// after the second allocation of `r2`.
pub proof fn lemma_allocations_disjoint(
    s0: Seq<Range>,
    s1: Seq<Range>,
    r1: Range,
    s2: Seq<Range>,
    r2: Range,
)
    requires
        covers_difference(s1, s0, r1),
        covers_difference(s2, s1, r2),
        forall|a: u64| range_covers(r2, a) ==> seq_covers(s1, a),
    ensures
        forall|a: u64| !(range_covers(r1, a) && range_covers(r2, a)),
{
}

/// Allocating a span and inserting it straight back restores the covered set,
/// and with it the total reported by `sum`: entry layout may differ, the
/// number of free bytes may not.
pub proof fn lemma_alloc_free_roundtrip(s0: Seq<Range>, s1: Seq<Range>, s2: Seq<Range>, r: Range)
    requires
        seq_wf(s0),
        seq_wf(s2),
        covers_difference(s1, s0, r),
        covers_union(s2, s1, r),
        forall|a: u64| range_covers(r, a) ==> seq_covers(s0, a),
    ensures
        forall|a: u64| seq_covers(s2, a) <==> seq_covers(s0, a),
        spec_sum(s2) == spec_sum(s0),
{
    lemma_sum_is_covered_card(s0);
    lemma_sum_is_covered_card(s2);
    assert(covered_set(s2) =~= covered_set(s0));
}

} // verus!
