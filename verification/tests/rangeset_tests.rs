use kernel::rangeset::{Range, RangeSet};

fn entry_set(rs: &RangeSet) -> Vec<(u64, u64)> {
    let mut v: Vec<(u64, u64)> = rs.entries().iter().map(|r| (r.start, r.end)).collect();
    v.sort();
    v
}

#[test]
fn new_set_is_empty() {
    let rs = RangeSet::new();
    assert_eq!(rs.entries().len(), 0);
    assert_eq!(rs.sum(), Some(0));
}

#[test]
fn insert_single_range() {
    let mut rs = RangeSet::new();
    rs.insert(Range { start: 10, end: 19 });
    assert_eq!(entry_set(&rs), vec![(10, 19)]);
    assert_eq!(rs.sum(), Some(10));
}

#[test]
fn insert_same_range_twice_is_idempotent() {
    let mut once = RangeSet::new();
    once.insert(Range { start: 0x100, end: 0x1ff });

    let mut twice = RangeSet::new();
    twice.insert(Range { start: 0x100, end: 0x1ff });
    twice.insert(Range { start: 0x100, end: 0x1ff });

    assert_eq!(entry_set(&once), entry_set(&twice));
    assert_eq!(once.sum(), twice.sum());
}

#[test]
fn insert_merges_adjacent_ranges() {
    let mut rs = RangeSet::new();
    rs.insert(Range { start: 0, end: 9 });
    rs.insert(Range { start: 10, end: 19 });
    assert_eq!(entry_set(&rs), vec![(0, 19)]);
}

#[test]
fn insert_merges_overlapping_ranges() {
    let mut rs = RangeSet::new();
    rs.insert(Range { start: 0, end: 15 });
    rs.insert(Range { start: 10, end: 30 });
    assert_eq!(entry_set(&rs), vec![(0, 30)]);
}

#[test]
fn insert_merges_through_a_chain() {
    let mut rs = RangeSet::new();
    rs.insert(Range { start: 0, end: 9 });
    rs.insert(Range { start: 20, end: 29 });
    rs.insert(Range { start: 40, end: 49 });
    // Bridges both gaps, so all four pieces coalesce into one.
    rs.insert(Range { start: 5, end: 44 });
    assert_eq!(entry_set(&rs), vec![(0, 49)]);
}

#[test]
fn separate_ranges_stay_separate() {
    let mut rs = RangeSet::new();
    rs.insert(Range { start: 0, end: 9 });
    rs.insert(Range { start: 11, end: 20 });
    assert_eq!(entry_set(&rs), vec![(0, 9), (11, 20)]);
    assert_eq!(rs.sum(), Some(20));
}

#[test]
fn remove_splits_an_entry() {
    let mut rs = RangeSet::new();
    rs.insert(Range { start: 0, end: 99 });
    rs.remove(Range { start: 40, end: 49 });
    assert_eq!(entry_set(&rs), vec![(0, 39), (50, 99)]);
    assert_eq!(rs.sum(), Some(90));
}

#[test]
fn remove_clips_the_edges() {
    let mut rs = RangeSet::new();
    rs.insert(Range { start: 10, end: 29 });
    rs.remove(Range { start: 0, end: 14 });
    assert_eq!(entry_set(&rs), vec![(15, 29)]);
    rs.remove(Range { start: 25, end: 40 });
    assert_eq!(entry_set(&rs), vec![(15, 24)]);
}

#[test]
fn remove_deletes_contained_entries() {
    let mut rs = RangeSet::new();
    rs.insert(Range { start: 10, end: 19 });
    rs.insert(Range { start: 30, end: 39 });
    rs.remove(Range { start: 0, end: 50 });
    assert_eq!(rs.entries().len(), 0);
    assert_eq!(rs.sum(), Some(0));
}

#[test]
fn subtract_removes_every_entry_of_the_other_set() {
    let mut rs = RangeSet::new();
    rs.insert(Range { start: 0, end: 99 });
    let mut used = RangeSet::new();
    used.insert(Range { start: 10, end: 19 });
    used.insert(Range { start: 50, end: 59 });
    rs.subtract(&used);
    assert_eq!(entry_set(&rs), vec![(0, 9), (20, 49), (60, 99)]);
    assert_eq!(rs.sum(), Some(80));
}

#[test]
fn sum_matches_byte_per_byte_model() {
    // Mirror of the per-byte model on a small address window.
    let mut model = [false; 256];
    let mut rs = RangeSet::new();

    let ops: [(bool, u64, u64); 5] =
        [(true, 0, 63), (true, 100, 199), (false, 32, 131), (true, 64, 95), (false, 90, 99)];
    for &(is_insert, start, end) in ops.iter() {
        if is_insert {
            rs.insert(Range { start, end });
            for b in start..=end {
                model[b as usize] = true;
            }
        } else {
            rs.remove(Range { start, end });
            for b in start..=end {
                model[b as usize] = false;
            }
        }
        let expected = model.iter().filter(|&&x| x).count() as u64;
        assert_eq!(rs.sum(), Some(expected));
    }
}

#[test]
fn sum_overflows_on_the_full_address_space() {
    let mut rs = RangeSet::new();
    rs.insert(Range { start: 0, end: u64::MAX });
    assert_eq!(rs.sum(), None);
}

#[test]
fn allocate_rejects_zero_size_and_bad_alignment() {
    let mut rs = RangeSet::new();
    rs.insert(Range { start: 0x1000, end: 0x1fff });
    assert_eq!(rs.allocate(0, 1), None);
    assert_eq!(rs.allocate(16, 3), None);
    assert_eq!(rs.allocate(16, 0), None);
    // The set is untouched by the failures.
    assert_eq!(entry_set(&rs), vec![(0x1000, 0x1fff)]);
}

#[test]
fn allocate_returns_aligned_addresses() {
    let mut rs = RangeSet::new();
    rs.insert(Range { start: 0x1001, end: 0x2fff });
    let got = rs.allocate(0x10, 0x100);
    assert_eq!(got, Some(0x1100));
    // The alignment slack and the block are both gone from the free set.
    assert_eq!(entry_set(&rs), vec![(0x1110, 0x2fff)]);
}

#[test]
fn allocate_prefers_the_smaller_span() {
    let mut rs = RangeSet::new();
    // The first entry needs 0xff bytes of alignment slack; the second none.
    rs.insert(Range { start: 1, end: 0x1000 });
    rs.insert(Range { start: 0x2100, end: 0x22ff });
    assert_eq!(rs.allocate(0x10, 0x100), Some(0x2100));
}

#[test]
fn allocate_breaks_span_ties_toward_the_lowest_address() {
    let mut rs = RangeSet::new();
    // Equal spans; the higher-addressed entry sits first in entry order.
    rs.insert(Range { start: 0x5000, end: 0x5fff });
    rs.insert(Range { start: 0x1000, end: 0x1fff });
    assert_eq!(rs.allocate(0x100, 1), Some(0x1000));
}

#[test]
fn allocate_never_hands_out_the_same_bytes_twice() {
    let mut rs = RangeSet::new();
    rs.insert(Range { start: 0x1000, end: 0x8fff });
    let mut spans: Vec<(u64, u64)> = Vec::new();
    for _ in 0..8 {
        let at = rs.allocate(0x800, 0x800).unwrap() as u64;
        assert_eq!(at % 0x800, 0);
        for &(s, e) in spans.iter() {
            assert!(at + 0x7ff < s || e < at, "span overlap");
        }
        spans.push((at, at + 0x7ff));
    }
    assert_eq!(rs.sum(), Some(0x8000 - 8 * 0x800));
}

#[test]
fn allocate_then_insert_restores_the_free_bytes() {
    let mut rs = RangeSet::new();
    rs.insert(Range { start: 0x1000, end: 0x4fff });
    rs.insert(Range { start: 0x8000, end: 0x80ff });
    let before = rs.sum();
    let at = rs.allocate(0x1000, 0x1000).unwrap() as u64;
    assert_eq!(rs.sum(), Some(before.unwrap() - 0x1000));
    rs.insert(Range { start: at, end: at + 0xfff });
    assert_eq!(rs.sum(), before);
}

#[test]
fn allocate_fails_when_nothing_fits() {
    let mut rs = RangeSet::new();
    rs.insert(Range { start: 0x1000, end: 0x10ff });
    assert_eq!(rs.allocate(0x200, 1), None);
    assert_eq!(entry_set(&rs), vec![(0x1000, 0x10ff)]);
}

#[test]
fn capacity_holds_thirty_two_disjoint_ranges() {
    let mut rs = RangeSet::new();
    for i in 0..32u64 {
        rs.insert(Range { start: i * 16, end: i * 16 + 7 });
    }
    assert_eq!(rs.entries().len(), 32);
    // A range that merges is still accepted at full capacity.
    rs.insert(Range { start: 0, end: 7 });
    assert_eq!(rs.entries().len(), 32);
    assert_eq!(rs.sum(), Some(32 * 8));
}
