use mips_rs::machine::memory::{AllocError, Allocator, MemPosition, MemRange, MemRangeStatus};

fn free(lower: u32, upper: u32) -> MemRange {
    MemRange::new(lower, upper, MemRangeStatus::Free, None)
}

#[test]
fn fixed_and_arbitrary_requests_pack_from_the_window_start() {
    // Two text segments: one requesting the window's start and 8 bytes,
    // one unconstrained of 12 bytes.
    let positions = vec![
        MemPosition::new(Some(0x0040_0000), None, 8, Some(0)),
        MemPosition::new(None, None, 12, Some(1)),
    ];
    let ranges = Allocator::first_fit(&positions, 0x0040_0000, 0x0050_0000).unwrap();
    assert_eq!(ranges.len(), 3);
    assert_eq!(ranges[0].get_range(), (0x0040_0000, 0x0040_0007));
    assert_eq!(ranges[0].get_status(), MemRangeStatus::Allocated);
    assert_eq!(ranges[0].get_data(), Some(0));
    assert_eq!(ranges[1].get_range(), (0x0040_0008, 0x0040_0013));
    assert_eq!(ranges[1].get_status(), MemRangeStatus::Allocated);
    assert_eq!(ranges[1].get_data(), Some(1));
    assert_eq!(ranges[2].get_range(), (0x0040_0014, 0x0050_0000));
    assert_eq!(ranges[2].get_status(), MemRangeStatus::Free);
}

#[test]
fn result_tiles_the_window_with_no_gaps_and_no_overlaps() {
    let positions = vec![
        MemPosition::new(None, None, 100, Some(0)),
        MemPosition::new(Some(1000), Some(1999), 1000, Some(1)),
        MemPosition::new(None, None, 50, Some(2)),
    ];
    let ranges = Allocator::first_fit(&positions, 0, 10_000).unwrap();
    assert_eq!(ranges[0].get_range().0, 0);
    assert_eq!(ranges[ranges.len() - 1].get_range().1, 10_000);
    let mut total: u64 = 0;
    for w in ranges.windows(2) {
        assert_eq!(w[0].get_range().1 + 1, w[1].get_range().0);
    }
    for r in &ranges {
        let (lo, hi) = r.get_range();
        assert!(lo <= hi);
        total += (hi - lo + 1) as u64;
    }
    assert_eq!(total, 10_001);
}

#[test]
fn fixed_placement_is_honored_regardless_of_request_order() {
    // The fixed request arrives last but still gets exactly its span.
    let positions = vec![
        MemPosition::new(None, None, 600, Some(0)),
        MemPosition::new(None, None, 600, Some(1)),
        MemPosition::new(Some(1200), Some(1799), 600, Some(2)),
    ];
    let ranges = Allocator::first_fit(&positions, 0, 4000).unwrap();
    let fixed: Vec<&MemRange> = ranges.iter().filter(|r| r.get_data() == Some(2)).collect();
    assert_eq!(fixed.len(), 1);
    assert_eq!(fixed[0].get_range(), (1200, 1799));
    assert_eq!(fixed[0].get_status(), MemRangeStatus::Allocated);
}

#[test]
fn size_only_request_takes_first_large_enough_free_range() {
    // Fixed requests carve the window into free ranges of 100, 300 and a
    // tail; a 200-byte request must skip the 100-byte hole and take the
    // 300-byte one.
    let positions = vec![
        MemPosition::new(Some(100), Some(199), 100, Some(0)),
        MemPosition::new(Some(500), Some(599), 100, Some(1)),
        MemPosition::new(None, None, 200, Some(2)),
    ];
    let ranges = Allocator::first_fit(&positions, 0, 1000).unwrap();
    let arb: Vec<&MemRange> = ranges.iter().filter(|r| r.get_data() == Some(2)).collect();
    assert_eq!(arb.len(), 1);
    assert_eq!(arb[0].get_range(), (200, 399));
}

#[test]
fn same_input_twice_yields_identical_placement() {
    let positions = vec![
        MemPosition::new(None, None, 64, Some(0)),
        MemPosition::new(Some(512), None, 128, Some(1)),
        MemPosition::new(None, None, 32, Some(2)),
    ];
    let a = Allocator::first_fit(&positions, 0, 2048).unwrap();
    let b = Allocator::first_fit(&positions, 0, 2048).unwrap();
    assert_eq!(a, b);
}

#[test]
fn fixed_request_outside_every_free_range_fails() {
    let positions = vec![
        MemPosition::new(Some(100), Some(199), 100, Some(0)),
        MemPosition::new(Some(150), Some(249), 100, Some(1)),
    ];
    let err = Allocator::first_fit(&positions, 0, 1000).unwrap_err();
    match err {
        AllocError::PlacementFixed { lower, upper, ranges } => {
            assert_eq!(lower, 150);
            assert_eq!(upper, 249);
            assert!(!ranges.is_empty());
        },
        other => panic!("expected a fixed placement failure, got {:?}", other),
    }
}

#[test]
fn size_only_request_larger_than_any_free_range_fails() {
    let positions = vec![MemPosition::new(None, None, 2000, Some(0))];
    let err = Allocator::first_fit(&positions, 0, 999).unwrap_err();
    match err {
        AllocError::PlacementSize { size, ranges } => {
            assert_eq!(size, 2000);
            assert_eq!(ranges.len(), 1);
        },
        other => panic!("expected a size placement failure, got {:?}", other),
    }
}

#[test]
fn empty_request_list_leaves_the_whole_window_free() {
    let positions: Vec<MemPosition> = Vec::new();
    let ranges = Allocator::first_fit(&positions, 5, 10).unwrap();
    assert_eq!(ranges.len(), 1);
    assert_eq!(ranges[0].get_range(), (5, 10));
    assert_eq!(ranges[0].get_status(), MemRangeStatus::Free);
}

#[test]
fn exact_fit_consumes_a_free_range_completely() {
    let positions = vec![MemPosition::new(Some(0), Some(99), 100, Some(7))];
    let ranges = Allocator::first_fit(&positions, 0, 99).unwrap();
    assert_eq!(ranges.len(), 1);
    assert_eq!(ranges[0].get_status(), MemRangeStatus::Allocated);
}

#[test]
fn range_insert_splits_into_prefix_middle_suffix() {
    let outer = free(100, 999);
    let middle = MemRange::new(300, 499, MemRangeStatus::Allocated, Some(3));
    let (before, mid, after) = outer.insert(middle);
    assert_eq!(before.unwrap().get_range(), (100, 299));
    assert_eq!(mid.get_range(), (300, 499));
    assert_eq!(mid.get_data(), Some(3));
    assert_eq!(after.unwrap().get_range(), (500, 999));
}

#[test]
fn range_insert_at_edges_leaves_no_empty_fragments() {
    let outer = free(0, 9);
    let (b, _, a) = outer.insert(MemRange::new(0, 9, MemRangeStatus::Allocated, None));
    assert!(b.is_none());
    assert!(a.is_none());
    let (b, _, a) = free(0, 9).insert(MemRange::new(0, 4, MemRangeStatus::Allocated, None));
    assert!(b.is_none());
    assert_eq!(a.unwrap().get_range(), (5, 9));
}

#[test]
fn range_shrink_splits_off_a_trailing_free_block() {
    let r = MemRange::new(0, 99, MemRangeStatus::Allocated, Some(1));
    let (kept, tail) = r.shrink(25);
    assert_eq!(kept.get_range(), (0, 74));
    assert_eq!(kept.get_data(), Some(1));
    assert_eq!(tail.get_range(), (75, 99));
    assert_eq!(tail.get_status(), MemRangeStatus::Free);
}

#[test]
fn range_grow_takes_bytes_from_the_free_successor() {
    let r = MemRange::new(0, 99, MemRangeStatus::Allocated, None);
    let next = free(100, 199);
    let (grown, rest) = r.grow(&next, 40);
    assert_eq!(grown.get_range(), (0, 139));
    assert_eq!(rest.unwrap().get_range(), (140, 199));
    let (grown2, rest2) = MemRange::new(0, 99, MemRangeStatus::Allocated, None).grow(&next, 100);
    assert_eq!(grown2.get_range(), (0, 199));
    assert!(rest2.is_none());
}

#[test]
fn range_merge_coalesces_adjacent_free_ranges() {
    let merged = free(0, 49).merge(free(50, 99));
    assert_eq!(merged.get_range(), (0, 99));
}

#[test]
fn range_accessors_report_what_was_set() {
    let mut r = MemRange::new(10, 20, MemRangeStatus::Free, None);
    assert_eq!(r.size_bytes(), 11);
    r.set_status(MemRangeStatus::Allocated);
    r.set_data(Some(4));
    assert_eq!(r.get_status(), MemRangeStatus::Allocated);
    assert_eq!(r.get_data(), Some(4));
    let r2 = r.set_range(15, 25);
    assert_eq!(r2.get_range(), (15, 25));
    assert_eq!(r2.get_data(), Some(4));
}

#[test]
fn position_accessors_report_what_was_set() {
    let mut p = MemPosition::new(Some(0), Some(9), 10, None);
    assert_eq!(p.get_range(), (Some(0), Some(9)));
    assert_eq!(p.size_bytes(), 10);
    p.set_data(Some(2));
    assert_eq!(p.get_data(), Some(2));
    let p2 = p.set_range(None, None, 16);
    assert_eq!(p2.get_range(), (None, None));
    assert_eq!(p2.size_bytes(), 16);
    assert_eq!(p2.get_data(), Some(2));
}
