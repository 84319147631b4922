use tesseract_ocr::stats::Stats;

#[test]
fn mode_ties_resolve_to_highest_index() {
    let mut s = Stats::new(0, 10);
    s.add(2, 5);
    s.add(8, 5); // tied count with bucket 2, higher index must win
    assert_eq!(s.mode(), 8);
}

#[test]
fn pile_count_clamps_out_of_range() {
    let mut s = Stats::new(5, 10);
    s.add(5, 3);
    s.add(10, 4);
    assert_eq!(s.pile_count(0), 3); // clamps to rangemin bucket
    assert_eq!(s.pile_count(100), 4); // clamps to rangemax bucket
    assert_eq!(s.get_total(), 7);
}

#[test]
fn min_and_max_bucket_are_the_extreme_used_values() {
    let mut s = Stats::new(0, 10);
    s.add(2, 1);
    s.add(4, 1);
    s.add(6, 1);
    assert_eq!(s.min_bucket(), 2);
    assert_eq!(s.max_bucket(), 6);
    assert_eq!(s.get_total(), 3);
}

#[test]
fn default_stats_is_inert_for_integer_queries() {
    let mut s = Stats::default();
    assert_eq!(s.mode(), 0);
    assert_eq!(s.pile_count(5), 0);
    assert_eq!(s.get_total(), 0);
    s.add(3, 2);
    assert_eq!(s.get_total(), 0);
    assert_eq!(s.min_bucket(), 0);
    assert_eq!(s.max_bucket(), 0);
}

#[test]
fn set_range_and_clear_reset_the_counts() {
    let mut s = Stats::new(0, 4);
    s.add(1, 3);
    s.add(9, 2);
    assert_eq!(s.pile_count(4), 2);
    assert_eq!(s.get_total(), 5);
    assert!(!s.set_range(5, 1));
    assert_eq!((s.range_min(), s.range_max(), s.get_total()), (0, 4, 5));
    assert!(s.set_range(10, 20));
    assert_eq!((s.range_min(), s.range_max(), s.get_total()), (10, 20, 0));
    s.add(15, 4);
    assert_eq!(s.mode(), 15);
    s.clear();
    assert_eq!(s.get_total(), 0);
    assert_eq!(s.pile_count(15), 0);
    assert_eq!((s.range_min(), s.range_max()), (10, 20));
}

#[test]
fn malformed_range_falls_back_to_zero_one() {
    let s = Stats::new(7, 3);
    assert_eq!((s.range_min(), s.range_max()), (0, 1));
}

#[test]
fn set_range_on_the_default_state_allocates_storage() {
    let mut s = Stats::default();
    assert!(s.set_range(0, 0));
    s.add(0, 1);
    assert_eq!(s.get_total(), 1);
    assert_eq!(s.pile_count(0), 1);
}
