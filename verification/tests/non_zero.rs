use range_algebra::NonZeroRange;
use range_algebra::OrderedRangeItem;
use std::ops::Range;

fn test_both_way(a: Range<i32>, b: Range<i32>, expected: bool) {
    assert_eq!(
        expected,
        NonZeroRange::new_unchecked(a.clone()).overlaps(&NonZeroRange::new_unchecked(b.clone()))
    );
    assert_eq!(
        expected,
        NonZeroRange::new_unchecked(b).overlaps(&NonZeroRange::new_unchecked(a))
    );
}

#[test]
fn non_overlapping_adjacent() {
    test_both_way(0..5, 5..10, false);
}

#[test]
fn overlapping() {
    test_both_way(0..5, 3..7, true);
}

#[test]
fn one_inside_other() {
    test_both_way(2..4, 1..5, true);
}

#[test]
fn same_ranges() {
    test_both_way(3..7, 3..7, true);
}

#[test]
fn completely_separate() {
    test_both_way(0..2, 3..5, false);
}

#[test]
fn overlapping_start() {
    test_both_way(0..5, 4..6, true);
}

#[test]
fn overlapping_end() {
    test_both_way(3..7, 0..4, true);
}

#[test]
fn checked_bounds_are_kept() {
    let range = NonZeroRange::try_from(3usize..7usize).unwrap();
    assert_eq!(range.start, 3);
    assert_eq!(range.end, 7);
    assert_eq!(Range::from(range), 3..7);
}

#[test]
fn equal_bounds_are_refused() {
    let error = NonZeroRange::try_from(4usize..4usize).unwrap_err();
    assert_eq!(error.0, 4..4);
}

#[test]
fn inverted_bounds_are_refused() {
    let error = NonZeroRange::try_from(9i32..2i32).unwrap_err();
    assert_eq!(error.0, 9..2);
}

#[test]
fn len_is_the_distance_of_the_bounds() {
    assert_eq!(NonZeroRange::new_unchecked(3usize..7usize).len(), 4);
    assert_eq!(NonZeroRange::new_unchecked(0usize..1usize).len(), 1);
}

#[test]
fn checked_range_is_not_empty() {
    assert!(!NonZeroRange::new_unchecked(3usize..7usize).is_empty());
}

#[test]
fn add_moves_both_bounds_up() {
    let moved = NonZeroRange::new_unchecked(3usize..7usize) + 10;
    assert_eq!(Range::from(moved), 13..17);
}

#[test]
fn sub_moves_both_bounds_down() {
    let moved = NonZeroRange::new_unchecked(13usize..17usize) - 3;
    assert_eq!(Range::from(moved), 10..14);
}

#[test]
fn add_then_sub_gives_the_range_back() {
    let range = NonZeroRange::new_unchecked(5usize..6usize);
    assert_eq!(range, (range + 7) - 7);
}

#[test]
fn comparator_is_start_and_inverted_priority() {
    let item = OrderedRangeItem { priority: 3, range: NonZeroRange::new_unchecked(5usize..9usize), meta: () };
    assert_eq!(item.comparator(), (5, u32::MAX - 3));
    let top = OrderedRangeItem { priority: u32::MAX, range: NonZeroRange::new_unchecked(0usize..1usize), meta: () };
    assert_eq!(top.comparator(), (0, 0));
}
