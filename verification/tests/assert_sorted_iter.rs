use range_algebra::range::assert_sorted_iter::is_sorted_by_key;
use range_algebra::DebugAssertSortedByIter;
use range_algebra::NonZeroRange;
use range_algebra::OrderedRangeItem;
use std::ops::Range;

fn entry(range: Range<usize>, priority: u32, meta: u8) -> OrderedRangeItem<usize, u8> {
    OrderedRangeItem { range: NonZeroRange::new_unchecked(range), priority, meta }
}

#[test]
fn ascending_starts_are_sorted() {
    assert!(is_sorted_by_key(&vec![entry(0..3, 0, 0), entry(1..2, 9, 1), entry(5..6, 0, 2)]));
}

#[test]
fn equal_starts_need_descending_priorities() {
    assert!(is_sorted_by_key(&vec![entry(0..3, 2, 0), entry(0..9, 2, 1), entry(0..1, 1, 2)]));
    assert!(!is_sorted_by_key(&vec![entry(0..3, 1, 0), entry(0..9, 2, 1)]));
}

#[test]
fn descending_starts_are_not_sorted() {
    assert!(!is_sorted_by_key(&vec![entry(0..3, 0, 0), entry(5..6, 0, 1), entry(4..9, 0, 2)]));
}

#[test]
fn nothing_and_one_item_are_sorted() {
    assert!(is_sorted_by_key(&Vec::<OrderedRangeItem<usize, u8>>::new()));
    assert!(is_sorted_by_key(&vec![entry(7..8, 3, 0)]));
}

#[test]
fn items_are_handed_on_in_their_order() {
    let mut iter =
        DebugAssertSortedByIter::new(vec![entry(0..3, 0, 10), entry(1..2, 9, 11), entry(5..6, 0, 12)]);
    let metas: Vec<u8> = vec![
        iter.next().unwrap().meta,
        iter.next().unwrap().meta,
        iter.next().unwrap().meta,
    ];
    assert_eq!(vec![10, 11, 12], metas);
    assert!(iter.next().is_none());
    assert!(iter.next().is_none());
}

#[test]
fn fed_items_come_behind_the_others() {
    let mut iter = DebugAssertSortedByIter::new(vec![entry(0..3, 0, 10)]);
    assert!(!iter.is_empty());
    assert_eq!(iter.last(), None);
    iter.feed(entry(4..5, 2, 11));
    assert_eq!(iter.next().unwrap().meta, 10);
    assert_eq!(iter.last(), Some((0, u32::MAX)));
    assert_eq!(iter.next().unwrap().meta, 11);
    assert_eq!(iter.last(), Some((4, u32::MAX - 2)));
    assert!(iter.is_empty());
    assert!(iter.next().is_none());
}
