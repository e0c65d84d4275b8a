use range_algebra::CompactRanges;
use range_algebra::CompactRangesError;
use range_algebra::RunLength;
use std::ops::Range;

fn decoded<'a, TIncluded: RunLength, TExcluded: RunLength>(
    store: &'a CompactRanges<TIncluded, TExcluded, &'static str>,
) -> Vec<(Range<u64>, &'static str)> {
    store.iter().into_iter().map(|(range, meta)| (Range::from(range), *meta)).collect()
}

#[test]
fn two_ranges_are_stored_as_lengths() {
    let store =
        CompactRanges::<u8, u8, &str>::try_from_ordered_iter(vec![(10..20, "first"), (255..257, "second")])
            .unwrap();
    assert_eq!(store.initial_offset(), 10);
    assert_eq!(store.included(), &vec![10u8, 2u8]);
    assert_eq!(store.excluded(), &vec![235u8]);
    assert_eq!(store.meta(), &vec!["first", "second"]);
    assert_eq!(vec![(10..20, "first"), (255..257, "second")], decoded(&store));
}

#[test]
fn overlapping_ranges_are_refused() {
    let r = CompactRanges::<u8, u8, &str>::try_from_ordered_iter(vec![(10..12, "a"), (11..12, "b")]);
    assert_eq!(r.err(), Some(CompactRangesError::GapNotPositive { previous_end: 12, start: 11 }));
}

#[test]
fn touching_ranges_are_refused() {
    let r = CompactRanges::<u8, u8, &str>::try_from_ordered_iter(vec![(10..12, "a"), (12..14, "b")]);
    assert_eq!(r.err(), Some(CompactRangesError::GapNotPositive { previous_end: 12, start: 12 }));
}

#[test]
fn zero_length_range_is_refused() {
    let r = CompactRanges::<u8, u8, &str>::try_from_ordered_iter(vec![(10..10, "a")]);
    assert_eq!(r.err(), Some(CompactRangesError::RangeZeroLength { start: 10, end: 10 }));
}

#[test]
fn inverted_range_is_refused() {
    let r = CompactRanges::<u8, u8, &str>::try_from_ordered_iter(vec![(1..3, "a"), (9..7, "b")]);
    assert_eq!(r.err(), Some(CompactRangesError::RangeZeroLength { start: 9, end: 7 }));
}

#[test]
fn empty_input_is_refused() {
    let r = CompactRanges::<u8, u8, &str>::try_from_ordered_iter(Vec::new());
    assert_eq!(r.err(), Some(CompactRangesError::Empty));
}

#[test]
fn too_long_range_is_refused() {
    let r = CompactRanges::<u8, u16, &str>::try_from_ordered_iter(vec![(0..255, "a"), (1000..1256, "b")]);
    assert_eq!(r.err(), Some(CompactRangesError::IncludedTooLong { start: 1000, end: 1256 }));
    let first = CompactRanges::<u8, u16, &str>::try_from_ordered_iter(vec![(0..256, "a")]);
    assert_eq!(first.err(), Some(CompactRangesError::IncludedTooLong { start: 0, end: 256 }));
}

#[test]
fn too_long_gap_is_refused() {
    let r = CompactRanges::<u16, u8, &str>::try_from_ordered_iter(vec![(0..10, "a"), (266..270, "b")]);
    assert_eq!(r.err(), Some(CompactRangesError::ExcludedTooLong { previous_end: 10, start: 266 }));
}

#[test]
fn longest_lengths_fit() {
    let store = CompactRanges::<u8, u8, &str>::try_from_ordered_iter(vec![(0..255, "a"), (510..511, "b")])
        .unwrap();
    assert_eq!(store.included(), &vec![255u8, 1u8]);
    assert_eq!(store.excluded(), &vec![255u8]);
}

#[test]
fn the_gap_is_looked_at_before_the_range() {
    let r = CompactRanges::<u8, u8, &str>::try_from_ordered_iter(vec![(5..9, "a"), (7..7, "b")]);
    assert_eq!(r.err(), Some(CompactRangesError::GapNotPositive { previous_end: 9, start: 7 }));
}

#[test]
fn wide_types_take_the_whole_coordinate_space() {
    let input = vec![(0..1, "a"), (u64::MAX - 1..u64::MAX, "b")];
    let store = CompactRanges::<u64, u64, &str>::try_from_ordered_iter(input.clone()).unwrap();
    assert_eq!(store.excluded(), &vec![u64::MAX - 2]);
    assert_eq!(input, decoded(&store));
}

#[test]
fn stored_ranges_come_back_as_they_were() {
    let input = vec![(3..4, "a"), (5..70, "b"), (71..300, "c"), (65000..65001, "d")];
    let store = CompactRanges::<u16, u32, &str>::try_from_ordered_iter(input.clone()).unwrap();
    assert_eq!(input, decoded(&store));
    assert_eq!(input, decoded(&store));
}

#[test]
fn parts_of_a_store_make_the_store_again() {
    let store =
        CompactRanges::<u8, u8, &str>::try_from_ordered_iter(vec![(10..20, "first"), (255..257, "second")])
            .unwrap();
    let again = CompactRanges::<u8, u8, &str>::try_from_parts(
        store.initial_offset(),
        store.included().clone(),
        store.excluded().clone(),
        store.meta().clone(),
    )
    .unwrap();
    assert_eq!(vec![(10..20, "first"), (255..257, "second")], decoded(&again));
}

#[test]
fn ill_formed_parts_are_refused() {
    assert!(CompactRanges::<u8, u8, &str>::try_from_parts(0, vec![1, 2], vec![], vec!["a", "b"]).is_none());
    assert!(CompactRanges::<u8, u8, &str>::try_from_parts(0, vec![1, 2], vec![3], vec!["a"]).is_none());
    assert!(CompactRanges::<u8, u8, &str>::try_from_parts(0, vec![], vec![], vec![]).is_none());
    assert!(CompactRanges::<u8, u8, &str>::try_from_parts(0, vec![1, 0], vec![3], vec!["a", "b"]).is_none());
    assert!(CompactRanges::<u8, u8, &str>::try_from_parts(0, vec![1, 2], vec![0], vec!["a", "b"]).is_none());
    assert!(CompactRanges::<u8, u8, &str>::try_from_parts(u64::MAX, vec![1], vec![], vec!["a"]).is_none());
    assert!(CompactRanges::<u8, u8, &str>::try_from_parts(u64::MAX - 3, vec![1, 2], vec![1], vec!["a", "b"])
        .is_none());
    assert!(CompactRanges::<u8, u8, &str>::try_from_parts(u64::MAX - 4, vec![1, 2], vec![1], vec!["a", "b"])
        .is_some());
}

#[test]
fn narrow_and_widen_agree() {
    assert_eq!(<u8 as RunLength>::narrow(255), Some(255u8));
    assert_eq!(<u8 as RunLength>::narrow(256), None);
    assert_eq!(<u16 as RunLength>::narrow(65535), Some(65535u16));
    assert_eq!(<u16 as RunLength>::narrow(65536), None);
    assert_eq!(<u32 as RunLength>::narrow(4294967295), Some(4294967295u32));
    assert_eq!(<u32 as RunLength>::narrow(4294967296), None);
    assert_eq!(<u64 as RunLength>::narrow(u64::MAX), Some(u64::MAX));
    assert_eq!(RunLength::widen(7u8), 7u64);
    assert_eq!(RunLength::widen(70000u32), 70000u64);
}
