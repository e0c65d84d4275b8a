use range_algebra::range::assert_sorted_iter::is_sorted_by_key;
use range_algebra::NonZeroRange;
use range_algebra::OrderedNonOverlappingRangeIter;
use range_algebra::OrderedRangeItem;
use std::collections::VecDeque;
use std::ops::Range;

fn item<M>(range: Range<usize>, priority: u32, meta: M) -> OrderedRangeItem<usize, M> {
    OrderedRangeItem { range: NonZeroRange::new_unchecked(range), priority, meta }
}

fn merged<M: Clone>(items: Vec<OrderedRangeItem<usize, M>>) -> Vec<OrderedRangeItem<usize, M>> {
    assert!(is_sorted_by_key(&items));
    OrderedNonOverlappingRangeIter::new(items).into_vec()
}

fn ranges<M>(items: Vec<OrderedRangeItem<usize, M>>) -> Vec<Range<usize>> {
    items.into_iter().map(|x| x.range.into()).collect()
}

#[test]
fn priority_overlaps_before() {
    let out = merged(vec![
        OrderedRangeItem { range: NonZeroRange::new_unchecked(0..10), priority: 1, meta: () },
        OrderedRangeItem { range: NonZeroRange::new_unchecked(5..15), priority: 0, meta: () },
    ]);
    assert_eq!(vec!(0..10, 10..15), ranges(out));
}

#[test]
fn same_start_with_inner_high_prio() {
    let out = merged(vec![
        OrderedRangeItem { range: NonZeroRange::new_unchecked(0..15), priority: 0, meta: 42 },
        OrderedRangeItem { range: NonZeroRange::new_unchecked(0..10), priority: 0, meta: 84 },
    ]);
    let got: Vec<(Range<usize>, i32)> =
        out.into_iter().map(|x| (x.range.into(), x.meta)).collect();
    assert_eq!(vec!((0..15, 42)), got);
}

#[test]
fn ignore_same_priority_extending_first() {
    let out = merged(vec![
        OrderedRangeItem { range: NonZeroRange::new_unchecked(0..10), priority: 0, meta: () },
        OrderedRangeItem { range: NonZeroRange::new_unchecked(0..20), priority: 0, meta: () },
        OrderedRangeItem { range: NonZeroRange::new_unchecked(1..15), priority: 2, meta: () },
    ]);
    assert_eq!(vec!(0..1, 1..15, 15..20), ranges(out));
}

#[test]
fn ignore_same_priority_extending_first_same_range() {
    let out = merged(vec![
        OrderedRangeItem { range: NonZeroRange::new_unchecked(0..10), priority: 0, meta: 10 },
        OrderedRangeItem { range: NonZeroRange::new_unchecked(0..20), priority: 0, meta: 20 },
        OrderedRangeItem { range: NonZeroRange::new_unchecked(10..20), priority: 2, meta: 30 },
    ]);
    let got: Vec<(Range<usize>, i32)> =
        out.into_iter().map(|x| (x.range.into(), x.meta)).collect();
    assert_eq!(vec!((0..10, 10), (10..20, 30)), got);
}

#[test]
fn ignore_low_priority_in_the_middle() {
    let out = merged(vec![
        OrderedRangeItem { range: NonZeroRange::new_unchecked(0..10), priority: 1, meta: () },
        OrderedRangeItem { range: NonZeroRange::new_unchecked(1..15), priority: 2, meta: () },
        OrderedRangeItem { range: NonZeroRange::new_unchecked(1..15), priority: 0, meta: () },
    ]);
    assert_eq!(vec!(0..1, 1..15), ranges(out));
}

#[test]
fn merge_non_overlapping_same_prio() {
    let out = merged(vec![
        OrderedRangeItem { range: NonZeroRange::new_unchecked(12..14), meta: 1, priority: u32::MAX },
        OrderedRangeItem { range: NonZeroRange::new_unchecked(16..17), meta: 1, priority: u32::MAX },
    ]);
    assert_eq!(vec![12..14, 16..17], ranges(out));
}

#[test]
fn surrounding_same_prio() {
    let out = merged(vec![
        OrderedRangeItem { range: NonZeroRange::new_unchecked(12..18), meta: 1, priority: u32::MAX },
        OrderedRangeItem { range: NonZeroRange::new_unchecked(13..17), meta: 1, priority: u32::MAX },
        OrderedRangeItem { range: NonZeroRange::new_unchecked(16..17), meta: 1, priority: u32::MAX },
    ]);
    assert_eq!(vec![12..18], ranges(out));
}

#[test]
fn surrounding_low_nostart_prio() {
    let out = merged(vec![
        OrderedRangeItem { range: NonZeroRange::new_unchecked(12..18), meta: 1, priority: 0 },
        OrderedRangeItem { range: NonZeroRange::new_unchecked(16..17), meta: 1, priority: 2 },
        OrderedRangeItem { range: NonZeroRange::new_unchecked(16..17), meta: 1, priority: 1 },
    ]);
    let got: Vec<(Range<usize>, u32)> =
        out.into_iter().map(|x| (Range::from(x.range), x.priority)).collect();
    assert_eq!(vec![(12..16, 0), (16..17, 2), (17..18, 0)], got);
}

#[test]
fn empty_input_gives_nothing() {
    let mut merge = OrderedNonOverlappingRangeIter::<u8>::new(Vec::new());
    assert!(merge.next().is_none());
    assert!(merge.next().is_none());
}

#[test]
fn single_item_comes_out_unchanged() {
    let out = merged(vec![item(3..9, 5, "only")]);
    assert_eq!(1, out.len());
    assert_eq!(Range::from(out[0].range), 3..9);
    assert_eq!(out[0].priority, 5);
    assert_eq!(out[0].meta, "only");
}

#[test]
fn split_item_keeps_its_payload_on_both_sides() {
    let out = merged(vec![
        item(0..20, 0, String::from("low")),
        item(5..10, 3, String::from("high")),
    ]);
    let got: Vec<(Range<usize>, u32, String)> =
        out.into_iter().map(|x| (x.range.into(), x.priority, x.meta)).collect();
    assert_eq!(
        vec![
            (0..5, 0, String::from("low")),
            (5..10, 3, String::from("high")),
            (10..20, 0, String::from("low")),
        ],
        got
    );
}

#[test]
fn covered_item_disappears() {
    let out = merged(vec![item(0..8, 1, 'b'), item(0..4, 0, 'a')]);
    let got: Vec<(Range<usize>, char)> =
        out.into_iter().map(|x| (x.range.into(), x.meta)).collect();
    assert_eq!(vec![(0..8, 'b')], got);
}

#[test]
fn rest_of_an_item_disappears_under_a_later_item() {
    let out = merged(vec![item(0..10, 5, 'a'), item(0..12, 0, 'b'), item(3..20, 1, 'c')]);
    let got: Vec<(Range<usize>, char)> =
        out.into_iter().map(|x| (x.range.into(), x.meta)).collect();
    assert_eq!(vec![(0..10, 'a'), (10..20, 'c')], got);
}

#[test]
fn touching_items_both_stay() {
    let out = merged(vec![item(0..5, 0, 1), item(5..9, 7, 2)]);
    let got: Vec<(Range<usize>, i32)> =
        out.into_iter().map(|x| (x.range.into(), x.meta)).collect();
    assert_eq!(vec![(0..5, 1), (5..9, 2)], got);
}

#[test]
fn next_gives_a_piece_only_when_it_is_final() {
    let mut merge = OrderedNonOverlappingRangeIter::new(vec![
        item(0..4, 0, 1),
        item(6..9, 0, 2),
        item(7..8, 1, 3),
        item(20..30, 0, 4),
    ]);
    let first = merge.next().unwrap();
    assert_eq!((Range::from(first.range), first.meta), (0..4, 1));
    let second = merge.next().unwrap();
    assert_eq!((Range::from(second.range), second.meta), (6..7, 2));
    let third = merge.next().unwrap();
    assert_eq!((Range::from(third.range), third.meta), (7..8, 3));
    let fourth = merge.next().unwrap();
    assert_eq!((Range::from(fourth.range), fourth.meta), (8..9, 2));
    let fifth = merge.next().unwrap();
    assert_eq!((Range::from(fifth.range), fifth.meta), (20..30, 4));
    assert!(merge.next().is_none());
}

#[test]
fn into_vec_gives_what_is_left() {
    let mut merge = OrderedNonOverlappingRangeIter::new(vec![
        item(0..4, 0, 1),
        item(6..9, 0, 2),
        item(20..30, 0, 3),
    ]);
    let first = merge.next().unwrap();
    assert_eq!(Range::from(first.range), 0..4);
    assert_eq!(vec![6..9, 20..30], ranges(merge.into_vec()));
}

fn deque<M>(items: Vec<OrderedRangeItem<usize, M>>) -> VecDeque<OrderedRangeItem<usize, M>> {
    items.into_iter().collect()
}

fn shape<M>(buffer: &VecDeque<OrderedRangeItem<usize, M>>) -> Vec<(usize, usize, u32)> {
    buffer.iter().map(|x| (x.range.start, x.range.end, x.priority)).collect()
}

#[test]
fn insert_behind_an_item_out_of_reach() {
    let mut buffer = deque(vec![item(0..5, 9, ())]);
    OrderedNonOverlappingRangeIter::insert_remainer(&mut buffer, item(5..8, 1, ()));
    assert_eq!(vec![(0, 5, 9), (5, 8, 1)], shape(&buffer));
}

#[test]
fn insert_into_an_empty_buffer() {
    let mut buffer: VecDeque<OrderedRangeItem<usize, ()>> = VecDeque::new();
    OrderedNonOverlappingRangeIter::insert_remainer(&mut buffer, item(5..8, 1, ()));
    assert_eq!(vec![(5, 8, 1)], shape(&buffer));
}

#[test]
fn insert_under_equal_priority_keeps_what_sticks_out() {
    let mut buffer = deque(vec![item(0..5, 1, ())]);
    OrderedNonOverlappingRangeIter::insert_remainer(&mut buffer, item(3..8, 1, ()));
    assert_eq!(vec![(0, 5, 1), (5, 8, 1)], shape(&buffer));
}

#[test]
fn insert_under_higher_priority_is_dropped_when_covered() {
    let mut buffer = deque(vec![item(0..9, 2, ())]);
    OrderedNonOverlappingRangeIter::insert_remainer(&mut buffer, item(3..8, 1, ()));
    assert_eq!(vec![(0, 9, 2)], shape(&buffer));
}

#[test]
fn insert_over_lower_priority_splits_it() {
    let mut buffer = deque(vec![item(0..9, 1, 'x')]);
    OrderedNonOverlappingRangeIter::insert_remainer(&mut buffer, item(3..8, 2, 'y'));
    assert_eq!(vec![(0, 3, 1), (3, 8, 2), (8, 9, 1)], shape(&buffer));
    let metas: Vec<char> = buffer.iter().map(|x| x.meta).collect();
    assert_eq!(vec!['x', 'y', 'x'], metas);
}

#[test]
fn insert_over_lower_priority_cuts_its_end() {
    let mut buffer = deque(vec![item(0..6, 1, ())]);
    OrderedNonOverlappingRangeIter::insert_remainer(&mut buffer, item(3..8, 2, ()));
    assert_eq!(vec![(0, 3, 1), (3, 8, 2)], shape(&buffer));
}

#[test]
fn insert_over_lower_priority_cuts_its_start_and_goes_on() {
    let mut buffer = deque(vec![item(0..4, 5, ()), item(4..9, 1, ())]);
    OrderedNonOverlappingRangeIter::insert_remainer(&mut buffer, item(4..6, 2, ()));
    assert_eq!(vec![(0, 4, 5), (4, 6, 2), (6, 9, 1)], shape(&buffer));
}

#[test]
fn insert_over_lower_priority_removes_what_it_covers() {
    let mut buffer = deque(vec![item(0..4, 5, ()), item(4..6, 1, ()), item(6..7, 0, ())]);
    OrderedNonOverlappingRangeIter::insert_remainer(&mut buffer, item(4..8, 2, ()));
    assert_eq!(vec![(0, 4, 5), (4, 8, 2)], shape(&buffer));
}

#[test]
fn insert_goes_to_the_front_when_nothing_stops_it() {
    let mut buffer = deque(vec![item(2..4, 1, ())]);
    OrderedNonOverlappingRangeIter::insert_remainer(&mut buffer, item(2..8, 2, ()));
    assert_eq!(vec![(2, 8, 2)], shape(&buffer));
}

/// The item that holds `x` among `items`: the one of the highest priority
/// that covers it, and the first of these.
fn winner<M>(items: &[OrderedRangeItem<usize, M>], x: usize) -> Option<usize> {
    let mut best: Option<usize> = None;
    for (at, item) in items.iter().enumerate() {
        if item.range.start <= x && x < item.range.end {
            match best {
                Some(held) if items[held].priority >= item.priority => {}
                _ => best = Some(at),
            }
        }
    }
    best
}

fn assert_sound_merge(items: Vec<OrderedRangeItem<usize, usize>>, limit: usize) {
    let given: Vec<(usize, usize, u32, usize)> =
        items.iter().map(|x| (x.range.start, x.range.end, x.priority, x.meta)).collect();
    let input: Vec<OrderedRangeItem<usize, usize>> =
        given.iter().map(|g| item(g.0..g.1, g.2, g.3)).collect();
    let out = merged(items);
    for piece in out.iter() {
        assert!(piece.range.start < piece.range.end);
    }
    for pair in out.windows(2) {
        assert!(pair[0].range.end <= pair[1].range.start);
        assert!(pair[0].range.start < pair[1].range.start);
    }
    for x in 0..limit {
        let holder = out.iter().find(|p| p.range.start <= x && x < p.range.end);
        match winner(&input, x) {
            None => assert!(holder.is_none()),
            Some(at) => {
                let piece = holder.unwrap();
                assert_eq!(piece.meta, input[at].meta);
                assert_eq!(piece.priority, input[at].priority);
            }
        }
    }
}

#[test]
fn merged_pieces_lie_apart_and_belong_to_the_winners() {
    assert_sound_merge(
        vec![
            item(0..10, 1, 0),
            item(2..30, 0, 1),
            item(11..40, 2, 2),
            item(35..38, 1, 3),
            item(39..50, 5, 4),
            item(45..47, 9, 5),
            item(46..60, 0, 6),
            item(70..80, 0, 7),
            item(70..75, 0, 8),
            item(78..90, 0, 9),
        ],
        100,
    );
}

#[test]
fn merged_staircase_of_falling_priorities() {
    assert_sound_merge(
        vec![
            item(0..10, 5, 0),
            item(0..20, 4, 1),
            item(0..30, 3, 2),
            item(0..40, 2, 3),
            item(5..35, 4, 4),
            item(36..38, 9, 5),
        ],
        50,
    );
}

#[test]
fn short_item_of_higher_priority_leaves_a_later_piece_alone() {
    let out = merged(vec![item(0..10, 0, 'a'), item(0..20, 0, 'b'), item(1..5, 2, 'c')]);
    let got: Vec<(Range<usize>, char)> =
        out.into_iter().map(|x| (x.range.into(), x.meta)).collect();
    assert_eq!(vec![(0..1, 'a'), (1..5, 'c'), (5..10, 'a'), (10..20, 'b')], got);
}

#[test]
fn shadowed_item_leaves_the_piece_behind_it_alone() {
    let out = merged(vec![item(0..10, 5, 1), item(0..20, 1, 2), item(1..5, 3, 3)]);
    let got: Vec<(Range<usize>, u32, i32)> =
        out.into_iter().map(|x| (x.range.into(), x.priority, x.meta)).collect();
    assert_eq!(vec![(0..10, 5, 1), (10..20, 1, 2)], got);
}

#[test]
fn insert_leaves_an_entry_wholly_behind_alone() {
    let mut buffer = deque(vec![item(0..10, 5, 1), item(10..20, 1, 2)]);
    OrderedNonOverlappingRangeIter::insert_remainer(&mut buffer, item(1..5, 3, 3));
    assert_eq!(vec![(0, 10, 5), (10, 20, 1)], shape(&buffer));
    let metas: Vec<i32> = buffer.iter().map(|x| x.meta).collect();
    assert_eq!(vec![1, 2], metas);
}

#[test]
fn insert_before_entries_wholly_behind() {
    let mut buffer = deque(vec![item(0..2, 1, ()), item(10..20, 1, ()), item(20..30, 0, ())]);
    OrderedNonOverlappingRangeIter::insert_remainer(&mut buffer, item(4..6, 3, ()));
    assert_eq!(vec![(0, 2, 1), (4, 6, 3), (10, 20, 1), (20, 30, 0)], shape(&buffer));
}

#[test]
fn nested_items_of_rising_priority() {
    let out = merged(vec![item(0..30, 0, 'a'), item(2..10, 1, 'b'), item(4..6, 3, 'c')]);
    let got: Vec<(Range<usize>, char)> =
        out.into_iter().map(|x| (x.range.into(), x.meta)).collect();
    assert_eq!(
        vec![(0..2, 'a'), (2..4, 'b'), (4..6, 'c'), (6..10, 'b'), (10..30, 'a')],
        got
    );
}

#[test]
fn merged_nested_and_crossing_items() {
    assert_sound_merge(
        vec![
            item(0..10, 1, 0),
            item(2..30, 0, 1),
            item(4..6, 3, 2),
            item(4..8, 2, 3),
            item(9..12, 1, 4),
            item(11..40, 2, 5),
            item(12..13, 7, 6),
            item(50..60, 0, 7),
            item(50..55, 0, 8),
            item(51..52, 4, 9),
            item(58..70, 0, 10),
        ],
        80,
    );
}

#[test]
fn pushed_items_give_their_pieces_as_soon_as_they_are_final() {
    let mut merge = OrderedNonOverlappingRangeIter::<char>::new(Vec::new());
    assert!(merge.pop_final().is_none());
    let first = item(0..4, 0, 'a');
    assert!(merge.takes_next(&first));
    merge.push(first);
    assert!(merge.pop_final().is_none());
    let second = item(2..9, 1, 'b');
    assert!(merge.takes_next(&second));
    merge.push(second);
    assert!(merge.pop_final().is_none());
    let third = item(3..5, 0, 'c');
    assert!(merge.takes_next(&third));
    merge.push(third);
    let piece = merge.pop_final().unwrap();
    assert_eq!((Range::from(piece.range), piece.meta), (0..2, 'a'));
    assert!(merge.pop_final().is_none());
    let fourth = item(20..30, 0, 'd');
    assert!(merge.takes_next(&fourth));
    merge.push(fourth);
    let piece = merge.pop_final().unwrap();
    assert_eq!((Range::from(piece.range), piece.meta), (2..9, 'b'));
    assert!(merge.pop_final().is_none());
    let last = merge.next().unwrap();
    assert_eq!((Range::from(last.range), last.meta), (20..30, 'd'));
    assert!(merge.next().is_none());
}

#[test]
fn an_item_out_of_order_is_not_taken() {
    let mut merge = OrderedNonOverlappingRangeIter::<()>::new(Vec::new());
    merge.push(item(5..9, 1, ()));
    assert!(!merge.takes_next(&item(4..9, 1, ())));
    assert!(!merge.takes_next(&item(5..9, 2, ())));
    assert!(merge.takes_next(&item(5..9, 1, ())));
    assert!(merge.takes_next(&item(5..6, 0, ())));
    assert!(merge.takes_next(&item(6..7, 9, ())));
}

#[test]
fn no_item_is_taken_behind_items_given_at_once_or_once_the_rest_is_given() {
    let at_once = OrderedNonOverlappingRangeIter::new(vec![item(0..4, 0, ())]);
    assert!(!at_once.takes_next(&item(5..9, 0, ())));
    let mut merge = OrderedNonOverlappingRangeIter::<()>::new(Vec::new());
    merge.push(item(0..4, 0, ()));
    assert!(merge.next().is_some());
    assert!(!merge.takes_next(&item(5..9, 0, ())));
}

#[test]
fn items_pushed_one_by_one_give_the_merge_of_all() {
    let given = vec![
        (0..10, 1, 0),
        (2..30, 0, 1),
        (4..6, 3, 2),
        (4..8, 2, 3),
        (9..12, 1, 4),
        (11..40, 2, 5),
        (50..60, 0, 6),
        (51..52, 4, 7),
    ];
    let all: Vec<OrderedRangeItem<usize, i32>> =
        given.iter().map(|g| item(g.0.clone(), g.1, g.2)).collect();
    let expected: Vec<(Range<usize>, i32)> =
        merged(all).into_iter().map(|x| (x.range.into(), x.meta)).collect();
    let mut merge = OrderedNonOverlappingRangeIter::new(Vec::new());
    let mut got: Vec<(Range<usize>, i32)> = Vec::new();
    for g in given.iter() {
        let next = item(g.0.clone(), g.1, g.2);
        assert!(merge.takes_next(&next));
        merge.push(next);
        while let Some(piece) = merge.pop_final() {
            got.push((piece.range.into(), piece.meta));
        }
    }
    while let Some(piece) = merge.next() {
        got.push((piece.range.into(), piece.meta));
    }
    assert_eq!(expected, got);
}
