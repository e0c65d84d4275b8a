use crate::range::assert_sorted_iter::key_le;
use crate::range::assert_sorted_iter::sorted_by_key;
use crate::range::assert_sorted_iter::DebugAssertSortedByIter;
use crate::range::non_zero::NonZeroRange;
use crate::range::resolution::initial_state;
use crate::range::resolution::insert;
use crate::range::resolution::insert_from;
use crate::range::resolution::lemma_descends_from_itself;
use crate::range::resolution::lemma_descends_through_clone;
use crate::range::resolution::lemma_descends_transitive;
use crate::range::resolution::lemma_insert_keeps_marks;
use crate::range::resolution::lemma_realized_insert;
use crate::range::resolution::lemma_realized_remove;
use crate::range::resolution::marked_as;
use crate::range::resolution::piece_of;
use crate::range::resolution::pieces_of;
use crate::range::resolution::pull;
use crate::range::resolution::realized;
use crate::range::resolution::realizes;
use crate::range::resolution::step;
use crate::range::resolution::MergeState;
use crate::range::resolution::Piece;
use crate::range::resolution::lemma_insert_adds_at_most_two;
use crate::range::soundness::apart;
use crate::range::soundness::laid_over;
use crate::range::soundness::lemma_insert_lays_over;
use crate::range::soundness::lemma_insert_skips_given;
use crate::range::soundness::lemma_pieces_of_sorted_items;
use crate::range::soundness::lemma_resolve_of_prefix;
use crate::range::soundness::merged_pieces_lie_apart;
use crate::range::soundness::staged;
use crate::range::soundness::well_shaped;
use crate::range::soundness::lemma_resolve_resolves;
use crate::range::soundness::lemma_step_gives_the_next;
use crate::range::soundness::merged;
use crate::range::soundness::resolve;
use crate::range::soundness::resolved;
use crate::range::soundness::tracks;
use crate::range::OrderedRangeItem;
use std::collections::VecDeque;
use vstd::prelude::*;

verus! {

broadcast use vstd::std_specs::vecdeque::group_vec_dequeue_axioms;

/// Removes overlaps by priority: from items in the order of their keys it
/// gives pieces that lie one behind the other, each with the priority and
/// the payload of the item that holds its coordinates against all others.
pub struct OrderedNonOverlappingRangeIter<TMeta> {
    iter: DebugAssertSortedByIter<TMeta>,
    // Overlaps are resolved at this point
    remainers: VecDeque<OrderedRangeItem<usize, TMeta>>,
    max_start: usize,
    // Set once pieces are given that a further item could still have cut.
    draining: bool,
    items: Ghost<Seq<OrderedRangeItem<usize, TMeta>>>,
    buffer: Ghost<Seq<Piece>>,
    given: Ghost<Seq<Piece>>,
}

/// `given` is the result `piece`: both are missing, or `given` realizes
/// `piece`.
spec fn hands_out<TMeta: Clone>(
    given: Option<OrderedRangeItem<usize, TMeta>>,
    piece: Option<Piece>,
    input: Seq<OrderedRangeItem<usize, TMeta>>,
) -> bool {
    match (given, piece) {
        (Some(item), Some(piece)) => realizes(item, piece, input),
        (None, None) => true,
        _ => false,
    }
}

/// The merge of one item more is the insertion of that item.
spec fn resolve_next(input: Seq<Piece>, n: nat) -> bool {
    resolve(input, n + 1) == insert(resolve(input, n), input[n as int])
}

/// What `insert_remainer` says of a buffer by the places of its own entries
/// holds by the places in the input too.
#[verifier::rlimit(40)]
proof fn lemma_insertion_by_input_places<TMeta: Clone>(
    before: Seq<OrderedRangeItem<usize, TMeta>>,
    new: OrderedRangeItem<usize, TMeta>,
    after: Seq<OrderedRangeItem<usize, TMeta>>,
    buffer: Seq<Piece>,
    items: Seq<OrderedRangeItem<usize, TMeta>>,
    consumed: int,
)
    requires
        realized(before, buffer, items),
        0 <= consumed < items.len(),
        new == items[consumed],
        realized(
            after,
            insert(pieces_of(before), piece_of(new, before.len() as int)),
            before.push(new),
        ),
    ensures
        realized(after, insert(buffer, pieces_of(items)[consumed]), items),
{
    let local = pieces_of(before);
    let local_new = piece_of(new, before.len() as int);
    let global_new = pieces_of(items)[consumed];
    let marks = Seq::new(
        before.len() + 1,
        |j: int|
            if j < before.len() {
                (buffer[j].source, buffer[j].cloned)
            } else {
                (consumed, false)
            },
    );
    assert forall|k: int| 0 <= k < local.len() implies marked_as(
        #[trigger] local[k],
        buffer[k],
        marks,
    ) by {
        assert(realizes(before[k], buffer[k], items));
    }
    lemma_insert_keeps_marks(local, local_new, buffer, global_new, marks, local.len());
    let by_entry = insert(local, local_new);
    let by_input = insert(buffer, global_new);
    let origins = before.push(new);
    assert forall|k: int| 0 <= k < after.len() implies realizes(
        #[trigger] after[k],
        by_input[k],
        items,
    ) by {
        assert(realizes(after[k], by_entry[k], origins));
        assert(marked_as(by_entry[k], by_input[k], marks));
        let j = by_entry[k].source;
        if j < before.len() {
            assert(realizes(before[j], buffer[j], items));
            if by_input[k].cloned {
                let first = items[buffer[j].source].meta;
                if !buffer[j].cloned {
                    lemma_descends_from_itself(first);
                }
                if !by_entry[k].cloned {
                    lemma_descends_from_itself(before[j].meta);
                }
                lemma_descends_transitive(first, before[j].meta, after[k].meta);
            }
        }
    }
}

impl<TMeta: Clone> OrderedNonOverlappingRangeIter<TMeta> {
    /// The items that the merge was made of.
    pub closed spec fn input(&self) -> Seq<OrderedRangeItem<usize, TMeta>> {
        self.items@
    }

    /// The number of pieces that the merge has given.
    pub closed spec fn given(&self) -> nat {
        self.given@.len()
    }

    /// The buffer, the number of items taken and the start of the last of
    /// them.
    spec fn state(&self) -> MergeState {
        MergeState {
            buffer: self.buffer@,
            consumed: (self.items@.len() - self.iter.pending().len()) as nat,
            horizon: self.max_start as int,
        }
    }

    /// The items still to come are the rest of the input, whose keys never
    /// descend, and the buffer realizes that of the model.
    spec fn builds_on_input(&self) -> bool {
        let consumed = self.items@.len() - self.iter.pending().len();
        &&& sorted_by_key(self.items@)
        &&& 0 <= consumed
        &&& self.iter.pending() == self.items@.subrange(consumed, self.items@.len() as int)
        &&& self.iter.last_key() == if consumed > 0 {
            Some(self.items@[consumed - 1].key())
        } else {
            None
        }
        &&& realized(self.remainers@, self.buffer@, self.items@)
        &&& forall|i: int|
            0 <= i < self.items@.len() ==> (#[trigger] self.items@[i]).range.holds_coordinate()
    }

    /// The merge stands on an input in the order of its keys, of ranges that
    /// each hold a coordinate, and what it holds goes with the pieces that it
    /// has given.
    pub closed spec fn well_formed(&self) -> bool {
        &&& self.builds_on_input()
        &&& tracks(pieces_of(self.items@), self.given@, self.state())
        &&& !self.draining && self.given@.len() > 0 ==> self.given@[self.given@.len() - 1].end
            < self.max_start
    }

    /// Every item of the input has been taken, and no piece has been given
    /// that a further item could still cut: the input can go on.
    pub closed spec fn open(&self) -> bool {
        !self.draining && self.iter.pending().len() == 0
    }

    /// `item` can follow on the input: the input can go on, the range of
    /// `item` holds a coordinate, and its key is not below the key of the
    /// last item.
    pub open spec fn takes(&self, item: OrderedRangeItem<usize, TMeta>) -> bool {
        &&& self.open()
        &&& item.range.holds_coordinate()
        &&& self.input().len() > 0 ==> key_le(
            self.input()[self.input().len() - 1].key(),
            item.key(),
        )
    }

    /// A merge of `iter`, whose keys are not to descend and whose ranges each
    /// hold a coordinate.
    pub fn new(iter: Vec<OrderedRangeItem<usize, TMeta>>) -> (r: Self)
        requires
            sorted_by_key(iter@),
            forall|i: int| 0 <= i < iter@.len() ==> (#[trigger] iter@[i]).range.holds_coordinate(),
        ensures
            r.well_formed(),
            r.input() == iter@,
            r.given() == 0,
            r.open() <==> iter@.len() == 0,
            resolved(pieces_of(iter@), iter@.len() as int, merged(pieces_of(iter@))),
    {
        let ghost items = iter@;
        let r = OrderedNonOverlappingRangeIter {
            iter: DebugAssertSortedByIter::new(iter),
            remainers: VecDeque::new(),
            max_start: 0,
            draining: false,
            items: Ghost(items),
            buffer: Ghost(Seq::empty()),
            given: Ghost(Seq::empty()),
        };
        proof {
            assert(r.iter.pending() =~= items.subrange(0, items.len() as int));
            lemma_pieces_of_sorted_items(items);
            lemma_resolve_resolves(pieces_of(items), items.len());
            assert(r.given@ + r.buffer@ =~= Seq::<Piece>::empty());
        }
        r
    }

    /// Lays `new` over a buffer of pieces that lie one behind the other, and
    /// leaves in the buffer what the priorities let each of them keep.
    ///
    /// The result is stated over the buffer before the call with `new` at its
    /// end: every entry afterwards has the bounds and the priority that
    /// `insert` gives it, and the payload of the entry it is a part of. For a
    /// buffer of the shape that the merge keeps, `new` holds afterwards the
    /// coordinates that it covers where nothing of at least its priority
    /// stood, everything else is held as before, and the shape is kept.
    #[verifier::loop_isolation(false)]
    #[verifier::rlimit(40)]
    pub fn insert_remainer(
        ordered_non_overlapping: &mut VecDeque<OrderedRangeItem<usize, TMeta>>,
        new: OrderedRangeItem<usize, TMeta>,
    )
        ensures
            realized(
                final(ordered_non_overlapping)@,
                insert(
                    pieces_of(old(ordered_non_overlapping)@),
                    piece_of(new, old(ordered_non_overlapping)@.len() as int),
                ),
                old(ordered_non_overlapping)@.push(new),
            ),
            final(ordered_non_overlapping)@.len() <= old(ordered_non_overlapping)@.len() + 2,
            staged(
                pieces_of(old(ordered_non_overlapping)@),
                piece_of(new, old(ordered_non_overlapping)@.len() as int),
            ) ==> laid_over(
                pieces_of(old(ordered_non_overlapping)@),
                piece_of(new, old(ordered_non_overlapping)@.len() as int),
                insert(
                    pieces_of(old(ordered_non_overlapping)@),
                    piece_of(new, old(ordered_non_overlapping)@.len() as int),
                ),
            ),
    {
        let ghost origins = ordered_non_overlapping@.push(new);
        let ghost np = piece_of(new, ordered_non_overlapping@.len() as int);
        let ghost target = insert(pieces_of(ordered_non_overlapping@), np);
        proof {
            let held = pieces_of(ordered_non_overlapping@);
            lemma_insert_adds_at_most_two(held, np, held.len());
            if staged(held, np) {
                lemma_insert_lays_over(held, np);
            }
        }
        let ghost mut cur = pieces_of(ordered_non_overlapping@);
        let mut new = new;
        let mut idx = ordered_non_overlapping.len();
        while idx > 0
            invariant
                idx <= ordered_non_overlapping.len(),
                realized(ordered_non_overlapping@, cur, origins),
                realizes(new, np, origins),
                insert_from(cur, np, idx as nat) == target,
            decreases idx,
        {
            idx -= 1;
            let ghost existing_piece = cur[idx as int];
            let ghost before_piece = Piece { end: np.start, ..existing_piece };
            let ghost after_piece = Piece { start: np.end, ..existing_piece };
            assert(ordered_non_overlapping@.len() == ordered_non_overlapping.len());
            assert(realizes(ordered_non_overlapping@[idx as int], existing_piece, origins));
            let existing_start = ordered_non_overlapping[idx].range.start;
            let existing_end = ordered_non_overlapping[idx].range.end;
            let existing_priority = ordered_non_overlapping[idx].priority;
            if existing_end <= new.range.start {
                proof {
                    lemma_realized_insert(ordered_non_overlapping@, cur, origins, idx + 1, new, np);
                    assert(insert_from(cur, np, (idx + 1) as nat) == cur.insert(idx + 1, np));
                }
                ordered_non_overlapping.insert(idx + 1, new);
                return ;
            }
            if existing_start >= new.range.end {
                // Wholly behind `new`: nothing of the two is contested.
            } else if existing_priority >= new.priority {
                // Never a rest before: the start of `existing` is not behind that of `new`.
                match NonZeroRange::try_from(existing_end..new.range.end) {
                    Ok(after_existing) => {
                        new.range = after_existing;
                        proof {
                            lemma_realized_insert(
                                ordered_non_overlapping@,
                                cur,
                                origins,
                                idx + 1,
                                new,
                                Piece { start: existing_piece.end, ..np },
                            );
                        }
                        ordered_non_overlapping.insert(idx + 1, new);
                    },
                    Err(_) => {},
                }
                return ;
            } else {
                let maybe_after = NonZeroRange::try_from(new.range.end..existing_end);
                let maybe_before = NonZeroRange::try_from(existing_start..new.range.start);
                match (maybe_before, maybe_after) {
                    (Ok(before), Ok(after)) => {
                        proof {
                            lemma_realized_remove(ordered_non_overlapping@, cur, origins, idx as int);
                        }
                        let mut existing = ordered_non_overlapping.remove(idx).unwrap();
                        let after_value = OrderedRangeItem {
                            range: after,
                            priority: existing.priority,
                            meta: existing.meta.clone(),
                        };
                        existing.range = before;
                        let ghost after_piece = Piece { cloned: true, ..after_piece };
                        proof {
                            if !existing_piece.cloned {
                                lemma_descends_from_itself(existing.meta);
                            }
                            lemma_descends_through_clone(
                                origins[existing_piece.source].meta,
                                existing.meta,
                                after_value.meta,
                            );
                            let cut = cur.remove(idx as int);
                            lemma_realized_insert(
                                ordered_non_overlapping@,
                                cut,
                                origins,
                                idx as int,
                                existing,
                                before_piece,
                            );
                            assert(cut.insert(idx as int, before_piece) =~= cur.update(
                                idx as int,
                                before_piece,
                            ));
                            let kept = cur.update(idx as int, before_piece);
                            lemma_realized_insert(
                                ordered_non_overlapping@.insert(idx as int, existing),
                                kept,
                                origins,
                                idx + 1,
                                new,
                                np,
                            );
                            lemma_realized_insert(
                                ordered_non_overlapping@.insert(idx as int, existing).insert(
                                    idx + 1,
                                    new,
                                ),
                                kept.insert(idx + 1, np),
                                origins,
                                idx + 2,
                                after_value,
                                after_piece,
                            );
                        }
                        ordered_non_overlapping.insert(idx, existing);
                        ordered_non_overlapping.insert(idx + 1, new);
                        assert(ordered_non_overlapping@.len() == ordered_non_overlapping.len());
                        ordered_non_overlapping.insert(idx + 2, after_value);
                        return ;
                    },
                    (Ok(before), Err(_)) => {
                        proof {
                            lemma_realized_remove(ordered_non_overlapping@, cur, origins, idx as int);
                        }
                        let mut existing = ordered_non_overlapping.remove(idx).unwrap();
                        existing.range = before;
                        proof {
                            let cut = cur.remove(idx as int);
                            lemma_realized_insert(
                                ordered_non_overlapping@,
                                cut,
                                origins,
                                idx as int,
                                existing,
                                before_piece,
                            );
                            assert(cut.insert(idx as int, before_piece) =~= cur.update(
                                idx as int,
                                before_piece,
                            ));
                            lemma_realized_insert(
                                ordered_non_overlapping@.insert(idx as int, existing),
                                cur.update(idx as int, before_piece),
                                origins,
                                idx + 1,
                                new,
                                np,
                            );
                        }
                        ordered_non_overlapping.insert(idx, existing);
                        ordered_non_overlapping.insert(idx + 1, new);
                        return ;
                    },
                    (Err(_), Ok(after)) => {
                        proof {
                            lemma_realized_remove(ordered_non_overlapping@, cur, origins, idx as int);
                        }
                        let mut existing = ordered_non_overlapping.remove(idx).unwrap();
                        existing.range = after;
                        proof {
                            let cut = cur.remove(idx as int);
                            lemma_realized_insert(
                                ordered_non_overlapping@,
                                cut,
                                origins,
                                idx as int,
                                existing,
                                after_piece,
                            );
                            assert(cut.insert(idx as int, after_piece) =~= cur.update(
                                idx as int,
                                after_piece,
                            ));
                            cur = cur.update(idx as int, after_piece);
                        }
                        ordered_non_overlapping.insert(idx, existing);
                    },
                    (Err(_), Err(_)) => {
                        proof {
                            lemma_realized_remove(ordered_non_overlapping@, cur, origins, idx as int);
                            cur = cur.remove(idx as int);
                        }
                        ordered_non_overlapping.remove(idx);
                    },
                }
            }
        }
        proof {
            lemma_realized_insert(ordered_non_overlapping@, cur, origins, 0, new, np);
            assert(cur.insert(0, np) =~= seq![np] + cur);
        }
        ordered_non_overlapping.push_front(new);
    }

    /// The next piece of the merge of the input, or `None` when all have been
    /// given. The input counts as ended: no item can follow on it afterwards.
    #[verifier::loop_isolation(false)]
    #[verifier::rlimit(40)]
    pub fn next(&mut self) -> (r: Option<OrderedRangeItem<usize, TMeta>>)
        requires
            old(self).well_formed(),
        ensures
            final(self).well_formed(),
            final(self).input() == old(self).input(),
            !final(self).open(),
            resolved(
                pieces_of(old(self).input()),
                old(self).input().len() as int,
                merged(pieces_of(old(self).input())),
            ),
            match r {
                Some(item) => {
                    &&& old(self).given() < merged(pieces_of(old(self).input())).len()
                    &&& realizes(
                        item,
                        merged(pieces_of(old(self).input()))[old(self).given() as int],
                        old(self).input(),
                    )
                    &&& final(self).given() == old(self).given() + 1
                },
                None => {
                    &&& old(self).given() == merged(pieces_of(old(self).input())).len()
                    &&& final(self).given() == old(self).given()
                },
            },
    {
        let ghost input = pieces_of(self.items@);
        let ghost start = self.state();
        let ghost given = self.given@;
        proof {
            lemma_pieces_of_sorted_items(self.items@);
            lemma_resolve_resolves(input, input.len());
            lemma_step_gives_the_next(input, given, start);
        }
        self.draining = true;
        let mut first_end: Option<usize> = None;
        if self.remainers.len() > 0 {
            let smallest_end = self.remainers[0].range.end;
            assert(realizes(self.remainers@[0], self.buffer@[0], self.items@));
            if smallest_end < self.max_start {
                proof {
                    lemma_realized_remove(self.remainers@, self.buffer@, self.items@, 0);
                    assert(self.buffer@.remove(0) =~= self.buffer@.drop_first());
                    assert(self.remainers@.remove(0) =~= self.remainers@.subrange(
                        1,
                        self.remainers@.len() as int,
                    ));
                }
                self.given = Ghost(given.push(self.buffer@[0]));
                self.buffer = Ghost(self.buffer@.drop_first());
                return self.remainers.pop_front();
            } else {
                first_end = Some(smallest_end);
            }
        }
        let ghost goal = pull(
            input,
            start.buffer,
            start.consumed,
            match first_end {
                Some(end) => Some(end as int),
                None => None,
            },
        );
        let mut pulling = true;
        while pulling
            invariant
                self.builds_on_input(),
                self.draining,
                self.items@ == old(self).items@,
                self.given@ == given,
                start.consumed <= self.state().consumed,
                self.max_start == if self.state().consumed > start.consumed {
                    input[self.state().consumed - 1].start
                } else {
                    start.horizon
                },
                pulling ==> pull(
                    input,
                    self.buffer@,
                    self.state().consumed,
                    match first_end {
                        Some(end) => Some(end as int),
                        None => None,
                    },
                ) == goal,
                !pulling ==> (self.buffer@, self.state().consumed) == goal,
            decreases self.iter.pending().len() + if pulling { 1nat } else { 0nat },
        {
            let ghost consumed = self.state().consumed;
            let ghost held = self.remainers@;
            match self.iter.next() {
                None => {
                    pulling = false;
                },
                Some(next) => {
                    assert(next == self.items@[consumed as int]);
                    assert(self.iter.pending() =~= self.items@.subrange(
                        consumed as int + 1,
                        self.items@.len() as int,
                    ));
                    self.max_start = next.range.start;
                    let next_range_end = next.range.end;
                    let ghost taken = next;
                    Self::insert_remainer(&mut self.remainers, next);
                    proof {
                        lemma_insertion_by_input_places(
                            held,
                            taken,
                            self.remainers@,
                            self.buffer@,
                            self.items@,
                            consumed as int,
                        );
                    }
                    self.buffer = Ghost(insert(self.buffer@, input[consumed as int]));
                    let end = match first_end {
                        Some(end) => end,
                        None => {
                            first_end = Some(next_range_end);
                            next_range_end
                        },
                    };
                    if end < self.max_start {
                        pulling = false;
                    }
                },
            }
        }
        if self.remainers.len() > 0 {
            proof {
                lemma_realized_remove(self.remainers@, self.buffer@, self.items@, 0);
                assert(self.buffer@.remove(0) =~= self.buffer@.drop_first());
                assert(self.remainers@.remove(0) =~= self.remainers@.subrange(
                    1,
                    self.remainers@.len() as int,
                ));
                assert(realizes(self.remainers@[0], self.buffer@[0], self.items@));
            }
            self.given = Ghost(given.push(self.buffer@[0]));
            self.buffer = Ghost(self.buffer@.drop_first());
        }
        self.remainers.pop_front()
    }

    /// Tells whether `item` can follow on the input.
    #[verifier::rlimit(40)]
    pub fn takes_next(&self, item: &OrderedRangeItem<usize, TMeta>) -> (r: bool)
        requires
            self.well_formed(),
        ensures
            r == self.takes(*item),
    {
        if self.draining || !self.iter.is_empty() || !(item.range.start < item.range.end) {
            return false;
        }
        match self.iter.last() {
            Some(last) => {
                let key = item.comparator();
                assert(self.items@.len() > 0);
                last.0 < key.0 || (last.0 == key.0 && last.1 <= key.1)
            },
            None => {
                assert(self.items@.len() == 0);
                true
            },
        }
    }

    /// Lets `item` follow on the input and lays it over the buffer. The
    /// pieces given so far stay what they are.
    #[verifier::rlimit(40)]
    pub fn push(&mut self, item: OrderedRangeItem<usize, TMeta>)
        requires
            old(self).well_formed(),
            old(self).takes(item),
        ensures
            final(self).well_formed(),
            final(self).open(),
            final(self).input() == old(self).input().push(item),
            final(self).given() == old(self).given(),
            merged(pieces_of(final(self).input())).subrange(0, final(self).given() as int)
                == merged(pieces_of(old(self).input())).subrange(0, old(self).given() as int),
    {
        let ghost before = self.items@;
        let ghost after = self.items@.push(item);
        let ghost held = self.remainers@;
        let ghost given = self.given@;
        let ghost buffer = self.buffer@;
        let ghost n = before.len();
        proof {
            lemma_pieces_of_sorted_items(before);
            lemma_step_gives_the_next(pieces_of(before), given, self.state());
            assert forall|i: int, j: int| 0 <= i <= j < after.len() implies key_le(
                (#[trigger] after[i]).key(),
                (#[trigger] after[j]).key(),
            ) by {
                if j == n && i < n {
                    assert(key_le(before[i].key(), before[n - 1].key()));
                }
            }
            assert forall|k: int| 0 <= k < held.len() implies realizes(
                #[trigger] held[k],
                buffer[k],
                after,
            ) by {
                assert(realizes(held[k], buffer[k], before));
            }
        }
        self.items = Ghost(after);
        self.iter.feed(item);
        assert(self.iter.pending() =~= after.subrange(n as int, after.len() as int));
        match self.iter.next() {
            Some(next) => {
                assert(self.iter.pending() =~= after.subrange(n as int + 1, after.len() as int));
                self.max_start = next.range.start;
                Self::insert_remainer(&mut self.remainers, next);
                proof {
                    lemma_insertion_by_input_places(
                        held,
                        item,
                        self.remainers@,
                        buffer,
                        after,
                        n as int,
                    );
                    let input = pieces_of(after);
                    lemma_pieces_of_sorted_items(after);
                    lemma_resolve_of_prefix(pieces_of(before), input, n);
                    if n > 0 {
                        assert(input[n - 1].start <= input[n as int].start);
                    }
                    lemma_insert_skips_given(given, buffer, input[n as int], buffer.len());
                    assert(resolve_next(input, n));
                }
                self.buffer = Ghost(insert(buffer, pieces_of(after)[n as int]));
                proof {
                    lemma_step_gives_the_next(pieces_of(after), given, self.state());
                }
            },
            None => {},
        }
    }

    /// The piece at the front of the buffer, if it ends before the start of
    /// the item taken last: no item that follows can cut it.
    #[verifier::rlimit(40)]
    pub fn pop_final(&mut self) -> (r: Option<OrderedRangeItem<usize, TMeta>>)
        requires
            old(self).well_formed(),
        ensures
            final(self).well_formed(),
            final(self).open() == old(self).open(),
            final(self).input() == old(self).input(),
            match r {
                Some(item) => {
                    &&& old(self).given() < merged(pieces_of(old(self).input())).len()
                    &&& realizes(
                        item,
                        merged(pieces_of(old(self).input()))[old(self).given() as int],
                        old(self).input(),
                    )
                    &&& final(self).given() == old(self).given() + 1
                },
                None => final(self).given() == old(self).given(),
            },
            old(self).open() && old(self).input().len() > 0 ==> (r is Some <==> {
                &&& old(self).given() < merged(pieces_of(old(self).input())).len()
                &&& merged(pieces_of(old(self).input()))[old(self).given() as int].end
                    < old(self).input()[old(self).input().len() - 1].range@.start
            }),
            old(self).input().len() == 0 ==> r is None,
    {
        let ghost input = pieces_of(self.items@);
        let ghost given = self.given@;
        proof {
            lemma_pieces_of_sorted_items(self.items@);
            lemma_step_gives_the_next(input, given, self.state());
            if self.iter.pending().len() == 0 {
                assert((given + self.buffer@).len() == merged(input).len());
                if self.buffer@.len() > 0 {
                    assert((given + self.buffer@)[given.len() as int] == self.buffer@[0]);
                }
            }
        }
        if self.remainers.len() > 0 {
            let smallest_end = self.remainers[0].range.end;
            assert(realizes(self.remainers@[0], self.buffer@[0], self.items@));
            if smallest_end < self.max_start {
                proof {
                    lemma_realized_remove(self.remainers@, self.buffer@, self.items@, 0);
                    assert(self.buffer@.remove(0) =~= self.buffer@.drop_first());
                    assert(self.remainers@.remove(0) =~= self.remainers@.subrange(
                        1,
                        self.remainers@.len() as int,
                    ));
                }
                self.given = Ghost(given.push(self.buffer@[0]));
                self.buffer = Ghost(self.buffer@.drop_first());
                return self.remainers.pop_front();
            }
        }
        None
    }

    /// All the pieces of the merge that are still to be given, in their
    /// order.
    #[verifier::rlimit(40)]
    pub fn into_vec(self) -> (out: Vec<OrderedRangeItem<usize, TMeta>>)
        requires
            self.well_formed(),
        ensures
            self.given() <= merged(pieces_of(self.input())).len(),
            realized(
                out@,
                merged(pieces_of(self.input())).subrange(
                    self.given() as int,
                    merged(pieces_of(self.input())).len() as int,
                ),
                self.input(),
            ),
            resolved(
                pieces_of(self.input()),
                self.input().len() as int,
                merged(pieces_of(self.input())),
            ),
            forall|i: int| 0 <= i < out@.len() ==> (#[trigger] out@[i]).range.holds_coordinate(),
            forall|i: int, j: int|
                0 <= i < j < out@.len() ==> (#[trigger] out@[i]).range@.end <= (
                #[trigger] out@[j]).range@.start,
    {
        let ghost all = merged(pieces_of(self.items@));
        let ghost first = self.given();
        let mut merge = self;
        let mut out: Vec<OrderedRangeItem<usize, TMeta>> = Vec::new();
        let mut giving = true;
        proof {
            lemma_pieces_of_sorted_items(self.items@);
            lemma_resolve_resolves(pieces_of(self.items@), self.items@.len());
            lemma_step_gives_the_next(pieces_of(self.items@), self.given@, self.state());
        }
        while giving
            invariant
                merge.well_formed(),
                merge.items@ == self.items@,
                all == merged(pieces_of(self.items@)),
                first == self.given(),
                first <= merge.given() <= all.len(),
                !giving ==> merge.given() == all.len(),
                realized(out@, all.subrange(first as int, merge.given() as int), self.items@),
            decreases all.len() - merge.given() + if giving { 1nat } else { 0nat },
        {
            let ghost before = merge.given();
            match merge.next() {
                Some(item) => {
                    proof {
                        let pieces = all.subrange(first as int, before as int);
                        lemma_realized_insert(
                            out@,
                            pieces,
                            self.items@,
                            out@.len() as int,
                            item,
                            all[before as int],
                        );
                        assert(out@.insert(out@.len() as int, item) =~= out@.push(item));
                        assert(pieces.insert(pieces.len() as int, all[before as int])
                            =~= all.subrange(first as int, before as int + 1));
                    }
                    out.push(item);
                },
                None => {
                    giving = false;
                },
            }
        }
        proof {
            merged_pieces_lie_apart(pieces_of(self.items@));
            let pieces = all.subrange(first as int, all.len() as int);
            assert forall|i: int| 0 <= i < out@.len() implies (
            #[trigger] out@[i]).range.holds_coordinate() by {
                assert(realizes(out@[i], pieces[i], self.items@));
                assert(pieces[i] == all[first + i]);
            }
            assert forall|i: int, j: int| 0 <= i < j < out@.len() implies (
            #[trigger] out@[i]).range@.end <= (#[trigger] out@[j]).range@.start by {
                assert(realizes(out@[i], pieces[i], self.items@));
                assert(realizes(out@[j], pieces[j], self.items@));
                assert(pieces[i] == all[first + i]);
                assert(pieces[j] == all[first + j]);
            }
        }
        out
    }
}

} // verus!
