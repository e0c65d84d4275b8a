//! A compact store for intervals that lie apart: the start of the first one,
//! then in turn the length of an interval and of the gap behind it, each in
//! a narrow unsigned type.

use crate::range::non_zero::NonZeroRange;
use std::ops::Range;
use vstd::prelude::*;

verus! {

/// An unsigned type that a length is stored in.
pub trait RunLength: Copy + Sized {
    /// The length that the value stands for.
    spec fn length(self) -> nat;

    /// The longest length that the type holds.
    spec fn longest() -> nat;

    proof fn lemma_length_fits(self)
        ensures
            self.length() <= Self::longest(),
            Self::longest() <= u64::MAX,
    ;

    /// `wide` in the narrow type, if it fits.
    fn narrow(wide: u64) -> (r: Option<Self>)
        ensures
            r is Some <==> wide <= Self::longest(),
            r matches Some(value) ==> value.length() == wide,
    ;

    /// The length as a coordinate.
    fn widen(self) -> (r: u64)
        ensures
            r == self.length(),
    ;
}

impl RunLength for u8 {
    open spec fn length(self) -> nat {
        self as nat
    }

    open spec fn longest() -> nat {
        0xff
    }

    proof fn lemma_length_fits(self) {
    }

    fn narrow(wide: u64) -> (r: Option<Self>) {
        if wide <= 0xff {
            Some(wide as u8)
        } else {
            None
        }
    }

    fn widen(self) -> (r: u64) {
        self as u64
    }
}

impl RunLength for u16 {
    open spec fn length(self) -> nat {
        self as nat
    }

    open spec fn longest() -> nat {
        0xffff
    }

    proof fn lemma_length_fits(self) {
    }

    fn narrow(wide: u64) -> (r: Option<Self>) {
        if wide <= 0xffff {
            Some(wide as u16)
        } else {
            None
        }
    }

    fn widen(self) -> (r: u64) {
        self as u64
    }
}

impl RunLength for u32 {
    open spec fn length(self) -> nat {
        self as nat
    }

    open spec fn longest() -> nat {
        0xffff_ffff
    }

    proof fn lemma_length_fits(self) {
    }

    fn narrow(wide: u64) -> (r: Option<Self>) {
        if wide <= 0xffff_ffff {
            Some(wide as u32)
        } else {
            None
        }
    }

    fn widen(self) -> (r: u64) {
        self as u64
    }
}

impl RunLength for u64 {
    open spec fn length(self) -> nat {
        self as nat
    }

    open spec fn longest() -> nat {
        0xffff_ffff_ffff_ffff
    }

    proof fn lemma_length_fits(self) {
    }

    fn narrow(wide: u64) -> (r: Option<Self>) {
        Some(wide)
    }

    fn widen(self) -> (r: u64) {
        self
    }
}

/// The lengths that the values of `run` stand for.
pub open spec fn lengths<T: RunLength>(run: Seq<T>) -> Seq<nat> {
    Seq::new(run.len(), |i: int| run[i].length())
}

/// The start of the interval at place `n`: the first one starts at
/// `initial`, and each later one behind the interval and the gap before it.
pub open spec fn offset_at(initial: nat, included: Seq<nat>, excluded: Seq<nat>, n: nat) -> nat
    decreases n,
{
    if n == 0 {
        initial
    } else {
        offset_at(initial, included, excluded, (n - 1) as nat) + included[n - 1] + excluded[n - 1]
    }
}

/// The intervals that a start and two runs of lengths stand for, each as its
/// start and its end.
pub open spec fn decoded(initial: nat, included: Seq<nat>, excluded: Seq<nat>) -> Seq<(int, int)> {
    Seq::new(
        included.len(),
        |i: int|
            (
                offset_at(initial, included, excluded, i as nat) as int,
                (offset_at(initial, included, excluded, i as nat) + included[i]) as int,
            ),
    )
}

/// The lengths of `ranges`.
pub open spec fn included_of(ranges: Seq<(int, int)>) -> Seq<nat> {
    Seq::new(ranges.len(), |i: int| (ranges[i].1 - ranges[i].0) as nat)
}

/// The lengths of the gaps between `ranges`.
pub open spec fn excluded_of(ranges: Seq<(int, int)>) -> Seq<nat> {
    Seq::new((ranges.len() - 1) as nat, |i: int| (ranges[i + 1].0 - ranges[i].1) as nat)
}

/// `ranges` can be stored: there is one at least, none starts below zero,
/// each holds a coordinate, and each starts behind the end of the one
/// before it.
pub open spec fn separated(ranges: Seq<(int, int)>) -> bool {
    &&& ranges.len() > 0
    &&& forall|i: int| 0 <= i < ranges.len() ==> 0 <= (#[trigger] ranges[i]).0 < ranges[i].1
    &&& forall|i: int| 0 < i < ranges.len() ==> ranges[i - 1].1 < (#[trigger] ranges[i]).0
}

/// The start of each interval is found again from the lengths.
pub proof fn lemma_offsets_of_separated(ranges: Seq<(int, int)>, n: nat)
    requires
        separated(ranges),
        n < ranges.len(),
    ensures
        offset_at(ranges[0].0 as nat, included_of(ranges), excluded_of(ranges), n) == ranges[n as int].0,
    decreases n,
{
    if n > 0 {
        lemma_offsets_of_separated(ranges, (n - 1) as nat);
        assert(ranges[n - 1].1 < ranges[n as int].0);
        assert(0 <= ranges[n - 1].0 < ranges[n - 1].1);
    }
}

/// Storing intervals that lie apart and reading them back gives the same
/// intervals, in the same order.
pub proof fn stored_ranges_read_back(ranges: Seq<(int, int)>)
    requires
        separated(ranges),
    ensures
        decoded(ranges[0].0 as nat, included_of(ranges), excluded_of(ranges)) == ranges,
{
    let back = decoded(ranges[0].0 as nat, included_of(ranges), excluded_of(ranges));
    assert forall|i: int| 0 <= i < ranges.len() implies back[i] == ranges[i] by {
        lemma_offsets_of_separated(ranges, i as nat);
    }
    assert(back =~= ranges);
}

/// Why a sequence of intervals cannot be stored.
#[derive(Debug, Clone, Copy, PartialEq, Eq)]
pub enum CompactRangesError {
    /// There is no interval.
    Empty,
    /// The interval from `start` to `end` holds no coordinate.
    RangeZeroLength { start: u64, end: u64 },
    /// The interval at `start` does not start behind `previous_end`, where
    /// the one before it ends: they overlap or touch.
    GapNotPositive { previous_end: u64, start: u64 },
    /// The length of the interval from `start` to `end` does not fit the
    /// type of the included lengths.
    IncludedTooLong { start: u64, end: u64 },
    /// The gap from `previous_end` to `start` does not fit the type of the
    /// excluded lengths.
    ExcludedTooLong { previous_end: u64, start: u64 },
}

/// What is wrong with the interval at `i`, seen behind the one before it:
/// first the gap is looked at, then the interval itself.
pub open spec fn fault_at<TIncluded: RunLength, TExcluded: RunLength>(
    ranges: Seq<(int, int)>,
    i: int,
) -> Option<CompactRangesError> {
    let start = ranges[i].0;
    let end = ranges[i].1;
    let previous_end = ranges[i - 1].1;
    if i > 0 && start <= previous_end {
        Some(
            CompactRangesError::GapNotPositive {
                previous_end: previous_end as u64,
                start: start as u64,
            },
        )
    } else if i > 0 && start - previous_end > TExcluded::longest() {
        Some(
            CompactRangesError::ExcludedTooLong {
                previous_end: previous_end as u64,
                start: start as u64,
            },
        )
    } else if end <= start {
        Some(CompactRangesError::RangeZeroLength { start: start as u64, end: end as u64 })
    } else if end - start > TIncluded::longest() {
        Some(CompactRangesError::IncludedTooLong { start: start as u64, end: end as u64 })
    } else {
        None
    }
}

/// The first thing wrong with the intervals from place `i` on.
pub open spec fn fault_from<TIncluded: RunLength, TExcluded: RunLength>(
    ranges: Seq<(int, int)>,
    i: nat,
) -> Option<CompactRangesError>
    decreases ranges.len() - i,
{
    if i >= ranges.len() {
        None
    } else {
        match fault_at::<TIncluded, TExcluded>(ranges, i as int) {
            Some(error) => Some(error),
            None => fault_from::<TIncluded, TExcluded>(ranges, i + 1),
        }
    }
}

/// Why `ranges` cannot be stored with lengths of the two types, or `None`
/// where they can.
pub open spec fn first_fault<TIncluded: RunLength, TExcluded: RunLength>(
    ranges: Seq<(int, int)>,
) -> Option<CompactRangesError> {
    if ranges.len() == 0 {
        Some(CompactRangesError::Empty)
    } else {
        fault_from::<TIncluded, TExcluded>(ranges, 0)
    }
}

/// Where nothing is wrong from place `i` on, nothing is wrong at any place
/// from there on.
pub proof fn lemma_no_fault_from<TIncluded: RunLength, TExcluded: RunLength>(
    ranges: Seq<(int, int)>,
    i: nat,
    k: int,
)
    requires
        fault_from::<TIncluded, TExcluded>(ranges, i) is None,
        i <= k < ranges.len(),
    ensures
        fault_at::<TIncluded, TExcluded>(ranges, k) is None,
    decreases ranges.len() - i,
{
    if i < k {
        lemma_no_fault_from::<TIncluded, TExcluded>(ranges, i + 1, k);
    }
}

/// The bounds of the intervals of `input`.
pub open spec fn ranges_of<TMeta>(input: Seq<(Range<u64>, TMeta)>) -> Seq<(int, int)> {
    Seq::new(input.len(), |i: int| (input[i].0.start as int, input[i].0.end as int))
}

/// The payloads of the intervals of `input`.
pub open spec fn metas_of<TMeta>(input: Seq<(Range<u64>, TMeta)>) -> Seq<TMeta> {
    Seq::new(input.len(), |i: int| input[i].1)
}

/// Intervals with nothing wrong lie apart, and their lengths and gaps fit
/// the two types.
#[verifier::rlimit(40)]
pub proof fn lemma_faultless_ranges<TIncluded: RunLength, TExcluded: RunLength>(
    ranges: Seq<(int, int)>,
)
    requires
        first_fault::<TIncluded, TExcluded>(ranges) is None,
        forall|i: int| 0 <= i < ranges.len() ==> 0 <= (#[trigger] ranges[i]).0,
    ensures
        separated(ranges),
        forall|i: int|
            0 <= i < ranges.len() ==> 0 < #[trigger] included_of(ranges)[i]
                <= TIncluded::longest(),
        forall|i: int|
            0 <= i < ranges.len() - 1 ==> 0 < #[trigger] excluded_of(ranges)[i]
                <= TExcluded::longest(),
{
    assert forall|i: int| 0 <= i < ranges.len() implies fault_at::<TIncluded, TExcluded>(
        ranges,
        i,
    ) is None by {
        lemma_no_fault_from::<TIncluded, TExcluded>(ranges, 0, i);
    }
    assert forall|i: int| 0 <= i < ranges.len() implies 0 <= (#[trigger] ranges[i]).0
        < ranges[i].1 by {
        assert(fault_at::<TIncluded, TExcluded>(ranges, i) is None);
    }
    assert forall|i: int| 0 < i < ranges.len() implies ranges[i - 1].1 < (#[trigger] ranges[i]).0 by {
        assert(fault_at::<TIncluded, TExcluded>(ranges, i) is None);
    }
    assert forall|i: int| 0 <= i < ranges.len() implies 0 < #[trigger] included_of(ranges)[i]
        <= TIncluded::longest() by {
        assert(fault_at::<TIncluded, TExcluded>(ranges, i) is None);
    }
    assert forall|i: int| 0 <= i < ranges.len() - 1 implies 0 < #[trigger] excluded_of(ranges)[i]
        <= TExcluded::longest() by {
        assert(fault_at::<TIncluded, TExcluded>(ranges, i + 1) is None);
    }
}

/// The items of `items` from the last to the first.
fn reversed<T>(items: Vec<T>) -> (r: Vec<T>)
    ensures
        r@.len() == items@.len(),
        forall|k: int| 0 <= k < r@.len() ==> #[trigger] r@[k] == items@[items@.len() - 1 - k],
{
    let ghost all = items@;
    let mut items = items;
    let mut r: Vec<T> = Vec::new();
    while items.len() > 0
        invariant
            items@.len() + r@.len() == all.len(),
            forall|k: int| 0 <= k < items@.len() ==> #[trigger] items@[k] == all[k],
            forall|k: int| 0 <= k < r@.len() ==> #[trigger] r@[k] == all[all.len() - 1 - k],
        decreases items.len(),
    {
        let item = items.pop().unwrap();
        r.push(item);
    }
    r
}

/// A start and two runs of lengths stand for intervals with `metas`
/// payloads: there is a payload for each interval and a gap between each
/// two, no length is zero, and no interval ends beyond the coordinates.
pub open spec fn well_formed_parts(
    initial: nat,
    included: Seq<nat>,
    excluded: Seq<nat>,
    metas: nat,
) -> bool {
    &&& included.len() == metas
    &&& included.len() == excluded.len() + 1
    &&& forall|i: int| 0 <= i < included.len() ==> #[trigger] included[i] > 0
    &&& forall|i: int| 0 <= i < excluded.len() ==> #[trigger] excluded[i] > 0
    &&& forall|i: int|
        0 <= i < included.len() ==> (#[trigger] decoded(initial, included, excluded)[i]).1
            <= u64::MAX
}

/// Intervals that lie apart, stored as the start of the first one and the
/// lengths of the intervals and of the gaps between them, with a payload
/// for each interval.
pub struct CompactRanges<TIncluded, TExcluded, TMeta> {
    initial_offset: u64,
    included: Vec<TIncluded>,
    excluded: Vec<TExcluded>,
    meta: Vec<TMeta>,
}

impl<TIncluded: RunLength, TExcluded: RunLength, TMeta> CompactRanges<TIncluded, TExcluded, TMeta> {
    /// The start of the first interval.
    pub closed spec fn initial(&self) -> nat {
        self.initial_offset as nat
    }

    /// The lengths of the intervals.
    pub closed spec fn included_lengths(&self) -> Seq<nat> {
        lengths(self.included@)
    }

    /// The lengths of the gaps.
    pub closed spec fn excluded_lengths(&self) -> Seq<nat> {
        lengths(self.excluded@)
    }

    /// The payloads of the intervals.
    pub closed spec fn metas(&self) -> Seq<TMeta> {
        self.meta@
    }

    /// The intervals that the store stands for.
    pub open spec fn ranges(&self) -> Seq<(int, int)> {
        decoded(self.initial(), self.included_lengths(), self.excluded_lengths())
    }

    /// The parts of the store are well formed.
    pub open spec fn well_formed(&self) -> bool {
        well_formed_parts(
            self.initial(),
            self.included_lengths(),
            self.excluded_lengths(),
            self.metas().len(),
        )
    }

    /// The start of the first interval.
    pub fn initial_offset(&self) -> (r: u64)
        ensures
            r == self.initial(),
    {
        self.initial_offset
    }

    /// The lengths of the intervals, as they are stored.
    pub fn included(&self) -> (r: &Vec<TIncluded>)
        ensures
            lengths(r@) == self.included_lengths(),
    {
        &self.included
    }

    /// The lengths of the gaps, as they are stored.
    pub fn excluded(&self) -> (r: &Vec<TExcluded>)
        ensures
            lengths(r@) == self.excluded_lengths(),
    {
        &self.excluded
    }

    /// The payloads of the intervals.
    pub fn meta(&self) -> (r: &Vec<TMeta>)
        ensures
            r@ == self.metas(),
    {
        &self.meta
    }

    /// A store of the given parts, if they are well formed.
    #[verifier::rlimit(40)]
    pub fn try_from_parts(
        initial_offset: u64,
        included: Vec<TIncluded>,
        excluded: Vec<TExcluded>,
        meta: Vec<TMeta>,
    ) -> (r: Option<Self>)
        ensures
            r is Some <==> well_formed_parts(
                initial_offset as nat,
                lengths(included@),
                lengths(excluded@),
                meta@.len(),
            ),
            r matches Some(store) ==> {
                &&& store.well_formed()
                &&& store.initial() == initial_offset
                &&& store.included_lengths() == lengths(included@)
                &&& store.excluded_lengths() == lengths(excluded@)
                &&& store.metas() == meta@
            },
    {
        let ghost runs = lengths(included@);
        let ghost gaps = lengths(excluded@);
        let ghost all = decoded(initial_offset as nat, runs, gaps);
        if included.len() != meta.len() || included.len() == 0 || included.len() - 1
            != excluded.len() {
            return None;
        }
        let mut offset = initial_offset;
        let mut i: usize = 0;
        while i < included.len()
            invariant
                runs == lengths(included@),
                gaps == lengths(excluded@),
                all == decoded(initial_offset as nat, runs, gaps),
                included@.len() == excluded@.len() + 1,
                i <= included@.len(),
                i < included@.len() ==> offset == offset_at(
                    initial_offset as nat,
                    runs,
                    gaps,
                    i as nat,
                ),
                forall|k: int| 0 <= k < i ==> #[trigger] runs[k] > 0,
                forall|k: int| 0 <= k < i && k < gaps.len() ==> #[trigger] gaps[k] > 0,
                forall|k: int| 0 <= k < i ==> (#[trigger] all[k]).1 <= u64::MAX,
            decreases included@.len() - i,
        {
            let length = included[i].widen();
            assert(runs[i as int] == length);
            assert(all[i as int].1 == offset + length);
            if length == 0 {
                return None;
            }
            let end = match offset.checked_add(length) {
                Some(end) => end,
                None => {
                    return None;
                },
            };
            if i < excluded.len() {
                let gap = excluded[i].widen();
                assert(gaps[i as int] == gap);
                if gap == 0 {
                    return None;
                }
                assert(all[i + 1].1 == end + gap + runs[i + 1]);
                offset = match end.checked_add(gap) {
                    Some(next) => next,
                    None => {
                        return None;
                    },
                };
            }
            i += 1;
        }
        Some(CompactRanges { initial_offset, included, excluded, meta })
    }

    /// Stores `iter`, whose intervals are to lie apart in ascending order.
    ///
    /// Fails on an empty input, and at the first interval that does not
    /// start behind the end of the one before it, whose gap to that one is
    /// too long for `TExcluded`, that holds no coordinate, or that is too
    /// long for `TIncluded`.
    #[verifier::rlimit(40)]
    pub fn try_from_ordered_iter(iter: Vec<(Range<u64>, TMeta)>) -> (r: Result<
        Self,
        CompactRangesError,
    >)
        ensures
            match r {
                Ok(store) => {
                    &&& first_fault::<TIncluded, TExcluded>(ranges_of(iter@)) is None
                    &&& store.well_formed()
                    &&& store.initial() == iter@[0].0.start
                    &&& store.included_lengths() == included_of(ranges_of(iter@))
                    &&& store.excluded_lengths() == excluded_of(ranges_of(iter@))
                    &&& store.metas() == metas_of(iter@)
                    &&& store.ranges() == ranges_of(iter@)
                },
                Err(error) => first_fault::<TIncluded, TExcluded>(ranges_of(iter@)) == Some(
                    error,
                ),
            },
            (exists|i: int|
                0 <= i < iter@.len() && #[trigger] included_of(ranges_of(iter@))[i]
                    > TIncluded::longest()) ==> r is Err,
            (exists|i: int|
                0 <= i < iter@.len() - 1 && #[trigger] excluded_of(ranges_of(iter@))[i]
                    > TExcluded::longest()) ==> r is Err,
    {
        let ghost all = iter@;
        let ghost ranges = ranges_of(iter@);
        let mut pending = reversed(iter);
        let mut included: Vec<TIncluded> = Vec::new();
        let mut excluded: Vec<TExcluded> = Vec::new();
        let mut meta: Vec<TMeta> = Vec::new();
        let (first, first_meta) = match pending.pop() {
            Some(first) => first,
            None => {
                return Err(CompactRangesError::Empty);
            },
        };
        assert(first == all[0].0);
        assert(ranges[0] == (first.start as int, first.end as int));
        let initial_offset = first.start;
        if first.end <= first.start {
            return Err(CompactRangesError::RangeZeroLength { start: first.start, end: first.end });
        }
        match TIncluded::narrow(first.end - first.start) {
            Some(length) => {
                included.push(length);
                meta.push(first_meta);
            },
            None => {
                return Err(
                    CompactRangesError::IncludedTooLong { start: first.start, end: first.end },
                );
            },
        }
        let mut previous_end = first.end;
        let ghost mut done: nat = 1;
        while pending.len() > 0
            invariant
                all == iter@,
                ranges == ranges_of(all),
                1 <= done <= all.len(),
                pending@.len() + done == all.len(),
                forall|k: int|
                    0 <= k < pending@.len() ==> #[trigger] pending@[k] == all[all.len() - 1 - k],
                previous_end == ranges[done - 1].1,
                first_fault::<TIncluded, TExcluded>(ranges) == fault_from::<TIncluded, TExcluded>(
                    ranges,
                    done,
                ),
                included@.len() == done,
                excluded@.len() == done - 1,
                meta@.len() == done,
                forall|k: int|
                    0 <= k < done ==> (#[trigger] included@[k]).length() == included_of(ranges)[k],
                forall|k: int|
                    0 <= k < done - 1 ==> (#[trigger] excluded@[k]).length() == excluded_of(
                        ranges,
                    )[k],
                forall|k: int| 0 <= k < done ==> #[trigger] meta@[k] == all[k].1,
            decreases pending.len(),
        {
            let (range, range_meta) = pending.pop().unwrap();
            assert(range == all[done as int].0);
            assert(ranges[done as int] == (range.start as int, range.end as int));
            if range.start <= previous_end {
                return Err(
                    CompactRangesError::GapNotPositive { previous_end, start: range.start },
                );
            }
            let gap = match TExcluded::narrow(range.start - previous_end) {
                Some(gap) => gap,
                None => {
                    return Err(
                        CompactRangesError::ExcludedTooLong { previous_end, start: range.start },
                    );
                },
            };
            if range.end <= range.start {
                return Err(
                    CompactRangesError::RangeZeroLength { start: range.start, end: range.end },
                );
            }
            let length = match TIncluded::narrow(range.end - range.start) {
                Some(length) => length,
                None => {
                    return Err(
                        CompactRangesError::IncludedTooLong { start: range.start, end: range.end },
                    );
                },
            };
            excluded.push(gap);
            included.push(length);
            meta.push(range_meta);
            previous_end = range.end;
            proof {
                done = done + 1;
            }
        }
        let store = CompactRanges { initial_offset, included, excluded, meta };
        proof {
            lemma_faultless_ranges::<TIncluded, TExcluded>(ranges);
            stored_ranges_read_back(ranges);
            assert(store.included_lengths() =~= included_of(ranges));
            assert(store.excluded_lengths() =~= excluded_of(ranges));
            assert(store.metas() =~= metas_of(all));
        }
        Ok(store)
    }

    /// The intervals of the store with their payloads, in their order.
    #[verifier::rlimit(40)]
    pub fn iter(&self) -> (out: Vec<(NonZeroRange<u64>, &TMeta)>)
        requires
            self.well_formed(),
        ensures
            out@.len() == self.ranges().len(),
            forall|i: int|
                0 <= i < out@.len() ==> {
                    &&& (#[trigger] out@[i]).0@.start == self.ranges()[i].0
                    &&& out@[i].0@.end == self.ranges()[i].1
                    &&& *out@[i].1 == self.metas()[i]
                },
    {
        let mut out: Vec<(NonZeroRange<u64>, &TMeta)> = Vec::new();
        let mut offset = self.initial_offset;
        let mut i: usize = 0;
        while i < self.included.len()
            invariant
                self.well_formed(),
                i <= self.included@.len(),
                i < self.included@.len() ==> offset == offset_at(
                    self.initial(),
                    self.included_lengths(),
                    self.excluded_lengths(),
                    i as nat,
                ),
                out@.len() == i,
                forall|k: int|
                    0 <= k < i ==> {
                        &&& (#[trigger] out@[k]).0@.start == self.ranges()[k].0
                        &&& out@[k].0@.end == self.ranges()[k].1
                        &&& *out@[k].1 == self.metas()[k]
                    },
            decreases self.included@.len() - i,
        {
            let length = self.included[i].widen();
            assert(self.included_lengths()[i as int] == length);
            assert(self.ranges()[i as int].1 == offset + length);
            let end = offset + length;
            out.push((NonZeroRange::new_unchecked(offset..end), &self.meta[i]));
            if i < self.excluded.len() {
                let gap = self.excluded[i].widen();
                assert(self.excluded_lengths()[i as int] == gap);
                assert(self.ranges()[i + 1].0 == end + gap);
                assert(self.ranges()[i + 1].0 < self.ranges()[i + 1].1) by {
                    assert(self.included_lengths()[i + 1] > 0);
                }
                offset = end + gap;
            }
            i += 1;
        }
        out
    }
}

} // verus!
