use std::ops::Range;
use vstd::prelude::*;
use vstd::std_specs::cmp::PartialOrdIs;
use vstd::std_specs::cmp::PartialOrdSpec;

verus! {

/// A pair of bounds with no promise about their order.
#[derive(Clone, Copy, PartialEq, Eq, Debug)]
pub struct RangeUnchecked<T> {
    pub start: T,
    pub end: T,
}

/// A half-open interval `[start, end)` that is meant to hold at least one
/// coordinate.
#[derive(Clone, Copy, PartialEq, Eq, Debug)]
pub struct NonZeroRange<T>(RangeUnchecked<T>);

/// The bounds that were refused because they enclose no coordinate.
#[derive(Debug)]
pub struct RangeZeroLenghtError<T>(pub Range<T>);

impl<T> View for NonZeroRange<T> {
    type V = RangeUnchecked<T>;

    closed spec fn view(&self) -> RangeUnchecked<T> {
        self.0
    }
}

/// Ranges of equal bounds are equal.
pub proof fn lemma_equal_bounds<T>(a: NonZeroRange<T>, b: NonZeroRange<T>)
    requires
        a@ == b@,
    ensures
        a == b,
{
}

/// The comparisons of `T` follow the order that its specification gives.
pub open spec fn ordered<T: PartialOrd>() -> bool {
    T::obeys_partial_cmp_spec()
}

/// `a` lies strictly before `b` in the order of `T`.
pub open spec fn before<T: PartialOrd>(a: T, b: T) -> bool {
    a.is_lt(&b)
}

impl<T> vstd::std_specs::convert::FromSpecImpl<NonZeroRange<T>> for Range<T> {
    open spec fn obeys_from_spec() -> bool {
        true
    }

    open spec fn from_spec(value: NonZeroRange<T>) -> Range<T> {
        Range { start: value@.start, end: value@.end }
    }
}

impl<T> From<NonZeroRange<T>> for Range<T> {
    /// The same bounds as a plain range.
    fn from(value: NonZeroRange<T>) -> (r: Range<T>) {
        Range { start: value.0.start, end: value.0.end }
    }
}

impl<T: Ord> vstd::std_specs::convert::TryFromSpecImpl<Range<T>> for NonZeroRange<T> {
    open spec fn obeys_try_from_spec() -> bool {
        ordered::<T>()
    }

    closed spec fn try_from_spec(value: Range<T>) -> Result<Self, RangeZeroLenghtError<T>> {
        if before(value.start, value.end) {
            Ok(NonZeroRange(RangeUnchecked { start: value.start, end: value.end }))
        } else {
            Err(RangeZeroLenghtError(value))
        }
    }
}

impl<T: Ord> TryFrom<Range<T>> for NonZeroRange<T> {
    type Error = RangeZeroLenghtError<T>;

    /// Accepts the bounds when `start` lies before `end`, and hands them back
    /// in the error when it does not.
    fn try_from(value: Range<T>) -> (r: Result<Self, RangeZeroLenghtError<T>>)
        ensures
            ordered::<T>() ==> (r is Ok <==> before(value.start, value.end)),
            r matches Ok(range) ==> range@.start == value.start && range@.end == value.end,
            r matches Err(e) ==> e.0 == value,
    {
        if value.start < value.end {
            Ok(NonZeroRange(RangeUnchecked { start: value.start, end: value.end }))
        } else {
            Err(RangeZeroLenghtError(value))
        }
    }
}

impl<T: Ord> NonZeroRange<T> {
    /// The interval holds at least one coordinate.
    pub open spec fn holds_coordinate(&self) -> bool {
        before(self@.start, self@.end)
    }

    /// Two intervals overlap when each starts before the other ends.
    pub open spec fn overlaps_spec(&self, other: &Self) -> bool {
        before(self@.start, other@.end) && before(other@.start, self@.end)
    }

    /// An interval of the given bounds, of which the caller knows that
    /// `start` lies before `end`.
    pub fn new_unchecked(range: Range<T>) -> (r: Self)
        requires
            ordered::<T>() ==> before(range.start, range.end),
        ensures
            r@.start == range.start,
            r@.end == range.end,
    {
        NonZeroRange(RangeUnchecked { start: range.start, end: range.end })
    }

    /// Whether the two intervals have a coordinate in common. Intervals that
    /// only touch have none.
    pub fn overlaps(&self, other: &Self) -> (r: bool)
        ensures
            ordered::<T>() ==> r == self.overlaps_spec(other),
    {
        self.0.start < other.0.end && other.0.start < self.0.end
    }
}

impl NonZeroRange<usize> {
    /// The number of coordinates in the interval.
    pub fn len(&self) -> (n: usize)
        requires
            self.holds_coordinate(),
        ensures
            n == self@.end - self@.start,
            n > 0,
    {
        self.0.end - self.0.start
    }

    /// Whether the bounds coincide, which no interval built from checked
    /// bounds does.
    pub fn is_empty(&self) -> (r: bool)
        ensures
            r == (self@.start == self@.end),
            self.holds_coordinate() ==> !r,
    {
        self.0.start == self.0.end
    }
}

impl<T> std::ops::Deref for NonZeroRange<T> {
    type Target = RangeUnchecked<T>;

    /// The bounds of the interval.
    fn deref(&self) -> (r: &RangeUnchecked<T>)
        ensures
            *r == self@,
    {
        &self.0
    }
}

impl vstd::std_specs::ops::AddSpecImpl<usize> for NonZeroRange<usize> {
    open spec fn obeys_add_spec() -> bool {
        true
    }

    open spec fn add_req(self, rhs: usize) -> bool {
        self@.end + rhs <= usize::MAX && self@.start + rhs <= usize::MAX
    }

    closed spec fn add_spec(self, rhs: usize) -> NonZeroRange<usize> {
        NonZeroRange(
            RangeUnchecked {
                start: self.0.start.wrapping_add(rhs),
                end: self.0.end.wrapping_add(rhs),
            },
        )
    }
}

impl std::ops::Add<usize> for NonZeroRange<usize> {
    type Output = NonZeroRange<usize>;

    /// Moves both bounds up by `rhs`.
    fn add(self, rhs: usize) -> (r: NonZeroRange<usize>)
        ensures
            r@.start == self@.start + rhs,
            r@.end == self@.end + rhs,
            self.holds_coordinate() ==> r.holds_coordinate(),
    {
        NonZeroRange(RangeUnchecked { start: self.0.start + rhs, end: self.0.end + rhs })
    }
}

impl vstd::std_specs::ops::SubSpecImpl<usize> for NonZeroRange<usize> {
    open spec fn obeys_sub_spec() -> bool {
        true
    }

    open spec fn sub_req(self, rhs: usize) -> bool {
        rhs <= self@.start && rhs <= self@.end
    }

    closed spec fn sub_spec(self, rhs: usize) -> NonZeroRange<usize> {
        NonZeroRange(
            RangeUnchecked {
                start: self.0.start.wrapping_sub(rhs),
                end: self.0.end.wrapping_sub(rhs),
            },
        )
    }
}

impl std::ops::Sub<usize> for NonZeroRange<usize> {
    type Output = NonZeroRange<usize>;

    /// Moves both bounds down by `rhs`.
    fn sub(self, rhs: usize) -> (r: NonZeroRange<usize>)
        ensures
            r@.start == self@.start - rhs,
            r@.end == self@.end - rhs,
            self.holds_coordinate() ==> r.holds_coordinate(),
    {
        NonZeroRange(RangeUnchecked { start: self.0.start - rhs, end: self.0.end - rhs })
    }
}

} // verus!
