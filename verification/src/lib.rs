//! Range algebra over one-dimensional, half-open intervals that carry a
//! priority and a payload: an interval type that holds at least one
//! coordinate, a merge that resolves the overlaps of prioritized intervals,
//! and a compact store for the intervals that come out of it.

pub mod range;

pub use range::assert_sorted_iter::DebugAssertSortedByIter;
pub use range::merge_ordered_iter::OrderedNonOverlappingRangeIter;
pub use range::non_zero::NonZeroRange;
pub use range::non_zero::RangeUnchecked;
pub use range::non_zero::RangeZeroLenghtError;
pub use range::run_length::CompactRanges;
pub use range::run_length::CompactRangesError;
pub use range::run_length::RunLength;
pub use range::OrderedRangeItem;
