//! Working with ranges and with collections of ranges.

pub mod assert_sorted_iter;
pub mod merge_ordered_iter;
pub mod non_zero;
pub mod resolution;
pub mod run_length;
pub mod soundness;

use crate::range::non_zero::NonZeroRange;
use vstd::prelude::*;

verus! {

/// An interval with the priority that decides who keeps a contested
/// coordinate, and a payload that travels with it.
#[derive(Debug, Eq, PartialEq)]
pub struct OrderedRangeItem<TRange, TMeta> {
    pub priority: u32,
    pub range: NonZeroRange<TRange>,
    pub meta: TMeta,
}

impl<TRange: Copy, TMeta> OrderedRangeItem<TRange, TMeta> {
    /// The key by which items are ordered before they are merged: first the
    /// start, ascending, then the priority, descending.
    pub open spec fn key(&self) -> (TRange, u32) {
        (self.range@.start, (u32::MAX - self.priority) as u32)
    }

    pub fn comparator(&self) -> (r: (TRange, u32))
        ensures
            r == self.key(),
    {
        (self.range.start, u32::MAX - self.priority)
    }
}

} // verus!
