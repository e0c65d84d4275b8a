use crate::range::OrderedRangeItem;
use std::collections::VecDeque;
use vstd::prelude::*;

verus! {

broadcast use vstd::std_specs::vecdeque::group_vec_dequeue_axioms;

/// The order of two keys: by the first part, and by the second where the
/// first parts are equal.
pub open spec fn key_le(a: (usize, u32), b: (usize, u32)) -> bool {
    a.0 < b.0 || (a.0 == b.0 && a.1 <= b.1)
}

/// No item has a key below that of an item before it: the starts ascend, and
/// among equal starts the priorities descend.
pub open spec fn sorted_by_key<TMeta>(items: Seq<OrderedRangeItem<usize, TMeta>>) -> bool {
    forall|i: int, j: int|
        0 <= i <= j < items.len() ==> key_le((#[trigger] items[i]).key(), (#[trigger] items[j]).key())
}

/// Tells whether the keys of `items` never descend.
pub fn is_sorted_by_key<TMeta>(items: &Vec<OrderedRangeItem<usize, TMeta>>) -> (r: bool)
    ensures
        r == sorted_by_key(items@),
{
    let mut at: usize = 1;
    while at < items.len()
        invariant
            1 <= at,
            forall|i: int, j: int|
                0 <= i <= j < at && j < items.len() ==> key_le(
                    (#[trigger] items@[i]).key(),
                    (#[trigger] items@[j]).key(),
                ),
        decreases items.len() - at,
    {
        let before = items[at - 1].comparator();
        let here = items[at].comparator();
        if !(before.0 < here.0 || (before.0 == here.0 && before.1 <= here.1)) {
            assert(!key_le(items@[at - 1].key(), items@[at as int].key()));
            return false;
        }
        assert forall|i: int, j: int| 0 <= i <= j < at + 1 && j < items.len() implies key_le(
            (#[trigger] items@[i]).key(),
            (#[trigger] items@[j]).key(),
        ) by {
            if j == at && i < at {
                assert(key_le(items@[i].key(), items@[at - 1].key()));
            }
        }
        at += 1;
    }
    true
}

/// Hands the items of a sequence on, one by one and unchanged, and keeps the
/// key of the last one, so that a caller of `next` can be held to an input
/// whose keys never descend.
pub struct DebugAssertSortedByIter<TMeta>(
    VecDeque<OrderedRangeItem<usize, TMeta>>,
    Option<(usize, u32)>,
);

impl<TMeta> DebugAssertSortedByIter<TMeta> {
    /// The items that are still to come.
    pub closed spec fn pending(&self) -> Seq<OrderedRangeItem<usize, TMeta>> {
        self.0@
    }

    /// The key of the item that was handed on last.
    pub closed spec fn last_key(&self) -> Option<(usize, u32)> {
        self.1
    }

    /// The key of the next item is not below the key of the last one.
    pub open spec fn in_order(&self) -> bool {
        self.pending().len() > 0 ==> match self.last_key() {
            Some(last) => key_le(last, self.pending()[0].key()),
            None => true,
        }
    }

    pub fn new(iter: Vec<OrderedRangeItem<usize, TMeta>>) -> (r: Self)
        ensures
            r.pending() == iter@,
            r.last_key() is None,
    {
        let ghost all = iter@;
        let mut iter = iter;
        let mut items: VecDeque<OrderedRangeItem<usize, TMeta>> = VecDeque::new();
        while iter.len() > 0
            invariant
                iter@ + items@ == all,
            decreases iter.len(),
        {
            let ghost shorter = iter@.drop_last();
            let item = iter.pop().unwrap();
            assert(shorter + (seq![item] + items@) =~= all);
            items.push_front(item);
        }
        assert(items@ =~= all);
        DebugAssertSortedByIter(items, None)
    }

    /// Puts `item` behind the items that are still to come.
    pub fn feed(&mut self, item: OrderedRangeItem<usize, TMeta>)
        ensures
            final(self).pending() == old(self).pending().push(item),
            final(self).last_key() == old(self).last_key(),
    {
        self.0.push_back(item);
    }

    /// The key of the item that was handed on last.
    pub fn last(&self) -> (r: Option<(usize, u32)>)
        ensures
            r == self.last_key(),
    {
        self.1
    }

    /// Whether no item is left.
    pub fn is_empty(&self) -> (r: bool)
        ensures
            r == (self.pending().len() == 0),
    {
        self.0.len() == 0
    }

    /// The next item, if one is left. The caller sees to it that its key is
    /// not below the key of the item before it.
    pub fn next(&mut self) -> (r: Option<OrderedRangeItem<usize, TMeta>>)
        requires
            old(self).in_order(),
        ensures
            match r {
                Some(item) => {
                    &&& old(self).pending().len() > 0
                    &&& item == old(self).pending()[0]
                    &&& final(self).pending() == old(self).pending().drop_first()
                    &&& final(self).last_key() == Some(item.key())
                },
                None => {
                    &&& old(self).pending().len() == 0
                    &&& final(self).pending() == old(self).pending()
                    &&& final(self).last_key() == old(self).last_key()
                },
            },
    {
        match self.0.pop_front() {
            Some(value) => {
                let ord_value = value.comparator();
                self.1 = Some(ord_value);
                Some(value)
            },
            None => None,
        }
    }
}

} // verus!
