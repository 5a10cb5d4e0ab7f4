//! Iteration over the ranges, characters and range-value pairs of a
//! `CharMapRef`.

use vstd::prelude::*;

use crate::map::CharMapRef;
use crate::range::CharRange;
use crate::set::flat_seq;

verus! {

/// An iterator over the range-value pairs of a `CharMapRef`, constructed
/// via `CharMapRef::range_values`.
#[derive(Debug)]
pub struct RangeValueIter<'a, T> {
    ranges: &'a [CharRange],
    values: &'a [T],
    pos: usize,
    end: usize,
}

impl<'a, T> RangeValueIter<'a, T> {
    /// The ranges this iterator has yet to yield, in order.
    pub closed spec fn remaining_ranges(self) -> Seq<CharRange> {
        if self.pos <= self.end <= self.ranges@.len() {
            self.ranges@.subrange(self.pos as int, self.end as int)
        } else {
            Seq::empty()
        }
    }

    /// The values this iterator has yet to yield, in order.
    pub closed spec fn remaining_values(self) -> Seq<T> {
        if self.pos <= self.end <= self.values@.len() {
            self.values@.subrange(self.pos as int, self.end as int)
        } else {
            Seq::empty()
        }
    }

    /// Whether the iterator state is consistent: both remainders cover
    /// the same indices of lists of one length.
    pub closed spec fn wf(self) -> bool {
        self.ranges@.len() == self.values@.len() && self.pos <= self.end <= self.ranges@.len()
    }

    /// The next range-value pair in ascending order, or `None` once
    /// exhausted.
    pub fn next(&mut self) -> (r: Option<(CharRange, &'a T)>)
        requires
            old(self).wf(),
        ensures
            final(self).wf(),
            old(self).remaining_ranges().len() == 0 ==> r is None && *final(self) == *old(self),
            old(self).remaining_ranges().len() > 0 ==> match r {
                Some(p) => {
                    &&& p.0 == old(self).remaining_ranges()[0]
                    &&& *p.1 == old(self).remaining_values()[0]
                    &&& final(self).remaining_ranges() == old(self).remaining_ranges().drop_first()
                    &&& final(self).remaining_values() == old(self).remaining_values().drop_first()
                },
                None => false,
            },
    {
        if self.pos < self.end {
            let r = self.ranges[self.pos];
            let v = vstd::slice::slice_index_get(self.values, self.pos);
            self.pos = self.pos + 1;
            proof {
                assert(final(self).remaining_ranges() =~= old(self).remaining_ranges().drop_first());
                assert(final(self).remaining_values() =~= old(self).remaining_values().drop_first());
            }
            Some((r, v))
        } else {
            None
        }
    }

    /// How many pairs are left to yield.
    pub fn len(&self) -> (r: usize)
        requires
            self.wf(),
        ensures
            r == self.remaining_ranges().len(),
    {
        self.end - self.pos
    }
}

impl<'a, T> CharMapRef<'a, T> {
    /// Iterate the compact ranges of this mapping.
    pub fn ranges(&self) -> (it: crate::set::RangeIter<'a>)
        ensures
            it.remaining() == self.ranges_seq(),
    {
        crate::set::CharSet::from_raw(self.ranges).ranges()
    }

    /// The codepoints of this mapping, in ascending order.
    pub fn chars(&self) -> (v: Vec<char>)
        ensures
            v@ == flat_seq(self.ranges_seq()),
    {
        crate::set::CharSet::from_raw(self.ranges).chars()
    }

    /// Iterate the range-value pairs of this mapping.
    pub fn range_values(&self) -> (it: RangeValueIter<'a, T>)
        requires
            self.wf(),
        ensures
            it.wf(),
            it.remaining_ranges() == self.ranges_seq(),
            it.remaining_values() == self.values_seq(),
    {
        let it = RangeValueIter {
            ranges: self.ranges,
            values: self.values,
            pos: 0,
            end: self.ranges.len(),
        };
        proof {
            assert(it.remaining_ranges() =~= self.ranges_seq());
            assert(it.remaining_values() =~= self.values_seq());
        }
        it
    }
}

} // verus!
