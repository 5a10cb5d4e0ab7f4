//! Iteration over the ranges and characters of a `CharSet`.

use vstd::prelude::*;

use crate::range::CharRange;
use crate::set::{flat_seq, CharSet};

verus! {

/// An iterator over ranges of `char`, constructed via `CharSet::ranges`.
#[derive(Clone, Debug)]
pub struct RangeIter<'a> {
    ranges: &'a [CharRange],
    pos: usize,
    end: usize,
}

impl<'a> RangeIter<'a> {
    /// The ranges this iterator has yet to yield, in order.
    pub closed spec fn remaining(self) -> Seq<CharRange> {
        if self.pos <= self.end <= self.ranges@.len() {
            self.ranges@.subrange(self.pos as int, self.end as int)
        } else {
            Seq::empty()
        }
    }

    /// The next range in ascending order, or `None` once exhausted.
    pub fn next(&mut self) -> (r: Option<CharRange>)
        ensures
            old(self).remaining().len() == 0 ==> r is None && *final(self) == *old(self),
            old(self).remaining().len() > 0 ==> r == Some(old(self).remaining()[0]) && final(self).remaining() == old(self).remaining().drop_first(),
    {
        if self.pos < self.end && self.end <= self.ranges.len() {
            let c = self.ranges[self.pos];
            self.pos = self.pos + 1;
            proof {
                assert(final(self).remaining() =~= old(self).remaining().drop_first());
            }
            Some(c)
        } else {
            None
        }
    }

    /// The next range in descending order, or `None` once exhausted.
    pub fn next_back(&mut self) -> (r: Option<CharRange>)
        ensures
            old(self).remaining().len() == 0 ==> r is None && *final(self) == *old(self),
            old(self).remaining().len() > 0 ==> r == Some(old(self).remaining().last()) && final(self).remaining() == old(self).remaining().drop_last(),
    {
        if self.pos < self.end && self.end <= self.ranges.len() {
            self.end = self.end - 1;
            let c = self.ranges[self.end];
            proof {
                assert(final(self).remaining() =~= old(self).remaining().drop_last());
            }
            Some(c)
        } else {
            None
        }
    }

    /// How many ranges are left to yield.
    pub fn len(&self) -> (r: usize)
        ensures
            r == self.remaining().len(),
    {
        if self.pos <= self.end && self.end <= self.ranges.len() {
            self.end - self.pos
        } else {
            0
        }
    }
}

impl<'a> CharSet<'a> {
    /// Iterate the compact ranges of this set.
    pub fn ranges(&self) -> (it: RangeIter<'a>)
        ensures
            it.remaining() == self@,
    {
        let it = RangeIter { ranges: self.ranges, pos: 0, end: self.ranges.len() };
        proof {
            assert(it.remaining() =~= self@);
        }
        it
    }

    /// The characters of this set, in ascending order.
    pub fn chars(&self) -> (v: Vec<char>)
        ensures
            v@ == flat_seq(self@),
    {
        let rs = self.ranges;
        let mut v: Vec<char> = Vec::new();
        let mut k: usize = 0;
        proof {
            assert(flat_seq(rs@.take(0)) =~= Seq::<char>::empty());
        }
        while k < rs.len()
            invariant
                rs@ == self@,
                k <= rs@.len(),
                v@ == flat_seq(rs@.take(k as int)),
            decreases rs@.len() - k,
        {
            let mut part = rs[k].to_vec();
            v.append(&mut part);
            k = k + 1;
            proof {
                assert(rs@.take(k as int).drop_last() =~= rs@.take(k as int - 1));
            }
        }
        proof {
            assert(rs@.take(rs@.len() as int) =~= self@);
        }
        v
    }
}

} // verus!
