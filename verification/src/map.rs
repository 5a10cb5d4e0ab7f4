//! `CharMapRef`: a read-only mapping from codepoints to values, borrowed
//! as a canonical range list and a parallel slice of values.

use vstd::prelude::*;

use crate::range::CharRange;
use crate::set::{has_char, ranges_wf, total_len};

mod iter;

pub use self::iter::RangeValueIter;

verus! {

/// A mapping from Unicode codepoints to values: each range of the list
/// maps every one of its codepoints to the value at the same index.
#[derive(Debug)]
pub struct CharMapRef<'a, T> {
    ranges: &'a [CharRange],
    values: &'a [T],
}

// A manual impl avoids a needless `T: Copy` bound.
impl<'a, T> Clone for CharMapRef<'a, T> {
    fn clone(&self) -> (r: Self)
        ensures
            r.ranges_seq() == self.ranges_seq(),
            r.values_seq() == self.values_seq(),
    {
        CharMapRef { ranges: self.ranges, values: self.values }
    }
}

impl<'a, T> Copy for CharMapRef<'a, T> {

}

impl<'a, T> CharMapRef<'a, T> {
    /// The backing range list.
    pub closed spec fn ranges_seq(self) -> Seq<CharRange> {
        self.ranges@
    }

    /// The backing value list, parallel to the range list.
    pub closed spec fn values_seq(self) -> Seq<T> {
        self.values@
    }

    /// Whether the backing lists form a mapping: the ranges canonical,
    /// and one value for each range.
    pub open spec fn wf(self) -> bool {
        ranges_wf(self.ranges_seq()) && self.ranges_seq().len() == self.values_seq().len()
    }

    /// Create a `CharMapRef` from raw slices. Intended for use by code
    /// generation; the slices must satisfy `wf` for the lookup operations
    /// to answer correctly.
    pub fn from_raw(ranges: &'a [CharRange], values: &'a [T]) -> (m: Self)
        ensures
            m.ranges_seq() == ranges@,
            m.values_seq() == values@,
    {
        CharMapRef { ranges, values }
    }

    /// An empty map.
    pub fn empty() -> (m: Self)
        ensures
            m.ranges_seq() == Seq::<CharRange>::empty(),
            m.values_seq() == Seq::<T>::empty(),
            m.wf(),
    {
        CharMapRef { ranges: &[], values: &[] }
    }

    /// Does this mapping include this codepoint?
    pub fn contains(&self, c: char) -> (r: bool)
        requires
            self.wf(),
        ensures
            r == has_char(self.ranges_seq(), c),
    {
        match crate::set::search(self.ranges, c) {
            Ok(i) => {
                proof {
                    assert(self.ranges_seq()[i as int].lo() <= c as u32 <= self.ranges_seq()[
                        i as int].hi());
                }
                true
            },
            Err(_) => {
                proof {
                    if has_char(self.ranges_seq(), c) {
                        let j = choose|j: int|
                            0 <= j < self.ranges_seq().len() && (#[trigger] self.ranges_seq()[
                            j]).lo() <= c as u32 <= self.ranges_seq()[j].hi();
                        assert(false);
                    }
                }
                false
            },
        }
    }

    /// How many codepoints are in this mapping?
    pub fn len(&self) -> (r: usize)
        requires
            self.wf(),
        ensures
            r == total_len(self.ranges_seq()),
    {
        crate::set::range_list_len(self.ranges)
    }

    /// Is this mapping empty?
    pub fn is_empty(&self) -> (r: bool)
        ensures
            r == (self.ranges_seq().len() == 0),
    {
        self.ranges.len() == 0
    }

    /// Get the value mapped to this codepoint, or `None` when the
    /// mapping does not include it.
    pub fn get(&self, c: char) -> (r: Option<&'a T>)
        requires
            self.wf(),
        ensures
            match r {
                Some(v) => exists|i: int|
                    0 <= i < self.ranges_seq().len() && (#[trigger] self.ranges_seq()[i]).lo() <= c
                        as u32 <= self.ranges_seq()[i].hi() && *v == self.values_seq()[i],
                None => !has_char(self.ranges_seq(), c),
            },
    {
        match crate::set::search(self.ranges, c) {
            Ok(i) => {
                let v = vstd::slice::slice_index_get(self.values, i);
                proof {
                    assert(self.ranges_seq()[i as int].lo() <= c as u32 <= self.ranges_seq()[
                        i as int].hi() && *v == self.values_seq()[i as int]);
                }
                Some(v)
            },
            Err(_) => {
                proof {
                    if has_char(self.ranges_seq(), c) {
                        let j = choose|j: int|
                            0 <= j < self.ranges_seq().len() && (#[trigger] self.ranges_seq()[
                            j]).lo() <= c as u32 <= self.ranges_seq()[j].hi();
                        assert(false);
                    }
                }
                None
            },
        }
    }
}

} // verus!
