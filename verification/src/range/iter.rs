//! Iteration over a `CharRange`: forward, reverse, exact-size and fused,
//! skipping the surrogate gap.

use vstd::prelude::*;

use crate::chars::{char_pred, char_succ, code_at, codes, span_len};
use crate::range::CharRange;

verus! {

broadcast use vstd::utf8::char_is_scalar;

/// An iterator over a range of Unicode codepoints, constructed via
/// `CharRange::iter`.
///
/// `next` yields `low` and steps it to its successor; `next_back` yields
/// `high` and steps it to its predecessor. When a forward step runs off
/// `U+10FFFF` the state collapses to the canonical empty range, and
/// symmetrically for a backward step off `U+0000`: once empty, the
/// iterator never yields again.
#[derive(Clone, Debug)]
pub struct Iter {
    low: char,
    high: char,
}

impl Iter {
    /// The characters this iterator has yet to yield, in ascending order.
    pub closed spec fn remaining(self) -> Seq<char> {
        codes(self.low as u32 as int, self.high as u32 as int)
    }

    fn step_forward(&mut self)
        requires
            old(self).remaining().len() > 0,
        ensures
            final(self).remaining() == old(self).remaining().drop_first(),
    {
        proof {
            lemma_codes_drop_first(self.low as u32 as int, self.high as u32 as int);
        }
        if self.low == '\u{10FFFF}' {
            self.high = '\0';
        } else {
            self.low = char_succ(self.low);
        }
    }

    fn step_backward(&mut self)
        requires
            old(self).remaining().len() > 0,
        ensures
            final(self).remaining() == old(self).remaining().drop_last(),
    {
        proof {
            lemma_codes_drop_last(self.low as u32 as int, self.high as u32 as int);
        }
        if self.high == '\0' {
            self.low = '\u{10FFFF}';
        } else {
            self.high = char_pred(self.high);
        }
    }

    /// Is there nothing left to yield?
    pub fn is_empty(&self) -> (r: bool)
        ensures
            r == (self.remaining().len() == 0),
    {
        self.low > self.high
    }

    /// The next character in ascending order, or `None` once exhausted.
    pub fn next(&mut self) -> (r: Option<char>)
        ensures
            old(self).remaining().len() == 0 ==> r is None && *final(self) == *old(self),
            old(self).remaining().len() > 0 ==> r == Some(old(self).remaining()[0]) && final(self).remaining() == old(self).remaining().drop_first(),
    {
        if self.is_empty() {
            return None;
        }
        let c = self.low;
        proof {
            crate::chars::lemma_codes_index(
                self.low as u32 as int,
                self.high as u32 as int,
                0,
            );
        }
        self.step_forward();
        Some(c)
    }

    /// The next character in descending order, or `None` once exhausted.
    pub fn next_back(&mut self) -> (r: Option<char>)
        ensures
            old(self).remaining().len() == 0 ==> r is None && *final(self) == *old(self),
            old(self).remaining().len() > 0 ==> r == Some(old(self).remaining().last()) && final(self).remaining() == old(self).remaining().drop_last(),
    {
        if self.is_empty() {
            return None;
        }
        let c = self.high;
        proof {
            let lo = self.low as u32 as int;
            let hi = self.high as u32 as int;
            crate::chars::lemma_codes_index(lo, hi, self.remaining().len() - 1);
            assert(code_at(lo, self.remaining().len() - 1) == hi);
        }
        self.step_backward();
        Some(c)
    }

    /// How many characters are left to yield.
    pub fn len(&self) -> (r: usize)
        ensures
            r == self.remaining().len(),
    {
        CharRange { low: self.low, high: self.high }.len()
    }
}

impl CharRange {
    /// An iterator over this range.
    pub fn iter(self) -> (it: Iter)
        ensures
            it.remaining() == self.code_seq(),
    {
        Iter { low: self.low, high: self.high }
    }

    /// The characters of this range, in ascending order.
    pub fn to_vec(self) -> (v: Vec<char>)
        ensures
            v@ == self.code_seq(),
    {
        let mut it = self.iter();
        let mut v: Vec<char> = Vec::new();
        loop
            invariant
                v@ + it.remaining() == self.code_seq(),
            decreases it.remaining().len(),
        {
            match it.next() {
                Some(c) => {
                    v.push(c);
                    proof {
                        assert(v@ + it.remaining() =~= self.code_seq());
                    }
                },
                None => {
                    proof {
                        assert(v@ =~= self.code_seq());
                    }
                    return v;
                },
            }
        }
    }

    /// The characters of this range, in descending order: what reverse
    /// iteration yields.
    pub fn to_vec_rev(self) -> (v: Vec<char>)
        ensures
            v@ == self.code_seq().reverse(),
    {
        let mut it = self.iter();
        let mut v: Vec<char> = Vec::new();
        loop
            invariant
                it.remaining() + v@.reverse() == self.code_seq(),
            decreases it.remaining().len(),
        {
            match it.next_back() {
                Some(c) => {
                    v.push(c);
                    proof {
                        assert(v@.reverse() =~= seq![c] + v@.drop_last().reverse());
                        assert(it.remaining() + v@.reverse() =~= self.code_seq());
                    }
                },
                None => {
                    proof {
                        assert(v@.reverse() =~= self.code_seq());
                        assert(v@ =~= v@.reverse().reverse());
                    }
                    return v;
                },
            }
        }
    }
}

/// Reverse iteration yields the same characters as forward iteration, in
/// the opposite order: reversing the reverse collection restores the
/// forward one.
pub proof fn lemma_reverse_iteration(r: CharRange)
    ensures
        r.code_seq().reverse().reverse() == r.code_seq(),
{
    assert(r.code_seq().reverse().reverse() =~= r.code_seq());
}

proof fn lemma_codes_drop_first(lo: int, hi: int)
    requires
        crate::chars::scalar_code(lo),
        crate::chars::scalar_code(hi),
        span_len(lo, hi) > 0,
    ensures
        lo == 0x10FFFF ==> codes(lo, hi).drop_first() == codes(0x10FFFF, 0),
        lo < 0x10FFFF ==> codes(lo, hi).drop_first() == codes(crate::chars::succ_code(lo), hi),
{
    if lo == 0x10FFFF {
        assert(codes(lo, hi).drop_first() =~= codes(0x10FFFF, 0));
    } else {
        let s = crate::chars::succ_code(lo);
        assert(span_len(s, hi) == span_len(lo, hi) - 1);
        assert forall|i: int| 0 <= i < span_len(s, hi) implies code_at(s, i) == code_at(
            lo,
            i + 1,
        ) by {}
        assert(codes(lo, hi).drop_first() =~= codes(s, hi));
    }
}

proof fn lemma_codes_drop_last(lo: int, hi: int)
    requires
        crate::chars::scalar_code(lo),
        crate::chars::scalar_code(hi),
        span_len(lo, hi) > 0,
    ensures
        hi == 0 ==> codes(lo, hi).drop_last() == codes(0x10FFFF, 0),
        hi > 0 ==> codes(lo, hi).drop_last() == codes(lo, crate::chars::pred_code(hi)),
{
    if hi == 0 {
        assert(codes(lo, hi).drop_last() =~= codes(0x10FFFF, 0));
    } else {
        let p = crate::chars::pred_code(hi);
        assert(span_len(lo, p) == span_len(lo, hi) - 1);
        assert(codes(lo, hi).drop_last() =~= codes(lo, p));
    }
}

} // verus!
