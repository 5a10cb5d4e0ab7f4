//! `CharSetBuf`: a mutable set of characters represented by compact,
//! canonically ordered ranges of characters.

use vstd::prelude::*;

use crate::chars::{pred_code, succ_code};
use crate::range::{range_eq, CharRange};
use crate::set::{has_char, lemma_wf_ordered, list_set, ranges_wf, search, total_len, CharSet};
use crate::BEFORE_SURROGATE;

verus! {

/// A mutable set of characters.
///
/// The backing list is kept in canonical form: ranges non-empty, strictly
/// sorted, and pairwise non-touching (at least one scalar value strictly
/// between consecutive ranges).
#[derive(Clone, Debug)]
pub struct CharSetBuf {
    ranges: Vec<CharRange>,
}

impl View for CharSetBuf {
    type V = Seq<CharRange>;

    closed spec fn view(&self) -> Seq<CharRange> {
        self.ranges@
    }
}

impl CharSetBuf {
    /// Whether the backing list is in canonical form. Every operation
    /// preserves this.
    pub open spec fn wf(self) -> bool {
        ranges_wf(self@)
    }

    /// The set of characters this set denotes.
    pub open spec fn char_set(self) -> Set<char> {
        list_set(self@)
    }

    /// An empty set.
    pub fn new() -> (s: Self)
        ensures
            s@ == Seq::<CharRange>::empty(),
            s.wf(),
            s.char_set() == Set::<char>::empty(),
    {
        let s = CharSetBuf { ranges: Vec::new() };
        proof {
            assert(s.char_set() =~= Set::<char>::empty());
        }
        s
    }

    /// Create a set with the specified capacity for compact ranges.
    pub fn with_capacity(capacity: usize) -> (s: Self)
        ensures
            s@ == Seq::<CharRange>::empty(),
            s.wf(),
            s.char_set() == Set::<char>::empty(),
    {
        let s = CharSetBuf { ranges: Vec::with_capacity(capacity) };
        proof {
            assert(s.char_set() =~= Set::<char>::empty());
        }
        s
    }

    /// The set holding the characters of one range.
    pub fn from_range(r: CharRange) -> (s: Self)
        ensures
            s.wf(),
            s.char_set() == r.code_set(),
    {
        let mut s = CharSetBuf::new();
        s.insert_range(r);
        proof {
            assert(s.char_set() =~= r.code_set());
        }
        s
    }

    /// Clear this set such that it is empty again.
    pub fn clear(&mut self)
        ensures
            final(self)@ == Seq::<CharRange>::empty(),
            final(self).wf(),
            final(self).char_set() == Set::<char>::empty(),
    {
        self.ranges.clear();
        proof {
            assert(self.char_set() =~= Set::<char>::empty());
        }
    }

    /// Borrow this set as a read-only `CharSet` view.
    pub fn as_set(&self) -> (s: CharSet<'_>)
        ensures
            s@ == self@,
    {
        CharSet::from_raw(self.ranges.as_slice())
    }

    /// Does this set include this codepoint?
    pub fn contains(&self, c: char) -> (r: bool)
        requires
            self.wf(),
        ensures
            r == self.char_set().contains(c),
    {
        self.as_set().contains(c)
    }

    /// How many codepoints are in this set?
    pub fn len(&self) -> (r: usize)
        requires
            self.wf(),
        ensures
            r == total_len(self@),
    {
        self.as_set().len()
    }

    /// Is this set empty?
    pub fn is_empty(&self) -> (r: bool)
        ensures
            r == (self@.len() == 0),
    {
        self.ranges.len() == 0
    }

    /// Insert a whole range of characters into this set, merging and
    /// subsuming existing ranges as needed to keep canonical form.
    #[verifier::rlimit(100)]
    pub fn insert_range(&mut self, r: CharRange)
        requires
            old(self).wf(),
        ensures
            final(self).wf(),
            final(self).char_set() == old(self).char_set().union(r.code_set()),
    {
        let ghost rs = self@;
        let count: usize = self.ranges.len();
        let ghost n = rs.len() as int;
        if r.is_empty() {
            proof {
                assert(self.char_set() =~= old(self).char_set().union(r.code_set()));
            }
            return ;
        }
        // The inclusive index of the lowest replaced range, and the low
        // bound of the merged range.
        let mut low_idx: usize;
        let mut low_char: char;
        let ghost mut ok_low: bool = false;
        match search(self.ranges.as_slice(), r.low) {
            Ok(i) => {
                proof {
                    ok_low = true;
                }
                low_idx = i;
                low_char = self.ranges[i].low;
            },
            Err(i) => {
                low_idx = i;
                low_char = r.low;
            },
        }
        proof {
            assert forall|j: int| 0 <= j < low_idx implies (#[trigger] rs[j]).hi() < r.lo() by {
                if ok_low {
                    lemma_wf_ordered(rs, j, low_idx as int);
                }
            }
        }
        proof {
            if low_idx > 0 && (low_idx as int) < n {
                assert(succ_code(rs[low_idx as int - 1].hi()) < rs[low_idx as int].lo());
            }
        }
        // Extend left when only a gap of at most one step separates the
        // previous range: inserting `r` would make the two touch.
        let ghost low_char0 = low_char;
        let ghost mut merged_low: bool = false;
        if low_idx > 0 && gap_le_one(self.ranges[low_idx - 1].high, low_char) {
            proof {
                merged_low = true;
            }
            low_idx = low_idx - 1;
            low_char = self.ranges[low_idx].low;
        }
        proof {
            assert(low_idx as int <= n);
            assert(low_char as u32 <= r.lo());
            assert(low_idx > 0 ==> succ_code(rs[low_idx as int - 1].hi()) < low_char as u32);
            assert((low_idx as int) < n ==> low_char as u32 <= rs[low_idx as int].lo());
            assert(forall|j: int| 0 <= j < low_idx ==> (#[trigger] rs[j]).hi() < r.lo());
            assert forall|c: char| #![trigger has_char(rs, c)] low_char as u32 <= c as u32 && (c
                as u32) < r.lo() implies has_char(rs, c) by {
                if merged_low {
                    if c as u32 <= rs[low_idx as int].hi() {
                        assert(rs[low_idx as int].lo() <= c as u32 <= rs[low_idx as int].hi());
                    } else {
                        crate::chars::lemma_step_up(rs[low_idx as int].hi(), c);
                        assert(c as u32 >= low_char0 as u32);
                        assert(ok_low);
                        assert(rs[low_idx as int + 1].lo() <= c as u32 <= rs[low_idx as int
                            + 1].hi());
                    }
                } else {
                    assert(ok_low);
                    assert(rs[low_idx as int].lo() <= c as u32 <= rs[low_idx as int].hi());
                }
            }
        }
        // The exclusive index of the highest replaced range, and the high
        // bound of the merged range.
        let mut high_idx: usize;
        let mut high_char: char;
        let ghost mut ok_high: bool = false;
        match search(self.ranges.as_slice(), r.high) {
            Ok(i) => {
                proof {
                    ok_high = true;
                }
                high_idx = i + 1;
                high_char = self.ranges[i].high;
            },
            Err(i) => {
                high_idx = i;
                high_char = r.high;
            },
        }
        proof {
            assert forall|j: int| high_idx <= j < n implies (#[trigger] rs[j]).lo() > r.hi() by {
                if ok_high && high_idx as int - 1 < j {
                    lemma_wf_ordered(rs, high_idx as int - 1, j);
                }
            }
        }
        proof {
            if high_idx > 0 && (high_idx as int) < n {
                assert(succ_code(rs[high_idx as int - 1].hi()) < rs[high_idx as int].lo());
            }
        }
        // Extend right symmetrically.
        let ghost high_char0 = high_char;
        let ghost mut merged_high: bool = false;
        if high_idx < count && gap_le_one(high_char, self.ranges[high_idx].low) {
            proof {
                merged_high = true;
            }
            high_char = self.ranges[high_idx].high;
            high_idx = high_idx + 1;
        }
        proof {
            assert(high_idx as int <= n);
            assert(r.hi() <= high_char as u32);
            assert((high_idx as int) < n ==> succ_code(high_char as u32 as int)
                < rs[high_idx as int].lo());
            assert(high_idx > 0 ==> rs[high_idx as int - 1].hi() <= high_char as u32);
            assert(forall|j: int| high_idx <= j < n ==> (#[trigger] rs[j]).lo() > r.hi());
            assert forall|c: char| #![trigger has_char(rs, c)] r.hi() < c as u32 && c as u32
                <= high_char as u32 implies has_char(rs, c) by {
                if merged_high {
                    if c as u32 >= rs[high_idx as int - 1].lo() {
                        assert(rs[high_idx as int - 1].lo() <= c as u32 <= rs[high_idx as int
                            - 1].hi());
                    } else {
                        crate::chars::lemma_step_down(rs[high_idx as int - 1].lo(), c);
                        assert(succ_code(high_char0 as u32 as int) >= rs[high_idx as int
                            - 1].lo());
                        assert(c as u32 <= high_char0 as u32);
                        assert(ok_high);
                        assert(rs[high_idx as int - 2].lo() <= c as u32 <= rs[high_idx as int
                            - 2].hi());
                    }
                } else {
                    assert(ok_high);
                    assert(rs[high_idx as int - 1].lo() <= c as u32 <= rs[high_idx as int
                        - 1].hi());
                }
            }
            assert(low_idx <= high_idx) by {
                if low_idx > high_idx {
                    assert(rs[high_idx as int].hi() < r.lo());
                    assert(rs[high_idx as int].lo() > r.hi());
                }
            }
        }
        let nr = CharRange { low: low_char, high: high_char };
        let rep = [nr];
        self.splice(low_idx, high_idx, &rep);
        proof {
            assert(rep@ =~= seq![nr]);
            lemma_insert_splice(rs, r, low_idx as int, high_idx as int, nr);
        }
    }

    /// Remove a whole range of characters from this set, trimming,
    /// splitting and deleting existing ranges as needed to keep canonical
    /// form.
    pub fn remove_range(&mut self, r: CharRange)
        requires
            old(self).wf(),
        ensures
            final(self).wf(),
            final(self).char_set() == old(self).char_set().difference(r.code_set()),
    {
        let ghost rs = self@;
        let count: usize = self.ranges.len();
        let ghost n = rs.len() as int;
        if r.is_empty() {
            proof {
                assert(self.char_set() =~= old(self).char_set().difference(r.code_set()));
            }
            return ;
        }
        // The inclusive index of the lowest edited range.
        let low: usize;
        let ghost mut ok_low: bool = false;
        match search(self.ranges.as_slice(), r.low) {
            Ok(i) => {
                proof {
                    ok_low = true;
                }
                low = i;
            },
            Err(i) => {
                low = i;
            },
        }
        // The exclusive index of the highest edited range.
        let high: usize;
        let ghost mut ok_high: bool = false;
        match search(self.ranges.as_slice(), r.high) {
            Ok(i) => {
                proof {
                    ok_high = true;
                }
                high = i + 1;
            },
            Err(i) => {
                high = i;
            },
        }
        proof {
            assert forall|j: int| 0 <= j < low implies (#[trigger] rs[j]).hi() < r.lo() by {
                if ok_low {
                    lemma_wf_ordered(rs, j, low as int);
                }
            }
            assert forall|j: int| low < j < n implies (#[trigger] rs[j]).lo() > r.lo() by {
                if ok_low {
                    lemma_wf_ordered(rs, low as int, j);
                }
            }
            assert forall|j: int| high <= j < n implies (#[trigger] rs[j]).lo() > r.hi() by {
                if ok_high && high as int - 1 < j {
                    lemma_wf_ordered(rs, high as int - 1, j);
                }
            }
            assert forall|j: int| 0 <= j < high - 1 implies (#[trigger] rs[j]).hi() < r.hi() by {
                if ok_high {
                    if j < high as int - 1 {
                        lemma_wf_ordered(rs, j, high as int - 1);
                    }
                }
            }
            assert(low <= high) by {
                if low > high {
                    assert(rs[high as int].hi() < r.lo());
                    assert(rs[high as int].lo() > r.hi());
                }
            }
        }
        if low == high {
            // The removed range lies wholly in a gap: no change.
            proof {
                assert forall|c: char| has_char(rs, c) implies !r.code_set().contains(c) || !(
                low as int == high as int) by {}
                assert(self.char_set() =~= old(self).char_set().difference(r.code_set()));
            }
            return ;
        }
        let s_low = self.ranges[low];
        let s_high = self.ranges[high - 1];
        let mut rep: Vec<CharRange> = Vec::new();
        if s_low.low < r.low {
            // Keep the part of the lowest edited range below `r`.
            rep.push(CharRange { low: s_low.low, high: crate::chars::char_pred(r.low) });
        }
        if r.high < s_high.high {
            // Keep the part of the highest edited range above `r`.
            rep.push(CharRange { low: crate::chars::char_succ(r.high), high: s_high.high });
        }
        let ghost repg = rep@;
        self.splice(low, high, rep.as_slice());
        proof {
            lemma_remove_splice(rs, r, low as int, high as int, repg);
        }
    }

    /// Insert a single character into this set.
    pub fn insert(&mut self, c: char)
        requires
            old(self).wf(),
        ensures
            final(self).wf(),
            final(self).char_set() == old(self).char_set().insert(c),
    {
        let r = CharRange::singleton(c);
        self.insert_range(r);
        proof {
            assert(final(self).char_set() =~= old(self).char_set().insert(c));
        }
    }

    /// Remove a single character from this set.
    pub fn remove(&mut self, c: char)
        requires
            old(self).wf(),
        ensures
            final(self).wf(),
            final(self).char_set() == old(self).char_set().remove(c),
    {
        let r = CharRange::singleton(c);
        self.remove_range(r);
        proof {
            assert(final(self).char_set() =~= old(self).char_set().remove(c));
        }
    }

    /// Insert every range of the slice into this set.
    pub fn extend_ranges(&mut self, ranges: &[CharRange])
        requires
            old(self).wf(),
        ensures
            final(self).wf(),
            final(self).char_set() == old(self).char_set().union(list_set(ranges@)),
    {
        let ghost orig = self.char_set();
        let mut k: usize = 0;
        proof {
            assert(orig.union(sub_list_set(ranges@, 0)) =~= orig);
        }
        while k < ranges.len()
            invariant
                self.wf(),
                k <= ranges@.len(),
                self.char_set() == orig.union(sub_list_set(ranges@, k as int)),
            decreases ranges@.len() - k,
        {
            self.insert_range(ranges[k]);
            k = k + 1;
            proof {
                lemma_sub_list_set_step(ranges@, k as int - 1);
                assert(self.char_set() =~= orig.union(sub_list_set(ranges@, k as int)));
            }
        }
        proof {
            lemma_sub_list_set_all(ranges@);
        }
    }

    /// Insert every character of the slice into this set.
    pub fn extend_chars(&mut self, chars: &[char])
        requires
            old(self).wf(),
        ensures
            final(self).wf(),
            final(self).char_set() == old(self).char_set().union(
                Set::new(|c: char| chars@.contains(c)),
            ),
    {
        let ghost orig = self.char_set();
        let mut k: usize = 0;
        while k < chars.len()
            invariant
                self.wf(),
                k <= chars@.len(),
                self.char_set() == orig.union(
                    Set::new(|c: char| chars@.take(k as int).contains(c)),
                ),
            decreases chars@.len() - k,
        {
            self.insert(chars[k]);
            k = k + 1;
            proof {
                assert(chars@.take(k as int).drop_last() =~= chars@.take(k as int - 1));
                assert forall|c: char| chars@.take(k as int).contains(c) implies chars@.take(
                    k as int - 1,
                ).contains(c) || c == chars@[k - 1] by {
                    let j = choose|j: int|
                        0 <= j < k && chars@.take(k as int)[j] == c;
                    if j < k - 1 {
                        assert(chars@.take(k as int - 1)[j] == c);
                    }
                }
                assert forall|c: char| #![trigger chars@.take(k as int - 1).contains(c)]
                    chars@.take(k as int - 1).contains(c) implies chars@.take(
                    k as int,
                ).contains(c) by {
                    let j = choose|j: int|
                        0 <= j < k - 1 && (#[trigger] chars@.take(k as int - 1)[j]) == c;
                    assert(chars@.take(k as int)[j] == c);
                }
                assert(chars@.take(k as int)[k - 1] == chars@[k - 1]);
                assert(chars@.take(k as int).contains(chars@[k - 1]));
                assert(self.char_set() =~= orig.union(
                    Set::new(|c: char| chars@.take(k as int).contains(c)),
                ));
            }
        }
        proof {
            assert(chars@.take(chars@.len() as int) =~= chars@);
            assert(self.char_set() =~= orig.union(Set::new(|c: char| chars@.contains(c))));
        }
    }

    /// The set holding the characters of the given ranges.
    pub fn from_ranges(ranges: &[CharRange]) -> (s: Self)
        ensures
            s.wf(),
            s.char_set() == list_set(ranges@),
    {
        let mut s = CharSetBuf::new();
        s.extend_ranges(ranges);
        proof {
            assert(s.char_set() =~= list_set(ranges@));
        }
        s
    }

    /// The set holding the characters of the given slice.
    pub fn from_chars(chars: &[char]) -> (s: Self)
        ensures
            s.wf(),
            s.char_set() == Set::new(|c: char| chars@.contains(c)),
    {
        let mut s = CharSetBuf::new();
        s.extend_chars(chars);
        proof {
            assert(s.char_set() =~= Set::new(|c: char| chars@.contains(c)));
        }
        s
    }

    /// Replace the run `self@[start..end]` by the given ranges.
    fn splice(&mut self, start: usize, end: usize, rep: &[CharRange])
        requires
            start <= end <= old(self)@.len(),
        ensures
            final(self)@ == old(self)@.take(start as int) + rep@ + old(self)@.skip(end as int),
    {
        let ghost orig = self@;
        let mut removed: usize = 0;
        let total: usize = end - start;
        proof {
            assert(self@ =~= orig.take(start as int) + orig.skip(start as int));
        }
        while removed < total
            invariant
                removed <= total,
                total == end - start,
                start <= end <= orig.len(),
                self@ == orig.take(start as int) + orig.skip(start as int + removed as int),
            decreases total - removed,
        {
            self.ranges.remove(start);
            removed = removed + 1;
            proof {
                assert(self@ =~= orig.take(start as int) + orig.skip(
                    start as int + removed as int,
                ));
            }
        }
        let mut k: usize = rep.len();
        while k > 0
            invariant
                k <= rep@.len(),
                start <= end <= orig.len(),
                self@ == orig.take(start as int) + rep@.skip(k as int) + orig.skip(end as int),
            decreases k,
        {
            k = k - 1;
            self.ranges.insert(start, rep[k]);
            proof {
                assert(self@ =~= orig.take(start as int) + rep@.skip(k as int) + orig.skip(
                    end as int,
                ));
            }
        }
        proof {
            assert(rep@.skip(0) =~= rep@);
        }
    }
}

/// After replacing the run `rs[low_idx..high_idx]` by the single merged
/// range `nr`, the list is canonical again and denotes the union of the
/// old characters with those of `r`.
#[verifier::rlimit(60)]
proof fn lemma_insert_splice(
    rs: Seq<CharRange>,
    r: CharRange,
    low_idx: int,
    high_idx: int,
    nr: CharRange,
)
    requires
        ranges_wf(rs),
        !r.spec_is_empty(),
        0 <= low_idx <= high_idx <= rs.len(),
        nr.lo() <= r.lo(),
        r.hi() <= nr.hi(),
        low_idx > 0 ==> succ_code(rs[low_idx - 1].hi()) < nr.lo(),
        high_idx < rs.len() ==> succ_code(nr.hi()) < rs[high_idx].lo(),
        low_idx < rs.len() ==> nr.lo() <= rs[low_idx].lo(),
        high_idx > 0 ==> rs[high_idx - 1].hi() <= nr.hi(),
        forall|j: int| 0 <= j < low_idx ==> (#[trigger] rs[j]).hi() < r.lo(),
        forall|j: int| high_idx <= j < rs.len() ==> (#[trigger] rs[j]).lo() > r.hi(),
        forall|c: char| (nr.lo() <= c as u32 && (c as u32) < r.lo()) ==> #[trigger] has_char(rs, c),
        forall|c: char| (r.hi() < c as u32 && c as u32 <= nr.hi()) ==> #[trigger] has_char(rs, c),
    ensures
        ranges_wf(rs.take(low_idx) + seq![nr] + rs.skip(high_idx)),
        list_set(rs.take(low_idx) + seq![nr] + rs.skip(high_idx)) == list_set(rs).union(
            r.code_set(),
        ),
{
    let post = rs.take(low_idx) + seq![nr] + rs.skip(high_idx);
    let shift = high_idx - low_idx - 1;
    assert forall|i: int| 0 <= i < post.len() implies !(#[trigger] post[i]).spec_is_empty() by {
        if i > low_idx {
            assert(post[i] == rs[i + shift]);
        }
    }
    assert forall|i: int| 0 <= i < post.len() - 1 implies #[trigger] succ_code(post[i].hi())
        < post[i + 1].lo() by {
        if i > low_idx {
            assert(post[i] == rs[i + shift]);
        }
        if low_idx < i + 1 {
            assert(post[i + 1] == rs[i + 1 + shift]);
        }
        if i + 1 < low_idx {
            assert(succ_code(rs[i].hi()) < rs[i + 1].lo());
        }
    }
    assert forall|c: char| has_char(post, c) implies (has_char(rs, c) || r.code_set().contains(
        c,
    )) by {
        let i = choose|i: int|
            0 <= i < post.len() && (#[trigger] post[i]).lo() <= c as u32 <= post[i].hi();
        if i < low_idx {
            assert(rs[i].lo() <= c as u32 <= rs[i].hi());
        } else if i > low_idx {
            assert(post[i] == rs[i + shift]);
            assert(rs[i + shift].lo() <= c as u32 <= rs[i + shift].hi());
        } else {
            assert(post[low_idx] == nr);
            if (c as u32) < r.lo() {
                assert(has_char(rs, c));
            } else if c as u32 > r.hi() {
                assert(has_char(rs, c));
            } else {
                assert(r.code_set().contains(c));
            }
        }
    }
    assert forall|c: char| has_char(rs, c) || r.code_set().contains(c) implies has_char(
        post,
        c,
    ) by {
        if r.code_set().contains(c) {
            assert(post[low_idx].lo() <= c as u32 <= post[low_idx].hi());
        } else {
            let i = choose|i: int|
                0 <= i < rs.len() && (#[trigger] rs[i]).lo() <= c as u32 <= rs[i].hi();
            if i < low_idx {
                assert(post[i].lo() <= c as u32 <= post[i].hi());
            } else if i >= high_idx {
                assert(post[i - shift] == rs[i]);
                assert(post[i - shift].lo() <= c as u32 <= post[i - shift].hi());
            } else {
                // A replaced range lies wholly inside the new one.
                assert(nr.lo() <= rs[i].lo()) by {
                    if low_idx < i {
                        lemma_wf_ordered(rs, low_idx, i);
                    }
                }
                assert(rs[i].hi() <= nr.hi()) by {
                    if i < high_idx - 1 {
                        lemma_wf_ordered(rs, i, high_idx - 1);
                    }
                }
                assert(post[low_idx].lo() <= c as u32 <= post[low_idx].hi());
            }
        }
    }
    assert(list_set(post) =~= list_set(rs).union(r.code_set()));
}

/// After replacing the run `rs[low..high]` by the kept remnants of its
/// first and last ranges, the list is canonical again and denotes the old
/// characters less those of `r`.
#[verifier::rlimit(60)]
proof fn lemma_remove_splice(
    rs: Seq<CharRange>,
    r: CharRange,
    low: int,
    high: int,
    rep: Seq<CharRange>,
)
    requires
        ranges_wf(rs),
        !r.spec_is_empty(),
        0 <= low < high <= rs.len(),
        forall|j: int| 0 <= j < low ==> (#[trigger] rs[j]).hi() < r.lo(),
        forall|j: int| low < j < rs.len() ==> (#[trigger] rs[j]).lo() > r.lo(),
        forall|j: int| 0 <= j < high - 1 ==> (#[trigger] rs[j]).hi() < r.hi(),
        forall|j: int| high <= j < rs.len() ==> (#[trigger] rs[j]).lo() > r.hi(),
        rs[low].lo() < r.lo() ==> rs[low].hi() >= r.lo(),
        r.hi() < rs[high - 1].hi() ==> rs[high - 1].lo() <= r.hi(),
        rep.len() == (if rs[low].lo() < r.lo() {
            1int
        } else {
            0int
        }) + (if r.hi() < rs[high - 1].hi() {
            1int
        } else {
            0int
        }),
        rs[low].lo() < r.lo() ==> rep[0].lo() == rs[low].lo() && rep[0].hi() == pred_code(r.lo()),
        r.hi() < rs[high - 1].hi() ==> rep.last().lo() == succ_code(r.hi()) && rep.last().hi()
            == rs[high - 1].hi(),
    ensures
        ranges_wf(rs.take(low) + rep + rs.skip(high)),
        list_set(rs.take(low) + rep + rs.skip(high)) == list_set(rs).difference(r.code_set()),
{
    let post = rs.take(low) + rep + rs.skip(high);
    let shift = high - low - rep.len();
    let lk = rs[low].lo() < r.lo();
    let rk = r.hi() < rs[high - 1].hi();
    assert forall|i: int| 0 <= i < post.len() implies !(#[trigger] post[i]).spec_is_empty() by {
        if i >= low + rep.len() {
            assert(post[i] == rs[i + shift]);
        } else if i >= low {
            if lk && i == low {
                assert(post[i] == rep[0]);
            } else {
                assert(post[i] == rep.last());
            }
        }
    }
    assert forall|i: int| 0 <= i < post.len() - 1 implies #[trigger] succ_code(post[i].hi())
        < post[i + 1].lo() by {
        if i + 1 < low {
            assert(succ_code(rs[i].hi()) < rs[i + 1].lo());
        }
        if i >= low + rep.len() {
            assert(post[i] == rs[i + shift]);
            assert(post[i + 1] == rs[i + 1 + shift]);
            assert(succ_code(rs[i + shift].hi()) < rs[i + 1 + shift].lo());
        }
        if i + 1 == low + rep.len() {
            assert(post[i + 1] == rs[high]);
            if rk {
                assert(post[i] == rep.last());
                assert(succ_code(rs[high - 1].hi()) < rs[high].lo());
            } else if lk {
                assert(post[i] == rep[0]);
                crate::chars::lemma_step_up(pred_code(r.lo()), r.high);
            } else {
                assert(post[i] == rs[i]);
                crate::chars::lemma_step_up(rs[i].hi(), r.low);
            }
        }
        if i + 1 == low && low < post.len() {
            assert(post[i] == rs[i]);
            if lk {
                assert(post[low] == rep[0]);
                assert(succ_code(rs[low - 1].hi()) < rs[low].lo());
            } else if rep.len() > 0 {
                assert(post[low] == rep.last());
                crate::chars::lemma_step_up(rs[low - 1].hi(), r.low);
            } else {
                assert(post[low] == rs[low + shift]);
                crate::chars::lemma_step_up(rs[low - 1].hi(), r.low);
            }
        }
        if low < i + 1 && i + 1 < low + rep.len() {
            // Both remnants kept: the split pair.
            assert(i == low && rep.len() == 2);
            assert(post[i] == rep[0] && post[i + 1] == rep.last());
        }
    }
    assert forall|c: char| has_char(post, c) implies (has_char(rs, c) && !r.code_set().contains(
        c,
    )) by {
        let i = choose|i: int|
            0 <= i < post.len() && (#[trigger] post[i]).lo() <= c as u32 <= post[i].hi();
        if i < low {
            assert(rs[i].lo() <= c as u32 <= rs[i].hi());
        } else if i >= low + rep.len() {
            assert(post[i] == rs[i + shift]);
            assert(rs[i + shift].lo() <= c as u32 <= rs[i + shift].hi());
        } else if lk && i == low {
            assert(post[i] == rep[0]);
            assert(rs[low].lo() <= c as u32 <= rs[low].hi());
        } else {
            assert(post[i] == rep.last());
            assert(rs[high - 1].lo() <= c as u32 <= rs[high - 1].hi());
        }
    }
    assert forall|c: char| has_char(rs, c) && !r.code_set().contains(c) implies has_char(
        post,
        c,
    ) by {
        let i = choose|i: int|
            0 <= i < rs.len() && (#[trigger] rs[i]).lo() <= c as u32 <= rs[i].hi();
        if i < low {
            assert(post[i].lo() <= c as u32 <= post[i].hi());
        } else if i >= high {
            assert(post[i - shift] == rs[i]);
            assert(post[i - shift].lo() <= c as u32 <= post[i - shift].hi());
        } else if (c as u32) < r.lo() {
            assert(i == low);
            crate::chars::lemma_step_down(r.lo(), c);
            assert(post[low] == rep[0]);
            assert(post[low].lo() <= c as u32 <= post[low].hi());
        } else {
            assert(c as u32 > r.hi());
            assert(i == high - 1);
            crate::chars::lemma_step_up(r.hi(), c);
            assert(post[low + rep.len() - 1] == rep.last());
            assert(post[low + rep.len() - 1].lo() <= c as u32 <= post[low + rep.len() - 1].hi());
        }
    }
    assert(list_set(post) =~= list_set(rs).difference(r.code_set()));
}


/// The characters of the first `k` ranges of a list.
pub open spec fn sub_list_set(rs: Seq<CharRange>, k: int) -> Set<char> {
    list_set(rs.take(k))
}

proof fn lemma_sub_list_set_step(rs: Seq<CharRange>, k: int)
    requires
        0 <= k < rs.len(),
    ensures
        sub_list_set(rs, k + 1) == sub_list_set(rs, k).union(rs[k].code_set()),
{
    assert forall|c: char| has_char(rs.take(k + 1), c) implies has_char(rs.take(k), c)
        || rs[k].code_set().contains(c) by {
        let i = choose|i: int|
            0 <= i < rs.take(k + 1).len() && (#[trigger] rs.take(k + 1)[i]).lo() <= c as u32
                <= rs.take(k + 1)[i].hi();
        if i < k {
            assert(rs.take(k)[i].lo() <= c as u32 <= rs.take(k)[i].hi());
        }
    }
    assert forall|c: char| has_char(rs.take(k), c) implies has_char(rs.take(k + 1), c) by {
        let i = choose|i: int|
            0 <= i < rs.take(k).len() && (#[trigger] rs.take(k)[i]).lo() <= c as u32 <= rs.take(
                k,
            )[i].hi();
        assert(rs.take(k + 1)[i].lo() <= c as u32 <= rs.take(k + 1)[i].hi());
    }
    assert forall|c: char| rs[k].code_set().contains(c) implies has_char(rs.take(k + 1), c) by {
        assert(rs.take(k + 1)[k].lo() <= c as u32 <= rs.take(k + 1)[k].hi());
    }
    assert(sub_list_set(rs, k + 1) =~= sub_list_set(rs, k).union(rs[k].code_set()));
}

proof fn lemma_sub_list_set_all(rs: Seq<CharRange>)
    ensures
        sub_list_set(rs, rs.len() as int) == list_set(rs),
{
    assert(rs.take(rs.len() as int) =~= rs);
}

/// Is the gap from `a` up to `b` at most one successor step, so that a
/// range ending at `a` touches one starting at `b` and the two must merge?
fn gap_le_one(a: char, b: char) -> (r: bool)
    requires
        (a as u32) < b as u32,
    ensures
        r == (b as u32 <= succ_code(a as u32 as int)),
{
    if a == BEFORE_SURROGATE {
        b as u32 <= 0xE000
    } else {
        b as u32 - a as u32 <= 1
    }
}


/// Inserting a range a second time changes nothing: once a canonical set
/// holds the range's characters, a further union with them leaves the
/// backing list exactly as it is.
pub proof fn lemma_insert_range_idempotent(t: Seq<CharRange>, u: Seq<CharRange>, r: CharRange)
    requires
        ranges_wf(t),
        ranges_wf(u),
        r.code_set().subset_of(list_set(t)),
        list_set(u) == list_set(t).union(r.code_set()),
    ensures
        u == t,
{
    assert(list_set(u) =~= list_set(t));
    crate::set::lemma_canonical_unique(u, t);
}

/// Removing a range after inserting it leaves the characters of the prior
/// set less the range's; when the range was disjoint from the prior set,
/// the prior backing list is restored exactly.
pub proof fn lemma_insert_then_remove(
    s: Seq<CharRange>,
    t: Seq<CharRange>,
    u: Seq<CharRange>,
    r: CharRange,
)
    requires
        ranges_wf(s),
        ranges_wf(t),
        ranges_wf(u),
        list_set(t) == list_set(s).union(r.code_set()),
        list_set(u) == list_set(t).difference(r.code_set()),
    ensures
        list_set(u) == list_set(s).difference(r.code_set()),
        list_set(s).disjoint(r.code_set()) ==> u == s,
{
    assert(list_set(u) =~= list_set(s).difference(r.code_set()));
    if list_set(s).disjoint(r.code_set()) {
        assert(list_set(u) =~= list_set(s));
        crate::set::lemma_canonical_unique(u, s);
    }
}

/// Two sets are equal when their backing lists are equal; elementwise,
/// equal non-empty ranges have equal bounds.
impl PartialEq for CharSetBuf {
    fn eq(&self, other: &Self) -> (r: bool) {
        if self.ranges.len() != other.ranges.len() {
            return false;
        }
        let mut k: usize = 0;
        while k < self.ranges.len()
            invariant
                self@.len() == other@.len(),
                k <= self@.len(),
                forall|i: int| 0 <= i < k ==> range_eq(#[trigger] self@[i], other@[i]),
            decreases self@.len() - k,
        {
            if !(self.ranges[k] == other.ranges[k]) {
                return false;
            }
            k = k + 1;
        }
        true
    }
}

impl vstd::std_specs::cmp::PartialEqSpecImpl for CharSetBuf {
    open spec fn obeys_eq_spec() -> bool {
        true
    }

    open spec fn eq_spec(&self, other: &Self) -> bool {
        self@.len() == other@.len() && forall|i: int|
            0 <= i < self@.len() ==> range_eq(#[trigger] self@[i], other@[i])
    }
}

impl Default for CharSetBuf {
    /// The empty set.
    fn default() -> (s: Self)
        ensures
            s@ == Seq::<CharRange>::empty(),
            s.wf(),
    {
        CharSetBuf::new()
    }
}

} // verus!
