//! `CharSet`: a read-only set of codepoints, borrowed as a sorted,
//! disjoint, non-touching list of `CharRange`s.

use vstd::prelude::*;

use crate::chars::succ_code;
use crate::range::CharRange;

mod iter;
pub mod owned;

pub use self::iter::RangeIter;
pub use self::owned::CharSetBuf;

verus! {

broadcast use vstd::utf8::char_is_scalar;

/// Canonical form of a range list: every range non-empty, strictly sorted,
/// and consecutive ranges separated by at least one scalar value (so no
/// merge would be legal).
pub open spec fn ranges_wf(rs: Seq<CharRange>) -> bool {
    &&& forall|i: int| 0 <= i < rs.len() ==> !(#[trigger] rs[i]).spec_is_empty()
    &&& forall|i: int|
        0 <= i < rs.len() - 1 ==> #[trigger] succ_code(rs[i].hi()) < rs[i + 1].lo()
}

/// Whether some range of the list contains `c`.
pub open spec fn has_char(rs: Seq<CharRange>, c: char) -> bool {
    exists|i: int| 0 <= i < rs.len() && (#[trigger] rs[i]).lo() <= c as u32 <= rs[i].hi()
}

/// The set of characters a range list denotes.
pub open spec fn list_set(rs: Seq<CharRange>) -> Set<char> {
    Set::new(|c: char| has_char(rs, c))
}

/// The number of characters a range list denotes: the sum of its ranges'
/// lengths.
pub open spec fn total_len(rs: Seq<CharRange>) -> int
    decreases rs.len(),
{
    if rs.len() == 0 {
        0
    } else {
        total_len(rs.drop_last()) + rs.last().spec_len()
    }
}

/// The characters of a range list, in ascending order.
pub open spec fn flat_seq(rs: Seq<CharRange>) -> Seq<char>
    decreases rs.len(),
{
    if rs.len() == 0 {
        Seq::empty()
    } else {
        flat_seq(rs.drop_last()) + rs.last().code_seq()
    }
}

/// In a canonical list, earlier ranges lie wholly below later ones.
pub proof fn lemma_wf_ordered(rs: Seq<CharRange>, i: int, j: int)
    requires
        ranges_wf(rs),
        0 <= i < j < rs.len(),
    ensures
        succ_code(rs[i].hi()) < rs[j].lo(),
    decreases j - i,
{
    if j == i + 1 {
        assert(succ_code(rs[i].hi()) < rs[i + 1].lo());
    } else {
        lemma_wf_ordered(rs, i, j - 1);
        assert(succ_code(rs[j - 1].hi()) < rs[j].lo());
    }
}

/// A canonical list holds at most the whole scalar space.
pub proof fn lemma_total_len_bound(rs: Seq<CharRange>)
    requires
        ranges_wf(rs),
    ensures
        0 <= total_len(rs),
        rs.len() > 0 ==> total_len(rs) <= rs.last().hi() - rs[0].lo() + 1,
        total_len(rs) <= 0x110000,
    decreases rs.len(),
{
    if rs.len() > 0 {
        let front = rs.drop_last();
        assert(ranges_wf(front));
        lemma_total_len_bound(front);
        if rs.len() > 1 {
            lemma_wf_ordered(rs, rs.len() - 2, rs.len() - 1);
        }
    }
}

/// Binary search over a canonical range list: `Ok(i)` when `ranges[i]`
/// contains `c`, else `Err(i)` at the insertion point for `c`.
#[verifier::rlimit(40)]
pub(crate) fn search(rs: &[CharRange], c: char) -> (r: Result<usize, usize>)
    requires
        ranges_wf(rs@),
    ensures
        match r {
            Ok(i) => i < rs@.len() && rs@[i as int].lo() <= c as u32 <= rs@[i as int].hi(),
            Err(i) => {
                &&& i <= rs@.len()
                &&& forall|j: int| 0 <= j < i ==> (#[trigger] rs@[j]).hi() < c as u32
                &&& forall|j: int| i <= j < rs@.len() ==> (#[trigger] rs@[j]).lo() > c as u32
            },
        },
{
    let mut lo: usize = 0;
    let mut hi: usize = rs.len();
    while lo < hi
        invariant
            ranges_wf(rs@),
            lo <= hi <= rs@.len(),
            forall|j: int| 0 <= j < lo ==> (#[trigger] rs@[j]).hi() < c as u32,
            forall|j: int| hi <= j < rs@.len() ==> (#[trigger] rs@[j]).lo() > c as u32,
        decreases hi - lo,
    {
        let mid = lo + (hi - lo) / 2;
        match rs[mid].cmp_char(c) {
            core::cmp::Ordering::Less => {
                proof {
                    assert forall|j: int| 0 <= j < mid + 1 implies (#[trigger] rs@[j]).hi() < c
                        as u32 by {
                        if j < mid {
                            lemma_wf_ordered(rs@, j, mid as int);
                        }
                    }
                }
                lo = mid + 1;
            },
            core::cmp::Ordering::Greater => {
                proof {
                    assert forall|j: int| mid <= j < rs@.len() implies (#[trigger] rs@[j]).lo() > c
                        as u32 by {
                        if j > mid {
                            lemma_wf_ordered(rs@, mid as int, j);
                        }
                    }
                }
                hi = mid;
            },
            core::cmp::Ordering::Equal => {
                return Ok(mid);
            },
        }
    }
    Err(lo)
}

/// A set slice of codepoints represented by compact, canonically ordered
/// ranges of codepoints.
#[derive(Copy, Clone, Debug)]
pub struct CharSet<'a> {
    ranges: &'a [CharRange],
}

impl<'a> View for CharSet<'a> {
    type V = Seq<CharRange>;

    closed spec fn view(&self) -> Seq<CharRange> {
        self.ranges@
    }
}

impl<'a> CharSet<'a> {
    /// Whether the backing list is in canonical form.
    pub open spec fn wf(self) -> bool {
        ranges_wf(self@)
    }

    /// The set of characters this set denotes.
    pub open spec fn char_set(self) -> Set<char> {
        list_set(self@)
    }

    /// Create a `CharSet` from a raw slice of ranges. Intended for use by
    /// code generation; the slice must already be in canonical form for
    /// the lookup operations to answer correctly.
    pub fn from_raw(slice: &'a [CharRange]) -> (s: CharSet<'a>)
        ensures
            s@ == slice@,
    {
        CharSet { ranges: slice }
    }

    /// An empty set.
    pub fn empty() -> (s: CharSet<'static>)
        ensures
            s@ == Seq::<CharRange>::empty(),
            s.wf(),
    {
        CharSet { ranges: &[] }
    }

    /// Does this set include this codepoint?
    pub fn contains(&self, c: char) -> (r: bool)
        requires
            self.wf(),
        ensures
            r == self.char_set().contains(c),
    {
        match search(self.ranges, c) {
            Ok(i) => {
                proof {
                    assert(self@[i as int].lo() <= c as u32 <= self@[i as int].hi());
                    assert(has_char(self@, c));
                }
                true
            },
            Err(i) => {
                proof {
                    if has_char(self@, c) {
                        let j = choose|j: int|
                            0 <= j < self@.len() && (#[trigger] self@[j]).lo() <= c as u32
                                <= self@[j].hi();
                        assert(false);
                    }
                }
                false
            },
        }
    }

    /// How many codepoints are in this set?
    pub fn len(&self) -> (r: usize)
        requires
            self.wf(),
        ensures
            r == total_len(self@),
    {
        range_list_len(self.ranges)
    }

    /// Is this set empty?
    pub fn is_empty(&self) -> (r: bool)
        ensures
            r == (self@.len() == 0),
    {
        self.ranges.len() == 0
    }
}

/// The sum of the lengths of a canonical range list.
pub(crate) fn range_list_len(rs: &[CharRange]) -> (r: usize)
    requires
        ranges_wf(rs@),
    ensures
        r == total_len(rs@),
{
    let mut sum: usize = 0;
    let mut k: usize = 0;
    proof {
        assert(rs@.take(0) =~= Seq::<CharRange>::empty());
    }
    while k < rs.len()
        invariant
            ranges_wf(rs@),
            k <= rs@.len(),
            sum == total_len(rs@.take(k as int)),
        decreases rs@.len() - k,
    {
        proof {
            assert(ranges_wf(rs@.take(k as int + 1)));
            assert(rs@.take(k as int + 1).drop_last() =~= rs@.take(k as int));
            lemma_total_len_bound(rs@.take(k as int + 1));
        }
        sum = sum + rs[k].len();
        k = k + 1;
    }
    proof {
        assert(rs@.take(rs@.len() as int) =~= rs@);
    }
    sum
}


/// The first ranges of two canonical lists denoting the same characters
/// start at the same codepoint.
proof fn lemma_first_low(rs1: Seq<CharRange>, rs2: Seq<CharRange>)
    requires
        ranges_wf(rs1),
        ranges_wf(rs2),
        list_set(rs1) == list_set(rs2),
        rs1.len() > 0,
        rs2.len() > 0,
    ensures
        rs1[0].lo() >= rs2[0].lo(),
{
    let c = rs2[0].low;
    assert(rs2[0].lo() <= c as u32 <= rs2[0].hi());
    assert(has_char(rs2, c));
    assert(list_set(rs1).contains(c));
    let i = choose|i: int| 0 <= i < rs1.len() && (#[trigger] rs1[i]).lo() <= c as u32 <= rs1[i].hi();
    if i > 0 {
        lemma_wf_ordered(rs1, 0, i);
    }
    assert(rs1[0].lo() <= rs1[i].lo() || i == 0);
    let d = rs1[0].low;
    assert(rs1[0].lo() <= d as u32 <= rs1[0].hi());
    assert(has_char(rs1, d));
    assert(list_set(rs2).contains(d));
    let j = choose|j: int| 0 <= j < rs2.len() && (#[trigger] rs2[j]).lo() <= d as u32 <= rs2[j].hi();
    if j > 0 {
        lemma_wf_ordered(rs2, 0, j);
    }
}

/// The first ranges of two canonical lists denoting the same characters
/// end at the same codepoint.
proof fn lemma_first_high(rs1: Seq<CharRange>, rs2: Seq<CharRange>)
    requires
        ranges_wf(rs1),
        ranges_wf(rs2),
        list_set(rs1) == list_set(rs2),
        rs1.len() > 0,
        rs2.len() > 0,
        rs1[0].lo() == rs2[0].lo(),
    ensures
        rs1[0].hi() >= rs2[0].hi(),
{
    let h1 = rs1[0].hi();
    let h2 = rs2[0].hi();
    if h1 < h2 {
        assert(crate::chars::scalar_code(succ_code(h1)));
        let c = (succ_code(h1) as u32) as char;
        assert(c as u32 == succ_code(h1));
        crate::chars::lemma_step_up(h1, rs2[0].high);
        assert(rs2[0].lo() <= c as u32 <= rs2[0].hi());
        assert(has_char(rs2, c));
        assert(list_set(rs1).contains(c));
        let i = choose|i: int|
            0 <= i < rs1.len() && (#[trigger] rs1[i]).lo() <= c as u32 <= rs1[i].hi();
        assert(i > 0);
        if i > 1 {
            lemma_wf_ordered(rs1, 1, i);
        }
        assert(succ_code(rs1[0].hi()) < rs1[1].lo());
        assert(false);
    }
}

/// Canonical form is unique: two canonical lists denoting the same set of
/// characters are the same list.
pub proof fn lemma_canonical_unique(rs1: Seq<CharRange>, rs2: Seq<CharRange>)
    requires
        ranges_wf(rs1),
        ranges_wf(rs2),
        list_set(rs1) == list_set(rs2),
    ensures
        rs1 == rs2,
    decreases rs1.len(),
{
    broadcast use vstd::utf8::char_u32_cast;

    if rs1.len() == 0 {
        if rs2.len() > 0 {
            let c = rs2[0].low;
            assert(rs2[0].lo() <= c as u32 <= rs2[0].hi());
            assert(has_char(rs2, c));
            assert(list_set(rs1).contains(c));
            let i = choose|i: int|
                0 <= i < rs1.len() && (#[trigger] rs1[i]).lo() <= c as u32 <= rs1[i].hi();
            assert(false);
        }
        assert(rs1 =~= rs2);
    } else {
        if rs2.len() == 0 {
            let c = rs1[0].low;
            assert(rs1[0].lo() <= c as u32 <= rs1[0].hi());
            assert(has_char(rs1, c));
            assert(list_set(rs2).contains(c));
            let i = choose|i: int|
                0 <= i < rs2.len() && (#[trigger] rs2[i]).lo() <= c as u32 <= rs2[i].hi();
            assert(false);
        }
        lemma_first_low(rs1, rs2);
        lemma_first_low(rs2, rs1);
        lemma_first_high(rs1, rs2);
        lemma_first_high(rs2, rs1);
        assert(rs1[0].low as u32 == rs2[0].low as u32);
        assert(rs1[0].high as u32 == rs2[0].high as u32);
        assert(rs1[0].low == rs2[0].low);
        assert(rs1[0].high == rs2[0].high);
        let t1 = rs1.drop_first();
        let t2 = rs2.drop_first();
        assert forall|i: int| 0 <= i < t1.len() implies !(#[trigger] t1[i]).spec_is_empty() by {
            assert(t1[i] == rs1[i + 1]);
        }
        assert forall|i: int| 0 <= i < t1.len() - 1 implies #[trigger] succ_code(t1[i].hi())
            < t1[i + 1].lo() by {
            assert(t1[i] == rs1[i + 1]);
            assert(t1[i + 1] == rs1[i + 2]);
            assert(succ_code(rs1[i + 1].hi()) < rs1[i + 2].lo());
        }
        assert forall|i: int| 0 <= i < t2.len() implies !(#[trigger] t2[i]).spec_is_empty() by {
            assert(t2[i] == rs2[i + 1]);
        }
        assert forall|i: int| 0 <= i < t2.len() - 1 implies #[trigger] succ_code(t2[i].hi())
            < t2[i + 1].lo() by {
            assert(t2[i] == rs2[i + 1]);
            assert(t2[i + 1] == rs2[i + 2]);
            assert(succ_code(rs2[i + 1].hi()) < rs2[i + 2].lo());
        }
        assert forall|c: char| has_char(t1, c) implies has_char(t2, c) by {
            lemma_tail_member(rs1, c);
            lemma_tail_member(rs2, c);
            assert(list_set(rs1).contains(c) == has_char(rs1, c));
            assert(list_set(rs2).contains(c) == has_char(rs2, c));
        }
        assert forall|c: char| has_char(t2, c) implies has_char(t1, c) by {
            lemma_tail_member(rs1, c);
            lemma_tail_member(rs2, c);
            assert(list_set(rs1).contains(c) == has_char(rs1, c));
            assert(list_set(rs2).contains(c) == has_char(rs2, c));
        }
        assert(list_set(t1) =~= list_set(t2));
        lemma_canonical_unique(t1, t2);
        assert(rs1 =~= rs2) by {
            assert forall|i: int| 0 <= i < rs1.len() implies rs1[i] == rs2[i] by {
                if i > 0 {
                    assert(t1[i - 1] == t2[i - 1]);
                }
            }
        }
    }
}

/// A character belongs to the tail of a canonical list exactly when it
/// belongs to the list but not to its first range.
proof fn lemma_tail_member(rs: Seq<CharRange>, c: char)
    requires
        ranges_wf(rs),
        rs.len() > 0,
    ensures
        has_char(rs.drop_first(), c) <==> (has_char(rs, c) && !(rs[0].lo() <= c as u32
            <= rs[0].hi())),
{
    let t = rs.drop_first();
    if has_char(t, c) {
        let i = choose|i: int| 0 <= i < t.len() && (#[trigger] t[i]).lo() <= c as u32 <= t[i].hi();
        assert(t[i] == rs[i + 1]);
        assert(rs[i + 1].lo() <= c as u32 <= rs[i + 1].hi());
        lemma_wf_ordered(rs, 0, i + 1);
    }
    if has_char(rs, c) && !(rs[0].lo() <= c as u32 <= rs[0].hi()) {
        let i = choose|i: int|
            0 <= i < rs.len() && (#[trigger] rs[i]).lo() <= c as u32 <= rs[i].hi();
        assert(i > 0);
        assert(t[i - 1] == rs[i]);
        assert(t[i - 1].lo() <= c as u32 <= t[i - 1].hi());
    }
}

} // verus!
