//! `CharRange`: an inclusive interval of Unicode scalar values.

use vstd::prelude::*;

use crate::chars::{codes, scalar_code, span_len, surrogate_code};
use crate::{AFTER_SURROGATE, BEFORE_SURROGATE};
use core::cmp::Ordering;

mod iter;

pub use self::iter::Iter;

verus! {

broadcast use vstd::utf8::char_is_scalar;

/// An inclusive range of characters, denoting `low..=high` when
/// `low <= high` and the empty set otherwise.
///
/// All empty ranges are considered equal no matter the internal state;
/// the canonical empty value is `(U+10FFFF, U+0000)`.
#[derive(Copy, Clone, Eq, Debug)]
pub struct CharRange {
    /// The lowest character in this range (inclusive).
    pub low: char,
    /// The highest character in this range (inclusive).
    pub high: char,
}

impl CharRange {
    /// The low bound as a codepoint ordinal.
    pub open spec fn lo(self) -> int {
        self.low as u32 as int
    }

    /// The high bound as a codepoint ordinal.
    pub open spec fn hi(self) -> int {
        self.high as u32 as int
    }

    /// Whether this range denotes the empty set.
    pub open spec fn spec_is_empty(self) -> bool {
        self.lo() > self.hi()
    }

    /// The set of characters this range denotes.
    pub open spec fn code_set(self) -> Set<char> {
        Set::new(|c: char| self.lo() <= c as u32 <= self.hi())
    }

    /// The ascending sequence of characters this range denotes: what
    /// iterating the range yields.
    pub open spec fn code_seq(self) -> Seq<char> {
        codes(self.lo(), self.hi())
    }

    /// How many characters this range denotes.
    pub open spec fn spec_len(self) -> int {
        span_len(self.lo(), self.hi())
    }

    /// A closed range `low..=high`.
    pub fn closed(low: char, high: char) -> (r: CharRange)
        ensures
            r == (CharRange { low, high }),
    {
        CharRange { low, high }
    }

    /// A range with exactly one member.
    pub fn singleton(c: char) -> (r: CharRange)
        ensures
            r == (CharRange { low: c, high: c }),
            r.code_set() == Set::<char>::empty().insert(c),
    {
        proof {
            let s = Set::new(|d: char| c as u32 <= d as u32 <= c as u32);
            assert(s.contains(c));
            assert forall|d: char| #[trigger] s.contains(d) implies d == c by {
                vstd::utf8::char_u32_cast(d, d as u32);
                vstd::utf8::char_u32_cast(c, c as u32);
            }
            assert(s =~= Set::<char>::empty().insert(c));
        }
        CharRange { low: c, high: c }
    }

    /// The canonical empty range `(U+10FFFF, U+0000)`.
    pub fn empty() -> (r: CharRange)
        ensures
            r == (CharRange { low: '\u{10FFFF}', high: '\0' }),
            r.spec_is_empty(),
    {
        CharRange { low: '\u{10FFFF}', high: '\0' }
    }

    /// Does this range include this character?
    pub fn contains(self, c: char) -> (r: bool)
        ensures
            r == self.code_set().contains(c),
            r == (self.lo() <= c as u32 <= self.hi()),
    {
        self.low <= c && c <= self.high
    }

    /// Determine the ordering of a character compared to this range:
    /// `Less` when the whole range lies below `c`, `Greater` when it lies
    /// above, `Equal` when it contains `c`. The range must not be empty.
    pub fn cmp_char(self, c: char) -> (r: Ordering)
        requires
            !self.spec_is_empty(),
        ensures
            r == Ordering::Less <==> self.hi() < c as u32,
            r == Ordering::Greater <==> self.lo() > c as u32,
            r == Ordering::Equal <==> self.code_set().contains(c),
    {
        if self.high < c {
            Ordering::Less
        } else if self.low > c {
            Ordering::Greater
        } else {
            Ordering::Equal
        }
    }

    /// How many characters are in this range?
    pub fn len(self) -> (r: usize)
        ensures
            r == self.spec_len(),
            r == self.code_seq().len(),
    {
        if self.low > self.high {
            0
        } else {
            let raw = self.high as u32 - self.low as u32 + 1;
            if self.low <= BEFORE_SURROGATE && self.high >= AFTER_SURROGATE {
                (raw - 0x800) as usize
            } else {
                raw as usize
            }
        }
    }

    /// Is this range empty?
    pub fn is_empty(self) -> (r: bool)
        ensures
            r == self.spec_is_empty(),
    {
        self.low > self.high
    }
}

/// Two ranges are equal when both are empty, or when their bounds agree.
impl PartialEq for CharRange {
    fn eq(&self, other: &Self) -> (r: bool) {
        (self.is_empty() && other.is_empty()) || (self.low == other.low && self.high
            == other.high)
    }
}

impl vstd::std_specs::cmp::PartialEqSpecImpl for CharRange {
    open spec fn obeys_eq_spec() -> bool {
        true
    }

    open spec fn eq_spec(&self, other: &Self) -> bool {
        range_eq(*self, *other)
    }
}

/// What `==` means on ranges: both empty, or the same bounds.
pub open spec fn range_eq(a: CharRange, b: CharRange) -> bool {
    (a.spec_is_empty() && b.spec_is_empty()) || (a.low == b.low && a.high == b.high)
}

/// What ordering means on ranges: lexicographic on `(low, high)` for
/// non-empty ranges; an empty range does not compare.
pub open spec fn range_cmp(a: CharRange, b: CharRange) -> Option<Ordering> {
    if a.spec_is_empty() || b.spec_is_empty() {
        None
    } else if a.lo() != b.lo() {
        if a.lo() < b.lo() {
            Some(Ordering::Less)
        } else {
            Some(Ordering::Greater)
        }
    } else if a.hi() != b.hi() {
        if a.hi() < b.hi() {
            Some(Ordering::Less)
        } else {
            Some(Ordering::Greater)
        }
    } else {
        Some(Ordering::Equal)
    }
}

/// Lexicographic ordering on `(low, high)`; an empty range does not
/// compare.
impl PartialOrd for CharRange {
    fn partial_cmp(&self, other: &Self) -> (r: Option<Ordering>) {
        if self.is_empty() || other.is_empty() {
            None
        } else if self.low < other.low {
            Some(Ordering::Less)
        } else if self.low > other.low {
            Some(Ordering::Greater)
        } else if self.high < other.high {
            Some(Ordering::Less)
        } else if self.high > other.high {
            Some(Ordering::Greater)
        } else {
            Some(Ordering::Equal)
        }
    }
}

impl vstd::std_specs::cmp::PartialOrdSpecImpl for CharRange {
    open spec fn obeys_partial_cmp_spec() -> bool {
        true
    }

    open spec fn partial_cmp_spec(&self, other: &Self) -> Option<Ordering> {
        range_cmp(*self, *other)
    }
}

/// A range contains a character exactly when iterating it yields that
/// character.
pub proof fn lemma_contains_iff_iterated(r: CharRange, c: char)
    ensures
        r.code_seq().contains(c) <==> r.code_set().contains(c),
{
    crate::chars::lemma_codes_contains(r.lo(), r.hi(), c);
}

/// Iterating a range yields exactly `len()` characters: the raw span,
/// less the 0x800 surrogate codepoints when the range crosses the gap.
pub proof fn lemma_iteration_count(r: CharRange)
    ensures
        r.code_seq().len() == r.spec_len(),
        !r.spec_is_empty() ==> r.spec_len() == r.hi() - r.lo() + 1 - (
        if r.lo() < 0xD800 && 0xDFFF < r.hi() {
            0x800int
        } else {
            0int
        }),
        r.spec_is_empty() ==> r.spec_len() == 0,
{
}

/// No iteration ever yields a surrogate codepoint.
pub proof fn lemma_iteration_skips_surrogates(r: CharRange, i: int)
    requires
        0 <= i < r.code_seq().len(),
    ensures
        !surrogate_code(r.code_seq()[i] as u32 as int),
        scalar_code(r.code_seq()[i] as u32 as int),
{
}

/// One end of a codepoint interval: present and included, present and
/// excluded, or absent.
#[derive(Copy, Clone, Debug)]
pub enum CharBound {
    /// The end is this character, itself admitted.
    Included(char),
    /// The end is this character, itself shut out.
    Excluded(char),
    /// No constraint at this end.
    Unbounded,
}

/// Whether a lower bound admits a character.
pub open spec fn admits_low(b: CharBound, c: char) -> bool {
    match b {
        CharBound::Included(l) => l as u32 <= c as u32,
        CharBound::Excluded(l) => (l as u32) < c as u32,
        CharBound::Unbounded => true,
    }
}

/// Whether an upper bound admits a character.
pub open spec fn admits_high(b: CharBound, c: char) -> bool {
    match b {
        CharBound::Included(h) => c as u32 <= h as u32,
        CharBound::Excluded(h) => (c as u32) < h as u32,
        CharBound::Unbounded => true,
    }
}

impl CharRange {
    /// Construct the range of the characters admitted by both bounds.
    /// An excluded end steps over the surrogate gap: the successor of
    /// `U+D7FF` is `U+E000` and the predecessor of `U+E000` is `U+D7FF`;
    /// an excluded lower bound at `U+10FFFF`, or an excluded upper bound
    /// at `U+0000`, yields the canonical empty range.
    pub fn from_bounds(low: CharBound, high: CharBound) -> (r: CharRange)
        ensures
            forall|c: char|
                #[trigger] r.code_set().contains(c) <==> admits_low(low, c) && admits_high(
                    high,
                    c,
                ),
    {
        let lo = match low {
            CharBound::Excluded(c) => {
                if c == '\u{10FFFF}' {
                    let e = CharRange::empty();
                    proof {
                        assert forall|d: char| !(#[trigger] e.code_set().contains(d))
                            && !admits_low(low, d) by {
                            vstd::utf8::char_is_scalar(d);
                        }
                    }
                    return e;
                }
                crate::chars::char_succ(c)
            },
            CharBound::Included(c) => c,
            CharBound::Unbounded => '\0',
        };
        let hi = match high {
            CharBound::Excluded(c) => {
                if c == '\0' {
                    let e = CharRange::empty();
                    proof {
                        assert forall|d: char| !(#[trigger] e.code_set().contains(d))
                            && !admits_high(high, d) by {
                            vstd::utf8::char_is_scalar(d);
                        }
                    }
                    return e;
                }
                crate::chars::char_pred(c)
            },
            CharBound::Included(c) => c,
            CharBound::Unbounded => '\u{10FFFF}',
        };
        let r = CharRange { low: lo, high: hi };
        proof {
            assert forall|c: char|
                #[trigger] r.code_set().contains(c) <==> admits_low(low, c) && admits_high(
                    high,
                    c,
                ) by {
                vstd::utf8::char_is_scalar(c);
                if let CharBound::Excluded(l) = low {
                    if (l as u32) < c as u32 {
                        crate::chars::lemma_step_up(l as u32 as int, c);
                    }
                }
                if let CharBound::Excluded(h) = high {
                    if (c as u32) < h as u32 {
                        crate::chars::lemma_step_down(h as u32 as int, c);
                    }
                }
            }
        }
        r
    }

    /// The whole scalar space, `U+0000 ..= U+10FFFF`.
    pub fn full() -> (r: CharRange)
        ensures
            r == (CharRange { low: '\0', high: '\u{10FFFF}' }),
            forall|c: char| #[trigger] r.code_set().contains(c),
    {
        let r = CharRange { low: '\0', high: '\u{10FFFF}' };
        proof {
            assert forall|c: char| #[trigger] r.code_set().contains(c) by {
                vstd::utf8::char_is_scalar(c);
            }
        }
        r
    }

    /// Split this range into inclusive `u32` intervals below and above the
    /// surrogate gap. Each interval is dense in `u32` (every value in it
    /// is a scalar value), and together they hold exactly this range's
    /// characters; an empty half comes out inverted.
    pub fn split_range(self) -> (r: ((u32, u32), (u32, u32)))
        ensures
            r.0.1 <= 0xD7FF && 0xE000 <= r.1.0,
            forall|v: u32|
                (r.0.0 <= v <= r.0.1 || r.1.0 <= v <= r.1.1) <==> (vstd::utf8::is_scalar(v)
                    && self.lo() <= v <= self.hi()),
    {
        // If `low` is above the gap, the left interval is empty.
        let left_low = if self.low <= BEFORE_SURROGATE {
            self.low
        } else {
            '\u{10FFFF}'
        };
        // The left interval stops at the gap or at `high`, whichever is lower.
        let left_high = if self.high < BEFORE_SURROGATE {
            self.high
        } else {
            BEFORE_SURROGATE
        };
        // The right interval starts at the gap or at `low`, whichever is higher.
        let right_low = if self.low > AFTER_SURROGATE {
            self.low
        } else {
            AFTER_SURROGATE
        };
        // If `high` is below the gap, the right interval is empty.
        let right_high = if self.high >= AFTER_SURROGATE {
            self.high
        } else {
            '\0'
        };
        (
            (left_low as u32, left_high as u32),
            (right_low as u32, right_high as u32),
        )
    }
}

} // verus!
