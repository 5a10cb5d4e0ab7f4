//! Compact sets of Unicode scalar values.
//!
//! - `CharRange` is an inclusive range of codepoints whose iteration and
//!   length skip the UTF-16 surrogate gap.
//! - `CharSet` is a read-only view over a sorted, disjoint, non-touching
//!   list of `CharRange`s; `CharSetBuf` is its mutable owner.
//! - `CharMapRef` maps codepoints to values through such a list.
//! - `CharTrie` is a compressed, read-only trie over all of Unicode,
//!   together with a generator that folds a membership predicate into it.

use vstd::prelude::*;

pub mod chars;
pub mod map;
pub mod range;
pub mod set;
pub mod trie;

pub use range::CharRange;

verus! {

/// The last scalar value below the surrogate gap, `U+D7FF`.
pub const BEFORE_SURROGATE: char = '\u{D7FF}';

/// The first scalar value above the surrogate gap, `U+E000`.
pub const AFTER_SURROGATE: char = '\u{E000}';


} // verus!
