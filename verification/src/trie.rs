//! `CharTrie`: a compressed, read-only trie over the whole space of
//! Unicode codepoints, and a generator that folds a membership predicate
//! into its tables.

use vstd::prelude::*;

mod gen;

pub use self::gen::{generate, TrieData, TrieOverflow};

verus! {

/// Is bit `b` of the word set? Bit 0 is the lowest codepoint of a
/// 64-codepoint chunk.
pub open spec fn bit_of(w: u64, b: u64) -> bool {
    (w >> b) & 1u64 == 1u64
}

/// Well-formed trie tables: every stored index lands inside the table it
/// points into, and every second-level block holds 64 bytes.
pub open spec fn tables_wf(l2: Seq<u8>, l3a: Seq<u8>, l3b: Seq<Seq<u8>>, leaves: Seq<u64>) -> bool {
    &&& forall|k: int| 0 <= k < l2.len() ==> (#[trigger] l2[k] as int) < leaves.len()
    &&& forall|k: int| 0 <= k < l3a.len() ==> (#[trigger] l3a[k] as int) < l3b.len()
    &&& forall|b: int| 0 <= b < l3b.len() ==> (#[trigger] l3b[b]).len() == 64
    &&& forall|b: int, k: int|
        0 <= b < l3b.len() && 0 <= k < 64 ==> (#[trigger] l3b[b][k] as int) < leaves.len()
}

/// The bit the tables store for codepoint ordinal `v`: direct in the
/// first 2048 bits, through one shared-leaf index up to `U+FFFF`, and
/// through the two-level index above.
pub open spec fn table_lookup(
    l1: Seq<u64>,
    l2: Seq<u8>,
    l3a: Seq<u8>,
    l3b: Seq<Seq<u8>>,
    leaves: Seq<u64>,
    v: int,
) -> bool {
    let bit = (v % 64) as u64;
    if v < 0x800 {
        bit_of(l1[v / 64], bit)
    } else if v < 0x10000 {
        bit_of(leaves[l2[(v - 0x800) / 64] as int], bit)
    } else {
        bit_of(
            leaves[l3b[l3a[(v - 0x10000) / 0x1000] as int][((v - 0x10000) / 64) % 64] as int],
            bit,
        )
    }
}

/// A compressed trie-like set tailored for read-only sets of Unicode
/// codepoints, intended to be embedded as constant data.
///
/// Codepoints below `U+0800` are indexed directly into 2048 bits.
/// Codepoints up to `U+FFFF` go through one byte-indexed table of shared
/// 64-bit leaves; codepoints above go through a further 256-entry table
/// of 64-byte blocks and then the shared leaves.
#[derive(Copy, Clone, Debug)]
pub struct CharTrie<'a> {
    level1: &'a [u64; 32],
    level2: &'a [u8; 992],
    level3: (&'a [u8; 256], &'a [[u8; 64]]),
    leaves: &'a [u64],
}

impl<'a> CharTrie<'a> {
    /// The 2048 direct bits, as 32 words.
    pub closed spec fn l1(self) -> Seq<u64> {
        self.level1@
    }

    /// The 992 leaf indices covering `[U+0800, U+10000)`.
    pub closed spec fn l2(self) -> Seq<u8> {
        self.level2@
    }

    /// The 256 block indices covering `[U+10000, U+110000)`.
    pub closed spec fn l3_first(self) -> Seq<u8> {
        self.level3.0@
    }

    /// The second-level blocks of 64 leaf indices each.
    pub closed spec fn l3_second(self) -> Seq<Seq<u8>> {
        Seq::new(self.level3.1@.len(), |i: int| self.level3.1@[i]@)
    }

    /// The shared leaf words.
    pub closed spec fn leaf_words(self) -> Seq<u64> {
        self.leaves@
    }

    /// Whether every stored index lands inside the table it points into.
    pub open spec fn wf(self) -> bool {
        tables_wf(self.l2(), self.l3_first(), self.l3_second(), self.leaf_words())
    }

    /// The bit this trie stores for `c`.
    pub open spec fn spec_contains(self, c: char) -> bool {
        table_lookup(
            self.l1(),
            self.l2(),
            self.l3_first(),
            self.l3_second(),
            self.leaf_words(),
            c as u32 as int,
        )
    }

    /// Create a codepoint trie from its four tables. The tables must
    /// satisfy `wf` for lookups to stay inside them.
    pub fn from_raw(
        level1: &'a [u64; 32],
        level2: &'a [u8; 992],
        level3: (&'a [u8; 256], &'a [[u8; 64]]),
        leaves: &'a [u64],
    ) -> (t: Self)
        ensures
            t.l1() == level1@,
            t.l2() == level2@,
            t.l3_first() == level3.0@,
            t.l3_second() == Seq::new(level3.1@.len(), |i: int| level3.1@[i]@),
            t.leaf_words() == leaves@,
    {
        CharTrie { level1, level2, level3, leaves }
    }

    /// Does this set contain this codepoint?
    pub fn contains(&self, c: char) -> (r: bool)
        requires
            self.wf(),
        ensures
            r == self.spec_contains(c),
    {
        let v = c as u32;
        proof {
            vstd::utf8::char_is_scalar(c);
            assert(v & 63 == v % 64) by (bit_vector);
        }
        let bit_index = (v & 63) as u64;
        let chunk: u64;
        if v < 0x800 {
            proof {
                assert(v < 0x800 ==> (v >> 6) == v / 64 && (v >> 6) < 32) by (bit_vector);
            }
            chunk = self.level1[(v >> 6) as usize];
        } else if v < 0x10000 {
            let off = v - 0x800;
            proof {
                assert(off < 0xF800 ==> (off >> 6) == off / 64 && (off >> 6) < 992)
                    by (bit_vector);
            }
            let li = self.level2[(off >> 6) as usize];
            chunk = self.leaves[li as usize];
        } else {
            let off = v - 0x10000;
            proof {
                assert(off < 0x100000 ==> (off >> 12) == off / 0x1000 && (off >> 12) < 256)
                    by (bit_vector);
                assert(((off >> 6) & 63) == (off / 64) % 64) by (bit_vector);
            }
            let bi = self.level3.0[(off >> 12) as usize];
            let blk = vstd::slice::slice_index_get(self.level3.1, bi as usize);
            let li = blk[((off >> 6) & 63) as usize];
            proof {
                assert(self.l3_second()[bi as int] == self.level3.1@[bi as int]@);
            }
            chunk = self.leaves[li as usize];
        }
        (chunk >> bit_index) & 1 == 1
    }
}

/// A trie built over the same tables as a generator's output answers
/// every lookup as the output's tables do.
pub proof fn lemma_trie_matches_tables(t: CharTrie<'_>, d: &TrieData, c: char)
    requires
        t.l1() == d.level1@,
        t.l2() == d.level2@,
        t.l3_first() == d.level3_first@,
        t.l3_second() == Seq::new(d.level3_second@.len(), |i: int| d.level3_second@[i]@),
        t.leaf_words() == d.leaves@,
    ensures
        t.spec_contains(c) == d.spec_contains(c),
{
}

} // verus!
