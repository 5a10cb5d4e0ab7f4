//! The `CharTrie` generator: fold a membership predicate over all of
//! Unicode into the four trie tables, sharing equal leaves and equal
//! second-level blocks through insertion-ordered deduplication sets.

use vstd::prelude::*;

use crate::chars::scalar_code;
use crate::trie::{bit_of, table_lookup, tables_wf};
use std::collections::hash_map::RandomState;

verus! {

/// The predicate can be called on every character.
pub open spec fn fn_total<F: Fn(char) -> bool>(f: F) -> bool {
    forall|c: char| #[trigger] f.requires((c,))
}

/// The predicate's postcondition admits one answer per character, so it
/// denotes a function of the character alone.
pub open spec fn fn_deterministic<F: Fn(char) -> bool>(f: F) -> bool {
    forall|c: char, b1: bool, b2: bool|
        f.ensures((c,), b1) && f.ensures((c,), b2) ==> b1 == b2
}

/// The answer the predicate gives for a character.
pub open spec fn fn_val<F: Fn(char) -> bool>(f: F, c: char) -> bool {
    choose|b: bool| f.ensures((c,), b)
}

/// Membership of a codepoint ordinal: surrogates are never members.
pub open spec fn code_member<F: Fn(char) -> bool>(f: F, v: int) -> bool {
    scalar_code(v) && fn_val(f, (v as u32) as char)
}

/// The 64-codepoint chunk starting at `base`, packed into a word: bit `b`
/// holds membership of `base + b`, for the first `n` bits.
pub open spec fn word_at<F: Fn(char) -> bool>(f: F, base: int, n: int) -> u64
    decreases n,
{
    if n <= 0 {
        0u64
    } else {
        word_at(f, base, n - 1) | (if code_member(f, base + n - 1) {
            1u64 << ((n - 1) as u64)
        } else {
            0u64
        })
    }
}

/// The chunk words the generator scans in order: the 992 chunks of
/// `[U+0800, U+10000)`, then the 16384 chunks of `[U+10000, U+110000)`.
pub open spec fn scan_base(j: int) -> int {
    if j < 992 {
        0x800 + 64 * j
    } else {
        0x10000 + 64 * (j - 992)
    }
}

/// All chunk words the generator deduplicates, in scan order.
pub open spec fn scan_words<F: Fn(char) -> bool>(f: F) -> Seq<u64> {
    Seq::new(17376, |j: int| word_at(f, scan_base(j), 64))
}

/// The 256 second-level blocks, each as its 64 chunk words.
pub open spec fn block_words<F: Fn(char) -> bool>(f: F) -> Seq<Seq<u64>> {
    Seq::new(
        256,
        |b: int| Seq::new(64, |k: int| word_at(f, 0x10000 + 0x1000 * b + 64 * k, 64)),
    )
}

/// The subsequence of first occurrences, in order.
pub open spec fn dedup<A>(s: Seq<A>) -> Seq<A>
    decreases s.len(),
{
    if s.len() == 0 {
        Seq::empty()
    } else {
        let d = dedup(s.drop_last());
        if d.contains(s.last()) {
            d
        } else {
            d.push(s.last())
        }
    }
}

/// Deduplication keeps exactly the values of the sequence.
pub proof fn lemma_dedup_contains<A>(s: Seq<A>, x: A)
    ensures
        dedup(s).contains(x) <==> s.contains(x),
    decreases s.len(),
{
    if s.len() > 0 {
        let sd = s.drop_last();
        lemma_dedup_contains(sd, x);
        let d = dedup(sd);
        if dedup(s).contains(x) {
            let i = choose|i: int| 0 <= i < dedup(s).len() && dedup(s)[i] == x;
            if i < d.len() {
                assert(d[i] == x);
                assert(d.contains(x));
                let j = choose|j: int| 0 <= j < sd.len() && sd[j] == x;
                assert(s[j] == x);
            } else {
                assert(dedup(s)[i] == s.last());
                assert(s[s.len() - 1] == x);
            }
        }
        if s.contains(x) {
            let i = choose|i: int| 0 <= i < s.len() && s[i] == x;
            if i < s.len() - 1 {
                assert(sd[i] == x);
                assert(sd.contains(x));
                let j = choose|j: int| 0 <= j < d.len() && d[j] == x;
                assert(dedup(s)[j] == x);
                assert(dedup(s).contains(x));
            } else {
                if d.contains(s.last()) {
                    let j = choose|j: int| 0 <= j < d.len() && d[j] == s.last();
                    assert(dedup(s)[j] == x);
                } else {
                    assert(dedup(s)[d.len() as int] == x);
                }
                assert(dedup(s).contains(x));
            }
        }
    }
}

/// Deduplication leaves no two equal values.
pub proof fn lemma_dedup_distinct<A>(s: Seq<A>)
    ensures
        forall|i: int, j: int|
            0 <= i < j < dedup(s).len() ==> dedup(s)[i] != dedup(s)[j],
    decreases s.len(),
{
    if s.len() > 0 {
        lemma_dedup_distinct(s.drop_last());
        let d = dedup(s.drop_last());
        if !d.contains(s.last()) {
            assert forall|i: int, j: int|
                0 <= i < j < dedup(s).len() implies dedup(s)[i] != dedup(s)[j] by {
                if j < d.len() {
                } else {
                    assert(dedup(s)[j] == s.last());
                    assert(d[i] == dedup(s)[i]);
                    assert(d.contains(d[i]));
                }
            }
        }
    }
}

/// One scan step extends the deduplicated prefix exactly when the next
/// value is new.
pub proof fn lemma_dedup_step<A>(s: Seq<A>, k: int)
    requires
        0 <= k < s.len(),
    ensures
        dedup(s.take(k + 1)) == (if dedup(s.take(k)).contains(s[k]) {
            dedup(s.take(k))
        } else {
            dedup(s.take(k)).push(s[k])
        }),
{
    assert(s.take(k + 1).drop_last() =~= s.take(k));
    assert(s.take(k + 1).last() == s[k]);
}

/// A longer scan never deduplicates to fewer values.
pub proof fn lemma_dedup_len_mono<A>(s: Seq<A>, j1: int, j2: int)
    requires
        0 <= j1 <= j2 <= s.len(),
    ensures
        dedup(s.take(j1)).len() <= dedup(s.take(j2)).len(),
    decreases j2 - j1,
{
    if j1 < j2 {
        lemma_dedup_len_mono(s, j1, j2 - 1);
        lemma_dedup_step(s, j2 - 1);
    }
}

/// Bit `b` of a packed chunk word holds membership of `base + b`.
pub proof fn lemma_word_at_bits<F: Fn(char) -> bool>(f: F, base: int, n: int, b: u64)
    requires
        0 <= n <= 64,
        b < 64,
    ensures
        bit_of(word_at(f, base, n), b) == (b < n && code_member(f, base + b)),
    decreases n,
{
    if n <= 0 {
        assert((0u64 >> b) & 1u64 == 0u64) by (bit_vector);
    } else {
        lemma_word_at_bits(f, base, n - 1, b);
        let x = word_at(f, base, n - 1);
        let j = (n - 1) as u64;
        if code_member(f, base + n - 1) {
            assert(j < 64 && b < 64 ==> ((((x | (1u64 << j)) >> b) & 1u64 == 1u64) <==> (((x >> b)
                & 1u64 == 1u64) || b == j))) by (bit_vector);
        } else {
            assert(x | 0u64 == x) by (bit_vector);
        }
    }
}

/// The error returned when a predicate needs more than 256 distinct
/// leaves or more than 256 distinct second-level blocks: the byte-indexed
/// trie cannot hold it.
#[derive(Copy, Clone, PartialEq, Eq, Debug)]
pub struct TrieOverflow;

/// The structured output of the generator: the four tables of a
/// `CharTrie`, owned, ready to be materialized with `CharTrie::from_raw`.
#[derive(Clone, Debug)]
pub struct TrieData {
    /// 32 words of direct bits for `[U+0000, U+0800)`.
    pub level1: [u64; 32],
    /// 992 leaf indices for the chunks of `[U+0800, U+10000)`.
    pub level2: [u8; 992],
    /// 256 block indices for the 0x1000-codepoint blocks above `U+FFFF`.
    pub level3_first: [u8; 256],
    /// The deduplicated second-level blocks of 64 leaf indices each.
    pub level3_second: Vec<[u8; 64]>,
    /// The deduplicated leaf words, in insertion order.
    pub leaves: Vec<u64>,
}

impl TrieData {
    /// The second-level blocks as byte sequences.
    pub open spec fn second_views(self) -> Seq<Seq<u8>> {
        Seq::new(self.level3_second@.len(), |i: int| self.level3_second@[i]@)
    }

    /// Whether every stored index lands inside the table it points into.
    pub open spec fn wf(self) -> bool {
        tables_wf(self.level2@, self.level3_first@, self.second_views(), self.leaves@)
    }

    /// The bit these tables store for codepoint ordinal `v`.
    pub open spec fn spec_lookup(self, v: int) -> bool {
        table_lookup(
            self.level1@,
            self.level2@,
            self.level3_first@,
            self.second_views(),
            self.leaves@,
            v,
        )
    }

    /// The bit these tables store for `c`.
    pub open spec fn spec_contains(self, c: char) -> bool {
        self.spec_lookup(c as u32 as int)
    }
}


/// Indexmap's insertion-ordered set, used to share equal leaves and
/// equal second-level blocks while keeping their indices stable.
#[verifier::external_type_specification]
#[verifier::external_body]
#[verifier::reject_recursive_types(T)]
#[verifier::reject_recursive_types(S)]
pub struct ExIndexSet<T, S>(indexmap::IndexSet<T, S>);

/// The words a leaf-deduplication set holds, in insertion order.
pub uninterp spec fn word_set_elems(s: indexmap::IndexSet<u64, RandomState>) -> Seq<u64>;

/// The index vectors a block-deduplication set holds, in insertion order.
pub uninterp spec fn block_set_elems(s: indexmap::IndexSet<Vec<u8>, RandomState>) -> Seq<Seq<u8>>;

/// Relies on indexmap's `IndexSet::new`: a new set holds nothing.
#[verifier::external_body]
fn word_set_new() -> (s: indexmap::IndexSet<u64, RandomState>)
    ensures
        word_set_elems(s) == Seq::<u64>::empty(),
{
    indexmap::IndexSet::new()
}

/// Relies on indexmap's `IndexSet::insert_full`: a value already in the
/// set leaves it unchanged and yields the index where that value sits;
/// a new value is appended and yields the index of the append.
#[verifier::external_body]
fn word_set_insert(s: &mut indexmap::IndexSet<u64, RandomState>, x: u64) -> (r: (usize, bool))
    ensures
        word_set_elems(*final(s)) == (if word_set_elems(*old(s)).contains(x) {
            word_set_elems(*old(s))
        } else {
            word_set_elems(*old(s)).push(x)
        }),
        r.1 == !word_set_elems(*old(s)).contains(x),
        (r.0 as int) < word_set_elems(*final(s)).len(),
        word_set_elems(*final(s))[r.0 as int] == x,
        forall|j: int| 0 <= j < r.0 ==> word_set_elems(*final(s))[j] != x,
{
    s.insert_full(x)
}

/// Relies on indexmap's `IndexSet::len`: the number of values held.
#[verifier::external_body]
fn word_set_len(s: &indexmap::IndexSet<u64, RandomState>) -> (n: usize)
    ensures
        n == word_set_elems(*s).len(),
{
    s.len()
}

/// Relies on indexmap's `IndexSet::get_index`: the value at an insertion
/// index, which exists below `len`.
#[verifier::external_body]
fn word_set_get(s: &indexmap::IndexSet<u64, RandomState>, i: usize) -> (x: u64)
    requires
        (i as int) < word_set_elems(*s).len(),
    ensures
        x == word_set_elems(*s)[i as int],
{
    *s.get_index(i).unwrap()
}

/// Relies on indexmap's `IndexSet::new`: a new set holds nothing.
#[verifier::external_body]
fn block_set_new() -> (s: indexmap::IndexSet<Vec<u8>, RandomState>)
    ensures
        block_set_elems(s) == Seq::<Seq<u8>>::empty(),
{
    indexmap::IndexSet::new()
}

/// Relies on indexmap's `IndexSet::insert_full`: a vector whose content
/// is already in the set leaves it unchanged and yields the index where
/// that content sits; new content is appended and yields the index of
/// the append.
#[verifier::external_body]
fn block_set_insert(s: &mut indexmap::IndexSet<Vec<u8>, RandomState>, x: Vec<u8>) -> (r: (
    usize,
    bool,
))
    ensures
        block_set_elems(*final(s)) == (if block_set_elems(*old(s)).contains(x@) {
            block_set_elems(*old(s))
        } else {
            block_set_elems(*old(s)).push(x@)
        }),
        r.1 == !block_set_elems(*old(s)).contains(x@),
        (r.0 as int) < block_set_elems(*final(s)).len(),
        block_set_elems(*final(s))[r.0 as int] == x@,
        forall|j: int| 0 <= j < r.0 ==> block_set_elems(*final(s))[j] != x@,
{
    s.insert_full(x)
}

/// Relies on indexmap's `IndexSet::len`: the number of vectors held.
#[verifier::external_body]
fn block_set_len(s: &indexmap::IndexSet<Vec<u8>, RandomState>) -> (n: usize)
    ensures
        n == block_set_elems(*s).len(),
{
    s.len()
}

/// Relies on indexmap's `IndexSet::get_index`: the vector at an insertion
/// index, which exists below `len`, handed out as a copy.
#[verifier::external_body]
fn block_set_get(s: &indexmap::IndexSet<Vec<u8>, RandomState>, i: usize) -> (x: Vec<u8>)
    requires
        (i as int) < block_set_elems(*s).len(),
    ensures
        x@ == block_set_elems(*s)[i as int],
{
    s.get_index(i).unwrap().clone()
}

/// Evaluate one 64-codepoint chunk of the predicate into a packed word.
fn eval_word<F: Fn(char) -> bool + Copy>(f: F, base: u32) -> (w: u64)
    requires
        fn_total(f),
        fn_deterministic(f),
        base + 64 <= 0x110000,
    ensures
        w == word_at(f, base as int, 64),
{
    let mut w: u64 = 0;
    let mut b: u32 = 0;
    while b < 64
        invariant
            fn_total(f),
            fn_deterministic(f),
            base + 64 <= 0x110000,
            b <= 64,
            w == word_at(f, base as int, b as int),
        decreases 64 - b,
    {
        let m: bool = match crate::chars::from_u32_checked(base + b) {
            Some(c) => {
                let r = f(c);
                proof {
                    assert(f.ensures((c,), r));
                    assert(f.ensures((c,), fn_val(f, c)));
                    assert(vstd::utf8::is_scalar((base + b) as u32));
                    assert(scalar_code(base as int + b as int));
                    vstd::utf8::char_u32_cast(c, (base + b) as u32);
                    assert(r == code_member(f, base as int + b as int));
                }
                r
            },
            None => {
                proof {
                    assert(!scalar_code(base as int + b as int));
                }
                false
            },
        };
        if m {
            w = w | (1u64 << b as u64);
        } else {
            proof {
                assert(w | 0u64 == w) by (bit_vector);
            }
        }
        b = b + 1;
    }
    w
}


/// Pack the 2048 direct bits of `[U+0000, U+0800)`.
fn build_level1<F: Fn(char) -> bool + Copy>(f: F) -> (a: [u64; 32])
    requires
        fn_total(f),
        fn_deterministic(f),
    ensures
        forall|i: int| 0 <= i < 32 ==> a@[i] == word_at(f, 64 * i, 64),
{
    let mut a = [0u64; 32];
    let mut i: usize = 0;
    while i < 32
        invariant
            fn_total(f),
            fn_deterministic(f),
            i <= 32,
            forall|j: int| 0 <= j < i ==> a@[j] == word_at(f, 64 * j, 64),
        decreases 32 - i,
    {
        let w = eval_word(f, 64 * (i as u32));
        a[i] = w;
        i = i + 1;
    }
    a
}

/// Fill the 992 leaf indices of `[U+0800, U+10000)`, deduplicating the
/// chunk words through the shared leaf set.
#[verifier::rlimit(60)]
fn build_level2<F: Fn(char) -> bool + Copy>(
    f: F,
    leaves: &mut indexmap::IndexSet<u64, RandomState>,
) -> (r: Result<[u8; 992], TrieOverflow>)
    requires
        fn_total(f),
        fn_deterministic(f),
        word_set_elems(*old(leaves)) == Seq::<u64>::empty(),
    ensures
        r is Err ==> dedup(scan_words(f)).len() > 256,
        r matches Ok(l2) ==> {
            let lv = word_set_elems(*final(leaves));
            &&& lv == dedup(scan_words(f).take(992))
            &&& 1 <= lv.len() <= 256
            &&& forall|k: int|
                0 <= k < 992 ==> (#[trigger] l2@[k] as int) < lv.len() && lv[l2@[k] as int]
                    == scan_words(f)[k]
            &&& exists|k: int| 0 <= k < 992 && (#[trigger] l2@[k] as int) == lv.len() - 1
        },
{
    let mut l2 = [0u8; 992];
    let mut k: usize = 0;
    proof {
        assert(scan_words(f).take(0) =~= Seq::<u64>::empty());
    }
    while k < 992
        invariant
            fn_total(f),
            fn_deterministic(f),
            k <= 992,
            word_set_elems(*leaves) == dedup(scan_words(f).take(k as int)),
            word_set_elems(*leaves).len() <= 256,
            forall|j: int|
                0 <= j < k ==> (#[trigger] l2@[j] as int) < word_set_elems(*leaves).len()
                    && word_set_elems(*leaves)[l2@[j] as int] == scan_words(f)[j],
            k > 0 ==> word_set_elems(*leaves).len() >= 1 && exists|j: int|
                0 <= j < k && (#[trigger] l2@[j] as int) == word_set_elems(*leaves).len() - 1,
        decreases 992 - k,
    {
        let ghost pre = word_set_elems(*leaves);
        let base: u32 = 0x800 + 64 * (k as u32);
        let w = eval_word(f, base);
        proof {
            assert(scan_base(k as int) == base as int);
            assert(scan_words(f)[k as int] == word_at(f, base as int, 64));
            lemma_dedup_step(scan_words(f), k as int);
        }
        let (idx, fresh) = word_set_insert(leaves, w);
        proof {
            if fresh && idx < pre.len() {
                assert(word_set_elems(*leaves)[idx as int] == pre[idx as int]);
                assert(pre.contains(w));
                assert(false);
            }
        }
        if idx > 255 {
            proof {
                assert(word_set_elems(*leaves).len() >= 257);
                lemma_dedup_len_mono(scan_words(f), k as int + 1, 17376);
                assert(scan_words(f).take(17376) =~= scan_words(f));
            }
            return Err(TrieOverflow);
        }
        let ghost l2pre = l2@;
        l2[k] = idx as u8;
        k = k + 1;
        proof {
            let lv = word_set_elems(*leaves);
            assert(lv.len() <= 256);
            assert forall|j: int|
                0 <= j < k implies (#[trigger] l2@[j] as int) < lv.len() && lv[l2@[j] as int]
                    == scan_words(f)[j] by {
                if j < k - 1 {
                    assert(l2@[j] == l2pre[j]);
                    assert(lv[l2@[j] as int] == pre[l2@[j] as int]);
                }
            }
            if fresh {
                assert(l2@[k - 1] as int == lv.len() - 1);
            } else {
                assert(lv == pre);
                let j = choose|j: int|
                    0 <= j < k - 1 && (#[trigger] l2pre[j] as int) == pre.len() - 1;
                assert(l2@[j] == l2pre[j]);
                assert(l2@[j] as int == lv.len() - 1);
            }
        }
    }
    let res: Result<[u8; 992], TrieOverflow> = Ok(l2);
    proof {
        let lv = word_set_elems(*leaves);
        let w = choose|j: int|
            0 <= j < 992 && (#[trigger] l2@[j] as int) == lv.len() - 1;
        assert(res->Ok_0 == l2);
        assert(res->Ok_0@[w] as int == lv.len() - 1);
    }
    res
}


/// A fresh block's index vector repeats an earlier block's exactly when
/// the two blocks' chunk words agree: equal vectors name equal leaves,
/// and distinct leaves force equal words back to equal indices.
proof fn lemma_block_vec_equiv<F: Fn(char) -> bool>(
    f: F,
    lv: Seq<u64>,
    gvecs: Seq<Seq<u8>>,
    bv: Seq<u8>,
    b: int,
)
    requires
        0 <= b < 256,
        forall|i: int, j: int| 0 <= i < j < lv.len() ==> lv[i] != lv[j],
        gvecs.len() == b,
        forall|i: int| 0 <= i < b ==> (#[trigger] gvecs[i]).len() == 64,
        forall|i: int, kk: int|
            0 <= i < b && 0 <= kk < 64 ==> (#[trigger] gvecs[i][kk] as int) < lv.len()
                && lv[gvecs[i][kk] as int] == block_words(f)[i][kk],
        bv.len() == 64,
        forall|kk: int|
            0 <= kk < 64 ==> (#[trigger] bv[kk] as int) < lv.len() && lv[bv[kk] as int]
                == block_words(f)[b][kk],
    ensures
        gvecs.contains(bv) <==> block_words(f).take(b).contains(block_words(f)[b]),
{
    let bw = block_words(f);
    if gvecs.contains(bv) {
        let i = choose|i: int| 0 <= i < gvecs.len() && gvecs[i] == bv;
        assert forall|kk: int| 0 <= kk < 64 implies bw.take(b)[i][kk] == bw[b][kk] by {
            assert(lv[gvecs[i][kk] as int] == bw[i][kk]);
            assert(gvecs[i][kk] == bv[kk]);
        }
        assert(bw.take(b)[i] =~= bw[b]);
        assert(bw.take(b).contains(bw[b]));
    }
    if bw.take(b).contains(bw[b]) {
        let i = choose|i: int| 0 <= i < bw.take(b).len() && bw.take(b)[i] == bw[b];
        assert forall|kk: int| 0 <= kk < 64 implies gvecs[i][kk] == bv[kk] by {
            assert(bw[i][kk] == bw[b][kk]);
            assert(lv[gvecs[i][kk] as int] == lv[bv[kk] as int]);
            if gvecs[i][kk] != bv[kk] {
                if (gvecs[i][kk] as int) < (bv[kk] as int) {
                    assert(lv[gvecs[i][kk] as int] != lv[bv[kk] as int]);
                } else {
                    assert(lv[bv[kk] as int] != lv[gvecs[i][kk] as int]);
                }
            }
        }
        assert(gvecs[i] =~= bv);
        assert(gvecs.contains(bv));
    }
}

/// Fill the two level-3 tables for `[U+10000, U+110000)`: one byte per
/// 0x1000-codepoint block into the deduplicated second-level blocks, each
/// a vector of 64 leaf indices.
#[verifier::rlimit(100)]
fn build_level3<F: Fn(char) -> bool + Copy>(
    f: F,
    leaves: &mut indexmap::IndexSet<u64, RandomState>,
) -> (r: Result<([u8; 256], Vec<[u8; 64]>), TrieOverflow>)
    requires
        fn_total(f),
        fn_deterministic(f),
        word_set_elems(*old(leaves)) == dedup(scan_words(f).take(992)),
        word_set_elems(*old(leaves)).len() <= 256,
    ensures
        r is Err ==> dedup(scan_words(f)).len() > 256 || dedup(block_words(f)).len() > 256,
        r matches Ok(p) ==> {
            let lv = word_set_elems(*final(leaves));
            let svs = Seq::new(p.1@.len(), |i: int| p.1@[i]@);
            &&& lv == dedup(scan_words(f))
            &&& lv.len() <= 256
            &&& word_set_elems(*old(leaves)).len() <= lv.len()
            &&& word_set_elems(*old(leaves)) == lv.take(word_set_elems(*old(leaves)).len() as int)
            &&& 1 <= svs.len() <= 256
            &&& svs.len() == dedup(block_words(f)).len()
            &&& forall|i: int| 0 <= i < svs.len() ==> (#[trigger] svs[i]).len() == 64
            &&& forall|i: int, kk: int|
                0 <= i < svs.len() && 0 <= kk < 64 ==> (#[trigger] svs[i][kk] as int) < lv.len()
            &&& forall|i: int, j: int| 0 <= i < j < svs.len() ==> svs[i] != svs[j]
            &&& forall|b: int| 0 <= b < 256 ==> (#[trigger] p.0@[b] as int) < svs.len()
            &&& forall|b: int, kk: int|
                0 <= b < 256 && 0 <= kk < 64 ==> lv[svs[p.0@[b] as int][kk] as int]
                    == #[trigger] block_words(f)[b][kk]
            &&& exists|b: int| 0 <= b < 256 && (#[trigger] p.0@[b] as int) == svs.len() - 1
            &&& (lv.len() == word_set_elems(*old(leaves)).len() || exists|i: int, kk: int|
                0 <= i < svs.len() && 0 <= kk < 64 && (#[trigger] svs[i][kk] as int) == lv.len()
                    - 1)
        },
{
    let ghost lv0 = word_set_elems(*leaves);
    let mut first = [0u8; 256];
    let mut second = block_set_new();
    let ghost mut gvecs: Seq<Seq<u8>> = Seq::empty();
    let mut b: usize = 0;
    proof {
        assert(block_words(f).take(0) =~= Seq::<Seq<u64>>::empty());
        assert(dedup(gvecs) =~= Seq::<Seq<u8>>::empty());
        assert(lv0 =~= lv0.take(lv0.len() as int));
    }
    while b < 256
        invariant
            fn_total(f),
            fn_deterministic(f),
            b <= 256,
            gvecs.len() == b,
            word_set_elems(*leaves) == dedup(scan_words(f).take(992 + 64 * (b as int))),
            word_set_elems(*leaves).len() <= 256,
            lv0 == word_set_elems(*leaves).take(lv0.len() as int),
            lv0.len() <= word_set_elems(*leaves).len(),
            forall|i: int| 0 <= i < b ==> (#[trigger] gvecs[i]).len() == 64,
            forall|i: int, kk: int|
                0 <= i < b && 0 <= kk < 64 ==> (#[trigger] gvecs[i][kk] as int)
                    < word_set_elems(*leaves).len() && word_set_elems(*leaves)[gvecs[i][kk] as int]
                    == block_words(f)[i][kk],
            block_set_elems(second) == dedup(gvecs),
            block_set_elems(second).len() <= 256,
            dedup(gvecs).len() == dedup(block_words(f).take(b as int)).len(),
            forall|i: int|
                0 <= i < b ==> (#[trigger] first@[i] as int) < block_set_elems(second).len()
                    && block_set_elems(second)[first@[i] as int] == gvecs[i],
            b > 0 ==> exists|i: int|
                0 <= i < b && (#[trigger] first@[i] as int) == block_set_elems(second).len() - 1,
            word_set_elems(*leaves).len() == lv0.len() || exists|i: int, kk: int|
                0 <= i < b && 0 <= kk < 64 && (#[trigger] gvecs[i][kk] as int)
                    == word_set_elems(*leaves).len() - 1,
        decreases 256 - b,
    {
        let ghost lv_outer = word_set_elems(*leaves);
        let mut block: Vec<u8> = Vec::new();
        let mut k: usize = 0;
        while k < 64
            invariant
                fn_total(f),
                fn_deterministic(f),
                b < 256,
                k <= 64,
                block@.len() == k,
                word_set_elems(*leaves) == dedup(
                    scan_words(f).take(992 + 64 * (b as int) + (k as int)),
                ),
                word_set_elems(*leaves).len() <= 256,
                lv0 == word_set_elems(*leaves).take(lv0.len() as int),
                lv0.len() <= word_set_elems(*leaves).len(),
                lv_outer == word_set_elems(*leaves).take(lv_outer.len() as int),
                lv_outer.len() <= word_set_elems(*leaves).len(),
                gvecs.len() == b,
                forall|i: int| 0 <= i < b ==> (#[trigger] gvecs[i]).len() == 64,
                forall|i: int, kk: int|
                    0 <= i < b && 0 <= kk < 64 ==> (#[trigger] gvecs[i][kk] as int)
                        < word_set_elems(*leaves).len() && word_set_elems(*leaves)[gvecs[i][kk]
                        as int] == block_words(f)[i][kk],
                forall|kk: int|
                    0 <= kk < k ==> (#[trigger] block@[kk] as int) < word_set_elems(*leaves).len()
                        && word_set_elems(*leaves)[block@[kk] as int] == block_words(f)[
                    b as int][kk],
                word_set_elems(*leaves).len() == lv0.len() || (exists|i: int, kk: int|
                    0 <= i < b && 0 <= kk < 64 && (#[trigger] gvecs[i][kk] as int)
                        == word_set_elems(*leaves).len() - 1) || (exists|kk: int|
                    0 <= kk < k && (#[trigger] block@[kk] as int) == word_set_elems(
                        *leaves,
                    ).len() - 1),
            decreases 64 - k,
        {
            let ghost pre = word_set_elems(*leaves);
            let base: u32 = 0x10000 + 0x1000 * (b as u32) + 64 * (k as u32);
            let ghost j = 992 + 64 * (b as int) + (k as int);
            let w = eval_word(f, base);
            proof {
                assert(scan_base(j) == base as int);
                assert(scan_words(f)[j] == word_at(f, base as int, 64));
                assert(block_words(f)[b as int][k as int] == word_at(f, base as int, 64));
                lemma_dedup_step(scan_words(f), j);
            }
            let (idx, fresh) = word_set_insert(leaves, w);
            proof {
                if fresh && idx < pre.len() {
                    assert(word_set_elems(*leaves)[idx as int] == pre[idx as int]);
                    assert(pre.contains(w));
                    assert(false);
                }
            }
            if idx > 255 {
                proof {
                    assert(word_set_elems(*leaves).len() >= 257);
                    lemma_dedup_len_mono(scan_words(f), j + 1, 17376);
                    assert(scan_words(f).take(17376) =~= scan_words(f));
                }
                return Err(TrieOverflow);
            }
            let ghost blockpre = block@;
            block.push(idx as u8);
            k = k + 1;
            proof {
                let lv = word_set_elems(*leaves);
                assert(lv.len() <= 256);
                if fresh {
                    assert(lv == pre.push(w));
                    assert(lv0 =~= lv.take(lv0.len() as int));
                    assert(lv_outer =~= lv.take(lv_outer.len() as int));
                    assert(block@[k - 1] as int == lv.len() - 1);
                } else {
                    assert(lv == pre);
                }
                assert forall|i: int, kk: int|
                    0 <= i < b && 0 <= kk < 64 implies (#[trigger] gvecs[i][kk] as int) < lv.len()
                        && lv[gvecs[i][kk] as int] == block_words(f)[i][kk] by {
                    assert(lv[gvecs[i][kk] as int] == pre[gvecs[i][kk] as int]);
                }
                assert forall|kk: int|
                    0 <= kk < k implies (#[trigger] block@[kk] as int) < lv.len() && lv[block@[kk]
                    as int] == block_words(f)[b as int][kk] by {
                    if kk < k - 1 {
                        assert(block@[kk] == blockpre[kk]);
                        assert(lv[block@[kk] as int] == pre[block@[kk] as int]);
                    }
                }
                if !fresh && lv.len() != lv0.len() {
                    if exists|i: int, kk: int|
                        0 <= i < b && 0 <= kk < 64 && (#[trigger] gvecs[i][kk] as int) == pre.len()
                            - 1 {
                    } else {
                        let kk = choose|kk: int|
                            0 <= kk < k - 1 && (#[trigger] blockpre[kk] as int) == pre.len() - 1;
                        assert(block@[kk] == blockpre[kk]);
                        assert(block@[kk] as int == lv.len() - 1);
                    }
                }
            }
        }
        let ghost bv = block@;
        let ghost pre2 = block_set_elems(second);
        proof {
            lemma_dedup_distinct(scan_words(f).take(992 + 64 * (b as int) + 64));
            lemma_block_vec_equiv(f, word_set_elems(*leaves), gvecs, bv, b as int);
            lemma_dedup_contains(gvecs, bv);
            lemma_dedup_contains(block_words(f).take(b as int), block_words(f)[b as int]);
            lemma_dedup_step(block_words(f), b as int);
            assert(gvecs.push(bv).drop_last() =~= gvecs);
        }
        let (bidx, bfresh) = block_set_insert(&mut second, block);
        proof {
            if bfresh && bidx < pre2.len() {
                assert(block_set_elems(second)[bidx as int] == pre2[bidx as int]);
                assert(pre2.contains(bv));
                assert(false);
            }
            assert(block_set_elems(second) == dedup(gvecs.push(bv)));
            assert(dedup(gvecs.push(bv)).len() == dedup(
                block_words(f).take(b as int + 1),
            ).len());
        }
        if bidx > 255 {
            proof {
                assert(block_set_elems(second).len() >= 257);
                lemma_dedup_len_mono(block_words(f), b as int + 1, 256);
                assert(block_words(f).take(256) =~= block_words(f));
            }
            return Err(TrieOverflow);
        }
        let ghost firstpre = first@;
        first[b] = bidx as u8;
        proof {
            gvecs = gvecs.push(bv);
        }
        b = b + 1;
        proof {
            let sv = block_set_elems(second);
            assert forall|i: int|
                0 <= i < b implies (#[trigger] first@[i] as int) < sv.len() && sv[first@[i] as int]
                    == gvecs[i] by {
                if i < b - 1 {
                    assert(first@[i] == firstpre[i]);
                    assert(sv[firstpre[i] as int] == pre2[firstpre[i] as int]);
                }
            }
            if bfresh {
                assert(first@[b - 1] as int == sv.len() - 1);
            } else {
                assert(sv == pre2);
                let i = choose|i: int|
                    0 <= i < b - 1 && (#[trigger] firstpre[i] as int) == pre2.len() - 1;
                if b - 1 > 0 {
                    assert(first@[i] == firstpre[i]);
                    assert(first@[i] as int == sv.len() - 1);
                }
            }
        }
    }
    // Materialize the deduplicated blocks as fixed-size arrays.
    let n2 = block_set_len(&second);
    let mut secv: Vec<[u8; 64]> = Vec::new();
    let mut i: usize = 0;
    proof {
        lemma_dedup_distinct(gvecs);
        assert(scan_words(f).take(17376) =~= scan_words(f));
        assert(block_words(f).take(256) =~= block_words(f));
    }
    while i < n2
        invariant
            n2 == block_set_elems(second).len(),
            i <= n2,
            secv@.len() == i,
            block_set_elems(second) == dedup(gvecs),
            gvecs.len() == 256,
            forall|q: int| 0 <= q < 256 ==> (#[trigger] gvecs[q]).len() == 64,
            forall|q: int, kk: int|
                0 <= q < 256 && 0 <= kk < 64 ==> (#[trigger] gvecs[q][kk] as int)
                    < word_set_elems(*leaves).len(),
            forall|q: int| 0 <= q < i ==> (#[trigger] secv@[q]@) == block_set_elems(second)[q],
        decreases n2 - i,
    {
        let v = block_set_get(&second, i);
        proof {
            assert(block_set_elems(second).contains(block_set_elems(second)[i as int]));
            lemma_dedup_contains(gvecs, block_set_elems(second)[i as int]);
            let q = choose|q: int| 0 <= q < gvecs.len() && gvecs[q] == v@;
            assert(v@.len() == 64);
        }
        let mut arr = [0u8; 64];
        let mut kk: usize = 0;
        while kk < 64
            invariant
                v@.len() == 64,
                kk <= 64,
                forall|q: int| 0 <= q < kk ==> arr@[q] == v@[q],
            decreases 64 - kk,
        {
            arr[kk] = v[kk];
            kk = kk + 1;
        }
        proof {
            assert(arr@ =~= v@);
        }
        secv.push(arr);
        i = i + 1;
    }
    let res: Result<([u8; 256], Vec<[u8; 64]>), TrieOverflow> = Ok((first, secv));
    proof {
        let lv = word_set_elems(*leaves);
        let sv = block_set_elems(second);
        let svs = Seq::new(secv@.len(), |q: int| secv@[q]@);
        assert(svs =~= sv);
        assert(res->Ok_0.0 == first && res->Ok_0.1 == secv);
        assert(Seq::new(res->Ok_0.1@.len(), |q: int| res->Ok_0.1@[q]@) =~= svs);
        assert forall|q: int, kk: int|
            0 <= q < svs.len() && 0 <= kk < 64 implies (#[trigger] svs[q][kk] as int)
                < lv.len() by {
            lemma_dedup_contains(gvecs, sv[q]);
            assert(sv.contains(sv[q]));
            let g = choose|g: int| 0 <= g < gvecs.len() && gvecs[g] == sv[q];
        }
        assert forall|bb: int, kk: int|
            0 <= bb < 256 && 0 <= kk < 64 implies lv[svs[first@[bb] as int][kk] as int]
                == #[trigger] block_words(f)[bb][kk] by {
            assert(sv[first@[bb] as int] == gvecs[bb]);
        }
        let wex = choose|i0: int|
            0 <= i0 < 256 && (#[trigger] first@[i0] as int) == sv.len() - 1;
        assert(res->Ok_0.0@[wex] as int == svs.len() - 1);
        if lv.len() != lv0.len() {
            let (gi, gk): (int, int) = choose|gi: int, gk: int|
                0 <= gi < 256 && 0 <= gk < 64 && (#[trigger] gvecs[gi][gk] as int) == lv.len() - 1;
            assert(sv[first@[gi] as int] == gvecs[gi]);
            assert(svs[first@[gi] as int][gk] as int == lv.len() - 1);
        }
    }
    res
}


/// Whether some level-2 entry or some second-level block byte names leaf
/// index `i`.
pub open spec fn leaf_referenced(d: TrieData, i: int) -> bool {
    (exists|k: int| 0 <= k < 992 && (#[trigger] d.level2@[k] as int) == i) || (exists|b: int, kk: int|
        0 <= b < d.second_views().len() && 0 <= kk < 64 && (#[trigger] d.second_views()[b][kk]
            as int) == i)
}

/// Generate the trie tables for a membership predicate.
///
/// The predicate must answer on every character and must denote a
/// function of the character alone. On success the tables store exactly
/// the predicate's bit for every codepoint (surrogates stored as absent),
/// the leaf pool and the second-level blocks are deduplicated in first-use
/// order with no unused entries, and the whole fails exactly when the
/// predicate needs more than 256 distinct leaves or more than 256
/// distinct second-level blocks.
#[verifier::rlimit(100)]
pub fn generate<F: Fn(char) -> bool + Copy>(f: F) -> (r: Result<TrieData, TrieOverflow>)
    requires
        fn_total(f),
        fn_deterministic(f),
    ensures
        r is Err <==> (dedup(scan_words(f)).len() > 256 || dedup(block_words(f)).len() > 256),
        r matches Ok(d) ==> {
            &&& d.wf()
            &&& d.leaves@ == dedup(scan_words(f))
            &&& 1 <= d.leaves@.len() <= 256
            &&& d.level3_second@.len() == dedup(block_words(f)).len()
            &&& 1 <= d.level3_second@.len() <= 256
            &&& forall|v: int| 0 <= v < 0x110000 ==> #[trigger] d.spec_lookup(v) == code_member(f, v)
            &&& forall|i: int, j: int|
                0 <= i < j < d.leaves@.len() ==> d.leaves@[i] != d.leaves@[j]
            &&& forall|i: int, j: int|
                0 <= i < j < d.second_views().len() ==> d.second_views()[i] != d.second_views()[j]
            &&& leaf_referenced(d, d.leaves@.len() - 1)
            &&& exists|b: int|
                0 <= b < 256 && (#[trigger] d.level3_first@[b] as int) == d.level3_second@.len()
                    - 1
        },
{
    broadcast use vstd::arithmetic::div_mod::lemma_fundamental_div_mod;
    broadcast use vstd::arithmetic::div_mod::lemma_fundamental_div_mod_converse_mod;
    broadcast use vstd::arithmetic::div_mod::lemma_fundamental_div_mod_converse_div;

    let level1 = build_level1(f);
    let mut leaf_set = word_set_new();
    let level2 = match build_level2(f, &mut leaf_set) {
        Ok(x) => x,
        Err(e) => {
            return Err(e);
        },
    };
    let ghost lv992 = word_set_elems(leaf_set);
    let p = match build_level3(f, &mut leaf_set) {
        Ok(x) => x,
        Err(e) => {
            return Err(e);
        },
    };
    let first = p.0;
    let secv = p.1;
    let n = word_set_len(&leaf_set);
    let mut leaves: Vec<u64> = Vec::new();
    let mut i: usize = 0;
    proof {
        assert(leaves@ =~= word_set_elems(leaf_set).take(0));
    }
    while i < n
        invariant
            n == word_set_elems(leaf_set).len(),
            i <= n,
            leaves@ == word_set_elems(leaf_set).take(i as int),
        decreases n - i,
    {
        let w = word_set_get(&leaf_set, i);
        leaves.push(w);
        i = i + 1;
        proof {
            assert(leaves@ =~= word_set_elems(leaf_set).take(i as int));
        }
    }
    proof {
        assert(leaves@ =~= word_set_elems(leaf_set));
    }
    let d = TrieData { level1, level2, level3_first: first, level3_second: secv, leaves };
    proof {
        let lv = word_set_elems(leaf_set);
        let svs = d.second_views();
        assert(svs =~= Seq::new(secv@.len(), |q: int| secv@[q]@));
        lemma_dedup_distinct(scan_words(f));
        // The level-2 facts carry through the leaf pool's later growth.
        assert forall|k: int|
            0 <= k < 992 implies (#[trigger] d.level2@[k] as int) < lv.len() && lv[d.level2@[k]
            as int] == scan_words(f)[k] by {
            assert(d.level2 == level2);
            assert((level2@[k] as int) < lv992.len());
            assert(lv992[level2@[k] as int] == scan_words(f)[k]);
            assert(lv992 == lv.take(lv992.len() as int));
        }
        assert(d.wf());
        assert forall|v: int| 0 <= v < 0x110000 implies #[trigger] d.spec_lookup(v) == code_member(
            f,
            v,
        ) by {
            if v < 0x800 {
                let q = v / 64;
                let r = v % 64;
                assert(v == 64 * q + r && 0 <= r < 64 && 0 <= q < 32);
                assert(d.level1@[q] == word_at(f, 64 * q, 64));
                lemma_word_at_bits(f, 64 * q, 64, r as u64);
            } else if v < 0x10000 {
                let x = v - 0x800;
                let q = x / 64;
                let r = x % 64;
                assert(x == 64 * q + r && 0 <= r < 64 && 0 <= q < 992);
                assert(v == (32 + q) * 64 + r);
                assert(v % 64 == r);
                assert(scan_base(q) == 0x800 + 64 * q);
                assert(lv[d.level2@[q] as int] == scan_words(f)[q]);
                assert(scan_words(f)[q] == word_at(f, 0x800 + 64 * q, 64));
                lemma_word_at_bits(f, 0x800 + 64 * q, 64, r as u64);
                assert(0x800 + 64 * q + r == v);
            } else {
                let off = v - 0x10000;
                let q = off / 0x1000;
                let ss = off % 0x1000;
                assert(off == 0x1000 * q + ss && 0 <= ss < 0x1000 && 0 <= q < 256);
                let m = ss / 64;
                let r = ss % 64;
                assert(ss == 64 * m + r && 0 <= r < 64 && 0 <= m < 64);
                assert(off == (64 * q + m) * 64 + r);
                assert(off / 64 == 64 * q + m && off % 64 == r) by {
                    vstd::arithmetic::div_mod::lemma_fundamental_div_mod_converse_div(
                        off,
                        64,
                        64 * q + m,
                        r,
                    );
                }
                assert((off / 64) % 64 == m) by {
                    vstd::arithmetic::div_mod::lemma_fundamental_div_mod_converse_mod(
                        64 * q + m,
                        64,
                        q,
                        m,
                    );
                }
                assert(v == (1024 + 64 * q + m) * 64 + r);
                assert(v % 64 == r);
                assert(lv[svs[d.level3_first@[q] as int][m] as int] == block_words(f)[q][m]);
                assert(block_words(f)[q][m] == word_at(f, 0x10000 + 0x1000 * q + 64 * m, 64));
                lemma_word_at_bits(f, 0x10000 + 0x1000 * q + 64 * m, 64, r as u64);
                assert(0x10000 + 0x1000 * q + 64 * m + r == v);
            }
        }
    }
    Ok(d)
}

} // verus!
