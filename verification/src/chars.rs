//! Scalar-value arithmetic: the successor, predecessor and distance of
//! codepoints with the surrogate gap `[U+D800, U+DFFF]` skipped, and the
//! ascending sequence of scalar values that an inclusive span denotes.

use vstd::prelude::*;
use vstd::utf8::is_scalar;

verus! {

/// True of the codepoints in the UTF-16 surrogate gap, which no `char` holds.
pub open spec fn surrogate_code(v: int) -> bool {
    0xD800 <= v <= 0xDFFF
}

/// True of the codepoints that a `char` can hold.
pub open spec fn scalar_code(v: int) -> bool {
    0 <= v <= 0x10FFFF && !surrogate_code(v)
}

/// The scalar value after `v`, skipping the surrogate gap.
pub open spec fn succ_code(v: int) -> int {
    if v == 0xD7FF {
        0xE000
    } else {
        v + 1
    }
}

/// The scalar value before `v`, skipping the surrogate gap.
pub open spec fn pred_code(v: int) -> int {
    if v == 0xE000 {
        0xD7FF
    } else {
        v - 1
    }
}

/// How many scalar values lie in `[lo, hi]`: the raw count, less the
/// 0x800 surrogate codepoints whenever the span crosses the gap.
pub open spec fn span_len(lo: int, hi: int) -> int {
    if lo > hi {
        0
    } else if lo < 0xD800 && 0xDFFF < hi {
        hi - lo + 1 - 0x800
    } else {
        hi - lo + 1
    }
}

/// The `i`-th scalar value at or above `lo` (0-based), skipping the gap.
pub open spec fn code_at(lo: int, i: int) -> int {
    if lo + i < 0xD800 || lo > 0xDFFF {
        lo + i
    } else {
        lo + i + 0x800
    }
}

/// The ascending sequence of scalar values in `[lo, hi]`.
pub open spec fn codes(lo: int, hi: int) -> Seq<char> {
    Seq::new(span_len(lo, hi) as nat, |i: int| (code_at(lo, i) as u32) as char)
}

/// Each position of `codes(lo, hi)` holds the scalar value `code_at(lo, i)`,
/// and those values ascend strictly from `lo` to `hi`.
pub proof fn lemma_codes_index(lo: int, hi: int, i: int)
    requires
        scalar_code(lo),
        scalar_code(hi),
        0 <= i < span_len(lo, hi),
    ensures
        scalar_code(code_at(lo, i)),
        codes(lo, hi)[i] as u32 == code_at(lo, i),
        lo <= code_at(lo, i) <= hi,
        i > 0 ==> code_at(lo, i - 1) < code_at(lo, i),
{
    assert(scalar_code(code_at(lo, i)));
    assert((code_at(lo, i) as u32) as char as u32 == code_at(lo, i) as u32);
}

/// A scalar value `c` lies in `[lo, hi]` exactly when it appears in
/// `codes(lo, hi)`.
pub proof fn lemma_codes_contains(lo: int, hi: int, c: char)
    requires
        scalar_code(lo),
        scalar_code(hi),
    ensures
        codes(lo, hi).contains(c) <==> lo <= c as u32 <= hi,
{
    let v = c as u32 as int;
    if lo <= v <= hi {
        let i = if v < 0xD800 || lo > 0xDFFF {
            v - lo
        } else {
            v - lo - 0x800
        };
        assert(code_at(lo, i) == v);
        assert(0 <= i < span_len(lo, hi));
        lemma_codes_index(lo, hi, i);
        assert(codes(lo, hi)[i] == c);
    }
    if codes(lo, hi).contains(c) {
        let i = choose|i: int| 0 <= i < codes(lo, hi).len() && codes(lo, hi)[i] == c;
        lemma_codes_index(lo, hi, i);
    }
}

/// No scalar value lies strictly between a scalar value and its successor:
/// a character above `a` is at or above `succ_code(a)`.
pub proof fn lemma_step_up(a: int, c: char)
    requires
        scalar_code(a),
        a < c as u32,
    ensures
        succ_code(a) <= c as u32,
{
}

/// No scalar value lies strictly between a scalar value and its
/// predecessor: a character below `b` is at or below `pred_code(b)`.
pub proof fn lemma_step_down(b: int, c: char)
    requires
        scalar_code(b),
        (c as u32) < b,
    ensures
        c as u32 <= pred_code(b),
{
}

/// Exec successor of a `char`, skipping the surrogate gap.
pub fn char_succ(c: char) -> (r: char)
    requires
        c != '\u{10FFFF}',
    ensures
        r as u32 == succ_code(c as u32 as int),
{
    if c == '\u{D7FF}' {
        '\u{E000}'
    } else {
        let v = c as u32 + 1;
        assert(is_scalar(v)) by {
            vstd::utf8::char_is_scalar(c);
        }
        from_u32_checked(v).unwrap()
    }
}

/// Exec predecessor of a `char`, skipping the surrogate gap.
pub fn char_pred(c: char) -> (r: char)
    requires
        c != '\0',
    ensures
        r as u32 == pred_code(c as u32 as int),
{
    if c == '\u{E000}' {
        '\u{D7FF}'
    } else {
        let v = c as u32 - 1;
        assert(is_scalar(v)) by {
            vstd::utf8::char_is_scalar(c);
        }
        from_u32_checked(v).unwrap()
    }
}

/// Relies on `char::from_u32`: it returns the `char` with the given scalar
/// value, and `None` exactly on surrogates and values above `U+10FFFF`.
#[verifier::external_body]
pub fn from_u32_checked(v: u32) -> (r: Option<char>)
    ensures
        r.is_some() <==> is_scalar(v),
        r matches Some(c) ==> c as u32 == v,
{
    char::from_u32(v)
}

} // verus!
