//! Byte-level scanning primitives shared by the frame encoder and decoder:
//! first-occurrence search, blank-line search, trailing-whitespace trimming,
//! decimal digits, and ASCII case folding.

use vstd::prelude::*;

verus! {

/// Line feed, the only line terminator the wire format recognizes.
pub const LF: u8 = 10;
/// NUL, the frame terminator byte.
pub const NUL: u8 = 0;
/// Colon, separating a header name from its value.
pub const COLON: u8 = 58;

/// True when `b` occurs nowhere in `s`.
pub open spec fn lacks(s: Seq<u8>, b: u8) -> bool {
    forall|i: int| 0 <= i < s.len() ==> s[i] != b
}

/// Index of the first occurrence of `b` in `s` at or after `from`,
/// or `s.len()` when there is none.
pub open spec fn seek(s: Seq<u8>, b: u8, from: int) -> int
    decreases s.len() - from,
{
    if from < 0 {
        seek(s, b, 0)
    } else if from >= s.len() {
        s.len() as int
    } else if s[from] == b {
        from
    } else {
        seek(s, b, from + 1)
    }
}

/// What `seek` returns: the first hit at or after `from`, with no hit before it.
pub proof fn lemma_seek(s: Seq<u8>, b: u8, from: int)
    requires
        0 <= from <= s.len(),
    ensures
        from <= seek(s, b, from) <= s.len(),
        seek(s, b, from) < s.len() ==> s[seek(s, b, from)] == b,
        forall|i: int| from <= i < seek(s, b, from) ==> s[i] != b,
    decreases s.len() - from,
{
    if from < s.len() && s[from] != b {
        lemma_seek(s, b, from + 1);
    }
}

/// A position with no hit before it and a hit (or the end) at it is
/// exactly what `seek` returns.
pub proof fn lemma_seek_is(s: Seq<u8>, b: u8, from: int, at: int)
    requires
        0 <= from <= at <= s.len(),
        forall|i: int| from <= i < at ==> s[i] != b,
        at < s.len() ==> s[at] == b,
    ensures
        seek(s, b, from) == at,
    decreases at - from,
{
    if from < at {
        lemma_seek_is(s, b, from + 1, at);
    }
}

/// Truncating a buffer after a found occurrence does not move it; truncating
/// before it leaves nothing to find.
pub proof fn lemma_seek_take(s: Seq<u8>, b: u8, from: int, n: int)
    requires
        0 <= from <= n <= s.len(),
    ensures
        seek(s, b, from) < n ==> seek(s.take(n), b, from) == seek(s, b, from),
        seek(s, b, from) >= n ==> seek(s.take(n), b, from) == n,
{
    lemma_seek(s, b, from);
    let r = seek(s, b, from);
    if r < n {
        lemma_seek_is(s.take(n), b, from, r);
    } else {
        lemma_seek_is(s.take(n), b, from, n);
    }
}

/// Index of the first pair of consecutive line feeds in `s` at or after
/// `from`, or `s.len()` when there is none.
pub open spec fn seek_blank(s: Seq<u8>, from: int) -> int
    decreases s.len() - from,
{
    if from < 0 {
        seek_blank(s, 0)
    } else if from + 1 >= s.len() {
        s.len() as int
    } else if s[from] == LF && s[from + 1] == LF {
        from
    } else {
        seek_blank(s, from + 1)
    }
}

/// What `seek_blank` returns: the first line-feed pair at or after `from`,
/// with no pair before it.
pub proof fn lemma_seek_blank(s: Seq<u8>, from: int)
    requires
        0 <= from <= s.len(),
    ensures
        from <= seek_blank(s, from) <= s.len(),
        seek_blank(s, from) < s.len() ==> seek_blank(s, from) + 1 < s.len()
            && s[seek_blank(s, from)] == LF && s[seek_blank(s, from) + 1] == LF,
        forall|i: int|
            from <= i < seek_blank(s, from) && i + 1 < s.len()
                ==> !(#[trigger] s[i] == LF && s[i + 1] == LF),
    decreases s.len() - from,
{
    if from + 1 < s.len() && !(s[from] == LF && s[from + 1] == LF) {
        lemma_seek_blank(s, from + 1);
    }
}

/// A position with no line-feed pair before it and a pair (or no room for
/// one) at it is exactly what `seek_blank` returns.
pub proof fn lemma_seek_blank_is(s: Seq<u8>, from: int, at: int)
    requires
        0 <= from <= at <= s.len(),
        forall|i: int| from <= i < at && i + 1 < s.len() ==> !(#[trigger] s[i] == LF && s[i + 1] == LF),
        at < s.len() ==> at + 1 < s.len() && s[at] == LF && s[at + 1] == LF,
    ensures
        seek_blank(s, from) == at,
    decreases at - from,
{
    if from < at {
        lemma_seek_blank_is(s, from + 1, at);
    }
}

/// Truncating after a found line-feed pair does not move it; truncating
/// before it leaves nothing to find.
pub proof fn lemma_seek_blank_take(s: Seq<u8>, from: int, n: int)
    requires
        0 <= from <= n <= s.len(),
    ensures
        seek_blank(s, from) + 1 < n ==> seek_blank(s.take(n), from) == seek_blank(s, from),
        seek_blank(s, from) + 1 >= n ==> seek_blank(s.take(n), from) == n,
{
    lemma_seek_blank(s, from);
    let r = seek_blank(s, from);
    if r + 1 < n {
        lemma_seek_blank_is(s.take(n), from, r);
    } else {
        assert forall|i: int| from <= i < n && i + 1 < n implies
            !(#[trigger] s.take(n)[i] == LF && s.take(n)[i + 1] == LF) by {
            assert(s.take(n)[i] == s[i] && s.take(n)[i + 1] == s[i + 1]);
        }
        lemma_seek_blank_is(s.take(n), from, n);
    }
}

/// True for the whitespace bytes that are trimmed from the end of a command
/// line: space, horizontal tab, and carriage return.
pub open spec fn is_trailing_ws(b: u8) -> bool {
    b == 32 || b == 9 || b == 13
}

/// `s` without its trailing whitespace bytes.
pub open spec fn trim_end(s: Seq<u8>) -> Seq<u8>
    decreases s.len(),
{
    if s.len() > 0 && is_trailing_ws(s.last()) {
        trim_end(s.drop_last())
    } else {
        s
    }
}

/// Trimming ignores a wholly-whitespace tail: it gives the same result as
/// trimming the bytes before that tail.
pub proof fn lemma_trim_end_ws_tail(s: Seq<u8>, j: int)
    requires
        0 <= j <= s.len(),
        forall|k: int| j <= k < s.len() ==> is_trailing_ws(s[k]),
    ensures
        trim_end(s) == trim_end(s.take(j)),
    decreases s.len() - j,
{
    if j < s.len() {
        assert(is_trailing_ws(s.last()));
        assert(s.drop_last() == s.take(s.len() - 1));
        lemma_trim_end_ws_tail(s.take(s.len() - 1), j);
        assert(s.take(s.len() - 1).take(j) == s.take(j));
    } else {
        assert(s.take(j) == s);
    }
}

/// True for an ASCII decimal digit.
pub open spec fn is_digit(b: u8) -> bool {
    48 <= b <= 57
}

/// True when every byte of `s` is an ASCII decimal digit.
pub open spec fn all_digits(s: Seq<u8>) -> bool {
    forall|i: int| 0 <= i < s.len() ==> is_digit(s[i])
}

/// The number written in `s` read as decimal digits, most significant first.
/// Meaningful only when `all_digits(s)` holds.
pub open spec fn dec_num(s: Seq<u8>) -> int
    decreases s.len(),
{
    if s.len() == 0 {
        0
    } else {
        dec_num(s.drop_last()) * 10 + s.last() - 48
    }
}

/// The value a `content-length` header declares: the decimal reading of a
/// non-empty all-digit value, and nothing otherwise.
pub open spec fn content_length_value(s: Seq<u8>) -> Option<int> {
    if s.len() > 0 && all_digits(s) {
        Some(dec_num(s))
    } else {
        None
    }
}

/// A digit string reads as a non-negative number, and extending it can only
/// grow the number.
pub proof fn lemma_dec_num_grows(s: Seq<u8>, i: int)
    requires
        all_digits(s),
        0 <= i <= s.len(),
    ensures
        dec_num(s) >= dec_num(s.take(i)) >= 0,
    decreases s.len() - i,
{
    if i == 0 {
        assert(s.take(0) == Seq::<u8>::empty());
        lemma_dec_num_nonneg(s);
    } else if i < s.len() {
        lemma_dec_num_grows(s, i + 1);
        assert(s.take(i + 1).drop_last() == s.take(i));
        assert(is_digit(s.take(i + 1).last()));
        lemma_dec_num_nonneg(s.take(i));
    } else {
        assert(s.take(i) == s);
        lemma_dec_num_nonneg(s);
    }
}

/// The decimal reading of a digit string is never negative.
pub proof fn lemma_dec_num_nonneg(s: Seq<u8>)
    requires
        all_digits(s),
    ensures
        dec_num(s) >= 0,
    decreases s.len(),
{
    if s.len() > 0 {
        assert(all_digits(s.drop_last()));
        lemma_dec_num_nonneg(s.drop_last());
    }
}

/// `b` folded to ASCII lower case.
pub open spec fn ascii_lower(b: u8) -> u8 {
    if 65 <= b <= 90 {
        (b + 32) as u8
    } else {
        b
    }
}

/// True when `a` and `b` are equal up to ASCII case.
pub open spec fn ci_equal(a: Seq<u8>, b: Seq<u8>) -> bool {
    a.len() == b.len() && forall|i: int| 0 <= i < a.len() ==> ascii_lower(a[i]) == ascii_lower(b[i])
}

/// The bytes of the `content-length` header name.
pub open spec fn content_length_name() -> Seq<u8> {
    seq![99u8, 111u8, 110u8, 116u8, 101u8, 110u8, 116u8, 45u8, 108u8, 101u8, 110u8, 103u8, 116u8, 104u8]
}

/// The bytes of the `content-type` header name.
pub open spec fn content_type_name() -> Seq<u8> {
    seq![99u8, 111u8, 110u8, 116u8, 101u8, 110u8, 116u8, 45u8, 116u8, 121u8, 112u8, 101u8]
}

/// The decimal digits of `n`, most significant first.
pub open spec fn dec_repr(n: nat) -> Seq<u8>
    decreases n,
{
    if n < 10 {
        seq![(48 + n) as u8]
    } else {
        dec_repr(n / 10) + seq![(48 + n % 10) as u8]
    }
}

} // verus!
