//! Byte- and character-level helpers over UTF-8 text: slicing by byte
//! offsets, literal comparison, and the ASCII character classes the
//! scanners stop on.
use vstd::prelude::*;
use vstd::utf8::*;
use vstd::string::*;
use crate::model::{ByteSpan, Spanned};

verus! {

/// The UTF-8 bytes of `s`.
pub open spec fn bytes_of(s: &str) -> Seq<u8> {
    s.spec_bytes()
}

/// The characters that the bytes `[start, end)` of `src` encode.
pub open spec fn text_of(src: Seq<u8>, start: int, end: int) -> Seq<char> {
    decode_utf8(src.subrange(start, end))
}

/// `[start, end)` lies inside `src` and both ends fall on character
/// boundaries.
pub open spec fn sliceable(src: Seq<u8>, start: int, end: int) -> bool {
    &&& 0 <= start <= end <= src.len()
    &&& is_char_boundary(src, start)
    &&& is_char_boundary(src, end)
}

/// A span of `src` that can be sliced.
pub open spec fn span_sliceable(src: Seq<u8>, sp: ByteSpan) -> bool {
    sliceable(src, sp.start as int, sp.end as int)
}

/// The span lies in `src` and the value is exactly the text there.
pub open spec fn grounded_text(src: Seq<u8>, s: Spanned<String>) -> bool {
    &&& span_sliceable(src, s.span)
    &&& s.value@ == text_of(src, s.span.start as int, s.span.end as int)
}

/// The ASCII whitespace bytes: space, tab, line feed, form feed, carriage
/// return.
pub open spec fn is_ws(b: u8) -> bool {
    b == 0x20u8 || b == 0x09u8 || b == 0x0Au8 || b == 0x0Cu8 || b == 0x0Du8
}

pub open spec fn is_digit(b: u8) -> bool {
    0x30u8 <= b <= 0x39u8
}

pub fn byte_is_ws(b: u8) -> (r: bool)
    ensures
        r == is_ws(b),
{
    b == 0x20u8 || b == 0x09u8 || b == 0x0Au8 || b == 0x0Cu8 || b == 0x0Du8
}

/// Two strings are equal exactly when their UTF-8 bytes are.
pub proof fn lemma_bytes_eq_iff_text_eq(a: &str, b: &str)
    ensures
        (bytes_of(a) == bytes_of(b)) <==> (a@ == b@),
{
    encode_utf8_decode_utf8(a@);
    encode_utf8_decode_utf8(b@);
}

/// Character equality of two strings, decided on their bytes.
pub fn str_eq(a: &str, b: &str) -> (r: bool)
    ensures
        r == (a@ == b@),
{
    let x = a.as_bytes();
    let y = b.as_bytes();
    proof {
        lemma_bytes_eq_iff_text_eq(a, b);
    }
    if x.len() != y.len() {
        return false;
    }
    let mut i: usize = 0;
    while i < x.len()
        invariant
            x@ == bytes_of(a),
            y@ == bytes_of(b),
            x@.len() == y@.len(),
            i <= x@.len(),
            forall|k: int| 0 <= k < i ==> x@[k] == y@[k],
        decreases x@.len() - i,
    {
        if x[i] != y[i] {
            return false;
        }
        i += 1;
    }
    assert(x@ =~= y@);
    true
}

/// `s` starts with the bytes of `prefix`.
pub open spec fn has_prefix(s: Seq<u8>, prefix: Seq<u8>) -> bool {
    prefix.len() <= s.len() && s.subrange(0, prefix.len() as int) == prefix
}

pub fn bytes_start_with(s: &[u8], prefix: &[u8]) -> (r: bool)
    ensures
        r == has_prefix(s@, prefix@),
{
    if prefix.len() > s.len() {
        return false;
    }
    let mut i: usize = 0;
    while i < prefix.len()
        invariant
            prefix@.len() <= s@.len(),
            i <= prefix@.len(),
            forall|k: int| 0 <= k < i ==> s@[k] == prefix@[k],
        decreases prefix@.len() - i,
    {
        if s[i] != prefix[i] {
            assert(s@.subrange(0, prefix@.len() as int)[i as int] != prefix@[i as int]);
            return false;
        }
        i += 1;
    }
    assert(s@.subrange(0, prefix@.len() as int) =~= prefix@);
    true
}

/// The text `src[start..end]` as an owned string, when both offsets fall
/// on character boundaries inside `src`; `None` otherwise.
pub fn slice_text(src: &str, start: usize, end: usize) -> (r: Option<String>)
    ensures
        r is Some <==> sliceable(bytes_of(src), start as int, end as int),
        r matches Some(t) ==> t@ == text_of(bytes_of(src), start as int, end as int),
        r matches Some(t) ==> encode_utf8(t@) == bytes_of(src).subrange(start as int, end as int),
{
    proof {
        encode_utf8_valid_utf8(src@);
        is_char_boundary_start_end_of_seq(bytes_of(src));
    }
    let all = src.as_bytes();
    if start > end || end > all.len() {
        return None;
    }
    if !src.is_char_boundary(start) || !src.is_char_boundary(end) {
        return None;
    }
    let (head, _tail) = src.split_at(end);
    proof {
        let b = bytes_of(src);
        valid_utf8_split(b, end as int);
        let hb = b.subrange(0, end as int);
        assert(bytes_of(head) =~= hb);
        // start is a boundary of the prefix as well
        assert(is_char_boundary(hb, start as int)) by {
            lemma_boundary_prefix(b, end as int, start as int);
        }
    }
    let (_pre, mid) = head.split_at(start);
    proof {
        let b = bytes_of(src);
        let hb = b.subrange(0, end as int);
        assert(bytes_of(mid) =~= b.subrange(start as int, end as int));
        encode_utf8_decode_utf8(mid@);
    }
    Some(mid.to_owned())
}

/// A character boundary of a valid sequence that lies inside a prefix
/// ending on a boundary is a boundary of that prefix too.
pub proof fn lemma_boundary_prefix(b: Seq<u8>, end: int, k: int)
    requires
        valid_utf8(b),
        is_char_boundary(b, end),
        is_char_boundary(b, k),
        0 <= k <= end <= b.len(),
    ensures
        is_char_boundary(b.subrange(0, end), k),
    decreases b.len(),
{
    let p = b.subrange(0, end);
    valid_utf8_split(b, end);
    if k == 0 {
    } else if k == end {
        is_char_boundary_start_end_of_seq(p);
    } else {
        is_char_boundary_iff_not_is_continuation_byte(b, k);
        is_char_boundary_iff_not_is_continuation_byte(p, k);
    }
}

/// An ASCII byte always starts a character.
pub proof fn lemma_ascii_is_boundary(b: Seq<u8>, k: int)
    requires
        valid_utf8(b),
        0 <= k < b.len(),
        b[k] < 0x80u8,
    ensures
        is_char_boundary(b, k),
{
    is_char_boundary_iff_not_is_continuation_byte(b, k);
}

/// The position right after an ASCII byte always starts a character (or
/// is the end).
pub proof fn lemma_after_ascii_is_boundary(b: Seq<u8>, k: int)
    requires
        valid_utf8(b),
        0 <= k < b.len(),
        b[k] < 0x80u8,
    ensures
        is_char_boundary(b, k + 1),
{
    if k + 1 == b.len() {
        is_char_boundary_start_end_of_seq(b);
    } else {
        is_char_boundary_iff_not_is_continuation_byte(b, k);
        valid_utf8_split(b, k);
        let tail = b.subrange(k, b.len() as int);
        assert(tail[0] == b[k]);
        reveal_with_fuel(is_char_boundary, 2);
        assert(is_char_boundary(tail, 1));
        is_char_boundary_iff_not_is_continuation_byte(tail, 1);
        assert(tail[1] == b[k + 1]);
        is_char_boundary_iff_not_is_continuation_byte(b, k + 1);
    }
}

/// The end and the start of a valid sequence are boundaries.
pub proof fn lemma_ends_are_boundaries(b: Seq<u8>)
    requires
        valid_utf8(b),
    ensures
        is_char_boundary(b, 0),
        is_char_boundary(b, b.len() as int),
{
    is_char_boundary_start_end_of_seq(b);
}

pub proof fn lemma_str_valid(s: &str)
    ensures
        valid_utf8(bytes_of(s)),
        is_char_boundary(bytes_of(s), 0),
        is_char_boundary(bytes_of(s), bytes_of(s).len() as int),
{
    encode_utf8_valid_utf8(s@);
    is_char_boundary_start_end_of_seq(bytes_of(s));
}


/// Between two character boundaries of valid UTF-8, the text encodes back
/// to exactly those bytes.
pub proof fn lemma_slice_roundtrip(b: Seq<u8>, x: int, y: int)
    requires
        valid_utf8(b),
        0 <= x <= y <= b.len(),
        is_char_boundary(b, x),
        is_char_boundary(b, y),
    ensures
        encode_utf8(text_of(b, x, y)) == b.subrange(x, y),
{
    valid_utf8_split(b, y);
    lemma_boundary_prefix(b, y, x);
    let p = b.subrange(0, y);
    valid_utf8_split(p, x);
    assert(p.subrange(x, p.len() as int) =~= b.subrange(x, y));
    decode_utf8_encode_utf8(b.subrange(x, y));
}

} // verus!
