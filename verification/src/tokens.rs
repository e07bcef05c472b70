//! Splitting attribute values into tokens, trimming, and reading decimal
//! numbers, each token carrying its own span in the source.
use vstd::prelude::*;
use vstd::utf8::{encode_utf8, valid_utf8};
use crate::model::{ByteSpan, Spanned};
use crate::text::{bytes_of, is_digit, is_ws, slice_text, text_of, lemma_str_valid, lemma_ascii_is_boundary, lemma_after_ascii_is_boundary, lemma_ends_are_boundaries};

verus! {

/// `x` as a span offset, held at the largest offset when it does not fit.
pub open spec fn sat(x: int) -> u32 {
    if x > u32::MAX { u32::MAX } else if x < 0 { 0 } else { x as u32 }
}

/// `a + b`, held at the largest offset when it does not fit.
pub fn sat_add(a: u32, b: usize) -> (r: u32)
    ensures
        r == sat(a + b),
{
    if b as u64 > (0xFFFF_FFFFu32 - a) as u64 {
        0xFFFF_FFFFu32
    } else {
        a + b as u32
    }
}

/// `out` holds one spanned string per range of `b`: the text of the
/// range, spanned from `base` plus its ends.
pub open spec fn tokens_realized(out: Seq<Spanned<String>>, ranges: Seq<(int, int)>, b: Seq<u8>, base: int) -> bool {
    &&& out.len() == ranges.len()
    &&& forall|k: int|
        0 <= k < out.len() ==> {
            &&& (#[trigger] out[k]).value@ == text_of(b, ranges[k].0, ranges[k].1)
            &&& out[k].span == (ByteSpan { start: sat(base + ranges[k].0), end: sat(base + ranges[k].1) })
        }
}

/// A separator of name lists: `,`, `;`, or ASCII whitespace.
pub open spec fn is_name_sep(c: u8) -> bool {
    c == 0x2Cu8 || c == 0x3Bu8 || is_ws(c)
}

/// The maximal runs of non-separators of `b` from `i` (`cur` is where the
/// current run began, if inside one).
pub open spec fn name_runs(b: Seq<u8>, i: int, cur: Option<int>) -> Seq<(int, int)>
    decreases b.len() - i,
{
    if i < 0 || i >= b.len() {
        match cur {
            Some(s) => seq![(s, b.len() as int)],
            None => Seq::empty(),
        }
    } else if is_name_sep(b[i]) {
        match cur {
            Some(s) => seq![(s, i)] + name_runs(b, i + 1, None),
            None => name_runs(b, i + 1, None),
        }
    } else {
        name_runs(b, i + 1, if cur is None { Some(i) } else { cur })
    }
}

pub open spec fn name_run_ok(b: Seq<u8>, r: (int, int)) -> bool {
    &&& 0 <= r.0 < r.1 <= b.len()
    &&& (r.0 == 0 || is_name_sep(b[r.0 - 1]))
    &&& (r.1 == b.len() || is_name_sep(b[r.1]))
}

pub proof fn lemma_name_runs_shape(b: Seq<u8>, i: int, cur: Option<int>)
    requires
        0 <= i <= b.len(),
        cur matches Some(s) ==> 0 <= s < i && (s == 0 || is_name_sep(b[s - 1])),
        cur is None ==> (i == 0 || is_name_sep(b[i - 1])),
    ensures
        forall|k: int| 0 <= k < name_runs(b, i, cur).len() ==> name_run_ok(b, #[trigger] name_runs(b, i, cur)[k]),
    decreases b.len() - i,
{
    if i < b.len() {
        if is_name_sep(b[i]) {
            lemma_name_runs_shape(b, i + 1, None);
            match cur {
                Some(s) => {
                    let rest = name_runs(b, i + 1, None);
                    assert(name_runs(b, i, cur) == seq![(s, i)] + rest);
                    assert forall|k: int| 0 <= k < name_runs(b, i, cur).len() implies name_run_ok(b, #[trigger] name_runs(b, i, cur)[k]) by {
                        if k > 0 {
                            assert(name_runs(b, i, cur)[k] == rest[k - 1]);
                        }
                    }
                },
                None => {
                    assert(name_runs(b, i, cur) == name_runs(b, i + 1, None));
                },
            }
        } else {
            let nc = if cur is None { Some(i) } else { cur };
            lemma_name_runs_shape(b, i + 1, nc);
            assert(name_runs(b, i, cur) == name_runs(b, i + 1, nc));
        }
    } else {
        if let Some(s) = cur {
            assert(name_runs(b, i, cur) =~= seq![(s, b.len() as int)]);
        }
    }
}

pub proof fn lemma_text_nonempty(b: Seq<u8>, s: int, e: int)
    requires
        0 <= s < e <= b.len(),
        valid_utf8(b.subrange(s, e)),
    ensures
        text_of(b, s, e).len() > 0,
{
    vstd::utf8::decode_utf8_encode_utf8(b.subrange(s, e));
    if text_of(b, s, e).len() == 0 {
        assert(text_of(b, s, e) =~= Seq::<char>::empty());
        assert(encode_utf8(Seq::<char>::empty()) =~= Seq::<u8>::empty());
    }
}

/// Splits `text` (spanning from `span.start`) on `,`, `;` and ASCII
/// whitespace into its non-empty tokens, each with its own span.
pub fn split_name_tokens(text: &str, span: ByteSpan) -> (r: Vec<Spanned<String>>)
    ensures
        tokens_realized(r@, name_runs(bytes_of(text), 0, None), bytes_of(text), span.start as int),
        forall|k: int| 0 <= k < r@.len() ==> (#[trigger] r@[k]).value@.len() > 0,
{
    proof { lemma_str_valid(text); }
    let bytes = text.as_bytes();
    let ghost b = bytes@;
    let n = bytes.len();
    let mut out: Vec<Spanned<String>> = Vec::new();
    let mut i: usize = 0;
    let mut cur: Option<usize> = None;
    let ghost mut done: Seq<(int, int)> = Seq::empty();
    proof { lemma_name_runs_shape(b, 0, None); }
    while i < n
        invariant
            b == bytes@,
            b == bytes_of(text),
            n == b.len(),
            valid_utf8(b),
            i <= n,
            cur matches Some(s) ==> s < i && (s == 0 || is_name_sep(b[s - 1])),
            cur is None ==> (i == 0 || is_name_sep(b[i - 1])),
            name_runs(b, 0, None) == done + name_runs(b, i as int, match cur { Some(s) => Some(s as int), None => None }),
            tokens_realized(out@, done, b, span.start as int),
            forall|k: int| 0 <= k < out@.len() ==> (#[trigger] out@[k]).value@.len() > 0,
        decreases n - i,
    {
        let c = bytes[i];
        let sep = c == 0x2Cu8 || c == 0x3Bu8 || c == 0x20u8 || c == 0x09u8 || c == 0x0Au8 || c == 0x0Cu8 || c == 0x0Du8;
        if sep {
            if let Some(s) = cur {
                proof {
                    lemma_ascii_is_boundary(b, i as int);
                    if s > 0 {
                        lemma_after_ascii_is_boundary(b, s - 1);
                    } else {
                        lemma_ends_are_boundaries(b);
                    }
                }
                let v = slice_text(text, s, i).unwrap();
                proof {
                    vstd::utf8::encode_utf8_valid_utf8(v@);
                    lemma_text_nonempty(b, s as int, i as int);
                }
                let t = Spanned { value: v, span: ByteSpan { start: sat_add(span.start, s), end: sat_add(span.start, i) } };
                let ghost o0 = out@;
                out.push(t);
                proof {
                    assert(name_runs(b, i as int, Some(s as int)) == seq![(s as int, i as int)] + name_runs(b, i + 1, None));
                    done = done.push((s as int, i as int));
                    assert forall|k: int| 0 <= k < out@.len() implies {
                        &&& (#[trigger] out@[k]).value@ == text_of(b, done[k].0, done[k].1)
                        &&& out@[k].span == (ByteSpan { start: sat(span.start + done[k].0), end: sat(span.start + done[k].1) })
                    } by {
                        if k < o0.len() {
                            assert(out@[k] == o0[k]);
                        }
                    }
                    assert(done.drop_last() + seq![(s as int, i as int)] =~= done);
                    assert(done.drop_last() + (seq![(s as int, i as int)] + name_runs(b, i + 1, None)) =~= done + name_runs(b, i + 1, None));
                }
            }
            cur = None;
        } else {
            if cur.is_none() {
                cur = Some(i);
            }
        }
        i += 1;
    }
    if let Some(s) = cur {
        proof {
            lemma_ends_are_boundaries(b);
            if s > 0 {
                lemma_after_ascii_is_boundary(b, s - 1);
            }
        }
        let v = slice_text(text, s, n).unwrap();
        proof {
            vstd::utf8::encode_utf8_valid_utf8(v@);
            lemma_text_nonempty(b, s as int, n as int);
        }
        let t = Spanned { value: v, span: ByteSpan { start: sat_add(span.start, s), end: sat_add(span.start, n) } };
        let ghost o0 = out@;
        out.push(t);
        proof {
            done = done.push((s as int, n as int));
            assert forall|k: int| 0 <= k < out@.len() implies {
                &&& (#[trigger] out@[k]).value@ == text_of(b, done[k].0, done[k].1)
                &&& out@[k].span == (ByteSpan { start: sat(span.start + done[k].0), end: sat(span.start + done[k].1) })
            } by {
                if k < o0.len() {
                    assert(out@[k] == o0[k]);
                }
            }
            assert(done =~= name_runs(b, 0, None));
        }
    } else {
        proof {
            assert(done + Seq::<(int, int)>::empty() =~= done);
        }
    }
    out
}

/// Where ASCII whitespace at the front of `[s, e)` ends.
pub open spec fn ltrim(b: Seq<u8>, s: int, e: int) -> int
    decreases e - s,
{
    if s < e && is_ws(b[s]) {
        ltrim(b, s + 1, e)
    } else {
        s
    }
}

/// Where ASCII whitespace at the back of `[s, e)` begins.
pub open spec fn rtrim(b: Seq<u8>, s: int, e: int) -> int
    decreases e - s,
{
    if e > s && is_ws(b[e - 1]) {
        rtrim(b, s, e - 1)
    } else {
        e
    }
}

/// `[s, e)` without its surrounding ASCII whitespace.
pub open spec fn trimmed(b: Seq<u8>, s: int, e: int) -> (int, int) {
    let s2 = ltrim(b, s, e);
    (s2, rtrim(b, s2, e))
}

pub proof fn lemma_trim(b: Seq<u8>, s: int, e: int)
    requires
        0 <= s <= e <= b.len(),
    ensures
        s <= trimmed(b, s, e).0 <= trimmed(b, s, e).1 <= e,
        trimmed(b, s, e).0 == s || is_ws(b[trimmed(b, s, e).0 - 1]),
        trimmed(b, s, e).1 == e || is_ws(b[trimmed(b, s, e).1 as int]),
{
    lemma_ltrim(b, s, e);
    lemma_rtrim(b, ltrim(b, s, e), e);
}

proof fn lemma_ltrim(b: Seq<u8>, s: int, e: int)
    requires
        0 <= s <= e <= b.len(),
    ensures
        s <= ltrim(b, s, e) <= e,
        ltrim(b, s, e) == s || is_ws(b[ltrim(b, s, e) - 1]),
    decreases e - s,
{
    if s < e && is_ws(b[s]) {
        lemma_ltrim(b, s + 1, e);
    }
}

proof fn lemma_rtrim(b: Seq<u8>, s: int, e: int)
    requires
        0 <= s <= e <= b.len(),
    ensures
        s <= rtrim(b, s, e) <= e,
        rtrim(b, s, e) == e || is_ws(b[rtrim(b, s, e) as int]),
    decreases e - s,
{
    if e > s && is_ws(b[e - 1]) {
        lemma_rtrim(b, s, e - 1);
    }
}

fn trim_range(b: &[u8], s: usize, e: usize) -> (r: (usize, usize))
    requires
        s <= e <= b@.len(),
    ensures
        r.0 as int == trimmed(b@, s as int, e as int).0,
        r.1 as int == trimmed(b@, s as int, e as int).1,
{
    let mut x = s;
    while x < e && crate::text::byte_is_ws(b[x])
        invariant
            s <= x <= e <= b@.len(),
            ltrim(b@, s as int, e as int) == ltrim(b@, x as int, e as int),
        decreases e - x,
    {
        x += 1;
    }
    let mut y = e;
    while y > x && crate::text::byte_is_ws(b[y - 1])
        invariant
            x <= y <= e <= b@.len(),
            rtrim(b@, x as int, e as int) == rtrim(b@, x as int, y as int),
        decreases y - x,
    {
        y -= 1;
    }
    (x, y)
}

/// The comma-separated pieces of `b` from `i` (the current piece began at
/// `start`), each trimmed of ASCII whitespace; empty ones are dropped.
pub open spec fn comma_pieces(b: Seq<u8>, i: int, start: int) -> Seq<(int, int)>
    decreases b.len() + 1 - i,
{
    if i < 0 || i > b.len() {
        Seq::empty()
    } else if i == b.len() || b[i] == 0x2Cu8 {
        let t = trimmed(b, start, i);
        (if t.1 > t.0 { seq![t] } else { Seq::empty() }) + comma_pieces(b, i + 1, i + 1)
    } else {
        comma_pieces(b, i + 1, start)
    }
}

/// Splits `text` (spanning from `span.start`) on `,` only into its
/// non-empty pieces, each trimmed of ASCII whitespace and carrying its own
/// span.
pub fn split_comma_list(text: &str, span: ByteSpan) -> (r: Vec<Spanned<String>>)
    ensures
        tokens_realized(r@, comma_pieces(bytes_of(text), 0, 0), bytes_of(text), span.start as int),
{
    proof { lemma_str_valid(text); }
    let bytes = text.as_bytes();
    let ghost b = bytes@;
    let n = bytes.len();
    let mut out: Vec<Spanned<String>> = Vec::new();
    let mut start: usize = 0;
    let mut i: usize = 0;
    let ghost mut done: Seq<(int, int)> = Seq::empty();
    loop
        invariant_except_break
            comma_pieces(b, 0, 0) == done + comma_pieces(b, i as int, start as int),
        invariant
            b == bytes@,
            b == bytes_of(text),
            n == b.len(),
            valid_utf8(b),
            start <= i <= n,
            start == 0 || b[start - 1] == 0x2Cu8,
            tokens_realized(out@, done, b, span.start as int),
        ensures
            comma_pieces(b, 0, 0) == done,
            tokens_realized(out@, done, b, span.start as int),
        decreases n - i, (if i == n { 1int } else { 0int }),
    {
        let at_end = i == n;
        if at_end || bytes[i] == 0x2Cu8 {
            let (x, y) = trim_range(bytes, start, i);
            proof {
                lemma_trim(b, start as int, i as int);
                assert(comma_pieces(b, i as int, start as int) == (if y > x { seq![(x as int, y as int)] } else { Seq::<(int, int)>::empty() }) + comma_pieces(b, i + 1, i + 1));
            }
            if y > x {
                proof {
                    if x == start {
                        if start > 0 {
                            lemma_after_ascii_is_boundary(b, start - 1);
                        } else {
                            lemma_ends_are_boundaries(b);
                        }
                    } else {
                        lemma_after_ascii_is_boundary(b, x - 1);
                    }
                    if y == i {
                        if i == n {
                            lemma_ends_are_boundaries(b);
                        } else {
                            lemma_ascii_is_boundary(b, i as int);
                        }
                    } else {
                        lemma_ascii_is_boundary(b, y as int);
                    }
                }
                let v = slice_text(text, x, y).unwrap();
                let t = Spanned { value: v, span: ByteSpan { start: sat_add(span.start, x), end: sat_add(span.start, y) } };
                let ghost o0 = out@;
                out.push(t);
                proof {
                    let d0 = done;
                    done = done.push((x as int, y as int));
                    assert forall|k: int| 0 <= k < out@.len() implies {
                        &&& (#[trigger] out@[k]).value@ == text_of(b, done[k].0, done[k].1)
                        &&& out@[k].span == (ByteSpan { start: sat(span.start + done[k].0), end: sat(span.start + done[k].1) })
                    } by {
                        if k < o0.len() {
                            assert(out@[k] == o0[k]);
                        }
                    }
                    assert(d0 + (seq![(x as int, y as int)] + comma_pieces(b, i + 1, i + 1)) =~= done + comma_pieces(b, i + 1, i + 1));
                }
            } else {
                proof {
                    assert(done + (Seq::<(int, int)>::empty() + comma_pieces(b, i + 1, i + 1)) =~= done + comma_pieces(b, i + 1, i + 1));
                }
            }
            if at_end {
                proof {
                    assert(comma_pieces(b, i + 1, i + 1) =~= Seq::<(int, int)>::empty());
                    assert(done + Seq::<(int, int)>::empty() =~= done);
                }
                break;
            }
            start = i + 1;
        }
        i += 1;
    }
    out
}

/// `t` without surrounding ASCII whitespace, if anything is left; its span
/// is narrowed to match only when it was exactly the text's own length.
pub open spec fn trimmed_of(v: Seq<char>, sp: ByteSpan) -> Option<(Seq<char>, ByteSpan)> {
    let b = encode_utf8(v);
    let r = trimmed(b, 0, b.len() as int);
    if r.1 <= r.0 {
        None
    } else {
        Some((
            text_of(b, r.0, r.1),
            if sp.start <= sp.end && sp.end - sp.start == b.len() {
                ByteSpan { start: sat(sp.start + r.0), end: sat(sp.start + r.1) }
            } else {
                sp
            },
        ))
    }
}

pub open spec fn trimmed_text(t: Spanned<String>) -> Option<(Seq<char>, ByteSpan)> {
    trimmed_of(t.value@, t.span)
}

/// Trims ASCII whitespace off a text (see `trimmed_text`); nothing when
/// only whitespace is left.
pub fn non_empty_trimmed(text: Spanned<String>) -> (r: Option<Spanned<String>>)
    ensures
        match trimmed_text(text) {
            Some((v, sp)) => r matches Some(x) && x.value@ == v && x.span == sp,
            None => r is None,
        },
{
    let s = text.value.as_str();
    proof { lemma_str_valid(s); }
    let b = s.as_bytes();
    let n = b.len();
    let (x, y) = trim_range(b, 0, n);
    proof { lemma_trim(b@, 0, n as int); }
    if y <= x {
        return None;
    }
    proof {
        if x == 0 {
            lemma_ends_are_boundaries(b@);
        } else {
            lemma_after_ascii_is_boundary(b@, x - 1);
        }
        if y == n {
            lemma_ends_are_boundaries(b@);
        } else {
            lemma_ascii_is_boundary(b@, y as int);
        }
    }
    let v = slice_text(s, x, y).unwrap();
    let span = if text.span.start <= text.span.end && (text.span.end - text.span.start) as usize == n {
        ByteSpan { start: sat_add(text.span.start, x), end: sat_add(text.span.start, y) }
    } else {
        text.span
    };
    Some(Spanned { value: v, span })
}

pub open spec fn all_digits(d: Seq<u8>) -> bool {
    forall|i: int| 0 <= i < d.len() ==> is_digit(#[trigger] d[i])
}

/// The number the decimal digits `d` write.
pub open spec fn digits_value(d: Seq<u8>) -> int
    decreases d.len(),
{
    if d.len() == 0 {
        0
    } else {
        digits_value(d.drop_last()) * 10 + (d.last() - 0x30u8)
    }
}

/// A `u32` written in decimal, with an optional leading `+`, as the
/// standard library reads one.
pub open spec fn u32_of(b: Seq<u8>) -> Option<u32> {
    let d = if b.len() > 0 && b[0] == 0x2Bu8 { b.subrange(1, b.len() as int) } else { b };
    if d.len() > 0 && all_digits(d) && digits_value(d) <= u32::MAX {
        Some(digits_value(d) as u32)
    } else {
        None
    }
}

proof fn lemma_digits_nonneg(d: Seq<u8>)
    requires
        all_digits(d),
    ensures
        digits_value(d) >= 0,
    decreases d.len(),
{
    if d.len() > 0 {
        assert(all_digits(d.drop_last()));
        lemma_digits_nonneg(d.drop_last());
        assert(is_digit(d[d.len() - 1]));
    }
}

proof fn lemma_digits_grow(d: Seq<u8>, i: int)
    requires
        all_digits(d),
        0 <= i <= d.len(),
    ensures
        digits_value(d.subrange(0, i)) <= digits_value(d),
    decreases d.len() - i,
{
    if i < d.len() {
        lemma_digits_grow(d, i + 1);
        let p = d.subrange(0, i + 1);
        assert(p.drop_last() =~= d.subrange(0, i));
        assert(all_digits(d.subrange(0, i)));
        lemma_digits_nonneg(d.subrange(0, i));
        assert(is_digit(d[i]));
    } else {
        assert(d.subrange(0, i) =~= d);
    }
}

/// Reads the decimal digits `d[from..]` as a `u32`, if they all are
/// digits, there is at least one, and the number fits.
pub fn digits_u32(d: &[u8], from: usize) -> (r: Option<u32>)
    requires
        from <= d@.len(),
    ensures
        ({
            let x = d@.subrange(from as int, d@.len() as int);
            if x.len() > 0 && all_digits(x) && digits_value(x) <= u32::MAX {
                r == Some(digits_value(x) as u32)
            } else {
                r is None
            }
        }),
{
    let ghost x = d@.subrange(from as int, d@.len() as int);
    let n = d.len();
    if from >= n {
        return None;
    }
    let mut v: u64 = 0;
    let mut i = from;
    while i < n
        invariant
            from <= i <= n,
            n == d@.len(),
            x == d@.subrange(from as int, n as int),
            all_digits(x.subrange(0, i - from)),
            v as int == digits_value(x.subrange(0, i - from)),
            v <= u32::MAX,
        decreases n - i,
    {
        let c = d[i];
        if !(0x30u8 <= c && c <= 0x39u8) {
            proof {
                assert(!is_digit(x[i - from]));
            }
            return None;
        }
        let nv = v * 10 + (c - 0x30u8) as u64;
        proof {
            assert(x.subrange(0, i - from + 1).drop_last() =~= x.subrange(0, i - from));
            assert(x.subrange(0, i - from + 1).last() == c);
            assert(all_digits(x.subrange(0, i - from + 1)));
        }
        if nv > 0xFFFF_FFFFu64 {
            proof {
                if all_digits(x) {
                    lemma_digits_grow(x, i - from + 1);
                }
            }
            return None;
        }
        v = nv;
        i += 1;
    }
    proof {
        assert(x.subrange(0, n - from) =~= x);
    }
    Some(v as u32)
}

/// `str::parse::<u32>`: decimal digits with an optional leading `+`.
pub fn parse_u32(s: &str) -> (r: Option<u32>)
    ensures
        r == u32_of(bytes_of(s)),
{
    let b = s.as_bytes();
    if b.len() > 0 && b[0] == 0x2Bu8 {
        digits_u32(b, 1)
    } else {
        proof {
            assert(b@.subrange(0, b@.len() as int) =~= b@);
        }
        digits_u32(b, 0)
    }
}


/// What every piece `(x, y)` of a comma list over `b` is: a non-empty
/// range inside `b`, holding no comma, starting and ending on a byte that
/// is not ASCII whitespace, and bordered by ASCII bytes (or the ends).
pub open spec fn comma_piece_shape(b: Seq<u8>, x: int, y: int) -> bool {
    &&& 0 <= x < y <= b.len()
    &&& !is_ws(b[x])
    &&& !is_ws(b[y - 1])
    &&& forall|j: int| x <= j < y ==> #[trigger] b[j] != 0x2Cu8
    &&& x == 0 || b[x - 1] < 0x80u8
    &&& y == b.len() || b[y] < 0x80u8
}

proof fn lemma_ltrim_shape(b: Seq<u8>, s: int, e: int)
    requires
        0 <= s <= e <= b.len(),
    ensures
        s <= ltrim(b, s, e) <= e,
        ltrim(b, s, e) == e || !is_ws(b[ltrim(b, s, e)]),
        forall|j: int| s <= j < ltrim(b, s, e) ==> is_ws(#[trigger] b[j]),
    decreases e - s,
{
    if s < e && is_ws(b[s]) {
        lemma_ltrim_shape(b, s + 1, e);
    }
}

proof fn lemma_rtrim_shape(b: Seq<u8>, s: int, e: int)
    requires
        0 <= s <= e <= b.len(),
    ensures
        s <= rtrim(b, s, e) <= e,
        rtrim(b, s, e) == s || !is_ws(b[rtrim(b, s, e) - 1]),
        forall|j: int| rtrim(b, s, e) <= j < e ==> is_ws(#[trigger] b[j]),
    decreases e - s,
{
    if e > s && is_ws(b[e - 1]) {
        lemma_rtrim_shape(b, s, e - 1);
    }
}

proof fn lemma_comma_pieces_shape(b: Seq<u8>, i: int, start: int)
    requires
        0 <= start <= i <= b.len(),
        forall|j: int| start <= j < i ==> #[trigger] b[j] != 0x2Cu8,
        start == 0 || b[start - 1] == 0x2Cu8,
    ensures
        forall|k: int| 0 <= k < comma_pieces(b, i, start).len() ==> comma_piece_shape(b, #[trigger] comma_pieces(b, i, start)[k].0, comma_pieces(b, i, start)[k].1),
    decreases b.len() + 1 - i,
{
    if i == b.len() || b[i] == 0x2Cu8 {
        let t = trimmed(b, start, i);
        lemma_ltrim_shape(b, start, i);
        lemma_rtrim_shape(b, t.0, i);
        let head: Seq<(int, int)> = if t.1 > t.0 { seq![t] } else { Seq::empty() };
        if t.1 > t.0 {
            assert(comma_piece_shape(b, t.0, t.1)) by {
                if t.0 != start {
                    assert(is_ws(b[t.0 - 1]));
                }
                if t.1 != i {
                    assert(is_ws(b[t.1 as int]));
                }
            }
        }
        let rest = comma_pieces(b, i + 1, i + 1);
        if i < b.len() {
            lemma_comma_pieces_shape(b, i + 1, i + 1);
        } else {
            assert(rest =~= Seq::<(int, int)>::empty());
        }
        assert(comma_pieces(b, i, start) == head + rest);
        assert forall|k: int| 0 <= k < (head + rest).len() implies comma_piece_shape(b, #[trigger] (head + rest)[k].0, (head + rest)[k].1) by {
            if k >= head.len() {
                assert((head + rest)[k] == rest[k - head.len()]);
            }
        }
    } else {
        lemma_comma_pieces_shape(b, i + 1, start);
        assert(comma_pieces(b, i, start) == comma_pieces(b, i + 1, start));
    }
}

/// Every piece of a comma list over `b` has the shape `comma_piece_shape`
/// states.
pub proof fn lemma_comma_list_pieces(b: Seq<u8>)
    ensures
        forall|k: int| 0 <= k < comma_pieces(b, 0, 0).len() ==> comma_piece_shape(b, #[trigger] comma_pieces(b, 0, 0)[k].0, comma_pieces(b, 0, 0)[k].1),
{
    lemma_comma_pieces_shape(b, 0, 0);
}


proof fn lemma_comma_pieces_order(b: Seq<u8>, i: int, start: int)
    requires
        0 <= start <= i <= b.len(),
    ensures
        forall|k: int| 0 <= k < comma_pieces(b, i, start).len() ==> start <= #[trigger] comma_pieces(b, i, start)[k].0,
        forall|k1: int, k2: int|
            0 <= k1 < k2 < comma_pieces(b, i, start).len() ==> #[trigger] comma_pieces(b, i, start)[k1].1 < #[trigger] comma_pieces(b, i, start)[k2].0,
        forall|j: int|
            start <= j < b.len() && b[j] != 0x2Cu8 && !is_ws(b[j]) ==> exists|k: int|
                0 <= k < comma_pieces(b, i, start).len() && #[trigger] comma_pieces(b, i, start)[k].0 <= j < comma_pieces(b, i, start)[k].1,
    decreases b.len() + 1 - i,
{
    let ps = comma_pieces(b, i, start);
    if i == b.len() || b[i] == 0x2Cu8 {
        let t = trimmed(b, start, i);
        lemma_ltrim_shape(b, start, i);
        lemma_rtrim_shape(b, t.0, i);
        let head: Seq<(int, int)> = if t.1 > t.0 { seq![t] } else { Seq::empty() };
        let rest = comma_pieces(b, i + 1, i + 1);
        if i < b.len() {
            lemma_comma_pieces_order(b, i + 1, i + 1);
        } else {
            assert(rest =~= Seq::<(int, int)>::empty());
        }
        assert(ps == head + rest);
        assert forall|k: int| 0 <= k < ps.len() implies start <= #[trigger] ps[k].0 by {
            if k >= head.len() {
                assert(ps[k] == rest[k - head.len()]);
            }
        }
        assert forall|k1: int, k2: int| 0 <= k1 < k2 < ps.len() implies #[trigger] ps[k1].1 < #[trigger] ps[k2].0 by {
            if k1 >= head.len() {
                assert(ps[k1] == rest[k1 - head.len()]);
            }
            assert(ps[k2] == rest[k2 - head.len()]);
        }
        assert forall|j: int|
            start <= j < b.len() && b[j] != 0x2Cu8 && !is_ws(b[j]) implies exists|k: int|
                0 <= k < ps.len() && #[trigger] ps[k].0 <= j < ps[k].1 by {
            if j < i {
                assert(t.0 <= j) by {
                    if j < t.0 {
                        assert(is_ws(b[j]));
                    }
                }
                assert(j < t.1) by {
                    if j >= t.1 {
                        assert(is_ws(b[j]));
                    }
                }
                assert(ps[0] == t);
            } else {
                assert(j != i);
                let k = choose|k: int| 0 <= k < rest.len() && #[trigger] rest[k].0 <= j < rest[k].1;
                assert(ps[k + head.len()] == rest[k]);
            }
        }
    } else {
        lemma_comma_pieces_order(b, i + 1, start);
        assert(ps == comma_pieces(b, i + 1, start));
    }
}

/// A comma list over `b` keeps every byte that is neither a comma nor
/// ASCII whitespace inside some piece, and its pieces come in order
/// without overlap.
pub proof fn lemma_comma_list_cover(b: Seq<u8>)
    ensures
        forall|k1: int, k2: int|
            0 <= k1 < k2 < comma_pieces(b, 0, 0).len() ==> #[trigger] comma_pieces(b, 0, 0)[k1].1 < #[trigger] comma_pieces(b, 0, 0)[k2].0,
        forall|j: int|
            0 <= j < b.len() && b[j] != 0x2Cu8 && !is_ws(b[j]) ==> exists|k: int|
                0 <= k < comma_pieces(b, 0, 0).len() && #[trigger] comma_pieces(b, 0, 0)[k].0 <= j < comma_pieces(b, 0, 0)[k].1,
{
    lemma_comma_pieces_order(b, 0, 0);
}


pub open spec fn run_floor(i: int, cur: Option<int>) -> int {
    match cur {
        Some(s) => s,
        None => i,
    }
}

proof fn lemma_name_runs_full(b: Seq<u8>, i: int, cur: Option<int>)
    requires
        0 <= i <= b.len(),
        cur matches Some(s) ==> 0 <= s < i && forall|j: int| s <= j < i ==> !is_name_sep(#[trigger] b[j]),
    ensures
        forall|k: int, j: int|
            0 <= k < name_runs(b, i, cur).len() && #[trigger] name_runs(b, i, cur)[k].0 <= j < name_runs(b, i, cur)[k].1 ==> !is_name_sep(#[trigger] b[j]),
        forall|k: int| 0 <= k < name_runs(b, i, cur).len() ==> run_floor(i, cur) <= #[trigger] name_runs(b, i, cur)[k].0,
        forall|k1: int, k2: int|
            0 <= k1 < k2 < name_runs(b, i, cur).len() ==> #[trigger] name_runs(b, i, cur)[k1].1 < #[trigger] name_runs(b, i, cur)[k2].0,
        forall|j: int|
            run_floor(i, cur) <= j < b.len() && !is_name_sep(#[trigger] b[j]) ==> exists|k: int|
                0 <= k < name_runs(b, i, cur).len() && #[trigger] name_runs(b, i, cur)[k].0 <= j < name_runs(b, i, cur)[k].1,
    decreases b.len() - i,
{
    let rs = name_runs(b, i, cur);
    if i >= b.len() {
        if let Some(s) = cur {
            assert(rs =~= seq![(s, b.len() as int)]);
            assert forall|j: int| run_floor(i, cur) <= j < b.len() && !is_name_sep(#[trigger] b[j]) implies exists|k: int|
                0 <= k < rs.len() && #[trigger] rs[k].0 <= j < rs[k].1 by {
                assert(rs[0].0 <= j < rs[0].1);
            }
        }
    } else if is_name_sep(b[i]) {
        lemma_name_runs_full(b, i + 1, None);
        let rest = name_runs(b, i + 1, None);
        match cur {
            Some(s) => {
                assert(rs == seq![(s, i)] + rest);
                assert forall|k: int, j: int| 0 <= k < rs.len() && #[trigger] rs[k].0 <= j < rs[k].1 implies !is_name_sep(#[trigger] b[j]) by {
                    if k > 0 {
                        assert(rs[k] == rest[k - 1]);
                    }
                }
                assert forall|k: int| 0 <= k < rs.len() implies run_floor(i, cur) <= #[trigger] rs[k].0 by {
                    if k > 0 {
                        assert(rs[k] == rest[k - 1]);
                    }
                }
                assert forall|k1: int, k2: int| 0 <= k1 < k2 < rs.len() implies #[trigger] rs[k1].1 < #[trigger] rs[k2].0 by {
                    if k1 > 0 {
                        assert(rs[k1] == rest[k1 - 1]);
                    }
                    assert(rs[k2] == rest[k2 - 1]);
                }
                assert forall|j: int| run_floor(i, cur) <= j < b.len() && !is_name_sep(#[trigger] b[j]) implies exists|k: int|
                    0 <= k < rs.len() && #[trigger] rs[k].0 <= j < rs[k].1 by {
                    if j < i {
                        assert(rs[0].0 <= j < rs[0].1);
                    } else {
                        assert(j != i);
                        let k = choose|k: int| 0 <= k < rest.len() && #[trigger] rest[k].0 <= j < rest[k].1;
                        assert(rs[k + 1] == rest[k]);
                    }
                }
            },
            None => {
                assert(rs == rest);
            },
        }
    } else {
        let nc = if cur is None { Some(i) } else { cur };
        lemma_name_runs_full(b, i + 1, nc);
        assert(rs == name_runs(b, i + 1, nc));
    }
}

/// The name tokens of `b` are its maximal runs of non-separators, in
/// order: no separator (`,`, `;`, ASCII whitespace) inside a run, each run
/// bordered by separators or the ends, runs apart from each other, and
/// every other byte inside some run.
pub proof fn lemma_name_runs_maximal(b: Seq<u8>)
    ensures
        forall|k: int| 0 <= k < name_runs(b, 0, None).len() ==> name_run_ok(b, #[trigger] name_runs(b, 0, None)[k]),
        forall|k: int, j: int|
            0 <= k < name_runs(b, 0, None).len() && #[trigger] name_runs(b, 0, None)[k].0 <= j < name_runs(b, 0, None)[k].1 ==> !is_name_sep(#[trigger] b[j]),
        forall|k1: int, k2: int|
            0 <= k1 < k2 < name_runs(b, 0, None).len() ==> #[trigger] name_runs(b, 0, None)[k1].1 < #[trigger] name_runs(b, 0, None)[k2].0,
        forall|j: int|
            0 <= j < b.len() && !is_name_sep(#[trigger] b[j]) ==> exists|k: int|
                0 <= k < name_runs(b, 0, None).len() && #[trigger] name_runs(b, 0, None)[k].0 <= j < name_runs(b, 0, None)[k].1,
{
    lemma_name_runs_shape(b, 0, None);
    lemma_name_runs_full(b, 0, None);
}

} // verus!
