//! Collecting `${..}` placeholder keys and `#{..}` bean-reference
//! candidates out of a literal, without evaluating either. Every matched
//! expression is also searched inside (a `#{..}`'s inner text with string
//! literals skipped), up to the depth limit; an unterminated one ends the
//! search.
use vstd::prelude::*;
use vstd::utf8::{decode_utf8, encode_utf8, valid_utf8};
use crate::braces::{braced_end, is_opener_at, scan_braced_expr, lemma_braced_end_range};
use crate::encoding::skip_white;
use crate::model::{ByteSpan, Spanned};
use crate::text::{bytes_of, slice_text, lemma_str_valid, lemma_ascii_is_boundary, lemma_after_ascii_is_boundary};
use crate::unicode::{char_is_alphabetic, char_is_alphanumeric, char_is_whitespace, unicode_alphabetic, unicode_alphanumeric};

verus! {

/// One thing found: whether it is a placeholder key (else a bean
/// candidate), its byte range, and its text.
pub type Finding = (bool, int, int, Seq<char>);

/// How far an identifier that continues at `j` runs: letters, digits,
/// `_` and `$`.
pub open spec fn ident_end(t: Seq<char>, j: int) -> int
    decreases t.len() - j,
{
    if 0 <= j < t.len() && (unicode_alphanumeric(t[j]) || t[j] == '_' || t[j] == '$') {
        ident_end(t, j + 1)
    } else {
        j
    }
}

/// The bean-name candidate a SpEL expression starts with (after
/// whitespace): a letter, `_` or `$`, then letters, digits, `_`, `$`.
pub open spec fn candidate_range(t: Seq<char>) -> Option<(int, int)> {
    let s = skip_white(t, 0);
    if s >= t.len() {
        None
    } else if !(unicode_alphabetic(t[s]) || t[s] == '_' || t[s] == '$') {
        None
    } else {
        Some((s, ident_end(t, s + 1)))
    }
}

/// The byte length of the first `k` characters of `t`.
pub open spec fn enc_len(t: Seq<char>, k: int) -> int {
    encode_utf8(t.subrange(0, k)).len() as int
}

/// What one matched expression with inner bytes `inner` (at `s`) yields
/// itself: a `${..}` its non-empty key, a `#{..}` its leading candidate.
pub open spec fn finding_here(is_dollar: bool, inner: Seq<u8>, s: int) -> Seq<Finding> {
    if is_dollar {
        if inner.len() > 0 {
            seq![(true, s, s + inner.len(), decode_utf8(inner))]
        } else {
            Seq::empty()
        }
    } else {
        let t = decode_utf8(inner);
        match candidate_range(t) {
            Some((x, y)) => seq![(false, s + enc_len(t, x), s + enc_len(t, y), t.subrange(x, y))],
            None => Seq::empty(),
        }
    }
}

pub open spec fn shift(fs: Seq<Finding>, s: int) -> Seq<Finding> {
    fs.map_values(|f: Finding| (f.0, f.1 + s, f.2 + s, f.3))
}

/// Everything found in `b` from `i` on, at nesting `depth`, with quotes
/// skipped when `qa`, inside the quote `quote` if any.
pub open spec fn harvest(b: Seq<u8>, i: int, depth: int, qa: bool, quote: Option<u8>) -> Seq<Finding>
    decreases b.len(), b.len() - i,
{
    if i < 0 || i >= b.len() {
        Seq::empty()
    } else {
        let c = b[i];
        if quote is Some {
            harvest(b, i + 1, depth, qa, if c == quote->0 { None } else { quote })
        } else if qa && (c == 0x27u8 || c == 0x22u8) {
            harvest(b, i + 1, depth, qa, Some(c))
        } else if !is_opener_at(b, i) {
            harvest(b, i + 1, depth, qa, None)
        } else {
            match braced_end(b, i) {
                None => Seq::empty(),
                Some(next) => {
                    if !(i + 2 <= next - 1 && next <= b.len()) {
                        Seq::empty()
                    } else {
                        let s = i + 2;
                        let inner = b.subrange(s, next - 1);
                        let nested = if depth < crate::DEPTH_LIMIT {
                            shift(harvest(inner, 0, depth + 1, c == 0x23u8, None), s)
                        } else {
                            Seq::empty()
                        };
                        finding_here(c == 0x24u8, inner, s) + nested + harvest(b, next, depth, qa, None)
                    }
                },
            }
        }
    }
}

/// The placeholder keys among the findings, in order.
pub open spec fn keys_of(fs: Seq<Finding>) -> Seq<Finding>
    decreases fs.len(),
{
    if fs.len() == 0 {
        Seq::empty()
    } else if fs.last().0 {
        keys_of(fs.drop_last()).push(fs.last())
    } else {
        keys_of(fs.drop_last())
    }
}

/// The bean candidates among the findings, in order.
pub open spec fn refs_of(fs: Seq<Finding>) -> Seq<Finding>
    decreases fs.len(),
{
    if fs.len() == 0 {
        Seq::empty()
    } else if !fs.last().0 {
        refs_of(fs.drop_last()).push(fs.last())
    } else {
        refs_of(fs.drop_last())
    }
}

/// `out` holds one spanned string per finding, with the finding's text and
/// its range moved by `base`.
pub open spec fn realized(out: Seq<Spanned<String>>, fs: Seq<Finding>, base: int) -> bool {
    &&& out.len() == fs.len()
    &&& forall|k: int|
        0 <= k < out.len() ==> {
            &&& (#[trigger] out[k]).value@ == fs[k].3
            &&& out[k].span == (ByteSpan { start: (base + fs[k].1) as u32, end: (base + fs[k].2) as u32 })
        }
}

/// `new` is `old` followed by what realizes `fs` at `base`.
pub open spec fn appended(old: Seq<Spanned<String>>, new: Seq<Spanned<String>>, fs: Seq<Finding>, base: int) -> bool {
    &&& old.len() <= new.len()
    &&& new.subrange(0, old.len() as int) == old
    &&& realized(new.subrange(old.len() as int, new.len() as int), fs, base)
}

pub proof fn lemma_keys_refs_concat(a: Seq<Finding>, b: Seq<Finding>)
    ensures
        keys_of(a + b) == keys_of(a) + keys_of(b),
        refs_of(a + b) == refs_of(a) + refs_of(b),
    decreases b.len(),
{
    if b.len() == 0 {
        assert(a + b =~= a);
        assert(keys_of(b) =~= Seq::<Finding>::empty());
        assert(refs_of(b) =~= Seq::<Finding>::empty());
        assert(keys_of(a) + keys_of(b) =~= keys_of(a));
        assert(refs_of(a) + refs_of(b) =~= refs_of(a));
    } else {
        lemma_keys_refs_concat(a, b.drop_last());
        assert((a + b).drop_last() =~= a + b.drop_last());
        assert((a + b).last() == b.last());
        if b.last().0 {
            assert(keys_of(a) + keys_of(b) =~= (keys_of(a) + keys_of(b.drop_last())).push(b.last()));
            assert(refs_of(a) + refs_of(b) =~= refs_of(a) + refs_of(b.drop_last()));
        } else {
            assert(refs_of(a) + refs_of(b) =~= (refs_of(a) + refs_of(b.drop_last())).push(b.last()));
            assert(keys_of(a) + keys_of(b) =~= keys_of(a) + keys_of(b.drop_last()));
        }
    }
}

pub proof fn lemma_keys_refs_shift(fs: Seq<Finding>, s: int)
    ensures
        keys_of(shift(fs, s)) == shift(keys_of(fs), s),
        refs_of(shift(fs, s)) == shift(refs_of(fs), s),
    decreases fs.len(),
{
    if fs.len() > 0 {
        lemma_keys_refs_shift(fs.drop_last(), s);
        assert(shift(fs, s).drop_last() =~= shift(fs.drop_last(), s));
        assert(shift(keys_of(fs.drop_last()), s).push((fs.last().0, fs.last().1 + s, fs.last().2 + s, fs.last().3))
            =~= shift(keys_of(fs.drop_last()).push(fs.last()), s));
        assert(shift(refs_of(fs.drop_last()), s).push((fs.last().0, fs.last().1 + s, fs.last().2 + s, fs.last().3))
            =~= shift(refs_of(fs.drop_last()).push(fs.last()), s));
    } else {
        assert(shift(fs, s) =~= Seq::<Finding>::empty());
        assert(shift(keys_of(fs), s) =~= Seq::<Finding>::empty());
        assert(shift(refs_of(fs), s) =~= Seq::<Finding>::empty());
    }
}

/// Realizing a shifted list at `base` is realizing the list at `base + s`.
pub proof fn lemma_realized_shift(out: Seq<Spanned<String>>, fs: Seq<Finding>, s: int, base: int)
    ensures
        realized(out, shift(fs, s), base) <==> realized(out, fs, base + s),
{
    if realized(out, fs, base + s) {
        assert forall|k: int| 0 <= k < out.len() implies {
            &&& (#[trigger] out[k]).value@ == shift(fs, s)[k].3
            &&& out[k].span == (ByteSpan {
                start: (base + shift(fs, s)[k].1) as u32,
                end: (base + shift(fs, s)[k].2) as u32,
            })
        } by {
            assert(base + shift(fs, s)[k].1 == base + s + fs[k].1);
        }
    }
    if realized(out, shift(fs, s), base) {
        assert forall|k: int| 0 <= k < out.len() implies {
            &&& (#[trigger] out[k]).value@ == fs[k].3
            &&& out[k].span == (ByteSpan { start: (base + s + fs[k].1) as u32, end: (base + s + fs[k].2) as u32 })
        } by {
            assert(shift(fs, s)[k] == (fs[k].0, fs[k].1 + s, fs[k].2 + s, fs[k].3));
        }
    }
}

/// Appending in two steps is appending the concatenation.
pub proof fn lemma_appended_trans(
    a: Seq<Spanned<String>>,
    b: Seq<Spanned<String>>,
    c: Seq<Spanned<String>>,
    f: Seq<Finding>,
    g: Seq<Finding>,
    base: int,
)
    requires
        appended(a, b, f, base),
        appended(b, c, g, base),
    ensures
        appended(a, c, f + g, base),
{
    assert(c.subrange(0, a.len() as int) =~= b.subrange(0, a.len() as int));
    let x = c.subrange(a.len() as int, c.len() as int);
    assert(x =~= b.subrange(a.len() as int, b.len() as int) + c.subrange(b.len() as int, c.len() as int));
    assert forall|k: int| 0 <= k < x.len() implies {
        &&& (#[trigger] x[k]).value@ == (f + g)[k].3
        &&& x[k].span == (ByteSpan { start: (base + (f + g)[k].1) as u32, end: (base + (f + g)[k].2) as u32 })
    } by {
        if k < f.len() {
            assert(x[k] == b.subrange(a.len() as int, b.len() as int)[k]);
        } else {
            assert(x[k] == c.subrange(b.len() as int, c.len() as int)[k - f.len()]);
        }
    }
}

pub proof fn lemma_appended_nothing(a: Seq<Spanned<String>>, base: int)
    ensures
        appended(a, a, Seq::empty(), base),
{
    assert(a.subrange(0, a.len() as int) =~= a);
    assert(a.subrange(a.len() as int, a.len() as int) =~= Seq::<Spanned<String>>::empty());
}

pub proof fn lemma_appended_one(a: Seq<Spanned<String>>, x: Spanned<String>, f: Finding, base: int)
    requires
        x.value@ == f.3,
        x.span == (ByteSpan { start: (base + f.1) as u32, end: (base + f.2) as u32 }),
    ensures
        appended(a, a.push(x), seq![f], base),
{
    assert(a.push(x).subrange(0, a.len() as int) =~= a);
    assert(a.push(x).subrange(a.len() as int, a.len() + 1 as int) =~= seq![x]);
}

pub proof fn lemma_encode_concat(a: Seq<char>, b: Seq<char>)
    ensures
        encode_utf8(a + b) == encode_utf8(a) + encode_utf8(b),
    decreases a.len(),
{
    if a.len() == 0 {
        assert(a + b =~= b);
        assert(encode_utf8(a) =~= Seq::<u8>::empty());
        assert(encode_utf8(a) + encode_utf8(b) =~= encode_utf8(b));
    } else {
        lemma_encode_concat(a.drop_first(), b);
        assert((a + b).drop_first() =~= a.drop_first() + b);
        assert((a + b)[0] == a[0]);
    }
}

pub proof fn lemma_enc_len_bounds(t: Seq<char>, x: int, y: int)
    requires
        0 <= x <= y <= t.len(),
    ensures
        0 <= enc_len(t, x) <= enc_len(t, y) <= encode_utf8(t).len(),
{
    lemma_encode_concat(t.subrange(0, x), t.subrange(x, y));
    assert(t.subrange(0, x) + t.subrange(x, y) =~= t.subrange(0, y));
    lemma_encode_concat(t.subrange(0, y), t.subrange(y, t.len() as int));
    assert(t.subrange(0, y) + t.subrange(y, t.len() as int) =~= t);
}

pub proof fn lemma_ident_end_bounds(t: Seq<char>, j: int)
    requires
        0 <= j,
    ensures
        j <= ident_end(t, j),
        j <= t.len() ==> ident_end(t, j) <= t.len(),
    decreases t.len() - j,
{
    if 0 <= j < t.len() && (unicode_alphanumeric(t[j]) || t[j] == '_' || t[j] == '$') {
        lemma_ident_end_bounds(t, j + 1);
    }
}

pub proof fn lemma_skip_white_bounds(t: Seq<char>, i: int)
    requires
        0 <= i,
    ensures
        i <= skip_white(t, i),
        i <= t.len() ==> skip_white(t, i) <= t.len(),
    decreases t.len() - i,
{
    if 0 <= i < t.len() && crate::unicode::unicode_white_space(t[i]) {
        lemma_skip_white_bounds(t, i + 1);
    }
}

/// A finding lies inside `b`, its text is the bytes of its range, and a
/// placeholder key is never empty.
pub open spec fn finding_grounded(b: Seq<u8>, f: Finding) -> bool {
    &&& 0 <= f.1 <= f.2 <= b.len()
    &&& encode_utf8(f.3) == b.subrange(f.1, f.2)
    &&& f.0 ==> f.3.len() > 0
}

pub open spec fn findings_grounded(b: Seq<u8>, fs: Seq<Finding>) -> bool {
    forall|k: int| 0 <= k < fs.len() ==> finding_grounded(b, #[trigger] fs[k])
}

proof fn lemma_sub_valid(b: Seq<u8>, s: int, e: int)
    requires
        valid_utf8(b),
        0 <= s <= e <= b.len(),
        vstd::utf8::is_char_boundary(b, s),
        vstd::utf8::is_char_boundary(b, e),
    ensures
        valid_utf8(b.subrange(s, e)),
{
    vstd::utf8::valid_utf8_split(b, e);
    let p = b.subrange(0, e);
    crate::text::lemma_boundary_prefix(b, e, s);
    vstd::utf8::valid_utf8_split(p, s);
    assert(p.subrange(s, p.len() as int) =~= b.subrange(s, e));
}

proof fn lemma_concat_grounded(b: Seq<u8>, x: Seq<Finding>, y: Seq<Finding>)
    requires
        findings_grounded(b, x),
        findings_grounded(b, y),
    ensures
        findings_grounded(b, x + y),
{
    assert forall|k: int| 0 <= k < (x + y).len() implies finding_grounded(b, #[trigger] (x + y)[k]) by {
        if k < x.len() {
            assert((x + y)[k] == x[k]);
        } else {
            assert((x + y)[k] == y[k - x.len()]);
        }
    }
}

proof fn lemma_shift_grounded(b: Seq<u8>, s: int, e: int, fs: Seq<Finding>)
    requires
        0 <= s <= e <= b.len(),
        findings_grounded(b.subrange(s, e), fs),
    ensures
        findings_grounded(b, shift(fs, s)),
{
    let inner = b.subrange(s, e);
    assert forall|k: int| 0 <= k < shift(fs, s).len() implies finding_grounded(b, #[trigger] shift(fs, s)[k]) by {
        let f = fs[k];
        assert(finding_grounded(inner, f));
        assert(b.subrange(f.1 + s, f.2 + s) =~= inner.subrange(f.1, f.2));
    }
}

/// What one matched expression yields itself lies in its inner bytes.
proof fn lemma_here_grounded(b: Seq<u8>, is_dollar: bool, s: int, e: int)
    requires
        0 <= s <= e <= b.len(),
        valid_utf8(b.subrange(s, e)),
    ensures
        findings_grounded(b, finding_here(is_dollar, b.subrange(s, e), s)),
{
    let inner = b.subrange(s, e);
    let t = decode_utf8(inner);
    vstd::utf8::decode_utf8_encode_utf8(inner);
    if is_dollar {
        if inner.len() > 0 {
            if t.len() == 0 {
                assert(t =~= Seq::<char>::empty());
                assert(encode_utf8(Seq::<char>::empty()) =~= Seq::<u8>::empty());
            }
            let f = finding_here(is_dollar, inner, s)[0];
            assert(finding_grounded(b, f));
        }
    } else {
        if let Some((x, y)) = candidate_range(t) {
            let s0 = crate::encoding::skip_white(t, 0);
            lemma_skip_white_bounds(t, 0);
            lemma_ident_end_bounds(t, s0 + 1);
            lemma_enc_len_bounds(t, x, y);
            lemma_encode_concat(t.subrange(0, x), t.subrange(x, y));
            assert(t.subrange(0, x) + t.subrange(x, y) =~= t.subrange(0, y));
            lemma_encode_concat(t.subrange(0, y), t.subrange(y, t.len() as int));
            assert(t.subrange(0, y) + t.subrange(y, t.len() as int) =~= t);
            let ex = encode_utf8(t.subrange(0, x));
            let exy = encode_utf8(t.subrange(x, y));
            let ey = encode_utf8(t.subrange(0, y));
            assert(inner.subrange(0, ey.len() as int) =~= ey);
            assert(ey.subrange(ex.len() as int, ey.len() as int) =~= exy);
            assert(b.subrange(s + enc_len(t, x), s + enc_len(t, y)) =~= exy);
            let f = finding_here(is_dollar, inner, s)[0];
            assert(finding_grounded(b, f));
        }
    }
}

/// Everything found in valid UTF-8 bytes lies in them: its text is the
/// bytes of its range, and a placeholder key is never empty.
pub proof fn law_harvest_grounded(b: Seq<u8>, i: int, depth: int, qa: bool, quote: Option<u8>)
    requires
        valid_utf8(b),
        0 <= i,
    ensures
        findings_grounded(b, harvest(b, i, depth, qa, quote)),
    decreases b.len(), b.len() - i,
{
    if i < b.len() {
        let c = b[i];
        if quote is Some {
            law_harvest_grounded(b, i + 1, depth, qa, if c == quote->0 { None } else { quote });
        } else if qa && (c == 0x27u8 || c == 0x22u8) {
            law_harvest_grounded(b, i + 1, depth, qa, Some(c));
        } else if !is_opener_at(b, i) {
            law_harvest_grounded(b, i + 1, depth, qa, None);
        } else {
            lemma_braced_end_range(b, i);
            if let Some(next) = braced_end(b, i) {
                if i + 2 <= next - 1 && next <= b.len() {
                    let s = i + 2;
                    let inner = b.subrange(s, next - 1);
                    lemma_after_ascii_is_boundary(b, i + 1);
                    lemma_ascii_is_boundary(b, next - 1);
                    lemma_sub_valid(b, s, next - 1);
                    lemma_here_grounded(b, c == 0x24u8, s, next - 1);
                    let nested = if depth < crate::DEPTH_LIMIT {
                        shift(harvest(inner, 0, depth + 1, c == 0x23u8, None), s)
                    } else {
                        Seq::empty()
                    };
                    if depth < crate::DEPTH_LIMIT {
                        law_harvest_grounded(inner, 0, depth + 1, c == 0x23u8, None);
                        lemma_shift_grounded(b, s, next - 1, harvest(inner, 0, depth + 1, c == 0x23u8, None));
                    }
                    law_harvest_grounded(b, next, depth, qa, None);
                    lemma_concat_grounded(b, finding_here(c == 0x24u8, inner, s), nested);
                    lemma_concat_grounded(b, finding_here(c == 0x24u8, inner, s) + nested, harvest(b, next, depth, qa, None));
                }
            }
        }
    }
}

proof fn lemma_keys_refs_grounded(b: Seq<u8>, fs: Seq<Finding>)
    requires
        findings_grounded(b, fs),
    ensures
        findings_grounded(b, keys_of(fs)),
        findings_grounded(b, refs_of(fs)),
        forall|j: int| 0 <= j < keys_of(fs).len() ==> (#[trigger] keys_of(fs)[j]).0,
    decreases fs.len(),
{
    if fs.len() > 0 {
        let pre = fs.drop_last();
        assert forall|k: int| 0 <= k < pre.len() implies finding_grounded(b, #[trigger] pre[k]) by {
            assert(pre[k] == fs[k]);
        }
        lemma_keys_refs_grounded(b, pre);
        assert(finding_grounded(b, fs[fs.len() - 1]));
        let kp = keys_of(pre);
        let rp = refs_of(pre);
        if fs.last().0 {
            assert forall|k: int| 0 <= k < kp.push(fs.last()).len() implies finding_grounded(b, #[trigger] kp.push(fs.last())[k]) by {
                if k < kp.len() {
                    assert(kp.push(fs.last())[k] == kp[k]);
                }
            }
            assert forall|j: int| 0 <= j < kp.push(fs.last()).len() implies (#[trigger] kp.push(fs.last())[j]).0 by {
                if j < kp.len() {
                    assert(kp.push(fs.last())[j] == kp[j]);
                }
            }
        } else {
            assert forall|k: int| 0 <= k < rp.push(fs.last()).len() implies finding_grounded(b, #[trigger] rp.push(fs.last())[k]) by {
                if k < rp.len() {
                    assert(rp.push(fs.last())[k] == rp[k]);
                }
            }
        }
    }
}

/// Each spanned string lies in `b` (moved by `base`) and is the text of
/// its range.
pub open spec fn spanned_in(out: Seq<Spanned<String>>, b: Seq<u8>, base: int) -> bool {
    forall|k: int|
        0 <= k < out.len() ==> {
            &&& base <= (#[trigger] out[k]).span.start <= out[k].span.end <= base + b.len()
            &&& encode_utf8(out[k].value@) == b.subrange(out[k].span.start - base, out[k].span.end - base)
        }
}

proof fn lemma_realized_spanned(out: Seq<Spanned<String>>, fs: Seq<Finding>, b: Seq<u8>, base: int)
    requires
        realized(out, fs, base),
        findings_grounded(b, fs),
        0 <= base,
        base + b.len() <= u32::MAX,
    ensures
        spanned_in(out, b, base),
        (forall|j: int| 0 <= j < fs.len() ==> (#[trigger] fs[j]).0) ==> forall|k: int|
            0 <= k < out.len() ==> (#[trigger] out[k]).value@.len() > 0,
{
    assert forall|k: int| 0 <= k < out.len() implies {
        &&& base <= (#[trigger] out[k]).span.start <= out[k].span.end <= base + b.len()
        &&& encode_utf8(out[k].value@) == b.subrange(out[k].span.start - base, out[k].span.end - base)
    } by {
        assert(finding_grounded(b, fs[k]));
    }
    if forall|j: int| 0 <= j < fs.len() ==> (#[trigger] fs[j]).0 {
        assert forall|k: int| 0 <= k < out.len() implies (#[trigger] out[k]).value@.len() > 0 by {
            assert(finding_grounded(b, fs[k]));
            assert(fs[k].0);
        }
    }
}

fn is_ident_char(c: char) -> (r: bool)
    ensures
        r == (unicode_alphanumeric(c) || c == '_' || c == '$'),
{
    char_is_alphanumeric(c) || c == '_' || c == '$'
}

/// The leading bean-name candidate of a SpEL expression's inner text, as a
/// character range.
pub fn leading_bean_ref_candidate(inner: &str) -> (r: Option<(usize, usize)>)
    ensures
        r matches Some((x, y)) ==> candidate_range(inner@) == Some((x as int, y as int)),
        r is None ==> candidate_range(inner@) is None,
        r matches Some((x, y)) ==> x < y <= inner@.len(),
{
    let n = inner.unicode_len();
    let mut s: usize = 0;
    while s < n && char_is_whitespace(inner.get_char(s))
        invariant
            n == inner@.len(),
            s <= n,
            skip_white(inner@, 0) == skip_white(inner@, s as int),
        decreases n - s,
    {
        s += 1;
    }
    if s >= n {
        return None;
    }
    let first = inner.get_char(s);
    if !(char_is_alphabetic(first) || first == '_' || first == '$') {
        return None;
    }
    let mut e: usize = s + 1;
    while e < n && is_ident_char(inner.get_char(e))
        invariant
            n == inner@.len(),
            s < e <= n,
            ident_end(inner@, s as int + 1) == ident_end(inner@, e as int),
        decreases n - e,
    {
        e += 1;
    }
    Some((s, e))
}

/// Appends what one matched expression (inner text `inner`, whose bytes
/// `ib` start at `s`) yields itself.
fn push_found_here(
    inner: &String,
    Ghost(ib): Ghost<Seq<u8>>,
    s: usize,
    base: u32,
    is_dollar: bool,
    placeholders: &mut Vec<Spanned<String>>,
    spel_refs: &mut Vec<Spanned<String>>,
)
    requires
        encode_utf8(inner@) == ib,
        base + s + ib.len() <= u32::MAX,
    ensures
        appended(old(placeholders)@, final(placeholders)@, keys_of(finding_here(is_dollar, ib, s as int)), base as int),
        appended(old(spel_refs)@, final(spel_refs)@, refs_of(finding_here(is_dollar, ib, s as int)), base as int),
{
    proof {
        vstd::utf8::encode_utf8_decode_utf8(inner@);
    }
    let e = s + inner.as_str().len();
    let ghost here = finding_here(is_dollar, ib, s as int);
    let ghost p_before = placeholders@;
    let ghost s_before = spel_refs@;
    proof {
        assert(here.len() <= 1);
        if here.len() == 1 {
            assert(here.drop_last() =~= Seq::<Finding>::empty());
        } else {
            assert(here =~= Seq::<Finding>::empty());
        }
    }
    if is_dollar {
        if inner.as_str().len() > 0 {
            let v = Spanned {
                value: inner.clone(),
                span: ByteSpan { start: base + s as u32, end: base + e as u32 },
            };
            placeholders.push(v);
            proof {
                assert(ib.len() > 0);
                assert(here == seq![(true, s as int, s as int + ib.len(), decode_utf8(ib))]);
                assert(keys_of(here) == keys_of(here.drop_last()).push(here.last()));
                assert(refs_of(here) == refs_of(here.drop_last()));
                lemma_appended_one(p_before, v, here[0], base as int);
                lemma_appended_nothing(s_before, base as int);
                assert(keys_of(here) =~= here);
                assert(refs_of(here) =~= Seq::<Finding>::empty());
            }
        } else {
            proof {
                lemma_appended_nothing(p_before, base as int);
                lemma_appended_nothing(s_before, base as int);
                assert(keys_of(here) =~= here);
                assert(refs_of(here) =~= here);
            }
        }
    } else {
        let t = inner.as_str();
        match leading_bean_ref_candidate(t) {
            Some((x, y)) => {
                proof {
                    assert(decode_utf8(ib) == t@);
                    assert(candidate_range(decode_utf8(ib)) == Some((x as int, y as int)));
                }
                let bx = t.substring_char(0, x).len();
                let by = t.substring_char(0, y).len();
                proof {
                    lemma_enc_len_bounds(t@, x as int, y as int);
                    assert(encode_utf8(t@) == ib);
                }
                let v = Spanned {
                    value: t.substring_char(x, y).to_owned(),
                    span: ByteSpan { start: base + (s + bx) as u32, end: base + (s + by) as u32 },
                };
                spel_refs.push(v);
                proof {
                    assert(here == seq![(false, s + enc_len(t@, x as int), s + enc_len(t@, y as int), t@.subrange(x as int, y as int))]);
                    assert(refs_of(here) == refs_of(here.drop_last()).push(here.last()));
                    assert(keys_of(here) == keys_of(here.drop_last()));
                    lemma_appended_one(s_before, v, here[0], base as int);
                    lemma_appended_nothing(p_before, base as int);
                    assert(refs_of(here) =~= here);
                    assert(keys_of(here) =~= Seq::<Finding>::empty());
                }
            },
            None => {
                proof {
                    lemma_appended_nothing(p_before, base as int);
                    lemma_appended_nothing(s_before, base as int);
                    assert(keys_of(here) =~= here);
                    assert(refs_of(here) =~= here);
                }
            },
        }
    }
}

/// Searches `slice` (whose first byte is at `base`) for `${..}` / `#{..}`
/// expressions at nesting `depth`, appending each placeholder key to
/// `placeholders` and each bean candidate to `spel_refs`, in the order
/// found; `quote_aware` skips quoted string literals.
pub fn extract_from_slice(
    slice: &str,
    base: u32,
    depth: u32,
    quote_aware: bool,
    placeholders: &mut Vec<Spanned<String>>,
    spel_refs: &mut Vec<Spanned<String>>,
)
    requires
        base + bytes_of(slice).len() <= u32::MAX,
    ensures
        appended(old(placeholders)@, final(placeholders)@, keys_of(harvest(bytes_of(slice), 0, depth as int, quote_aware, None)), base as int),
        appended(old(spel_refs)@, final(spel_refs)@, refs_of(harvest(bytes_of(slice), 0, depth as int, quote_aware, None)), base as int),
        spanned_in(final(placeholders)@.subrange(old(placeholders)@.len() as int, final(placeholders)@.len() as int), bytes_of(slice), base as int),
        spanned_in(final(spel_refs)@.subrange(old(spel_refs)@.len() as int, final(spel_refs)@.len() as int), bytes_of(slice), base as int),
        forall|k: int|
            old(placeholders)@.len() <= k < final(placeholders)@.len() ==> (#[trigger] final(placeholders)@[k]).value@.len() > 0,
    decreases bytes_of(slice).len(),
{
    proof {
        lemma_str_valid(slice);
        let b = bytes_of(slice);
        let fs = harvest(b, 0, depth as int, quote_aware, None);
        law_harvest_grounded(b, 0, depth as int, quote_aware, None);
        lemma_keys_refs_grounded(b, fs);
    }
    let bytes = slice.as_bytes();
    let ghost b = bytes@;
    let ghost qa = quote_aware;
    let ghost old_p = placeholders@;
    let ghost old_s = spel_refs@;
    let ghost mut found: Seq<Finding> = Seq::empty();
    let n = bytes.len();
    let mut i: usize = 0;
    let mut quote: Option<u8> = None;
    proof {
        lemma_appended_nothing(old_p, base as int);
        lemma_appended_nothing(old_s, base as int);
    }
    loop
        invariant
            b == bytes@,
            b == bytes_of(slice),
            n == b.len(),
            valid_utf8(b),
            base + n <= u32::MAX,
            i <= n,
            qa == quote_aware,
            harvest(b, 0, depth as int, qa, None) == found + harvest(b, i as int, depth as int, qa, quote),
            appended(old_p, placeholders@, keys_of(found), base as int),
            appended(old_s, spel_refs@, refs_of(found), base as int),
        ensures
            harvest(b, 0, depth as int, qa, None) == found,
        decreases n - i,
    {
        if i >= n {
            proof {
                assert(harvest(b, i as int, depth as int, qa, quote) =~= Seq::<Finding>::empty());
                assert(found + Seq::<Finding>::empty() =~= found);
            }
            break;
        }
        let c = bytes[i];
        if let Some(q) = quote {
            if c == q {
                quote = None;
            }
            i += 1;
            continue;
        }
        if quote_aware && (c == 0x27u8 || c == 0x22u8) {
            quote = Some(c);
            i += 1;
            continue;
        }
        let is_dollar = c == 0x24u8;
        let is_hash = c == 0x23u8;
        if !(is_dollar || is_hash) || i + 1 >= n || bytes[i + 1] != 0x7Bu8 {
            i += 1;
            continue;
        }
        let next = match scan_braced_expr(bytes, i) {
            Some(k) => k,
            None => {
                proof {
                    assert(harvest(b, i as int, depth as int, qa, quote) =~= Seq::<Finding>::empty());
                    assert(found + Seq::<Finding>::empty() =~= found);
                }
                break;
            },
        };
        proof { lemma_braced_end_range(b, i as int); }
        let s = i + 2;
        let e = next - 1;
        proof {
            lemma_after_ascii_is_boundary(b, i + 1);
            lemma_ascii_is_boundary(b, e as int);
        }
        let inner = match slice_text(slice, s, e) {
            Some(t) => t,
            None => {
                proof { assert(false); }
                break;
            },
        };
        let ghost ib = b.subrange(s as int, e as int);
        proof {
            assert(encode_utf8(inner@) == ib);
            vstd::utf8::encode_utf8_decode_utf8(inner@);
            assert(decode_utf8(ib) == inner@);
        }
        let ghost here = finding_here(is_dollar, ib, s as int);
        let ghost nested: Seq<Finding> = if depth < crate::DEPTH_LIMIT {
            shift(harvest(ib, 0, depth + 1, is_hash, None), s as int)
        } else {
            Seq::empty()
        };
        let ghost p_before = placeholders@;
        let ghost s_before = spel_refs@;
        push_found_here(&inner, Ghost(ib), s, base, is_dollar, placeholders, spel_refs);
        proof {
            lemma_appended_trans(old_p, p_before, placeholders@, keys_of(found), keys_of(here), base as int);
            lemma_appended_trans(old_s, s_before, spel_refs@, refs_of(found), refs_of(here), base as int);
            lemma_keys_refs_concat(found, here);
        }
        let ghost p_mid = placeholders@;
        let ghost s_mid = spel_refs@;
        if depth < crate::DEPTH_LIMIT {
            extract_from_slice(inner.as_str(), base + s as u32, depth + 1, is_hash, placeholders, spel_refs);
            proof {
                let h = harvest(ib, 0, depth + 1, is_hash, None);
                lemma_realized_shift(placeholders@.subrange(p_mid.len() as int, placeholders@.len() as int), keys_of(h), s as int, base as int);
                lemma_realized_shift(spel_refs@.subrange(s_mid.len() as int, spel_refs@.len() as int), refs_of(h), s as int, base as int);
                lemma_keys_refs_shift(h, s as int);
            }
        } else {
            proof {
                lemma_appended_nothing(p_mid, base as int);
                lemma_appended_nothing(s_mid, base as int);
                assert(keys_of(nested) =~= nested);
                assert(refs_of(nested) =~= nested);
            }
        }
        proof {
            lemma_appended_trans(old_p, p_mid, placeholders@, keys_of(found + here), keys_of(nested), base as int);
            lemma_appended_trans(old_s, s_mid, spel_refs@, refs_of(found + here), refs_of(nested), base as int);
            lemma_keys_refs_concat(found + here, nested);
            assert(harvest(b, i as int, depth as int, qa, quote) == here + nested + harvest(b, next as int, depth as int, qa, None));
            assert(found + (here + nested + harvest(b, next as int, depth as int, qa, None))
                =~= (found + here + nested) + harvest(b, next as int, depth as int, qa, None));
            found = found + here + nested;
        }
        i = next;
        quote = None;
    }
    proof {
        let fs = harvest(b, 0, depth as int, qa, None);
        lemma_realized_spanned(placeholders@.subrange(old_p.len() as int, placeholders@.len() as int), keys_of(fs), b, base as int);
        lemma_realized_spanned(spel_refs@.subrange(old_s.len() as int, spel_refs@.len() as int), refs_of(fs), b, base as int);
        assert forall|k: int| old_p.len() <= k < placeholders@.len() implies (#[trigger] placeholders@[k]).value@.len() > 0 by {
            assert(placeholders@[k] == placeholders@.subrange(old_p.len() as int, placeholders@.len() as int)[k - old_p.len()]);
        }
    }
}


/// The bean-name candidate of a SpEL expression's inner text `t` is the
/// maximal run of alphanumeric, `_` or `$` characters that begins at the
/// first non-whitespace character, which must be alphabetic, `_` or `$`;
/// without such a first character there is none.
pub proof fn law_candidate_is_maximal_run(t: Seq<char>)
    ensures
        candidate_range(t) matches Some((s, e)) ==> {
            &&& 0 <= s < e <= t.len()
            &&& forall|j: int| 0 <= j < s ==> crate::unicode::unicode_white_space(#[trigger] t[j])
            &&& (unicode_alphabetic(t[s]) || t[s] == '_' || t[s] == '$')
            &&& forall|j: int| s < j < e ==> (unicode_alphanumeric(#[trigger] t[j]) || t[j] == '_' || t[j] == '$')
            &&& e == t.len() || !(unicode_alphanumeric(t[e]) || t[e] == '_' || t[e] == '$')
        },
        candidate_range(t) is None ==> forall|s: int|
            0 <= s < t.len() && (forall|j: int| 0 <= j < s ==> crate::unicode::unicode_white_space(#[trigger] t[j]))
                && !crate::unicode::unicode_white_space(t[s]) ==> !(unicode_alphabetic(t[s]) || t[s] == '_' || t[s] == '$'),
{
    lemma_skip_white_shape(t, 0);
    let s = skip_white(t, 0);
    if s < t.len() {
        lemma_ident_end_shape(t, s + 1);
    }
}

/// `skip_white` stops at the first non-whitespace character from `i`.
proof fn lemma_skip_white_shape(t: Seq<char>, i: int)
    requires
        0 <= i <= t.len(),
    ensures
        i <= skip_white(t, i) <= t.len(),
        forall|j: int| i <= j < skip_white(t, i) ==> crate::unicode::unicode_white_space(#[trigger] t[j]),
        skip_white(t, i) < t.len() ==> !crate::unicode::unicode_white_space(t[skip_white(t, i)]),
    decreases t.len() - i,
{
    if i < t.len() && crate::unicode::unicode_white_space(t[i]) {
        lemma_skip_white_shape(t, i + 1);
    }
}

/// `ident_end` stops at the first character from `j` that is not
/// alphanumeric, `_` or `$`.
proof fn lemma_ident_end_shape(t: Seq<char>, j: int)
    requires
        0 <= j <= t.len(),
    ensures
        j <= ident_end(t, j) <= t.len(),
        forall|k: int| j <= k < ident_end(t, j) ==> (unicode_alphanumeric(#[trigger] t[k]) || t[k] == '_' || t[k] == '$'),
        ident_end(t, j) == t.len() || !(unicode_alphanumeric(t[ident_end(t, j)]) || t[ident_end(t, j)] == '_' || t[ident_end(t, j)] == '$'),
    decreases t.len() - j,
{
    if j < t.len() && (unicode_alphanumeric(t[j]) || t[j] == '_' || t[j] == '$') {
        lemma_ident_end_shape(t, j + 1);
    }
}

} // verus!
