//! Attributes of a start or empty tag, read byte by byte from the tag's own
//! source range so that every name and value keeps its exact span.
//! Recovery rule 3: a repeated attribute name keeps its first value and is
//! reported as `DuplicateAttribute`.
use vstd::prelude::*;
use vstd::utf8::{valid_utf8, is_char_boundary};
use crate::model::{ByteSpan, DiagCode, Diagnostic, Spanned};
use crate::text::{bytes_of, byte_is_ws, is_ws, lemma_after_ascii_is_boundary, lemma_ascii_is_boundary, lemma_str_valid, slice_text, text_of, sliceable, str_eq};
use crate::events::{XmlAttr, attr_grounded, attrs_grounded};
use crate::entities::{check_entities, entity_diags_match, entity_findings};
use crate::braces::{check_unterminated_placeholders, unterminated_reported};

verus! {

pub open spec fn is_name_stop(c: u8) -> bool {
    c == 0x3Du8 || is_ws(c) || c == 0x3Eu8 || c == 0x2Fu8
}

pub open spec fn is_tag_name_stop(c: u8) -> bool {
    is_ws(c) || c == 0x3Eu8 || c == 0x2Fu8
}

pub open spec fn is_quote(c: u8) -> bool {
    c == 0x22u8 || c == 0x27u8
}

/// First position from `i` that is at or past `end` or holds a byte other
/// than ASCII whitespace.
pub open spec fn skip_ws(b: Seq<u8>, i: int, end: int) -> int
    decreases end - i,
{
    if 0 <= i < end && i < b.len() && is_ws(b[i]) {
        skip_ws(b, i + 1, end)
    } else {
        i
    }
}

/// First position from `i` that is at or past `end` or ends an attribute
/// name (`=`, whitespace, `>`, `/`).
pub open spec fn scan_name(b: Seq<u8>, i: int, end: int) -> int
    decreases end - i,
{
    if 0 <= i < end && i < b.len() && !is_name_stop(b[i]) {
        scan_name(b, i + 1, end)
    } else {
        i
    }
}

/// First position from `i` that is at or past `end` or ends the element's
/// own name (whitespace, `>`, `/`).
pub open spec fn scan_tag_name(b: Seq<u8>, i: int, end: int) -> int
    decreases end - i,
{
    if 0 <= i < end && i < b.len() && !is_tag_name_stop(b[i]) {
        scan_tag_name(b, i + 1, end)
    } else {
        i
    }
}

/// First position from `i` that is at or past `end` or holds `q`.
pub open spec fn scan_to(b: Seq<u8>, i: int, end: int, q: u8) -> int
    decreases end - i,
{
    if 0 <= i < end && i < b.len() && b[i] != q {
        scan_to(b, i + 1, end, q)
    } else {
        i
    }
}

/// Where the attribute list starts: after `<` and the element's name.
pub open spec fn attrs_begin(b: Seq<u8>, tag_start: int, tag_end: int) -> int {
    let i = if tag_start < tag_end && b[tag_start] == 0x3Cu8 {
        tag_start + 1
    } else {
        tag_start
    };
    scan_tag_name(b, i, tag_end)
}

/// Every well-formed `name = "value"` (or `'value'`) pair from position `i`
/// to `end`, as (name start, name end, value start, value end). A name
/// without `=` is skipped; a value without an opening quote, or one that
/// is not closed before `end`, ends the list.
pub open spec fn attr_tokens(b: Seq<u8>, i: int, end: int) -> Seq<(int, int, int, int)>
    decreases end - i,
{
    let i1 = skip_ws(b, i, end);
    if i < 0 || i1 < i || i1 >= end || i1 >= b.len() || b[i1] == 0x3Eu8 || b[i1] == 0x2Fu8 {
        Seq::empty()
    } else {
        let ne = scan_name(b, i1, end);
        let i2 = skip_ws(b, ne, end);
        if i2 >= end || i2 >= b.len() || b[i2] != 0x3Du8 {
            if i < i2 <= end {
                attr_tokens(b, i2, end)
            } else {
                Seq::empty()
            }
        } else {
            let i3 = skip_ws(b, i2 + 1, end);
            if i3 >= end || i3 >= b.len() || !is_quote(b[i3]) {
                Seq::empty()
            } else {
                let ve = scan_to(b, i3 + 1, end, b[i3]);
                if ve >= end || ve < i {
                    Seq::empty()
                } else {
                    seq![(i1, ne, i3 + 1, ve)] + attr_tokens(b, ve + 1, end)
                }
            }
        }
    }
}

pub open spec fn tok_name(b: Seq<u8>, t: (int, int, int, int)) -> Seq<char> {
    text_of(b, t.0, t.1)
}

pub open spec fn tok_names(b: Seq<u8>, toks: Seq<(int, int, int, int)>) -> Seq<Seq<char>> {
    toks.map_values(|t: (int, int, int, int)| tok_name(b, t))
}

/// The tokens whose name did not occur earlier: the first value wins.
pub open spec fn first_of_each_name(b: Seq<u8>, toks: Seq<(int, int, int, int)>) -> Seq<(int, int, int, int)>
    decreases toks.len(),
{
    if toks.len() == 0 {
        Seq::empty()
    } else {
        let p = first_of_each_name(b, toks.drop_last());
        if tok_names(b, toks.drop_last()).contains(tok_name(b, toks.last())) {
            p
        } else {
            p.push(toks.last())
        }
    }
}

/// The attribute that a token describes.
pub open spec fn attr_is_tok(b: Seq<u8>, a: XmlAttr, t: (int, int, int, int)) -> bool {
    &&& a.name@ == text_of(b, t.0, t.1)
    &&& a.name_span == (ByteSpan { start: t.0 as u32, end: t.1 as u32 })
    &&& a.value.value@ == text_of(b, t.2, t.3)
    &&& a.value.span == (ByteSpan { start: t.2 as u32, end: t.3 as u32 })
}

pub open spec fn attrs_are_toks(b: Seq<u8>, attrs: Seq<XmlAttr>, toks: Seq<(int, int, int, int)>) -> bool {
    &&& attrs.len() == toks.len()
    &&& forall|k: int| 0 <= k < attrs.len() ==> attr_is_tok(b, #[trigger] attrs[k], toks[k])
}

/// The attributes of the tag spanning `[tag_start, tag_end)` of `src`.
pub open spec fn tag_attrs(src: Seq<u8>, tag_start: int, tag_end: int) -> Seq<(int, int, int, int)> {
    first_of_each_name(src, attr_tokens(src, attrs_begin(src, tag_start, tag_end), tag_end))
}

proof fn lemma_push_contains<A>(s: Seq<A>, x: A, n: A)
    ensures
        s.push(x).contains(n) <==> (s.contains(n) || x == n),
{
    if s.push(x).contains(n) {
        let k = choose|k: int| 0 <= k < s.push(x).len() && s.push(x)[k] == n;
        if k < s.len() {
            assert(s[k] == n);
        }
    }
    if s.contains(n) {
        let k = choose|k: int| 0 <= k < s.len() && s[k] == n;
        assert(s.push(x)[k] == n);
    }
    if x == n {
        assert(s.push(x)[s.len() as int] == n);
    }
}

proof fn lemma_first_names(b: Seq<u8>, toks: Seq<(int, int, int, int)>, n: Seq<char>)
    ensures
        tok_names(b, toks).contains(n) <==> tok_names(b, first_of_each_name(b, toks)).contains(n),
    decreases toks.len(),
{
    if toks.len() > 0 {
        let pre = toks.drop_last();
        lemma_first_names(b, pre, n);
        let kp = first_of_each_name(b, pre);
        assert(tok_names(b, toks) =~= tok_names(b, pre).push(tok_name(b, toks.last())));
        assert(toks =~= pre.push(toks.last()));
        lemma_push_contains(tok_names(b, pre), tok_name(b, toks.last()), n);
        if !tok_names(b, pre).contains(tok_name(b, toks.last())) {
            assert(tok_names(b, kp.push(toks.last())) =~= tok_names(b, kp).push(tok_name(b, toks.last())));
            lemma_push_contains(tok_names(b, kp), tok_name(b, toks.last()), n);
        }
    }
}

/// What one attribute token `t`, after the tokens `prev`, reports: a
/// repeated name is one `DuplicateAttribute` at the name; a kept value is
/// checked for unresolvable entities, then for an unterminated placeholder.
pub open spec fn tok_reported(b: Seq<u8>, prev: Seq<(int, int, int, int)>, t: (int, int, int, int), old: Seq<Diagnostic>, new: Seq<Diagnostic>) -> bool {
    if tok_names(b, first_of_each_name(b, prev)).contains(tok_name(b, t)) {
        &&& new.len() == old.len() + 1
        &&& new.drop_last() == old
        &&& new.last().code == DiagCode::DuplicateAttribute
        &&& new.last().span == Some(ByteSpan { start: t.0 as u32, end: t.1 as u32 })
        &&& new.last().message@ == "duplicate '"@ + tok_name(b, t) + "' attribute; first value wins"@
    } else {
        exists|mid: Seq<Diagnostic>| #[trigger] value_reported(b, t, old, mid, new)
    }
}

/// The checks of a kept attribute value `t`: entities (`old` to `mid`),
/// then an unterminated placeholder (`mid` to `new`).
pub open spec fn value_reported(b: Seq<u8>, t: (int, int, int, int), old: Seq<Diagnostic>, mid: Seq<Diagnostic>, new: Seq<Diagnostic>) -> bool {
    &&& mid.len() >= old.len()
    &&& mid.subrange(0, old.len() as int) == old
    &&& entity_diags_match(mid.subrange(old.len() as int, mid.len() as int), entity_findings(b.subrange(t.2, t.3), 0), b.subrange(t.2, t.3), t.2)
    &&& unterminated_reported(mid, new, b.subrange(t.2, t.3), ByteSpan { start: t.2 as u32, end: t.3 as u32 })
}

/// What the attribute tokens `toks` report, in order.
pub open spec fn toks_reported(b: Seq<u8>, toks: Seq<(int, int, int, int)>, old: Seq<Diagnostic>, new: Seq<Diagnostic>) -> bool
    decreases toks.len(),
{
    if toks.len() == 0 {
        new == old
    } else {
        exists|mid: Seq<Diagnostic>|
            toks_reported(b, toks.drop_last(), old, mid) && #[trigger] tok_reported(b, toks.drop_last(), toks.last(), mid, new)
    }
}

/// Scans the start or empty tag `[tag_start, tag_end)` of `source` for its
/// attributes. The result is exactly the first occurrence of each name
/// among the well-formed pairs; every later occurrence gets a
/// `DuplicateAttribute`, and each kept value is checked for unresolvable
/// entities and unterminated placeholders.
pub fn scan_attrs_for_tag(
    source: &str,
    tag_start: usize,
    tag_end: usize,
    diagnostics: &mut Vec<Diagnostic>,
) -> (attrs: Vec<XmlAttr>)
    requires
        tag_start <= tag_end <= bytes_of(source).len(),
        bytes_of(source).len() <= u32::MAX,
    ensures
        attrs_are_toks(bytes_of(source), attrs@, tag_attrs(bytes_of(source), tag_start as int, tag_end as int)),
        toks_reported(
            bytes_of(source),
            attr_tokens(bytes_of(source), attrs_begin(bytes_of(source), tag_start as int, tag_end as int), tag_end as int),
            old(diagnostics)@,
            final(diagnostics)@,
        ),
        attrs_grounded(bytes_of(source), attrs@),
        forall|k: int| 0 <= k < attrs@.len() ==> tag_start <= (#[trigger] attrs@[k]).name_span.start
            && attrs@[k].value.span.end <= tag_end,
        final(diagnostics)@.len() >= old(diagnostics)@.len(),
        final(diagnostics)@.subrange(0, old(diagnostics)@.len() as int) == old(diagnostics)@,
        forall|k: int| old(diagnostics)@.len() <= k < final(diagnostics)@.len() ==> {
            let c = (#[trigger] final(diagnostics)@[k]).code;
            &&& (c == DiagCode::DuplicateAttribute || c == DiagCode::InvalidEntity || c == DiagCode::UnterminatedPlaceholder)
            &&& final(diagnostics)@[k].span is Some
        },
{
    let bytes = source.as_bytes();
    let ghost b = bytes@;
    proof {
        lemma_str_valid(source);
    }
    let mut i = tag_start;
    if i < tag_end && bytes[i] == 0x3Cu8 {
        proof { lemma_after_ascii_is_boundary(b, i as int); }
        i += 1;
    }
    let ghost i_after_lt = i;
    while i < tag_end && !(byte_is_ws(bytes[i]) || bytes[i] == 0x3Eu8 || bytes[i] == 0x2Fu8)
        invariant
            b == bytes@,
            tag_start <= i_after_lt <= i <= tag_end <= b.len(),
            scan_tag_name(b, i_after_lt as int, tag_end as int) == scan_tag_name(b, i as int, tag_end as int),
        decreases tag_end - i,
    {
        i += 1;
    }
    let ghost begin = i;
    assert(begin == attrs_begin(b, tag_start as int, tag_end as int));
    proof {
        if i < tag_end {
            lemma_ascii_is_boundary(b, i as int);
        }
    }
    let mut attrs: Vec<XmlAttr> = Vec::new();
    let ghost mut done: Seq<(int, int, int, int)> = Seq::empty();
    let ghost old_diags = diagnostics@;
    loop
        invariant_except_break
            i < tag_end ==> is_char_boundary(b, i as int),
            attr_tokens(b, begin as int, tag_end as int) == done + attr_tokens(b, i as int, tag_end as int),
        invariant
            b == bytes@,
            b == bytes_of(source),
            valid_utf8(b),
            b.len() <= u32::MAX,
            tag_start <= begin <= i <= tag_end <= b.len(),
            attrs_are_toks(b, attrs@, first_of_each_name(b, done)),
            toks_reported(b, done, old_diags, diagnostics@),
            attrs_grounded(b, attrs@),
            forall|k: int| 0 <= k < attrs@.len() ==> tag_start <= (#[trigger] attrs@[k]).name_span.start
                && attrs@[k].value.span.end <= tag_end,
            diagnostics@.len() >= old_diags.len(),
            diagnostics@.subrange(0, old_diags.len() as int) == old_diags,
            forall|k: int| old_diags.len() <= k < diagnostics@.len() ==> {
                let c = (#[trigger] diagnostics@[k]).code;
                &&& (c == DiagCode::DuplicateAttribute || c == DiagCode::InvalidEntity || c == DiagCode::UnterminatedPlaceholder)
                &&& diagnostics@[k].span is Some
            },
        ensures
            attr_tokens(b, begin as int, tag_end as int) == done,
            attrs_are_toks(b, attrs@, first_of_each_name(b, done)),
            toks_reported(b, done, old_diags, diagnostics@),
            attrs_grounded(b, attrs@),
            forall|k: int| 0 <= k < attrs@.len() ==> tag_start <= (#[trigger] attrs@[k]).name_span.start
                && attrs@[k].value.span.end <= tag_end,
            diagnostics@.len() >= old_diags.len(),
            diagnostics@.subrange(0, old_diags.len() as int) == old_diags,
            forall|k: int| old_diags.len() <= k < diagnostics@.len() ==> {
                let c = (#[trigger] diagnostics@[k]).code;
                &&& (c == DiagCode::DuplicateAttribute || c == DiagCode::InvalidEntity || c == DiagCode::UnterminatedPlaceholder)
                &&& diagnostics@[k].span is Some
            },
        decreases tag_end - i,
    {
        let ghost i0 = i;
        while i < tag_end && byte_is_ws(bytes[i])
            invariant
                b == bytes@,
                valid_utf8(b),
                i0 <= i <= tag_end <= b.len(),
                i < tag_end ==> is_char_boundary(b, i as int),
                skip_ws(b, i0 as int, tag_end as int) == skip_ws(b, i as int, tag_end as int),
            decreases tag_end - i,
        {
            proof { lemma_after_ascii_is_boundary(b, i as int); }
            i += 1;
        }
        let ghost i1 = i;
        if i >= tag_end || bytes[i] == 0x3Eu8 || bytes[i] == 0x2Fu8 {
            proof {
                assert(attr_tokens(b, i0 as int, tag_end as int) =~= Seq::empty());
                assert(done + Seq::<(int, int, int, int)>::empty() =~= done);
            }
            break;
        }
        let name_start = i;
        while i < tag_end && !(bytes[i] == 0x3Du8 || byte_is_ws(bytes[i]) || bytes[i] == 0x3Eu8 || bytes[i] == 0x2Fu8)
            invariant
                b == bytes@,
                i1 <= i <= tag_end <= b.len(),
                scan_name(b, i1 as int, tag_end as int) == scan_name(b, i as int, tag_end as int),
            decreases tag_end - i,
        {
            i += 1;
        }
        let name_end = i;
        proof {
            if name_end < tag_end {
                lemma_ascii_is_boundary(b, name_end as int);
            }
        }
        while i < tag_end && byte_is_ws(bytes[i])
            invariant
                b == bytes@,
                valid_utf8(b),
                name_end <= i <= tag_end <= b.len(),
                i < tag_end ==> is_char_boundary(b, i as int),
                skip_ws(b, name_end as int, tag_end as int) == skip_ws(b, i as int, tag_end as int),
            decreases tag_end - i,
        {
            proof { lemma_after_ascii_is_boundary(b, i as int); }
            i += 1;
        }
        if i >= tag_end || bytes[i] != 0x3Du8 {
            proof {
                assert(attr_tokens(b, i0 as int, tag_end as int) == attr_tokens(b, i as int, tag_end as int)) by {
                    if !(i0 < i) {
                        assert(false);
                    }
                }
            }
            continue;
        }
        i += 1;
        let ghost i2p = i;
        while i < tag_end && byte_is_ws(bytes[i])
            invariant
                b == bytes@,
                i2p <= i <= tag_end <= b.len(),
                skip_ws(b, i2p as int, tag_end as int) == skip_ws(b, i as int, tag_end as int),
            decreases tag_end - i,
        {
            i += 1;
        }
        if !(i < tag_end && (bytes[i] == 0x22u8 || bytes[i] == 0x27u8)) {
            proof {
                assert(attr_tokens(b, i0 as int, tag_end as int) =~= Seq::empty());
                assert(done + Seq::<(int, int, int, int)>::empty() =~= done);
            }
            break;
        }
        let quote = bytes[i];
        proof { lemma_after_ascii_is_boundary(b, i as int); }
        i += 1;
        let value_start = i;
        while i < tag_end && bytes[i] != quote
            invariant
                b == bytes@,
                value_start <= i <= tag_end <= b.len(),
                scan_to(b, value_start as int, tag_end as int, quote) == scan_to(b, i as int, tag_end as int, quote),
            decreases tag_end - i,
        {
            i += 1;
        }
        if i >= tag_end {
            proof {
                assert(attr_tokens(b, i0 as int, tag_end as int) =~= Seq::empty());
                assert(done + Seq::<(int, int, int, int)>::empty() =~= done);
            }
            break;
        }
        let value_end = i;
        proof {
            lemma_ascii_is_boundary(b, value_end as int);
            lemma_after_ascii_is_boundary(b, value_end as int);
        }
        i += 1;
        let ghost tok = (name_start as int, name_end as int, value_start as int, value_end as int);
        proof {
            assert(attr_tokens(b, i0 as int, tag_end as int) == seq![tok] + attr_tokens(b, i as int, tag_end as int));
            assert(done + attr_tokens(b, i0 as int, tag_end as int) =~= done.push(tok) + attr_tokens(b, i as int, tag_end as int));
            assert(sliceable(b, name_start as int, name_end as int));
            assert(sliceable(b, value_start as int, value_end as int));
        }
        let name = slice_text(source, name_start, name_end).unwrap();
        let value_text = slice_text(source, value_start, value_end).unwrap();
        let value_span = ByteSpan { start: value_start as u32, end: value_end as u32 };
        let name_span = ByteSpan { start: name_start as u32, end: name_end as u32 };
        let mut dup = false;
        let mut k: usize = 0;
        while k < attrs.len()
            invariant
                0 <= k <= attrs@.len(),
                attrs_are_toks(b, attrs@, first_of_each_name(b, done)),
                dup == (exists|m: int| 0 <= m < k && (#[trigger] attrs@[m]).name@ == name@),
            decreases attrs@.len() - k,
        {
            if str_eq(attrs[k].name.as_str(), name.as_str()) {
                dup = true;
            }
            k += 1;
        }
        proof {
            let kept = first_of_each_name(b, done);
            lemma_first_names(b, done, name@);
            assert(dup == tok_names(b, kept).contains(name@)) by {
                if dup {
                    let m = choose|m: int| 0 <= m < attrs@.len() && (#[trigger] attrs@[m]).name@ == name@;
                    assert(tok_names(b, kept)[m] == name@);
                }
                if tok_names(b, kept).contains(name@) {
                    let m = choose|m: int| 0 <= m < tok_names(b, kept).len() && tok_names(b, kept)[m] == name@;
                    assert(attr_is_tok(b, attrs@[m], kept[m]));
                }
            }
            assert(done.push(tok).drop_last() =~= done);
        }
        if dup {
            let mut m = "duplicate '".to_owned();
            m.append(name.as_str());
            m.append("' attribute; first value wins");
            let ghost before = diagnostics@;
            diagnostics.push(Diagnostic { code: DiagCode::DuplicateAttribute, span: Some(name_span), message: m });
            proof {
                assert(diagnostics@.subrange(0, old_diags.len() as int) =~= before.subrange(0, old_diags.len() as int));
                assert(diagnostics@.drop_last() =~= before);
                let dp = done.push(tok);
                assert(dp.drop_last() =~= done);
                assert(dp.last() == tok);
                assert(tok_reported(b, dp.drop_last(), dp.last(), before, diagnostics@));
                assert(toks_reported(b, dp, old_diags, diagnostics@));
                done = dp;
            }
            continue;
        }
        let ghost before = diagnostics@;
        check_entities(value_text.as_str(), value_span, diagnostics);
        let ghost mid = diagnostics@;
        check_unterminated_placeholders(value_text.as_str(), value_span, diagnostics);
        proof {
            assert forall|k: int| before.len() <= k < mid.len() implies (#[trigger] mid[k]).code == DiagCode::InvalidEntity by {
                let sub = mid.subrange(before.len() as int, mid.len() as int);
                assert(mid[k] == sub[k - before.len()]);
            }
            assert forall|k: int| 0 <= k < mid.len() implies (#[trigger] diagnostics@[k]) == mid[k] by {
                if diagnostics@.len() > mid.len() {
                    assert(diagnostics@.drop_last()[k] == mid[k]);
                }
            }
            assert forall|k: int| 0 <= k < before.len() implies (#[trigger] mid[k]) == before[k] by {
                assert(mid.subrange(0, before.len() as int)[k] == before[k]);
            }
            assert forall|k: int| old_diags.len() <= k < diagnostics@.len() implies {
                let c = (#[trigger] diagnostics@[k]).code;
                &&& (c == DiagCode::DuplicateAttribute || c == DiagCode::InvalidEntity || c == DiagCode::UnterminatedPlaceholder)
                &&& diagnostics@[k].span is Some
            } by {
                if k < before.len() {
                    assert(diagnostics@[k] == before[k]);
                } else if k < mid.len() {
                    assert(diagnostics@[k] == mid[k]);
                    assert(mid[k] == mid.subrange(before.len() as int, mid.len() as int)[k - before.len()]);
                } else {
                    assert(diagnostics@[k] == diagnostics@.last());
                }
            }
        }
        proof {
            let vb = b.subrange(value_start as int, value_end as int);
            assert(vstd::utf8::encode_utf8(value_text@) == vb);
            assert(entity_diags_match(mid.subrange(before.len() as int, mid.len() as int), entity_findings(vb, 0), vb, value_start as int));
            assert(unterminated_reported(mid, diagnostics@, vb, ByteSpan { start: value_start as u32, end: value_end as u32 }));
            assert(name@ == tok_name(b, tok));
            assert(!tok_names(b, first_of_each_name(b, done)).contains(tok_name(b, tok)));
            assert(mid.len() >= before.len());
            assert(mid.subrange(0, before.len() as int) == before);
            assert(value_reported(b, tok, before, mid, diagnostics@));
            assert(tok_reported(b, done, tok, before, diagnostics@));
            let dp = done.push(tok);
            assert(dp.drop_last() =~= done);
            assert(dp.last() == tok);
            assert(tok_reported(b, dp.drop_last(), dp.last(), before, diagnostics@));
            assert(toks_reported(b, dp, old_diags, diagnostics@));
        }
        let ghost a_before = attrs@;
        attrs.push(XmlAttr { name, name_span, value: Spanned { value: value_text, span: value_span } });
        proof {
            done = done.push(tok);
            assert(attr_grounded(b, attrs@.last()));
        }
    }
    attrs
}

} // verus!
