//! Literal values (`ValueLit`) and bean references read from attributes
//! and from `<value>` / `<ref>` / `<idref>` elements.
use vstd::prelude::*;
use vstd::utf8::encode_utf8;
use crate::events::{XmlAttr, XmlElement};
use crate::harvest::{
    appended, extract_from_slice, harvest, keys_of, lemma_appended_nothing, lemma_appended_trans,
    lemma_keys_refs_concat, lemma_realized_shift, realized, refs_of, shift, Finding,
};
use crate::model::{BeanRef, ByteSpan, ClassRef, DiagCode, Diagnostic, InjectValue, RefKind, Spanned, ValueLit};
use crate::reading::{
    attr_named, attr_value, class_ref_from_attr, class_ref_spec, class_view, element_text_segments,
    find_attr, merge_text_segments, spanned_attr, copy_spanned, joined_text, covering_span, text_segments,
};
use crate::scope::copy_string;

verus! {

/// Runs of text whose spans touch are joined into one, so that an
/// expression split by an entity reference is still found whole; runs
/// with a gap between them stay apart.
pub open spec fn coalesce(segs: Seq<Spanned<String>>) -> Seq<(Seq<char>, ByteSpan)>
    decreases segs.len(),
{
    if segs.len() == 0 {
        Seq::empty()
    } else {
        let r = coalesce(segs.drop_last());
        let t = segs.last();
        if r.len() > 0 && r.last().1.end == t.span.start {
            r.drop_last().push((r.last().0 + t.value@, ByteSpan { start: r.last().1.start, end: t.span.end }))
        } else {
            r.push((t.value@, t.span))
        }
    }
}

/// What one joined run yields, at its place in the source (nothing when
/// its offsets would not fit the span type).
pub open spec fn run_findings(c: (Seq<char>, ByteSpan)) -> Seq<Finding> {
    if c.1.start + encode_utf8(c.0).len() <= u32::MAX {
        shift(harvest(encode_utf8(c.0), 0, 0, false, None), c.1.start as int)
    } else {
        Seq::empty()
    }
}

pub open spec fn runs_findings(cs: Seq<(Seq<char>, ByteSpan)>) -> Seq<Finding>
    decreases cs.len(),
{
    if cs.len() == 0 {
        Seq::empty()
    } else {
        runs_findings(cs.drop_last()) + run_findings(cs.last())
    }
}

/// Everything found in a literal whose text came in the runs `segs`.
pub open spec fn literal_findings(segs: Seq<Spanned<String>>) -> Seq<Finding> {
    runs_findings(coalesce(segs))
}

/// A literal built from the text runs `segs`: its placeholder keys and
/// bean candidates are exactly those found in them, in order.
pub open spec fn lit_harvested(v: ValueLit, segs: Seq<Spanned<String>>) -> bool {
    &&& realized(v.placeholders@, keys_of(literal_findings(segs)), 0)
    &&& realized(v.spel_refs@, refs_of(literal_findings(segs)), 0)
}

pub open spec fn run_view(s: Spanned<String>) -> (Seq<char>, ByteSpan) {
    (s.value@, s.span)
}

/// Joins byte-contiguous runs (see `coalesce`).
pub fn coalesce_contiguous_segments(segments: &Vec<Spanned<String>>) -> (r: Vec<Spanned<String>>)
    ensures
        r@.map_values(|s: Spanned<String>| run_view(s)) == coalesce(segments@),
{
    let mut merged: Vec<Spanned<String>> = Vec::new();
    let mut i: usize = 0;
    while i < segments.len()
        invariant
            i <= segments@.len(),
            merged@.map_values(|s: Spanned<String>| run_view(s)) == coalesce(segments@.subrange(0, i as int)),
        decreases segments@.len() - i,
    {
        proof {
            assert(segments@.subrange(0, i + 1).drop_last() =~= segments@.subrange(0, i as int));
        }
        let ghost before = merged@.map_values(|s: Spanned<String>| run_view(s));
        let t = &segments[i];
        let n = merged.len();
        if n > 0 && merged[n - 1].span.end == t.span.start {
            let mut prev = merged.pop().unwrap();
            prev.value.append(t.value.as_str());
            prev.span = ByteSpan { start: prev.span.start, end: t.span.end };
            merged.push(prev);
            proof {
                assert(merged@.map_values(|s: Spanned<String>| run_view(s)) =~= before.drop_last().push(
                    (before.last().0 + t.value@, ByteSpan { start: before.last().1.start, end: t.span.end }),
                ));
            }
        } else {
            merged.push(copy_spanned(t));
            proof {
                assert(merged@.map_values(|s: Spanned<String>| run_view(s)) =~= before.push((t.value@, t.span)));
            }
        }
        i += 1;
    }
    assert(segments@.subrange(0, segments@.len() as int) =~= segments@);
    merged
}

/// Finds every placeholder key and bean candidate in the text runs
/// `segments`, each run joined with the ones it touches first.
pub fn extract_placeholders_and_spel_refs(segments: &Vec<Spanned<String>>) -> (r: (
    Vec<Spanned<String>>,
    Vec<Spanned<String>>,
))
    ensures
        realized(r.0@, keys_of(literal_findings(segments@)), 0),
        realized(r.1@, refs_of(literal_findings(segments@)), 0),
{
    let runs = coalesce_contiguous_segments(segments);
    let ghost cs = coalesce(segments@);
    let mut placeholders: Vec<Spanned<String>> = Vec::new();
    let mut spel_refs: Vec<Spanned<String>> = Vec::new();
    let ghost empty: Seq<Spanned<String>> = Seq::empty();
    proof {
        lemma_appended_nothing(empty, 0);
        assert(runs@.len() == cs.len());
    }
    let mut i: usize = 0;
    while i < runs.len()
        invariant
            i <= runs@.len(),
            runs@.map_values(|s: Spanned<String>| run_view(s)) == cs,
            appended(empty, placeholders@, keys_of(runs_findings(cs.subrange(0, i as int))), 0),
            appended(empty, spel_refs@, refs_of(runs_findings(cs.subrange(0, i as int))), 0),
        decreases runs@.len() - i,
    {
        let run = &runs[i];
        let ghost c = cs[i as int];
        proof {
            assert(run_view(runs@[i as int]) == c);
            assert(cs.subrange(0, i + 1).drop_last() =~= cs.subrange(0, i as int));
            assert(cs.subrange(0, i + 1).last() == c);
            lemma_keys_refs_concat(runs_findings(cs.subrange(0, i as int)), run_findings(c));
        }
        let ghost p0 = placeholders@;
        let ghost s0 = spel_refs@;
        let text = run.value.as_str();
        let len = text.as_bytes().len();
        let room = 0xFFFF_FFFFu32 - run.span.start;
        if (len as u64) <= (room as u64) {
            extract_from_slice(text, run.span.start, 0, false, &mut placeholders, &mut spel_refs);
            proof {
                let h = harvest(encode_utf8(c.0), 0, 0, false, None);
                assert(c.0 == run.value@);
                assert(c.1 == run.span);
                assert(run_findings(c) == shift(h, c.1.start as int));
                lemma_realized_shift(placeholders@.subrange(p0.len() as int, placeholders@.len() as int), keys_of(h), c.1.start as int, 0);
                lemma_realized_shift(spel_refs@.subrange(s0.len() as int, spel_refs@.len() as int), refs_of(h), c.1.start as int, 0);
                crate::harvest::lemma_keys_refs_shift(h, c.1.start as int);
            }
        } else {
            proof {
                lemma_appended_nothing(p0, 0);
                lemma_appended_nothing(s0, 0);
                assert(keys_of(run_findings(c)) =~= Seq::<Finding>::empty());
                assert(refs_of(run_findings(c)) =~= Seq::<Finding>::empty());
            }
        }
        proof {
            lemma_appended_trans(empty, p0, placeholders@, keys_of(runs_findings(cs.subrange(0, i as int))), keys_of(run_findings(c)), 0);
            lemma_appended_trans(empty, s0, spel_refs@, refs_of(runs_findings(cs.subrange(0, i as int))), refs_of(run_findings(c)), 0);
        }
        i += 1;
    }
    proof {
        assert(cs.subrange(0, runs@.len() as int) =~= cs);
        assert(placeholders@.subrange(0, placeholders@.len() as int) =~= placeholders@);
        assert(spel_refs@.subrange(0, spel_refs@.len() as int) =~= spel_refs@);
    }
    (placeholders, spel_refs)
}

/// The one builder every literal goes through: the text as it stands,
/// with its `${..}` keys and `#{..}` bean candidates collected.
pub fn build_value_lit(text: Spanned<String>, span: ByteSpan, value_type: Option<Spanned<ClassRef>>) -> (r: ValueLit)
    ensures
        r.span == span,
        r.text == text,
        r.value_type == value_type,
        lit_harvested(r, seq![text]),
{
    let mut segs: Vec<Spanned<String>> = Vec::new();
    segs.push(copy_spanned(&text));
    let (placeholders, spel_refs) = extract_placeholders_and_spel_refs(&segs);
    proof {
        assert(segs@ =~= seq![text]);
    }
    ValueLit { span, text, value_type, placeholders, spel_refs }
}

/// As `build_value_lit`, searching the separate text runs `segments`
/// (whose spans are exact) rather than the merged `text`.
pub fn build_value_lit_from_segments(
    segments: &Vec<Spanned<String>>,
    text: Spanned<String>,
    span: ByteSpan,
    value_type: Option<Spanned<ClassRef>>,
) -> (r: ValueLit)
    ensures
        r.span == span,
        r.text == text,
        r.value_type == value_type,
        lit_harvested(r, segments@),
{
    let (placeholders, spel_refs) = extract_placeholders_and_spel_refs(segments);
    ValueLit { span, text, value_type, placeholders, spel_refs }
}

/// A literal from an attribute value.
pub fn value_lit_from_attr(attr: &XmlAttr) -> (r: ValueLit)
    ensures
        r.span == attr.value.span,
        r.text == attr.value,
        r.value_type is None,
        lit_harvested(r, seq![attr.value]),
{
    let text = spanned_attr(attr);
    let span = text.span;
    build_value_lit(text, span, None)
}

/// A literal from a `<value>` element: its direct text (searched run by
/// run), its span, and its `type=` (an empty one is none).
pub fn value_lit_from_element(element: &XmlElement) -> (r: ValueLit)
    ensures
        r.span == element.span,
        r.text.value@ == joined_text(text_segments(element.children@)),
        r.text.span == (match covering_span(text_segments(element.children@)) {
            Some(s) => s,
            None => element.span,
        }),
        class_view(r.value_type) == class_ref_spec(attr_value(element.attrs@, "type"@)),
        lit_harvested(r, text_segments(element.children@)),
{
    let segments = element_text_segments(element);
    let text = merge_text_segments(&segments, element.span);
    let value_type = class_ref_from_attr(&element.attrs, "type");
    build_value_lit_from_segments(&segments, text, element.span, value_type)
}

/// `new` is `old` with one diagnostic of `code` at `span` added.
pub open spec fn one_more(old: Seq<Diagnostic>, new: Seq<Diagnostic>, code: DiagCode, span: Option<ByteSpan>) -> bool {
    &&& new.len() == old.len() + 1
    &&& new.drop_last() == old
    &&& new.last().code == code
    &&& new.last().span == span
}

/// `one_more`, with the message `msg`.
pub open spec fn one_more_msg(
    old: Seq<Diagnostic>,
    new: Seq<Diagnostic>,
    code: DiagCode,
    span: Option<ByteSpan>,
    msg: Seq<char>,
) -> bool {
    &&& one_more(old, new, code, span)
    &&& new.last().message@ == msg
}

/// A reference read from `a` with `kind`: an empty value names nothing.
pub open spec fn ref_spec(a: XmlAttr, kind: RefKind) -> Option<Spanned<BeanRef>> {
    if a.value.value@.len() == 0 {
        None
    } else {
        Some(Spanned { value: BeanRef { raw: a.value.value, kind }, span: a.value.span })
    }
}

/// What reading a reference from `a` does to the diagnostics.
pub open spec fn ref_reported(a: XmlAttr, old: Seq<Diagnostic>, new: Seq<Diagnostic>) -> bool {
    if a.value.value@.len() == 0 {
        one_more_msg(old, new, DiagCode::RefWithoutTarget, Some(a.value.span), "'"@ + a.name@ + "' attribute is present but empty"@)
    } else {
        new == old
    }
}

pub fn push_diag(diagnostics: &mut Vec<Diagnostic>, code: DiagCode, span: Option<ByteSpan>, message: String)
    ensures
        one_more_msg(old(diagnostics)@, final(diagnostics)@, code, span, message@),
{
    diagnostics.push(Diagnostic { code, span, message });
    proof {
        assert(final(diagnostics)@.drop_last() =~= old(diagnostics)@);
    }
}

/// A reference of `kind` from an attribute; a present but empty value
/// names nothing and is reported (`RefWithoutTarget`).
pub fn bean_ref_from_attr(attr: &XmlAttr, kind: RefKind, diagnostics: &mut Vec<Diagnostic>) -> (r: Option<
    Spanned<BeanRef>,
>)
    ensures
        r == ref_spec(*attr, kind),
        ref_reported(*attr, old(diagnostics)@, final(diagnostics)@),
{
    if attr.value.value.as_str().unicode_len() == 0 {
        let mut m = "'".to_owned();
        m.append(attr.name.as_str());
        m.append("' attribute is present but empty");
        push_diag(diagnostics, DiagCode::RefWithoutTarget, Some(attr.value.span), m);
        return None;
    }
    Some(Spanned { value: BeanRef { raw: copy_string(&attr.value.value), kind }, span: attr.value.span })
}

/// A bean reference (`ref=`, `key-ref=`, `value-ref=`, ...) from an
/// attribute.
pub fn ref_from_attr(attr: &XmlAttr, diagnostics: &mut Vec<Diagnostic>) -> (r: Option<Spanned<BeanRef>>)
    ensures
        r == ref_spec(*attr, RefKind::Bean),
        ref_reported(*attr, old(diagnostics)@, final(diagnostics)@),
{
    bean_ref_from_attr(attr, RefKind::Bean, diagnostics)
}

/// Which attribute of a `<ref>` names its target: `bean=`, else `local=`,
/// else `parent=`.
pub open spec fn ref_target(attrs: Seq<XmlAttr>) -> Option<(XmlAttr, RefKind)> {
    if attr_named(attrs, "bean"@) is Some {
        Some((attr_named(attrs, "bean"@)->0, RefKind::Bean))
    } else if attr_named(attrs, "local"@) is Some {
        Some((attr_named(attrs, "local"@)->0, RefKind::Local))
    } else if attr_named(attrs, "parent"@) is Some {
        Some((attr_named(attrs, "parent"@)->0, RefKind::ParentContainer))
    } else {
        None
    }
}

/// Which attribute of an `<idref>` names its target: `bean=`, else
/// `local=`.
pub open spec fn idref_target(attrs: Seq<XmlAttr>) -> Option<(XmlAttr, RefKind)> {
    if attr_named(attrs, "bean"@) is Some {
        Some((attr_named(attrs, "bean"@)->0, RefKind::Bean))
    } else if attr_named(attrs, "local"@) is Some {
        Some((attr_named(attrs, "local"@)->0, RefKind::Local))
    } else {
        None
    }
}

/// What a reference element yields given which attribute names its
/// target.
pub open spec fn target_ref(t: Option<(XmlAttr, RefKind)>) -> Option<Spanned<BeanRef>> {
    match t {
        Some((a, k)) => ref_spec(a, k),
        None => None,
    }
}

/// What reading the target `t` of the element `e` does to the diagnostics;
/// `none_msg` is the report when `e` names no target.
pub open spec fn target_reported(
    t: Option<(XmlAttr, RefKind)>,
    e: XmlElement,
    none_msg: Seq<char>,
    old: Seq<Diagnostic>,
    new: Seq<Diagnostic>,
) -> bool {
    match t {
        Some((a, _)) => ref_reported(a, old, new),
        None => one_more_msg(old, new, DiagCode::RefWithoutTarget, Some(e.span), none_msg),
    }
}

/// `<ref bean=|local=|parent=>`; with none of them, nothing, reported.
pub fn ref_from_element(element: &XmlElement, diagnostics: &mut Vec<Diagnostic>) -> (r: Option<Spanned<BeanRef>>)
    ensures
        r == target_ref(ref_target(element.attrs@)),
        target_reported(ref_target(element.attrs@), *element, "<ref> has none of bean=/local=/parent="@, old(diagnostics)@, final(diagnostics)@),
{
    if let Some(k) = find_attr(&element.attrs, "bean") {
        return bean_ref_from_attr(&element.attrs[k], RefKind::Bean, diagnostics);
    }
    if let Some(k) = find_attr(&element.attrs, "local") {
        return bean_ref_from_attr(&element.attrs[k], RefKind::Local, diagnostics);
    }
    if let Some(k) = find_attr(&element.attrs, "parent") {
        return bean_ref_from_attr(&element.attrs[k], RefKind::ParentContainer, diagnostics);
    }
    push_diag(diagnostics, DiagCode::RefWithoutTarget, Some(element.span), "<ref> has none of bean=/local=/parent=".to_owned());
    None
}

/// `<idref bean=|local=>`; with neither, nothing, reported.
pub fn idref_from_element(element: &XmlElement, diagnostics: &mut Vec<Diagnostic>) -> (r: Option<Spanned<BeanRef>>)
    ensures
        r == target_ref(idref_target(element.attrs@)),
        target_reported(idref_target(element.attrs@), *element, "<idref> has none of bean=/local="@, old(diagnostics)@, final(diagnostics)@),
{
    if let Some(k) = find_attr(&element.attrs, "bean") {
        return bean_ref_from_attr(&element.attrs[k], RefKind::Bean, diagnostics);
    }
    if let Some(k) = find_attr(&element.attrs, "local") {
        return bean_ref_from_attr(&element.attrs[k], RefKind::Local, diagnostics);
    }
    push_diag(diagnostics, DiagCode::RefWithoutTarget, Some(element.span), "<idref> has none of bean=/local=".to_owned());
    None
}

/// A literal read from the attribute `a`.
pub open spec fn lit_of_attr(v: ValueLit, a: XmlAttr) -> bool {
    &&& v.span == a.value.span
    &&& v.text == a.value
    &&& v.value_type is None
    &&& lit_harvested(v, seq![a.value])
}

/// The value chosen for a `<property>`, `<constructor-arg>` or map entry
/// side: the literal attribute first, then the reference attribute (when
/// it names something), then the child element's value, else `Null` at
/// `span`.
pub open spec fn chosen(
    lit_attr: Option<XmlAttr>,
    ref_attr: Option<XmlAttr>,
    child: Option<InjectValue>,
    span: ByteSpan,
    r: InjectValue,
) -> bool {
    match lit_attr {
        Some(a) => r matches InjectValue::Value(v) && lit_of_attr(v, a),
        None => {
            if ref_attr is Some && ref_spec(ref_attr->0, RefKind::Bean) is Some {
                r == InjectValue::Ref(ref_spec(ref_attr->0, RefKind::Bean)->0)
            } else {
                match child {
                    Some(c) => r == c,
                    None => r == InjectValue::Null(span),
                }
            }
        },
    }
}

/// `chosen`, where what the child element gives is known only through
/// whether it can give `Some(r)` (`child_gives`) or gives nothing
/// (`child_none`).
pub open spec fn picked(
    lit_attr: Option<XmlAttr>,
    ref_attr: Option<XmlAttr>,
    span: ByteSpan,
    r: InjectValue,
    child_gives: bool,
    child_none: bool,
) -> bool {
    match lit_attr {
        Some(a) => r matches InjectValue::Value(v) && lit_of_attr(v, a),
        None => {
            if ref_attr is Some && ref_spec(ref_attr->0, RefKind::Bean) is Some {
                r == InjectValue::Ref(ref_spec(ref_attr->0, RefKind::Bean)->0)
            } else {
                child_gives || (child_none && r == InjectValue::Null(span))
            }
        },
    }
}

/// What choosing a value does to the diagnostics: the reference attribute
/// is read (and an empty one reported) only when there is no literal.
pub open spec fn chosen_reported(lit_attr: Option<XmlAttr>, ref_attr: Option<XmlAttr>, old: Seq<Diagnostic>, new: Seq<Diagnostic>) -> bool {
    if lit_attr is None && ref_attr is Some {
        ref_reported(ref_attr->0, old, new)
    } else {
        new == old
    }
}

/// Both a literal and a reference attribute on one element are reported
/// once at the element (`ConflictingValueAndRef`); otherwise nothing.
pub open spec fn conflict_reported(
    lit_attr: Option<XmlAttr>,
    ref_attr: Option<XmlAttr>,
    span: ByteSpan,
    msg: Seq<char>,
    old: Seq<Diagnostic>,
    new: Seq<Diagnostic>,
) -> bool {
    if lit_attr is Some && ref_attr is Some {
        one_more_msg(old, new, DiagCode::ConflictingValueAndRef, Some(span), msg)
    } else {
        new == old
    }
}

pub open spec fn opt_attr(attrs: Seq<XmlAttr>, k: Option<usize>) -> Option<XmlAttr> {
    match k {
        Some(i) => Some(attrs[i as int]),
        None => None,
    }
}

/// Picks the value of a `<property>`, `<constructor-arg>`, or map entry
/// side by the precedence in `chosen`.
pub fn resolve_value(
    attrs: &Vec<XmlAttr>,
    lit_attr: Option<usize>,
    ref_attr: Option<usize>,
    child_value: Option<InjectValue>,
    span: ByteSpan,
    diagnostics: &mut Vec<Diagnostic>,
) -> (r: InjectValue)
    requires
        lit_attr matches Some(i) ==> i < attrs@.len(),
        ref_attr matches Some(i) ==> i < attrs@.len(),
    ensures
        chosen(opt_attr(attrs@, lit_attr), opt_attr(attrs@, ref_attr), child_value, span, r),
        chosen_reported(opt_attr(attrs@, lit_attr), opt_attr(attrs@, ref_attr), old(diagnostics)@, final(diagnostics)@),
{
    if let Some(i) = lit_attr {
        return InjectValue::Value(value_lit_from_attr(&attrs[i]));
    }
    if let Some(i) = ref_attr {
        if let Some(r) = ref_from_attr(&attrs[i], diagnostics) {
            return InjectValue::Ref(r);
        }
    }
    match child_value {
        Some(v) => v,
        None => InjectValue::Null(span),
    }
}

} // verus!
