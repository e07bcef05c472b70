//! Reading an element of the tree: an attribute by exact name, a
//! `true`/`false` flag, a class reference, and the element's direct text.
use vstd::prelude::*;
use crate::events::{XmlAttr, XmlElement, XmlNode};
use crate::model::{ByteSpan, ClassRef, Spanned};
use crate::scope::copy_string;
use crate::text::str_eq;

verus! {

/// The first position from `i` of an attribute named `name`.
pub open spec fn attr_index_from(attrs: Seq<XmlAttr>, name: Seq<char>, i: int) -> Option<int>
    decreases attrs.len() - i,
{
    if i < 0 || i >= attrs.len() {
        None
    } else if attrs[i].name@ == name {
        Some(i)
    } else {
        attr_index_from(attrs, name, i + 1)
    }
}

/// The first attribute named `name`.
pub open spec fn attr_named(attrs: Seq<XmlAttr>, name: Seq<char>) -> Option<XmlAttr> {
    match attr_index_from(attrs, name, 0) {
        Some(k) => Some(attrs[k]),
        None => None,
    }
}

/// The value (text and span) of the first attribute named `name`.
pub open spec fn attr_value(attrs: Seq<XmlAttr>, name: Seq<char>) -> Option<Spanned<String>> {
    match attr_named(attrs, name) {
        Some(a) => Some(a.value),
        None => None,
    }
}

/// `true` / `false` literally; anything else, or no attribute, is no
/// opinion.
pub open spec fn flag_of(v: Option<Spanned<String>>) -> Option<bool> {
    match v {
        Some(s) => if s.value@ == "true"@ {
            Some(true)
        } else if s.value@ == "false"@ {
            Some(false)
        } else {
            None
        },
        None => None,
    }
}

/// A class reference from an attribute value; an empty value is none.
pub open spec fn class_ref_spec(v: Option<Spanned<String>>) -> Option<(Seq<char>, ByteSpan)> {
    match v {
        Some(s) => if s.value@.len() == 0 {
            None
        } else {
            Some((s.value@, s.span))
        },
        None => None,
    }
}

pub open spec fn class_view(c: Option<Spanned<ClassRef>>) -> Option<(Seq<char>, ByteSpan)> {
    match c {
        Some(x) => Some((x.value.raw@, x.span)),
        None => None,
    }
}

pub proof fn lemma_attr_index_bounds(attrs: Seq<XmlAttr>, name: Seq<char>, i: int)
    ensures
        attr_index_from(attrs, name, i) matches Some(k) ==> i <= k < attrs.len() && attrs[k].name@ == name,
    decreases attrs.len() - i,
{
    if 0 <= i < attrs.len() && attrs[i].name@ != name {
        lemma_attr_index_bounds(attrs, name, i + 1);
    }
}

/// The position of the first attribute named `name`.
pub fn find_attr(attrs: &Vec<XmlAttr>, name: &str) -> (r: Option<usize>)
    ensures
        r matches Some(k) ==> attr_index_from(attrs@, name@, 0) == Some(k as int),
        r is None ==> attr_index_from(attrs@, name@, 0) is None,
        r matches Some(k) ==> k < attrs@.len() && attrs@[k as int].name@ == name@,
        r matches Some(k) ==> attr_named(attrs@, name@) == Some(attrs@[k as int]),
        r is None ==> attr_named(attrs@, name@) is None,
{
    proof { lemma_attr_index_bounds(attrs@, name@, 0); }
    let mut i: usize = 0;
    while i < attrs.len()
        invariant
            i <= attrs@.len(),
            attr_index_from(attrs@, name@, 0) == attr_index_from(attrs@, name@, i as int),
        decreases attrs@.len() - i,
    {
        if str_eq(attrs[i].name.as_str(), name) {
            return Some(i);
        }
        i += 1;
    }
    None
}

/// A copy of a spanned string, equal to it.
pub fn copy_spanned(s: &Spanned<String>) -> (r: Spanned<String>)
    ensures
        r == *s,
{
    Spanned { value: copy_string(&s.value), span: s.span }
}

/// An attribute's value with its span.
pub fn spanned_attr(a: &XmlAttr) -> (r: Spanned<String>)
    ensures
        r == a.value,
{
    copy_spanned(&a.value)
}

/// The value, with its span, of the first attribute named `name`.
pub fn find_spanned(attrs: &Vec<XmlAttr>, name: &str) -> (r: Option<Spanned<String>>)
    ensures
        r == attr_value(attrs@, name@),
{
    match find_attr(attrs, name) {
        Some(k) => Some(spanned_attr(&attrs[k])),
        None => None,
    }
}

/// The first attribute named `name`, read as a `true`/`false` flag.
pub fn find_bool_attr(attrs: &Vec<XmlAttr>, name: &str) -> (r: Option<bool>)
    ensures
        r == flag_of(attr_value(attrs@, name@)),
{
    match find_attr(attrs, name) {
        Some(k) => {
            let v = attrs[k].value.value.as_str();
            if str_eq(v, "true") {
                Some(true)
            } else if str_eq(v, "false") {
                Some(false)
            } else {
                None
            }
        },
        None => None,
    }
}

/// A class reference read from the first attribute named `name`; an
/// empty value counts as absent, so a class reference is never empty.
pub fn class_ref_from_attr(attrs: &Vec<XmlAttr>, name: &str) -> (r: Option<Spanned<ClassRef>>)
    ensures
        class_view(r) == class_ref_spec(attr_value(attrs@, name@)),
{
    match find_attr(attrs, name) {
        Some(k) => {
            let a = &attrs[k];
            if a.value.value.as_str().unicode_len() == 0 {
                None
            } else {
                Some(Spanned { value: ClassRef { raw: copy_string(&a.value.value) }, span: a.value.span })
            }
        },
        None => None,
    }
}

/// The direct text children of an element, in order, each as it stands.
pub open spec fn text_segments(children: Seq<XmlNode>) -> Seq<Spanned<String>>
    decreases children.len(),
{
    if children.len() == 0 {
        Seq::empty()
    } else {
        let rest = text_segments(children.drop_last());
        match children.last() {
            XmlNode::Text(t) => rest.push(t),
            XmlNode::Element(_) => rest,
        }
    }
}

/// Every direct text child of `element`, unmerged, in order: each one's
/// span is exactly its own text.
pub fn element_text_segments(element: &XmlElement) -> (r: Vec<Spanned<String>>)
    ensures
        r@ == text_segments(element.children@),
{
    let mut r: Vec<Spanned<String>> = Vec::new();
    let mut i: usize = 0;
    while i < element.children.len()
        invariant
            i <= element.children@.len(),
            r@ == text_segments(element.children@.subrange(0, i as int)),
        decreases element.children@.len() - i,
    {
        proof {
            assert(element.children@.subrange(0, i + 1).drop_last() =~= element.children@.subrange(0, i as int));
        }
        match &element.children[i] {
            XmlNode::Text(t) => {
                r.push(copy_spanned(t));
            },
            XmlNode::Element(_) => {},
        }
        i += 1;
    }
    assert(element.children@.subrange(0, element.children@.len() as int) =~= element.children@);
    r
}

/// The concatenated text of `segs`.
pub open spec fn joined_text(segs: Seq<Spanned<String>>) -> Seq<char>
    decreases segs.len(),
{
    if segs.len() == 0 {
        Seq::empty()
    } else {
        joined_text(segs.drop_last()) + segs.last().value@
    }
}

pub open spec fn min_u32(a: u32, b: u32) -> u32 {
    if a <= b { a } else { b }
}

pub open spec fn max_u32(a: u32, b: u32) -> u32 {
    if a >= b { a } else { b }
}

/// The smallest span covering every segment, if there is one.
pub open spec fn covering_span(segs: Seq<Spanned<String>>) -> Option<ByteSpan>
    decreases segs.len(),
{
    if segs.len() == 0 {
        None
    } else {
        let t = segs.last().span;
        match covering_span(segs.drop_last()) {
            Some(s) => Some(ByteSpan { start: min_u32(s.start, t.start), end: max_u32(s.end, t.end) }),
            None => Some(t),
        }
    }
}

/// Concatenates `segments` in order into one string spanning from the
/// first segment's start to the last one's end; `fallback` when there is
/// no segment. A display string only: with gaps between the segments,
/// its span covers text that is not in it.
pub fn merge_text_segments(segments: &Vec<Spanned<String>>, fallback: ByteSpan) -> (r: Spanned<String>)
    ensures
        r.value@ == joined_text(segments@),
        r.span == (match covering_span(segments@) {
            Some(s) => s,
            None => fallback,
        }),
{
    let mut value = String::new();
    let mut span: Option<ByteSpan> = None;
    let mut i: usize = 0;
    while i < segments.len()
        invariant
            i <= segments@.len(),
            value@ == joined_text(segments@.subrange(0, i as int)),
            span == covering_span(segments@.subrange(0, i as int)),
        decreases segments@.len() - i,
    {
        proof {
            assert(segments@.subrange(0, i + 1).drop_last() =~= segments@.subrange(0, i as int));
        }
        let t = &segments[i];
        value.append(t.value.as_str());
        span = Some(match span {
            Some(s) => ByteSpan {
                start: if s.start <= t.span.start { s.start } else { t.span.start },
                end: if s.end >= t.span.end { s.end } else { t.span.end },
            },
            None => t.span,
        });
        i += 1;
    }
    assert(segments@.subrange(0, segments@.len() as int) =~= segments@);
    Spanned {
        value,
        span: match span {
            Some(s) => s,
            None => fallback,
        },
    }
}

/// All of `element`'s direct text as one display string (see
/// `merge_text_segments`), spanning the element itself when it has none.
pub fn element_text(element: &XmlElement) -> (r: Spanned<String>)
    ensures
        r.value@ == joined_text(text_segments(element.children@)),
        r.span == (match covering_span(text_segments(element.children@)) {
            Some(s) => s,
            None => element.span,
        }),
{
    let segs = element_text_segments(element);
    merge_text_segments(&segs, element.span)
}

/// A spanned string that is empty and sits at `span`.
pub fn empty_at(span: ByteSpan) -> (r: Spanned<String>)
    ensures
        r.value@ == Seq::<char>::empty(),
        r.span == span,
{
    Spanned { value: String::new(), span }
}

/// The value of the first attribute named `name`, or an empty string at
/// `fallback` when there is none.
pub fn spanned_or_empty(attrs: &Vec<XmlAttr>, name: &str, fallback: ByteSpan) -> (r: Spanned<String>)
    ensures
        attr_value(attrs@, name@) matches Some(v) ==> r == v,
        attr_value(attrs@, name@) is None ==> r.value@ == Seq::<char>::empty() && r.span == fallback,
{
    match find_spanned(attrs, name) {
        Some(v) => v,
        None => empty_at(fallback),
    }
}

} // verus!
