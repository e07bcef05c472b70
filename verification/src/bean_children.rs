//! A `<bean>`'s non-value children: `<meta>`, `<qualifier>`,
//! `<lookup-method>` and `<replaced-method>`.
use vstd::prelude::*;
use crate::encoding::skip_white;
use crate::events::{XmlAttr, XmlElement, XmlNode};
use crate::literal::{one_more, one_more_msg, push_diag, ref_reported, ref_spec, bean_ref_from_attr};
use crate::model::{AttrPair, BeanRef, ByteSpan, Diagnostic, DiagCode, LookupMethod, MetaEntry, Qualifier, RefKind, ReplacedMethod, Spanned};
use crate::reading::{attr_named, attr_value, class_ref_from_attr, class_ref_spec, class_view, covering_span, element_text, find_attr, find_spanned, joined_text, spanned_attr, spanned_or_empty, text_segments};
use crate::scope::{element_qname, element_qname_of, in_beans_ns, is_beans_ns, scope_for, NsScope, ScopeView};
use crate::text::str_eq;
use crate::tokens::non_empty_trimmed;
use crate::unicode::char_is_whitespace;
use crate::wellformed::{class_ref_ok, opt_bean_ref_ok};

verus! {

/// `<meta key= value=>`; either missing, nothing.
pub open spec fn meta_entry_of(e: XmlElement) -> Option<MetaEntry> {
    match (attr_value(e.attrs@, "key"@), attr_value(e.attrs@, "value"@)) {
        (Some(k), Some(v)) => Some(MetaEntry { key: k, value: v }),
        _ => None,
    }
}

pub fn parse_meta_entry(element: &XmlElement) -> (r: Option<MetaEntry>)
    ensures
        r == meta_entry_of(*element),
{
    let key = find_spanned(&element.attrs, "key");
    let value = find_spanned(&element.attrs, "value");
    match (key, value) {
        (Some(k), Some(v)) => Some(MetaEntry { key: k, value: v }),
        _ => None,
    }
}

/// A child of the given local name in the beans namespace (resolved in
/// its own scope).
pub open spec fn is_beans_child(sc: ScopeView, c: XmlElement, local: Seq<char>) -> bool {
    let q = element_qname(sc, c);
    in_beans_ns(q.0) && q.1 == local
}

pub fn beans_child_named(scope: &NsScope, c: &XmlElement, local: &str) -> (r: bool)
    ensures
        r == is_beans_child(scope@, *c, local@),
{
    let q = element_qname_of(c, scope);
    is_beans_ns(q.0.as_str()) && str_eq(q.1.as_str(), local)
}

/// `<attribute key= value=>`; either missing, nothing.
pub open spec fn attribute_pair_of(e: XmlElement) -> Option<AttrPair> {
    match (attr_value(e.attrs@, "key"@), attr_value(e.attrs@, "value"@)) {
        (Some(k), Some(v)) => Some(AttrPair { key: k, value: v }),
        _ => None,
    }
}

/// The `<attribute>` pairs among a qualifier's children, in order.
pub open spec fn qualifier_attrs(sc: ScopeView, children: Seq<XmlNode>) -> Seq<AttrPair>
    decreases children.len(),
{
    if children.len() == 0 {
        Seq::empty()
    } else {
        let rest = qualifier_attrs(sc, children.drop_last());
        match children.last() {
            XmlNode::Element(c) => if is_beans_child(sc, c, "attribute"@) && attribute_pair_of(c) is Some {
                rest.push(attribute_pair_of(c)->0)
            } else {
                rest
            },
            XmlNode::Text(_) => rest,
        }
    }
}

/// `<qualifier type= value=>` with its `<attribute>` children.
pub open spec fn qualifier_ok(sc: ScopeView, e: XmlElement, q: Qualifier) -> bool {
    &&& q.span == e.span
    &&& class_view(q.type_) == class_ref_spec(attr_value(e.attrs@, "type"@))
    &&& q.value == attr_value(e.attrs@, "value"@)
    &&& q.attributes@ == qualifier_attrs(scope_for(sc, e), e.children@)
}

pub fn parse_qualifier(scope: &NsScope, element: &XmlElement) -> (r: Qualifier)
    ensures
        qualifier_ok(scope@, *element, r),
        class_ref_ok(r.type_),
{
    let own = NsScope::from_element(element, Some(scope));
    let type_ = class_ref_from_attr(&element.attrs, "type");
    let value = find_spanned(&element.attrs, "value");
    let mut attributes: Vec<AttrPair> = Vec::new();
    let mut i: usize = 0;
    while i < element.children.len()
        invariant
            i <= element.children@.len(),
            own@ == scope_for(scope@, *element),
            attributes@ == qualifier_attrs(own@, element.children@.subrange(0, i as int)),
        decreases element.children@.len() - i,
    {
        proof {
            assert(element.children@.subrange(0, i + 1).drop_last() =~= element.children@.subrange(0, i as int));
        }
        if let XmlNode::Element(c) = &element.children[i] {
            if beans_child_named(&own, c, "attribute") {
                let key = find_spanned(&c.attrs, "key");
                let val = find_spanned(&c.attrs, "value");
                match (key, val) {
                    (Some(k), Some(v)) => {
                        attributes.push(AttrPair { key: k, value: v });
                    },
                    _ => {},
                }
            }
        }
        i += 1;
    }
    proof {
        assert(element.children@.subrange(0, element.children@.len() as int) =~= element.children@);
    }
    Qualifier { span: element.span, type_, value, attributes }
}

/// A required reference attribute: absent is reported at the element,
/// present but empty at the value.
pub open spec fn required_ref_spec(attrs: Seq<XmlAttr>, name: Seq<char>) -> Option<Spanned<BeanRef>> {
    match attr_named(attrs, name) {
        Some(a) => ref_spec(a, RefKind::Bean),
        None => None,
    }
}

pub open spec fn required_ref_reported(e: XmlElement, name: Seq<char>, old: Seq<Diagnostic>, new: Seq<Diagnostic>) -> bool {
    match attr_named(e.attrs@, name) {
        Some(a) => ref_reported(a, old, new),
        None => one_more_msg(old, new, DiagCode::RefWithoutTarget, Some(e.span), "<"@ + e.name@ + "> has no "@ + name + "="@),
    }
}

pub fn required_bean_ref(element: &XmlElement, attr_name: &str, diagnostics: &mut Vec<Diagnostic>) -> (r: Option<
    Spanned<BeanRef>,
>)
    ensures
        r == required_ref_spec(element.attrs@, attr_name@),
        required_ref_reported(*element, attr_name@, old(diagnostics)@, final(diagnostics)@),
{
    match find_attr(&element.attrs, attr_name) {
        Some(k) => bean_ref_from_attr(&element.attrs[k], RefKind::Bean, diagnostics),
        None => {
            let mut m = "<".to_owned();
            m.append(element.name.as_str());
            m.append("> has no ");
            m.append(attr_name);
            m.append("=");
            push_diag(diagnostics, DiagCode::RefWithoutTarget, Some(element.span), m);
            None
        },
    }
}

/// `<lookup-method name= bean=>`; `bean=` is required.
pub open spec fn lookup_ok(e: XmlElement, l: Spanned<LookupMethod>) -> bool {
    &&& l.span == e.span
    &&& l.value.name == attr_value(e.attrs@, "name"@)
    &&& l.value.bean == required_ref_spec(e.attrs@, "bean"@)
}

pub fn parse_lookup_method(element: &XmlElement, diagnostics: &mut Vec<Diagnostic>) -> (r: Spanned<LookupMethod>)
    ensures
        lookup_ok(*element, r),
        opt_bean_ref_ok(r.value.bean),
        required_ref_reported(*element, "bean"@, old(diagnostics)@, final(diagnostics)@),
{
    let name = find_spanned(&element.attrs, "name");
    let bean = required_bean_ref(element, "bean", diagnostics);
    Spanned { value: LookupMethod { name, bean }, span: element.span }
}

/// All of `t` is Unicode whitespace.
pub open spec fn blank(t: Seq<char>) -> bool {
    skip_white(t, 0) >= t.len()
}

pub fn is_blank(s: &str) -> (r: bool)
    ensures
        r == blank(s@),
{
    let n = s.unicode_len();
    let mut i: usize = 0;
    while i < n && char_is_whitespace(s.get_char(i))
        invariant
            n == s@.len(),
            i <= n,
            skip_white(s@, 0) == skip_white(s@, i as int),
        decreases n - i,
    {
        i += 1;
    }
    proof {
        crate::harvest::lemma_skip_white_bounds(s@, i as int);
    }
    i >= n
}

/// The `<arg-type>` values among a replaced method's children, in order.
pub open spec fn arg_types_ok(sc: ScopeView, children: Seq<XmlNode>, out: Seq<Spanned<String>>) -> bool
    decreases children.len(),
{
    if children.len() == 0 {
        out.len() == 0
    } else {
        match children.last() {
            XmlNode::Element(c) => if is_beans_child(sc, c, "arg-type"@) && arg_type_found(c) {
                out.len() > 0 && arg_type_ok(c, out.last()) && arg_types_ok(sc, children.drop_last(), out.drop_last())
            } else {
                arg_types_ok(sc, children.drop_last(), out)
            },
            XmlNode::Text(_) => arg_types_ok(sc, children.drop_last(), out),
        }
    }
}

/// The `match=` of an `<arg-type>`, when present and not blank.
pub open spec fn match_attr(e: XmlElement) -> Option<Spanned<String>> {
    match attr_value(e.attrs@, "match"@) {
        Some(v) => if blank(v.value@) { None } else { Some(v) },
        None => None,
    }
}

/// The trimmed text of an `<arg-type>`: its text, trimmed of ASCII
/// whitespace, when something is left.
pub open spec fn text_trimmed_of(e: XmlElement) -> Option<(Seq<char>, ByteSpan)> {
    let segs = text_segments(e.children@);
    let sp = match covering_span(segs) {
        Some(s) => s,
        None => e.span,
    };
    crate::tokens::trimmed_of(joined_text(segs), sp)
}

pub open spec fn arg_type_found(e: XmlElement) -> bool {
    match_attr(e) is Some || text_trimmed_of(e) is Some
}

pub open spec fn arg_type_ok(e: XmlElement, s: Spanned<String>) -> bool {
    match match_attr(e) {
        Some(v) => s == v,
        None => text_trimmed_of(e) == Some((s.value@, s.span)),
    }
}

/// `<replaced-method name= replacer=>` with its `<arg-type>` children;
/// `replacer=` is required, a missing `name=` is an empty name.
pub open spec fn replaced_ok(sc: ScopeView, e: XmlElement, r: Spanned<ReplacedMethod>) -> bool {
    &&& r.span == e.span
    &&& match attr_value(e.attrs@, "name"@) {
        Some(v) => r.value.name == v,
        None => r.value.name.value@ == Seq::<char>::empty() && r.value.name.span == e.span,
    }
    &&& r.value.replacer == required_ref_spec(e.attrs@, "replacer"@)
    &&& arg_types_ok(scope_for(sc, e), e.children@, r.value.arg_types@)
}

/// One `<arg-type>` (see `arg_type_ok`), if it gives anything.
fn arg_type_value(element: &XmlElement) -> (r: Option<Spanned<String>>)
    ensures
        r is Some <==> arg_type_found(*element),
        r matches Some(s) ==> arg_type_ok(*element, s),
{
    if let Some(k) = find_attr(&element.attrs, "match") {
        let a = &element.attrs[k];
        if !is_blank(a.value.value.as_str()) {
            return Some(spanned_attr(a));
        }
    }
    non_empty_trimmed(element_text(element))
}

pub fn parse_replaced_method(scope: &NsScope, element: &XmlElement, diagnostics: &mut Vec<Diagnostic>) -> (r: Spanned<ReplacedMethod>)
    ensures
        replaced_ok(scope@, *element, r),
        opt_bean_ref_ok(r.value.replacer),
        required_ref_reported(*element, "replacer"@, old(diagnostics)@, final(diagnostics)@),
{
    let own = NsScope::from_element(element, Some(scope));
    let name = spanned_or_empty(&element.attrs, "name", element.span);
    let replacer = required_bean_ref(element, "replacer", diagnostics);
    let mut arg_types: Vec<Spanned<String>> = Vec::new();
    let mut i: usize = 0;
    while i < element.children.len()
        invariant
            i <= element.children@.len(),
            own@ == scope_for(scope@, *element),
            arg_types_ok(own@, element.children@.subrange(0, i as int), arg_types@),
        decreases element.children@.len() - i,
    {
        proof {
            assert(element.children@.subrange(0, i + 1).drop_last() =~= element.children@.subrange(0, i as int));
        }
        let ghost before = arg_types@;
        if let XmlNode::Element(c) = &element.children[i] {
            if beans_child_named(&own, c, "arg-type") {
                match arg_type_value(c) {
                    Some(v) => {
                        arg_types.push(v);
                        proof {
                            assert(arg_types@.drop_last() =~= before);
                        }
                    },
                    None => {},
                }
            }
        }
        i += 1;
    }
    proof {
        assert(element.children@.subrange(0, element.children@.len() as int) =~= element.children@);
    }
    Spanned { value: ReplacedMethod { name, replacer, arg_types }, span: element.span }
}

} // verus!
