//! `<property>` and `<constructor-arg>` elements: their attributes, their
//! `<meta>` children, and their value, chosen as `value=` first, then
//! `ref=`, then the first other child element, else `Null`.
use vstd::prelude::*;
use vstd::utf8::encode_utf8;
use crate::bean_children::{beans_child_named, is_beans_child, meta_entry_of, parse_meta_entry};
use crate::collection::{first_value, first_value_adds};
use crate::events::{XmlElement, XmlNode};
use crate::inject_value::{budget, extends, lemma_extends_refl, lemma_extends_trans, parse_inject_value_child};
use crate::literal::{chosen, chosen_reported, conflict_reported, opt_attr, picked, push_diag, resolve_value};
use crate::model::{ConstructorArg, DiagCode, Diagnostic, InjectValue, MetaEntry, Property};
use crate::reading::{attr_named, attr_value, class_ref_from_attr, class_ref_spec, class_view, find_attr, find_spanned, spanned_or_empty};
use crate::scope::{scope_for, NsScope, ScopeView};
use crate::tokens::{parse_u32, u32_of};
use crate::wellformed::{class_ref_ok, inject_ok};

verus! {

/// The `<meta key= value=>` entries among `children`, in order.
pub open spec fn metas_of(sc: ScopeView, children: Seq<XmlNode>) -> Seq<MetaEntry>
    decreases children.len(),
{
    if children.len() == 0 {
        Seq::empty()
    } else {
        let rest = metas_of(sc, children.drop_last());
        match children.last() {
            XmlNode::Element(c) => if is_beans_child(sc, c, "meta"@) && meta_entry_of(c) is Some {
                rest.push(meta_entry_of(c)->0)
            } else {
                rest
            },
            XmlNode::Text(_) => rest,
        }
    }
}

/// The value of a `<property>` or `<constructor-arg>` element `e` (whose
/// own scope is `own`): `value=`, else a non-empty `ref=`, else the first
/// child element that is not `<meta>`, else `Null`.
pub open spec fn holder_value_ok(own: ScopeView, depth: int, e: XmlElement, v: InjectValue) -> bool
    decreases e, 2int,
{
    picked(
        attr_named(e.attrs@, "value"@),
        attr_named(e.attrs@, "ref"@),
        e.span,
        v,
        first_value(own, depth, e.children@, "meta"@, Some(v)),
        first_value(own, depth, e.children@, "meta"@, None),
    )
}

/// The text a `<property>`'s `name=` gives (empty without one).
pub open spec fn prop_name_text(e: XmlElement) -> Seq<char> {
    match attr_value(e.attrs@, "name"@) {
        Some(v) => v.value@,
        None => Seq::empty(),
    }
}

/// The report of a `<property>` with both `value=` and `ref=`.
pub open spec fn prop_conflict_msg(e: XmlElement) -> Seq<char> {
    "<property name=\""@ + prop_name_text(e) + "\"> specifies both value= and ref="@
}

/// The report of a `<constructor-arg>` with both `value=` and `ref=`.
pub open spec fn ctor_conflict_msg() -> Seq<char> {
    "<constructor-arg> specifies both value= and ref="@
}

/// What reading a `<property>` or `<constructor-arg>` element `e` (inside
/// a bean whose own scope is `sc`) adds: a `value=` / `ref=` conflict
/// (reported as `msg`), what its first non-`<meta>` child adds, then an
/// empty chosen `ref=`.
pub open spec fn holder_adds(sc: ScopeView, depth: int, e: XmlElement, msg: Seq<char>, old: Seq<Diagnostic>, new: Seq<Diagnostic>) -> bool
    decreases e, 3int,
{
    let v = attr_named(e.attrs@, "value"@);
    let r = attr_named(e.attrs@, "ref"@);
    exists|d1: Seq<Diagnostic>, d2: Seq<Diagnostic>|
        #[trigger] conflict_reported(v, r, e.span, msg, old, d1) && first_value_adds(scope_for(sc, e), depth, e.children@, "meta"@, d1, d2)
            && #[trigger] chosen_reported(v, r, d2, new)
}

/// A `<property>` element `e` inside a bean whose own scope is `sc`.
pub open spec fn property_rel(sc: ScopeView, depth: int, e: XmlElement, p: Property) -> bool
    decreases e, 3int,
{
    let own = scope_for(sc, e);
    &&& p.span == e.span
    &&& match attr_value(e.attrs@, "name"@) {
        Some(v) => p.name == v,
        None => p.name.value@ == Seq::<char>::empty() && p.name.span == e.span,
    }
    &&& p.meta@ == metas_of(own, e.children@)
    &&& holder_value_ok(own, depth, e, p.value)
}

/// `index=` read as a `u32`, if it is one.
pub open spec fn index_spec(e: XmlElement) -> Option<u32> {
    match attr_value(e.attrs@, "index"@) {
        Some(v) => u32_of(encode_utf8(v.value@)),
        None => None,
    }
}

/// A `<constructor-arg>` element `e` inside a bean whose own scope is
/// `sc`.
pub open spec fn ctor_rel(sc: ScopeView, depth: int, e: XmlElement, a: ConstructorArg) -> bool
    decreases e, 3int,
{
    let own = scope_for(sc, e);
    &&& a.span == e.span
    &&& a.index == index_spec(e)
    &&& class_view(a.type_ref) == class_ref_spec(attr_value(e.attrs@, "type"@))
    &&& a.name == attr_value(e.attrs@, "name"@)
    &&& a.meta@ == metas_of(own, e.children@)
    &&& holder_value_ok(own, depth, e, a.value)
}

/// Collects the `<meta>` children and reads the first other child
/// element as a value; `own` is the holder's own scope.
fn scan_meta_and_candidate(own: &NsScope, diagnostics: &mut Vec<Diagnostic>, depth: u32, element: &XmlElement) -> (r: (
    Vec<MetaEntry>,
    Option<InjectValue>,
))
    ensures
        r.0@ == metas_of(own@, element.children@),
        first_value(own@, depth as int, element.children@, "meta"@, r.1),
        r.1 matches Some(v) ==> inject_ok(v),
        extends(old(diagnostics)@, final(diagnostics)@),
        first_value_adds(own@, depth as int, element.children@, "meta"@, old(diagnostics)@, final(diagnostics)@),
    decreases budget(depth as int), 4int,
{
    let ghost ch = element.children@;
    let n = element.children.len();
    let mut meta: Vec<MetaEntry> = Vec::new();
    let mut candidate: Option<InjectValue> = None;
    let mut seen = false;
    let mut i: usize = 0;
    proof {
        lemma_extends_refl(diagnostics@);
        assert(ch.subrange(0, n as int) =~= ch);
        assert(ch.subrange(0, 0) =~= Seq::<XmlNode>::empty());
    }
    while i < n
        invariant
            ch == element.children@,
            n == ch.len(),
            i <= n,
            meta@ == metas_of(own@, ch.subrange(0, i as int)),
            seen ==> first_value(own@, depth as int, ch, "meta"@, candidate),
            !seen ==> candidate is None && forall|v: Option<InjectValue>|
                first_value(own@, depth as int, ch, "meta"@, v) <==> #[trigger] first_value(own@, depth as int, ch.subrange(i as int, n as int), "meta"@, v),
            candidate matches Some(v) ==> inject_ok(v),
            extends(old(diagnostics)@, diagnostics@),
            !seen ==> diagnostics@ == old(diagnostics)@,
            !seen ==> forall|nw: Seq<Diagnostic>|
                first_value_adds(own@, depth as int, ch.subrange(i as int, n as int), "meta"@, old(diagnostics)@, nw)
                    ==> #[trigger] first_value_adds(own@, depth as int, ch, "meta"@, old(diagnostics)@, nw),
            seen ==> first_value_adds(own@, depth as int, ch, "meta"@, old(diagnostics)@, diagnostics@),
        decreases n - i,
    {
        let ghost vd0 = seen;
        let ghost rest = ch.subrange(i as int, n as int);
        let ghost next = ch.subrange(i + 1, n as int);
        proof {
            assert(rest[0] == ch[i as int]);
            assert(rest.drop_first() =~= next);
            assert(ch.subrange(0, i + 1).drop_last() =~= ch.subrange(0, i as int));
            assert(ch.subrange(0, i + 1).last() == ch[i as int]);
        }
        let ghost d0 = diagnostics@;
        let ghost m0 = meta@;
        match &element.children[i] {
            XmlNode::Element(c) => {
                if beans_child_named(own, c, "meta") {
                    proof {
                        assert forall|v: Option<InjectValue>| first_value(own@, depth as int, rest, "meta"@, v) == #[trigger] first_value(own@, depth as int, next, "meta"@, v) by {}
                    }
                    if let Some(m) = parse_meta_entry(c) {
                        meta.push(m);
                    }
                } else {
                    if !seen {
                        seen = true;
                        candidate = parse_inject_value_child(own, diagnostics, depth, c);
                        proof {
                            lemma_extends_trans(old(diagnostics)@, d0, diagnostics@);
                            assert(first_value(own@, depth as int, rest, "meta"@, candidate));
                        }
                    }
                }
            },
            XmlNode::Text(_) => {
                proof {
                    assert forall|v: Option<InjectValue>| first_value(own@, depth as int, rest, "meta"@, v) == #[trigger] first_value(own@, depth as int, next, "meta"@, v) by {}
                }
            },
        }
        proof {
            if !vd0 {
                if seen {
                    assert(first_value_adds(own@, depth as int, rest, "meta"@, old(diagnostics)@, diagnostics@));
                } else {
                    assert forall|nw: Seq<Diagnostic>|
                        first_value_adds(own@, depth as int, next, "meta"@, old(diagnostics)@, nw) implies #[trigger] first_value_adds(
                        own@,
                        depth as int,
                        ch,
                        "meta"@,
                        old(diagnostics)@,
                        nw,
                    ) by {
                        assert(first_value_adds(own@, depth as int, rest, "meta"@, old(diagnostics)@, nw));
                    }
                }
            }
        }
        i += 1;
    }
    proof {
        let e: Seq<XmlNode> = ch.subrange(n as int, n as int);
        assert(e.len() == 0);
        if !seen {
            assert(first_value(own@, depth as int, e, "meta"@, candidate));
            assert(first_value_adds(own@, depth as int, e, "meta"@, old(diagnostics)@, diagnostics@));
        }
    }
    (meta, candidate)
}

/// A `<property>` inside a bean whose own scope is `scope` (see
/// `property_rel`). Both `value=` and `ref=` are reported
/// (`ConflictingValueAndRef`).
pub fn property_from_element(scope: &NsScope, diagnostics: &mut Vec<Diagnostic>, depth: u32, element: &XmlElement) -> (r:
    Property)
    ensures
        property_rel(scope@, depth as int, *element, r),
        inject_ok(r.value),
        extends(old(diagnostics)@, final(diagnostics)@),
        exists|d1: Seq<Diagnostic>, d2: Seq<Diagnostic>|
            conflict_reported(attr_named(element.attrs@, "value"@), attr_named(element.attrs@, "ref"@), element.span, prop_conflict_msg(*element), old(diagnostics)@, d1)
                && extends(d1, d2) && chosen_reported(
                attr_named(element.attrs@, "value"@),
                attr_named(element.attrs@, "ref"@),
                d2,
                final(diagnostics)@,
            ),
        holder_adds(scope@, depth as int, *element, prop_conflict_msg(*element), old(diagnostics)@, final(diagnostics)@),
    decreases budget(depth as int), 5int,
{
    let attrs = &element.attrs;
    let name = spanned_or_empty(attrs, "name", element.span);
    let value_i = find_attr(attrs, "value");
    let ref_i = find_attr(attrs, "ref");
    let ghost d0 = diagnostics@;
    if value_i.is_some() && ref_i.is_some() {
        let mut m = "<property name=\"".to_owned();
        m.append(name.value.as_str());
        m.append("\"> specifies both value= and ref=");
        push_diag(diagnostics, DiagCode::ConflictingValueAndRef, Some(element.span), m);
    }
    let ghost d1 = diagnostics@;
    let own = NsScope::from_element(element, Some(scope));
    let (meta, candidate) = scan_meta_and_candidate(&own, diagnostics, depth, element);
    let ghost cv = candidate;
    let ghost d2 = diagnostics@;
    let value = resolve_value(attrs, value_i, ref_i, candidate, element.span, diagnostics);
    proof {
        assert(extends(d0, d1)) by { assert(d1.subrange(0, d0.len() as int) =~= d0); }
        assert(extends(d2, diagnostics@)) by { assert(diagnostics@.subrange(0, d2.len() as int) =~= d2); }
        lemma_extends_trans(d0, d1, d2);
        lemma_extends_trans(d0, d2, diagnostics@);
        assert(opt_attr(attrs@, value_i) == attr_named(attrs@, "value"@));
        assert(opt_attr(attrs@, ref_i) == attr_named(attrs@, "ref"@));
        assert(first_value(own@, depth as int, element.children@, "meta"@, cv));
        assert(chosen(attr_named(attrs@, "value"@), attr_named(attrs@, "ref"@), cv, element.span, value));
        assert(holder_value_ok(own@, depth as int, *element, value));
        if value_i.is_some() && ref_i.is_some() {
            assert(d1.drop_last() =~= d0);
        }
        assert(conflict_reported(attr_named(attrs@, "value"@), attr_named(attrs@, "ref"@), element.span, prop_conflict_msg(*element), d0, d1));
        assert(extends(d1, d2));
        assert(first_value_adds(own@, depth as int, element.children@, "meta"@, d1, d2));
        assert(chosen_reported(attr_named(attrs@, "value"@), attr_named(attrs@, "ref"@), d2, diagnostics@));
    }
    Property { span: element.span, name, value, meta }
}

/// `index=` read as a `u32`, if it is one.
fn parse_index(element: &XmlElement) -> (r: Option<u32>)
    ensures
        r == index_spec(*element),
{
    match find_attr(&element.attrs, "index") {
        Some(k) => parse_u32(element.attrs[k].value.value.as_str()),
        None => None,
    }
}

/// A `<constructor-arg>` inside a bean whose own scope is `scope` (see
/// `ctor_rel`). Both `value=` and `ref=` are reported
/// (`ConflictingValueAndRef`).
pub fn constructor_arg_from_element(scope: &NsScope, diagnostics: &mut Vec<Diagnostic>, depth: u32, element: &XmlElement) -> (r:
    ConstructorArg)
    ensures
        ctor_rel(scope@, depth as int, *element, r),
        inject_ok(r.value),
        class_ref_ok(r.type_ref),
        extends(old(diagnostics)@, final(diagnostics)@),
        exists|d1: Seq<Diagnostic>, d2: Seq<Diagnostic>|
            conflict_reported(attr_named(element.attrs@, "value"@), attr_named(element.attrs@, "ref"@), element.span, ctor_conflict_msg(), old(diagnostics)@, d1)
                && extends(d1, d2) && chosen_reported(
                attr_named(element.attrs@, "value"@),
                attr_named(element.attrs@, "ref"@),
                d2,
                final(diagnostics)@,
            ),
        holder_adds(scope@, depth as int, *element, ctor_conflict_msg(), old(diagnostics)@, final(diagnostics)@),
    decreases budget(depth as int), 5int,
{
    let attrs = &element.attrs;
    let index = parse_index(element);
    let type_ref = class_ref_from_attr(attrs, "type");
    let name = find_spanned(attrs, "name");
    let value_i = find_attr(attrs, "value");
    let ref_i = find_attr(attrs, "ref");
    let ghost d0 = diagnostics@;
    if value_i.is_some() && ref_i.is_some() {
        push_diag(
            diagnostics,
            DiagCode::ConflictingValueAndRef,
            Some(element.span),
            "<constructor-arg> specifies both value= and ref=".to_owned(),
        );
    }
    let ghost d1 = diagnostics@;
    let own = NsScope::from_element(element, Some(scope));
    let (meta, candidate) = scan_meta_and_candidate(&own, diagnostics, depth, element);
    let ghost cv = candidate;
    let ghost d2 = diagnostics@;
    let value = resolve_value(attrs, value_i, ref_i, candidate, element.span, diagnostics);
    proof {
        assert(extends(d0, d1)) by { assert(d1.subrange(0, d0.len() as int) =~= d0); }
        assert(extends(d2, diagnostics@)) by { assert(diagnostics@.subrange(0, d2.len() as int) =~= d2); }
        lemma_extends_trans(d0, d1, d2);
        lemma_extends_trans(d0, d2, diagnostics@);
        assert(opt_attr(attrs@, value_i) == attr_named(attrs@, "value"@));
        assert(opt_attr(attrs@, ref_i) == attr_named(attrs@, "ref"@));
        assert(first_value(own@, depth as int, element.children@, "meta"@, cv));
        assert(chosen(attr_named(attrs@, "value"@), attr_named(attrs@, "ref"@), cv, element.span, value));
        assert(holder_value_ok(own@, depth as int, *element, value));
        if value_i.is_some() && ref_i.is_some() {
            assert(d1.drop_last() =~= d0);
        }
        assert(conflict_reported(attr_named(attrs@, "value"@), attr_named(attrs@, "ref"@), element.span, ctor_conflict_msg(), d0, d1));
        assert(extends(d1, d2));
        assert(first_value_adds(own@, depth as int, element.children@, "meta"@, d1, d2));
        assert(chosen_reported(attr_named(attrs@, "value"@), attr_named(attrs@, "ref"@), d2, diagnostics@));
    }
    ConstructorArg { span: element.span, index, type_ref, name, value, meta }
}

} // verus!
