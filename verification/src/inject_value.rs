//! The value of a `<property>`, `<constructor-arg>`, collection item or
//! map entry side, read from one child element: `<value>`, `<ref>`,
//! `<idref>`, `<null>`, an inner `<bean>`, or a collection.
use vstd::prelude::*;
use crate::bean::{bean_adds, bean_rel, parse_bean};
use crate::collection::{collection_adds, collection_rel, parse_collection_value};
use crate::events::XmlElement;
use crate::literal::{idref_from_element, idref_target, lit_harvested, one_more, one_more_msg, push_diag, ref_from_element, ref_target, target_ref, target_reported, value_lit_from_element};
use crate::model::{DiagCode, Diagnostic, InjectValue, ValueLit};
use crate::reading::{attr_value, class_ref_spec, class_view, covering_span, joined_text, text_segments};
use crate::scope::{element_qname, element_qname_of, in_beans_ns, is_beans_ns, NsScope, ScopeView};
use crate::text::str_eq;
use crate::wellformed::inject_ok;

verus! {

/// Nesting levels left before the depth limit.
pub open spec fn budget(depth: int) -> int {
    if depth >= crate::DEPTH_LIMIT {
        0
    } else {
        crate::DEPTH_LIMIT - depth
    }
}

/// `new` extends `old`: diagnostics are only ever added.
pub open spec fn extends<T>(old: Seq<T>, new: Seq<T>) -> bool {
    old.len() <= new.len() && new.subrange(0, old.len() as int) == old
}

pub proof fn lemma_extends_trans<T>(a: Seq<T>, b: Seq<T>, c: Seq<T>)
    requires
        extends(a, b),
        extends(b, c),
    ensures
        extends(a, c),
{
    assert(c.subrange(0, a.len() as int) =~= b.subrange(0, a.len() as int));
}

pub proof fn lemma_extends_refl<T>(a: Seq<T>)
    ensures
        extends(a, a),
{
    assert(a.subrange(0, a.len() as int) =~= a);
}

/// The literal a `<value>` element gives.
pub open spec fn lit_of_element(v: ValueLit, e: XmlElement) -> bool {
    &&& v.span == e.span
    &&& v.text.value@ == joined_text(text_segments(e.children@))
    &&& v.text.span == (match covering_span(text_segments(e.children@)) {
        Some(s) => s,
        None => e.span,
    })
    &&& class_view(v.value_type) == class_ref_spec(attr_value(e.attrs@, "type"@))
    &&& lit_harvested(v, text_segments(e.children@))
}

pub open spec fn is_collection_name(l: Seq<char>) -> bool {
    l == "list"@ || l == "set"@ || l == "array"@ || l == "map"@ || l == "props"@
}

/// What the element `e`, a child whose parent's scope is `sc`, gives as a
/// value at nesting `depth`: nothing unless it is one of the value
/// elements of the beans namespace; a reference element whose target
/// attribute is missing or empty gives nothing.
pub open spec fn value_rel(sc: ScopeView, depth: int, e: XmlElement, r: Option<InjectValue>) -> bool
    decreases e, 2int,
{
    let q = element_qname(sc, e);
    if !in_beans_ns(q.0) {
        r is None
    } else if q.1 == "value"@ {
        r matches Some(InjectValue::Value(v)) && lit_of_element(v, e)
    } else if q.1 == "ref"@ {
        r == match target_ref(ref_target(e.attrs@)) {
            Some(x) => Some(InjectValue::Ref(x)),
            None => None,
        }
    } else if q.1 == "idref"@ {
        r == match target_ref(idref_target(e.attrs@)) {
            Some(x) => Some(InjectValue::Idref(x)),
            None => None,
        }
    } else if q.1 == "null"@ {
        r == Some(InjectValue::Null(e.span))
    } else if q.1 == "bean"@ {
        r matches Some(v) && inner_rel(sc, depth, e, v)
    } else if is_collection_name(q.1) {
        r matches Some(v) && collection_rel(sc, depth, e, v)
    } else {
        r is None
    }
}

pub proof fn lemma_value_rel_exclusive(sc: ScopeView, depth: int, e: XmlElement, v: InjectValue)
    ensures
        value_rel(sc, depth, e, Some(v)) ==> !value_rel(sc, depth, e, None),
{
}

/// An inner bean: `Null` at the depth limit, else the bean one level
/// deeper.
pub open spec fn inner_rel(sc: ScopeView, depth: int, e: XmlElement, v: InjectValue) -> bool
    decreases e, 1int,
{
    if depth >= crate::DEPTH_LIMIT {
        v == InjectValue::Null(e.span)
    } else {
        v matches InjectValue::Inner(b) && bean_rel(sc, depth + 1, e, *b)
    }
}

/// An element that nests a further level: an inner `<bean>` or a
/// collection, in the beans namespace.
pub open spec fn opens_nesting(sc: ScopeView, e: XmlElement) -> bool {
    let q = element_qname(sc, e);
    &&& in_beans_ns(q.0)
    &&& (q.1 == "bean"@ || q.1 == "list"@ || q.1 == "set"@ || q.1 == "array"@ || q.1 == "map"@ || q.1 == "props"@)
}

/// What reading the element `e` as a value (see `value_rel`) adds to the
/// diagnostics: a `<ref>` / `<idref>` without a usable target is
/// reported; an inner bean or a collection adds what it adds.
pub open spec fn value_adds(sc: ScopeView, depth: int, e: XmlElement, old: Seq<Diagnostic>, new: Seq<Diagnostic>) -> bool
    decreases e, 2int,
{
    let q = element_qname(sc, e);
    if !in_beans_ns(q.0) {
        new == old
    } else if q.1 == "ref"@ {
        target_reported(ref_target(e.attrs@), e, "<ref> has none of bean=/local=/parent="@, old, new)
    } else if q.1 == "idref"@ {
        target_reported(idref_target(e.attrs@), e, "<idref> has none of bean=/local="@, old, new)
    } else if q.1 == "bean"@ {
        inner_adds(sc, depth, e, old, new)
    } else if is_collection_name(q.1) {
        collection_adds(sc, depth, e, old, new)
    } else {
        new == old
    }
}

/// An inner bean: one `NestingLimitExceeded` at the depth limit, else what
/// the bean adds one level deeper.
pub open spec fn inner_adds(sc: ScopeView, depth: int, e: XmlElement, old: Seq<Diagnostic>, new: Seq<Diagnostic>) -> bool
    decreases e, 1int,
{
    if depth >= crate::DEPTH_LIMIT {
        one_more_msg(old, new, DiagCode::NestingLimitExceeded, Some(e.span), "inner <bean> nesting exceeded 256 levels; subtree treated as opaque"@)
    } else {
        bean_adds(sc, depth + 1, e, old, new)
    }
}

/// Reads one child element as a value (see `value_rel`); `scope` is the
/// scope of the element's parent.
pub fn parse_inject_value_child(
    scope: &NsScope,
    diagnostics: &mut Vec<Diagnostic>,
    depth: u32,
    element: &XmlElement,
) -> (r: Option<InjectValue>)
    ensures
        value_rel(scope@, depth as int, *element, r),
        r matches Some(v) ==> inject_ok(v),
        extends(old(diagnostics)@, final(diagnostics)@),
        depth >= crate::DEPTH_LIMIT && opens_nesting(scope@, *element) ==> crate::literal::one_more(
            old(diagnostics)@,
            final(diagnostics)@,
            DiagCode::NestingLimitExceeded,
            Some(element.span),
        ),
        value_adds(scope@, depth as int, *element, old(diagnostics)@, final(diagnostics)@),
    decreases budget(depth as int), 3int,
{
    proof {
        reveal_strlit("value");
        reveal_strlit("ref");
        reveal_strlit("idref");
        reveal_strlit("null");
        reveal_strlit("bean");
        reveal_strlit("list");
        reveal_strlit("set");
        reveal_strlit("array");
        reveal_strlit("map");
        reveal_strlit("props");
    }
    let q = element_qname_of(element, scope);
    if !is_beans_ns(q.0.as_str()) {
        proof { lemma_extends_refl(diagnostics@); }
        return None;
    }
    let local = q.1.as_str();
    if str_eq(local, "value") {
        proof {
            lemma_extends_refl(diagnostics@);
            assert(local@ =~= "value"@);
            assert(local@[0] == 'v');
            assert(!opens_nesting(scope@, *element));
        }
        let v = value_lit_from_element(element);
        return Some(InjectValue::Value(v));
    }
    if str_eq(local, "ref") {
        proof {
            assert(local@ =~= "ref"@);
            assert(local@.len() == 3);
            assert(!opens_nesting(scope@, *element));
        }
        let r = ref_from_element(element, diagnostics);
        proof { assert(final(diagnostics)@.subrange(0, old(diagnostics)@.len() as int) =~= old(diagnostics)@); }
        return match r {
            Some(x) => Some(InjectValue::Ref(x)),
            None => None,
        };
    }
    if str_eq(local, "idref") {
        let r = idref_from_element(element, diagnostics);
        proof { assert(final(diagnostics)@.subrange(0, old(diagnostics)@.len() as int) =~= old(diagnostics)@); }
        return match r {
            Some(x) => Some(InjectValue::Idref(x)),
            None => None,
        };
    }
    if str_eq(local, "null") {
        proof { lemma_extends_refl(diagnostics@); }
        return Some(InjectValue::Null(element.span));
    }
    if str_eq(local, "bean") {
        return Some(parse_inner_bean(scope, diagnostics, depth, element));
    }
    if str_eq(local, "list") || str_eq(local, "set") || str_eq(local, "array") || str_eq(local, "map")
        || str_eq(local, "props") {
        return Some(parse_collection_value(scope, diagnostics, depth, element));
    }
    proof { lemma_extends_refl(diagnostics@); }
    None
}

/// An inner `<bean>`: at the depth limit, `Null` and a
/// `NestingLimitExceeded` report, without reading the bean at all.
pub fn parse_inner_bean(scope: &NsScope, diagnostics: &mut Vec<Diagnostic>, depth: u32, element: &XmlElement) -> (r:
    InjectValue)
    ensures
        inner_rel(scope@, depth as int, *element, r),
        inject_ok(r),
        extends(old(diagnostics)@, final(diagnostics)@),
        depth >= crate::DEPTH_LIMIT ==> crate::literal::one_more(
            old(diagnostics)@,
            final(diagnostics)@,
            DiagCode::NestingLimitExceeded,
            Some(element.span),
        ),
        inner_adds(scope@, depth as int, *element, old(diagnostics)@, final(diagnostics)@),
    decreases budget(depth as int), 2int,
{
    if depth >= crate::DEPTH_LIMIT {
        push_diag(
            diagnostics,
            DiagCode::NestingLimitExceeded,
            Some(element.span),
            "inner <bean> nesting exceeded 256 levels; subtree treated as opaque".to_owned(),
        );
        proof { assert(final(diagnostics)@.subrange(0, old(diagnostics)@.len() as int) =~= old(diagnostics)@); }
        return InjectValue::Null(element.span);
    }
    let bean = parse_bean(scope, element, diagnostics, depth + 1);
    InjectValue::Inner(Box::new(bean))
}

} // verus!
