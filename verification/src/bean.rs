//! `<bean>`: its attributes, and each child element dispatched by name in
//! the beans namespace (`property`, `constructor-arg`, `description`,
//! `meta`, `qualifier`, `lookup-method`, `replaced-method`; any other
//! beans name is `UnknownElement`); an element of another namespace is
//! kept as a decorator.
use vstd::prelude::*;
use crate::bean_attrs::{c_args_ok, core_adds, core_attrs_ok, lemma_pc_adds_step, normalize_pc_attr, p_props_ok, pc_adds, pc_attr_adds, pc_kind, populate_bean_core_attrs};
use crate::bean_children::{is_beans_child, lookup_ok, required_ref_reported, parse_lookup_method, parse_meta_entry, parse_qualifier, parse_replaced_method, qualifier_ok, replaced_ok};
use crate::events::{XmlAttr, XmlElement, XmlNode};
use crate::inject_value::{budget, extends, lemma_extends_refl, lemma_extends_trans};
use crate::literal::{one_more, one_more_msg, push_diag};
use crate::model::{Bean, BeanCtx, ByteSpan, ConstructorArg, DiagCode, Diagnostic, LookupMethod, MetaEntry, NamespacedElement, Property, Qualifier, ReplacedMethod, Spanned};
use crate::namespaced::{build_namespaced_element, harvest_adds, namespaced_of};
use crate::property::{constructor_arg_from_element, ctor_conflict_msg, ctor_rel, holder_adds, prop_conflict_msg, metas_of, property_from_element, property_rel};
use crate::reading::{covering_span, element_text, joined_text, text_segments};
use crate::scope::{element_qname, element_qname_of, in_beans_ns, is_beans_ns, scope_for, NsScope, ScopeView};
use crate::text::str_eq;
use crate::wellformed::{bean_ok, class_ref_ok, inject_ok, namespaced_all_ok, namespaced_ok, opt_bean_ref_ok};

verus! {

/// How many attributes are `p:` shorthand.
pub open spec fn p_count(sc: ScopeView, attrs: Seq<XmlAttr>) -> int
    decreases attrs.len(),
{
    if attrs.len() == 0 {
        0
    } else {
        p_count(sc, attrs.drop_last()) + if pc_kind(sc, attrs.last()) == Some(true) { 1int } else { 0int }
    }
}

/// How many attributes are `c:` shorthand.
pub open spec fn c_count(sc: ScopeView, attrs: Seq<XmlAttr>) -> int
    decreases attrs.len(),
{
    if attrs.len() == 0 {
        0
    } else {
        c_count(sc, attrs.drop_last()) + if pc_kind(sc, attrs.last()) == Some(false) { 1int } else { 0int }
    }
}

/// The properties the `<property>` children give, in order.
pub open spec fn child_props_ok(sc: ScopeView, depth: int, children: Seq<XmlNode>, ps: Seq<Property>) -> bool
    decreases children, 0int,
{
    if children.len() == 0 {
        ps.len() == 0
    } else {
        match children[children.len() - 1] {
            XmlNode::Element(c) => if is_beans_child(sc, c, "property"@) {
                &&& ps.len() > 0
                &&& property_rel(sc, depth, c, ps.last())
                &&& child_props_ok(sc, depth, children.drop_last(), ps.drop_last())
            } else {
                child_props_ok(sc, depth, children.drop_last(), ps)
            },
            XmlNode::Text(_) => child_props_ok(sc, depth, children.drop_last(), ps),
        }
    }
}

/// The constructor arguments the `<constructor-arg>` children give, in
/// order.
pub open spec fn child_args_ok(sc: ScopeView, depth: int, children: Seq<XmlNode>, cs: Seq<ConstructorArg>) -> bool
    decreases children, 0int,
{
    if children.len() == 0 {
        cs.len() == 0
    } else {
        match children[children.len() - 1] {
            XmlNode::Element(c) => if is_beans_child(sc, c, "constructor-arg"@) {
                &&& cs.len() > 0
                &&& ctor_rel(sc, depth, c, cs.last())
                &&& child_args_ok(sc, depth, children.drop_last(), cs.drop_last())
            } else {
                child_args_ok(sc, depth, children.drop_last(), cs)
            },
            XmlNode::Text(_) => child_args_ok(sc, depth, children.drop_last(), cs),
        }
    }
}

/// The text of the last `<description>` child, if any.
pub open spec fn desc_ok(sc: ScopeView, children: Seq<XmlNode>, d: Option<Spanned<String>>) -> bool
    decreases children.len(),
{
    if children.len() == 0 {
        d is None
    } else {
        match children.last() {
            XmlNode::Element(c) => if is_beans_child(sc, c, "description"@) {
                d matches Some(x) && x.value@ == joined_text(text_segments(c.children@)) && x.span == (match covering_span(
                    text_segments(c.children@),
                ) {
                    Some(s) => s,
                    None => c.span,
                })
            } else {
                desc_ok(sc, children.drop_last(), d)
            },
            XmlNode::Text(_) => desc_ok(sc, children.drop_last(), d),
        }
    }
}

pub open spec fn quals_ok(sc: ScopeView, children: Seq<XmlNode>, qs: Seq<Qualifier>) -> bool
    decreases children.len(),
{
    if children.len() == 0 {
        qs.len() == 0
    } else {
        match children.last() {
            XmlNode::Element(c) => if is_beans_child(sc, c, "qualifier"@) {
                qs.len() > 0 && qualifier_ok(sc, c, qs.last()) && quals_ok(sc, children.drop_last(), qs.drop_last())
            } else {
                quals_ok(sc, children.drop_last(), qs)
            },
            XmlNode::Text(_) => quals_ok(sc, children.drop_last(), qs),
        }
    }
}

pub open spec fn lookups_ok(sc: ScopeView, children: Seq<XmlNode>, ls: Seq<Spanned<LookupMethod>>) -> bool
    decreases children.len(),
{
    if children.len() == 0 {
        ls.len() == 0
    } else {
        match children.last() {
            XmlNode::Element(c) => if is_beans_child(sc, c, "lookup-method"@) {
                ls.len() > 0 && lookup_ok(c, ls.last()) && lookups_ok(sc, children.drop_last(), ls.drop_last())
            } else {
                lookups_ok(sc, children.drop_last(), ls)
            },
            XmlNode::Text(_) => lookups_ok(sc, children.drop_last(), ls),
        }
    }
}

pub open spec fn replaceds_ok(sc: ScopeView, children: Seq<XmlNode>, rs: Seq<Spanned<ReplacedMethod>>) -> bool
    decreases children.len(),
{
    if children.len() == 0 {
        rs.len() == 0
    } else {
        match children.last() {
            XmlNode::Element(c) => if is_beans_child(sc, c, "replaced-method"@) {
                rs.len() > 0 && replaced_ok(sc, c, rs.last()) && replaceds_ok(sc, children.drop_last(), rs.drop_last())
            } else {
                replaceds_ok(sc, children.drop_last(), rs)
            },
            XmlNode::Text(_) => replaceds_ok(sc, children.drop_last(), rs),
        }
    }
}

/// The children of other namespaces, kept as decorators, in order.
pub open spec fn decorators_ok(sc: ScopeView, children: Seq<XmlNode>, ds: Seq<NamespacedElement>) -> bool
    decreases children.len(),
{
    if children.len() == 0 {
        ds.len() == 0
    } else {
        match children.last() {
            XmlNode::Element(c) => if !in_beans_ns(element_qname(sc, c).0) {
                ds.len() > 0 && namespaced_of(sc, c, ds.last()) && decorators_ok(sc, children.drop_last(), ds.drop_last())
            } else {
                decorators_ok(sc, children.drop_last(), ds)
            },
            XmlNode::Text(_) => decorators_ok(sc, children.drop_last(), ds),
        }
    }
}

/// Everything a bean's non-value children give (`own` is its own scope).
pub open spec fn others_ok(own: ScopeView, children: Seq<XmlNode>, c: BeanCtx) -> bool {
    &&& c.meta@ == metas_of(own, children)
    &&& desc_ok(own, children, c.description)
    &&& quals_ok(own, children, c.qualifiers@)
    &&& lookups_ok(own, children, c.lookup_methods@)
    &&& replaceds_ok(own, children, c.replaced_methods@)
    &&& decorators_ok(own, children, c.decorators@)
}

/// What holds of the lists the non-value children fill.
pub open spec fn others_wf(c: BeanCtx) -> bool {
    &&& forall|i: int| 0 <= i < c.lookup_methods@.len() ==> opt_bean_ref_ok(#[trigger] c.lookup_methods@[i].value.bean)
    &&& forall|i: int|
        0 <= i < c.replaced_methods@.len() ==> opt_bean_ref_ok(#[trigger] c.replaced_methods@[i].value.replacer)
    &&& forall|i: int| 0 <= i < c.qualifiers@.len() ==> class_ref_ok(#[trigger] c.qualifiers@[i].type_)
    &&& namespaced_all_ok(c.decorators@)
}

/// The accumulator a bean was assembled from.
pub open spec fn ctx_of(b: Bean) -> BeanCtx {
    BeanCtx {
        span: b.span,
        id: b.id,
        names: b.names,
        class: b.class,
        parent: b.parent,
        scope: b.scope,
        abstract_: b.abstract_,
        lazy_init: b.lazy_init,
        primary: b.primary,
        autowire: b.autowire,
        autowire_candidate: b.autowire_candidate,
        depends_on: b.depends_on,
        factory_bean: b.factory_bean,
        factory_method: b.factory_method,
        init_method: b.init_method,
        destroy_method: b.destroy_method,
        properties: b.properties,
        constructor_args: b.constructor_args,
        lookup_methods: b.lookup_methods,
        replaced_methods: b.replaced_methods,
        qualifiers: b.qualifiers,
        decorators: b.decorators,
        description: b.description,
        meta: b.meta,
    }
}

/// What a bean child other than `<property>` / `<constructor-arg>` adds:
/// an element of another namespace, what harvesting it adds; a
/// `<lookup-method>` / `<replaced-method>`, its required reference; any
/// other beans name but `description`, `meta`, `qualifier`, one
/// `UnknownElement`.
pub open spec fn other_child_adds(sc: ScopeView, c: XmlElement, old: Seq<Diagnostic>, new: Seq<Diagnostic>) -> bool {
    let q = element_qname(sc, c);
    if !in_beans_ns(q.0) {
        harvest_adds(sc, c, 0, old, new)
    } else if q.1 == "description"@ || q.1 == "meta"@ || q.1 == "qualifier"@ {
        new == old
    } else if q.1 == "lookup-method"@ {
        required_ref_reported(c, "bean"@, old, new)
    } else if q.1 == "replaced-method"@ {
        required_ref_reported(c, "replacer"@, old, new)
    } else {
        one_more_msg(old, new, DiagCode::UnknownElement, Some(c.span), "unrecognized element <"@ + c.name@ + "> inside a <bean>"@)
    }
}

/// What a bean's children add, child by child (`sc` is the bean's own
/// scope).
pub open spec fn bean_children_adds(
    sc: ScopeView,
    depth: int,
    children: Seq<XmlNode>,
    old: Seq<Diagnostic>,
    new: Seq<Diagnostic>,
) -> bool
    decreases children, 0int,
{
    if children.len() == 0 {
        new == old
    } else {
        exists|mid: Seq<Diagnostic>|
            #[trigger] extends(old, mid) && bean_children_adds(sc, depth, children.drop_last(), old, mid) && match children[children.len() - 1] {
                XmlNode::Element(c) => if is_beans_child(sc, c, "property"@) {
                    holder_adds(sc, depth, c, prop_conflict_msg(c), mid, new)
                } else if is_beans_child(sc, c, "constructor-arg"@) {
                    holder_adds(sc, depth, c, ctor_conflict_msg(), mid, new)
                } else {
                    other_child_adds(sc, c, mid, new)
                },
                XmlNode::Text(_) => new == mid,
            }
    }
}

pub proof fn lemma_bean_children_adds_step(
    sc: ScopeView,
    depth: int,
    ch: Seq<XmlNode>,
    old: Seq<Diagnostic>,
    mid: Seq<Diagnostic>,
    new: Seq<Diagnostic>,
)
    requires
        ch.len() > 0,
        extends(old, mid),
        bean_children_adds(sc, depth, ch.drop_last(), old, mid),
        match ch[ch.len() - 1] {
            XmlNode::Element(c) => if is_beans_child(sc, c, "property"@) {
                holder_adds(sc, depth, c, prop_conflict_msg(c), mid, new)
            } else if is_beans_child(sc, c, "constructor-arg"@) {
                holder_adds(sc, depth, c, ctor_conflict_msg(), mid, new)
            } else {
                other_child_adds(sc, c, mid, new)
            },
            XmlNode::Text(_) => new == mid,
        },
    ensures
        bean_children_adds(sc, depth, ch, old, new),
{
}

/// What reading the bean element `e` (whose parent's scope is `sc`) adds
/// to the diagnostics: its core attributes' reports, then its `p:` / `c:`
/// attributes', then its children's, in order.
pub open spec fn bean_adds(sc: ScopeView, depth: int, e: XmlElement, old: Seq<Diagnostic>, new: Seq<Diagnostic>) -> bool
    decreases e, 0int,
{
    let own = scope_for(sc, e);
    exists|d1: Seq<Diagnostic>, d2: Seq<Diagnostic>|
        #[trigger] core_adds(e, old, d1) && #[trigger] pc_adds(own, e.attrs@, d1, d2) && bean_children_adds(
            own,
            depth,
            e.children@,
            d2,
            new,
        )
}

/// The bean an element `e` (whose parent's scope is `sc`) gives at
/// nesting `depth`: its attributes, then its `p:` properties and `c:`
/// arguments followed by those of its children, and what every other
/// child gives.
pub open spec fn bean_rel(sc: ScopeView, depth: int, e: XmlElement, b: Bean) -> bool
    decreases e, 0int,
{
    let own = scope_for(sc, e);
    let ch = e.children@;
    let np = p_count(own, e.attrs@);
    let nc = c_count(own, e.attrs@);
    &&& b.span == e.span
    &&& core_attrs_ok(e, ctx_of(b))
    &&& 0 <= np <= b.properties@.len()
    &&& p_props_ok(own, e.attrs@, b.properties@.subrange(0, np))
    &&& child_props_ok(own, depth, ch, b.properties@.subrange(np, b.properties@.len() as int))
    &&& 0 <= nc <= b.constructor_args@.len()
    &&& c_args_ok(own, e.attrs@, b.constructor_args@.subrange(0, nc))
    &&& child_args_ok(own, depth, ch, b.constructor_args@.subrange(nc, b.constructor_args@.len() as int))
    &&& others_ok(own, ch, ctx_of(b))
}

/// The names a bean's children are dispatched on are all different.
pub proof fn lemma_bean_child_names_distinct()
    ensures
        "property"@ != "constructor-arg"@,
        "property"@ != "description"@,
        "property"@ != "meta"@,
        "property"@ != "qualifier"@,
        "property"@ != "lookup-method"@,
        "property"@ != "replaced-method"@,
        "constructor-arg"@ != "description"@,
        "constructor-arg"@ != "meta"@,
        "constructor-arg"@ != "qualifier"@,
        "constructor-arg"@ != "lookup-method"@,
        "constructor-arg"@ != "replaced-method"@,
        "description"@ != "meta"@,
        "description"@ != "qualifier"@,
        "description"@ != "lookup-method"@,
        "description"@ != "replaced-method"@,
        "meta"@ != "qualifier"@,
        "meta"@ != "lookup-method"@,
        "meta"@ != "replaced-method"@,
        "qualifier"@ != "lookup-method"@,
        "qualifier"@ != "replaced-method"@,
        "lookup-method"@ != "replaced-method"@,
{
    reveal_strlit("property");
    reveal_strlit("constructor-arg");
    reveal_strlit("description");
    reveal_strlit("meta");
    reveal_strlit("qualifier");
    reveal_strlit("lookup-method");
    reveal_strlit("replaced-method");
    assert("property"@.len() == 8);
    assert("constructor-arg"@.len() == 15);
    assert("description"@.len() == 11);
    assert("meta"@.len() == 4);
    assert("qualifier"@.len() == 9);
    assert("lookup-method"@.len() == 13);
    assert("replaced-method"@.len() == 15);
    assert("constructor-arg"@[0] != "replaced-method"@[0]);
}

/// The kind of a bean child other than `<property>` / `<constructor-arg>`
/// and what it adds (see `others_ok`); any other beans name is reported
/// (`UnknownElement`).
fn dispatch_bean_child(
    ctx: &mut BeanCtx,
    diagnostics: &mut Vec<Diagnostic>,
    own: &NsScope,
    child: &XmlElement,
    Ghost(prefix): Ghost<Seq<XmlNode>>,
)
    requires
        others_ok(own@, prefix, *old(ctx)),
        others_wf(*old(ctx)),
        !is_beans_child(own@, *child, "property"@),
        !is_beans_child(own@, *child, "constructor-arg"@),
    ensures
        others_ok(own@, prefix.push(XmlNode::Element(*child)), *final(ctx)),
        others_wf(*final(ctx)),
        final(ctx).span == old(ctx).span,
        final(ctx).id == old(ctx).id,
        final(ctx).names == old(ctx).names,
        final(ctx).class == old(ctx).class,
        final(ctx).parent == old(ctx).parent,
        final(ctx).scope == old(ctx).scope,
        final(ctx).abstract_ == old(ctx).abstract_,
        final(ctx).lazy_init == old(ctx).lazy_init,
        final(ctx).primary == old(ctx).primary,
        final(ctx).autowire == old(ctx).autowire,
        final(ctx).autowire_candidate == old(ctx).autowire_candidate,
        final(ctx).depends_on == old(ctx).depends_on,
        final(ctx).factory_bean == old(ctx).factory_bean,
        final(ctx).factory_method == old(ctx).factory_method,
        final(ctx).init_method == old(ctx).init_method,
        final(ctx).destroy_method == old(ctx).destroy_method,
        final(ctx).properties == old(ctx).properties,
        final(ctx).constructor_args == old(ctx).constructor_args,
        extends(old(diagnostics)@, final(diagnostics)@),
        other_child_adds(own@, *child, old(diagnostics)@, final(diagnostics)@),
{
    let ghost np = prefix.push(XmlNode::Element(*child));
    proof {
        lemma_bean_child_names_distinct();
        assert(np.drop_last() =~= prefix);
        assert(np.last() == XmlNode::Element(*child));
    }
    let q = element_qname_of(child, own);
    let ns = q.0.as_str();
    let local = q.1.as_str();
    if !is_beans_ns(ns) {
        let d = build_namespaced_element(own, child, diagnostics);
        ctx.decorators.push(d);
        proof {
            assert(ctx.decorators@.drop_last() =~= old(ctx).decorators@);
            assert forall|i: int| 0 <= i < ctx.decorators@.len() implies #[trigger] namespaced_ok(ctx.decorators@[i]) by {
                if i < old(ctx).decorators@.len() {
                    assert(ctx.decorators@[i] == old(ctx).decorators@[i]);
                }
            }
        }
        return;
    }
    proof { lemma_extends_refl(diagnostics@); }
    if str_eq(local, "description") {
        ctx.description = Some(element_text(child));
    } else if str_eq(local, "meta") {
        if let Some(m) = parse_meta_entry(child) {
            ctx.meta.push(m);
        }
    } else if str_eq(local, "qualifier") {
        let qf = parse_qualifier(own, child);
        ctx.qualifiers.push(qf);
        proof {
            assert(ctx.qualifiers@.drop_last() =~= old(ctx).qualifiers@);
            assert forall|i: int| 0 <= i < ctx.qualifiers@.len() implies class_ref_ok(#[trigger] ctx.qualifiers@[i].type_) by {
                if i < old(ctx).qualifiers@.len() {
                    assert(ctx.qualifiers@[i] == old(ctx).qualifiers@[i]);
                }
            }
        }
    } else if str_eq(local, "lookup-method") {
        let l = parse_lookup_method(child, diagnostics);
        ctx.lookup_methods.push(l);
        proof {
            assert(diagnostics@.subrange(0, old(diagnostics)@.len() as int) =~= old(diagnostics)@);
            assert(ctx.lookup_methods@.drop_last() =~= old(ctx).lookup_methods@);
            assert forall|i: int| 0 <= i < ctx.lookup_methods@.len() implies opt_bean_ref_ok(#[trigger] ctx.lookup_methods@[i].value.bean) by {
                if i < old(ctx).lookup_methods@.len() {
                    assert(ctx.lookup_methods@[i] == old(ctx).lookup_methods@[i]);
                }
            }
        }
    } else if str_eq(local, "replaced-method") {
        let r = parse_replaced_method(own, child, diagnostics);
        ctx.replaced_methods.push(r);
        proof {
            assert(diagnostics@.subrange(0, old(diagnostics)@.len() as int) =~= old(diagnostics)@);
            assert(ctx.replaced_methods@.drop_last() =~= old(ctx).replaced_methods@);
            assert forall|i: int| 0 <= i < ctx.replaced_methods@.len() implies opt_bean_ref_ok(#[trigger] ctx.replaced_methods@[i].value.replacer) by {
                if i < old(ctx).replaced_methods@.len() {
                    assert(ctx.replaced_methods@[i] == old(ctx).replaced_methods@[i]);
                }
            }
        }
    } else {
        let mut m = "unrecognized element <".to_owned();
        m.append(child.name.as_str());
        m.append("> inside a <bean>");
        push_diag(diagnostics, DiagCode::UnknownElement, Some(child.span), m);
        proof {
            assert(diagnostics@.subrange(0, old(diagnostics)@.len() as int) =~= old(diagnostics)@);
        }
    }
}

/// The `p:` / `c:` attributes of a bean, in order.
fn populate_pc_attrs(ctx: &mut BeanCtx, element: &XmlElement, diagnostics: &mut Vec<Diagnostic>, own: &NsScope)
    requires
        old(ctx).properties@.len() == 0,
        old(ctx).constructor_args@.len() == 0,
    ensures
        p_props_ok(own@, element.attrs@, final(ctx).properties@),
        c_args_ok(own@, element.attrs@, final(ctx).constructor_args@),
        final(ctx).properties@.len() == p_count(own@, element.attrs@),
        final(ctx).constructor_args@.len() == c_count(own@, element.attrs@),
        forall|i: int| 0 <= i < final(ctx).properties@.len() ==> inject_ok(#[trigger] final(ctx).properties@[i].value),
        forall|i: int|
            0 <= i < final(ctx).constructor_args@.len() ==> {
                &&& inject_ok(#[trigger] final(ctx).constructor_args@[i].value)
                &&& class_ref_ok(final(ctx).constructor_args@[i].type_ref)
            },
        final(ctx).span == old(ctx).span,
        final(ctx).id == old(ctx).id,
        final(ctx).names == old(ctx).names,
        final(ctx).class == old(ctx).class,
        final(ctx).parent == old(ctx).parent,
        final(ctx).scope == old(ctx).scope,
        final(ctx).abstract_ == old(ctx).abstract_,
        final(ctx).lazy_init == old(ctx).lazy_init,
        final(ctx).primary == old(ctx).primary,
        final(ctx).autowire == old(ctx).autowire,
        final(ctx).autowire_candidate == old(ctx).autowire_candidate,
        final(ctx).depends_on == old(ctx).depends_on,
        final(ctx).factory_bean == old(ctx).factory_bean,
        final(ctx).factory_method == old(ctx).factory_method,
        final(ctx).init_method == old(ctx).init_method,
        final(ctx).destroy_method == old(ctx).destroy_method,
        final(ctx).lookup_methods == old(ctx).lookup_methods,
        final(ctx).replaced_methods == old(ctx).replaced_methods,
        final(ctx).qualifiers == old(ctx).qualifiers,
        final(ctx).decorators == old(ctx).decorators,
        final(ctx).description == old(ctx).description,
        final(ctx).meta == old(ctx).meta,
        extends(old(diagnostics)@, final(diagnostics)@),
        pc_adds(own@, element.attrs@, old(diagnostics)@, final(diagnostics)@),
{
    let ghost a = element.attrs@;
    let mut i: usize = 0;
    proof { lemma_extends_refl(diagnostics@); }
    while i < element.attrs.len()
        invariant
            i <= a.len(),
            a == element.attrs@,
            p_props_ok(own@, a.subrange(0, i as int), ctx.properties@),
            c_args_ok(own@, a.subrange(0, i as int), ctx.constructor_args@),
            ctx.properties@.len() == p_count(own@, a.subrange(0, i as int)),
            ctx.constructor_args@.len() == c_count(own@, a.subrange(0, i as int)),
            forall|j: int| 0 <= j < ctx.properties@.len() ==> inject_ok(#[trigger] ctx.properties@[j].value),
            forall|j: int|
                0 <= j < ctx.constructor_args@.len() ==> {
                    &&& inject_ok(#[trigger] ctx.constructor_args@[j].value)
                    &&& class_ref_ok(ctx.constructor_args@[j].type_ref)
                },
            ctx.span == old(ctx).span,
            ctx.id == old(ctx).id,
            ctx.names == old(ctx).names,
            ctx.class == old(ctx).class,
            ctx.parent == old(ctx).parent,
            ctx.scope == old(ctx).scope,
            ctx.abstract_ == old(ctx).abstract_,
            ctx.lazy_init == old(ctx).lazy_init,
            ctx.primary == old(ctx).primary,
            ctx.autowire == old(ctx).autowire,
            ctx.autowire_candidate == old(ctx).autowire_candidate,
            ctx.depends_on == old(ctx).depends_on,
            ctx.factory_bean == old(ctx).factory_bean,
            ctx.factory_method == old(ctx).factory_method,
            ctx.init_method == old(ctx).init_method,
            ctx.destroy_method == old(ctx).destroy_method,
            ctx.lookup_methods == old(ctx).lookup_methods,
            ctx.replaced_methods == old(ctx).replaced_methods,
            ctx.qualifiers == old(ctx).qualifiers,
            ctx.decorators == old(ctx).decorators,
            ctx.description == old(ctx).description,
            ctx.meta == old(ctx).meta,
            extends(old(diagnostics)@, diagnostics@),
            pc_adds(own@, a.subrange(0, i as int), old(diagnostics)@, diagnostics@),
        decreases a.len() - i,
    {
        proof {
            assert(a.subrange(0, i + 1).drop_last() =~= a.subrange(0, i as int));
            assert(a.subrange(0, i + 1).last() == a[i as int]);
        }
        let ghost p0 = ctx.properties@;
        let ghost c0 = ctx.constructor_args@;
        let ghost d0 = diagnostics@;
        normalize_pc_attr(ctx, diagnostics, own, &element.attrs[i]);
        proof {
            lemma_pc_adds_step(own@, a.subrange(0, i + 1), old(diagnostics)@, d0, diagnostics@);
            lemma_extends_trans(old(diagnostics)@, d0, diagnostics@);
            if pc_kind(own@, a[i as int]) == Some(true) {
                assert(ctx.properties@.drop_last() =~= p0);
            }
            if pc_kind(own@, a[i as int]) == Some(false) {
                assert(ctx.constructor_args@.drop_last() =~= c0);
            }
            assert forall|j: int| 0 <= j < ctx.properties@.len() implies inject_ok(#[trigger] ctx.properties@[j].value) by {
                if j < p0.len() {
                    assert(ctx.properties@[j] == p0[j]);
                }
            }
            assert forall|j: int| 0 <= j < ctx.constructor_args@.len() implies {
                &&& inject_ok(#[trigger] ctx.constructor_args@[j].value)
                &&& class_ref_ok(ctx.constructor_args@[j].type_ref)
            } by {
                if j < c0.len() {
                    assert(ctx.constructor_args@[j] == c0[j]);
                }
            }
        }
        i += 1;
    }
    proof {
        assert(a.subrange(0, a.len() as int) =~= a);
    }
}

/// Reads a `<bean>` element (see `bean_rel`); `scope` is the scope of its
/// parent and `depth` its nesting. A bean with no way to be created is
/// reported (`BeanWithoutClassOrParent`).
pub fn parse_bean(scope: &NsScope, element: &XmlElement, diagnostics: &mut Vec<Diagnostic>, depth: u32) -> (r: Bean)
    ensures
        bean_rel(scope@, depth as int, *element, r),
        bean_ok(r),
        extends(old(diagnostics)@, final(diagnostics)@),
        bean_adds(scope@, depth as int, *element, old(diagnostics)@, final(diagnostics)@),
    decreases budget(depth as int), 6int,
{
    let mut ctx = BeanCtx::default();
    ctx.span = element.span;
    let ghost d0 = diagnostics@;
    populate_bean_core_attrs(&mut ctx, element, diagnostics);
    let ghost d1 = diagnostics@;
    let own = NsScope::from_element(element, Some(scope));
    populate_pc_attrs(&mut ctx, element, diagnostics, &own);
    let ghost d2 = diagnostics@;
    let ghost np = ctx.properties@.len();
    let ghost nc = ctx.constructor_args@.len();
    let ghost pc_props = ctx.properties@;
    let ghost pc_args = ctx.constructor_args@;
    let ghost core = ctx;
    proof {
        assert(extends(d0, d1)) by { assert(d1.subrange(0, d0.len() as int) =~= d0); }
        lemma_extends_trans(d0, d1, d2);
        let e: Seq<XmlNode> = element.children@.subrange(0, 0);
        assert(e.len() == 0);
        assert(ctx.meta@ =~= Seq::<MetaEntry>::empty());
        assert(ctx.qualifiers@ =~= Seq::<Qualifier>::empty());
        assert(ctx.lookup_methods@ =~= Seq::<Spanned<LookupMethod>>::empty());
        assert(ctx.replaced_methods@ =~= Seq::<Spanned<ReplacedMethod>>::empty());
        assert(ctx.decorators@ =~= Seq::<NamespacedElement>::empty());
        assert(others_ok(own@, e, ctx));
        assert(ctx.properties@.subrange(np as int, np as int).len() == 0);
        assert(ctx.properties@.subrange(0, np as int) =~= pc_props);
        assert(ctx.constructor_args@.subrange(0, nc as int) =~= pc_args);
        lemma_extends_refl(d2);
    }
    let ghost ch = element.children@;
    let n = element.children.len();
    let mut i: usize = 0;
    while i < n
        invariant
            ch == element.children@,
            n == ch.len(),
            i <= n,
            own@ == scope_for(scope@, *element),
            ctx.span == element.span,
            core_attrs_ok(*element, ctx),
            class_ref_ok(ctx.class),
            opt_bean_ref_ok(ctx.parent),
            crate::wellformed::bean_refs_ok(ctx.depends_on@),
            opt_bean_ref_ok(ctx.factory_bean),
            np == p_count(own@, element.attrs@),
            nc == c_count(own@, element.attrs@),
            np <= ctx.properties@.len(),
            nc <= ctx.constructor_args@.len(),
            ctx.properties@.subrange(0, np as int) == pc_props,
            ctx.constructor_args@.subrange(0, nc as int) == pc_args,
            p_props_ok(own@, element.attrs@, pc_props),
            c_args_ok(own@, element.attrs@, pc_args),
            child_props_ok(own@, depth as int, ch.subrange(0, i as int), ctx.properties@.subrange(np as int, ctx.properties@.len() as int)),
            child_args_ok(own@, depth as int, ch.subrange(0, i as int), ctx.constructor_args@.subrange(nc as int, ctx.constructor_args@.len() as int)),
            others_ok(own@, ch.subrange(0, i as int), ctx),
            others_wf(ctx),
            forall|j: int| 0 <= j < ctx.properties@.len() ==> inject_ok(#[trigger] ctx.properties@[j].value),
            forall|j: int|
                0 <= j < ctx.constructor_args@.len() ==> {
                    &&& inject_ok(#[trigger] ctx.constructor_args@[j].value)
                    &&& class_ref_ok(ctx.constructor_args@[j].type_ref)
                },
            extends(old(diagnostics)@, diagnostics@),
            extends(d2, diagnostics@),
            bean_children_adds(own@, depth as int, ch.subrange(0, i as int), d2, diagnostics@),
        decreases n - i,
    {
        let ghost pre = ch.subrange(0, i as int);
        proof {
            lemma_bean_child_names_distinct();
            assert(ch.subrange(0, i + 1) =~= pre.push(ch[i as int]));
            assert(ch.subrange(0, i + 1).drop_last() =~= pre);
        }
        let ghost c0 = ctx;
        let ghost d3 = diagnostics@;
        match &element.children[i] {
            XmlNode::Element(c) => {
                let q = element_qname_of(c, &own);
                let is_beans = is_beans_ns(q.0.as_str());
                if is_beans && str_eq(q.1.as_str(), "property") {
                    let p = property_from_element(&own, diagnostics, depth, c);
                    ctx.properties.push(p);
                    proof {
                        lemma_extends_trans(old(diagnostics)@, d3, diagnostics@);
                        let ps = ctx.properties@;
                        assert(ps.subrange(0, np as int) =~= c0.properties@.subrange(0, np as int));
                        assert(ps.subrange(np as int, ps.len() as int).drop_last() =~= c0.properties@.subrange(np as int, c0.properties@.len() as int));
                        assert(ps.subrange(np as int, ps.len() as int).last() == p);
                        assert forall|j: int| 0 <= j < ps.len() implies inject_ok(#[trigger] ps[j].value) by {
                            if j < c0.properties@.len() {
                                assert(ps[j] == c0.properties@[j]);
                            }
                        }
                        assert(others_ok(own@, ch.subrange(0, i + 1), ctx));
                    }
                } else if is_beans && str_eq(q.1.as_str(), "constructor-arg") {
                    let a = constructor_arg_from_element(&own, diagnostics, depth, c);
                    ctx.constructor_args.push(a);
                    proof {
                        lemma_extends_trans(old(diagnostics)@, d3, diagnostics@);
                        let cs = ctx.constructor_args@;
                        assert(cs.subrange(0, nc as int) =~= c0.constructor_args@.subrange(0, nc as int));
                        assert(cs.subrange(nc as int, cs.len() as int).drop_last() =~= c0.constructor_args@.subrange(nc as int, c0.constructor_args@.len() as int));
                        assert(cs.subrange(nc as int, cs.len() as int).last() == a);
                        assert forall|j: int| 0 <= j < cs.len() implies {
                            &&& inject_ok(#[trigger] cs[j].value)
                            &&& class_ref_ok(cs[j].type_ref)
                        } by {
                            if j < c0.constructor_args@.len() {
                                assert(cs[j] == c0.constructor_args@[j]);
                            }
                        }
                        assert(others_ok(own@, ch.subrange(0, i + 1), ctx));
                    }
                } else {
                    dispatch_bean_child(&mut ctx, diagnostics, &own, c, Ghost(pre));
                    proof {
                        lemma_extends_trans(old(diagnostics)@, d3, diagnostics@);
                    }
                }
            },
            XmlNode::Text(_) => {
                proof {
                    assert(others_ok(own@, ch.subrange(0, i + 1), ctx));
                }
            },
        }
        proof {
            assert(extends(d3, diagnostics@)) by { lemma_extends_refl(d3); assert(diagnostics@.subrange(0, d3.len() as int) =~= d3); }
            lemma_extends_trans(d2, d3, diagnostics@);
            assert(ch.subrange(0, i + 1)[i as int] == ch[i as int]);
            lemma_bean_children_adds_step(own@, depth as int, ch.subrange(0, i + 1), d2, d3, diagnostics@);
        }
        i += 1;
    }
    proof {
        assert(ch.subrange(0, n as int) =~= ch);
        assert(core_adds(*element, d0, d1));
        assert(pc_adds(own@, element.attrs@, d1, d2));
    }
    let bean = ctx.into_bean();
    proof {
        assert(ctx_of(bean) == ctx);
        assert forall|j: int| 0 <= j < bean.properties@.len() implies inject_ok(#[trigger] bean.properties@[j].value) by {}
    }
    bean
}


/// A bean's scope: `scope=` as written; without it, the legacy
/// `singleton="false"` makes the bean a `prototype` and `singleton="true"`
/// a `singleton`, each at the `singleton=` value's span; any other
/// `singleton=` value, or neither attribute, gives no scope.
pub proof fn law_bean_scope(sc: ScopeView, depth: int, e: XmlElement, b: Bean)
    requires
        bean_rel(sc, depth, e, b),
    ensures
        crate::reading::attr_value(e.attrs@, "scope"@) matches Some(v) ==> (b.scope matches Some(x) && x.value@ == v.value@
            && x.span == v.span),
        crate::reading::attr_value(e.attrs@, "scope"@) is None ==> match crate::reading::attr_value(e.attrs@, "singleton"@) {
            Some(v) => if v.value@ == "false"@ {
                b.scope matches Some(x) && x.value@ == "prototype"@ && x.span == v.span
            } else if v.value@ == "true"@ {
                b.scope matches Some(x) && x.value@ == "singleton"@ && x.span == v.span
            } else {
                b.scope is None
            },
            None => b.scope is None,
        },
{
    reveal_strlit("true");
    reveal_strlit("false");
    assert(core_attrs_ok(e, ctx_of(b)));
    assert(ctx_of(b).scope == b.scope);
    assert(crate::bean_attrs::sp_view(b.scope) == crate::bean_attrs::scope_spec(e.attrs@));
    assert("false"@.len() == 5 && "true"@.len() == 4);
    if let Some(v) = crate::reading::attr_value(e.attrs@, "singleton"@) {
        if v.value@ == "false"@ {
            assert(v.value@ != "true"@);
        }
    }
}


/// A token `t` holds exactly the bytes `[x, y)` of a list value `vb`
/// whose bytes start at offset `base`, and spans them.
pub open spec fn token_at(t: Spanned<String>, vb: Seq<u8>, base: int, x: int, y: int) -> bool {
    &&& 0 <= x < y <= vb.len()
    &&& token_bytes(t) == vb.subrange(x, y)
    &&& t.span == (ByteSpan { start: crate::tokens::sat(base + x), end: crate::tokens::sat(base + y) })
}

/// The UTF-8 bytes of a token's text.
pub open spec fn token_bytes(t: Spanned<String>) -> Seq<u8> {
    vstd::utf8::encode_utf8(t.value@)
}

/// A separator in a bean's `name=` list: `,`, `;`, space, tab, line
/// feed, form feed or carriage return.
pub open spec fn name_separator(c: u8) -> bool {
    c == 0x2Cu8 || c == 0x3Bu8 || c == 0x20u8 || c == 0x09u8 || c == 0x0Au8 || c == 0x0Cu8 || c == 0x0Du8
}

/// The tokens of a list value `v` (see `tokens_of_attr`) are its maximal
/// runs between separators (`,`, `;`, ASCII whitespace), in order: each
/// token holds a run's bytes and spans them, contains no separator and is
/// bordered by separators or the value's ends; tokens come one after
/// another; every other byte of the value is in some token.
pub open spec fn list_tokens_maximal(out: Seq<Spanned<String>>, v: Spanned<String>) -> bool {
    let vb = vstd::utf8::encode_utf8(v.value@);
    &&& forall|k: int|
        0 <= k < out.len() ==> exists|x: int, y: int|
            #![trigger vb.subrange(x, y)]
            token_at(#[trigger] out[k], vb, v.span.start as int, x, y)
                && (x == 0 || name_separator(vb[x - 1]))
                && (y == vb.len() || name_separator(vb[y]))
                && forall|j: int| x <= j < y ==> !name_separator(#[trigger] vb[j])
    &&& forall|k1: int, k2: int| 0 <= k1 < k2 < out.len() ==> (#[trigger] out[k1]).span.end <= (#[trigger] out[k2]).span.start
    &&& forall|j: int|
        0 <= j < vb.len() && !name_separator(#[trigger] vb[j]) ==> exists|k: int, x: int, y: int|
            #![trigger out[k], vb.subrange(x, y)]
            0 <= k < out.len() && x <= j < y && token_at(out[k], vb, v.span.start as int, x, y)
}

/// A list attribute's tokens are its maximal runs between separators
/// (`list_tokens_maximal`); an absent attribute has none.
pub proof fn law_list_tokens(out: Seq<Spanned<String>>, v: Option<Spanned<String>>)
    requires
        crate::bean_attrs::tokens_of_attr(out, v),
    ensures
        v is None ==> out.len() == 0,
        v matches Some(x) ==> list_tokens_maximal(out, x),
{
    if let Some(v) = v {
        let vb = vstd::utf8::encode_utf8(v.value@);
        let rs = crate::tokens::name_runs(vb, 0, None);
        vstd::utf8::encode_utf8_valid_utf8(v.value@);
        crate::text::lemma_ends_are_boundaries(vb);
        crate::tokens::lemma_name_runs_maximal(vb);
        assert forall|k: int| 0 <= k < rs.len() implies token_at(out[k], vb, v.span.start as int, #[trigger] rs[k].0, rs[k].1) by {
            let x = rs[k].0;
            let y = rs[k].1;
            assert(crate::tokens::name_run_ok(vb, rs[k]));
            if x > 0 {
                crate::text::lemma_after_ascii_is_boundary(vb, x - 1);
            }
            if y < vb.len() {
                crate::text::lemma_ascii_is_boundary(vb, y);
            }
            crate::text::lemma_slice_roundtrip(vb, x, y);
        }
        assert forall|k: int| 0 <= k < out.len() implies exists|x: int, y: int|
            #![trigger vb.subrange(x, y)]
            token_at(#[trigger] out[k], vb, v.span.start as int, x, y)
                && (x == 0 || name_separator(vb[x - 1]))
                && (y == vb.len() || name_separator(vb[y]))
                && forall|j: int| x <= j < y ==> !name_separator(#[trigger] vb[j]) by {
            let x = rs[k].0;
            let y = rs[k].1;
            assert(token_at(out[k], vb, v.span.start as int, x, y));
            assert(crate::tokens::name_run_ok(vb, rs[k]));
            assert forall|j: int| x <= j < y implies !name_separator(#[trigger] vb[j]) by {
                assert(rs[k].0 <= j < rs[k].1);
            }
        }
        assert forall|k1: int, k2: int| 0 <= k1 < k2 < out.len() implies (#[trigger] out[k1]).span.end
            <= (#[trigger] out[k2]).span.start by {
            assert(rs[k1].1 < rs[k2].0);
        }
        assert forall|j: int| 0 <= j < vb.len() && !name_separator(#[trigger] vb[j]) implies exists|k: int, x: int, y: int|
            #![trigger out[k], vb.subrange(x, y)]
            0 <= k < out.len() && x <= j < y && token_at(out[k], vb, v.span.start as int, x, y) by {
            let k = choose|k: int| 0 <= k < rs.len() && #[trigger] rs[k].0 <= j < rs[k].1;
            assert(token_at(out[k], vb, v.span.start as int, rs[k].0, rs[k].1));
        }
    }
}

/// A bean's names are the tokens of its `name=` value: its maximal runs
/// between separators, in order (`list_tokens_maximal`). Without `name=`
/// a bean has no names.
pub proof fn law_bean_names(sc: ScopeView, depth: int, e: XmlElement, b: Bean)
    requires
        bean_rel(sc, depth, e, b),
    ensures
        crate::reading::attr_value(e.attrs@, "name"@) is None ==> b.names@.len() == 0,
        crate::reading::attr_value(e.attrs@, "name"@) matches Some(v) ==> list_tokens_maximal(b.names@, v),
{
    assert(core_attrs_ok(e, ctx_of(b)));
    assert(ctx_of(b).names == b.names);
    law_list_tokens(b.names@, crate::reading::attr_value(e.attrs@, "name"@));
}

/// A flag attribute read as written: `Some(true)` for `"true"`,
/// `Some(false)` for `"false"`, nothing otherwise or when absent.
pub open spec fn written_flag(a: Seq<XmlAttr>, name: Seq<char>) -> Option<bool> {
    match crate::reading::attr_named(a, name) {
        Some(x) => if x.value.value@ == seq!['t', 'r', 'u', 'e'] {
            Some(true)
        } else if x.value.value@ == seq!['f', 'a', 'l', 's', 'e'] {
            Some(false)
        } else {
            None
        },
        None => None,
    }
}

/// A bean reference attribute read as written: a `Bean` reference with
/// the value's text and span when the value is non-empty, else none.
pub open spec fn written_ref(a: Seq<XmlAttr>, name: Seq<char>) -> Option<Spanned<crate::model::BeanRef>> {
    match crate::reading::attr_named(a, name) {
        Some(x) => if x.value.value@.len() > 0 {
            Some(Spanned { value: crate::model::BeanRef { raw: x.value.value, kind: crate::model::RefKind::Bean }, span: x.value.span })
        } else {
            None
        },
        None => None,
    }
}

/// What a bean takes from its element's own attributes: `id`,
/// `autowire`, `factory-method`, `init-method` and `destroy-method` as
/// written (first attribute of each name); `parent` and `factory-bean` as
/// bean references; `abstract` and `primary` set only by `"true"`;
/// `lazy-init` and `autowire-candidate` as `true` / `false` / no opinion.
pub proof fn law_bean_core_attributes(sc: ScopeView, depth: int, e: XmlElement, b: Bean)
    requires
        bean_rel(sc, depth, e, b),
    ensures
        b.id == (match crate::reading::attr_named(e.attrs@, "id"@) { Some(x) => Some(x.value), None => None }),
        b.autowire == (match crate::reading::attr_named(e.attrs@, "autowire"@) { Some(x) => Some(x.value), None => None }),
        b.factory_method == (match crate::reading::attr_named(e.attrs@, "factory-method"@) {
            Some(x) => Some(x.value),
            None => None,
        }),
        b.init_method == (match crate::reading::attr_named(e.attrs@, "init-method"@) { Some(x) => Some(x.value), None => None }),
        b.destroy_method == (match crate::reading::attr_named(e.attrs@, "destroy-method"@) {
            Some(x) => Some(x.value),
            None => None,
        }),
        b.parent == written_ref(e.attrs@, "parent"@),
        b.factory_bean == written_ref(e.attrs@, "factory-bean"@),
        b.abstract_ == (written_flag(e.attrs@, "abstract"@) == Some(true)),
        b.primary == (written_flag(e.attrs@, "primary"@) == Some(true)),
        b.lazy_init == written_flag(e.attrs@, "lazy-init"@),
        b.autowire_candidate == written_flag(e.attrs@, "autowire-candidate"@),
{
    reveal_strlit("true");
    reveal_strlit("false");
    assert("true"@ =~= seq!['t', 'r', 'u', 'e']);
    assert("false"@ =~= seq!['f', 'a', 'l', 's', 'e']);
    assert(core_attrs_ok(e, ctx_of(b)));
    assert(crate::reading::flag_of(crate::reading::attr_value(e.attrs@, "abstract"@)) == written_flag(e.attrs@, "abstract"@));
    assert(crate::reading::flag_of(crate::reading::attr_value(e.attrs@, "primary"@)) == written_flag(e.attrs@, "primary"@));
}


/// A reference `t` names the bytes `[x, y)` of a list value `vb` whose
/// bytes start at offset `base`, as a `Bean` reference spanning them.
pub open spec fn ref_token_at(t: Spanned<crate::model::BeanRef>, vb: Seq<u8>, base: int, x: int, y: int) -> bool {
    &&& 0 <= x < y <= vb.len()
    &&& vstd::utf8::encode_utf8(t.value.raw@) == vb.subrange(x, y)
    &&& t.value.kind == crate::model::RefKind::Bean
    &&& t.span == (ByteSpan { start: crate::tokens::sat(base + x), end: crate::tokens::sat(base + y) })
}

/// A bean's `depends-on` references are the maximal runs of its
/// `depends-on=` value between separators (`,`, `;`, ASCII whitespace),
/// in order, each a `Bean` reference with the run's text and span; every
/// other byte of the value is in some reference. Without `depends-on=`
/// there are none.
pub proof fn law_bean_depends_on(sc: ScopeView, depth: int, e: XmlElement, b: Bean)
    requires
        bean_rel(sc, depth, e, b),
    ensures
        crate::reading::attr_value(e.attrs@, "depends-on"@) is None ==> b.depends_on@.len() == 0,
        crate::reading::attr_value(e.attrs@, "depends-on"@) matches Some(v) ==> {
            let vb = vstd::utf8::encode_utf8(v.value@);
            &&& forall|k: int|
                0 <= k < b.depends_on@.len() ==> exists|x: int, y: int|
                    #![trigger vb.subrange(x, y)]
                    ref_token_at(#[trigger] b.depends_on@[k], vb, v.span.start as int, x, y)
                        && (x == 0 || name_separator(vb[x - 1]))
                        && (y == vb.len() || name_separator(vb[y]))
                        && forall|j: int| x <= j < y ==> !name_separator(#[trigger] vb[j])
            &&& forall|k1: int, k2: int|
                0 <= k1 < k2 < b.depends_on@.len() ==> (#[trigger] b.depends_on@[k1]).span.end <= (#[trigger] b.depends_on@[k2]).span.start
            &&& forall|j: int|
                0 <= j < vb.len() && !name_separator(#[trigger] vb[j]) ==> exists|k: int, x: int, y: int|
                    #![trigger b.depends_on@[k], vb.subrange(x, y)]
                    0 <= k < b.depends_on@.len() && x <= j < y && ref_token_at(b.depends_on@[k], vb, v.span.start as int, x, y)
        },
{
    assert(core_attrs_ok(e, ctx_of(b)));
    assert(ctx_of(b).depends_on == b.depends_on);
    if let Some(v) = crate::reading::attr_value(e.attrs@, "depends-on"@) {
        let vb = vstd::utf8::encode_utf8(v.value@);
        let rs = crate::tokens::name_runs(vb, 0, None);
        vstd::utf8::encode_utf8_valid_utf8(v.value@);
        crate::text::lemma_ends_are_boundaries(vb);
        crate::tokens::lemma_name_runs_maximal(vb);
        assert forall|k: int| 0 <= k < rs.len() implies ref_token_at(b.depends_on@[k], vb, v.span.start as int, #[trigger] rs[k].0, rs[k].1) by {
            let x = rs[k].0;
            let y = rs[k].1;
            assert(crate::tokens::name_run_ok(vb, rs[k]));
            if x > 0 {
                crate::text::lemma_after_ascii_is_boundary(vb, x - 1);
            }
            if y < vb.len() {
                crate::text::lemma_ascii_is_boundary(vb, y);
            }
            crate::text::lemma_slice_roundtrip(vb, x, y);
        }
        assert forall|k: int| 0 <= k < b.depends_on@.len() implies exists|x: int, y: int|
            #![trigger vb.subrange(x, y)]
            ref_token_at(#[trigger] b.depends_on@[k], vb, v.span.start as int, x, y)
                && (x == 0 || name_separator(vb[x - 1]))
                && (y == vb.len() || name_separator(vb[y]))
                && forall|j: int| x <= j < y ==> !name_separator(#[trigger] vb[j]) by {
            let x = rs[k].0;
            let y = rs[k].1;
            assert(ref_token_at(b.depends_on@[k], vb, v.span.start as int, x, y));
            assert(crate::tokens::name_run_ok(vb, rs[k]));
            assert forall|j: int| x <= j < y implies !name_separator(#[trigger] vb[j]) by {
                assert(rs[k].0 <= j < rs[k].1);
            }
        }
        assert forall|k1: int, k2: int| 0 <= k1 < k2 < b.depends_on@.len() implies (#[trigger] b.depends_on@[k1]).span.end
            <= (#[trigger] b.depends_on@[k2]).span.start by {
            assert(rs[k1].1 < rs[k2].0);
        }
        assert forall|j: int| 0 <= j < vb.len() && !name_separator(#[trigger] vb[j]) implies exists|k: int, x: int, y: int|
            #![trigger b.depends_on@[k], vb.subrange(x, y)]
            0 <= k < b.depends_on@.len() && x <= j < y && ref_token_at(b.depends_on@[k], vb, v.span.start as int, x, y) by {
            let k = choose|k: int| 0 <= k < rs.len() && #[trigger] rs[k].0 <= j < rs[k].1;
            assert(ref_token_at(b.depends_on@[k], vb, v.span.start as int, rs[k].0, rs[k].1));
        }
    }
}

} // verus!
