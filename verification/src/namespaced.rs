//! Elements of other namespaces (`aop:`, `tx:`, `task:`, `jee:`, ...)
//! kept as they stand, plus the bean references found on a fixed table of
//! (namespace, element, attribute) triples anywhere in their subtree.
use vstd::prelude::*;
use crate::events::{XmlAttr, XmlElement, XmlNode};
use crate::literal::{one_more, one_more_msg, ref_from_attr, ref_reported, ref_spec};
use crate::inject_value::{extends, lemma_extends_trans};
use crate::model::{AttrPair, BeanRef, DiagCode, Diagnostic, NamespacedElement, RefKind, Spanned};
use crate::reading::{attr_named, attr_value, find_attr, find_spanned, copy_spanned};
use crate::scope::{
    element_qname, element_qname_of, scope_for, starts_with, xmlns_colon, NsScope, ScopeView,
};
use crate::text::str_eq;
use crate::wellformed::bean_refs_ok;
use crate::scope::copy_string;

verus! {

pub open spec fn aop_ns(ns: Seq<char>) -> bool {
    ns == "http://www.springframework.org/schema/aop"@ || ns == "aop"@
}

pub open spec fn tx_ns(ns: Seq<char>) -> bool {
    ns == "http://www.springframework.org/schema/tx"@ || ns == "tx"@
}

pub open spec fn task_ns(ns: Seq<char>) -> bool {
    ns == "http://www.springframework.org/schema/task"@ || ns == "task"@
}

pub open spec fn jee_ns(ns: Seq<char>) -> bool {
    ns == "http://www.springframework.org/schema/jee"@ || ns == "jee"@
}

/// The attributes that hold a bean reference on an element of namespace
/// `ns` and local name `local`, in table order: `aop:aspect ref`,
/// `aop:advisor advice-ref`, `tx:advice` / `tx:annotation-driven
/// transaction-manager`, `task:scheduled ref` and `scheduler`, and
/// `jee:jndi-lookup` / `remote-slsb` / `local-slsb environment-ref`.
pub open spec fn ref_attrs_for(ns: Seq<char>, local: Seq<char>) -> Seq<Seq<char>> {
    if aop_ns(ns) && local == "aspect"@ {
        seq!["ref"@]
    } else if aop_ns(ns) && local == "advisor"@ {
        seq!["advice-ref"@]
    } else if tx_ns(ns) && (local == "advice"@ || local == "annotation-driven"@) {
        seq!["transaction-manager"@]
    } else if task_ns(ns) && local == "scheduled"@ {
        seq!["ref"@, "scheduler"@]
    } else if jee_ns(ns) && (local == "jndi-lookup"@ || local == "remote-slsb"@ || local == "local-slsb"@) {
        seq!["environment-ref"@]
    } else {
        Seq::empty()
    }
}

/// The references the attributes `names` hold, in order (an absent or
/// empty attribute holds none).
pub open spec fn refs_on(attrs: Seq<XmlAttr>, names: Seq<Seq<char>>) -> Seq<Spanned<BeanRef>>
    decreases names.len(),
{
    if names.len() == 0 {
        Seq::empty()
    } else {
        refs_on(attrs, names.drop_last()) + match attr_named(attrs, names.last()) {
            Some(a) => match ref_spec(a, RefKind::Bean) {
                Some(r) => seq![r],
                None => Seq::empty(),
            },
            None => Seq::empty(),
        }
    }
}

/// The references an element holds itself.
pub open spec fn own_refs(sc: ScopeView, e: XmlElement) -> Seq<Spanned<BeanRef>> {
    let q = element_qname(sc, e);
    refs_on(e.attrs@, ref_attrs_for(q.0, q.1))
}

/// Every reference in `e`'s subtree, element by element in document
/// order; below the depth limit the subtree is not searched.
pub open spec fn harvested(sc: ScopeView, e: XmlElement, depth: int) -> Seq<Spanned<BeanRef>>
    decreases e, 1int,
{
    if depth >= crate::DEPTH_LIMIT {
        own_refs(sc, e)
    } else {
        own_refs(sc, e) + harvested_children(scope_for(sc, e), e.children@, depth + 1)
    }
}

pub open spec fn harvested_children(sc: ScopeView, children: Seq<XmlNode>, depth: int) -> Seq<Spanned<BeanRef>>
    decreases children, 0int,
{
    if children.len() == 0 {
        Seq::empty()
    } else {
        harvested_children(sc, children.drop_last(), depth) + match children.last() {
            XmlNode::Element(c) => harvested(sc, c, depth),
            XmlNode::Text(_) => Seq::empty(),
        }
    }
}

/// What reading the references the attributes `names` hold adds to the
/// diagnostics: a present but empty one is reported (`RefWithoutTarget`).
pub open spec fn refs_adds(attrs: Seq<XmlAttr>, names: Seq<Seq<char>>, old: Seq<Diagnostic>, new: Seq<Diagnostic>) -> bool
    decreases names.len(),
{
    if names.len() == 0 {
        new == old
    } else {
        exists|mid: Seq<Diagnostic>|
            refs_adds(attrs, names.drop_last(), old, mid) && #[trigger] ref_read_adds(attrs, names.last(), mid, new)
    }
}

proof fn lemma_refs_step(attrs: Seq<XmlAttr>, names: Seq<Seq<char>>, old: Seq<Diagnostic>, mid: Seq<Diagnostic>, new: Seq<Diagnostic>)
    requires
        names.len() > 0,
        refs_adds(attrs, names.drop_last(), old, mid),
        ref_read_adds(attrs, names.last(), mid, new),
    ensures
        refs_adds(attrs, names, old, new),
{
}

/// Reading the reference the attribute `name` holds, if present.
pub open spec fn ref_read_adds(attrs: Seq<XmlAttr>, name: Seq<char>, old: Seq<Diagnostic>, new: Seq<Diagnostic>) -> bool {
    match attr_named(attrs, name) {
        Some(a) => ref_reported(a, old, new),
        None => new == old,
    }
}

/// What harvesting `e`'s subtree adds to the diagnostics: its own
/// references' reports, then, past the depth limit, one
/// `NestingLimitExceeded` at `e`; else what its children add.
pub open spec fn harvest_adds(sc: ScopeView, e: XmlElement, depth: int, old: Seq<Diagnostic>, new: Seq<Diagnostic>) -> bool
    decreases e, 1int,
{
    let q = element_qname(sc, e);
    exists|mid: Seq<Diagnostic>|
        #[trigger] refs_adds(e.attrs@, ref_attrs_for(q.0, q.1), old, mid) && if depth >= crate::DEPTH_LIMIT {
            one_more_msg(
                mid,
                new,
                DiagCode::NestingLimitExceeded,
                Some(e.span),
                "namespaced element nesting exceeded 256 levels while harvesting refs; remaining subtree treated as opaque"@,
            )
        } else {
            harvest_children_adds(scope_for(sc, e), e.children@, depth + 1, mid, new)
        }
}

pub open spec fn harvest_children_adds(
    sc: ScopeView,
    children: Seq<XmlNode>,
    depth: int,
    old: Seq<Diagnostic>,
    new: Seq<Diagnostic>,
) -> bool
    decreases children, 0int,
{
    if children.len() == 0 {
        new == old
    } else {
        exists|mid: Seq<Diagnostic>|
            #[trigger] extends(old, mid) && harvest_children_adds(sc, children.drop_last(), depth, old, mid) && match children.last() {
                XmlNode::Element(c) => harvest_adds(sc, c, depth, mid, new),
                XmlNode::Text(_) => new == mid,
            }
    }
}

proof fn lemma_harvest_children_step(
    sc: ScopeView,
    ch: Seq<XmlNode>,
    depth: int,
    old: Seq<Diagnostic>,
    mid: Seq<Diagnostic>,
    new: Seq<Diagnostic>,
)
    requires
        ch.len() > 0,
        extends(old, mid),
        harvest_children_adds(sc, ch.drop_last(), depth, old, mid),
        match ch.last() {
            XmlNode::Element(c) => harvest_adds(sc, c, depth, mid, new),
            XmlNode::Text(_) => new == mid,
        },
    ensures
        harvest_children_adds(sc, ch, depth, old, new),
{
}

pub open spec fn is_xmlns_decl(a: XmlAttr) -> bool {
    a.name@ == "xmlns"@ || starts_with(a.name@, xmlns_colon())
}

pub open spec fn attr_pair_of(a: XmlAttr) -> AttrPair {
    AttrPair { key: Spanned { value: a.name, span: a.name_span }, value: a.value }
}

/// The attributes other than namespace declarations, as pairs, in order.
pub open spec fn kept_attrs(attrs: Seq<XmlAttr>) -> Seq<AttrPair>
    decreases attrs.len(),
{
    if attrs.len() == 0 {
        Seq::empty()
    } else if is_xmlns_decl(attrs.last()) {
        kept_attrs(attrs.drop_last())
    } else {
        kept_attrs(attrs.drop_last()).push(attr_pair_of(attrs.last()))
    }
}

/// The element kept as it stands: namespace and local name resolved, its
/// span and `id=`, its attributes but the namespace declarations, and
/// every reference in its subtree.
pub open spec fn namespaced_of(sc: ScopeView, e: XmlElement, n: NamespacedElement) -> bool {
    &&& (n.ns@, n.local@) == element_qname(sc, e)
    &&& n.span == e.span
    &&& n.id == attr_value(e.attrs@, "id"@)
    &&& n.attrs@ == kept_attrs(e.attrs@)
    &&& n.refs@ == harvested(sc, e, 0)
}

pub proof fn lemma_refs_on_ok(attrs: Seq<XmlAttr>, names: Seq<Seq<char>>)
    ensures
        bean_refs_ok(refs_on(attrs, names)),
    decreases names.len(),
{
    if names.len() > 0 {
        lemma_refs_on_ok(attrs, names.drop_last());
        let a = refs_on(attrs, names.drop_last());
        let b = match attr_named(attrs, names.last()) {
            Some(x) => match ref_spec(x, RefKind::Bean) {
                Some(r) => seq![r],
                None => Seq::empty(),
            },
            None => Seq::empty(),
        };
        assert forall|i: int| 0 <= i < (a + b).len() implies #[trigger] crate::wellformed::bean_ref_ok((a + b)[i]) by {
            if i >= a.len() {
                assert(b.len() == 1);
            }
        }
    }
}

pub proof fn lemma_harvested_ok(sc: ScopeView, e: XmlElement, depth: int)
    ensures
        bean_refs_ok(harvested(sc, e, depth)),
    decreases e, 1int,
{
    lemma_refs_on_ok(e.attrs@, ref_attrs_for(element_qname(sc, e).0, element_qname(sc, e).1));
    if depth < crate::DEPTH_LIMIT {
        lemma_harvested_children_ok(scope_for(sc, e), e.children@, depth + 1);
        lemma_concat_ok(own_refs(sc, e), harvested_children(scope_for(sc, e), e.children@, depth + 1));
    }
}

pub proof fn lemma_harvested_children_ok(sc: ScopeView, children: Seq<XmlNode>, depth: int)
    ensures
        bean_refs_ok(harvested_children(sc, children, depth)),
    decreases children, 0int,
{
    if children.len() > 0 {
        lemma_harvested_children_ok(sc, children.drop_last(), depth);
        match children.last() {
            XmlNode::Element(c) => {
                lemma_harvested_ok(sc, c, depth);
                lemma_concat_ok(harvested_children(sc, children.drop_last(), depth), harvested(sc, c, depth));
            },
            XmlNode::Text(_) => {
                lemma_concat_ok(harvested_children(sc, children.drop_last(), depth), Seq::empty());
            },
        }
    }
}

pub proof fn lemma_concat_ok(a: Seq<Spanned<BeanRef>>, b: Seq<Spanned<BeanRef>>)
    requires
        bean_refs_ok(a),
        bean_refs_ok(b),
    ensures
        bean_refs_ok(a + b),
{
    assert forall|i: int| 0 <= i < (a + b).len() implies #[trigger] crate::wellformed::bean_ref_ok((a + b)[i]) by {
        if i < a.len() {
            assert((a + b)[i] == a[i]);
        } else {
            assert((a + b)[i] == b[i - a.len()]);
        }
    }
}

/// The reference attributes of the table for (`ns`, `local`).
fn ref_attr_names(ns: &str, local: &str) -> (r: Vec<&'static str>)
    ensures
        r@.map_values(|s: &str| s@) == ref_attrs_for(ns@, local@),
{
    let aop = str_eq(ns, "http://www.springframework.org/schema/aop") || str_eq(ns, "aop");
    let tx = str_eq(ns, "http://www.springframework.org/schema/tx") || str_eq(ns, "tx");
    let task = str_eq(ns, "http://www.springframework.org/schema/task") || str_eq(ns, "task");
    let jee = str_eq(ns, "http://www.springframework.org/schema/jee") || str_eq(ns, "jee");
    let mut r: Vec<&'static str> = Vec::new();
    if aop && str_eq(local, "aspect") {
        r.push("ref");
    } else if aop && str_eq(local, "advisor") {
        r.push("advice-ref");
    } else if tx && (str_eq(local, "advice") || str_eq(local, "annotation-driven")) {
        r.push("transaction-manager");
    } else if task && str_eq(local, "scheduled") {
        r.push("ref");
        r.push("scheduler");
    } else if jee && (str_eq(local, "jndi-lookup") || str_eq(local, "remote-slsb") || str_eq(local, "local-slsb")) {
        r.push("environment-ref");
    }
    proof {
        assert(r@.map_values(|s: &str| s@) =~= ref_attrs_for(ns@, local@));
    }
    r
}

/// Appends the references `element` holds itself.
fn push_own_refs(
    scope: &NsScope,
    element: &XmlElement,
    out: &mut Vec<Spanned<BeanRef>>,
    diagnostics: &mut Vec<Diagnostic>,
)
    ensures
        final(out)@ == old(out)@ + own_refs(scope@, *element),
        old(diagnostics)@.len() <= final(diagnostics)@.len(),
        final(diagnostics)@.subrange(0, old(diagnostics)@.len() as int) == old(diagnostics)@,
        refs_adds(
            element.attrs@,
            ref_attrs_for(element_qname(scope@, *element).0, element_qname(scope@, *element).1),
            old(diagnostics)@,
            final(diagnostics)@,
        ),
{
    let q = element_qname_of(element, scope);
    let names = ref_attr_names(q.0.as_str(), q.1.as_str());
    let ghost ns = names@.map_values(|s: &str| s@);
    let ghost start = out@;
    let mut i: usize = 0;
    while i < names.len()
        invariant
            i <= names@.len(),
            ns == names@.map_values(|s: &str| s@),
            ns == ref_attrs_for(q.0@, q.1@),
            (q.0@, q.1@) == element_qname(scope@, *element),
            out@ == start + refs_on(element.attrs@, ns.subrange(0, i as int)),
            old(diagnostics)@.len() <= diagnostics@.len(),
            diagnostics@.subrange(0, old(diagnostics)@.len() as int) == old(diagnostics)@,
            refs_adds(element.attrs@, ns.subrange(0, i as int), old(diagnostics)@, diagnostics@),
        decreases names@.len() - i,
    {
        proof {
            assert(ns.subrange(0, i + 1).drop_last() =~= ns.subrange(0, i as int));
            assert(ns.subrange(0, i + 1).last() == names@[i as int]@);
        }
        let ghost d0 = diagnostics@;
        match find_attr(&element.attrs, names[i]) {
            Some(k) => {
                match ref_from_attr(&element.attrs[k], diagnostics) {
                    Some(r) => {
                        out.push(r);
                        proof {
                            assert(out@ =~= start + refs_on(element.attrs@, ns.subrange(0, i + 1)));
                        }
                    },
                    None => {
                        proof {
                            assert(out@ =~= start + refs_on(element.attrs@, ns.subrange(0, i + 1)));
                        }
                    },
                }
                proof {
                    assert(diagnostics@.subrange(0, old(diagnostics)@.len() as int) =~= d0.subrange(0, old(diagnostics)@.len() as int));
                    lemma_refs_step(element.attrs@, ns.subrange(0, i + 1), old(diagnostics)@, d0, diagnostics@);
                }
            },
            None => {
                proof {
                    assert(out@ =~= start + refs_on(element.attrs@, ns.subrange(0, i + 1)));
                    lemma_refs_step(element.attrs@, ns.subrange(0, i + 1), old(diagnostics)@, d0, diagnostics@);
                }
            },
        }
        i += 1;
    }
    proof {
        assert(ns.subrange(0, ns.len() as int) =~= ns);
    }
}

/// Appends every allowlisted reference in `element`'s subtree (see
/// `harvested`); nesting past the depth limit is reported
/// (`NestingLimitExceeded`) and not searched.
pub fn harvest_refs(
    scope: &NsScope,
    element: &XmlElement,
    out: &mut Vec<Spanned<BeanRef>>,
    diagnostics: &mut Vec<Diagnostic>,
    depth: u32,
)
    ensures
        final(out)@ == old(out)@ + harvested(scope@, *element, depth as int),
        old(diagnostics)@.len() <= final(diagnostics)@.len(),
        final(diagnostics)@.subrange(0, old(diagnostics)@.len() as int) == old(diagnostics)@,
        depth >= crate::DEPTH_LIMIT ==> final(diagnostics)@.len() > old(diagnostics)@.len()
            && final(diagnostics)@.last().code == DiagCode::NestingLimitExceeded
            && final(diagnostics)@.last().span == Some(element.span),
        harvest_adds(scope@, *element, depth as int, old(diagnostics)@, final(diagnostics)@),
    decreases crate::DEPTH_LIMIT - depth,
{
    push_own_refs(scope, element, out, diagnostics);
    let ghost mid = diagnostics@;
    if depth >= crate::DEPTH_LIMIT {
        let ghost d0 = diagnostics@;
        crate::literal::push_diag(
            diagnostics,
            DiagCode::NestingLimitExceeded,
            Some(element.span),
            "namespaced element nesting exceeded 256 levels while harvesting refs; remaining subtree treated as opaque".to_owned(),
        );
        proof {
            assert(diagnostics@.subrange(0, old(diagnostics)@.len() as int) =~= d0.subrange(0, old(diagnostics)@.len() as int));
            assert(diagnostics@.drop_last() =~= mid);
            let q = element_qname(scope@, *element);
            assert(refs_adds(element.attrs@, ref_attrs_for(q.0, q.1), old(diagnostics)@, mid));
        }
        return;
    }
    let own = NsScope::from_element(element, Some(scope));
    let ghost start = out@;
    let mut i: usize = 0;
    proof { crate::inject_value::lemma_extends_refl(diagnostics@); }
    while i < element.children.len()
        invariant
            i <= element.children@.len(),
            depth < crate::DEPTH_LIMIT,
            own@ == scope_for(scope@, *element),
            out@ == start + harvested_children(own@, element.children@.subrange(0, i as int), depth + 1),
            old(diagnostics)@.len() <= diagnostics@.len(),
            diagnostics@.subrange(0, old(diagnostics)@.len() as int) == old(diagnostics)@,
            harvest_children_adds(own@, element.children@.subrange(0, i as int), depth + 1, mid, diagnostics@),
            extends(mid, diagnostics@),
        decreases element.children@.len() - i,
    {
        proof {
            assert(element.children@.subrange(0, i + 1).drop_last() =~= element.children@.subrange(0, i as int));
            assert(element.children@.subrange(0, i + 1).last() == element.children@[i as int]);
        }
        let ghost o0 = out@;
        let ghost d0 = diagnostics@;
        match &element.children[i] {
            XmlNode::Element(c) => {
                harvest_refs(&own, c, out, diagnostics, depth + 1);
                proof {
                    assert(diagnostics@.subrange(0, d0.len() as int) == d0);
                    assert(extends(d0, diagnostics@));
                    lemma_extends_trans(mid, d0, diagnostics@);
                    lemma_harvest_children_step(own@, element.children@.subrange(0, i + 1), depth + 1, mid, d0, diagnostics@);
                    assert(out@ =~= start + harvested_children(own@, element.children@.subrange(0, i + 1), depth + 1));
                    assert(diagnostics@.subrange(0, old(diagnostics)@.len() as int) =~= d0.subrange(0, old(diagnostics)@.len() as int));
                }
            },
            XmlNode::Text(_) => {
                proof {
                    assert(out@ =~= start + harvested_children(own@, element.children@.subrange(0, i + 1), depth + 1));
                    assert(diagnostics@.subrange(0, d0.len() as int) == d0);
                    assert(extends(d0, diagnostics@));
                    lemma_extends_trans(mid, d0, diagnostics@);
                    lemma_harvest_children_step(own@, element.children@.subrange(0, i + 1), depth + 1, mid, d0, diagnostics@);
                }
            },
        }
        i += 1;
    }
    proof {
        assert(element.children@.subrange(0, element.children@.len() as int) =~= element.children@);
        let q = element_qname(scope@, *element);
        assert(refs_adds(element.attrs@, ref_attrs_for(q.0, q.1), old(diagnostics)@, mid));
    }
}

/// A namespace declaration attribute (`xmlns`, `xmlns:*`).
fn is_xmlns_attr(a: &XmlAttr) -> (r: bool)
    ensures
        r == is_xmlns_decl(*a),
{
    str_eq(a.name.as_str(), "xmlns") || crate::scope::strip_prefix_str(a.name.as_str(), "xmlns:").is_some()
}

/// Builds the kept form of a namespaced element (see `namespaced_of`);
/// `scope` is its parent's scope.
pub fn build_namespaced_element(scope: &NsScope, element: &XmlElement, diagnostics: &mut Vec<Diagnostic>) -> (r:
    NamespacedElement)
    ensures
        namespaced_of(scope@, *element, r),
        bean_refs_ok(r.refs@),
        old(diagnostics)@.len() <= final(diagnostics)@.len(),
        final(diagnostics)@.subrange(0, old(diagnostics)@.len() as int) == old(diagnostics)@,
        harvest_adds(scope@, *element, 0, old(diagnostics)@, final(diagnostics)@),
{
    let q = element_qname_of(element, scope);
    let id = find_spanned(&element.attrs, "id");
    let mut attrs: Vec<AttrPair> = Vec::new();
    let mut i: usize = 0;
    while i < element.attrs.len()
        invariant
            i <= element.attrs@.len(),
            attrs@ == kept_attrs(element.attrs@.subrange(0, i as int)),
        decreases element.attrs@.len() - i,
    {
        proof {
            assert(element.attrs@.subrange(0, i + 1).drop_last() =~= element.attrs@.subrange(0, i as int));
        }
        let a = &element.attrs[i];
        if !is_xmlns_attr(a) {
            attrs.push(AttrPair {
                key: Spanned { value: copy_string(&a.name), span: a.name_span },
                value: copy_spanned(&a.value),
            });
        }
        i += 1;
    }
    proof {
        assert(element.attrs@.subrange(0, element.attrs@.len() as int) =~= element.attrs@);
    }
    let mut refs: Vec<Spanned<BeanRef>> = Vec::new();
    harvest_refs(scope, element, &mut refs, diagnostics, 0);
    proof {
        assert(refs@ =~= harvested(scope@, *element, 0));
        lemma_harvested_ok(scope@, *element, 0);
    }
    let (ns, local) = q;
    NamespacedElement { ns, local, span: element.span, id, attrs, refs }
}


/// On a `jee:jndi-lookup`, `jee:remote-slsb` or `jee:local-slsb` element, a
/// non-empty `environment-ref=` names a bean: it is the first reference
/// the kept element holds, with the attribute value's text and span.
pub proof fn law_jee_environment_ref(sc: ScopeView, e: XmlElement, n: NamespacedElement, a: XmlAttr)
    requires
        namespaced_of(sc, e, n),
        element_qname(sc, e).0 == "http://www.springframework.org/schema/jee"@,
        element_qname(sc, e).1 == "jndi-lookup"@ || element_qname(sc, e).1 == "remote-slsb"@ || element_qname(sc, e).1
            == "local-slsb"@,
        attr_named(e.attrs@, "environment-ref"@) == Some(a),
        a.value.value@.len() > 0,
    ensures
        n.refs@.len() >= 1,
        n.refs@[0] == (Spanned { value: BeanRef { raw: a.value.value, kind: RefKind::Bean }, span: a.value.span }),
{
    reveal_strlit("http://www.springframework.org/schema/jee");
    reveal_strlit("http://www.springframework.org/schema/aop");
    reveal_strlit("http://www.springframework.org/schema/tx");
    reveal_strlit("http://www.springframework.org/schema/task");
    reveal_strlit("aop");
    reveal_strlit("tx");
    reveal_strlit("task");
    let q = element_qname(sc, e);
    assert(q.0[38] == 'j');
    assert("http://www.springframework.org/schema/aop"@[38] == 'a');
    assert("http://www.springframework.org/schema/tx"@[38] == 't');
    assert("http://www.springframework.org/schema/task"@[38] == 't');
    assert(q.0 != "http://www.springframework.org/schema/aop"@);
    assert(q.0.len() == 41);
    assert("aop"@.len() == 3);
    assert("tx"@.len() == 2);
    assert(q.0 != "aop"@);
    assert(q.0 != "http://www.springframework.org/schema/tx"@);
    assert(q.0 != "tx"@);
    assert(!aop_ns(q.0));
    assert(!tx_ns(q.0));
    assert(!task_ns(q.0));
    assert(jee_ns(q.0));
    let names = ref_attrs_for(q.0, q.1);
    assert(names == seq!["environment-ref"@]);
    assert(names.drop_last() =~= Seq::<Seq<char>>::empty());
    let r = Spanned { value: BeanRef { raw: a.value.value, kind: RefKind::Bean }, span: a.value.span };
    assert(names.last() == "environment-ref"@);
    assert(refs_on(e.attrs@, names.drop_last()) =~= Seq::<Spanned<BeanRef>>::empty());
    assert(ref_spec(a, RefKind::Bean) == Some(r));
    assert(refs_on(e.attrs@, names) =~= seq![r]);
    assert(own_refs(sc, e) =~= seq![r]);
    if 0 < crate::DEPTH_LIMIT {
        assert(harvested(sc, e, 0) == own_refs(sc, e) + harvested_children(scope_for(sc, e), e.children@, 1));
    }
    assert(harvested(sc, e, 0)[0] == r);
}


/// The rows of the bean-reference table: the namespace, the element's
/// local name, and the attribute on it that names another bean.
pub open spec fn ref_table_row(ns: Seq<char>, local: Seq<char>, attr: Seq<char>) -> bool {
    ||| ns == "http://www.springframework.org/schema/aop"@ && local == "aspect"@ && attr == "ref"@
    ||| ns == "http://www.springframework.org/schema/aop"@ && local == "advisor"@ && attr == "advice-ref"@
    ||| ns == "http://www.springframework.org/schema/tx"@ && local == "advice"@ && attr == "transaction-manager"@
    ||| ns == "http://www.springframework.org/schema/tx"@ && local == "annotation-driven"@ && attr == "transaction-manager"@
    ||| ns == "http://www.springframework.org/schema/task"@ && local == "scheduled"@ && attr == "ref"@
    ||| ns == "http://www.springframework.org/schema/task"@ && local == "scheduled"@ && attr == "scheduler"@
    ||| ns == "http://www.springframework.org/schema/jee"@ && local == "jndi-lookup"@ && attr == "environment-ref"@
    ||| ns == "http://www.springframework.org/schema/jee"@ && local == "remote-slsb"@ && attr == "environment-ref"@
    ||| ns == "http://www.springframework.org/schema/jee"@ && local == "local-slsb"@ && attr == "environment-ref"@
}

proof fn lemma_refs_on_contains(attrs: Seq<XmlAttr>, names: Seq<Seq<char>>, i: int, a: XmlAttr)
    requires
        0 <= i < names.len(),
        attr_named(attrs, names[i]) == Some(a),
        a.value.value@.len() > 0,
    ensures
        refs_on(attrs, names).contains(Spanned { value: BeanRef { raw: a.value.value, kind: RefKind::Bean }, span: a.value.span }),
    decreases names.len(),
{
    let r = Spanned { value: BeanRef { raw: a.value.value, kind: RefKind::Bean }, span: a.value.span };
    let front = refs_on(attrs, names.drop_last());
    if i == names.len() - 1 {
        assert(ref_spec(a, RefKind::Bean) == Some(r));
        assert(refs_on(attrs, names) == front + seq![r]);
        assert((front + seq![r])[front.len() as int] == r);
    } else {
        lemma_refs_on_contains(attrs, names.drop_last(), i, a);
        let back = refs_on(attrs, names).subrange(front.len() as int, refs_on(attrs, names).len() as int);
        assert(refs_on(attrs, names) == front + back);
        let j = choose|j: int| 0 <= j < front.len() && front[j] == r;
        assert((front + back)[j] == r);
    }
}

/// Every row of the bean-reference table is harvested: on an element of
/// that namespace and local name, a non-empty value of that attribute is
/// a `Bean` reference among the kept element's references, with the
/// value's text and span.
pub proof fn law_ref_table_harvested(sc: ScopeView, e: XmlElement, n: NamespacedElement, attr: Seq<char>, a: XmlAttr)
    requires
        namespaced_of(sc, e, n),
        ref_table_row(element_qname(sc, e).0, element_qname(sc, e).1, attr),
        attr_named(e.attrs@, attr) == Some(a),
        a.value.value@.len() > 0,
    ensures
        n.refs@.contains(Spanned { value: BeanRef { raw: a.value.value, kind: RefKind::Bean }, span: a.value.span }),
{
    reveal_strlit("http://www.springframework.org/schema/jee");
    reveal_strlit("http://www.springframework.org/schema/aop");
    reveal_strlit("http://www.springframework.org/schema/tx");
    reveal_strlit("http://www.springframework.org/schema/task");
    reveal_strlit("aop");
    reveal_strlit("tx");
    reveal_strlit("task");
    reveal_strlit("jee");
    reveal_strlit("aspect");
    reveal_strlit("advisor");
    reveal_strlit("advice");
    reveal_strlit("annotation-driven");
    reveal_strlit("scheduled");
    reveal_strlit("ref");
    reveal_strlit("scheduler");
    let q = element_qname(sc, e);
    assert("aop"@.len() == 3 && "tx"@.len() == 2 && "task"@.len() == 4 && "jee"@.len() == 3);
    assert("http://www.springframework.org/schema/aop"@.len() == 41);
    assert("http://www.springframework.org/schema/tx"@.len() == 40);
    assert("http://www.springframework.org/schema/task"@.len() == 42);
    assert("http://www.springframework.org/schema/jee"@.len() == 41);
    assert("http://www.springframework.org/schema/aop"@[38] == 'a');
    assert("http://www.springframework.org/schema/jee"@[38] == 'j');
    assert("http://www.springframework.org/schema/tx"@[38] == 't');
    assert("http://www.springframework.org/schema/task"@[38] == 't');
    assert("aspect"@.len() == 6 && "advisor"@.len() == 7);
    let names = ref_attrs_for(q.0, q.1);
    let i: int = if task_ns(q.0) && attr == "scheduler"@ { 1 } else { 0 };
    assert(0 <= i < names.len() && names[i] == attr);
    lemma_refs_on_contains(e.attrs@, names, i, a);
    let r = Spanned { value: BeanRef { raw: a.value.value, kind: RefKind::Bean }, span: a.value.span };
    let own = own_refs(sc, e);
    let k = choose|k: int| 0 <= k < own.len() && own[k] == r;
    assert(harvested(sc, e, 0) == own + harvested_children(scope_for(sc, e), e.children@, 1));
    assert(harvested(sc, e, 0)[k] == r);
}

/// A namespace declaration attribute: `xmlns`, or a name beginning
/// `xmlns:`.
pub open spec fn declares_namespace(name: Seq<char>) -> bool {
    name == seq!['x', 'm', 'l', 'n', 's'] || (name.len() >= 6 && name.subrange(0, 6) == seq!['x', 'm', 'l', 'n', 's', ':'])
}

/// The pair `p` is the name and value (with their spans) of an attribute
/// of `attrs` that declares no namespace.
pub open spec fn pair_of_plain_attr(attrs: Seq<XmlAttr>, p: AttrPair) -> bool {
    exists|i: int|
        0 <= i < attrs.len() && !declares_namespace(attrs[i].name@) && p == (AttrPair {
            key: Spanned { value: #[trigger] attrs[i].name, span: attrs[i].name_span },
            value: attrs[i].value,
        })
}

proof fn lemma_kept_attrs_members(attrs: Seq<XmlAttr>)
    ensures
        forall|i: int| 0 <= i < attrs.len() && !declares_namespace((#[trigger] attrs[i]).name@) ==> kept_attrs(attrs).contains(
            AttrPair { key: Spanned { value: attrs[i].name, span: attrs[i].name_span }, value: attrs[i].value },
        ),
        forall|k: int| 0 <= k < kept_attrs(attrs).len() ==> pair_of_plain_attr(attrs, #[trigger] kept_attrs(attrs)[k]),
    decreases attrs.len(),
{
    reveal_strlit("xmlns:");
    if attrs.len() > 0 {
        let front = attrs.drop_last();
        lemma_kept_attrs_members(front);
        let last = attrs.last();
        assert(declares_namespace(last.name@) == is_xmlns_decl(last)) by {
            reveal_strlit("xmlns");
            assert("xmlns"@ =~= seq!['x', 'm', 'l', 'n', 's']);
            assert(xmlns_colon() =~= seq!['x', 'm', 'l', 'n', 's', ':']);
        }
        let kf = kept_attrs(front);
        let ka = kept_attrs(attrs);
        assert forall|i: int| 0 <= i < attrs.len() && !declares_namespace((#[trigger] attrs[i]).name@) implies ka.contains(
            AttrPair { key: Spanned { value: attrs[i].name, span: attrs[i].name_span }, value: attrs[i].value },
        ) by {
            if i < attrs.len() - 1 {
                assert(attrs[i] == front[i]);
                let p = AttrPair { key: Spanned { value: attrs[i].name, span: attrs[i].name_span }, value: attrs[i].value };
                let j = choose|j: int| 0 <= j < kf.len() && kf[j] == p;
                if !is_xmlns_decl(last) {
                    assert(ka[j] == kf[j]);
                }
            } else {
                assert(ka[kf.len() as int] == attr_pair_of(last));
            }
        }
        assert forall|k: int| 0 <= k < ka.len() implies pair_of_plain_attr(attrs, #[trigger] ka[k]) by {
            if k < kf.len() {
                assert(pair_of_plain_attr(front, kf[k]));
                let i = choose|i: int|
                    0 <= i < front.len() && !declares_namespace(front[i].name@) && kf[k] == (AttrPair {
                        key: Spanned { value: #[trigger] front[i].name, span: front[i].name_span },
                        value: front[i].value,
                    });
                assert(front[i] == attrs[i]);
                if !is_xmlns_decl(last) {
                    assert(ka[k] == kf[k]);
                }
            } else {
                assert(ka[k] == attr_pair_of(last));
                assert(attrs[attrs.len() - 1] == last);
                let i = attrs.len() - 1;
                assert(attrs[i].name == last.name);
            }
        }
    }
}

/// A kept element of another namespace keeps exactly its attributes that
/// declare no namespace: each such attribute is among its pairs (name and
/// value, with their spans), and each pair is one of them.
pub proof fn law_namespaced_attrs_kept(sc: ScopeView, e: XmlElement, n: NamespacedElement)
    requires
        namespaced_of(sc, e, n),
    ensures
        forall|i: int| 0 <= i < e.attrs@.len() && !declares_namespace((#[trigger] e.attrs@[i]).name@) ==> n.attrs@.contains(
            AttrPair { key: Spanned { value: e.attrs@[i].name, span: e.attrs@[i].name_span }, value: e.attrs@[i].value },
        ),
        forall|k: int| 0 <= k < n.attrs@.len() ==> pair_of_plain_attr(e.attrs@, #[trigger] n.attrs@[k]),
{
    lemma_kept_attrs_members(e.attrs@);
}

} // verus!
