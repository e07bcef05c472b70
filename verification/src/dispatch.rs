//! A `<beans>` body (the document root or a nested `<beans profile=..>`):
//! its header attributes, and each child element dispatched by name and
//! namespace. `<bean>`, `<alias>`, `<import>` and `<description>` of the
//! beans namespace, `context:component-scan`,
//! `context:property-placeholder` and `util:properties` are read; a nested
//! `<beans>` is read the same way one level deeper; another name of the
//! beans namespace is `UnknownElement`; anything else is kept as a
//! namespaced element.
use vstd::prelude::*;
use vstd::utf8::encode_utf8;
use crate::bean::{bean_adds, bean_rel, ctx_of, parse_bean};
use crate::bean_attrs::tokens_of_attr;

use crate::attrs::{attrs_are_toks, tag_attrs};
use crate::events::{elem_is_tag, XmlElement, XmlNode};
use crate::inject_value::{extends, lemma_extends_refl, lemma_extends_trans};
use crate::literal::{one_more, one_more_msg, push_diag};
use crate::model::{beans_file_of, Alias, BeansFile, BeansFileCtx, ByteSpan, ComponentScan, DiagCode, Diagnostic, Import, ImportKind, NamespacedElement, PropertySource, ScanFilter, Spanned};
use crate::namespaced::{build_namespaced_element, harvest_adds, namespaced_of};
use crate::reading::{attr_value, covering_span, element_text, find_bool_attr, find_spanned, flag_of, joined_text, spanned_or_empty, text_segments};
use crate::scope::{element_qname, element_qname_of, empty_scope, overlay, qname_ns, xmlns_colon, in_beans_ns, in_context_ns, in_util_ns, is_beans_ns, is_context_ns, is_util_ns, qname_local, scope_for, split_qname, starts_with, strip_prefix_str, NsScope, ScopeView};
use crate::text::{bytes_of, str_eq, text_of};
use crate::tokens::{comma_pieces, split_comma_list, split_name_tokens, tokens_realized};
use crate::wellformed::{bean_ok, beans_file_ok, namespaced_ok};

verus! {

/// The document root is a `<beans>` element: local name `beans` in the
/// beans namespace (or none), resolved with its own declarations.
pub open spec fn is_beans_root_spec(e: XmlElement) -> bool {
    let q = element_qname(empty_scope(), e);
    q.1 == "beans"@ && in_beans_ns(q.0)
}

/// The scope after the declarations among the attribute tokens `toks` of
/// `src`, in order (see `overlay`).
pub open spec fn overlay_toks(v: ScopeView, src: Seq<u8>, toks: Seq<(int, int, int, int)>) -> ScopeView
    decreases toks.len(),
{
    if toks.len() == 0 {
        v
    } else {
        let w = overlay_toks(v, src, toks.drop_last());
        let t = toks.last();
        let name = text_of(src, t.0, t.1);
        let value = text_of(src, t.2, t.3);
        if name == "xmlns"@ {
            (Some(value), w.1)
        } else if starts_with(name, xmlns_colon()) {
            (w.0, w.1.push((name.subrange(xmlns_colon().len() as int, name.len() as int), value)))
        } else {
            w
        }
    }
}

/// The tag `t` of `src` (name, extent) opens a `<beans>` element.
pub open spec fn tag_is_beans(src: Seq<u8>, t: (Seq<char>, int, int)) -> bool {
    let sc = overlay_toks(empty_scope(), src, tag_attrs(src, t.1, t.2));
    qname_local(t.0) == "beans"@ && in_beans_ns(qname_ns(t.0, sc))
}

proof fn lemma_overlay_toks(v: ScopeView, src: Seq<u8>, attrs: Seq<crate::events::XmlAttr>, toks: Seq<(int, int, int, int)>)
    requires
        attrs_are_toks(src, attrs, toks),
    ensures
        overlay(v, attrs) == overlay_toks(v, src, toks),
    decreases attrs.len(),
{
    if attrs.len() > 0 {
        assert(attrs_are_toks(src, attrs.drop_last(), toks.drop_last())) by {
            assert forall|k: int| 0 <= k < attrs.drop_last().len() implies crate::attrs::attr_is_tok(
                src,
                #[trigger] attrs.drop_last()[k],
                toks.drop_last()[k],
            ) by {
                assert(attrs.drop_last()[k] == attrs[k]);
                assert(crate::attrs::attr_is_tok(src, attrs[k], toks[k]));
            }
        }
        lemma_overlay_toks(v, src, attrs.drop_last(), toks.drop_last());
        assert(crate::attrs::attr_is_tok(src, attrs[attrs.len() - 1], toks[toks.len() - 1]));
    }
}

/// Whether an element is `<beans>` depends on its tag alone.
pub proof fn lemma_tag_is_beans(src: Seq<u8>, e: XmlElement, t: (Seq<char>, int, int))
    requires
        elem_is_tag(src, e, t),
    ensures
        is_beans_root_spec(e) == tag_is_beans(src, t),
{
    lemma_overlay_toks(empty_scope(), src, e.attrs@, tag_attrs(src, t.1, t.2));
}

pub fn is_beans_root(element: &XmlElement) -> (r: bool)
    ensures
        r == is_beans_root_spec(*element),
{
    let root = NsScope::default();
    let q = element_qname_of(element, &root);
    str_eq(q.1.as_str(), "beans") && is_beans_ns(q.0.as_str())
}

pub open spec fn is_ascii_alpha_byte(c: u8) -> bool {
    (0x41u8 <= c <= 0x5Au8) || (0x61u8 <= c <= 0x7Au8)
}

/// From `i` on, scheme characters (ASCII letters, digits, `+`, `-`, `.`)
/// run up to a `:`.
pub open spec fn scheme_rest(b: Seq<u8>, i: int) -> bool
    decreases b.len() - i,
{
    if i < 0 || i >= b.len() {
        false
    } else if b[i] == 0x3Au8 {
        true
    } else if is_ascii_alpha_byte(b[i]) || (0x30u8 <= b[i] <= 0x39u8) || b[i] == 0x2Bu8 || b[i] == 0x2Du8 || b[i] == 0x2Eu8 {
        scheme_rest(b, i + 1)
    } else {
        false
    }
}

/// The text starts with a URI scheme: an ASCII letter, then scheme
/// characters, then `:`.
pub open spec fn has_scheme(b: Seq<u8>) -> bool {
    b.len() > 0 && is_ascii_alpha_byte(b[0]) && scheme_rest(b, 1)
}

/// How an `<import resource=..>` is classified, by its literal prefix.
pub open spec fn import_kind_of(r: Seq<char>) -> ImportKind {
    if r.len() == 0 {
        ImportKind::Other
    } else if starts_with(r, "classpath*:"@) {
        ImportKind::ClasspathStar
    } else if starts_with(r, "classpath:"@) {
        ImportKind::Classpath
    } else if has_scheme(encode_utf8(r)) {
        ImportKind::Url
    } else {
        ImportKind::Relative
    }
}

pub fn has_url_scheme(resource: &str) -> (r: bool)
    ensures
        r == has_scheme(bytes_of(resource)),
{
    let b = resource.as_bytes();
    let n = b.len();
    if n == 0 {
        return false;
    }
    let c0 = b[0];
    if !((0x41u8 <= c0 && c0 <= 0x5Au8) || (0x61u8 <= c0 && c0 <= 0x7Au8)) {
        return false;
    }
    let mut i: usize = 1;
    while i < n
        invariant
            1 <= i <= n,
            n == b@.len(),
            b@ == bytes_of(resource),
            is_ascii_alpha_byte(b@[0]),
            scheme_rest(b@, 1) == scheme_rest(b@, i as int),
        decreases n - i,
    {
        let c = b[i];
        if c == 0x3Au8 {
            return true;
        }
        if !((0x41u8 <= c && c <= 0x5Au8) || (0x61u8 <= c && c <= 0x7Au8) || (0x30u8 <= c && c <= 0x39u8) || c == 0x2Bu8
            || c == 0x2Du8 || c == 0x2Eu8) {
            return false;
        }
        i += 1;
    }
    false
}

pub fn classify_import_kind(resource: &str) -> (r: ImportKind)
    ensures
        r == import_kind_of(resource@),
{
    if resource.unicode_len() == 0 {
        ImportKind::Other
    } else if strip_prefix_str(resource, "classpath*:").is_some() {
        ImportKind::ClasspathStar
    } else if strip_prefix_str(resource, "classpath:").is_some() {
        ImportKind::Classpath
    } else if has_url_scheme(resource) {
        ImportKind::Url
    } else {
        ImportKind::Relative
    }
}

/// An attribute's value, or an empty string at `span` when absent.
pub open spec fn value_or_empty(v: Option<Spanned<String>>, span: ByteSpan, s: Spanned<String>) -> bool {
    match v {
        Some(x) => s == x,
        None => s.value@ == Seq::<char>::empty() && s.span == span,
    }
}

/// `<alias name= alias=>`, read raw.
pub open spec fn alias_ok(e: XmlElement, a: Spanned<Alias>) -> bool {
    &&& a.span == e.span
    &&& value_or_empty(attr_value(e.attrs@, "name"@), e.span, a.value.name)
    &&& value_or_empty(attr_value(e.attrs@, "alias"@), e.span, a.value.alias)
}

/// `<import resource=>`, classified by its prefix.
pub open spec fn import_ok(e: XmlElement, i: Spanned<Import>) -> bool {
    &&& i.span == e.span
    &&& value_or_empty(attr_value(e.attrs@, "resource"@), e.span, i.value.resource)
    &&& i.value.kind == import_kind_of(i.value.resource.value@)
}

pub fn parse_alias(element: &XmlElement) -> (r: Spanned<Alias>)
    ensures
        alias_ok(*element, r),
{
    let name = spanned_or_empty(&element.attrs, "name", element.span);
    let alias = spanned_or_empty(&element.attrs, "alias", element.span);
    Spanned { value: Alias { name, alias }, span: element.span }
}

pub fn parse_import(element: &XmlElement) -> (r: Spanned<Import>)
    ensures
        import_ok(*element, r),
{
    let resource = spanned_or_empty(&element.attrs, "resource", element.span);
    let kind = classify_import_kind(resource.value.as_str());
    Spanned { value: Import { resource, kind }, span: element.span }
}

/// One `context:include-filter` / `exclude-filter`, read raw.
pub open spec fn filter_ok(e: XmlElement, f: ScanFilter) -> bool {
    &&& value_or_empty(attr_value(e.attrs@, "type"@), e.span, f.filter_type)
    &&& value_or_empty(attr_value(e.attrs@, "expression"@), e.span, f.expression)
}

pub open spec fn is_context_child(sc: ScopeView, c: XmlElement, local: Seq<char>) -> bool {
    let q = element_qname(sc, c);
    in_context_ns(q.0) && q.1 == local
}

/// The filters of one kind among a component scan's children, in order.
pub open spec fn filters_ok(sc: ScopeView, children: Seq<XmlNode>, local: Seq<char>, fs: Seq<ScanFilter>) -> bool
    decreases children.len(),
{
    if children.len() == 0 {
        fs.len() == 0
    } else {
        match children.last() {
            XmlNode::Element(c) => if is_context_child(sc, c, local) {
                fs.len() > 0 && filter_ok(c, fs.last()) && filters_ok(sc, children.drop_last(), local, fs.drop_last())
            } else {
                filters_ok(sc, children.drop_last(), local, fs)
            },
            XmlNode::Text(_) => filters_ok(sc, children.drop_last(), local, fs),
        }
    }
}

/// `context:component-scan`: its packages split like bean names, its
/// `use-default-filters`, and its include / exclude filters.
pub open spec fn component_scan_ok(sc: ScopeView, e: XmlElement, c: Spanned<ComponentScan>) -> bool {
    let own = scope_for(sc, e);
    &&& c.span == e.span
    &&& tokens_of_attr(c.value.base_packages@, attr_value(e.attrs@, "base-package"@))
    &&& c.value.use_default_filters == flag_of(attr_value(e.attrs@, "use-default-filters"@))
    &&& filters_ok(own, e.children@, "include-filter"@, c.value.include_filters@)
    &&& filters_ok(own, e.children@, "exclude-filter"@, c.value.exclude_filters@)
}

pub fn scan_filter_from_element(element: &XmlElement) -> (r: ScanFilter)
    ensures
        filter_ok(*element, r),
{
    let filter_type = spanned_or_empty(&element.attrs, "type", element.span);
    let expression = spanned_or_empty(&element.attrs, "expression", element.span);
    ScanFilter { filter_type, expression }
}

pub fn context_child_named(scope: &NsScope, c: &XmlElement, local: &str) -> (r: bool)
    ensures
        r == is_context_child(scope@, *c, local@),
{
    let q = element_qname_of(c, scope);
    is_context_ns(q.0.as_str()) && str_eq(q.1.as_str(), local)
}

pub proof fn lemma_filter_names_distinct()
    ensures
        "include-filter"@ != "exclude-filter"@,
{
    reveal_strlit("include-filter");
    reveal_strlit("exclude-filter");
    assert("include-filter"@[0] != "exclude-filter"@[0]);
}

/// `scope` is the scope of the component scan's parent.
pub fn parse_component_scan(scope: &NsScope, element: &XmlElement) -> (r: Spanned<ComponentScan>)
    ensures
        component_scan_ok(scope@, *element, r),
{
    let base_packages = match find_spanned(&element.attrs, "base-package") {
        Some(v) => split_name_tokens(v.value.as_str(), v.span),
        None => Vec::new(),
    };
    let use_default_filters = find_bool_attr(&element.attrs, "use-default-filters");
    let own = NsScope::from_element(element, Some(scope));
    let mut include_filters: Vec<ScanFilter> = Vec::new();
    let mut exclude_filters: Vec<ScanFilter> = Vec::new();
    let mut i: usize = 0;
    proof { lemma_filter_names_distinct(); }
    while i < element.children.len()
        invariant
            i <= element.children@.len(),
            own@ == scope_for(scope@, *element),
            "include-filter"@ != "exclude-filter"@,
            filters_ok(own@, element.children@.subrange(0, i as int), "include-filter"@, include_filters@),
            filters_ok(own@, element.children@.subrange(0, i as int), "exclude-filter"@, exclude_filters@),
        decreases element.children@.len() - i,
    {
        proof {
            assert(element.children@.subrange(0, i + 1).drop_last() =~= element.children@.subrange(0, i as int));
        }
        let ghost inc0 = include_filters@;
        let ghost exc0 = exclude_filters@;
        if let XmlNode::Element(c) = &element.children[i] {
            if context_child_named(&own, c, "include-filter") {
                include_filters.push(scan_filter_from_element(c));
                proof { assert(include_filters@.drop_last() =~= inc0); }
            } else if context_child_named(&own, c, "exclude-filter") {
                exclude_filters.push(scan_filter_from_element(c));
                proof { assert(exclude_filters@.drop_last() =~= exc0); }
            }
        }
        i += 1;
    }
    proof {
        assert(element.children@.subrange(0, element.children@.len() as int) =~= element.children@);
    }
    Spanned {
        value: ComponentScan { base_packages, use_default_filters, include_filters, exclude_filters },
        span: element.span,
    }
}

/// `util:properties` (`id=`, `location=`) or
/// `context:property-placeholder` (its comma-separated `location=`),
/// told apart by local name.
pub open spec fn property_source_ok(e: XmlElement, p: Spanned<PropertySource>) -> bool {
    &&& p.span == e.span
    &&& if qname_local(e.name@) == "properties"@ {
        p.value == PropertySource::Properties {
            id: attr_value(e.attrs@, "id"@),
            location: attr_value(e.attrs@, "location"@),
        }
    } else {
        p.value matches PropertySource::Placeholder { locations } && match attr_value(e.attrs@, "location"@) {
            Some(v) => tokens_realized(
                locations@,
                comma_pieces(encode_utf8(v.value@), 0, 0),
                encode_utf8(v.value@),
                v.span.start as int,
            ),
            None => locations@.len() == 0,
        }
    }
}

pub fn parse_property_source(element: &XmlElement) -> (r: Spanned<PropertySource>)
    ensures
        property_source_ok(*element, r),
{
    let (_, local) = split_qname(element.name.as_str());
    let value = if str_eq(local.as_str(), "properties") {
        let id = find_spanned(&element.attrs, "id");
        let location = find_spanned(&element.attrs, "location");
        PropertySource::Properties { id, location }
    } else {
        let locations = match find_spanned(&element.attrs, "location") {
            Some(v) => split_comma_list(v.value.as_str(), v.span),
            None => Vec::new(),
        };
        PropertySource::Placeholder { locations }
    };
    Spanned { value, span: element.span }
}

/// How a child of a `<beans>` body (whose scope is `sc`) is dispatched:
/// 1 nested `<beans>`, 2 `<description>`, 3 `<import>`, 4 `<alias>`,
/// 5 `<bean>`, 6 `context:component-scan`, 7 a property source, 8 another
/// name of the beans namespace, 9 anything else.
pub open spec fn root_kind(sc: ScopeView, c: XmlElement) -> int {
    let q = element_qname(sc, c);
    if in_beans_ns(q.0) && q.1 == "beans"@ {
        1
    } else if in_beans_ns(q.0) && q.1 == "description"@ {
        2
    } else if in_beans_ns(q.0) && q.1 == "import"@ {
        3
    } else if in_beans_ns(q.0) && q.1 == "alias"@ {
        4
    } else if in_beans_ns(q.0) && q.1 == "bean"@ {
        5
    } else if in_context_ns(q.0) && q.1 == "component-scan"@ {
        6
    } else if (in_context_ns(q.0) && q.1 == "property-placeholder"@) || (in_util_ns(q.0) && q.1 == "properties"@) {
        7
    } else if in_beans_ns(q.0) {
        8
    } else {
        9
    }
}

pub fn root_child_kind(scope: &NsScope, c: &XmlElement) -> (r: u8)
    ensures
        r as int == root_kind(scope@, *c),
{
    let q = element_qname_of(c, scope);
    let ns = q.0.as_str();
    let l = q.1.as_str();
    let beans = is_beans_ns(ns);
    let context = is_context_ns(ns);
    if beans && str_eq(l, "beans") {
        1
    } else if beans && str_eq(l, "description") {
        2
    } else if beans && str_eq(l, "import") {
        3
    } else if beans && str_eq(l, "alias") {
        4
    } else if beans && str_eq(l, "bean") {
        5
    } else if context && str_eq(l, "component-scan") {
        6
    } else if (context && str_eq(l, "property-placeholder")) || (is_util_ns(ns) && str_eq(l, "properties")) {
        7
    } else if beans {
        8
    } else {
        9
    }
}

/// The text of the last `<description>` child, if any.
pub open spec fn root_desc_ok(sc: ScopeView, children: Seq<XmlNode>, d: Option<Spanned<String>>) -> bool
    decreases children.len(),
{
    if children.len() == 0 {
        d is None
    } else {
        match children.last() {
            XmlNode::Element(c) => if root_kind(sc, c) == 2 {
                d matches Some(x) && x.value@ == joined_text(text_segments(c.children@)) && x.span == (match covering_span(
                    text_segments(c.children@),
                ) {
                    Some(s) => s,
                    None => c.span,
                })
            } else {
                root_desc_ok(sc, children.drop_last(), d)
            },
            XmlNode::Text(_) => root_desc_ok(sc, children.drop_last(), d),
        }
    }
}

pub open spec fn imports_ok(sc: ScopeView, children: Seq<XmlNode>, xs: Seq<Spanned<Import>>) -> bool
    decreases children.len(),
{
    if children.len() == 0 {
        xs.len() == 0
    } else {
        match children.last() {
            XmlNode::Element(c) => if root_kind(sc, c) == 3 {
                xs.len() > 0 && import_ok(c, xs.last()) && imports_ok(sc, children.drop_last(), xs.drop_last())
            } else {
                imports_ok(sc, children.drop_last(), xs)
            },
            XmlNode::Text(_) => imports_ok(sc, children.drop_last(), xs),
        }
    }
}

pub open spec fn aliases_ok(sc: ScopeView, children: Seq<XmlNode>, xs: Seq<Spanned<Alias>>) -> bool
    decreases children.len(),
{
    if children.len() == 0 {
        xs.len() == 0
    } else {
        match children.last() {
            XmlNode::Element(c) => if root_kind(sc, c) == 4 {
                xs.len() > 0 && alias_ok(c, xs.last()) && aliases_ok(sc, children.drop_last(), xs.drop_last())
            } else {
                aliases_ok(sc, children.drop_last(), xs)
            },
            XmlNode::Text(_) => aliases_ok(sc, children.drop_last(), xs),
        }
    }
}

/// The beans of a body: one per `<bean>` child, read at nesting 0, all
/// kept (a repeated id is reported, not dropped).
pub open spec fn beans_ok(sc: ScopeView, children: Seq<XmlNode>, xs: Seq<crate::model::Bean>) -> bool
    decreases children.len(),
{
    if children.len() == 0 {
        xs.len() == 0
    } else {
        match children.last() {
            XmlNode::Element(c) => if root_kind(sc, c) == 5 {
                xs.len() > 0 && bean_rel(sc, 0, c, xs.last()) && beans_ok(sc, children.drop_last(), xs.drop_last())
            } else {
                beans_ok(sc, children.drop_last(), xs)
            },
            XmlNode::Text(_) => beans_ok(sc, children.drop_last(), xs),
        }
    }
}

pub open spec fn scans_ok(sc: ScopeView, children: Seq<XmlNode>, xs: Seq<Spanned<ComponentScan>>) -> bool
    decreases children.len(),
{
    if children.len() == 0 {
        xs.len() == 0
    } else {
        match children.last() {
            XmlNode::Element(c) => if root_kind(sc, c) == 6 {
                xs.len() > 0 && component_scan_ok(sc, c, xs.last()) && scans_ok(sc, children.drop_last(), xs.drop_last())
            } else {
                scans_ok(sc, children.drop_last(), xs)
            },
            XmlNode::Text(_) => scans_ok(sc, children.drop_last(), xs),
        }
    }
}

pub open spec fn sources_ok(sc: ScopeView, children: Seq<XmlNode>, xs: Seq<Spanned<PropertySource>>) -> bool
    decreases children.len(),
{
    if children.len() == 0 {
        xs.len() == 0
    } else {
        match children.last() {
            XmlNode::Element(c) => if root_kind(sc, c) == 7 {
                xs.len() > 0 && property_source_ok(c, xs.last()) && sources_ok(sc, children.drop_last(), xs.drop_last())
            } else {
                sources_ok(sc, children.drop_last(), xs)
            },
            XmlNode::Text(_) => sources_ok(sc, children.drop_last(), xs),
        }
    }
}

pub open spec fn others_ns_ok(sc: ScopeView, children: Seq<XmlNode>, xs: Seq<NamespacedElement>) -> bool
    decreases children.len(),
{
    if children.len() == 0 {
        xs.len() == 0
    } else {
        match children.last() {
            XmlNode::Element(c) => if root_kind(sc, c) == 9 {
                xs.len() > 0 && namespaced_of(sc, c, xs.last()) && others_ns_ok(sc, children.drop_last(), xs.drop_last())
            } else {
                others_ns_ok(sc, children.drop_last(), xs)
            },
            XmlNode::Text(_) => others_ns_ok(sc, children.drop_last(), xs),
        }
    }
}

/// The nested `<beans>` blocks, each read one level deeper in its own
/// scope; each has its own beans, so a bean id repeated across sibling
/// blocks is not a duplicate.
pub open spec fn nested_ok(sc: ScopeView, depth: int, children: Seq<XmlNode>, xs: Seq<BeansFile>) -> bool
    decreases children, 0int,
{
    if children.len() == 0 {
        xs.len() == 0
    } else {
        match children[children.len() - 1] {
            XmlNode::Element(c) => if root_kind(sc, c) == 1 {
                &&& xs.len() > 0
                &&& body_rel(scope_for(sc, c), depth + 1, c, xs.last())
                &&& nested_ok(sc, depth, children.drop_last(), xs.drop_last())
            } else {
                nested_ok(sc, depth, children.drop_last(), xs)
            },
            XmlNode::Text(_) => nested_ok(sc, depth, children.drop_last(), xs),
        }
    }
}

/// A block with nothing in it but its span.
pub open spec fn empty_block(f: BeansFile, span: ByteSpan) -> bool {
    &&& f.span == span
    &&& f.profile is None
    &&& f.description is None
    &&& f.default_lazy_init is None
    &&& f.default_autowire is None
    &&& f.default_init_method is None
    &&& f.default_destroy_method is None
    &&& f.default_merge is None
    &&& f.default_autowire_candidates is None
    &&& f.imports@.len() == 0
    &&& f.aliases@.len() == 0
    &&& f.beans@.len() == 0
    &&& f.component_scans@.len() == 0
    &&& f.property_sources@.len() == 0
    &&& f.namespaced@.len() == 0
    &&& f.nested_profiles@.len() == 0
}

/// The header attributes of a `<beans>` block.
pub open spec fn header_ok(e: XmlElement, f: BeansFile) -> bool {
    let a = e.attrs@;
    &&& f.span == e.span
    &&& f.profile == attr_value(a, "profile"@)
    &&& f.default_lazy_init == flag_of(attr_value(a, "default-lazy-init"@))
    &&& f.default_autowire == attr_value(a, "default-autowire"@)
    &&& f.default_init_method == attr_value(a, "default-init-method"@)
    &&& f.default_destroy_method == attr_value(a, "default-destroy-method"@)
    &&& f.default_merge == flag_of(attr_value(a, "default-merge"@))
    &&& f.default_autowire_candidates == attr_value(a, "default-autowire-candidates"@)
}

/// The lists a body's children fill.
pub open spec fn body_lists_ok(sc: ScopeView, depth: int, ch: Seq<XmlNode>, f: BeansFile) -> bool
    decreases ch, 1int,
{
    &&& root_desc_ok(sc, ch, f.description)
    &&& imports_ok(sc, ch, f.imports@)
    &&& aliases_ok(sc, ch, f.aliases@)
    &&& beans_ok(sc, ch, f.beans@)
    &&& scans_ok(sc, ch, f.component_scans@)
    &&& sources_ok(sc, ch, f.property_sources@)
    &&& others_ns_ok(sc, ch, f.namespaced@)
    &&& nested_ok(sc, depth, ch, f.nested_profiles@)
}

/// The block a `<beans>` element `e` gives at nesting `depth`, `sc` being
/// its own scope: past the depth limit, an empty block; otherwise its
/// header and what its children give.
pub open spec fn body_rel(sc: ScopeView, depth: int, e: XmlElement, f: BeansFile) -> bool
    decreases e, 1int,
{
    if depth >= crate::DEPTH_LIMIT {
        empty_block(f, e.span)
    } else {
        header_ok(e, f) && body_lists_ok(sc, depth, e.children@, f)
    }
}

/// A bean whose id is already taken in the block.
pub open spec fn same_id(a: crate::model::Bean, id: Spanned<String>) -> bool {
    a.id matches Some(x) && x.value@ == id.value@
}

pub open spec fn id_taken(beans: Seq<crate::model::Bean>, b: crate::model::Bean) -> bool {
    b.id matches Some(id) && exists|j: int| 0 <= j < beans.len() && same_id(#[trigger] beans[j], id)
}

/// Some diagnostic of `diags` has code `code` and span `span`.
pub open spec fn reported_at(diags: Seq<Diagnostic>, code: DiagCode, span: Option<ByteSpan>) -> bool {
    exists|k: int| 0 <= k < diags.len() && (#[trigger] diags[k]).code == code && diags[k].span == span
}

/// Every bean whose id an earlier bean of the same list already has is
/// reported in `diags` with a `DuplicateBeanId` at its id.
pub open spec fn dup_ids_reported(beans: Seq<crate::model::Bean>, diags: Seq<Diagnostic>) -> bool {
    forall|i: int, j: int|
        #![trigger beans[i], beans[j]]
        0 <= i < j < beans.len() && beans[j].id is Some && same_id(beans[i], beans[j].id->0) ==> reported_at(
            diags,
            DiagCode::DuplicateBeanId,
            Some(beans[j].id->0.span),
        )
}

/// Reports stay reported when other diagnostics come before them.
pub proof fn lemma_dup_reports_shift(beans: Seq<crate::model::Bean>, pre: Seq<Diagnostic>, d: Seq<Diagnostic>)
    requires
        dup_ids_reported(beans, d),
    ensures
        dup_ids_reported(beans, pre + d),
{
    assert forall|i: int, j: int|
        #![trigger beans[i], beans[j]]
        0 <= i < j < beans.len() && beans[j].id is Some && same_id(beans[i], beans[j].id->0) implies reported_at(
            pre + d,
            DiagCode::DuplicateBeanId,
            Some(beans[j].id->0.span),
        ) by {
        let sp = Some(beans[j].id->0.span);
        let k = choose|k: int| 0 <= k < d.len() && (#[trigger] d[k]).code == DiagCode::DuplicateBeanId && d[k].span == sp;
        assert((pre + d)[pre.len() + k] == d[k]);
    }
}

/// Reports stay reported as diagnostics are added.
pub proof fn lemma_dup_reports_kept(beans: Seq<crate::model::Bean>, d1: Seq<Diagnostic>, d2: Seq<Diagnostic>)
    requires
        dup_ids_reported(beans, d1),
        extends(d1, d2),
    ensures
        dup_ids_reported(beans, d2),
{
    assert forall|i: int, j: int|
        #![trigger beans[i], beans[j]]
        0 <= i < j < beans.len() && beans[j].id is Some && same_id(beans[i], beans[j].id->0) implies reported_at(
            d2,
            DiagCode::DuplicateBeanId,
            Some(beans[j].id->0.span),
        ) by {
        let sp = Some(beans[j].id->0.span);
        let k = choose|k: int| 0 <= k < d1.len() && (#[trigger] d1[k]).code == DiagCode::DuplicateBeanId && d1[k].span == sp;
        assert(d2.subrange(0, d1.len() as int)[k] == d2[k]);
        assert(d2[k] == d1[k]);
    }
}

/// The bean has the id `id`.
pub open spec fn bean_has_id(b: crate::model::Bean, id: Seq<char>) -> bool {
    b.id matches Some(x) && x.value@ == id
}

/// `n` is a bean element whose `id=` value is `id`.
pub open spec fn node_has_id(sc: ScopeView, n: XmlNode, id: Seq<char>) -> bool {
    match n {
        XmlNode::Element(c) => root_kind(sc, c) == 5 && match attr_value(c.attrs@, "id"@) {
            Some(x) => x.value@ == id,
            None => false,
        },
        XmlNode::Text(_) => false,
    }
}

/// Some bean element among `children` (of a block whose scope is `sc`)
/// has the id `id`.
pub open spec fn id_seen(sc: ScopeView, children: Seq<XmlNode>, id: Seq<char>) -> bool
    decreases children.len(),
{
    if children.len() == 0 {
        false
    } else {
        ||| node_has_id(sc, children.last(), id)
        ||| id_seen(sc, children.drop_last(), id)
    }
}

/// The beans a block's children gave have an id exactly when a bean
/// element among those children has it.
pub proof fn lemma_id_seen(sc: ScopeView, children: Seq<XmlNode>, bs: Seq<crate::model::Bean>, id: Seq<char>)
    requires
        beans_ok(sc, children, bs),
    ensures
        id_seen(sc, children, id) <==> exists|j: int| 0 <= j < bs.len() && #[trigger] bean_has_id(bs[j], id),
    decreases children.len(),
{
    if children.len() > 0 {
        let rest = children.drop_last();
        match children.last() {
            XmlNode::Element(c) => {
                if root_kind(sc, c) == 5 {
                    let pre = bs.drop_last();
                    lemma_id_seen(sc, rest, pre, id);
                    let b = bs.last();
                    assert(ctx_of(b).id == attr_value(c.attrs@, "id"@));
                    if exists|j: int| 0 <= j < bs.len() && #[trigger] bean_has_id(bs[j], id) {
                        let j = choose|j: int| 0 <= j < bs.len() && #[trigger] bean_has_id(bs[j], id);
                        if j < bs.len() - 1 {
                            assert(pre[j] == bs[j]);
                            assert(bean_has_id(pre[j], id));
                        }
                    }
                    if id_seen(sc, rest, id) {
                        let j = choose|j: int| 0 <= j < pre.len() && #[trigger] bean_has_id(pre[j], id);
                        assert(bs[j] == pre[j]);
                        assert(bean_has_id(bs[j], id));
                    }
                    if bean_has_id(b, id) {
                        assert(bean_has_id(bs[bs.len() - 1], id));
                    }
                } else {
                    lemma_id_seen(sc, rest, bs, id);
                }
            },
            XmlNode::Text(_) => {
                lemma_id_seen(sc, rest, bs, id);
            },
        }
    }
}

/// What follows a bean of a block: a `DuplicateBeanId` at its id when an
/// earlier bean element of the block has that id.
pub open spec fn dup_adds(sc: ScopeView, earlier: Seq<XmlNode>, c: XmlElement, old: Seq<Diagnostic>, new: Seq<Diagnostic>) -> bool {
    match attr_value(c.attrs@, "id"@) {
        Some(id) => if id_seen(sc, earlier, id.value@) {
            one_more_msg(
                old,
                new,
                DiagCode::DuplicateBeanId,
                Some(id.span),
                "duplicate bean id '"@ + id.value@ + "' within this <beans> block"@,
            )
        } else {
            new == old
        },
        None => new == old,
    }
}

/// What a child `c` of a block (after the children `earlier`) adds: a
/// nested block, what it adds one level deeper; a bean, what it adds and
/// then a repeated id; an unknown beans element, one `UnknownElement`; an
/// element of another namespace, what harvesting it adds.
pub open spec fn root_child_adds(
    sc: ScopeView,
    depth: int,
    earlier: Seq<XmlNode>,
    c: XmlElement,
    old: Seq<Diagnostic>,
    new: Seq<Diagnostic>,
) -> bool
    decreases c, 2int,
{
    let k = root_kind(sc, c);
    if k == 1 {
        body_adds(scope_for(sc, c), depth + 1, c, old, new)
    } else if k == 5 {
        exists|mid: Seq<Diagnostic>|
            #[trigger] extends(old, mid) && bean_adds(sc, 0, c, old, mid) && dup_adds(sc, earlier, c, mid, new)
    } else if k == 8 {
        one_more_msg(old, new, DiagCode::UnknownElement, Some(c.span), "unrecognized element <"@ + c.name@ + "> inside the beans namespace"@)
    } else if k == 9 {
        harvest_adds(sc, c, 0, old, new)
    } else {
        new == old
    }
}

/// What a block's children add, child by child.
pub open spec fn block_adds(sc: ScopeView, depth: int, children: Seq<XmlNode>, old: Seq<Diagnostic>, new: Seq<Diagnostic>) -> bool
    decreases children, 0int,
{
    if children.len() == 0 {
        new == old
    } else {
        exists|mid: Seq<Diagnostic>|
            #[trigger] extends(old, mid) && block_adds(sc, depth, children.drop_last(), old, mid) && match children[children.len() - 1] {
                XmlNode::Element(c) => root_child_adds(sc, depth, children.drop_last(), c, mid, new),
                XmlNode::Text(_) => new == mid,
            }
    }
}

pub proof fn lemma_block_adds_step(
    sc: ScopeView,
    depth: int,
    ch: Seq<XmlNode>,
    old: Seq<Diagnostic>,
    mid: Seq<Diagnostic>,
    new: Seq<Diagnostic>,
)
    requires
        ch.len() > 0,
        extends(old, mid),
        block_adds(sc, depth, ch.drop_last(), old, mid),
        match ch[ch.len() - 1] {
            XmlNode::Element(c) => root_child_adds(sc, depth, ch.drop_last(), c, mid, new),
            XmlNode::Text(_) => new == mid,
        },
    ensures
        block_adds(sc, depth, ch, old, new),
{
}

/// What reading the `<beans>` element `e` (whose own scope is `sc`) at
/// nesting `depth` adds to the diagnostics: one `NestingLimitExceeded`
/// past the depth limit, else what its children add.
pub open spec fn body_adds(sc: ScopeView, depth: int, e: XmlElement, old: Seq<Diagnostic>, new: Seq<Diagnostic>) -> bool
    decreases e, 1int,
{
    if depth >= crate::DEPTH_LIMIT {
        one_more_msg(old, new, DiagCode::NestingLimitExceeded, Some(e.span), "<beans> nesting exceeded 256 levels; subtree treated as opaque"@)
    } else {
        block_adds(sc, depth, e.children@, old, new)
    }
}

/// Reads a `<bean>` child of a block into it, reporting a repeated id
/// (`DuplicateBeanId`) at the new bean's id; both beans are kept.
pub fn dispatch_bean_element(ctx: &mut BeansFileCtx, diagnostics: &mut Vec<Diagnostic>, scope: &NsScope, child: &XmlElement)
    ensures
        final(ctx).beans@.len() == old(ctx).beans@.len() + 1,
        final(ctx).beans@.drop_last() == old(ctx).beans@,
        bean_rel(scope@, 0, *child, final(ctx).beans@.last()),
        bean_ok(final(ctx).beans@.last()),
        exists|mid: Seq<Diagnostic>|
            extends(old(diagnostics)@, mid) && bean_adds(scope@, 0, *child, old(diagnostics)@, mid) && if id_taken(old(ctx).beans@, final(ctx).beans@.last()) {
                one_more_msg(
                    mid,
                    final(diagnostics)@,
                    DiagCode::DuplicateBeanId,
                    Some(final(ctx).beans@.last().id->0.span),
                    "duplicate bean id '"@ + final(ctx).beans@.last().id->0.value@ + "' within this <beans> block"@,
                )
            } else {
                final(diagnostics)@ == mid
            },
        extends(old(diagnostics)@, final(diagnostics)@),
        final(ctx).span == old(ctx).span,
        final(ctx).profile == old(ctx).profile,
        final(ctx).description == old(ctx).description,
        final(ctx).default_lazy_init == old(ctx).default_lazy_init,
        final(ctx).default_autowire == old(ctx).default_autowire,
        final(ctx).default_init_method == old(ctx).default_init_method,
        final(ctx).default_destroy_method == old(ctx).default_destroy_method,
        final(ctx).default_merge == old(ctx).default_merge,
        final(ctx).default_autowire_candidates == old(ctx).default_autowire_candidates,
        final(ctx).imports == old(ctx).imports,
        final(ctx).aliases == old(ctx).aliases,
        final(ctx).component_scans == old(ctx).component_scans,
        final(ctx).property_sources == old(ctx).property_sources,
        final(ctx).namespaced == old(ctx).namespaced,
        final(ctx).nested_profiles == old(ctx).nested_profiles,
{
    let bean = parse_bean(scope, child, diagnostics, 0);
    let ghost mid = diagnostics@;
    let mut taken = false;
    if let Some(id) = &bean.id {
        let mut j: usize = 0;
        while j < ctx.beans.len()
            invariant
                j <= ctx.beans@.len(),
                ctx.beans@ == old(ctx).beans@,
                bean.id == Some(*id),
                !taken ==> forall|k: int| 0 <= k < j ==> !same_id(#[trigger] ctx.beans@[k], *id),
                taken ==> id_taken(ctx.beans@, bean),
            decreases ctx.beans@.len() - j,
        {
            if let Some(x) = &ctx.beans[j].id {
                if str_eq(x.value.as_str(), id.value.as_str()) {
                    taken = true;
                }
            }
            j += 1;
        }
        if taken {
            let mut m = "duplicate bean id '".to_owned();
            m.append(id.value.as_str());
            m.append("' within this <beans> block");
            push_diag(diagnostics, DiagCode::DuplicateBeanId, Some(id.span), m);
        }
    }
    proof {
        if !taken {
            assert(!id_taken(old(ctx).beans@, bean));
        }
        assert(diagnostics@.subrange(0, mid.len() as int) =~= mid);
        lemma_extends_trans(old(diagnostics)@, mid, diagnostics@);
    }
    ctx.beans.push(bean);
    proof {
        assert(ctx.beans@.drop_last() =~= old(ctx).beans@);
    }
}

/// The block's wellformedness, for what its lists hold.
pub open spec fn ctx_ok(c: BeansFileCtx) -> bool {
    beans_file_ok(beans_file_of(c))
}

/// Dispatches one non-`<beans>` child of a block whose scope is `scope`.
fn take_root_child(
    ctx: &mut BeansFileCtx,
    diagnostics: &mut Vec<Diagnostic>,
    scope: &NsScope,
    child: &XmlElement,
    depth: u32,
    Ghost(prefix): Ghost<Seq<XmlNode>>,
)
    requires
        body_lists_ok(scope@, depth as int, prefix, beans_file_of(*old(ctx))),
        ctx_ok(*old(ctx)),
        root_kind(scope@, *child) != 1,
        dup_ids_reported(old(ctx).beans@, old(diagnostics)@),
    ensures
        body_lists_ok(scope@, depth as int, prefix.push(XmlNode::Element(*child)), beans_file_of(*final(ctx))),
        ctx_ok(*final(ctx)),
        header_ok_same(*old(ctx), *final(ctx)),
        extends(old(diagnostics)@, final(diagnostics)@),
        dup_ids_reported(final(ctx).beans@, final(diagnostics)@),
        root_child_adds(scope@, depth as int, prefix, *child, old(diagnostics)@, final(diagnostics)@),
{
    let ghost np = prefix.push(XmlNode::Element(*child));
    proof {
        assert(np.drop_last() =~= prefix);
        assert(np.last() == XmlNode::Element(*child));
        assert(np[np.len() - 1] == XmlNode::Element(*child));
        lemma_extends_refl(diagnostics@);
    }
    let kind = root_child_kind(scope, child);
    let ghost f0 = beans_file_of(*ctx);
    if kind == 2 {
        ctx.description = Some(element_text(child));
    } else if kind == 3 {
        ctx.imports.push(parse_import(child));
        proof { assert(ctx.imports@.drop_last() =~= f0.imports@); }
    } else if kind == 4 {
        ctx.aliases.push(parse_alias(child));
        proof { assert(ctx.aliases@.drop_last() =~= f0.aliases@); }
    } else if kind == 5 {
        let ghost d0 = diagnostics@;
        dispatch_bean_element(ctx, diagnostics, scope, child);
        proof {
            let bs = ctx.beans@;
            let mid = choose|mid: Seq<Diagnostic>|
                extends(d0, mid) && bean_adds(scope@, 0, *child, d0, mid) && if id_taken(f0.beans@, bs.last()) {
                    one_more_msg(
                        mid,
                        diagnostics@,
                        DiagCode::DuplicateBeanId,
                        Some(bs.last().id->0.span),
                        "duplicate bean id '"@ + bs.last().id->0.value@ + "' within this <beans> block"@,
                    )
                } else {
                    diagnostics@ == mid
                };
            lemma_dup_reports_kept(f0.beans@, d0, diagnostics@);
            assert forall|i: int, j: int|
                #![trigger bs[i], bs[j]]
                0 <= i < j < bs.len() && bs[j].id is Some && same_id(bs[i], bs[j].id->0) implies reported_at(
                    diagnostics@,
                    DiagCode::DuplicateBeanId,
                    Some(bs[j].id->0.span),
                ) by {
                if j < bs.len() - 1 {
                    assert(bs[i] == f0.beans@[i]);
                    assert(bs[j] == f0.beans@[j]);
                } else {
                    assert(bs[i] == f0.beans@[i]);
                    assert(id_taken(f0.beans@, bs.last()));
                    let ds = diagnostics@;
                    assert(ds[ds.len() - 1] == ds.last());
                }
            }
            let b = bs.last();
            assert(ctx_of(b).id == attr_value(child.attrs@, "id"@));
            if let Some(id) = attr_value(child.attrs@, "id"@) {
                lemma_id_seen(scope@, prefix, f0.beans@, id.value@);
                if id_taken(f0.beans@, b) {
                    let j = choose|j: int| 0 <= j < f0.beans@.len() && same_id(#[trigger] f0.beans@[j], id);
                    assert(bean_has_id(f0.beans@[j], id.value@));
                }
                if id_seen(scope@, prefix, id.value@) {
                    let j = choose|j: int| 0 <= j < f0.beans@.len() && #[trigger] bean_has_id(f0.beans@[j], id.value@);
                    assert(same_id(f0.beans@[j], id));
                }
            }
            assert(dup_adds(scope@, prefix, *child, mid, diagnostics@));
            assert forall|i: int| 0 <= i < bs.len() implies bean_ok(#[trigger] bs[i]) by {
                if i < f0.beans@.len() {
                    assert(bs[i] == f0.beans@[i]);
                }
            }
        }
    } else if kind == 6 {
        ctx.component_scans.push(parse_component_scan(scope, child));
        proof { assert(ctx.component_scans@.drop_last() =~= f0.component_scans@); }
    } else if kind == 7 {
        ctx.property_sources.push(parse_property_source(child));
        proof { assert(ctx.property_sources@.drop_last() =~= f0.property_sources@); }
    } else if kind == 8 {
        let mut m = "unrecognized element <".to_owned();
        m.append(child.name.as_str());
        m.append("> inside the beans namespace");
        push_diag(diagnostics, DiagCode::UnknownElement, Some(child.span), m);
        proof { assert(diagnostics@.subrange(0, old(diagnostics)@.len() as int) =~= old(diagnostics)@); }
    } else {
        let d = build_namespaced_element(scope, child, diagnostics);
        ctx.namespaced.push(d);
        proof {
            assert(ctx.namespaced@.drop_last() =~= f0.namespaced@);
            assert forall|i: int| 0 <= i < ctx.namespaced@.len() implies #[trigger] namespaced_ok(ctx.namespaced@[i]) by {
                if i < f0.namespaced@.len() {
                    assert(ctx.namespaced@[i] == f0.namespaced@[i]);
                }
            }
        }
    }
    proof {
        if kind != 5 {
            lemma_dup_reports_kept(old(ctx).beans@, old(diagnostics)@, diagnostics@);
        }
        assert(root_child_adds(scope@, depth as int, prefix, *child, old(diagnostics)@, diagnostics@));
    }
}

/// The header fields are unchanged.
pub open spec fn header_ok_same(a: BeansFileCtx, b: BeansFileCtx) -> bool {
    &&& a.span == b.span
    &&& a.profile == b.profile
    &&& a.default_lazy_init == b.default_lazy_init
    &&& a.default_autowire == b.default_autowire
    &&& a.default_init_method == b.default_init_method
    &&& a.default_destroy_method == b.default_destroy_method
    &&& a.default_merge == b.default_merge
    &&& a.default_autowire_candidates == b.default_autowire_candidates
}

/// Reads a `<beans>` block (see `body_rel`); `scope` is its own scope and
/// `depth` its nesting. Past the depth limit the block is empty and a
/// `NestingLimitExceeded` is reported.
pub fn parse_beans_body(scope: &NsScope, element: &XmlElement, diagnostics: &mut Vec<Diagnostic>, depth: u32) -> (r:
    BeansFileCtx)
    ensures
        body_rel(scope@, depth as int, *element, beans_file_of(r)),
        ctx_ok(r),
        extends(old(diagnostics)@, final(diagnostics)@),
        dup_ids_reported(beans_file_of(r).beans@, final(diagnostics)@),
        body_adds(scope@, depth as int, *element, old(diagnostics)@, final(diagnostics)@),
        depth >= crate::DEPTH_LIMIT ==> one_more(
            old(diagnostics)@,
            final(diagnostics)@,
            DiagCode::NestingLimitExceeded,
            Some(element.span),
        ),
    decreases crate::DEPTH_LIMIT - depth,
{
    let mut ctx = BeansFileCtx::default();
    ctx.span = element.span;
    if depth >= crate::DEPTH_LIMIT {
        push_diag(
            diagnostics,
            DiagCode::NestingLimitExceeded,
            Some(element.span),
            "<beans> nesting exceeded 256 levels; subtree treated as opaque".to_owned(),
        );
        proof {
            assert(diagnostics@.subrange(0, old(diagnostics)@.len() as int) =~= old(diagnostics)@);
            assert(beans_file_of(ctx).beans@ =~= Seq::<crate::model::Bean>::empty());
            assert(beans_file_of(ctx).namespaced@ =~= Seq::<NamespacedElement>::empty());
            assert(beans_file_of(ctx).nested_profiles@ =~= Seq::<BeansFile>::empty());
        }
        return ctx;
    }
    let attrs = &element.attrs;
    ctx.profile = find_spanned(attrs, "profile");
    ctx.default_lazy_init = find_bool_attr(attrs, "default-lazy-init");
    ctx.default_autowire = find_spanned(attrs, "default-autowire");
    ctx.default_init_method = find_spanned(attrs, "default-init-method");
    ctx.default_destroy_method = find_spanned(attrs, "default-destroy-method");
    ctx.default_merge = find_bool_attr(attrs, "default-merge");
    ctx.default_autowire_candidates = find_spanned(attrs, "default-autowire-candidates");
    let ghost ch = element.children@;
    let n = element.children.len();
    let ghost h = ctx;
    proof {
        lemma_extends_refl(diagnostics@);
        let e: Seq<XmlNode> = ch.subrange(0, 0);
        assert(e.len() == 0);
        let f = beans_file_of(ctx);
        assert(f.imports@ =~= Seq::<Spanned<Import>>::empty());
        assert(f.aliases@ =~= Seq::<Spanned<Alias>>::empty());
        assert(f.beans@ =~= Seq::<crate::model::Bean>::empty());
        assert(f.component_scans@ =~= Seq::<Spanned<ComponentScan>>::empty());
        assert(f.property_sources@ =~= Seq::<Spanned<PropertySource>>::empty());
        assert(f.namespaced@ =~= Seq::<NamespacedElement>::empty());
        assert(f.nested_profiles@ =~= Seq::<BeansFile>::empty());
        assert(body_lists_ok(scope@, depth as int, e, f));
    }
    let mut i: usize = 0;
    while i < n
        invariant
            ch == element.children@,
            n == ch.len(),
            i <= n,
            depth < crate::DEPTH_LIMIT,
            header_ok(*element, beans_file_of(ctx)),
            body_lists_ok(scope@, depth as int, ch.subrange(0, i as int), beans_file_of(ctx)),
            ctx_ok(ctx),
            extends(old(diagnostics)@, diagnostics@),
            dup_ids_reported(ctx.beans@, diagnostics@),
            block_adds(scope@, depth as int, ch.subrange(0, i as int), old(diagnostics)@, diagnostics@),
        decreases n - i,
    {
        let ghost pre = ch.subrange(0, i as int);
        proof {
            assert(ch.subrange(0, i + 1) =~= pre.push(ch[i as int]));
        }
        let ghost d0 = diagnostics@;
        match &element.children[i] {
            XmlNode::Element(c) => {
                if root_child_kind(scope, c) == 1 {
                    let child_scope = NsScope::from_element(c, Some(scope));
                    let nested = parse_beans_body(&child_scope, c, diagnostics, depth + 1);
                    let ghost f0 = beans_file_of(ctx);
                    ctx.nested_profiles.push(nested.into_beans_file());
                    proof {
                        lemma_extends_trans(old(diagnostics)@, d0, diagnostics@);
                        lemma_dup_reports_kept(ctx.beans@, d0, diagnostics@);
                        let np = ch.subrange(0, i + 1);
                        assert(np.drop_last() =~= pre);
                        assert(ctx.nested_profiles@.drop_last() =~= f0.nested_profiles@);
                        assert forall|k: int| 0 <= k < ctx.nested_profiles@.len() implies beans_file_ok(#[trigger] ctx.nested_profiles@[k]) by {
                            if k < f0.nested_profiles@.len() {
                                assert(ctx.nested_profiles@[k] == f0.nested_profiles@[k]);
                            }
                        }
                        assert(body_lists_ok(scope@, depth as int, np, beans_file_of(ctx)));
                    }
                } else {
                    take_root_child(&mut ctx, diagnostics, scope, c, depth, Ghost(pre));
                    proof { lemma_extends_trans(old(diagnostics)@, d0, diagnostics@); }
                }
            },
            XmlNode::Text(_) => {
                proof {
                    let np = ch.subrange(0, i + 1);
                    assert(np.drop_last() =~= pre);
                    assert(body_lists_ok(scope@, depth as int, np, beans_file_of(ctx)));
                }
            },
        }
        proof {
            assert(extends(d0, diagnostics@)) by { lemma_extends_refl(d0); assert(diagnostics@.subrange(0, d0.len() as int) =~= d0); }
            let np = ch.subrange(0, i + 1);
            assert(np.drop_last() =~= pre);
            assert(np[i as int] == ch[i as int]);
            lemma_block_adds_step(scope@, depth as int, np, old(diagnostics)@, d0, diagnostics@);
        }
        i += 1;
    }
    proof {
        assert(ch.subrange(0, n as int) =~= ch);
    }
    ctx
}


/// ASCII whitespace: space, tab, line feed, form feed, carriage return.
pub open spec fn ascii_space(c: u8) -> bool {
    c == 0x20u8 || c == 0x09u8 || c == 0x0Au8 || c == 0x0Cu8 || c == 0x0Du8
}

/// Each location of a `context:property-placeholder` is a non-empty piece
/// of its `location=` value between commas, with no comma in it and no
/// ASCII whitespace at either end, and its span covers exactly those
/// bytes of the attribute value.
pub proof fn law_placeholder_locations_trimmed(e: XmlElement, p: Spanned<PropertySource>, v: Spanned<String>)
    requires
        property_source_ok(e, p),
        qname_local(e.name@) != "properties"@,
        attr_value(e.attrs@, "location"@) == Some(v),
    ensures
        p.value matches PropertySource::Placeholder { locations } && forall|k: int|
            0 <= k < locations@.len() ==> {
                let w = encode_utf8(#[trigger] locations@[k].value@);
                &&& w.len() > 0
                &&& !ascii_space(w[0])
                &&& !ascii_space(w[w.len() - 1])
                &&& forall|j: int| 0 <= j < w.len() ==> w[j] != 0x2Cu8
                &&& exists|x: int, y: int|
                    0 <= x < y <= encode_utf8(v.value@).len() && w == encode_utf8(v.value@).subrange(x, y)
                        && locations@[k].span == (ByteSpan {
                        start: crate::tokens::sat(v.span.start + x),
                        end: crate::tokens::sat(v.span.start + y),
                    })
            },
{
    let b = encode_utf8(v.value@);
    vstd::utf8::encode_utf8_valid_utf8(v.value@);
    crate::text::lemma_ends_are_boundaries(b);
    crate::tokens::lemma_comma_list_pieces(b);
    let pieces = comma_pieces(b, 0, 0);
    if let PropertySource::Placeholder { locations } = p.value {
        assert forall|k: int| 0 <= k < locations@.len() implies {
            let w = encode_utf8(#[trigger] locations@[k].value@);
            &&& w.len() > 0
            &&& !ascii_space(w[0])
            &&& !ascii_space(w[w.len() - 1])
            &&& forall|j: int| 0 <= j < w.len() ==> w[j] != 0x2Cu8
            &&& exists|x: int, y: int|
                0 <= x < y <= b.len() && w == b.subrange(x, y) && locations@[k].span == (ByteSpan {
                    start: crate::tokens::sat(v.span.start + x),
                    end: crate::tokens::sat(v.span.start + y),
                })
        } by {
            let x = pieces[k].0;
            let y = pieces[k].1;
            assert(crate::tokens::comma_piece_shape(b, x, y));
            if x > 0 {
                crate::text::lemma_after_ascii_is_boundary(b, x - 1);
            }
            if y < b.len() {
                crate::text::lemma_ascii_is_boundary(b, y);
            }
            crate::text::lemma_slice_roundtrip(b, x, y);
            let w = encode_utf8(locations@[k].value@);
            assert(w == b.subrange(x, y));
            assert forall|j: int| 0 <= j < w.len() implies w[j] != 0x2Cu8 by {
                assert(w[j] == b[x + j]);
            }
            assert(w[w.len() - 1] == b[y - 1]);
        }
    }
}


/// The locations of a `context:property-placeholder` miss nothing and
/// come in order: every byte of its `location=` value that is neither a
/// comma nor ASCII whitespace lies in exactly the bytes one location holds
/// and spans, and each location's span ends before the next one starts.
pub proof fn law_placeholder_locations_cover(e: XmlElement, p: Spanned<PropertySource>, v: Spanned<String>)
    requires
        property_source_ok(e, p),
        qname_local(e.name@) != "properties"@,
        attr_value(e.attrs@, "location"@) == Some(v),
    ensures
        p.value matches PropertySource::Placeholder { locations } && (forall|k1: int, k2: int|
            0 <= k1 < k2 < locations@.len() ==> (#[trigger] locations@[k1]).span.end <= (#[trigger] locations@[k2]).span.start)
            && (forall|j: int|
            0 <= j < encode_utf8(v.value@).len() && encode_utf8(v.value@)[j] != 0x2Cu8 && !ascii_space(
                encode_utf8(v.value@)[j],
            ) ==> exists|k: int, x: int, y: int|
                #![trigger locations@[k], encode_utf8(v.value@).subrange(x, y)]
                0 <= k < locations@.len() && x <= j < y && 0 <= x && y <= encode_utf8(v.value@).len() && encode_utf8(
                    locations@[k].value@,
                ) == encode_utf8(v.value@).subrange(x, y) && locations@[k].span == (ByteSpan {
                    start: crate::tokens::sat(v.span.start + x),
                    end: crate::tokens::sat(v.span.start + y),
                })),
{
    let b = encode_utf8(v.value@);
    vstd::utf8::encode_utf8_valid_utf8(v.value@);
    crate::text::lemma_ends_are_boundaries(b);
    crate::tokens::lemma_comma_list_pieces(b);
    crate::tokens::lemma_comma_list_cover(b);
    let pieces = comma_pieces(b, 0, 0);
    if let PropertySource::Placeholder { locations } = p.value {
        assert forall|k1: int, k2: int| 0 <= k1 < k2 < locations@.len() implies (#[trigger] locations@[k1]).span.end
            <= (#[trigger] locations@[k2]).span.start by {
            assert(pieces[k1].1 < pieces[k2].0);
        }
        assert forall|j: int|
            0 <= j < b.len() && b[j] != 0x2Cu8 && !ascii_space(b[j]) implies exists|k: int, x: int, y: int|
                #![trigger locations@[k], b.subrange(x, y)]
                0 <= k < locations@.len() && x <= j < y && 0 <= x && y <= b.len() && encode_utf8(locations@[k].value@)
                    == b.subrange(x, y) && locations@[k].span == (ByteSpan {
                    start: crate::tokens::sat(v.span.start + x),
                    end: crate::tokens::sat(v.span.start + y),
                }) by {
            let k = choose|k: int| 0 <= k < pieces.len() && #[trigger] pieces[k].0 <= j < pieces[k].1;
            let x = pieces[k].0;
            let y = pieces[k].1;
            assert(crate::tokens::comma_piece_shape(b, x, y));
            if x > 0 {
                crate::text::lemma_after_ascii_is_boundary(b, x - 1);
            }
            if y < b.len() {
                crate::text::lemma_ascii_is_boundary(b, y);
            }
            crate::text::lemma_slice_roundtrip(b, x, y);
            assert(encode_utf8(locations@[k].value@) == b.subrange(x, y));
        }
    }
}


/// A byte of a URI scheme after its first letter: an ASCII letter or
/// digit, `+`, `-` or `.`.
pub open spec fn scheme_byte(c: u8) -> bool {
    (0x41u8 <= c <= 0x5Au8) || (0x61u8 <= c <= 0x7Au8) || (0x30u8 <= c <= 0x39u8) || c == 0x2Bu8 || c == 0x2Du8 || c == 0x2Eu8
}

/// The bytes begin with a URI scheme: an ASCII letter, scheme bytes, then
/// a `:` at `k`.
pub open spec fn scheme_colon_at(b: Seq<u8>, k: int) -> bool {
    &&& 1 <= k < b.len()
    &&& b[k] == 0x3Au8
    &&& ((0x41u8 <= b[0] <= 0x5Au8) || (0x61u8 <= b[0] <= 0x7Au8))
    &&& forall|j: int| 1 <= j < k ==> scheme_byte(#[trigger] b[j])
}

proof fn lemma_scheme_rest(b: Seq<u8>, i: int)
    requires
        1 <= i <= b.len(),
        forall|j: int| 1 <= j < i ==> scheme_byte(#[trigger] b[j]),
    ensures
        (((0x41u8 <= b[0] <= 0x5Au8) || (0x61u8 <= b[0] <= 0x7Au8)) && scheme_rest(b, i)) <==> exists|k: int|
            i <= k && #[trigger] scheme_colon_at(b, k),
    decreases b.len() - i,
{
    if i < b.len() && b[i] != 0x3Au8 && scheme_byte(b[i]) {
        lemma_scheme_rest(b, i + 1);
        if exists|k: int| i <= k && #[trigger] scheme_colon_at(b, k) {
            let k = choose|k: int| i <= k && #[trigger] scheme_colon_at(b, k);
            assert(k != i);
        }
    } else if i < b.len() && b[i] == 0x3Au8 {
        if (0x41u8 <= b[0] <= 0x5Au8) || (0x61u8 <= b[0] <= 0x7Au8) {
            assert(scheme_colon_at(b, i));
        }
    } else {
        if exists|k: int| i <= k && #[trigger] scheme_colon_at(b, k) {
            let k = choose|k: int| i <= k && #[trigger] scheme_colon_at(b, k);
            if k > i {
                assert(scheme_byte(b[i]));
            }
        }
    }
}

/// An `<import>`'s kind follows from its `resource=` text alone: empty is
/// `Other`; `classpath*:...` is `ClasspathStar`; `classpath:...` is
/// `Classpath`; text that begins with a URI scheme (an ASCII letter, then
/// letters, digits, `+`, `-`, `.`, then `:`) is `Url`; anything else is
/// `Relative`.
pub proof fn law_import_kind(e: XmlElement, i: Spanned<Import>)
    requires
        import_ok(e, i),
    ensures
        ({
            let r = i.value.resource.value@;
            let star = seq!['c', 'l', 'a', 's', 's', 'p', 'a', 't', 'h', '*', ':'];
            let plain = seq!['c', 'l', 'a', 's', 's', 'p', 'a', 't', 'h', ':'];
            &&& r.len() == 0 ==> i.value.kind == ImportKind::Other
            &&& r.len() >= 11 && r.subrange(0, 11) == star ==> i.value.kind == ImportKind::ClasspathStar
            &&& r.len() >= 10 && r.subrange(0, 10) == plain ==> i.value.kind == ImportKind::Classpath
            &&& r.len() > 0 && !(r.len() >= 11 && r.subrange(0, 11) == star) && !(r.len() >= 10 && r.subrange(0, 10) == plain)
                ==> (i.value.kind == ImportKind::Url <==> exists|k: int| #[trigger] scheme_colon_at(encode_utf8(r), k))
            &&& r.len() > 0 && !(r.len() >= 11 && r.subrange(0, 11) == star) && !(r.len() >= 10 && r.subrange(0, 10) == plain)
                ==> (i.value.kind == ImportKind::Relative <==> !exists|k: int| #[trigger] scheme_colon_at(encode_utf8(r), k))
        }),
        attr_value(e.attrs@, "resource"@) matches Some(v) ==> i.value.resource == v,
        attr_value(e.attrs@, "resource"@) is None ==> i.value.resource.value@.len() == 0,
{
    reveal_strlit("classpath*:");
    reveal_strlit("classpath:");
    let r = i.value.resource.value@;
    let b = encode_utf8(r);
    assert("classpath*:"@ =~= seq!['c', 'l', 'a', 's', 's', 'p', 'a', 't', 'h', '*', ':']);
    assert("classpath:"@ =~= seq!['c', 'l', 'a', 's', 's', 'p', 'a', 't', 'h', ':']);
    if r.len() >= 11 && r.subrange(0, 11) == seq!['c', 'l', 'a', 's', 's', 'p', 'a', 't', 'h', '*', ':'] {
        assert(r.subrange(0, 10)[9] == '*');
        assert(r.subrange(0, 10) != seq!['c', 'l', 'a', 's', 's', 'p', 'a', 't', 'h', ':']);
    }
    if b.len() >= 1 {
        lemma_scheme_rest(b, 1);
    }
    if r.len() > 0 {
        assert(b.len() > 0) by {
            if b.len() == 0 {
                vstd::utf8::encode_utf8_decode_utf8(r);
                assert(b =~= Seq::<u8>::empty());
                assert(vstd::utf8::decode_utf8(Seq::<u8>::empty()) =~= Seq::<char>::empty());
            }
        }
    }
}


/// The first attribute named `name`, as written.
pub open spec fn written_value(a: Seq<crate::events::XmlAttr>, name: Seq<char>) -> Option<Spanned<String>> {
    match crate::reading::attr_named(a, name) {
        Some(x) => Some(x.value),
        None => None,
    }
}

/// A header default read as a flag: `"true"` and `"false"` only.
pub open spec fn written_default_flag(a: Seq<crate::events::XmlAttr>, name: Seq<char>) -> Option<bool> {
    match crate::reading::attr_named(a, name) {
        Some(x) => if x.value.value@ == seq!['t', 'r', 'u', 'e'] {
            Some(true)
        } else if x.value.value@ == seq!['f', 'a', 'l', 's', 'e'] {
            Some(false)
        } else {
            None
        },
        None => None,
    }
}

/// A `<beans>` block within the depth limit takes its header from its
/// own attributes: `profile`, `default-autowire`, `default-init-method`,
/// `default-destroy-method`, `default-autowire-candidates` as written,
/// `default-lazy-init` and `default-merge` as `true` / `false` / no
/// opinion, and spans the element. Past the limit it is empty.
pub proof fn law_block_header(sc: ScopeView, depth: int, e: XmlElement, f: BeansFile)
    requires
        body_rel(sc, depth, e, f),
    ensures
        f.span == e.span,
        depth < crate::DEPTH_LIMIT ==> {
            let a = e.attrs@;
            &&& f.profile == written_value(a, "profile"@)
            &&& f.default_autowire == written_value(a, "default-autowire"@)
            &&& f.default_init_method == written_value(a, "default-init-method"@)
            &&& f.default_destroy_method == written_value(a, "default-destroy-method"@)
            &&& f.default_autowire_candidates == written_value(a, "default-autowire-candidates"@)
            &&& f.default_lazy_init == written_default_flag(a, "default-lazy-init"@)
            &&& f.default_merge == written_default_flag(a, "default-merge"@)
        },
        depth >= crate::DEPTH_LIMIT ==> f.beans@.len() == 0 && f.imports@.len() == 0 && f.profile is None,
{
    reveal_strlit("true");
    reveal_strlit("false");
    assert("true"@ =~= seq!['t', 'r', 'u', 'e']);
    assert("false"@ =~= seq!['f', 'a', 'l', 's', 'e']);
}


/// A component scan's base packages are the tokens of its
/// `base-package=` value: its maximal runs between separators, in order
/// (`list_tokens_maximal`); without the attribute there are none.
/// `use-default-filters` is `true` / `false` / no opinion as written.
pub proof fn law_component_scan_packages(sc: ScopeView, e: XmlElement, c: Spanned<ComponentScan>)
    requires
        component_scan_ok(sc, e, c),
    ensures
        written_value(e.attrs@, "base-package"@) is None ==> c.value.base_packages@.len() == 0,
        written_value(e.attrs@, "base-package"@) matches Some(v) ==> crate::bean::list_tokens_maximal(c.value.base_packages@, v),
        c.value.use_default_filters == written_default_flag(e.attrs@, "use-default-filters"@),
{
    reveal_strlit("true");
    reveal_strlit("false");
    assert("true"@ =~= seq!['t', 'r', 'u', 'e']);
    assert("false"@ =~= seq!['f', 'a', 'l', 's', 'e']);
    crate::bean::law_list_tokens(c.value.base_packages@, attr_value(e.attrs@, "base-package"@));
}

} // verus!
