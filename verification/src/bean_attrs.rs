//! A `<bean>`'s own attributes: the core ones (`id`, `name`, `class`,
//! `parent`, `scope`, flags, `depends-on`, factory and lifecycle methods)
//! and the `p:` / `c:` namespace shorthand for properties and constructor
//! arguments.
use vstd::prelude::*;
use vstd::utf8::encode_utf8;
use crate::events::{XmlAttr, XmlElement};
use crate::literal::{lit_of_attr, one_more, one_more_msg, push_diag, ref_from_attr, ref_reported, ref_spec, value_lit_from_attr, bean_ref_from_attr};
use crate::model::{BeanCtx, BeanRef, ByteSpan, ConstructorArg, DiagCode, Diagnostic, InjectValue, Property, RefKind, Spanned};
use crate::reading::{attr_named, attr_value, class_ref_from_attr, class_ref_spec, class_view, find_attr, find_bool_attr, find_spanned, flag_of};
use crate::scope::{colon_at, qname_ns, resolve_qname, NsScope, ScopeView, find_char_in};
use crate::text::{str_eq, text_of};
use crate::tokens::{all_digits, digits_value, name_runs, sat, sat_add, split_name_tokens, tokens_realized};
use crate::wellformed::{bean_ref_ok, bean_refs_ok, class_ref_ok, inject_ok, opt_bean_ref_ok};

verus! {

/// A bean reference of kind `Bean` from the first attribute named `name`.
pub open spec fn ref_attr_spec(attrs: Seq<XmlAttr>, name: Seq<char>) -> Option<Spanned<BeanRef>> {
    match attr_named(attrs, name) {
        Some(a) => ref_spec(a, RefKind::Bean),
        None => None,
    }
}

/// `scope=` as written; else the legacy `singleton="true|false"` read as
/// `singleton` / `prototype`.
pub open spec fn scope_spec(attrs: Seq<XmlAttr>) -> Option<(Seq<char>, ByteSpan)> {
    match attr_value(attrs, "scope"@) {
        Some(v) => Some((v.value@, v.span)),
        None => match attr_value(attrs, "singleton"@) {
            Some(v) => if v.value@ == "true"@ {
                Some(("singleton"@, v.span))
            } else if v.value@ == "false"@ {
                Some(("prototype"@, v.span))
            } else {
                None
            },
            None => None,
        },
    }
}

pub open spec fn sp_view(s: Option<Spanned<String>>) -> Option<(Seq<char>, ByteSpan)> {
    match s {
        Some(x) => Some((x.value@, x.span)),
        None => None,
    }
}

/// The tokens of a list-valued attribute (none when absent).
pub open spec fn tokens_of_attr(out: Seq<Spanned<String>>, v: Option<Spanned<String>>) -> bool {
    match v {
        Some(s) => tokens_realized(out, name_runs(encode_utf8(s.value@), 0, None), encode_utf8(s.value@), s.span.start as int),
        None => out.len() == 0,
    }
}

/// `depends-on=` tokens as bean references.
pub open spec fn depends_on_ok(out: Seq<Spanned<BeanRef>>, v: Option<Spanned<String>>) -> bool {
    match v {
        Some(s) => {
            let b = encode_utf8(s.value@);
            let rs = name_runs(b, 0, None);
            &&& out.len() == rs.len()
            &&& forall|k: int|
                0 <= k < out.len() ==> {
                    &&& (#[trigger] out[k]).value.raw@ == text_of(b, rs[k].0, rs[k].1)
                    &&& out[k].value.kind == RefKind::Bean
                    &&& out[k].span == (ByteSpan { start: sat(s.span.start + rs[k].0), end: sat(s.span.start + rs[k].1) })
                }
        },
        None => out.len() == 0,
    }
}

/// A bean's core attributes, as read from its element.
pub open spec fn core_attrs_ok(e: XmlElement, c: BeanCtx) -> bool {
    let a = e.attrs@;
    &&& c.id == attr_value(a, "id"@)
    &&& tokens_of_attr(c.names@, attr_value(a, "name"@))
    &&& class_view(c.class) == class_ref_spec(attr_value(a, "class"@))
    &&& c.parent == ref_attr_spec(a, "parent"@)
    &&& sp_view(c.scope) == scope_spec(a)
    &&& c.abstract_ == (flag_of(attr_value(a, "abstract"@)) == Some(true))
    &&& c.lazy_init == flag_of(attr_value(a, "lazy-init"@))
    &&& c.primary == (flag_of(attr_value(a, "primary"@)) == Some(true))
    &&& c.autowire == attr_value(a, "autowire"@)
    &&& c.autowire_candidate == flag_of(attr_value(a, "autowire-candidate"@))
    &&& depends_on_ok(c.depends_on@, attr_value(a, "depends-on"@))
    &&& c.factory_bean == ref_attr_spec(a, "factory-bean"@)
    &&& c.factory_method == attr_value(a, "factory-method"@)
    &&& c.init_method == attr_value(a, "init-method"@)
    &&& c.destroy_method == attr_value(a, "destroy-method"@)
}

/// A bean with none of `class=`, `parent=`, `factory-bean=` that is not
/// abstract is reported.
pub open spec fn lacks_origin(c: BeanCtx) -> bool {
    c.class is None && c.parent is None && c.factory_bean is None && !c.abstract_
}

/// The element's attributes give a bean no way to be created.
pub open spec fn lacks_origin_of(e: XmlElement) -> bool {
    let a = e.attrs@;
    &&& class_ref_spec(attr_value(a, "class"@)) is None
    &&& ref_attr_spec(a, "parent"@) is None
    &&& ref_attr_spec(a, "factory-bean"@) is None
    &&& flag_of(attr_value(a, "abstract"@)) != Some(true)
}

/// What reading a bean's core attributes adds to the diagnostics.
pub open spec fn core_adds(e: XmlElement, old: Seq<Diagnostic>, new: Seq<Diagnostic>) -> bool {
    exists|d1: Seq<Diagnostic>, d2: Seq<Diagnostic>|
        #[trigger] core_reported(e.attrs@, e.span, lacks_origin_of(e), old, d1, d2, new)
}

/// What one `p:` / `c:` attribute adds: an empty `-ref` one is reported.
pub open spec fn pc_attr_adds(sc: ScopeView, a: XmlAttr, old: Seq<Diagnostic>, new: Seq<Diagnostic>) -> bool {
    if pc_kind(sc, a) is Some && pc_is_ref(a) {
        ref_reported(a, old, new)
    } else {
        new == old
    }
}

/// What the `p:` / `c:` attributes `attrs` add, in order.
pub open spec fn pc_adds(sc: ScopeView, attrs: Seq<XmlAttr>, old: Seq<Diagnostic>, new: Seq<Diagnostic>) -> bool
    decreases attrs.len(),
{
    if attrs.len() == 0 {
        new == old
    } else {
        exists|mid: Seq<Diagnostic>| pc_adds(sc, attrs.drop_last(), old, mid) && #[trigger] pc_attr_adds(sc, attrs.last(), mid, new)
    }
}

pub proof fn lemma_pc_adds_step(sc: ScopeView, attrs: Seq<XmlAttr>, old: Seq<Diagnostic>, mid: Seq<Diagnostic>, new: Seq<Diagnostic>)
    requires
        attrs.len() > 0,
        pc_adds(sc, attrs.drop_last(), old, mid),
        pc_attr_adds(sc, attrs.last(), mid, new),
    ensures
        pc_adds(sc, attrs, old, new),
{
}

/// `scope=` or the legacy `singleton=` (see `scope_spec`).
pub fn resolve_scope(attrs: &Vec<XmlAttr>) -> (r: Option<Spanned<String>>)
    ensures
        sp_view(r) == scope_spec(attrs@),
{
    if let Some(v) = find_spanned(attrs, "scope") {
        return Some(v);
    }
    match find_spanned(attrs, "singleton") {
        Some(v) => {
            if str_eq(v.value.as_str(), "true") {
                Some(Spanned { value: "singleton".to_owned(), span: v.span })
            } else if str_eq(v.value.as_str(), "false") {
                Some(Spanned { value: "prototype".to_owned(), span: v.span })
            } else {
                None
            }
        },
        None => None,
    }
}

/// A `Bean`-kind reference from the first attribute named `name`; a
/// present but empty one is reported.
pub fn ref_attr(attrs: &Vec<XmlAttr>, name: &str, diagnostics: &mut Vec<Diagnostic>) -> (r: Option<Spanned<BeanRef>>)
    ensures
        r == ref_attr_spec(attrs@, name@),
        match attr_named(attrs@, name@) {
            Some(a) => ref_reported(a, old(diagnostics)@, final(diagnostics)@),
            None => final(diagnostics)@ == old(diagnostics)@,
        },
{
    match find_attr(attrs, name) {
        Some(k) => bean_ref_from_attr(&attrs[k], RefKind::Bean, diagnostics),
        None => None,
    }
}

/// `depends-on=` split like `name=` into bean references.
pub fn parse_depends_on(attrs: &Vec<XmlAttr>) -> (r: Vec<Spanned<BeanRef>>)
    ensures
        depends_on_ok(r@, attr_value(attrs@, "depends-on"@)),
        bean_refs_ok(r@),
{
    let v = match find_spanned(attrs, "depends-on") {
        Some(v) => v,
        None => {
            return Vec::new();
        },
    };
    let toks = split_name_tokens(v.value.as_str(), v.span);
    let mut out: Vec<Spanned<BeanRef>> = Vec::new();
    let mut i: usize = 0;
    while i < toks.len()
        invariant
            i <= toks@.len(),
            out@.len() == i,
            forall|k: int|
                0 <= k < i ==> {
                    &&& (#[trigger] out@[k]).value.raw@ == toks@[k].value@
                    &&& out@[k].value.kind == RefKind::Bean
                    &&& out@[k].span == toks@[k].span
                },
        decreases toks@.len() - i,
    {
        let t = &toks[i];
        out.push(Spanned { value: BeanRef { raw: crate::scope::copy_string(&t.value), kind: RefKind::Bean }, span: t.span });
        i += 1;
    }
    proof {
        assert forall|k: int| 0 <= k < out@.len() implies #[trigger] bean_ref_ok(out@[k]) by {
            assert(toks@[k].value@.len() > 0);
        }
    }
    out
}

/// What a present attribute `name` read as a reference reports (an empty
/// one is `RefWithoutTarget`); an absent one reports nothing.
pub open spec fn ref_attr_reported(attrs: Seq<XmlAttr>, name: Seq<char>, old: Seq<Diagnostic>, new: Seq<Diagnostic>) -> bool {
    match attr_named(attrs, name) {
        Some(a) => ref_reported(a, old, new),
        None => new == old,
    }
}

/// What a bean's core attributes report, in order: an empty `parent=`, an
/// empty `factory-bean=`, then `BeanWithoutClassOrParent` exactly when the
/// bean has no origin.
pub open spec fn core_reported(
    attrs: Seq<XmlAttr>,
    span: ByteSpan,
    no_origin: bool,
    old: Seq<Diagnostic>,
    d1: Seq<Diagnostic>,
    d2: Seq<Diagnostic>,
    new: Seq<Diagnostic>,
) -> bool {
    &&& ref_attr_reported(attrs, "parent"@, old, d1)
    &&& ref_attr_reported(attrs, "factory-bean"@, d1, d2)
    &&& if no_origin {
        one_more_msg(d2, new, DiagCode::BeanWithoutClassOrParent, Some(span), "bean has none of class/parent/factory-bean and is not abstract"@)
    } else {
        new == d2
    }
}

/// Reads a bean's core attributes into `ctx` and reports a bean with no
/// way to be created (`BeanWithoutClassOrParent`).
pub fn populate_bean_core_attrs(ctx: &mut BeanCtx, element: &XmlElement, diagnostics: &mut Vec<Diagnostic>)
    ensures
        core_attrs_ok(*element, *final(ctx)),
        final(ctx).span == old(ctx).span,
        final(ctx).properties == old(ctx).properties,
        final(ctx).constructor_args == old(ctx).constructor_args,
        final(ctx).lookup_methods == old(ctx).lookup_methods,
        final(ctx).replaced_methods == old(ctx).replaced_methods,
        final(ctx).qualifiers == old(ctx).qualifiers,
        final(ctx).decorators == old(ctx).decorators,
        final(ctx).description == old(ctx).description,
        final(ctx).meta == old(ctx).meta,
        class_ref_ok(final(ctx).class),
        opt_bean_ref_ok(final(ctx).parent),
        bean_refs_ok(final(ctx).depends_on@),
        opt_bean_ref_ok(final(ctx).factory_bean),
        old(diagnostics)@.len() <= final(diagnostics)@.len(),
        final(diagnostics)@.subrange(0, old(diagnostics)@.len() as int) == old(diagnostics)@,
        lacks_origin(*final(ctx)) ==> final(diagnostics)@.last().code == DiagCode::BeanWithoutClassOrParent
            && final(diagnostics)@.last().span == Some(element.span),
        exists|d1: Seq<Diagnostic>, d2: Seq<Diagnostic>|
            #[trigger] core_reported(element.attrs@, element.span, lacks_origin(*final(ctx)), old(diagnostics)@, d1, d2, final(diagnostics)@),
        core_adds(*element, old(diagnostics)@, final(diagnostics)@),
{
    let attrs = &element.attrs;
    ctx.id = find_spanned(attrs, "id");
    ctx.names = match find_spanned(attrs, "name") {
        Some(v) => split_name_tokens(v.value.as_str(), v.span),
        None => Vec::new(),
    };
    ctx.class = class_ref_from_attr(attrs, "class");
    let ghost d0 = diagnostics@;
    ctx.parent = ref_attr(attrs, "parent", diagnostics);
    ctx.scope = resolve_scope(attrs);
    ctx.abstract_ = match find_bool_attr(attrs, "abstract") {
        Some(b) => b,
        None => false,
    };
    ctx.lazy_init = find_bool_attr(attrs, "lazy-init");
    ctx.primary = match find_bool_attr(attrs, "primary") {
        Some(b) => b,
        None => false,
    };
    ctx.autowire = find_spanned(attrs, "autowire");
    ctx.autowire_candidate = find_bool_attr(attrs, "autowire-candidate");
    ctx.depends_on = parse_depends_on(attrs);
    let ghost d1 = diagnostics@;
    ctx.factory_bean = ref_attr(attrs, "factory-bean", diagnostics);
    ctx.factory_method = find_spanned(attrs, "factory-method");
    ctx.init_method = find_spanned(attrs, "init-method");
    ctx.destroy_method = find_spanned(attrs, "destroy-method");
    let ghost d2 = diagnostics@;
    proof {
        assert(d1.subrange(0, d0.len() as int) =~= d0);
        assert(d2.subrange(0, d0.len() as int) =~= d0);
    }
    if ctx.class.is_none() && ctx.parent.is_none() && ctx.factory_bean.is_none() && !ctx.abstract_ {
        push_diag(
            diagnostics,
            DiagCode::BeanWithoutClassOrParent,
            Some(element.span),
            "bean has none of class/parent/factory-bean and is not abstract".to_owned(),
        );
        proof {
            assert(diagnostics@.subrange(0, d0.len() as int) =~= d0);
        }
    }
    proof {
        assert(core_reported(element.attrs@, element.span, lacks_origin(*ctx), d0, d1, d2, diagnostics@));
        assert(lacks_origin(*ctx) == lacks_origin_of(*element));
        assert(core_reported(element.attrs@, element.span, lacks_origin_of(*element), d0, d1, d2, diagnostics@));
    }
}

pub open spec fn p_ns(ns: Seq<char>) -> bool {
    ns == "http://www.springframework.org/schema/p"@ || ns == "p"@
}

pub open spec fn c_ns(ns: Seq<char>) -> bool {
    ns == "http://www.springframework.org/schema/c"@ || ns == "c"@
}

/// Whether an attribute is `p:` shorthand (`Some(true)`), `c:` shorthand
/// (`Some(false)`), or neither: a prefixed name, not a namespace
/// declaration, whose prefix resolves to the p or c namespace.
pub open spec fn pc_kind(sc: ScopeView, a: XmlAttr) -> Option<bool> {
    match colon_at(a.name@) {
        None => None,
        Some(k) => if a.name@.subrange(0, k) == "xmlns"@ {
            None
        } else if p_ns(qname_ns(a.name@, sc)) {
            Some(true)
        } else if c_ns(qname_ns(a.name@, sc)) {
            Some(false)
        } else {
            None
        },
    }
}

pub open spec fn ends_with(s: Seq<char>, p: Seq<char>) -> bool {
    p.len() <= s.len() && s.subrange(s.len() - p.len(), s.len() as int) == p
}

/// The name after the prefix.
pub open spec fn pc_rest(a: XmlAttr) -> Seq<char> {
    a.name@.subrange(colon_at(a.name@)->0 + 1, a.name@.len() as int)
}

/// Whether the shorthand names a reference (`-ref` suffix).
pub open spec fn pc_is_ref(a: XmlAttr) -> bool {
    ends_with(pc_rest(a), "-ref"@)
}

/// The property or argument name the shorthand writes.
pub open spec fn pc_local(a: XmlAttr) -> Seq<char> {
    if pc_is_ref(a) {
        pc_rest(a).subrange(0, pc_rest(a).len() - "-ref"@.len())
    } else {
        pc_rest(a)
    }
}

/// Where the name after the prefix starts.
pub open spec fn pc_local_start(a: XmlAttr) -> u32 {
    sat(a.name_span.start + encode_utf8(a.name@.subrange(0, colon_at(a.name@)->0)).len() + 1)
}

/// The whole attribute, from its name to the closing quote.
pub open spec fn pc_span(a: XmlAttr) -> ByteSpan {
    ByteSpan { start: a.name_span.start, end: sat(a.value.span.end + 1) }
}

/// The value the shorthand gives: a reference (or `Null` when empty) for
/// `-ref`, else a literal.
pub open spec fn pc_value_ok(a: XmlAttr, v: InjectValue) -> bool {
    if pc_is_ref(a) {
        v == match ref_spec(a, RefKind::Bean) {
            Some(r) => InjectValue::Ref(r),
            None => InjectValue::Null(a.value.span),
        }
    } else {
        v matches InjectValue::Value(l) && lit_of_attr(l, a)
    }
}

pub open spec fn local_name_span(start: u32, local: Seq<char>) -> ByteSpan {
    ByteSpan { start, end: sat(start + encode_utf8(local).len()) }
}

/// The property a `p:` attribute writes.
pub open spec fn p_property_ok(a: XmlAttr, p: Property) -> bool {
    &&& p.span == pc_span(a)
    &&& p.name.value@ == pc_local(a)
    &&& p.name.span == local_name_span(pc_local_start(a), pc_local(a))
    &&& pc_value_ok(a, p.value)
    &&& p.meta@.len() == 0
}

/// `_N` (decimal digits that fit a `u32`) is an argument index.
pub open spec fn c_index(local: Seq<char>) -> Option<u32> {
    let b = encode_utf8(local);
    if b.len() > 1 && b[0] == 0x5Fu8 && all_digits(b.subrange(1, b.len() as int))
        && digits_value(b.subrange(1, b.len() as int)) <= u32::MAX {
        Some(digits_value(b.subrange(1, b.len() as int)) as u32)
    } else {
        None
    }
}

/// The constructor argument a `c:` attribute writes: by index when the
/// name is `_N`, else by name.
pub open spec fn c_arg_ok(a: XmlAttr, c: ConstructorArg) -> bool {
    &&& c.span == pc_span(a)
    &&& c.index == c_index(pc_local(a))
    &&& match c_index(pc_local(a)) {
        Some(_) => c.name is None,
        None => c.name matches Some(n) && n.value@ == pc_local(a) && n.span == local_name_span(
            pc_local_start(a),
            pc_local(a),
        ),
    }
    &&& c.type_ref is None
    &&& pc_value_ok(a, c.value)
    &&& c.meta@.len() == 0
}

/// The properties the `p:` attributes among `attrs` write, in order.
pub open spec fn p_props_ok(sc: ScopeView, attrs: Seq<XmlAttr>, ps: Seq<Property>) -> bool
    decreases attrs.len(),
{
    if attrs.len() == 0 {
        ps.len() == 0
    } else if pc_kind(sc, attrs.last()) == Some(true) {
        ps.len() > 0 && p_property_ok(attrs.last(), ps.last()) && p_props_ok(sc, attrs.drop_last(), ps.drop_last())
    } else {
        p_props_ok(sc, attrs.drop_last(), ps)
    }
}

/// The constructor arguments the `c:` attributes among `attrs` write, in
/// order.
pub open spec fn c_args_ok(sc: ScopeView, attrs: Seq<XmlAttr>, cs: Seq<ConstructorArg>) -> bool
    decreases attrs.len(),
{
    if attrs.len() == 0 {
        cs.len() == 0
    } else if pc_kind(sc, attrs.last()) == Some(false) {
        cs.len() > 0 && c_arg_ok(attrs.last(), cs.last()) && c_args_ok(sc, attrs.drop_last(), cs.drop_last())
    } else {
        c_args_ok(sc, attrs.drop_last(), cs)
    }
}

/// `local` without the suffix `-ref`, if it has it.
fn strip_ref_suffix(local: &str) -> (r: (String, bool))
    ensures
        r.1 == ends_with(local@, "-ref"@),
        r.1 ==> r.0@ == local@.subrange(0, local@.len() - "-ref"@.len()),
        !r.1 ==> r.0@ == local@,
{
    let n = local.unicode_len();
    let suffix = "-ref";
    proof { reveal_strlit("-ref"); }
    let m = suffix.unicode_len();
    if n >= m {
        let tail = local.substring_char(n - m, n);
        if str_eq(tail, suffix) {
            return (local.substring_char(0, n - m).to_owned(), true);
        }
    }
    (local.to_owned(), false)
}

/// A `c:` name: `_N` is an index, anything else a name spanning from
/// `start`.
pub fn parse_c_local(local: &str, start: u32) -> (r: (Option<u32>, Option<Spanned<String>>))
    ensures
        r.0 == c_index(local@),
        r.0 is Some ==> r.1 is None,
        r.0 is None ==> (r.1 matches Some(n) && n.value@ == local@ && n.span == local_name_span(start, local@)),
{
    let b = local.as_bytes();
    if b.len() > 1 && b[0] == 0x5Fu8 {
        let digits = crate::tokens::digits_u32(b, 1);
        if let Some(i) = digits {
            return (Some(i), None);
        }
    }
    (None, Some(Spanned { value: local.to_owned(), span: ByteSpan { start, end: sat_add(start, b.len()) } }))
}

/// Reads one attribute as `p:` / `c:` shorthand, if it is one (see
/// `pc_kind`), appending the property or constructor argument it writes.
pub fn normalize_pc_attr(ctx: &mut BeanCtx, diagnostics: &mut Vec<Diagnostic>, scope: &NsScope, attr: &XmlAttr)
    ensures
        pc_kind(scope@, *attr) == Some(true) ==> final(ctx).properties@ == old(ctx).properties@.push(final(ctx).properties@.last())
            && p_property_ok(*attr, final(ctx).properties@.last()),
        pc_kind(scope@, *attr) != Some(true) ==> final(ctx).properties == old(ctx).properties,
        pc_kind(scope@, *attr) == Some(false) ==> final(ctx).constructor_args@ == old(ctx).constructor_args@.push(final(ctx).constructor_args@.last())
            && c_arg_ok(*attr, final(ctx).constructor_args@.last()),
        pc_kind(scope@, *attr) != Some(false) ==> final(ctx).constructor_args == old(ctx).constructor_args,
        pc_kind(scope@, *attr) == Some(true) ==> inject_ok(final(ctx).properties@.last().value),
        pc_kind(scope@, *attr) == Some(false) ==> inject_ok(final(ctx).constructor_args@.last().value)
            && final(ctx).constructor_args@.last().type_ref is None,
        final(ctx).span == old(ctx).span,
        final(ctx).id == old(ctx).id,
        final(ctx).names == old(ctx).names,
        final(ctx).class == old(ctx).class,
        final(ctx).parent == old(ctx).parent,
        final(ctx).scope == old(ctx).scope,
        final(ctx).abstract_ == old(ctx).abstract_,
        final(ctx).lazy_init == old(ctx).lazy_init,
        final(ctx).primary == old(ctx).primary,
        final(ctx).autowire == old(ctx).autowire,
        final(ctx).autowire_candidate == old(ctx).autowire_candidate,
        final(ctx).depends_on == old(ctx).depends_on,
        final(ctx).factory_bean == old(ctx).factory_bean,
        final(ctx).factory_method == old(ctx).factory_method,
        final(ctx).init_method == old(ctx).init_method,
        final(ctx).destroy_method == old(ctx).destroy_method,
        final(ctx).lookup_methods == old(ctx).lookup_methods,
        final(ctx).replaced_methods == old(ctx).replaced_methods,
        final(ctx).qualifiers == old(ctx).qualifiers,
        final(ctx).decorators == old(ctx).decorators,
        final(ctx).description == old(ctx).description,
        final(ctx).meta == old(ctx).meta,
        pc_kind(scope@, *attr) is Some && pc_is_ref(*attr) ==> ref_reported(*attr, old(diagnostics)@, final(diagnostics)@),
        !(pc_kind(scope@, *attr) is Some && pc_is_ref(*attr)) ==> final(diagnostics)@ == old(diagnostics)@,
        pc_attr_adds(scope@, *attr, old(diagnostics)@, final(diagnostics)@),
        old(diagnostics)@.len() <= final(diagnostics)@.len(),
        final(diagnostics)@.subrange(0, old(diagnostics)@.len() as int) == old(diagnostics)@,
{
    let name = attr.name.as_str();
    let colon = match find_char_in(name, ':') {
        Some(k) => k,
        None => {
            proof { assert(final(diagnostics)@.subrange(0, old(diagnostics)@.len() as int) =~= old(diagnostics)@); }
            return;
        },
    };
    proof { crate::scope::lemma_colon_bounds(name@); }
    let prefix = name.substring_char(0, colon);
    if str_eq(prefix, "xmlns") {
        proof { assert(final(diagnostics)@.subrange(0, old(diagnostics)@.len() as int) =~= old(diagnostics)@); }
        return;
    }
    let q = resolve_qname(name, scope);
    let ns = q.0.as_str();
    let is_p = str_eq(ns, "http://www.springframework.org/schema/p") || str_eq(ns, "p");
    let is_c = str_eq(ns, "http://www.springframework.org/schema/c") || str_eq(ns, "c");
    if !is_p && !is_c {
        proof { assert(final(diagnostics)@.subrange(0, old(diagnostics)@.len() as int) =~= old(diagnostics)@); }
        return;
    }
    let n = name.unicode_len();
    let rest = name.substring_char(colon + 1, n);
    let attr_span = ByteSpan { start: attr.name_span.start, end: sat_add(attr.value.span.end, 1) };
    let plen = prefix.as_bytes().len();
    let local_start = sat_add(sat_add(attr.name_span.start, plen), 1);
    proof {
        assert(plen == encode_utf8(name@.subrange(0, colon as int)).len());
    }
    let (local, is_ref) = strip_ref_suffix(rest);
    let ghost d0 = diagnostics@;
    let value = if is_ref {
        match ref_from_attr(attr, diagnostics) {
            Some(r) => InjectValue::Ref(r),
            None => InjectValue::Null(attr.value.span),
        }
    } else {
        InjectValue::Value(value_lit_from_attr(attr))
    };
    proof {
        assert(diagnostics@.subrange(0, old(diagnostics)@.len() as int) =~= old(diagnostics)@);
    }
    if is_p {
        let lb = local.as_str().as_bytes().len();
        let p = Property {
            span: attr_span,
            name: Spanned { value: local, span: ByteSpan { start: local_start, end: sat_add(local_start, lb) } },
            value,
            meta: Vec::new(),
        };
        ctx.properties.push(p);
        return;
    }
    let (index, cname) = parse_c_local(local.as_str(), local_start);
    let arg = ConstructorArg { span: attr_span, index, type_ref: None, name: cname, value, meta: Vec::new() };
    ctx.constructor_args.push(arg);
}


proof fn lemma_first_colon(t: Seq<char>, i: int, k: int)
    requires
        0 <= i <= k < t.len(),
        t[k] == ':',
        forall|j: int| i <= j < k ==> t[j] != ':',
    ensures
        crate::encoding::index_of_char(t, ':', i) == Some(k),
    decreases k - i,
{
    if i < k {
        lemma_first_colon(t, i + 1, k);
    }
}

/// What a shorthand attribute named `pre:rest` (no `:` in `pre`) says:
/// with `rest` ending in `-ref`, the name before that suffix and a `Bean`
/// reference to the value (`Null` at the value when it is empty);
/// otherwise the name `rest` and the value as a literal.
pub open spec fn shorthand_says(a: XmlAttr, rest: Seq<char>, name: Seq<char>, v: InjectValue) -> bool {
    let suffix = seq!['-', 'r', 'e', 'f'];
    if rest.len() >= 4 && rest.subrange(rest.len() - 4, rest.len() as int) == suffix {
        &&& name == rest.subrange(0, rest.len() - 4)
        &&& v == if a.value.value@.len() > 0 {
            InjectValue::Ref(Spanned { value: BeanRef { raw: a.value.value, kind: RefKind::Bean }, span: a.value.span })
        } else {
            InjectValue::Null(a.value.span)
        }
    } else {
        &&& name == rest
        &&& v matches InjectValue::Value(l) && l.text == a.value && l.span == a.value.span
    }
}

proof fn lemma_shorthand_parts(a: XmlAttr, pre: Seq<char>, rest: Seq<char>)
    requires
        a.name@ == pre + seq![':'] + rest,
        forall|j: int| 0 <= j < pre.len() ==> pre[j] != ':',
    ensures
        colon_at(a.name@) == Some(pre.len() as int),
        pc_rest(a) == rest,
        pc_is_ref(a) == (rest.len() >= 4 && rest.subrange(rest.len() - 4, rest.len() as int) == seq!['-', 'r', 'e', 'f']),
        pc_is_ref(a) ==> pc_local(a) == rest.subrange(0, rest.len() - 4),
        !pc_is_ref(a) ==> pc_local(a) == rest,
{
    reveal_strlit("-ref");
    let t = a.name@;
    assert forall|j: int| 0 <= j < pre.len() implies t[j] != ':' by {
        assert(t[j] == pre[j]);
    }
    assert(t[pre.len() as int] == ':');
    lemma_first_colon(t, 0, pre.len() as int);
    assert(t.subrange(pre.len() as int + 1, t.len() as int) =~= rest);
    assert("-ref"@ =~= seq!['-', 'r', 'e', 'f']);
}

/// A `p:` attribute `pre:rest` makes a property named by what it says
/// (`shorthand_says`), spanning the whole attribute, with no `<meta>`.
pub proof fn law_p_shorthand(a: XmlAttr, p: Property, pre: Seq<char>, rest: Seq<char>)
    requires
        p_property_ok(a, p),
        a.name@ == pre + seq![':'] + rest,
        forall|j: int| 0 <= j < pre.len() ==> pre[j] != ':',
    ensures
        shorthand_says(a, rest, p.name.value@, p.value),
        p.span == (ByteSpan { start: a.name_span.start, end: sat(a.value.span.end + 1) }),
        p.meta@.len() == 0,
{
    lemma_shorthand_parts(a, pre, rest);
}

/// A `c:` attribute `pre:rest` makes a constructor argument whose value
/// is what it says (`shorthand_says`), named by it unless it is an index
/// (`_` and digits), spanning the whole attribute, with no type and no
/// `<meta>`.
pub proof fn law_c_shorthand(a: XmlAttr, c: ConstructorArg, pre: Seq<char>, rest: Seq<char>)
    requires
        c_arg_ok(a, c),
        a.name@ == pre + seq![':'] + rest,
        forall|j: int| 0 <= j < pre.len() ==> pre[j] != ':',
    ensures
        c.name matches Some(n) ==> shorthand_says(a, rest, n.value@, c.value),
        c.index is Some <==> c.name is None,
        c.span == (ByteSpan { start: a.name_span.start, end: sat(a.value.span.end + 1) }),
        c.type_ref is None,
        c.meta@.len() == 0,
{
    lemma_shorthand_parts(a, pre, rest);
}

} // verus!
