//! XML namespace scoping: the `xmlns` / `xmlns:*` declarations in effect at
//! an element, and how a qualified name resolves against them. A
//! declaration applies to the element that carries it and to every
//! descendant, until a closer declaration overrides it.
use vstd::prelude::*;
use crate::events::{XmlAttr, XmlElement};
use crate::encoding::index_of_char;
use crate::text::str_eq;

verus! {

/// What a scope holds, as values: the default namespace, and every
/// prefix binding in the order declared (a later binding of the same
/// prefix wins).
pub type ScopeView = (Option<Seq<char>>, Seq<(Seq<char>, Seq<char>)>);

/// The namespace declarations in effect at some point in the tree.
#[derive(Debug)]
pub struct NsScope {
    pub default_ns: Option<String>,
    pub prefixes: Vec<(String, String)>,
}

pub open spec fn opt_view(o: Option<String>) -> Option<Seq<char>> {
    match o {
        Some(s) => Some(s@),
        None => None,
    }
}

pub open spec fn pair_view(p: (String, String)) -> (Seq<char>, Seq<char>) {
    (p.0@, p.1@)
}

impl View for NsScope {
    type V = ScopeView;

    open spec fn view(&self) -> ScopeView {
        (opt_view(self.default_ns), self.prefixes@.map_values(|p: (String, String)| pair_view(p)))
    }
}

impl Default for NsScope {
    fn default() -> (r: Self)
        ensures
            r@ == empty_scope(),
    {
        let r = NsScope { default_ns: None, prefixes: Vec::new() };
        assert(r@.1 =~= Seq::<(Seq<char>, Seq<char>)>::empty());
        r
    }
}

pub open spec fn empty_scope() -> ScopeView {
    (None, Seq::empty())
}

pub open spec fn xmlns_colon() -> Seq<char> {
    "xmlns:"@
}

/// `s` begins with `p`.
pub open spec fn starts_with(s: Seq<char>, p: Seq<char>) -> bool {
    p.len() <= s.len() && s.subrange(0, p.len() as int) == p
}

/// One attribute's effect on the scope: `xmlns` sets the default
/// namespace, `xmlns:p` binds the prefix `p`, anything else is no
/// declaration.
pub open spec fn overlay_attr(v: ScopeView, a: XmlAttr) -> ScopeView {
    if a.name@ == "xmlns"@ {
        (Some(a.value.value@), v.1)
    } else if starts_with(a.name@, xmlns_colon()) {
        (v.0, v.1.push((a.name@.subrange(xmlns_colon().len() as int, a.name@.len() as int), a.value.value@)))
    } else {
        v
    }
}

/// The scope after the declarations among `attrs`, in order.
pub open spec fn overlay(v: ScopeView, attrs: Seq<XmlAttr>) -> ScopeView
    decreases attrs.len(),
{
    if attrs.len() == 0 {
        v
    } else {
        overlay_attr(overlay(v, attrs.drop_last()), attrs.last())
    }
}

/// The scope in effect for an element's own name and its children.
pub open spec fn scope_for(parent: ScopeView, e: XmlElement) -> ScopeView {
    overlay(parent, e.attrs@)
}

/// The namespace a prefix is bound to: its latest binding.
pub open spec fn lookup_prefix(ps: Seq<(Seq<char>, Seq<char>)>, p: Seq<char>) -> Option<Seq<char>>
    decreases ps.len(),
{
    if ps.len() == 0 {
        None
    } else if ps.last().0 == p {
        Some(ps.last().1)
    } else {
        lookup_prefix(ps.drop_last(), p)
    }
}

/// Where the prefix of a qualified name ends: its first `:`.
pub open spec fn colon_at(name: Seq<char>) -> Option<int> {
    index_of_char(name, ':', 0)
}

pub open spec fn qname_prefix(name: Seq<char>) -> Option<Seq<char>> {
    match colon_at(name) {
        Some(k) => Some(name.subrange(0, k)),
        None => None,
    }
}

/// The local part of a qualified name.
pub open spec fn qname_local(name: Seq<char>) -> Seq<char> {
    match colon_at(name) {
        Some(k) => name.subrange(k + 1, name.len() as int),
        None => name,
    }
}

/// The namespace of a qualified name: the URI bound to its prefix, or the
/// prefix text itself when unbound; for an unprefixed name, the default
/// namespace, or empty when there is none.
pub open spec fn qname_ns(name: Seq<char>, v: ScopeView) -> Seq<char> {
    match qname_prefix(name) {
        Some(p) => match lookup_prefix(v.1, p) {
            Some(u) => u,
            None => p,
        },
        None => match v.0 {
            Some(d) => d,
            None => Seq::empty(),
        },
    }
}

pub open spec fn beans_uri() -> Seq<char> {
    "http://www.springframework.org/schema/beans"@
}

pub open spec fn context_uri() -> Seq<char> {
    "http://www.springframework.org/schema/context"@
}

pub open spec fn util_uri() -> Seq<char> {
    "http://www.springframework.org/schema/util"@
}

/// The beans namespace, or no namespace at all.
pub open spec fn in_beans_ns(ns: Seq<char>) -> bool {
    ns.len() == 0 || ns == beans_uri()
}

pub open spec fn in_context_ns(ns: Seq<char>) -> bool {
    ns == context_uri() || ns == "context"@
}

pub open spec fn in_util_ns(ns: Seq<char>) -> bool {
    ns == util_uri() || ns == "util"@
}

/// The first position of `c` in `s`.
pub fn find_char_in(s: &str, c: char) -> (r: Option<usize>)
    ensures
        r is None ==> index_of_char(s@, c, 0) is None,
        r matches Some(k) ==> index_of_char(s@, c, 0) == Some(k as int),
{
    let n = s.unicode_len();
    let mut i: usize = 0;
    while i < n
        invariant
            n == s@.len(),
            i <= n,
            index_of_char(s@, c, 0) == index_of_char(s@, c, i as int),
        decreases n - i,
    {
        if s.get_char(i) == c {
            return Some(i);
        }
        i += 1;
    }
    None
}

pub proof fn lemma_index_of_char_bounds(t: Seq<char>, c: char, i: int)
    ensures
        index_of_char(t, c, i) matches Some(k) ==> i <= k < t.len() && t[k] == c,
    decreases t.len() - i,
{
    if 0 <= i < t.len() && t[i] != c {
        lemma_index_of_char_bounds(t, c, i + 1);
    }
}

pub proof fn lemma_colon_bounds(s: Seq<char>)
    ensures
        colon_at(s) matches Some(k) ==> 0 <= k < s.len() && s[k] == ':',
{
    lemma_index_of_char_bounds(s, ':', 0);
}

/// `s` with the prefix `p` removed, when `s` begins with it.
pub fn strip_prefix_str(s: &str, p: &str) -> (r: Option<String>)
    ensures
        r is Some <==> starts_with(s@, p@),
        r matches Some(t) ==> t@ == s@.subrange(p@.len() as int, s@.len() as int),
{
    let n = s.unicode_len();
    let m = p.unicode_len();
    if m > n {
        return None;
    }
    let mut i: usize = 0;
    while i < m
        invariant
            n == s@.len(),
            m == p@.len(),
            m <= n,
            i <= m,
            forall|k: int| 0 <= k < i ==> s@[k] == p@[k],
        decreases m - i,
    {
        if s.get_char(i) != p.get_char(i) {
            assert(s@.subrange(0, m as int)[i as int] != p@[i as int]);
            return None;
        }
        i += 1;
    }
    assert(s@.subrange(0, m as int) =~= p@);
    Some(s.substring_char(m, n).to_owned())
}

/// Splits a qualified name at its first `:` into prefix and local part.
pub fn split_qname(name: &str) -> (r: (Option<String>, String))
    ensures
        opt_view(r.0) == qname_prefix(name@),
        r.1@ == qname_local(name@),
{
    proof { lemma_index_of_char_bounds(name@, ':', 0); }
    let n = name.unicode_len();
    match find_char_in(name, ':') {
        Some(k) => (Some(name.substring_char(0, k).to_owned()), name.substring_char(k + 1, n).to_owned()),
        None => (None, name.to_owned()),
    }
}

/// A copy of a string, equal to it.
pub fn copy_string(s: &String) -> (r: String)
    ensures
        r == *s,
        r@ == s@,
{
    s.clone()
}

impl NsScope {
    /// A copy of this scope.
    pub fn duplicate(&self) -> (r: NsScope)
        ensures
            r@ == self@,
    {
        let default_ns = match &self.default_ns {
            Some(d) => Some(copy_string(d)),
            None => None,
        };
        let mut prefixes: Vec<(String, String)> = Vec::new();
        let mut i: usize = 0;
        while i < self.prefixes.len()
            invariant
                i <= self.prefixes@.len(),
                prefixes@.map_values(|p: (String, String)| pair_view(p)) =~= self@.1.subrange(0, i as int),
            decreases self.prefixes@.len() - i,
        {
            let entry = (copy_string(&self.prefixes[i].0), copy_string(&self.prefixes[i].1));
            let ghost before = prefixes@;
            prefixes.push(entry);
            proof {
                assert(pair_view(entry) == pair_view(self.prefixes@[i as int]));
                assert(prefixes@ == before.push(entry));
                assert(self@.1.subrange(0, i + 1) =~= self@.1.subrange(0, i as int).push(pair_view(entry)));
            }
            i += 1;
            assert(prefixes@.map_values(|p: (String, String)| pair_view(p)) =~= self@.1.subrange(0, i as int));
        }
        let r = NsScope { default_ns, prefixes };
        assert(r@.1 =~= self@.1);
        r
    }

    /// The scope in effect for `element` and its children: `parent`'s
    /// (none for the document root), overlaid with the declarations
    /// `element` carries itself.
    pub fn from_element(element: &XmlElement, parent: Option<&NsScope>) -> (r: NsScope)
        ensures
            r@ == scope_for(
                match parent {
                    Some(p) => p@,
                    None => empty_scope(),
                },
                *element,
            ),
    {
        let ghost base = match parent {
            Some(p) => p@,
            None => empty_scope(),
        };
        let mut scope = match parent {
            Some(p) => p.duplicate(),
            None => NsScope::default(),
        };
        let attrs = &element.attrs;
        let mut i: usize = 0;
        while i < attrs.len()
            invariant
                i <= attrs@.len(),
                attrs@ == element.attrs@,
                scope@ == overlay(base, attrs@.subrange(0, i as int)),
            decreases attrs@.len() - i,
        {
            let a = &attrs[i];
            proof {
                assert(attrs@.subrange(0, i + 1).drop_last() =~= attrs@.subrange(0, i as int));
            }
            if str_eq(a.name.as_str(), "xmlns") {
                scope.default_ns = Some(copy_string(&a.value.value));
            } else {
                match strip_prefix_str(a.name.as_str(), "xmlns:") {
                    Some(prefix) => {
                        let ghost before = scope@;
                        scope.prefixes.push((prefix, copy_string(&a.value.value)));
                        assert(scope@.1 =~= before.1.push(
                            (a.name@.subrange(xmlns_colon().len() as int, a.name@.len() as int), a.value.value@),
                        ));
                    },
                    None => {},
                }
            }
            i += 1;
        }
        assert(attrs@.subrange(0, attrs@.len() as int) =~= attrs@);
        scope
    }

    /// The namespace bound to `prefix`, if any (its latest binding).
    pub fn lookup(&self, prefix: &str) -> (r: Option<String>)
        ensures
            opt_view(r) == lookup_prefix(self@.1, prefix@),
    {
        let mut i = self.prefixes.len();
        assert(self@.1.subrange(0, i as int) =~= self@.1);
        while i > 0
            invariant
                i <= self.prefixes@.len(),
                lookup_prefix(self@.1, prefix@) == lookup_prefix(self@.1.subrange(0, i as int), prefix@),
            decreases i,
        {
            proof {
                assert(self@.1.subrange(0, i as int).drop_last() =~= self@.1.subrange(0, i - 1));
            }
            if str_eq(self.prefixes[i - 1].0.as_str(), prefix) {
                return Some(copy_string(&self.prefixes[i - 1].1));
            }
            i -= 1;
        }
        None
    }
}

/// Resolves a qualified name against `scope` into (namespace, local
/// part); see `qname_ns` for what the namespace is.
pub fn resolve_qname(name: &str, scope: &NsScope) -> (r: (String, String))
    ensures
        r.0@ == qname_ns(name@, scope@),
        r.1@ == qname_local(name@),
{
    let (prefix, local) = split_qname(name);
    let ns = match prefix {
        Some(p) => match scope.lookup(p.as_str()) {
            Some(u) => u,
            None => p,
        },
        None => match &scope.default_ns {
            Some(d) => copy_string(d),
            None => String::new(),
        },
    };
    (ns, local)
}

/// The beans namespace, or none.
pub fn is_beans_ns(ns: &str) -> (r: bool)
    ensures
        r == in_beans_ns(ns@),
{
    ns.unicode_len() == 0 || str_eq(ns, "http://www.springframework.org/schema/beans")
}

pub fn is_context_ns(ns: &str) -> (r: bool)
    ensures
        r == in_context_ns(ns@),
{
    str_eq(ns, "http://www.springframework.org/schema/context") || str_eq(ns, "context")
}

pub fn is_util_ns(ns: &str) -> (r: bool)
    ensures
        r == in_util_ns(ns@),
{
    str_eq(ns, "http://www.springframework.org/schema/util") || str_eq(ns, "util")
}

/// The namespace and local part of `element`'s own name, resolved in the
/// scope its own declarations make.
pub open spec fn element_qname(parent: ScopeView, e: XmlElement) -> (Seq<char>, Seq<char>) {
    (qname_ns(e.name@, scope_for(parent, e)), qname_local(e.name@))
}

/// `element`'s name resolved in its own scope (`parent` overlaid with its
/// declarations).
pub fn element_qname_of(element: &XmlElement, parent: &NsScope) -> (r: (String, String))
    ensures
        (r.0@, r.1@) == element_qname(parent@, *element),
{
    let own = NsScope::from_element(element, Some(parent));
    resolve_qname(element.name.as_str(), &own)
}

} // verus!
