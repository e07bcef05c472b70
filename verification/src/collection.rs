//! Collections as values: `<list>`, `<set>`, `<array>`, `<map>` and
//! `<props>`, with their `value-type` / `key-type` / `merge` attributes.
//! Items and entry values are read like any value, one level deeper.
use vstd::prelude::*;
use crate::events::{XmlAttr, XmlElement, XmlNode};
use crate::inject_value::{budget, extends, lemma_extends_refl, lemma_extends_trans, parse_inject_value_child, value_adds, value_rel};
use crate::literal::{build_value_lit_from_segments, chosen, chosen_reported, conflict_reported, picked, lit_harvested, one_more, one_more_msg, opt_attr, push_diag, resolve_value};
use crate::model::{ByteSpan, Collection, DiagCode, Diagnostic, InjectValue, MapEntry, PropEntry, Spanned};
use crate::reading::{attr_named, attr_value, class_ref_from_attr, class_ref_spec, class_view, covering_span, element_text_segments, find_attr, find_bool_attr, flag_of, joined_text, merge_text_segments, spanned_or_empty, text_segments};
use crate::bean_children::{beans_child_named, is_beans_child};
use crate::scope::{qname_local, scope_for, split_qname, NsScope, ScopeView};
use crate::text::str_eq;
use crate::wellformed::{class_ref_ok, inject_ok, value_lit_ok};

verus! {

/// The items of a list-like collection: what each child element gives as
/// a value, in order, skipping those that give nothing.
pub open spec fn items_rel(sc: ScopeView, depth: int, children: Seq<XmlNode>, items: Seq<InjectValue>) -> bool
    decreases children, 0int,
{
    if children.len() == 0 {
        items.len() == 0
    } else {
        match children[children.len() - 1] {
            XmlNode::Text(_) => items_rel(sc, depth, children.drop_last(), items),
            XmlNode::Element(c) => if value_rel(sc, depth, c, None) {
                items_rel(sc, depth, children.drop_last(), items)
            } else {
                &&& items.len() > 0
                &&& value_rel(sc, depth, c, Some(items.last()))
                &&& items_rel(sc, depth, children.drop_last(), items.drop_last())
            },
        }
    }
}

/// The first child element that is not a beans `<skip>` element, read as
/// a value.
pub open spec fn first_value(sc: ScopeView, depth: int, children: Seq<XmlNode>, skip: Seq<char>, v: Option<InjectValue>) -> bool
    decreases children, 0int,
{
    if children.len() == 0 {
        v is None
    } else {
        match children[0] {
            XmlNode::Element(c) => if is_beans_child(sc, c, skip) {
                first_value(sc, depth, children.drop_first(), skip, v)
            } else {
                value_rel(sc, depth, c, v)
            },
            XmlNode::Text(_) => first_value(sc, depth, children.drop_first(), skip, v),
        }
    }
}

/// What reading the first child element that is not a beans `<skip>`
/// element as a value adds (see `first_value`).
pub open spec fn first_value_adds(
    sc: ScopeView,
    depth: int,
    children: Seq<XmlNode>,
    skip: Seq<char>,
    old: Seq<Diagnostic>,
    new: Seq<Diagnostic>,
) -> bool
    decreases children, 0int,
{
    if children.len() == 0 {
        new == old
    } else {
        match children[0] {
            XmlNode::Element(c) => if is_beans_child(sc, c, skip) {
                first_value_adds(sc, depth, children.drop_first(), skip, old, new)
            } else {
                value_adds(sc, depth, c, old, new)
            },
            XmlNode::Text(_) => first_value_adds(sc, depth, children.drop_first(), skip, old, new),
        }
    }
}

/// What reading the items of a list-like collection adds, child by child.
pub open spec fn items_adds(sc: ScopeView, depth: int, children: Seq<XmlNode>, old: Seq<Diagnostic>, new: Seq<Diagnostic>) -> bool
    decreases children, 0int,
{
    if children.len() == 0 {
        new == old
    } else {
        exists|mid: Seq<Diagnostic>|
            #[trigger] extends(old, mid) && items_adds(sc, depth, children.drop_last(), old, mid) && match children[children.len() - 1] {
                XmlNode::Element(c) => value_adds(sc, depth, c, mid, new),
                XmlNode::Text(_) => new == mid,
            }
    }
}

pub proof fn lemma_items_adds_step(
    sc: ScopeView,
    depth: int,
    ch: Seq<XmlNode>,
    old: Seq<Diagnostic>,
    mid: Seq<Diagnostic>,
    new: Seq<Diagnostic>,
)
    requires
        ch.len() > 0,
        extends(old, mid),
        items_adds(sc, depth, ch.drop_last(), old, mid),
        match ch[ch.len() - 1] {
            XmlNode::Element(c) => value_adds(sc, depth, c, mid, new),
            XmlNode::Text(_) => new == mid,
        },
    ensures
        items_adds(sc, depth, ch, old, new),
{
}

/// What reading the `<key>` and value children of a map entry adds, in
/// document order: each `<key>` is read (its first element) until one
/// gives a key, and the first other element is read as the value.
pub open spec fn entry_scan_adds(
    sc: ScopeView,
    depth: int,
    children: Seq<XmlNode>,
    key_done: bool,
    value_done: bool,
    old: Seq<Diagnostic>,
    new: Seq<Diagnostic>,
) -> bool
    decreases children, 0int,
{
    if children.len() == 0 {
        new == old
    } else {
        let rest = children.drop_first();
        match children[0] {
            XmlNode::Element(c) => if is_beans_child(sc, c, "key"@) {
                if !key_done && first_element_at(c.children@, 0) is Some {
                    proof {
                        lemma_first_element_at(c.children@, 0);
                    }
                    match c.children@[first_element_at(c.children@, 0)->0] {
                        XmlNode::Element(inner) => exists|mid: Seq<Diagnostic>|
                            #[trigger] extends(old, mid) && value_adds(scope_for(sc, c), depth, inner, old, mid) && entry_scan_adds(
                                sc,
                                depth,
                                rest,
                                !value_rel(scope_for(sc, c), depth, inner, None),
                                value_done,
                                mid,
                                new,
                            ),
                        XmlNode::Text(_) => entry_scan_adds(sc, depth, rest, key_done, value_done, old, new),
                    }
                } else {
                    entry_scan_adds(sc, depth, rest, key_done, value_done, old, new)
                }
            } else if !value_done {
                exists|mid: Seq<Diagnostic>|
                    #[trigger] extends(old, mid) && value_adds(sc, depth, c, old, mid) && entry_scan_adds(sc, depth, rest, key_done, true, mid, new)
            } else {
                entry_scan_adds(sc, depth, rest, key_done, value_done, old, new)
            },
            XmlNode::Text(_) => entry_scan_adds(sc, depth, rest, key_done, value_done, old, new),
        }
    }
}

/// What one map `<entry>` adds (see `entry_reported`): its attribute
/// conflicts, what its children add, then its empty references.
pub open spec fn entry_adds(sc: ScopeView, depth: int, e: XmlElement, old: Seq<Diagnostic>, new: Seq<Diagnostic>) -> bool
    decreases e, 3int,
{
    exists|d1: Seq<Diagnostic>, d2: Seq<Diagnostic>, d3: Seq<Diagnostic>, d4: Seq<Diagnostic>|
        #[trigger] entry_reported(e.attrs@, e.span, old, d1, d2, d3, d4, new) && entry_scan_adds(
            scope_for(sc, e),
            depth,
            e.children@,
            false,
            false,
            d2,
            d3,
        )
}

/// What reading the entries of a `<map>` adds, child by child.
pub open spec fn entries_adds(sc: ScopeView, depth: int, children: Seq<XmlNode>, old: Seq<Diagnostic>, new: Seq<Diagnostic>) -> bool
    decreases children, 0int,
{
    if children.len() == 0 {
        new == old
    } else {
        exists|mid: Seq<Diagnostic>|
            #[trigger] extends(old, mid) && entries_adds(sc, depth, children.drop_last(), old, mid) && match children[children.len() - 1] {
                XmlNode::Element(c) => if is_beans_child(sc, c, "entry"@) {
                    entry_adds(sc, depth, c, mid, new)
                } else {
                    new == mid
                },
                XmlNode::Text(_) => new == mid,
            }
    }
}

pub proof fn lemma_entries_adds_step(
    sc: ScopeView,
    depth: int,
    ch: Seq<XmlNode>,
    old: Seq<Diagnostic>,
    mid: Seq<Diagnostic>,
    new: Seq<Diagnostic>,
)
    requires
        ch.len() > 0,
        extends(old, mid),
        entries_adds(sc, depth, ch.drop_last(), old, mid),
        match ch[ch.len() - 1] {
            XmlNode::Element(c) => if is_beans_child(sc, c, "entry"@) {
                entry_adds(sc, depth, c, mid, new)
            } else {
                new == mid
            },
            XmlNode::Text(_) => new == mid,
        },
    ensures
        entries_adds(sc, depth, ch, old, new),
{
}

/// What reading a collection element adds: one `NestingLimitExceeded` at
/// the depth limit; else what its items or entries add one level deeper.
pub open spec fn collection_adds(sc: ScopeView, depth: int, e: XmlElement, old: Seq<Diagnostic>, new: Seq<Diagnostic>) -> bool
    decreases e, 1int,
{
    if depth >= crate::DEPTH_LIMIT {
        one_more_msg(old, new, DiagCode::NestingLimitExceeded, Some(e.span), "collection nesting exceeded 256 levels; subtree treated as opaque"@)
    } else {
        let own = scope_for(sc, e);
        let l = qname_local(e.name@);
        if l == "list"@ || l == "set"@ || l == "array"@ {
            items_adds(own, depth + 1, e.children@, old, new)
        } else if l == "map"@ {
            entries_adds(own, depth + 1, e.children@, old, new)
        } else {
            new == old
        }
    }
}

/// The first element among `children`, by position.
pub open spec fn first_element_at(children: Seq<XmlNode>, i: int) -> Option<int>
    decreases children.len() - i,
{
    if i < 0 || i >= children.len() {
        None
    } else if children[i] is Element {
        Some(i)
    } else {
        first_element_at(children, i + 1)
    }
}

pub proof fn lemma_first_element_at(children: Seq<XmlNode>, i: int)
    ensures
        first_element_at(children, i) matches Some(k) ==> i <= k < children.len() && children[k] is Element,
    decreases children.len() - i,
{
    if 0 <= i < children.len() && !(children[i] is Element) {
        lemma_first_element_at(children, i + 1);
    }
}

/// The key of a map entry given by its `<key>` children: the value of the
/// first element inside the first `<key>` that gives one.
pub open spec fn key_scan(sc: ScopeView, depth: int, children: Seq<XmlNode>, k: Option<InjectValue>) -> bool
    decreases children, 0int,
{
    if children.len() == 0 {
        k is None
    } else {
        match children[0] {
            XmlNode::Element(c) => if is_beans_child(sc, c, "key"@) && first_element_at(c.children@, 0) is Some {
                proof {
                    lemma_first_element_at(c.children@, 0);
                }
                match c.children@[first_element_at(c.children@, 0)->0] {
                    XmlNode::Element(inner) => if value_rel(scope_for(sc, c), depth, inner, None) {
                        key_scan(sc, depth, children.drop_first(), k)
                    } else {
                        k is Some && value_rel(scope_for(sc, c), depth, inner, k)
                    },
                    XmlNode::Text(_) => key_scan(sc, depth, children.drop_first(), k),
                }
            } else {
                key_scan(sc, depth, children.drop_first(), k)
            },
            XmlNode::Text(_) => key_scan(sc, depth, children.drop_first(), k),
        }
    }
}

/// What reading an `<entry>`'s attributes reports, around what its
/// children report (`d2` to `d3`): a `key=`/`key-ref=` conflict, a
/// `value=`/`value-ref=` conflict, then an empty reference chosen for the
/// key and for the value.
pub open spec fn entry_reported(
    a: Seq<XmlAttr>,
    span: ByteSpan,
    old: Seq<Diagnostic>,
    d1: Seq<Diagnostic>,
    d2: Seq<Diagnostic>,
    d3: Seq<Diagnostic>,
    d4: Seq<Diagnostic>,
    new: Seq<Diagnostic>,
) -> bool {
    &&& conflict_reported(attr_named(a, "key"@), attr_named(a, "key-ref"@), span, "<entry> specifies both key= and key-ref="@, old, d1)
    &&& conflict_reported(attr_named(a, "value"@), attr_named(a, "value-ref"@), span, "<entry> specifies both value= and value-ref="@, d1, d2)
    &&& extends(d2, d3)
    &&& chosen_reported(attr_named(a, "key"@), attr_named(a, "key-ref"@), d3, d4)
    &&& chosen_reported(attr_named(a, "value"@), attr_named(a, "value-ref"@), d4, new)
}

/// One map `<entry>` at nesting `depth`: its key and value each chosen by
/// attribute first (`key=` / `value=`, then `key-ref=` / `value-ref=`),
/// then by child element, else `Null`.
pub open spec fn entry_rel(sc: ScopeView, depth: int, e: XmlElement, m: MapEntry) -> bool
    decreases e, 3int,
{
    let own = scope_for(sc, e);
    let a = e.attrs@;
    &&& m.span == e.span
    &&& class_view(m.value_type) == class_ref_spec(attr_value(a, "value-type"@))
    &&& picked(
        attr_named(a, "key"@),
        attr_named(a, "key-ref"@),
        e.span,
        m.key,
        key_scan(own, depth, e.children@, Some(m.key)),
        key_scan(own, depth, e.children@, None),
    )
    &&& picked(
        attr_named(a, "value"@),
        attr_named(a, "value-ref"@),
        e.span,
        m.value,
        first_value(own, depth, e.children@, "key"@, Some(m.value)),
        first_value(own, depth, e.children@, "key"@, None),
    )
}

/// The entries of a `<map>`: one per beans `<entry>` child, in order.
pub open spec fn entries_rel(sc: ScopeView, depth: int, children: Seq<XmlNode>, entries: Seq<MapEntry>) -> bool
    decreases children, 0int,
{
    if children.len() == 0 {
        entries.len() == 0
    } else {
        match children[children.len() - 1] {
            XmlNode::Element(c) => if is_beans_child(sc, c, "entry"@) {
                &&& entries.len() > 0
                &&& entry_rel(sc, depth, c, entries.last())
                &&& entries_rel(sc, depth, children.drop_last(), entries.drop_last())
            } else {
                entries_rel(sc, depth, children.drop_last(), entries)
            },
            XmlNode::Text(_) => entries_rel(sc, depth, children.drop_last(), entries),
        }
    }
}

/// One `<prop key=..>text</prop>`; a missing key is an empty one.
pub open spec fn prop_entry_ok(e: XmlElement, p: PropEntry) -> bool {
    &&& p.span == e.span
    &&& match attr_value(e.attrs@, "key"@) {
        Some(v) => p.key == v,
        None => p.key.value@ == Seq::<char>::empty() && p.key.span == e.span,
    }
    &&& p.value.span == e.span
    &&& p.value.text.value@ == joined_text(text_segments(e.children@))
    &&& p.value.text.span == (match covering_span(text_segments(e.children@)) {
        Some(s) => s,
        None => e.span,
    })
    &&& p.value.value_type is None
    &&& lit_harvested(p.value, text_segments(e.children@))
}

/// The entries of a `<props>`: one per beans `<prop>` child, in order.
pub open spec fn props_rel(sc: ScopeView, children: Seq<XmlNode>, entries: Seq<PropEntry>) -> bool
    decreases children.len(),
{
    if children.len() == 0 {
        entries.len() == 0
    } else {
        match children.last() {
            XmlNode::Element(c) => if is_beans_child(sc, c, "prop"@) {
                entries.len() > 0 && prop_entry_ok(c, entries.last()) && props_rel(sc, children.drop_last(), entries.drop_last())
            } else {
                props_rel(sc, children.drop_last(), entries)
            },
            XmlNode::Text(_) => props_rel(sc, children.drop_last(), entries),
        }
    }
}

/// A collection element `e` (whose parent's scope is `sc`) read at
/// nesting `depth`: at the depth limit `Null`; otherwise by its local
/// name, with its attributes, and its items or entries one level deeper;
/// any other name is `Null`.
pub open spec fn collection_rel(sc: ScopeView, depth: int, e: XmlElement, v: InjectValue) -> bool
    decreases e, 1int,
{
    if depth >= crate::DEPTH_LIMIT {
        v == InjectValue::Null(e.span)
    } else {
        let own = scope_for(sc, e);
        let l = qname_local(e.name@);
        let vt = class_ref_spec(attr_value(e.attrs@, "value-type"@));
        let mg = flag_of(attr_value(e.attrs@, "merge"@));
        if l == "list"@ {
            v matches InjectValue::Collection(c) && c.span == e.span && (c.value matches Collection::List {
                items,
                value_type,
                merge,
            } && class_view(value_type) == vt && merge == mg && items_rel(own, depth + 1, e.children@, items@))
        } else if l == "set"@ {
            v matches InjectValue::Collection(c) && c.span == e.span && (c.value matches Collection::Set_ {
                items,
                value_type,
                merge,
            } && class_view(value_type) == vt && merge == mg && items_rel(own, depth + 1, e.children@, items@))
        } else if l == "array"@ {
            v matches InjectValue::Collection(c) && c.span == e.span && (c.value matches Collection::Array {
                items,
                value_type,
                merge,
            } && class_view(value_type) == vt && merge == mg && items_rel(own, depth + 1, e.children@, items@))
        } else if l == "map"@ {
            v matches InjectValue::Collection(c) && c.span == e.span && (c.value matches Collection::Map_ {
                entries,
                key_type,
                value_type,
                merge,
            } && class_view(key_type) == class_ref_spec(attr_value(e.attrs@, "key-type"@)) && class_view(value_type)
                == vt && merge == mg && entries_rel(own, depth + 1, e.children@, entries@))
        } else if l == "props"@ {
            v matches InjectValue::Collection(c) && c.span == e.span && (c.value matches Collection::Props {
                entries,
                merge,
            } && merge == mg && props_rel(own, e.children@, entries@))
        } else {
            v == InjectValue::Null(e.span)
        }
    }
}

pub fn parse_prop_entry(element: &XmlElement) -> (r: PropEntry)
    ensures
        prop_entry_ok(*element, r),
        value_lit_ok(r.value),
{
    let key = spanned_or_empty(&element.attrs, "key", element.span);
    let segments = element_text_segments(element);
    let text = merge_text_segments(&segments, element.span);
    let value = build_value_lit_from_segments(&segments, text, element.span, None);
    PropEntry { span: element.span, key, value }
}

/// The `<props>` entries (see `props_rel`); `scope` is its own scope.
fn parse_props_entries(own: &NsScope, element: &XmlElement) -> (r: Vec<PropEntry>)
    ensures
        props_rel(own@, element.children@, r@),
        forall|i: int| 0 <= i < r@.len() ==> value_lit_ok(#[trigger] r@[i].value),
{
    let mut entries: Vec<PropEntry> = Vec::new();
    let mut i: usize = 0;
    while i < element.children.len()
        invariant
            i <= element.children@.len(),
            props_rel(own@, element.children@.subrange(0, i as int), entries@),
            forall|j: int| 0 <= j < entries@.len() ==> value_lit_ok(#[trigger] entries@[j].value),
        decreases element.children@.len() - i,
    {
        proof {
            assert(element.children@.subrange(0, i + 1).drop_last() =~= element.children@.subrange(0, i as int));
        }
        let ghost before = entries@;
        if let XmlNode::Element(c) = &element.children[i] {
            if beans_child_named(own, c, "prop") {
                entries.push(parse_prop_entry(c));
                proof {
                    assert(entries@.drop_last() =~= before);
                }
            }
        }
        i += 1;
    }
    proof {
        assert(element.children@.subrange(0, element.children@.len() as int) =~= element.children@);
    }
    entries
}

/// The items of a list-like collection (see `items_rel`); `own` is the
/// collection's own scope and `depth` the items' nesting.
fn parse_items(own: &NsScope, diagnostics: &mut Vec<Diagnostic>, depth: u32, element: &XmlElement) -> (r: Vec<InjectValue>)
    requires
        1 <= depth <= crate::DEPTH_LIMIT,
    ensures
        items_rel(own@, depth as int, element.children@, r@),
        forall|i: int| 0 <= i < r@.len() ==> inject_ok(#[trigger] r@[i]),
        extends(old(diagnostics)@, final(diagnostics)@),
        items_adds(own@, depth as int, element.children@, old(diagnostics)@, final(diagnostics)@),
    decreases budget(depth as int - 1), 1int,
{
    let mut items: Vec<InjectValue> = Vec::new();
    let mut i: usize = 0;
    proof { lemma_extends_refl(diagnostics@); }
    while i < element.children.len()
        invariant
            1 <= depth <= crate::DEPTH_LIMIT,
            i <= element.children@.len(),
            items_rel(own@, depth as int, element.children@.subrange(0, i as int), items@),
            forall|j: int| 0 <= j < items@.len() ==> inject_ok(#[trigger] items@[j]),
            extends(old(diagnostics)@, diagnostics@),
            items_adds(own@, depth as int, element.children@.subrange(0, i as int), old(diagnostics)@, diagnostics@),
        decreases element.children@.len() - i,
    {
        proof {
            assert(element.children@.subrange(0, i + 1).drop_last() =~= element.children@.subrange(0, i as int));
            assert(element.children@.subrange(0, i + 1)[i as int] == element.children@[i as int]);
        }
        let ghost before = items@;
        let ghost d0 = diagnostics@;
        if let XmlNode::Element(c) = &element.children[i] {
            match parse_inject_value_child(own, diagnostics, depth, c) {
                Some(v) => {
                    items.push(v);
                    proof {
                        crate::inject_value::lemma_value_rel_exclusive(own@, depth as int, *c, v);
                        assert(items@.drop_last() =~= before);
                    }
                },
                None => {},
            }
            proof { lemma_extends_trans(old(diagnostics)@, d0, diagnostics@); }
        }
        proof {
            lemma_items_adds_step(own@, depth as int, element.children@.subrange(0, i + 1), old(diagnostics)@, d0, diagnostics@);
        }
        i += 1;
    }
    proof {
        assert(element.children@.subrange(0, element.children@.len() as int) =~= element.children@);
    }
    items
}

/// Reads the `<key>` and value children of a map entry; `own` is the
/// entry's own scope.
fn scan_entry_children(own: &NsScope, diagnostics: &mut Vec<Diagnostic>, depth: u32, element: &XmlElement) -> (r: (
    Option<InjectValue>,
    Option<InjectValue>,
))
    ensures
        key_scan(own@, depth as int, element.children@, r.0),
        first_value(own@, depth as int, element.children@, "key"@, r.1),
        r.0 matches Some(v) ==> inject_ok(v),
        r.1 matches Some(v) ==> inject_ok(v),
        extends(old(diagnostics)@, final(diagnostics)@),
        entry_scan_adds(own@, depth as int, element.children@, false, false, old(diagnostics)@, final(diagnostics)@),
    decreases budget(depth as int), 4int,
{
    let ghost ch = element.children@;
    let n = element.children.len();
    let mut key_child: Option<InjectValue> = None;
    let mut value_child: Option<InjectValue> = None;
    let mut seen_value = false;
    let mut i: usize = 0;
    proof {
        lemma_extends_refl(diagnostics@);
        assert(ch.subrange(0, n as int) =~= ch);
    }
    while i < n
        invariant
            ch == element.children@,
            n == ch.len(),
            i <= n,
            key_child is Some ==> key_scan(own@, depth as int, ch, key_child),
            key_child is None ==> forall|k: Option<InjectValue>|
                key_scan(own@, depth as int, ch, k) <==> #[trigger] key_scan(own@, depth as int, ch.subrange(i as int, n as int), k),
            seen_value ==> first_value(own@, depth as int, ch, "key"@, value_child),
            !seen_value ==> value_child is None && forall|v: Option<InjectValue>|
                first_value(own@, depth as int, ch, "key"@, v) <==> #[trigger] first_value(own@, depth as int, ch.subrange(i as int, n as int), "key"@, v),
            key_child matches Some(v) ==> inject_ok(v),
            value_child matches Some(v) ==> inject_ok(v),
            extends(old(diagnostics)@, diagnostics@),
            forall|nw: Seq<Diagnostic>|
                entry_scan_adds(own@, depth as int, ch.subrange(i as int, n as int), key_child is Some, seen_value, diagnostics@, nw)
                    ==> #[trigger] entry_scan_adds(own@, depth as int, ch, false, false, old(diagnostics)@, nw),
        decreases n - i,
    {
        let ghost kd0 = key_child is Some;
        let ghost vd0 = seen_value;
        let ghost rest = ch.subrange(i as int, n as int);
        let ghost next = ch.subrange(i + 1, n as int);
        proof {
            assert(rest[0] == ch[i as int]);
            assert(rest.drop_first() =~= next);
        }
        let ghost d0 = diagnostics@;
        match &element.children[i] {
            XmlNode::Element(c) => {
                if beans_child_named(own, c, "key") {
                    proof {
                        assert forall|v: Option<InjectValue>| first_value(own@, depth as int, rest, "key"@, v) == #[trigger] first_value(own@, depth as int, next, "key"@, v) by {}
                    }
                    if key_child.is_none() {
                        let key_scope = NsScope::from_element(c, Some(own));
                        let mut k: usize = 0;
                        while k < c.children.len()
                            invariant
                                k <= c.children@.len(),
                                first_element_at(c.children@, 0) == first_element_at(c.children@, k as int),
                            ensures
                                k <= c.children@.len(),
                                first_element_at(c.children@, 0) == first_element_at(c.children@, k as int),
                                k < c.children@.len() ==> c.children@[k as int] is Element,
                            decreases c.children@.len() - k,
                        {
                            if let XmlNode::Element(_) = &c.children[k] {
                                break;
                            }
                            k += 1;
                        }
                        if k < c.children.len() {
                            if let XmlNode::Element(inner) = &c.children[k] {
                                proof {
                                    assert(first_element_at(c.children@, k as int) == Some(k as int));
                                }
                                let kv = parse_inject_value_child(&key_scope, diagnostics, depth, inner);
                                proof {
                                    lemma_extends_trans(old(diagnostics)@, d0, diagnostics@);
                                    if kv is Some {
                                        crate::inject_value::lemma_value_rel_exclusive(key_scope@, depth as int, *inner, kv->0);
                                        assert(key_scan(own@, depth as int, rest, kv));
                                    } else {
                                        assert forall|kk: Option<InjectValue>| key_scan(own@, depth as int, rest, kk) == #[trigger] key_scan(own@, depth as int, next, kk) by {}
                                    }
                                }
                                key_child = kv;
                            }
                        } else {
                            proof {
                                assert(first_element_at(c.children@, k as int) is None);
                                assert forall|kk: Option<InjectValue>| key_scan(own@, depth as int, rest, kk) == #[trigger] key_scan(own@, depth as int, next, kk) by {}
                            }
                        }
                    }
                } else {
                    proof {
                        assert forall|kk: Option<InjectValue>| key_scan(own@, depth as int, rest, kk) == #[trigger] key_scan(own@, depth as int, next, kk) by {}
                    }
                    if !seen_value {
                        seen_value = true;
                        value_child = parse_inject_value_child(own, diagnostics, depth, c);
                        proof {
                            lemma_extends_trans(old(diagnostics)@, d0, diagnostics@);
                            assert(first_value(own@, depth as int, rest, "key"@, value_child));
                        }
                    }
                }
            },
            XmlNode::Text(_) => {
                proof {
                    assert forall|kk: Option<InjectValue>| key_scan(own@, depth as int, rest, kk) == #[trigger] key_scan(own@, depth as int, next, kk) by {}
                    assert forall|v: Option<InjectValue>| first_value(own@, depth as int, rest, "key"@, v) == #[trigger] first_value(own@, depth as int, next, "key"@, v) by {}
                }
            },
        }
        proof {
            assert(extends(d0, diagnostics@)) by { lemma_extends_refl(d0); assert(diagnostics@.subrange(0, d0.len() as int) =~= d0); }
            assert forall|nw: Seq<Diagnostic>|
                entry_scan_adds(own@, depth as int, next, key_child is Some, seen_value, diagnostics@, nw) implies #[trigger] entry_scan_adds(
                own@,
                depth as int,
                ch,
                false,
                false,
                old(diagnostics)@,
                nw,
            ) by {
                assert(entry_scan_adds(own@, depth as int, rest, kd0, vd0, d0, nw));
            }
        }
        i += 1;
    }
    proof {
        let e: Seq<XmlNode> = ch.subrange(n as int, n as int);
        assert(e.len() == 0);
        assert(entry_scan_adds(own@, depth as int, e, key_child is Some, seen_value, diagnostics@, diagnostics@));
        if key_child is None {
            assert(key_scan(own@, depth as int, e, key_child));
        }
        if !seen_value {
            assert(first_value(own@, depth as int, e, "key"@, value_child));
        }
    }
    (key_child, value_child)
}

/// One map `<entry>` (see `entry_rel`); `scope` is the map's own scope.
/// Both `key=` and `key-ref=`, or both `value=` and `value-ref=`, are
/// reported (`ConflictingValueAndRef`).
pub fn parse_map_entry(scope: &NsScope, diagnostics: &mut Vec<Diagnostic>, depth: u32, element: &XmlElement) -> (r: MapEntry)
    ensures
        entry_rel(scope@, depth as int, *element, r),
        inject_ok(r.key),
        inject_ok(r.value),
        class_ref_ok(r.value_type),
        extends(old(diagnostics)@, final(diagnostics)@),
        exists|d1: Seq<Diagnostic>, d2: Seq<Diagnostic>, d3: Seq<Diagnostic>, d4: Seq<Diagnostic>|
            #[trigger] entry_reported(element.attrs@, element.span, old(diagnostics)@, d1, d2, d3, d4, final(diagnostics)@),
        entry_adds(scope@, depth as int, *element, old(diagnostics)@, final(diagnostics)@),
    decreases budget(depth as int), 5int,
{
    let own = NsScope::from_element(element, Some(scope));
    let attrs = &element.attrs;
    let key_i = find_attr(attrs, "key");
    let key_ref_i = find_attr(attrs, "key-ref");
    let ghost d0 = diagnostics@;
    if key_i.is_some() && key_ref_i.is_some() {
        push_diag(diagnostics, DiagCode::ConflictingValueAndRef, Some(element.span), "<entry> specifies both key= and key-ref=".to_owned());
    }
    let value_i = find_attr(attrs, "value");
    let value_ref_i = find_attr(attrs, "value-ref");
    let ghost d1 = diagnostics@;
    if value_i.is_some() && value_ref_i.is_some() {
        push_diag(diagnostics, DiagCode::ConflictingValueAndRef, Some(element.span), "<entry> specifies both value= and value-ref=".to_owned());
    }
    let value_type = class_ref_from_attr(attrs, "value-type");
    let ghost d2 = diagnostics@;
    let (key_child, value_child) = scan_entry_children(&own, diagnostics, depth, element);
    let ghost kc = key_child;
    let ghost vc = value_child;
    let ghost d3 = diagnostics@;
    let key = resolve_value(attrs, key_i, key_ref_i, key_child, element.span, diagnostics);
    let ghost d4 = diagnostics@;
    let value = resolve_value(attrs, value_i, value_ref_i, value_child, element.span, diagnostics);
    proof {
        assert(extends(d0, d1)) by { assert(d1.subrange(0, d0.len() as int) =~= d0); }
        assert(extends(d1, d2)) by { assert(d2.subrange(0, d1.len() as int) =~= d1); }
        assert(extends(d3, d4)) by { assert(d4.subrange(0, d3.len() as int) =~= d3); }
        assert(extends(d4, diagnostics@)) by { assert(diagnostics@.subrange(0, d4.len() as int) =~= d4); }
        lemma_extends_trans(d0, d1, d2);
        lemma_extends_trans(d0, d2, d3);
        lemma_extends_trans(d0, d3, d4);
        lemma_extends_trans(d0, d4, diagnostics@);
        assert(opt_attr(attrs@, key_i) == attr_named(attrs@, "key"@));
        assert(opt_attr(attrs@, key_ref_i) == attr_named(attrs@, "key-ref"@));
        assert(opt_attr(attrs@, value_i) == attr_named(attrs@, "value"@));
        assert(opt_attr(attrs@, value_ref_i) == attr_named(attrs@, "value-ref"@));
        assert(key_scan(own@, depth as int, element.children@, kc));
        assert(first_value(own@, depth as int, element.children@, "key"@, vc));
        assert(chosen(attr_named(attrs@, "key"@), attr_named(attrs@, "key-ref"@), kc, element.span, key));
        assert(chosen(attr_named(attrs@, "value"@), attr_named(attrs@, "value-ref"@), vc, element.span, value));
        if kc is Some {
            assert(key_scan(own@, depth as int, element.children@, kc));
        }
        if vc is Some {
            assert(first_value(own@, depth as int, element.children@, "key"@, vc));
        }
        if key_i.is_some() && key_ref_i.is_some() {
            assert(d1.drop_last() =~= d0);
        }
        if value_i.is_some() && value_ref_i.is_some() {
            assert(d2.drop_last() =~= d1);
        }
        assert(conflict_reported(attr_named(attrs@, "key"@), attr_named(attrs@, "key-ref"@), element.span, "<entry> specifies both key= and key-ref="@, d0, d1));
        assert(conflict_reported(attr_named(attrs@, "value"@), attr_named(attrs@, "value-ref"@), element.span, "<entry> specifies both value= and value-ref="@, d1, d2));
        assert(extends(d2, d3));
        assert(entry_reported(attrs@, element.span, d0, d1, d2, d3, d4, diagnostics@));
    }
    MapEntry { span: element.span, key, value, value_type }
}

/// The entries of a `<map>` (see `entries_rel`); `own` is the map's own
/// scope and `depth` the entries' nesting.
fn parse_entries(own: &NsScope, diagnostics: &mut Vec<Diagnostic>, depth: u32, element: &XmlElement) -> (r: Vec<MapEntry>)
    requires
        1 <= depth <= crate::DEPTH_LIMIT,
    ensures
        entries_rel(own@, depth as int, element.children@, r@),
        forall|i: int| 0 <= i < r@.len() ==> {
            &&& inject_ok(#[trigger] r@[i].key)
            &&& inject_ok(r@[i].value)
            &&& class_ref_ok(r@[i].value_type)
        },
        extends(old(diagnostics)@, final(diagnostics)@),
        entries_adds(own@, depth as int, element.children@, old(diagnostics)@, final(diagnostics)@),
    decreases budget(depth as int - 1), 1int,
{
    let mut entries: Vec<MapEntry> = Vec::new();
    let mut i: usize = 0;
    proof { lemma_extends_refl(diagnostics@); }
    while i < element.children.len()
        invariant
            1 <= depth <= crate::DEPTH_LIMIT,
            i <= element.children@.len(),
            entries_rel(own@, depth as int, element.children@.subrange(0, i as int), entries@),
            forall|j: int| 0 <= j < entries@.len() ==> {
                &&& inject_ok(#[trigger] entries@[j].key)
                &&& inject_ok(entries@[j].value)
                &&& class_ref_ok(entries@[j].value_type)
            },
            extends(old(diagnostics)@, diagnostics@),
            entries_adds(own@, depth as int, element.children@.subrange(0, i as int), old(diagnostics)@, diagnostics@),
        decreases element.children@.len() - i,
    {
        proof {
            assert(element.children@.subrange(0, i + 1).drop_last() =~= element.children@.subrange(0, i as int));
            assert(element.children@.subrange(0, i + 1)[i as int] == element.children@[i as int]);
        }
        let ghost before = entries@;
        let ghost d0 = diagnostics@;
        if let XmlNode::Element(c) = &element.children[i] {
            if beans_child_named(own, c, "entry") {
                let e = parse_map_entry(own, diagnostics, depth, c);
                entries.push(e);
                proof {
                    assert(entries@.drop_last() =~= before);
                    lemma_extends_trans(old(diagnostics)@, d0, diagnostics@);
                }
            }
        }
        proof {
            lemma_entries_adds_step(own@, depth as int, element.children@.subrange(0, i + 1), old(diagnostics)@, d0, diagnostics@);
        }
        i += 1;
    }
    proof {
        assert(element.children@.subrange(0, element.children@.len() as int) =~= element.children@);
    }
    entries
}

/// Reads a collection element (see `collection_rel`); `scope` is the
/// scope of its parent. At the depth limit the collection is `Null` and a
/// `NestingLimitExceeded` is reported.
pub fn parse_collection_value(scope: &NsScope, diagnostics: &mut Vec<Diagnostic>, depth: u32, element: &XmlElement) -> (r:
    InjectValue)
    ensures
        collection_rel(scope@, depth as int, *element, r),
        inject_ok(r),
        extends(old(diagnostics)@, final(diagnostics)@),
        depth >= crate::DEPTH_LIMIT ==> one_more(
            old(diagnostics)@,
            final(diagnostics)@,
            DiagCode::NestingLimitExceeded,
            Some(element.span),
        ),
        collection_adds(scope@, depth as int, *element, old(diagnostics)@, final(diagnostics)@),
    decreases budget(depth as int), 2int,
{
    if depth >= crate::DEPTH_LIMIT {
        push_diag(
            diagnostics,
            DiagCode::NestingLimitExceeded,
            Some(element.span),
            "collection nesting exceeded 256 levels; subtree treated as opaque".to_owned(),
        );
        proof { assert(final(diagnostics)@.subrange(0, old(diagnostics)@.len() as int) =~= old(diagnostics)@); }
        return InjectValue::Null(element.span);
    }
    let own = NsScope::from_element(element, Some(scope));
    let (_, local) = split_qname(element.name.as_str());
    let l = local.as_str();
    let value_type = class_ref_from_attr(&element.attrs, "value-type");
    let merge = find_bool_attr(&element.attrs, "merge");
    if str_eq(l, "list") {
        let items = parse_items(&own, diagnostics, depth + 1, element);
        return InjectValue::Collection(Spanned { value: Collection::List { items, value_type, merge }, span: element.span });
    }
    if str_eq(l, "set") {
        let items = parse_items(&own, diagnostics, depth + 1, element);
        return InjectValue::Collection(Spanned { value: Collection::Set_ { items, value_type, merge }, span: element.span });
    }
    if str_eq(l, "array") {
        let items = parse_items(&own, diagnostics, depth + 1, element);
        return InjectValue::Collection(Spanned { value: Collection::Array { items, value_type, merge }, span: element.span });
    }
    if str_eq(l, "map") {
        let key_type = class_ref_from_attr(&element.attrs, "key-type");
        let entries = parse_entries(&own, diagnostics, depth + 1, element);
        return InjectValue::Collection(
            Spanned { value: Collection::Map_ { entries, key_type, value_type, merge }, span: element.span },
        );
    }
    proof { lemma_extends_refl(diagnostics@); }
    if str_eq(l, "props") {
        let entries = parse_props_entries(&own, element);
        return InjectValue::Collection(Spanned { value: Collection::Props { entries, merge }, span: element.span });
    }
    InjectValue::Null(element.span)
}

} // verus!
