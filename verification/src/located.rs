//! What a parsed block reads verbatim from attributes is located: it lies
//! in the text and is exactly the text at its span.
use vstd::prelude::*;
use crate::bean::{bean_rel, ctx_of};
use crate::dispatch::{beans_ok, body_lists_ok, body_rel, header_ok, nested_ok, root_kind};
use crate::events::{element_grounded, lemma_element_node_grounded, node_grounded, nodes_grounded, XmlElement, XmlNode};
use crate::model::{Bean, BeanRef, BeansFile, ByteSpan, ClassRef, Spanned};
use crate::reading::{attr_index_from, attr_named, attr_value, lemma_attr_index_bounds};
use crate::scope::ScopeView;
use crate::text::{span_sliceable, text_of};

verus! {

/// `value` is exactly the text of `src` at `span`.
pub open spec fn located(src: Seq<u8>, value: Seq<char>, span: ByteSpan) -> bool {
    &&& span_sliceable(src, span)
    &&& value == text_of(src, span.start as int, span.end as int)
}

pub open spec fn text_located(src: Seq<u8>, s: Option<Spanned<String>>) -> bool {
    s matches Some(x) ==> located(src, x.value@, x.span)
}

pub open spec fn class_located(src: Seq<u8>, c: Option<Spanned<ClassRef>>) -> bool {
    c matches Some(x) ==> located(src, x.value.raw@, x.span)
}

pub open spec fn ref_located(src: Seq<u8>, r: Option<Spanned<BeanRef>>) -> bool {
    r matches Some(x) ==> located(src, x.value.raw@, x.span)
}

/// A bean's extent lies in the text, and what it reads verbatim from its
/// attributes (`id`, `class`, `parent`, `factory-bean`, `factory-method`,
/// `autowire`, `init-method`, `destroy-method`) is the text at its span.
pub open spec fn bean_located(src: Seq<u8>, b: Bean) -> bool {
    &&& b.span.start <= b.span.end <= src.len()
    &&& text_located(src, b.id)
    &&& class_located(src, b.class)
    &&& ref_located(src, b.parent)
    &&& ref_located(src, b.factory_bean)
    &&& text_located(src, b.factory_method)
    &&& text_located(src, b.autowire)
    &&& text_located(src, b.init_method)
    &&& text_located(src, b.destroy_method)
}

/// A block's extent lies in the text, its verbatim header attributes are
/// located, and so is every bean of it and, at any depth, of its nested
/// blocks.
pub open spec fn block_located(src: Seq<u8>, f: BeansFile) -> bool
    decreases f,
{
    &&& f.span.start <= f.span.end <= src.len()
    &&& text_located(src, f.profile)
    &&& text_located(src, f.default_autowire)
    &&& text_located(src, f.default_init_method)
    &&& text_located(src, f.default_destroy_method)
    &&& text_located(src, f.default_autowire_candidates)
    &&& forall|i: int| 0 <= i < f.beans@.len() ==> bean_located(src, #[trigger] f.beans@[i])
    &&& forall|j: int|
        0 <= j < f.nested_profiles@.len() ==> block_located(src, #[trigger] f.nested_profiles@[j])
}

pub proof fn lemma_attr_located(src: Seq<u8>, e: XmlElement, name: Seq<char>)
    requires
        element_grounded(src, e),
    ensures
        text_located(src, attr_value(e.attrs@, name)),
        attr_named(e.attrs@, name) matches Some(a) ==> located(src, a.value.value@, a.value.span),
{
    lemma_attr_index_bounds(e.attrs@, name, 0);
    if let Some(k) = attr_index_from(e.attrs@, name, 0) {
        assert(crate::events::attr_grounded(src, e.attrs@[k]));
    }
}

pub proof fn lemma_bean_located(src: Seq<u8>, sc: ScopeView, depth: int, e: XmlElement, b: Bean)
    requires
        element_grounded(src, e),
        bean_rel(sc, depth, e, b),
    ensures
        bean_located(src, b),
{
    let c = ctx_of(b);
    assert(crate::bean_attrs::core_attrs_ok(e, c));
    lemma_attr_located(src, e, "id"@);
    lemma_attr_located(src, e, "class"@);
    lemma_attr_located(src, e, "parent"@);
    lemma_attr_located(src, e, "factory-bean"@);
    lemma_attr_located(src, e, "factory-method"@);
    lemma_attr_located(src, e, "autowire"@);
    lemma_attr_located(src, e, "init-method"@);
    lemma_attr_located(src, e, "destroy-method"@);
}

proof fn lemma_beans_located(src: Seq<u8>, sc: ScopeView, children: Seq<XmlNode>, xs: Seq<Bean>)
    requires
        nodes_grounded(src, children),
        beans_ok(sc, children, xs),
    ensures
        forall|i: int| 0 <= i < xs.len() ==> bean_located(src, #[trigger] xs[i]),
    decreases children.len(),
{
    if children.len() > 0 {
        let rest = children.drop_last();
        assert(nodes_grounded(src, rest)) by {
            assert forall|i: int| 0 <= i < rest.len() implies #[trigger] node_grounded(src, rest[i]) by {
                assert(rest[i] == children[i]);
            }
        }
        assert(node_grounded(src, children[children.len() - 1]));
        match children.last() {
            XmlNode::Element(c) => {
                if root_kind(sc, c) == 5 {
                    lemma_beans_located(src, sc, rest, xs.drop_last());
                    lemma_element_node_grounded(src, c);
                    lemma_bean_located(src, sc, 0, c, xs.last());
                    assert forall|i: int| 0 <= i < xs.len() implies bean_located(src, #[trigger] xs[i]) by {
                        if i < xs.len() - 1 {
                            assert(xs[i] == xs.drop_last()[i]);
                        }
                    }
                } else {
                    lemma_beans_located(src, sc, rest, xs);
                }
            },
            XmlNode::Text(_) => {
                lemma_beans_located(src, sc, rest, xs);
            },
        }
    }
}

proof fn lemma_nested_located(src: Seq<u8>, sc: ScopeView, depth: int, children: Seq<XmlNode>, xs: Seq<BeansFile>)
    requires
        nodes_grounded(src, children),
        nested_ok(sc, depth, children, xs),
    ensures
        forall|j: int| 0 <= j < xs.len() ==> block_located(src, #[trigger] xs[j]),
    decreases children, 0int,
{
    if children.len() > 0 {
        let rest = children.drop_last();
        assert(nodes_grounded(src, rest)) by {
            assert forall|i: int| 0 <= i < rest.len() implies #[trigger] node_grounded(src, rest[i]) by {
                assert(rest[i] == children[i]);
            }
        }
        assert(node_grounded(src, children[children.len() - 1]));
        match children[children.len() - 1] {
            XmlNode::Element(c) => {
                if root_kind(sc, c) == 1 {
                    lemma_nested_located(src, sc, depth, rest, xs.drop_last());
                    lemma_element_node_grounded(src, c);
                    lemma_body_located(src, crate::scope::scope_for(sc, c), depth + 1, c, xs.last());
                    assert forall|j: int| 0 <= j < xs.len() implies block_located(src, #[trigger] xs[j]) by {
                        if j < xs.len() - 1 {
                            assert(xs[j] == xs.drop_last()[j]);
                        }
                    }
                } else {
                    lemma_nested_located(src, sc, depth, rest, xs);
                }
            },
            XmlNode::Text(_) => {
                lemma_nested_located(src, sc, depth, rest, xs);
            },
        }
    }
}

/// The block a grounded `<beans>` element gives is located.
pub proof fn lemma_body_located(src: Seq<u8>, sc: ScopeView, depth: int, e: XmlElement, f: BeansFile)
    requires
        element_grounded(src, e),
        body_rel(sc, depth, e, f),
    ensures
        block_located(src, f),
    decreases e, 1int,
{
    if depth < crate::DEPTH_LIMIT {
        assert(header_ok(e, f));
        assert(body_lists_ok(sc, depth, e.children@, f));
        lemma_attr_located(src, e, "profile"@);
        lemma_attr_located(src, e, "default-autowire"@);
        lemma_attr_located(src, e, "default-init-method"@);
        lemma_attr_located(src, e, "default-destroy-method"@);
        lemma_attr_located(src, e, "default-autowire-candidates"@);
        lemma_beans_located(src, sc, e.children@, f.beans@);
        lemma_nested_located(src, sc, depth, e.children@, f.nested_profiles@);
    }
}

} // verus!
