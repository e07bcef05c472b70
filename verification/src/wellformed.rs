//! What holds of every model the parser builds: a bean reference names
//! something, and a class reference is never empty.
use vstd::prelude::*;
use crate::model::{
    BeanRef, Bean, BeansFile, ClassRef, Collection, InjectValue, NamespacedElement, Spanned, ValueLit,
};

verus! {

pub open spec fn bean_ref_ok(r: Spanned<BeanRef>) -> bool {
    r.value.raw@.len() > 0
}

pub open spec fn opt_bean_ref_ok(r: Option<Spanned<BeanRef>>) -> bool {
    r matches Some(x) ==> bean_ref_ok(x)
}

pub open spec fn bean_refs_ok(rs: Seq<Spanned<BeanRef>>) -> bool {
    forall|i: int| 0 <= i < rs.len() ==> #[trigger] bean_ref_ok(rs[i])
}

pub open spec fn class_ref_ok(c: Option<Spanned<ClassRef>>) -> bool {
    c matches Some(x) ==> x.value.raw@.len() > 0
}

pub open spec fn value_lit_ok(v: ValueLit) -> bool {
    class_ref_ok(v.value_type)
}

pub open spec fn namespaced_ok(n: NamespacedElement) -> bool {
    bean_refs_ok(n.refs@)
}

pub open spec fn namespaced_all_ok(ns: Seq<NamespacedElement>) -> bool {
    forall|i: int| 0 <= i < ns.len() ==> #[trigger] namespaced_ok(ns[i])
}

/// Every reference in an injected value, at any depth, names something,
/// and every class reference in it is non-empty.
pub open spec fn inject_ok(v: InjectValue) -> bool
    decreases v,
{
    match v {
        InjectValue::Ref(r) => bean_ref_ok(r),
        InjectValue::Idref(r) => bean_ref_ok(r),
        InjectValue::Value(l) => value_lit_ok(l),
        InjectValue::Inner(b) => bean_ok(*b),
        InjectValue::Collection(c) => collection_ok(c.value),
        InjectValue::Null(_) => true,
        InjectValue::Unrecognized => true,
    }
}

pub open spec fn collection_ok(c: Collection) -> bool
    decreases c,
{
    match c {
        Collection::List { items, value_type, .. } => {
            &&& class_ref_ok(value_type)
            &&& forall|i: int| 0 <= i < items@.len() ==> inject_ok(#[trigger] items@[i])
        },
        Collection::Set_ { items, value_type, .. } => {
            &&& class_ref_ok(value_type)
            &&& forall|i: int| 0 <= i < items@.len() ==> inject_ok(#[trigger] items@[i])
        },
        Collection::Array { items, value_type, .. } => {
            &&& class_ref_ok(value_type)
            &&& forall|i: int| 0 <= i < items@.len() ==> inject_ok(#[trigger] items@[i])
        },
        Collection::Map_ { entries, key_type, value_type, .. } => {
            &&& class_ref_ok(key_type)
            &&& class_ref_ok(value_type)
            &&& forall|i: int|
                0 <= i < entries@.len() ==> {
                    &&& inject_ok(#[trigger] entries@[i].key)
                    &&& inject_ok(entries@[i].value)
                    &&& class_ref_ok(entries@[i].value_type)
                }
        },
        Collection::Props { entries, .. } => {
            forall|i: int| 0 <= i < entries@.len() ==> value_lit_ok(#[trigger] entries@[i].value)
        },
        Collection::Unrecognized => true,
    }
}

pub open spec fn bean_ok(b: Bean) -> bool
    decreases b,
{
    &&& class_ref_ok(b.class)
    &&& opt_bean_ref_ok(b.parent)
    &&& bean_refs_ok(b.depends_on@)
    &&& opt_bean_ref_ok(b.factory_bean)
    &&& forall|i: int| 0 <= i < b.properties@.len() ==> inject_ok(#[trigger] b.properties@[i].value)
    &&& forall|i: int|
        0 <= i < b.constructor_args@.len() ==> {
            &&& inject_ok(#[trigger] b.constructor_args@[i].value)
            &&& class_ref_ok(b.constructor_args@[i].type_ref)
        }
    &&& forall|i: int|
        0 <= i < b.lookup_methods@.len() ==> opt_bean_ref_ok(#[trigger] b.lookup_methods@[i].value.bean)
    &&& forall|i: int|
        0 <= i < b.replaced_methods@.len() ==> opt_bean_ref_ok(
            #[trigger] b.replaced_methods@[i].value.replacer,
        )
    &&& forall|i: int| 0 <= i < b.qualifiers@.len() ==> class_ref_ok(#[trigger] b.qualifiers@[i].type_)
    &&& namespaced_all_ok(b.decorators@)
}

pub open spec fn beans_file_ok(f: BeansFile) -> bool
    decreases f,
{
    &&& forall|i: int| 0 <= i < f.beans@.len() ==> bean_ok(#[trigger] f.beans@[i])
    &&& namespaced_all_ok(f.namespaced@)
    &&& forall|i: int| 0 <= i < f.nested_profiles@.len() ==> beans_file_ok(#[trigger] f.nested_profiles@[i])
}

} // verus!
