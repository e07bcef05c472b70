//! One injected value read from an element: literals, references,
//! `<null/>`, inner beans, collections, and the nesting limit.
use beans_xml::events::{build_tree, XmlAttr, XmlElement};
use beans_xml::inject_value::parse_inject_value_child;
use beans_xml::literal::{ref_from_attr, value_lit_from_attr, value_lit_from_element};
use beans_xml::scope::NsScope;
use beans_xml::{DiagCode, Diagnostic, InjectValue, RefKind, DEPTH_LIMIT};

fn parse_fragment(source: &str) -> XmlElement {
    build_tree(source).root.expect("root element found")
}

fn no_diag() -> Vec<Diagnostic> {
    Vec::new()
}

fn find_attr<'a>(attrs: &'a Vec<XmlAttr>, name: &str) -> Option<&'a XmlAttr> {
    beans_xml::reading::find_attr(attrs, name).map(|i| &attrs[i])
}



#[test]
fn sb06_value_child_snapshot() {
    let element = parse_fragment("<value type=\"java.lang.Integer\">42</value>");
    let mut diagnostics = no_diag();
    let result = parse_inject_value_child(&NsScope::default(), &mut diagnostics, 0, &element);
    assert!(
        diagnostics.is_empty(),
        "unexpected diagnostics: {diagnostics:?}"
    );
    match result {
        Some(InjectValue::Value(vl)) => {
            assert_eq!(vl.text.value, "42");
            assert_eq!(vl.value_type.map(|t| t.value.raw), Some("java.lang.Integer".to_string()));
            assert_eq!(vl.span, element.span);
            assert!(vl.placeholders.is_empty() && vl.spel_refs.is_empty());
        }
        other => panic!("expected Value, got {other:?}"),
    }
}

#[test]
fn sb06_value_child_with_empty_type_attr_has_no_value_type() {
    let element = parse_fragment("<value type=\"\">42</value>");
    let mut diagnostics = no_diag();
    let result = parse_inject_value_child(&NsScope::default(), &mut diagnostics, 0, &element);
    assert!(
        diagnostics.is_empty(),
        "unexpected diagnostics: {diagnostics:?}"
    );
    match result {
        Some(InjectValue::Value(vl)) => {
            assert_eq!(vl.value_type, None);
            assert_eq!(vl.text.value, "42");
        }
        other => panic!("expected Value, got {other:?}"),
    }
}

#[test]
fn sb06_value_child_without_type_snapshot() {
    let element = parse_fragment("<value>hello world</value>");
    let mut diagnostics = no_diag();
    let result = parse_inject_value_child(&NsScope::default(), &mut diagnostics, 0, &element);
    assert!(
        diagnostics.is_empty(),
        "unexpected diagnostics: {diagnostics:?}"
    );
    match result {
        Some(InjectValue::Value(vl)) => {
            assert_eq!(vl.text.value, "hello world");
            assert_eq!(vl.value_type, None);
        }
        other => panic!("expected Value, got {other:?}"),
    }
}

#[test]
fn sb06_ref_child_bean_attr_snapshot() {
    let element = parse_fragment("<ref bean=\"target\"/>");
    let mut diagnostics = no_diag();
    let result = parse_inject_value_child(&NsScope::default(), &mut diagnostics, 0, &element);
    assert!(
        diagnostics.is_empty(),
        "unexpected diagnostics: {diagnostics:?}"
    );
    match result {
        Some(InjectValue::Ref(r)) => {
            assert_eq!(r.value.raw, "target");
            assert_eq!(r.value.kind, RefKind::Bean);
        }
        other => panic!("expected Ref(Bean), got {other:?}"),
    }
}

#[test]
fn sb06_ref_child_local_attr_snapshot() {
    let element = parse_fragment("<ref local=\"target\"/>");
    let mut diagnostics = no_diag();
    let result = parse_inject_value_child(&NsScope::default(), &mut diagnostics, 0, &element);
    assert!(diagnostics.is_empty());
    match result {
        Some(InjectValue::Ref(r)) => assert_eq!(r.value.kind, RefKind::Local),
        other => panic!("expected Ref(Local), got {other:?}"),
    }
}

#[test]
fn sb06_ref_child_parent_attr_snapshot() {
    let element = parse_fragment("<ref parent=\"target\"/>");
    let mut diagnostics = no_diag();
    let result = parse_inject_value_child(&NsScope::default(), &mut diagnostics, 0, &element);
    assert!(diagnostics.is_empty());
    match result {
        Some(InjectValue::Ref(r)) => assert_eq!(r.value.kind, RefKind::ParentContainer),
        other => panic!("expected Ref(ParentContainer), got {other:?}"),
    }
}

#[test]
fn sb06_idref_child_bean_attr_snapshot() {
    let element = parse_fragment("<idref bean=\"target\"/>");
    let mut diagnostics = no_diag();
    let result = parse_inject_value_child(&NsScope::default(), &mut diagnostics, 0, &element);
    assert!(diagnostics.is_empty());
    match result {
        Some(InjectValue::Idref(r)) => {
            assert_eq!(r.value.raw, "target");
            assert_eq!(r.value.kind, RefKind::Bean);
        }
        other => panic!("expected Idref(Bean), got {other:?}"),
    }
}

#[test]
fn sb06_idref_child_local_attr_snapshot() {
    let element = parse_fragment("<idref local=\"target\"/>");
    let mut diagnostics = no_diag();
    let result = parse_inject_value_child(&NsScope::default(), &mut diagnostics, 0, &element);
    assert!(diagnostics.is_empty());
    match result {
        Some(InjectValue::Idref(r)) => assert_eq!(r.value.kind, RefKind::Local),
        other => panic!("expected Idref(Local), got {other:?}"),
    }
}

#[test]
fn sb06_null_child_snapshot() {
    let element = parse_fragment("<null/>");
    let mut diagnostics = no_diag();
    let result = parse_inject_value_child(&NsScope::default(), &mut diagnostics, 0, &element);
    assert!(diagnostics.is_empty());
    assert_eq!(result, Some(InjectValue::Null(element.span)));
}

#[test]
fn sb06_value_attr_shorthand_builds_value_lit() {
    let element = parse_fragment("<property name=\"x\" value=\"literalText\"/>");
    let attr = find_attr(&element.attrs, "value").expect("value attr present");
    let value_lit = value_lit_from_attr(attr);
    assert_eq!(value_lit.text.value, "literalText");
    assert_eq!(value_lit.value_type, None);
    assert!(value_lit.placeholders.is_empty());
    assert!(value_lit.spel_refs.is_empty());
    assert_eq!(value_lit.span, value_lit.text.span);
}

#[test]
fn sb06_ref_attr_shorthand_builds_bean_ref() {
    let element = parse_fragment("<property name=\"x\" ref=\"target\"/>");
    let attr = find_attr(&element.attrs, "ref").expect("ref attr present");
    let mut diagnostics = no_diag();
    let bean_ref = ref_from_attr(attr, &mut diagnostics).expect("ref resolves");
    assert!(diagnostics.is_empty());
    assert_eq!(bean_ref.value.raw, "target");
    assert_eq!(bean_ref.value.kind, RefKind::Bean);
}

#[test]
fn sb06_ref_attr_shorthand_empty_is_ref_without_target() {
    let element = parse_fragment("<property name=\"x\" ref=\"\"/>");
    let attr = find_attr(&element.attrs, "ref").expect("ref attr present");
    let mut diagnostics = no_diag();
    let bean_ref = ref_from_attr(attr, &mut diagnostics);
    assert_eq!(bean_ref, None);
    assert!(diagnostics
        .iter()
        .any(|d| d.code == DiagCode::RefWithoutTarget));
}

#[test]
fn sb06_inner_bean_structural_snapshot() {
    let element = parse_fragment("<bean id=\"innerBean\" class=\"com.example.Widget\"><property name=\"ignoredForNow\" value=\"1\"/></bean>");
    let mut diagnostics = no_diag();
    let result = parse_inject_value_child(&NsScope::default(), &mut diagnostics, 0, &element);
    assert!(
        diagnostics.is_empty(),
        "unexpected diagnostics: {diagnostics:?}"
    );
    match &result {
        Some(InjectValue::Inner(bean)) => {
            assert_eq!(
                bean.id.as_ref().map(|s| s.value.as_str()),
                Some("innerBean")
            );
            assert_eq!(
                bean.class.as_ref().map(|c| c.value.raw.as_str()),
                Some("com.example.Widget")
            );
            assert_eq!(bean.properties.len(), 1);
            assert_eq!(bean.properties[0].name.value, "ignoredForNow");
        }
        other => panic!("expected Inner, got {other:?}"),
    }
}

#[test]
fn sb06_ref_child_with_no_target_attrs_is_ref_without_target() {
    let element = parse_fragment("<ref/>");
    let mut diagnostics = no_diag();
    let result = parse_inject_value_child(&NsScope::default(), &mut diagnostics, 0, &element);
    assert_eq!(result, None);
    assert!(diagnostics
        .iter()
        .any(|d| d.code == DiagCode::RefWithoutTarget));
}

#[test]
fn sb06_ref_child_with_empty_bean_attr_is_ref_without_target() {
    let element = parse_fragment("<ref bean=\"\"/>");
    let mut diagnostics = no_diag();
    let result = parse_inject_value_child(&NsScope::default(), &mut diagnostics, 0, &element);
    assert_eq!(result, None);
    assert!(diagnostics
        .iter()
        .any(|d| d.code == DiagCode::RefWithoutTarget));
}

#[test]
fn sb06_idref_child_with_no_target_attrs_is_ref_without_target() {
    let element = parse_fragment("<idref/>");
    let mut diagnostics = no_diag();
    let result = parse_inject_value_child(&NsScope::default(), &mut diagnostics, 0, &element);
    assert_eq!(result, None);
    assert!(diagnostics
        .iter()
        .any(|d| d.code == DiagCode::RefWithoutTarget));
}

#[test]
fn sb06_idref_child_ignores_parent_attr_unlike_ref() {
    let element = parse_fragment("<idref parent=\"target\"/>");
    let mut diagnostics = no_diag();
    let result = parse_inject_value_child(&NsScope::default(), &mut diagnostics, 0, &element);
    assert_eq!(result, None);
    assert!(diagnostics
        .iter()
        .any(|d| d.code == DiagCode::RefWithoutTarget));
}

#[test]
fn sb06_ref_child_bean_attr_takes_precedence_over_local_and_parent() {
    let element = parse_fragment("<ref bean=\"b\" local=\"l\" parent=\"p\"/>");
    let mut diagnostics = no_diag();
    let result = parse_inject_value_child(&NsScope::default(), &mut diagnostics, 0, &element);
    match result {
        Some(InjectValue::Ref(r)) => {
            assert_eq!(r.value.raw, "b");
            assert_eq!(r.value.kind, RefKind::Bean);
        }
        other => panic!("expected Ref(Bean) via precedence, got {other:?}"),
    }
}

#[test]
fn sb06_idref_child_bean_attr_takes_precedence_over_local() {
    // `<idref>`'s own precedence table (`idref_from_element`'s doc
    // comment: `bean` first, then legacy `local`) has no dedicated test
    // pinning both attributes present at once — only `<ref>`'s
    // three-way precedence above is directly exercised.
    let element = parse_fragment("<idref bean=\"b\" local=\"l\"/>");
    let mut diagnostics = no_diag();
    let result = parse_inject_value_child(&NsScope::default(), &mut diagnostics, 0, &element);
    match result {
        Some(InjectValue::Idref(r)) => {
            assert_eq!(r.value.raw, "b");
            assert_eq!(r.value.kind, RefKind::Bean);
        }
        other => panic!("expected Idref(Bean) via precedence, got {other:?}"),
    }
}

#[test]
fn sb06_unrecognized_beans_ns_child_returns_none_without_diagnostic() {
    let element = parse_fragment("<totally-made-up/>");
    let mut diagnostics = no_diag();
    let result = parse_inject_value_child(&NsScope::default(), &mut diagnostics, 0, &element);
    assert_eq!(result, None);
    assert!(
        diagnostics.is_empty(),
        "this unit doesn't opine on what an unrecognized shape means: {diagnostics:?}"
    );
}

#[test]
fn sb06_foreign_namespace_child_returns_none() {
    let element = parse_fragment("<aop:scoped-proxy xmlns:aop=\"http://www.springframework.org/schema/aop\"/>");
    let mut diagnostics = no_diag();
    let result = parse_inject_value_child(&NsScope::default(), &mut diagnostics, 0, &element);
    assert_eq!(result, None);
    assert!(diagnostics.is_empty());
}

#[test]
fn sb06_collection_element_names_resolve_to_collection_via_u5b() {
    for name in ["list", "set", "array", "map", "props"] {
        let element = parse_fragment(&format!("<{name}/>"));
        let mut diagnostics = no_diag();
        let result =
            parse_inject_value_child(&NsScope::default(), &mut diagnostics, 0, &element);
        assert!(
            matches!(result, Some(InjectValue::Collection(_))),
            "{name} must resolve to InjectValue::Collection, got {result:?}"
        );
        assert!(diagnostics.is_empty(), "{name} must not be diagnosed here");
    }
}

#[test]
fn sb06_depth_limit_downgrades_inner_bean_to_null_plus_diagnostic() {
    let element = parse_fragment("<bean id=\"deep\" class=\"com.example.Widget\"/>");
    let mut diagnostics = no_diag();
    let result = parse_inject_value_child(
        &NsScope::default(),
        &mut diagnostics,
        DEPTH_LIMIT,
        &element,
    );
    assert_eq!(result, Some(InjectValue::Null(element.span)));
    assert!(diagnostics
        .iter()
        .any(|d| d.code == DiagCode::NestingLimitExceeded));
}

#[test]
fn sb06_depth_one_below_limit_still_recurses_into_a_real_inner_bean() {
    let element = parse_fragment("<bean id=\"stillOk\" class=\"com.example.Widget\"/>");
    let mut diagnostics = no_diag();
    let result = parse_inject_value_child(
        &NsScope::default(),
        &mut diagnostics,
        DEPTH_LIMIT - 1,
        &element,
    );
    assert!(
        !diagnostics
            .iter()
            .any(|d| d.code == DiagCode::NestingLimitExceeded),
        "one level below the limit must not downgrade: {diagnostics:?}"
    );
    match result {
        Some(InjectValue::Inner(bean)) => {
            assert_eq!(bean.id.as_ref().map(|s| s.value.as_str()), Some("stillOk"))
        }
        other => panic!("expected Inner, got {other:?}"),
    }
}

#[test]
fn sb06_depth_limit_downgrade_does_not_call_parse_bean_at_all() {
    // The downgrade must happen *before* recursing, not one level past
    // it — a malformed inner bean (missing class/parent, which would
    // normally raise BeanWithoutClassOrParent) must not leak that
    // diagnostic through when it's never actually parsed.
    let element = parse_fragment("<bean id=\"neverParsed\"/>");
    let mut diagnostics = no_diag();
    let _ = parse_inject_value_child(
        &NsScope::default(),
        &mut diagnostics,
        DEPTH_LIMIT,
        &element,
    );
    assert!(
        !diagnostics
            .iter()
            .any(|d| d.code == DiagCode::BeanWithoutClassOrParent),
        "parse_bean must never run once the depth limit is hit: {diagnostics:?}"
    );
    assert_eq!(
        diagnostics.len(),
        1,
        "exactly one diagnostic (NestingLimitExceeded), nothing from a real bean parse: {diagnostics:?}"
    );
}

#[test]
fn sb13_dollar_placeholder_span_covers_only_the_inner_key() {
    let source = "<value>${prop}</value>";
    let element = parse_fragment(source);
    let vl = value_lit_from_element(&element);
    let p = &vl.placeholders[0];
    assert_eq!(&source[p.span.start as usize..p.span.end as usize], "prop");
}

#[test]
fn sb13_spel_bean_ref_candidate_span_covers_only_the_identifier() {
    let source = "<value>#{beanA.m()}</value>";
    let element = parse_fragment(source);
    let vl = value_lit_from_element(&element);
    let s = &vl.spel_refs[0];
    assert_eq!(&source[s.span.start as usize..s.span.end as usize], "beanA");
}

#[test]
fn sb13_nested_dollar_placeholder_inner_span_covers_only_inner_key() {
    let source = "<value>${a.${b}}</value>";
    let element = parse_fragment(source);
    let vl = value_lit_from_element(&element);
    let inner = &vl.placeholders[1];
    assert_eq!(inner.value, "b");
    assert_eq!(
        &source[inner.span.start as usize..inner.span.end as usize],
        "b"
    );
}

#[test]
fn sb13_cdata_internal_placeholder_and_spel_ref_extracted() {
    let element = parse_fragment("<value><![CDATA[${prop} and #{beanA}]]></value>");
    let vl = value_lit_from_element(&element);
    assert_eq!(
        vl.placeholders
            .iter()
            .map(|p| p.value.as_str())
            .collect::<Vec<_>>(),
        vec!["prop"]
    );
    assert_eq!(
        vl.spel_refs
            .iter()
            .map(|s| s.value.as_str())
            .collect::<Vec<_>>(),
        vec!["beanA"]
    );
}

#[test]
fn sb13_cdata_internal_literal_dollar_and_hash_without_brace_not_extracted() {
    // Negative CDATA case: a bare `$`/`#` with no `{` right after it is
    // still just literal text inside a CDATA section, same as outside
    // one.
    let element =
        parse_fragment("<value><![CDATA[costs $100 and uses #comment, no braces]]></value>");
    let vl = value_lit_from_element(&element);
    assert!(vl.placeholders.is_empty());
    assert!(vl.spel_refs.is_empty());
}

#[test]
fn sb13_value_attr_shorthand_also_extracts_via_the_central_builder() {
    // `value_lit_from_attr` (the `value=` shorthand path) is a
    // different call site than `<value>` element text, but both funnel
    // through `build_value_lit` — pin that this path gets extraction
    // too, not just the element-child path every other case above uses.
    let element = parse_fragment("<property name=\"x\" value=\"${prop}\"/>");
    let attr = find_attr(&element.attrs, "value").expect("value attr present");
    let vl = value_lit_from_attr(attr);
    assert_eq!(
        vl.placeholders
            .iter()
            .map(|p| p.value.as_str())
            .collect::<Vec<_>>(),
        vec!["prop"]
    );
}


#[test]
fn inner_bean_below_the_depth_limit_adds_no_diagnostics() {
    let element = parse_fragment("<bean id=\"deep\" class=\"com.example.Widget\"/>");
    let mut diagnostics = no_diag();
    let result = parse_inject_value_child(&NsScope::default(), &mut diagnostics, 0, &element);
    assert!(diagnostics.is_empty(), "{diagnostics:?}");
    match result {
        Some(InjectValue::Inner(bean)) => assert_eq!(bean.id.as_ref().map(|s| s.value.as_str()), Some("deep")),
        other => panic!("expected Inner, got {other:?}"),
    }
    let mut diagnostics = no_diag();
    let result = parse_inject_value_child(&NsScope::default(), &mut diagnostics, DEPTH_LIMIT, &element);
    assert_eq!(result, Some(InjectValue::Null(element.span)));
    let got: Vec<DiagCode> = diagnostics.iter().map(|d| d.code).collect();
    assert_eq!(got, vec![DiagCode::NestingLimitExceeded]);
}
