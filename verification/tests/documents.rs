//! Whole documents through the public entry points: `parse`, `parse_bytes`,
//! `is_beans_doc`.
use beans_xml::{
    is_beans_doc, parse, parse_bytes, version, ByteSpan, Collection, DiagCode, ImportKind,
    InjectValue, ParseResult, PropertySource, RefKind, DEPTH_LIMIT, MAX_INPUT_BYTES,
};

const BEANS_NS: &str = "http://www.springframework.org/schema/beans";

fn doc(body: &str) -> String {
    format!("<beans xmlns=\"{BEANS_NS}\">{body}</beans>")
}

fn codes(r: &ParseResult) -> Vec<DiagCode> {
    r.diagnostics.iter().map(|d| d.code).collect()
}

fn slice(source: &str, span: ByteSpan) -> &str {
    &source[span.start as usize..span.end as usize]
}

#[test]
fn minimal_document_yields_one_bean_and_no_diagnostics() {
    let source = doc("<bean id=\"a\" class=\"com.example.A\"/>");
    let r = parse(&source);
    assert_eq!(r.encoding.as_deref(), Some("UTF-8"));
    assert!(r.diagnostics.is_empty(), "{:?}", r.diagnostics);
    let file = r.beans.expect("a <beans> document");
    assert_eq!(slice(&source, file.span), source);
    assert_eq!(file.beans.len(), 1);
    let bean = &file.beans[0];
    assert_eq!(bean.id.as_ref().map(|s| s.value.as_str()), Some("a"));
    assert_eq!(bean.class.as_ref().map(|c| c.value.raw.as_str()), Some("com.example.A"));
    assert_eq!(slice(&source, bean.span), "<bean id=\"a\" class=\"com.example.A\"/>");
    assert_eq!(slice(&source, bean.id.as_ref().unwrap().span), "a");
    assert_eq!(slice(&source, bean.class.as_ref().unwrap().span), "com.example.A");
}

#[test]
fn root_other_than_beans_is_refused_with_its_span() {
    let source = "<foo><bean id=\"a\" class=\"A\"/></foo>";
    let r = parse(source);
    assert!(r.beans.is_none());
    assert_eq!(codes(&r), vec![DiagCode::NotBeansRoot]);
    assert_eq!(r.diagnostics[0].span, Some(ByteSpan { start: 0, end: source.len() as u32 }));
}

#[test]
fn empty_input_has_no_root() {
    let r = parse("");
    assert!(r.beans.is_none());
    assert_eq!(codes(&r), vec![DiagCode::NotBeansRoot]);
    assert_eq!(r.diagnostics[0].span, None);
    assert_eq!(r.encoding.as_deref(), Some("UTF-8"));
}

#[test]
fn beans_root_in_a_foreign_namespace_is_not_beans() {
    let r = parse("<beans xmlns=\"http://example.com/other\"/>");
    assert!(r.beans.is_none());
    assert_eq!(codes(&r), vec![DiagCode::NotBeansRoot]);
}

#[test]
fn unqualified_beans_root_without_xmlns_is_accepted() {
    let r = parse("<beans><bean id=\"a\" class=\"A\"/></beans>");
    assert_eq!(r.beans.expect("beans").beans.len(), 1);
}

#[test]
fn oversize_bytes_are_refused_before_decoding() {
    let bytes = vec![b' '; MAX_INPUT_BYTES + 1];
    let r = parse_bytes(&bytes);
    assert!(r.beans.is_none());
    assert_eq!(r.encoding, None);
    assert_eq!(codes(&r), vec![DiagCode::OversizeInput]);
    assert_eq!(r.diagnostics[0].span, None);
    assert!(!is_beans_doc(&bytes));
}

#[test]
fn is_beans_doc_agrees_with_parse_bytes() {
    let inputs: Vec<Vec<u8>> = vec![
        doc("<bean id=\"a\" class=\"A\"/>").into_bytes(),
        b"<foo/>".to_vec(),
        b"".to_vec(),
        b"<!-- only a comment -->".to_vec(),
        b"<?xml version=\"1.0\"?><beans/>".to_vec(),
        b"<b:beans xmlns:b=\"http://www.springframework.org/schema/beans\"/>".to_vec(),
        b"<beans xmlns=\"http://example.com/x\"/>".to_vec(),
        b"<beans><bean id=\"a\">".to_vec(),
    ];
    for bytes in &inputs {
        assert_eq!(
            is_beans_doc(bytes),
            parse_bytes(bytes).beans.is_some(),
            "disagreement on {:?}",
            String::from_utf8_lossy(bytes)
        );
    }
    assert!(is_beans_doc(&inputs[0]));
    assert!(!is_beans_doc(&inputs[1]));
    assert!(is_beans_doc(&inputs[5]));
}

#[test]
fn duplicate_bean_id_is_reported_and_both_beans_are_kept() {
    let source = doc("<bean id=\"a\" class=\"X\"/><bean id=\"a\" class=\"Y\"/>");
    let r = parse(&source);
    assert_eq!(codes(&r), vec![DiagCode::DuplicateBeanId]);
    let file = r.beans.unwrap();
    assert_eq!(file.beans.len(), 2);
    assert_eq!(file.beans[1].class.as_ref().unwrap().value.raw, "Y");
    assert_eq!(r.diagnostics[0].span, Some(file.beans[1].id.as_ref().unwrap().span));
}

#[test]
fn same_id_in_a_nested_profile_is_an_override_not_a_duplicate() {
    let source = doc("<bean id=\"a\" class=\"X\"/><beans profile=\"dev,test\"><bean id=\"a\" class=\"Y\"/></beans>");
    let r = parse(&source);
    assert!(r.diagnostics.is_empty(), "{:?}", r.diagnostics);
    let file = r.beans.unwrap();
    assert_eq!(file.beans.len(), 1);
    assert_eq!(file.nested_profiles.len(), 1);
    let nested = &file.nested_profiles[0];
    assert_eq!(nested.profile.as_ref().map(|p| p.value.as_str()), Some("dev,test"));
    assert_eq!(nested.beans[0].class.as_ref().unwrap().value.raw, "Y");
}

#[test]
fn bean_without_class_parent_or_factory_is_reported_unless_abstract() {
    let r = parse(&doc("<bean id=\"a\"/>"));
    assert_eq!(codes(&r), vec![DiagCode::BeanWithoutClassOrParent]);
    let r = parse(&doc("<bean id=\"a\" abstract=\"true\"/>"));
    assert!(r.diagnostics.is_empty(), "{:?}", r.diagnostics);
    assert!(r.beans.unwrap().beans[0].abstract_);
    let r = parse(&doc("<bean id=\"a\" parent=\"base\"/>"));
    assert!(r.diagnostics.is_empty(), "{:?}", r.diagnostics);
    let parent = r.beans.unwrap().beans[0].parent.clone().unwrap();
    assert_eq!(parent.value.raw, "base");
    assert_eq!(parent.value.kind, RefKind::Bean);
    let r = parse(&doc("<bean id=\"a\" factory-bean=\"f\" factory-method=\"make\"/>"));
    assert!(r.diagnostics.is_empty(), "{:?}", r.diagnostics);
}

#[test]
fn property_value_attribute_wins_over_ref_attribute_with_a_conflict_report() {
    let r = parse(&doc("<bean id=\"a\" class=\"A\"><property name=\"p\" value=\"v\" ref=\"r\"/></bean>"));
    assert_eq!(codes(&r), vec![DiagCode::ConflictingValueAndRef]);
    let file = r.beans.unwrap();
    let prop = &file.beans[0].properties[0];
    assert_eq!(prop.name.value, "p");
    match &prop.value {
        InjectValue::Value(v) => assert_eq!(v.text.value, "v"),
        other => panic!("expected Value, got {other:?}"),
    }
}

#[test]
fn property_ref_attribute_and_child_forms() {
    let source = doc(concat_parts(&[
        "<bean id=\"a\" class=\"A\">",
        "<property name=\"r\" ref=\"other\"/>",
        "<property name=\"v\"><value>text</value></property>",
        "<property name=\"n\"><null/></property>",
        "<property name=\"l\"><list><value>1</value><ref bean=\"b\"/></list></property>",
        "</bean>",
    ]).as_str());
    let r = parse(&source);
    assert!(r.diagnostics.is_empty(), "{:?}", r.diagnostics);
    let file = r.beans.unwrap();
    let props = &file.beans[0].properties;
    assert_eq!(props.len(), 4);
    assert!(matches!(&props[0].value, InjectValue::Ref(x) if x.value.raw == "other" && x.value.kind == RefKind::Bean));
    assert!(matches!(&props[1].value, InjectValue::Value(v) if v.text.value == "text"));
    assert!(matches!(&props[2].value, InjectValue::Null(_)));
    match &props[3].value {
        InjectValue::Collection(c) => match &c.value {
            Collection::List { items, .. } => assert_eq!(items.len(), 2),
            other => panic!("expected List, got {other:?}"),
        },
        other => panic!("expected Collection, got {other:?}"),
    }
}

fn concat_parts(parts: &[&str]) -> String {
    parts.concat()
}

#[test]
fn empty_ref_attribute_is_ref_without_target() {
    let r = parse(&doc("<bean id=\"a\" class=\"A\"><property name=\"p\" ref=\"\"/></bean>"));
    assert!(codes(&r).contains(&DiagCode::RefWithoutTarget));
}

#[test]
fn p_and_c_namespace_attributes_become_properties_and_constructor_args() {
    let source = doc(concat_parts(&[
        "<bean id=\"a\" class=\"A\" ",
        "xmlns:p=\"http://www.springframework.org/schema/p\" ",
        "xmlns:c=\"http://www.springframework.org/schema/c\" ",
        "p:name=\"v\" p:other-ref=\"b\" c:_0=\"first\" c:size-ref=\"s\"/>",
    ]).as_str());
    let r = parse(&source);
    assert!(r.diagnostics.is_empty(), "{:?}", r.diagnostics);
    let file = r.beans.unwrap();
    let bean = &file.beans[0];
    assert_eq!(bean.properties.len(), 2);
    assert_eq!(bean.properties[0].name.value, "name");
    assert!(matches!(&bean.properties[0].value, InjectValue::Value(v) if v.text.value == "v"));
    assert_eq!(bean.properties[1].name.value, "other");
    assert_eq!(slice(&source, bean.properties[1].name.span), "other");
    assert!(matches!(&bean.properties[1].value, InjectValue::Ref(x) if x.value.raw == "b"));
    assert_eq!(bean.constructor_args.len(), 2);
    assert_eq!(bean.constructor_args[0].index, Some(0));
    assert!(matches!(&bean.constructor_args[0].value, InjectValue::Value(v) if v.text.value == "first"));
    assert_eq!(bean.constructor_args[1].index, None);
    assert_eq!(bean.constructor_args[1].name.as_ref().map(|n| n.value.as_str()), Some("size"));
    assert!(matches!(&bean.constructor_args[1].value, InjectValue::Ref(x) if x.value.raw == "s"));
}

#[test]
fn constructor_arg_index_type_and_name_are_read() {
    let r = parse(&doc(
        "<bean id=\"a\" class=\"A\"><constructor-arg index=\"2\" type=\"int\" name=\"n\" value=\"7\"/></bean>",
    ));
    assert!(r.diagnostics.is_empty(), "{:?}", r.diagnostics);
    let file = r.beans.unwrap();
    let arg = &file.beans[0].constructor_args[0];
    assert_eq!(arg.index, Some(2));
    assert_eq!(arg.type_ref.as_ref().map(|t| t.value.raw.as_str()), Some("int"));
    assert_eq!(arg.name.as_ref().map(|n| n.value.as_str()), Some("n"));
    assert!(matches!(&arg.value, InjectValue::Value(v) if v.text.value == "7"));
}

#[test]
fn names_and_depends_on_are_split_into_tokens_with_their_own_spans() {
    let source = doc("<bean id=\"a\" class=\"A\" name=\"x, y;z\" depends-on=\"d1 d2\"/>");
    let r = parse(&source);
    assert!(r.diagnostics.is_empty(), "{:?}", r.diagnostics);
    let file = r.beans.unwrap();
    let bean = &file.beans[0];
    let names: Vec<&str> = bean.names.iter().map(|n| n.value.as_str()).collect();
    assert_eq!(names, vec!["x", "y", "z"]);
    for n in &bean.names {
        assert_eq!(slice(&source, n.span), n.value);
    }
    let deps: Vec<&str> = bean.depends_on.iter().map(|d| d.value.raw.as_str()).collect();
    assert_eq!(deps, vec!["d1", "d2"]);
    assert_eq!(slice(&source, bean.depends_on[1].span), "d2");
}

#[test]
fn bean_core_flags_are_read() {
    let r = parse(&doc(
        "<bean id=\"a\" class=\"A\" scope=\"prototype\" lazy-init=\"true\" primary=\"true\" autowire=\"byName\" autowire-candidate=\"false\" init-method=\"start\" destroy-method=\"stop\"/>",
    ));
    assert!(r.diagnostics.is_empty(), "{:?}", r.diagnostics);
    let file = r.beans.unwrap();
    let bean = &file.beans[0];
    assert_eq!(bean.scope.as_ref().map(|s| s.value.as_str()), Some("prototype"));
    assert_eq!(bean.lazy_init, Some(true));
    assert!(bean.primary);
    assert_eq!(bean.autowire.as_ref().map(|s| s.value.as_str()), Some("byName"));
    assert_eq!(bean.autowire_candidate, Some(false));
    assert_eq!(bean.init_method.as_ref().map(|s| s.value.as_str()), Some("start"));
    assert_eq!(bean.destroy_method.as_ref().map(|s| s.value.as_str()), Some("stop"));
}

#[test]
fn beans_header_defaults_and_description_are_read() {
    let source = format!(
        "<beans xmlns=\"{BEANS_NS}\" default-lazy-init=\"true\" default-autowire=\"byType\" default-init-method=\"\" default-merge=\"false\"><description>Main context</description></beans>"
    );
    let r = parse(&source);
    assert!(r.diagnostics.is_empty(), "{:?}", r.diagnostics);
    let file = r.beans.unwrap();
    assert_eq!(file.default_lazy_init, Some(true));
    assert_eq!(file.default_autowire.as_ref().map(|s| s.value.as_str()), Some("byType"));
    assert_eq!(file.default_init_method.as_ref().map(|s| s.value.as_str()), Some(""));
    assert_eq!(file.default_destroy_method, None);
    assert_eq!(file.default_merge, Some(false));
    assert_eq!(file.description.as_ref().map(|s| s.value.as_str()), Some("Main context"));
}

#[test]
fn imports_are_classified_by_resource_shape() {
    let r = parse(&doc(concat_parts(&[
        "<import resource=\"classpath:a.xml\"/>",
        "<import resource=\"classpath*:b.xml\"/>",
        "<import resource=\"c.xml\"/>",
        "<import resource=\"https://example.com/d.xml\"/>",
        "<import resource=\"file:/e.xml\"/>",
    ]).as_str()));
    let file = r.beans.unwrap();
    let kinds: Vec<ImportKind> = file.imports.iter().map(|i| i.value.kind).collect();
    assert_eq!(
        kinds,
        vec![ImportKind::Classpath, ImportKind::ClasspathStar, ImportKind::Relative, ImportKind::Url, ImportKind::Url]
    );
    assert_eq!(file.imports[0].value.resource.value, "classpath:a.xml");
}

#[test]
fn aliases_are_read() {
    let r = parse(&doc("<bean id=\"a\" class=\"A\"/><alias name=\"a\" alias=\"b\"/>"));
    assert!(r.diagnostics.is_empty(), "{:?}", r.diagnostics);
    let file = r.beans.unwrap();
    assert_eq!(file.aliases.len(), 1);
    assert_eq!(file.aliases[0].value.name.value, "a");
    assert_eq!(file.aliases[0].value.alias.value, "b");
}

#[test]
fn component_scan_and_property_sources_are_read() {
    let source = format!(
        "<beans xmlns=\"{BEANS_NS}\" xmlns:context=\"http://www.springframework.org/schema/context\" xmlns:util=\"http://www.springframework.org/schema/util\">{}</beans>",
        concat_parts(&[
            "<context:component-scan base-package=\"com.a, com.b\" use-default-filters=\"false\">",
            "<context:include-filter type=\"annotation\" expression=\"com.Marker\"/>",
            "</context:component-scan>",
            "<context:property-placeholder location=\"a.properties,b.properties\"/>",
            "<util:properties id=\"props\" location=\"c.properties\"/>",
        ])
    );
    let r = parse(&source);
    assert!(r.diagnostics.is_empty(), "{:?}", r.diagnostics);
    let file = r.beans.unwrap();
    let scan = &file.component_scans[0].value;
    let packages: Vec<&str> = scan.base_packages.iter().map(|p| p.value.as_str()).collect();
    assert_eq!(packages, vec!["com.a", "com.b"]);
    assert_eq!(scan.use_default_filters, Some(false));
    assert_eq!(scan.include_filters.len(), 1);
    assert_eq!(scan.include_filters[0].filter_type.value, "annotation");
    assert_eq!(scan.include_filters[0].expression.value, "com.Marker");
    assert_eq!(file.property_sources.len(), 2);
    match &file.property_sources[0].value {
        PropertySource::Placeholder { locations } => {
            let l: Vec<&str> = locations.iter().map(|p| p.value.as_str()).collect();
            assert_eq!(l, vec!["a.properties", "b.properties"]);
        }
        other => panic!("expected Placeholder, got {other:?}"),
    }
    match &file.property_sources[1].value {
        PropertySource::Properties { id, location } => {
            assert_eq!(id.as_ref().map(|s| s.value.as_str()), Some("props"));
            assert_eq!(location.as_ref().map(|s| s.value.as_str()), Some("c.properties"));
        }
        other => panic!("expected Properties, got {other:?}"),
    }
}

#[test]
fn unknown_beans_namespace_element_is_reported() {
    let r = parse(&doc("<widget/>"));
    assert_eq!(codes(&r), vec![DiagCode::UnknownElement]);
}

#[test]
fn other_namespace_root_children_are_kept_with_harvested_refs() {
    let source = format!(
        "<beans xmlns=\"{BEANS_NS}\" xmlns:tx=\"http://www.springframework.org/schema/tx\"><tx:annotation-driven transaction-manager=\"txm\"/></beans>"
    );
    let r = parse(&source);
    assert!(r.diagnostics.is_empty(), "{:?}", r.diagnostics);
    let file = r.beans.unwrap();
    assert_eq!(file.namespaced.len(), 1);
    assert_eq!(file.namespaced[0].local, "annotation-driven");
    assert_eq!(file.namespaced[0].refs[0].value.raw, "txm");
}

#[test]
fn euc_kr_bytes_are_decoded_and_spans_refer_to_the_utf8_text() {
    let (encoded, _, had_errors) = encoding_rs::EUC_KR.encode("<beans><bean id=\"그룹\" class=\"A\"/></beans>");
    assert!(!had_errors);
    let r = parse_bytes(&encoded);
    assert_eq!(r.encoding.as_deref(), Some("EUC-KR"));
    assert!(r.diagnostics.is_empty(), "{:?}", r.diagnostics);
    let file = r.beans.unwrap();
    let id = file.beans[0].id.as_ref().unwrap();
    assert_eq!(id.value, "그룹");
    let text = "<beans><bean id=\"그룹\" class=\"A\"/></beans>";
    assert_eq!(slice(text, id.span), "그룹");
}

#[test]
fn utf16_bytes_with_a_byte_order_mark_are_decoded() {
    let mut bytes = vec![0xFF, 0xFE];
    for unit in "<beans><bean id=\"a\" class=\"A\"/></beans>".encode_utf16() {
        bytes.extend_from_slice(&unit.to_le_bytes());
    }
    let r = parse_bytes(&bytes);
    assert_eq!(r.encoding.as_deref(), Some("UTF-16LE"));
    assert_eq!(r.beans.unwrap().beans.len(), 1);
    assert!(is_beans_doc(&bytes));
}

#[test]
fn encoding_diagnostics_come_before_tree_diagnostics() {
    let bytes = b"<?xml version=\"1.0\" encoding=\"EUC-KR\"?><foo/>";
    let r = parse_bytes(bytes);
    assert_eq!(r.encoding.as_deref(), Some("UTF-8"));
    assert_eq!(codes(&r), vec![DiagCode::EncodingMismatch, DiagCode::NotBeansRoot]);
}

#[test]
fn tree_diagnostics_are_kept_in_the_result() {
    let r = parse(&doc("<bean id=\"a\" class=\"A\" class=\"B\"/>"));
    assert_eq!(codes(&r), vec![DiagCode::DuplicateAttribute]);
    assert_eq!(r.beans.unwrap().beans[0].class.as_ref().unwrap().value.raw, "A");
}

#[test]
fn inner_beans_nested_past_the_depth_limit_are_cut_off() {
    let mut body = String::new();
    let levels = DEPTH_LIMIT as usize + 5;
    for _ in 0..levels {
        body.push_str("<bean class=\"A\"><property name=\"p\">");
    }
    body.push_str("<value>leaf</value>");
    for _ in 0..levels {
        body.push_str("</property></bean>");
    }
    let r = parse(&doc(&body));
    assert!(codes(&r).contains(&DiagCode::NestingLimitExceeded), "{:?}", codes(&r));
    assert_eq!(r.beans.unwrap().beans.len(), 1);
}

#[test]
fn placeholders_and_spel_candidates_are_collected_from_attribute_values() {
    let source = doc("<bean id=\"a\" class=\"A\"><property name=\"p\" value=\"${db.url} #{other.name}\"/></bean>");
    let r = parse(&source);
    assert!(r.diagnostics.is_empty(), "{:?}", r.diagnostics);
    let file = r.beans.unwrap();
    match &file.beans[0].properties[0].value {
        InjectValue::Value(v) => {
            assert_eq!(v.placeholders.len(), 1);
            assert_eq!(v.placeholders[0].value, "db.url");
            assert_eq!(slice(&source, v.placeholders[0].span), "db.url");
            assert_eq!(v.spel_refs.len(), 1);
            assert_eq!(v.spel_refs[0].value, "other");
            assert_eq!(slice(&source, v.spel_refs[0].span), "other");
        }
        other => panic!("expected Value, got {other:?}"),
    }
}

#[test]
fn version_is_the_crate_version() {
    assert_eq!(version(), "0.1.0");
}

#[test]
fn utf8_bytes_without_a_foreign_declaration_parse_like_their_text() {
    let texts = [
        doc("<bean id=\"a\" class=\"A\"><property name=\"p\" value=\"${x}\"/></bean><bean id=\"a\"/>"),
        format!("<?xml version=\"1.0\" encoding=\"UTF-8\"?>{}", doc("<alias name=\"a\" alias=\"b\"/>")),
        "<foo/>".to_string(),
        String::new(),
        "<beans><bean id=\"é\" class=\"X\"></beans>".to_string(),
    ];
    for t in texts.iter() {
        let from_bytes = parse_bytes(t.as_bytes());
        assert_eq!(from_bytes, parse(t));
        assert_eq!(is_beans_doc(t.as_bytes()), parse(t).beans.is_some());
    }
}

#[test]
fn bean_names_split_on_commas_semicolons_and_spaces_without_reports() {
    let source = r#"<beans><bean id="a" name="b, c;d" class="X"/></beans>"#;
    let r = parse(source);
    assert!(r.diagnostics.is_empty(), "{:?}", r.diagnostics);
    let file = r.beans.unwrap();
    let b = &file.beans[0];
    assert_eq!(b.id.as_ref().unwrap().value, "a");
    let names: Vec<(&str, u32, u32)> = b
        .names
        .iter()
        .map(|n| (n.value.as_str(), n.span.start, n.span.end))
        .collect();
    assert_eq!(names, vec![("b", 26, 27), ("c", 29, 30), ("d", 31, 32)]);
}

#[test]
fn duplicate_id_report_is_the_only_diagnostic_and_sits_at_the_second_id() {
    let source = r#"<beans><bean id="a" class="X"/><bean id="a" class="Y"/></beans>"#;
    let r = parse(source);
    let got: Vec<(DiagCode, Option<ByteSpan>)> = r.diagnostics.iter().map(|d| (d.code, d.span)).collect();
    assert_eq!(got, vec![(DiagCode::DuplicateBeanId, Some(ByteSpan { start: 41, end: 42 }))]);
    let file = r.beans.unwrap();
    assert_eq!(file.beans.len(), 2);
    assert_eq!(file.beans[0].class.as_ref().unwrap().value.raw, "X");
    assert_eq!(file.beans[1].class.as_ref().unwrap().value.raw, "Y");
}

#[test]
fn value_and_ref_conflict_is_reported_once_at_the_property_element() {
    let source = r#"<beans><bean id="b" class="X"><property name="p" value="1" ref="r"/></bean></beans>"#;
    let r = parse(source);
    let got: Vec<(DiagCode, Option<ByteSpan>)> = r.diagnostics.iter().map(|d| (d.code, d.span)).collect();
    assert_eq!(got, vec![(DiagCode::ConflictingValueAndRef, Some(ByteSpan { start: 30, end: 68 }))]);
    let file = r.beans.unwrap();
    let ps = &file.beans[0].properties;
    assert_eq!(ps.len(), 1);
    assert_eq!(ps[0].name.value, "p");
    assert!(matches!(&ps[0].value, InjectValue::Value(v) if v.text.value == "1"));
}
