//! Collections read as values: the shapes of each kind, map entries and
//! their keys, spans and the nesting limit.
use beans_xml::collection::parse_collection_value;
use beans_xml::events::{build_tree, XmlElement};
use beans_xml::scope::NsScope;
use beans_xml::{Collection, DiagCode, Diagnostic, InjectValue, RefKind, DEPTH_LIMIT};

fn parse_fragment(source: &str) -> XmlElement {
    build_tree(source).root.expect("root element found")
}

fn no_diag() -> Vec<Diagnostic> {
    Vec::new()
}

fn parse(source: &str) -> InjectValue {
    let element = parse_fragment(source);
    let mut diagnostics = no_diag();
    let result = parse_collection_value(&NsScope::default(), &mut diagnostics, 0, &element);
    assert!(
        diagnostics.is_empty(),
        "unexpected diagnostics for {source}: {diagnostics:?}"
    );
    result
}

fn texts(items: &[InjectValue]) -> Vec<&str> {
    items
        .iter()
        .map(|i| match i {
            InjectValue::Value(v) => v.text.value.as_str(),
            other => panic!("expected Value, got {other:?}"),
        })
        .collect()
}

#[test]
fn sb07_list_snapshot() {
    let result = parse("<list value-type=\"java.lang.String\"><value>a</value><value>b</value></list>");
    match result {
        InjectValue::Collection(c) => match c.value {
            Collection::List { items, value_type, merge } => {
                assert_eq!(value_type.map(|t| t.value.raw), Some("java.lang.String".to_string()));
                assert_eq!(merge, None);
                assert_eq!(texts(&items), vec!["a", "b"]);
            }
            other => panic!("expected List, got {other:?}"),
        },
        other => panic!("expected Collection, got {other:?}"),
    }
}

#[test]
fn sb07_set_snapshot() {
    let result = parse("<set><value>a</value><ref bean=\"b\"/></set>");
    match result {
        InjectValue::Collection(c) => match c.value {
            Collection::Set_ { items, value_type, .. } => {
                assert_eq!(value_type, None);
                assert_eq!(items.len(), 2);
                assert!(matches!(&items[0], InjectValue::Value(v) if v.text.value == "a"));
                assert!(matches!(&items[1], InjectValue::Ref(r) if r.value.raw == "b" && r.value.kind == RefKind::Bean));
            }
            other => panic!("expected Set, got {other:?}"),
        },
        other => panic!("expected Collection, got {other:?}"),
    }
}

#[test]
fn sb07_array_snapshot() {
    let result = parse("<array><value>1</value><value>2</value></array>");
    match result {
        InjectValue::Collection(c) => match c.value {
            Collection::Array { items, value_type, .. } => {
                assert_eq!(value_type, None);
                assert_eq!(texts(&items), vec!["1", "2"]);
            }
            other => panic!("expected Array, got {other:?}"),
        },
        other => panic!("expected Collection, got {other:?}"),
    }
}

#[test]
fn sb07_map_snapshot() {
    let result = parse("<map key-type=\"java.lang.String\" value-type=\"java.lang.Integer\"><entry key=\"a\" value=\"1\"/><entry key=\"b\" value=\"2\"/></map>");
    match result {
        InjectValue::Collection(c) => match c.value {
            Collection::Map_ { entries, key_type, value_type, .. } => {
                assert_eq!(key_type.map(|t| t.value.raw), Some("java.lang.String".to_string()));
                assert_eq!(value_type.map(|t| t.value.raw), Some("java.lang.Integer".to_string()));
                let pairs: Vec<(String, String)> = entries
                    .iter()
                    .map(|e| match (&e.key, &e.value) {
                        (InjectValue::Value(k), InjectValue::Value(v)) => (k.text.value.clone(), v.text.value.clone()),
                        other => panic!("expected literal key and value, got {other:?}"),
                    })
                    .collect();
                assert_eq!(pairs, vec![("a".to_string(), "1".to_string()), ("b".to_string(), "2".to_string())]);
            }
            other => panic!("expected Map, got {other:?}"),
        },
        other => panic!("expected Collection, got {other:?}"),
    }
}

#[test]
fn sb07_props_snapshot() {
    let result = parse("<props><prop key=\"driver\">com.example.Driver</prop><prop key=\"url\">jdbc:example</prop></props>");
    match result {
        InjectValue::Collection(c) => match c.value {
            Collection::Props { entries, merge } => {
                assert_eq!(merge, None);
                let pairs: Vec<(&str, &str)> = entries
                    .iter()
                    .map(|p| (p.key.value.as_str(), p.value.text.value.as_str()))
                    .collect();
                assert_eq!(pairs, vec![("driver", "com.example.Driver"), ("url", "jdbc:example")]);
            }
            other => panic!("expected Props, got {other:?}"),
        },
        other => panic!("expected Collection, got {other:?}"),
    }
}

#[test]
fn sb07_entry_key_ref_and_value_ref_snapshot() {
    let result = parse("<map><entry key-ref=\"keyBean\" value-ref=\"valueBean\"/></map>");
    match result {
        InjectValue::Collection(c) => match c.value {
            Collection::Map_ { entries, .. } => {
                assert_eq!(entries.len(), 1);
                match &entries[0].key {
                    InjectValue::Ref(r) => assert_eq!(r.value.raw, "keyBean"),
                    other => panic!("expected Ref, got {other:?}"),
                }
                match &entries[0].value {
                    InjectValue::Ref(r) => assert_eq!(r.value.raw, "valueBean"),
                    other => panic!("expected Ref, got {other:?}"),
                }
            }
            other => panic!("expected Map, got {other:?}"),
        },
        other => panic!("expected Collection, got {other:?}"),
    }
}

#[test]
fn sb07_entry_key_element_form_snapshot() {
    let result = parse("<map><entry value=\"1\"><key><value>k</value></key></entry></map>");
    match result {
        InjectValue::Collection(c) => match c.value {
            Collection::Map_ { entries, .. } => {
                assert_eq!(entries.len(), 1);
                match &entries[0].key {
                    InjectValue::Value(v) => assert_eq!(v.text.value, "k"),
                    other => panic!("expected Value, got {other:?}"),
                }
            }
            other => panic!("expected Map, got {other:?}"),
        },
        other => panic!("expected Collection, got {other:?}"),
    }
}

#[test]
fn sb07_nested_collection_with_inner_ref_snapshot() {
    let result = parse("<map><entry key=\"triggers\"><list><ref bean=\"triggerBean\"/><value>literal</value></list></entry></map>");
    match result {
        InjectValue::Collection(c) => match c.value {
            Collection::Map_ { entries, .. } => match &entries[0].value {
                InjectValue::Collection(inner) => match &inner.value {
                    Collection::List { items, .. } => {
                        assert_eq!(items.len(), 2);
                        match &items[0] {
                            InjectValue::Ref(r) => assert_eq!(r.value.raw, "triggerBean"),
                            other => panic!("expected Ref, got {other:?}"),
                        }
                    }
                    other => panic!("expected List, got {other:?}"),
                },
                other => panic!("expected nested Collection, got {other:?}"),
            },
            other => panic!("expected Map, got {other:?}"),
        },
        other => panic!("expected Collection, got {other:?}"),
    }
}

#[test]
fn sb07_entry_key_and_key_ref_both_present_is_conflicting_value_and_ref() {
    let element = parse_fragment("<map><entry key=\"a\" key-ref=\"aBean\" value=\"1\"/></map>");
    let mut diagnostics = no_diag();
    let _ = parse_collection_value(&NsScope::default(), &mut diagnostics, 0, &element);
    assert!(diagnostics
        .iter()
        .any(|d| d.code == DiagCode::ConflictingValueAndRef));
}

#[test]
fn sb07_entry_value_and_value_ref_both_present_is_conflicting_value_and_ref() {
    let element = parse_fragment("<map><entry key=\"a\" value=\"1\" value-ref=\"aBean\"/></map>");
    let mut diagnostics = no_diag();
    let _ = parse_collection_value(&NsScope::default(), &mut diagnostics, 0, &element);
    assert!(diagnostics
        .iter()
        .any(|d| d.code == DiagCode::ConflictingValueAndRef));
}

#[test]
fn sb07_list_span_covers_the_whole_element() {
    let source = "<list><value>a</value></list>";
    let element = parse_fragment(source);
    let mut diagnostics = no_diag();
    let result = parse_collection_value(&NsScope::default(), &mut diagnostics, 0, &element);
    match result {
        InjectValue::Collection(c) => {
            assert_eq!(&source[c.span.start as usize..c.span.end as usize], source);
        }
        other => panic!("expected Collection, got {other:?}"),
    }
}

#[test]
fn sb07_entry_and_prop_span_cover_their_own_elements() {
    let source = "<map><entry key=\"a\" value=\"1\"/></map>";
    let element = parse_fragment(source);
    let mut diagnostics = no_diag();
    let result = parse_collection_value(&NsScope::default(), &mut diagnostics, 0, &element);
    match result {
        InjectValue::Collection(c) => match c.value {
            Collection::Map_ { entries, .. } => {
                let entry = &entries[0];
                assert_eq!(
                    &source[entry.span.start as usize..entry.span.end as usize],
                    "<entry key=\"a\" value=\"1\"/>"
                );
            }
            other => panic!("expected Map, got {other:?}"),
        },
        other => panic!("expected Collection, got {other:?}"),
    }

    let props_source = "<props><prop key=\"a\">1</prop></props>";
    let props_element = parse_fragment(props_source);
    let mut diagnostics2 = no_diag();
    let props_result =
        parse_collection_value(&NsScope::default(), &mut diagnostics2, 0, &props_element);
    match props_result {
        InjectValue::Collection(c) => match c.value {
            Collection::Props { entries, .. } => {
                let prop = &entries[0];
                assert_eq!(
                    &props_source[prop.span.start as usize..prop.span.end as usize],
                    "<prop key=\"a\">1</prop>"
                );
            }
            other => panic!("expected Props, got {other:?}"),
        },
        other => panic!("expected Collection, got {other:?}"),
    }
}

#[test]
fn sb07_depth_limit_downgrades_collection_to_null_plus_diagnostic() {
    let element = parse_fragment("<list><value>a</value></list>");
    let mut diagnostics = no_diag();
    let result = parse_collection_value(
        &NsScope::default(),
        &mut diagnostics,
        DEPTH_LIMIT,
        &element,
    );
    assert_eq!(result, InjectValue::Null(element.span));
    assert!(diagnostics
        .iter()
        .any(|d| d.code == DiagCode::NestingLimitExceeded));
}

#[test]
fn sb07_depth_one_below_limit_still_recurses_into_a_real_collection() {
    let element = parse_fragment("<list><value>a</value></list>");
    let mut diagnostics = no_diag();
    let result = parse_collection_value(
        &NsScope::default(),
        &mut diagnostics,
        DEPTH_LIMIT - 1,
        &element,
    );
    assert!(!diagnostics
        .iter()
        .any(|d| d.code == DiagCode::NestingLimitExceeded));
    assert!(matches!(result, InjectValue::Collection(_)));
}

