//! Collections read as values: `<list>`, `<set>`, `<array>`, `<map>`,
//! `<props>` and their attributes.
use beans_xml::collection::parse_collection_value;
use beans_xml::events::{build_tree, XmlElement};
use beans_xml::scope::NsScope;
use beans_xml::{Collection, Diagnostic, InjectValue};

fn parse_fragment(source: &str) -> XmlElement {
    build_tree(source).root.expect("root element found")
}

fn no_diag() -> Vec<Diagnostic> {
    Vec::new()
}

fn parse(source: &str) -> InjectValue {
    let element = parse_fragment(source);
    let mut diagnostics = no_diag();
    let result = parse_collection_value(&NsScope::default(), &mut diagnostics, 0, &element);
    assert!(
        diagnostics.is_empty(),
        "unexpected diagnostics for {source}: {diagnostics:?}"
    );
    result
}

#[test]
fn sb07_list_merge_true_is_recorded() {
    let result = parse("<list merge=\"true\"><value>a</value></list>");
    match result {
        InjectValue::Collection(c) => match c.value {
            Collection::List { merge, .. } => assert_eq!(merge, Some(true)),
            other => panic!("expected List, got {other:?}"),
        },
        other => panic!("expected Collection, got {other:?}"),
    }
}

#[test]
fn sb07_map_merge_and_props_merge_are_recorded() {
    let map = parse("<map merge=\"true\"><entry key=\"a\" value=\"1\"/></map>");
    match map {
        InjectValue::Collection(c) => match c.value {
            Collection::Map_ { merge, .. } => assert_eq!(merge, Some(true)),
            other => panic!("expected Map, got {other:?}"),
        },
        other => panic!("expected Collection, got {other:?}"),
    }

    let props = parse("<props merge=\"false\"><prop key=\"a\">1</prop></props>");
    match props {
        InjectValue::Collection(c) => match c.value {
            Collection::Props { merge, .. } => assert_eq!(merge, Some(false)),
            other => panic!("expected Props, got {other:?}"),
        },
        other => panic!("expected Collection, got {other:?}"),
    }
}

#[test]
fn sb07_merge_absent_is_none() {
    let result = parse("<list><value>a</value></list>");
    match result {
        InjectValue::Collection(c) => match c.value {
            Collection::List { merge, .. } => assert_eq!(merge, None),
            other => panic!("expected List, got {other:?}"),
        },
        other => panic!("expected Collection, got {other:?}"),
    }
}

#[test]
fn sb07_entry_key_element_wrapping_ref_snapshot() {
    let result = parse("<map><entry value=\"1\"><key><ref bean=\"keyBean\"/></key></entry></map>");
    match result {
        InjectValue::Collection(c) => match c.value {
            Collection::Map_ { entries, .. } => match &entries[0].key {
                InjectValue::Ref(r) => assert_eq!(r.value.raw, "keyBean"),
                other => panic!("expected Ref, got {other:?}"),
            },
            other => panic!("expected Map, got {other:?}"),
        },
        other => panic!("expected Collection, got {other:?}"),
    }
}

#[test]
fn sb07_map_prefixed_foreign_entry_is_skipped() {
    let result = parse("<map xmlns:foo=\"urn:not-spring\"><foo:entry key=\"a\" value=\"1\"/></map>");
    match result {
        InjectValue::Collection(c) => match c.value {
            Collection::Map_ { entries, .. } => assert!(entries.is_empty()),
            other => panic!("expected Map, got {other:?}"),
        },
        other => panic!("expected Collection, got {other:?}"),
    }
}

#[test]
fn sb07_map_entry_with_own_xmlns_redeclaration_is_skipped() {
    // The <entry> element redeclares its own default namespace to
    // something other than the beans namespace. Per standard XML
    // namespace scoping, that declaration applies to the element it's
    // on, so this must not be recognized as a beans <entry>.
    let result = parse("<map><entry xmlns=\"urn:not-spring\" key=\"a\" value=\"1\"/></map>");
    match result {
        InjectValue::Collection(c) => match c.value {
            Collection::Map_ { entries, .. } => assert!(entries.is_empty()),
            other => panic!("expected Map, got {other:?}"),
        },
        other => panic!("expected Collection, got {other:?}"),
    }
}

#[test]
fn sb07_props_prefixed_foreign_prop_is_skipped() {
    let result = parse("<props xmlns:foo=\"urn:not-spring\"><foo:prop key=\"a\">1</foo:prop></props>");
    match result {
        InjectValue::Collection(c) => match c.value {
            Collection::Props { entries, .. } => assert!(entries.is_empty()),
            other => panic!("expected Props, got {other:?}"),
        },
        other => panic!("expected Collection, got {other:?}"),
    }
}

#[test]
fn sb07_props_prop_with_own_xmlns_redeclaration_is_skipped() {
    let result = parse("<props><prop xmlns=\"urn:not-spring\" key=\"a\">1</prop></props>");
    match result {
        InjectValue::Collection(c) => match c.value {
            Collection::Props { entries, .. } => assert!(entries.is_empty()),
            other => panic!("expected Props, got {other:?}"),
        },
        other => panic!("expected Collection, got {other:?}"),
    }
}

#[test]
fn sb07_entry_key_prefixed_foreign_namespace_is_not_treated_as_key() {
    let result = parse("<map xmlns:foo=\"urn:not-spring\"><entry value=\"1\"><foo:key><value>k</value></foo:key></entry></map>");
    match result {
        InjectValue::Collection(c) => match c.value {
            Collection::Map_ { entries, .. } => {
                assert!(matches!(entries[0].key, InjectValue::Null(_)));
            }
            other => panic!("expected Map, got {other:?}"),
        },
        other => panic!("expected Collection, got {other:?}"),
    }
}

#[test]
fn sb07_entry_key_with_own_xmlns_redeclaration_is_not_treated_as_key() {
    // The <key> element redeclares its own default namespace; per
    // standard XML namespace scoping that applies to <key> itself, so
    // it must not be recognized as a beans <key> even though the
    // enclosing <entry>/<map> are unqualified.
    let result = parse("<map><entry value=\"1\"><key xmlns=\"urn:not-spring\"><value>k</value></key></entry></map>");
    match result {
        InjectValue::Collection(c) => match c.value {
            Collection::Map_ { entries, .. } => {
                assert!(matches!(entries[0].key, InjectValue::Null(_)));
            }
            other => panic!("expected Map, got {other:?}"),
        },
        other => panic!("expected Collection, got {other:?}"),
    }
}

#[test]
fn sb07_map_key_type_lands_on_collection_map_entry_value_type_lands_on_map_entry() {
    let result = parse("<map key-type=\"java.lang.String\"><entry key=\"a\" value=\"1\" value-type=\"java.lang.Integer\"/></map>");
    match result {
        InjectValue::Collection(c) => match c.value {
            Collection::Map_ {
                key_type,
                value_type,
                entries,
                ..
            } => {
                assert_eq!(
                    key_type.as_ref().map(|t| t.value.raw.as_str()),
                    Some("java.lang.String")
                );
                // No map-level value-type attribute here — the map's
                // own field stays None; the entry's own override is
                // what carries "java.lang.Integer".
                assert_eq!(value_type, None);
                assert_eq!(
                    entries[0].value_type.as_ref().map(|t| t.value.raw.as_str()),
                    Some("java.lang.Integer")
                );
            }
            other => panic!("expected Map, got {other:?}"),
        },
        other => panic!("expected Collection, got {other:?}"),
    }
}

#[test]
fn sb07_map_level_value_type_is_distinct_from_entry_level_value_type() {
    let result = parse("<map value-type=\"java.lang.String\"><entry key=\"a\" value=\"1\"/></map>");
    match result {
        InjectValue::Collection(c) => match c.value {
            Collection::Map_ {
                value_type,
                entries,
                ..
            } => {
                assert_eq!(
                    value_type.as_ref().map(|t| t.value.raw.as_str()),
                    Some("java.lang.String")
                );
                assert_eq!(entries[0].value_type, None);
            }
            other => panic!("expected Map, got {other:?}"),
        },
        other => panic!("expected Collection, got {other:?}"),
    }
}

#[test]
fn sb07_nested_list_of_lists_structural() {
    let result = parse("<list><list><value>deep</value></list></list>");
    match result {
        InjectValue::Collection(c) => match c.value {
            Collection::List { items, .. } => {
                assert_eq!(items.len(), 1);
                match &items[0] {
                    InjectValue::Collection(inner) => match &inner.value {
                        Collection::List { items, .. } => {
                            assert_eq!(items.len(), 1);
                            match &items[0] {
                                InjectValue::Value(v) => assert_eq!(v.text.value, "deep"),
                                other => panic!("expected Value, got {other:?}"),
                            }
                        }
                        other => panic!("expected inner List, got {other:?}"),
                    },
                    other => panic!("expected Collection, got {other:?}"),
                }
            }
            other => panic!("expected List, got {other:?}"),
        },
        other => panic!("expected Collection, got {other:?}"),
    }
}

#[test]
fn sb07_entry_with_no_key_at_all_falls_back_to_null() {
    let result = parse("<map><entry value=\"1\"/></map>");
    match result {
        InjectValue::Collection(c) => match c.value {
            Collection::Map_ { entries, .. } => {
                assert!(matches!(entries[0].key, InjectValue::Null(_)));
            }
            other => panic!("expected Map, got {other:?}"),
        },
        other => panic!("expected Collection, got {other:?}"),
    }
}

#[test]
fn sb07_prop_without_key_attr_falls_back_to_empty_key() {
    let result = parse("<props><prop>orphan</prop></props>");
    match result {
        InjectValue::Collection(c) => match c.value {
            Collection::Props { entries, .. } => {
                assert_eq!(entries[0].key.value, "");
                assert_eq!(entries[0].value.text.value, "orphan");
            }
            other => panic!("expected Props, got {other:?}"),
        },
        other => panic!("expected Collection, got {other:?}"),
    }
}

#[test]
fn sb07_list_value_type_is_recorded() {
    let result = parse("<list value-type=\"java.lang.String\"><value>a</value></list>");
    match result {
        InjectValue::Collection(c) => match c.value {
            Collection::List { value_type, .. } => {
                assert_eq!(
                    value_type.as_ref().map(|t| t.value.raw.as_str()),
                    Some("java.lang.String")
                );
            }
            other => panic!("expected List, got {other:?}"),
        },
        other => panic!("expected Collection, got {other:?}"),
    }
}
