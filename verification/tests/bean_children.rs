//! The children of a `<bean>`: qualifiers, meta entries, descriptions,
//! decorators, lookup and replaced methods.
use beans_xml::bean::parse_bean;
use beans_xml::events::build_tree;
use beans_xml::scope::NsScope;
use beans_xml::{Bean, DiagCode, Diagnostic, RefKind};

fn parse_bean_fragment(source: &str) -> (Bean, Vec<Diagnostic>) {
    let element = build_tree(source).root.expect("root element found");
    let mut diagnostics = Vec::new();
    let bean = parse_bean(&NsScope::default(), &element, &mut diagnostics, 0);
    (bean, diagnostics)
}

#[test]
fn sb02b_qualifier_with_attribute_snapshot() {
    let source = "<bean id=\"myBean\" class=\"com.example.MyService\"><qualifier type=\"com.example.Genuine\" value=\"main\"><attribute key=\"priority\" value=\"high\"/></qualifier></bean>";
    let (bean, diagnostics) = parse_bean_fragment(source);
    assert!(
        diagnostics.is_empty(),
        "unexpected diagnostics: {diagnostics:?}"
    );
    assert_eq!(bean.qualifiers.len(), 1);
    let qualifier = &bean.qualifiers[0];
    assert_eq!(
        qualifier.type_.as_ref().map(|t| t.value.raw.as_str()),
        Some("com.example.Genuine")
    );
    assert_eq!(
        qualifier.value.as_ref().map(|v| v.value.as_str()),
        Some("main")
    );
    assert_eq!(qualifier.attributes.len(), 1);
    assert_eq!(qualifier.attributes[0].key.value, "priority");
    assert_eq!(qualifier.attributes[0].value.value, "high");
}

#[test]
fn sb02b_qualifier_without_type_or_value_still_parses() {
    let source = "<bean id=\"myBean\" class=\"com.example.MyService\"><qualifier/></bean>";
    let (bean, diagnostics) = parse_bean_fragment(source);
    assert!(diagnostics.is_empty());
    assert_eq!(bean.qualifiers.len(), 1);
    let qualifier = &bean.qualifiers[0];
    assert_eq!(qualifier.type_, None);
    assert_eq!(qualifier.value, None);
    assert!(qualifier.attributes.is_empty());
}

#[test]
fn sb02b_qualifier_empty_type_is_treated_as_absent() {
    let source = "<bean id=\"myBean\" class=\"com.example.MyService\"><qualifier type=\"\" value=\"main\"/></bean>";
    let (bean, _diagnostics) = parse_bean_fragment(source);
    assert_eq!(bean.qualifiers.len(), 1);
    assert_eq!(bean.qualifiers[0].type_, None);
}

#[test]
fn sb02b_multiple_qualifiers_are_all_preserved() {
    let source = "<bean id=\"myBean\" class=\"com.example.MyService\"><qualifier type=\"com.example.Genuine\"/><qualifier value=\"secondary\"/></bean>";
    let (bean, _diagnostics) = parse_bean_fragment(source);
    assert_eq!(bean.qualifiers.len(), 2);
}

#[test]
fn sb02b_qualifier_attribute_missing_key_or_value_is_lenient_skip() {
    let source = "<bean id=\"myBean\" class=\"com.example.MyService\"><qualifier type=\"com.example.Genuine\"><attribute value=\"onlyValue\"/><attribute key=\"onlyKey\"/></qualifier></bean>";
    let (bean, diagnostics) = parse_bean_fragment(source);
    assert!(
        diagnostics.is_empty(),
        "no diagnostic invented for this untested edge shape: {diagnostics:?}"
    );
    assert_eq!(bean.qualifiers.len(), 1);
    assert!(
        bean.qualifiers[0].attributes.is_empty(),
        "an <attribute> missing key= or value= must be skipped, not partially recorded: {:?}",
        bean.qualifiers[0].attributes
    );
}

#[test]
fn sb02b_qualifier_multiple_attributes_are_all_preserved_in_order() {
    let source = "<bean id=\"myBean\" class=\"com.example.MyService\"><qualifier type=\"com.example.Genuine\"><attribute key=\"a\" value=\"1\"/><attribute key=\"b\" value=\"2\"/></qualifier></bean>";
    let (bean, _diagnostics) = parse_bean_fragment(source);
    assert_eq!(
        bean.qualifiers[0]
            .attributes
            .iter()
            .map(|a| (a.key.value.as_str(), a.value.value.as_str()))
            .collect::<Vec<_>>(),
        vec![("a", "1"), ("b", "2")]
    );
}

#[test]
fn sb02b_qualifier_attribute_empty_value_is_recorded_as_present_but_empty() {
    let source = "<bean id=\"myBean\" class=\"com.example.MyService\"><qualifier type=\"com.example.Genuine\"><attribute key=\"priority\" value=\"\"/></qualifier></bean>";
    let (bean, _diagnostics) = parse_bean_fragment(source);
    assert_eq!(bean.qualifiers[0].attributes.len(), 1);
    assert_eq!(bean.qualifiers[0].attributes[0].key.value, "priority");
    assert_eq!(bean.qualifiers[0].attributes[0].value.value, "");
}

#[test]
fn sb02b_qualifier_nested_attribute_non_beans_ns_is_dropped() {
    let source = "<bean id=\"myBean\" class=\"com.example.MyService\"><qualifier type=\"com.example.Genuine\"><attribute xmlns=\"http://not-beans\" key=\"priority\" value=\"high\"/></qualifier></bean>";
    let (bean, diagnostics) = parse_bean_fragment(source);
    assert!(
        diagnostics.is_empty(),
        "unexpected diagnostics: {diagnostics:?}"
    );
    assert!(
        bean.qualifiers[0].attributes.is_empty(),
        "a non-beans-ns nested <attribute> must not be captured: {:?}",
        bean.qualifiers[0].attributes
    );
}

#[test]
fn sb02b_meta_snapshot() {
    let source = "<bean id=\"myBean\" class=\"com.example.MyService\"><meta key=\"buildTool\" value=\"maven\"/></bean>";
    let (bean, diagnostics) = parse_bean_fragment(source);
    assert!(
        diagnostics.is_empty(),
        "unexpected diagnostics: {diagnostics:?}"
    );
    assert_eq!(bean.meta.len(), 1);
    assert_eq!(bean.meta[0].key.value, "buildTool");
    assert_eq!(bean.meta[0].value.value, "maven");
}

#[test]
fn sb02b_multiple_meta_entries_are_all_preserved_in_order() {
    let source = "<bean id=\"myBean\" class=\"com.example.MyService\"><meta key=\"a\" value=\"1\"/><meta key=\"b\" value=\"2\"/></bean>";
    let (bean, _diagnostics) = parse_bean_fragment(source);
    assert_eq!(
        bean.meta
            .iter()
            .map(|m| (m.key.value.as_str(), m.value.value.as_str()))
            .collect::<Vec<_>>(),
        vec![("a", "1"), ("b", "2")]
    );
}

#[test]
fn sb02b_meta_missing_key_or_value_is_lenient_skip() {
    let source = "<bean id=\"myBean\" class=\"com.example.MyService\"><meta value=\"onlyValue\"/><meta key=\"onlyKey\"/></bean>";
    let (bean, diagnostics) = parse_bean_fragment(source);
    assert!(
        bean.meta.is_empty(),
        "a <meta> missing key= or value= must be skipped, not partially recorded: {:?}",
        bean.meta
    );
    assert!(
        diagnostics.is_empty(),
        "no diagnostic invented for this untested edge shape: {diagnostics:?}"
    );
}

#[test]
fn sb02b_description_snapshot() {
    let source = "<bean id=\"myBean\" class=\"com.example.MyService\"><description>Handles example widgets.</description></bean>";
    let (bean, diagnostics) = parse_bean_fragment(source);
    assert!(
        diagnostics.is_empty(),
        "unexpected diagnostics: {diagnostics:?}"
    );
    assert_eq!(
        bean.description.as_ref().map(|d| d.value.as_str()),
        Some("Handles example widgets.")
    );
}

#[test]
fn sb02b_scoped_proxy_decorator_preserved_alongside_qualifier_meta_description_snapshot() {
    let source = "<bean id=\"myBean\" class=\"com.example.MyService\" xmlns:aop=\"http://www.springframework.org/schema/aop\"><description>Handles example widgets.</description><qualifier type=\"com.example.Genuine\" value=\"main\"><attribute key=\"priority\" value=\"high\"/></qualifier><meta key=\"buildTool\" value=\"maven\"/><aop:scoped-proxy proxy-target-class=\"true\"/></bean>";
    let (bean, diagnostics) = parse_bean_fragment(source);
    assert!(
        diagnostics.is_empty(),
        "unexpected diagnostics: {diagnostics:?}"
    );
    assert_eq!(
        bean.description.as_ref().map(|d| d.value.as_str()),
        Some("Handles example widgets.")
    );
    assert_eq!(bean.qualifiers.len(), 1);
    assert_eq!(bean.meta.len(), 1);
    assert_eq!(bean.decorators.len(), 1);
    assert_eq!(bean.decorators[0].local, "scoped-proxy");
    assert_eq!(
        bean.decorators[0].ns,
        "http://www.springframework.org/schema/aop"
    );
}

#[test]
fn sb06b_lookup_method_with_name_and_bean_snapshot() {
    let source = "<bean id=\"myBean\" class=\"com.example.MyService\"><lookup-method name=\"createCommand\" bean=\"commandBean\"/></bean>";
    let (bean, diagnostics) = parse_bean_fragment(source);
    assert!(
        diagnostics.is_empty(),
        "unexpected diagnostics: {diagnostics:?}"
    );
    assert_eq!(bean.lookup_methods.len(), 1);
    let lookup_method = &bean.lookup_methods[0].value;
    assert_eq!(
        lookup_method.name.as_ref().map(|n| n.value.as_str()),
        Some("createCommand")
    );
    assert_eq!(
        lookup_method.bean.as_ref().map(|b| b.value.raw.as_str()),
        Some("commandBean")
    );
    assert_eq!(
        lookup_method.bean.as_ref().unwrap().value.kind,
        RefKind::Bean
    );
}

#[test]
fn sb06b_lookup_method_without_name_still_carries_bean() {
    let source = "<bean id=\"myBean\" class=\"com.example.MyService\"><lookup-method bean=\"commandBean\"/></bean>";
    let (bean, diagnostics) = parse_bean_fragment(source);
    assert!(
        diagnostics.is_empty(),
        "unexpected diagnostics: {diagnostics:?}"
    );
    assert_eq!(bean.lookup_methods.len(), 1);
    let lookup_method = &bean.lookup_methods[0].value;
    assert_eq!(lookup_method.name, None);
    assert_eq!(
        lookup_method.bean.as_ref().map(|b| b.value.raw.as_str()),
        Some("commandBean")
    );
}

#[test]
fn sb06b_lookup_method_missing_bean_is_ref_without_target_element_preserved() {
    let source = "<bean id=\"myBean\" class=\"com.example.MyService\"><lookup-method name=\"createCommand\"/></bean>";
    let (bean, diagnostics) = parse_bean_fragment(source);
    assert_eq!(
        bean.lookup_methods.len(),
        1,
        "element must still be preserved"
    );
    let lookup_method = &bean.lookup_methods[0].value;
    assert_eq!(
        lookup_method.name.as_ref().map(|n| n.value.as_str()),
        Some("createCommand")
    );
    assert_eq!(lookup_method.bean, None, "no edge without a bean= target");
    assert!(diagnostics
        .iter()
        .any(|d| d.code == DiagCode::RefWithoutTarget));
}

#[test]
fn sb06b_lookup_method_empty_bean_is_also_ref_without_target() {
    // Present-but-empty bean= is a second, distinct route to the same
    // RefWithoutTarget outcome (via `spanned_bean_ref`, not the
    // missing-attribute branch of `required_bean_ref`).
    let source = "<bean id=\"myBean\" class=\"com.example.MyService\"><lookup-method name=\"createCommand\" bean=\"\"/></bean>";
    let (bean, diagnostics) = parse_bean_fragment(source);
    assert_eq!(bean.lookup_methods.len(), 1);
    assert_eq!(bean.lookup_methods[0].value.bean, None);
    assert!(diagnostics
        .iter()
        .any(|d| d.code == DiagCode::RefWithoutTarget));
}

#[test]
fn sb06b_multiple_lookup_methods_are_all_preserved() {
    let source = "<bean id=\"myBean\" class=\"com.example.MyService\"><lookup-method name=\"a\" bean=\"beanA\"/><lookup-method name=\"b\" bean=\"beanB\"/></bean>";
    let (bean, _diagnostics) = parse_bean_fragment(source);
    assert_eq!(bean.lookup_methods.len(), 2);
}

#[test]
fn sb06b_replaced_method_with_name_replacer_and_arg_types_snapshot() {
    let source = "<bean id=\"myBean\" class=\"com.example.MyService\"><replaced-method name=\"computeValue\" replacer=\"replacerBean\"><arg-type match=\"java.lang.String\"/><arg-type match=\"int\"/></replaced-method></bean>";
    let (bean, diagnostics) = parse_bean_fragment(source);
    assert!(
        diagnostics.is_empty(),
        "unexpected diagnostics: {diagnostics:?}"
    );
    assert_eq!(bean.replaced_methods.len(), 1);
    let replaced_method = &bean.replaced_methods[0].value;
    assert_eq!(replaced_method.name.value, "computeValue");
    assert_eq!(
        replaced_method
            .replacer
            .as_ref()
            .map(|r| r.value.raw.as_str()),
        Some("replacerBean")
    );
    assert_eq!(
        replaced_method
            .arg_types
            .iter()
            .map(|a| a.value.as_str())
            .collect::<Vec<_>>(),
        vec!["java.lang.String", "int"]
    );
}

#[test]
fn sb06b_replaced_method_without_arg_types_is_empty_vec() {
    let source = "<bean id=\"myBean\" class=\"com.example.MyService\"><replaced-method name=\"computeValue\" replacer=\"replacerBean\"/></bean>";
    let (bean, diagnostics) = parse_bean_fragment(source);
    assert!(diagnostics.is_empty());
    assert!(bean.replaced_methods[0].value.arg_types.is_empty());
}

#[test]
fn sb06b_replaced_method_missing_replacer_is_ref_without_target_element_preserved() {
    let source = "<bean id=\"myBean\" class=\"com.example.MyService\"><replaced-method name=\"computeValue\"/></bean>";
    let (bean, diagnostics) = parse_bean_fragment(source);
    assert_eq!(
        bean.replaced_methods.len(),
        1,
        "element must still be preserved"
    );
    let replaced_method = &bean.replaced_methods[0].value;
    assert_eq!(replaced_method.name.value, "computeValue");
    assert_eq!(
        replaced_method.replacer, None,
        "no edge without a replacer= target"
    );
    assert!(diagnostics
        .iter()
        .any(|d| d.code == DiagCode::RefWithoutTarget));
}

#[test]
fn sb06b_replaced_method_empty_replacer_is_also_ref_without_target() {
    let source = "<bean id=\"myBean\" class=\"com.example.MyService\"><replaced-method name=\"computeValue\" replacer=\"\"/></bean>";
    let (bean, diagnostics) = parse_bean_fragment(source);
    assert_eq!(bean.replaced_methods[0].value.replacer, None);
    assert!(diagnostics
        .iter()
        .any(|d| d.code == DiagCode::RefWithoutTarget));
}

#[test]
fn sb06b_replaced_method_missing_name_falls_back_to_empty_string_no_diagnostic() {
    let source = "<bean id=\"myBean\" class=\"com.example.MyService\"><replaced-method replacer=\"replacerBean\"/></bean>";
    let (bean, diagnostics) = parse_bean_fragment(source);
    assert!(
        diagnostics.is_empty(),
        "no diagnostic invented for missing name=: {diagnostics:?}"
    );
    assert_eq!(bean.replaced_methods[0].value.name.value, "");
    assert_eq!(
        bean.replaced_methods[0]
            .value
            .replacer
            .as_ref()
            .map(|r| r.value.raw.as_str()),
        Some("replacerBean")
    );
}

#[test]
fn sb06b_arg_type_missing_match_is_lenient_skip() {
    let source = "<bean id=\"myBean\" class=\"com.example.MyService\"><replaced-method name=\"computeValue\" replacer=\"replacerBean\"><arg-type/><arg-type match=\"int\"/></replaced-method></bean>";
    let (bean, diagnostics) = parse_bean_fragment(source);
    assert!(
        diagnostics.is_empty(),
        "no diagnostic invented for this untested edge shape: {diagnostics:?}"
    );
    assert_eq!(
        bean.replaced_methods[0]
            .value
            .arg_types
            .iter()
            .map(|a| a.value.as_str())
            .collect::<Vec<_>>(),
        vec!["int"]
    );
}

#[test]
fn sb06b_arg_type_present_but_empty_match_is_lenient_skip() {
    let source = "<bean id=\"myBean\" class=\"com.example.MyService\"><replaced-method name=\"computeValue\" replacer=\"replacerBean\"><arg-type match=\"\"/><arg-type match=\"int\"/></replaced-method></bean>";
    let (bean, diagnostics) = parse_bean_fragment(source);
    assert!(
        diagnostics.is_empty(),
        "no diagnostic invented for a present-but-empty match=: {diagnostics:?}"
    );
    assert_eq!(
        bean.replaced_methods[0]
            .value
            .arg_types
            .iter()
            .map(|a| a.value.as_str())
            .collect::<Vec<_>>(),
        vec!["int"],
        "an empty match= must never be recorded verbatim — same lenient skip as a fully \
         absent match="
    );
}

#[test]
fn arg_type_whitespace_match_falls_back_to_text_body() {
    let source = "<bean id=\"myBean\" class=\"com.example.MyService\"><replaced-method name=\"computeValue\" replacer=\"replacerBean\"><arg-type match=\"   \">com.example.ArgType</arg-type></replaced-method></bean>";
    let (bean, diagnostics) = parse_bean_fragment(source);
    assert!(
        diagnostics.is_empty(),
        "unexpected diagnostics: {diagnostics:?}"
    );
    assert_eq!(
        bean.replaced_methods[0]
            .value
            .arg_types
            .iter()
            .map(|a| a.value.as_str())
            .collect::<Vec<_>>(),
        vec!["com.example.ArgType"],
        "a whitespace-only match= must fall back to the text body, not be recorded as-is"
    );
}

#[test]
fn p4_arg_type_text_content_form_is_accepted_as_string_pattern() {
    let source = "<bean id=\"myBean\" class=\"com.example.MyService\"><replaced-method name=\"computeValue\" replacer=\"replacerBean\"><arg-type>  java.lang.String  </arg-type><arg-type match=\"int\"/></replaced-method></bean>";
    let (bean, diagnostics) = parse_bean_fragment(source);
    assert!(
        diagnostics.is_empty(),
        "text-content arg-type must not raise a diagnostic: {diagnostics:?}"
    );
    assert_eq!(
        bean.replaced_methods[0]
            .value
            .arg_types
            .iter()
            .map(|a| a.value.as_str())
            .collect::<Vec<_>>(),
        vec!["java.lang.String", "int"],
        "text-content form must be trimmed and land as a plain String pattern"
    );
}

#[test]
fn p4_arg_type_match_attribute_wins_over_text_content_when_both_present() {
    let source = "<bean id=\"myBean\" class=\"com.example.MyService\"><replaced-method name=\"computeValue\" replacer=\"replacerBean\"><arg-type match=\"java.lang.Integer\">java.lang.String</arg-type></replaced-method></bean>";
    let (bean, diagnostics) = parse_bean_fragment(source);
    assert!(
        diagnostics.is_empty(),
        "unexpected diagnostics: {diagnostics:?}"
    );
    assert_eq!(
        bean.replaced_methods[0]
            .value
            .arg_types
            .iter()
            .map(|a| a.value.as_str())
            .collect::<Vec<_>>(),
        vec!["java.lang.Integer"],
        "match= must win over the text body, and the text body must not also be pushed"
    );
}

#[test]
fn p4_arg_type_whitespace_only_text_content_is_absent() {
    let source = "<bean id=\"myBean\" class=\"com.example.MyService\"><replaced-method name=\"computeValue\" replacer=\"replacerBean\"><arg-type>   </arg-type><arg-type></arg-type><arg-type match=\"int\"/></replaced-method></bean>";
    let (bean, diagnostics) = parse_bean_fragment(source);
    assert!(
        diagnostics.is_empty(),
        "unexpected diagnostics: {diagnostics:?}"
    );
    assert_eq!(
        bean.replaced_methods[0]
            .value
            .arg_types
            .iter()
            .map(|a| a.value.as_str())
            .collect::<Vec<_>>(),
        vec!["int"],
        "whitespace-only/empty text-content must not push an arg_types entry"
    );
}

#[test]
fn sb06b_arg_type_nested_non_beans_ns_is_dropped() {
    // Same namespace-scoping pin
    // `sb02b_qualifier_nested_attribute_non_beans_ns_is_dropped` applies
    // for `parse_qualifier`'s `<attribute>` loop, exercised here for
    // `parse_replaced_method`'s independently re-derived
    // `own_scope`/`child_scope`: an `<arg-type>` that redeclares
    // `xmlns` to something other than the beans namespace on itself
    // must not be captured, and the genuine beans-ns sibling must
    // still land.
    let source = "<bean id=\"myBean\" class=\"com.example.MyService\"><replaced-method name=\"computeValue\" replacer=\"replacerBean\"><arg-type xmlns=\"http://not-beans\" match=\"java.lang.String\"/><arg-type match=\"int\"/></replaced-method></bean>";
    let (bean, diagnostics) = parse_bean_fragment(source);
    assert!(
        diagnostics.is_empty(),
        "unexpected diagnostics: {diagnostics:?}"
    );
    assert_eq!(
        bean.replaced_methods[0]
            .value
            .arg_types
            .iter()
            .map(|a| a.value.as_str())
            .collect::<Vec<_>>(),
        vec!["int"],
        "a non-beans-ns nested <arg-type> must not be captured"
    );
}

#[test]
fn arg_type_text_content_cdata_with_surrounding_whitespace_keeps_span_invariant() {
    let source = "<bean id=\"myBean\" class=\"com.example.MyService\"><replaced-method name=\"computeValue\" replacer=\"replacerBean\"><arg-type>\n  <![CDATA[java.lang.String]]>\n</arg-type></replaced-method></bean>";
    let (bean, diagnostics) = parse_bean_fragment(source);
    assert!(
        diagnostics.is_empty(),
        "unexpected diagnostics: {diagnostics:?}"
    );
    let arg_type = &bean.replaced_methods[0].value.arg_types[0];
    assert_eq!(arg_type.value, "java.lang.String");
    let slice = &source[arg_type.span.start as usize..arg_type.span.end as usize];
    assert!(
        slice.contains(&arg_type.value),
        "span slice ({slice:?}) must contain the decoded value ({:?}), not markup bytes \
         from between the concatenated text/CDATA runs",
        arg_type.value
    );
}

#[test]
fn sb06b_multiple_arg_types_preserve_document_order() {
    let source = "<bean id=\"myBean\" class=\"com.example.MyService\"><replaced-method name=\"computeValue\" replacer=\"replacerBean\"><arg-type match=\"zeta\"/><arg-type match=\"mu\"/><arg-type match=\"alpha\"/></replaced-method></bean>";
    let (bean, diagnostics) = parse_bean_fragment(source);
    assert!(diagnostics.is_empty());
    assert_eq!(
        bean.replaced_methods[0]
            .value
            .arg_types
            .iter()
            .map(|a| a.value.as_str())
            .collect::<Vec<_>>(),
        vec!["zeta", "mu", "alpha"]
    );
}

#[test]
fn sb06b_lookup_and_replaced_method_coexist_on_same_bean() {
    let source = "<bean id=\"myBean\" class=\"com.example.MyService\"><lookup-method name=\"createCommand\" bean=\"commandBean\"/><replaced-method name=\"computeValue\" replacer=\"replacerBean\"><arg-type match=\"java.lang.String\"/></replaced-method></bean>";
    let (bean, diagnostics) = parse_bean_fragment(source);
    assert!(diagnostics.is_empty());
    assert_eq!(bean.lookup_methods.len(), 1);
    assert_eq!(bean.replaced_methods.len(), 1);
}

