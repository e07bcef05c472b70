//! Elements of other namespaces kept as they stand, and the bean
//! references harvested from them.
use beans_xml::events::{build_tree, XmlElement};
use beans_xml::namespaced::{build_namespaced_element, harvest_refs};
use beans_xml::scope::NsScope;
use beans_xml::{DiagCode, Diagnostic, DEPTH_LIMIT};

fn parse_fragment(source: &str) -> XmlElement {
    build_tree(source).root.expect("root element found")
}

fn no_diag() -> Vec<Diagnostic> {
    Vec::new()
}

#[test]
fn sb02c_jee_jndi_lookup_is_id_bearing_snapshot() {
    let element = parse_fragment("<jee:jndi-lookup id=\"dataSource\" jndi-name=\"java:comp/env/jdbc/DataSource\" xmlns:jee=\"http://www.springframework.org/schema/jee\"/>");
    let mut diagnostics = no_diag();
    let result = build_namespaced_element(&NsScope::default(), &element, &mut diagnostics);
    assert!(
        diagnostics.is_empty(),
        "unexpected diagnostics: {diagnostics:?}"
    );
    assert_eq!(
        result.id.as_ref().map(|s| s.value.as_str()),
        Some("dataSource")
    );
    assert_eq!(result.local, "jndi-lookup");
    assert!(result.refs.is_empty(), "no environment-ref present here");
    assert_eq!(result.ns, "http://www.springframework.org/schema/jee");
    assert_eq!(result.span, element.span);
    let keys: Vec<(&str, &str)> = result
        .attrs
        .iter()
        .map(|a| (a.key.value.as_str(), a.value.value.as_str()))
        .collect();
    assert_eq!(keys, vec![("id", "dataSource"), ("jndi-name", "java:comp/env/jdbc/DataSource")]);
}

#[test]
fn sb02c_aop_aspect_ref_is_harvested() {
    let element = parse_fragment("<aop:aspect ref=\"loggingAspect\" xmlns:aop=\"http://www.springframework.org/schema/aop\"/>");
    let mut diagnostics = no_diag();
    let result = build_namespaced_element(&NsScope::default(), &element, &mut diagnostics);
    assert_eq!(result.refs.len(), 1);
    assert_eq!(result.refs[0].value.raw, "loggingAspect");
}

#[test]
fn sb02c_aop_advisor_advice_ref_is_harvested_but_pointcut_ref_is_not() {
    let element = parse_fragment("<aop:advisor advice-ref=\"txAdvice\" pointcut-ref=\"allBusinessMethods\" xmlns:aop=\"http://www.springframework.org/schema/aop\"/>");
    let mut diagnostics = no_diag();
    let result = build_namespaced_element(&NsScope::default(), &element, &mut diagnostics);
    assert_eq!(result.refs.len(), 1, "only advice-ref, never pointcut-ref");
    assert_eq!(result.refs[0].value.raw, "txAdvice");
    assert!(
        !result
            .refs
            .iter()
            .any(|r| r.value.raw == "allBusinessMethods"),
        "pointcut-ref must never be harvested — a pointcut is not a bean"
    );
}

#[test]
fn sb02c_tx_advice_transaction_manager_is_harvested() {
    let element = parse_fragment("<tx:advice transaction-manager=\"txManager\" xmlns:tx=\"http://www.springframework.org/schema/tx\"/>");
    let mut diagnostics = no_diag();
    let result = build_namespaced_element(&NsScope::default(), &element, &mut diagnostics);
    assert_eq!(result.refs.len(), 1);
    assert_eq!(result.refs[0].value.raw, "txManager");
}

#[test]
fn sb02c_tx_annotation_driven_transaction_manager_is_harvested() {
    let element = parse_fragment("<tx:annotation-driven transaction-manager=\"txManager\" xmlns:tx=\"http://www.springframework.org/schema/tx\"/>");
    let mut diagnostics = no_diag();
    let result = build_namespaced_element(&NsScope::default(), &element, &mut diagnostics);
    assert_eq!(result.refs.len(), 1);
    assert_eq!(result.refs[0].value.raw, "txManager");
}

#[test]
fn sb02c_task_scheduled_ref_and_scheduler_are_both_harvested() {
    let element = parse_fragment("<task:scheduled ref=\"myTask\" scheduler=\"myScheduler\" method=\"run\" cron=\"0 0 * * * *\" xmlns:task=\"http://www.springframework.org/schema/task\"/>");
    let mut diagnostics = no_diag();
    let result = build_namespaced_element(&NsScope::default(), &element, &mut diagnostics);
    let raws: Vec<&str> = result.refs.iter().map(|r| r.value.raw.as_str()).collect();
    assert_eq!(raws.len(), 2);
    assert!(raws.contains(&"myTask"));
    assert!(raws.contains(&"myScheduler"));
}

#[test]
fn sb02c_jee_jndi_lookup_environment_ref_is_harvested() {
    let element = parse_fragment("<jee:jndi-lookup id=\"dataSource\" jndi-name=\"java:comp/env/jdbc/DataSource\" environment-ref=\"jndiEnv\" xmlns:jee=\"http://www.springframework.org/schema/jee\"/>");
    let mut diagnostics = no_diag();
    let result = build_namespaced_element(&NsScope::default(), &element, &mut diagnostics);
    assert_eq!(result.refs.len(), 1);
    assert_eq!(result.refs[0].value.raw, "jndiEnv");
}

#[test]
fn sb02c_descendant_ns_elements_are_recursed_into_snapshot() {
    let element = parse_fragment("<aop:config xmlns:aop=\"http://www.springframework.org/schema/aop\"><aop:aspect ref=\"loggingAspect\"><aop:pointcut id=\"allMethods\" expression=\"execution(* com.example..*(..))\"/></aop:aspect></aop:config>");
    let mut diagnostics = no_diag();
    let result = build_namespaced_element(&NsScope::default(), &element, &mut diagnostics);
    assert!(
        diagnostics.is_empty(),
        "unexpected diagnostics: {diagnostics:?}"
    );
    assert_eq!(result.local, "config");
    assert_eq!(result.refs.len(), 1, "harvested from the descendant aspect");
    assert_eq!(result.refs[0].value.raw, "loggingAspect");
}

#[test]
fn sb02c_beans_ns_ref_child_is_not_harvested() {
    let element = parse_fragment("<util:list xmlns:util=\"http://www.springframework.org/schema/util\"><ref bean=\"itemOne\"/><value>literalItem</value></util:list>");
    let mut diagnostics = no_diag();
    let result = build_namespaced_element(&NsScope::default(), &element, &mut diagnostics);
    assert!(
        diagnostics.is_empty(),
        "unexpected diagnostics: {diagnostics:?}"
    );
    assert_eq!(result.local, "list");
    assert!(
        result.refs.is_empty(),
        "a beans-ns <ref> child must never be harvested: {:?}",
        result.refs
    );
}

#[test]
fn sb02c_attrs_preserves_own_attributes_excluding_xmlns() {
    let element = parse_fragment("<util:constant id=\"maxRetries\" static-field=\"com.example.Constants.MAX_RETRIES\" xmlns:util=\"http://www.springframework.org/schema/util\"/>");
    let mut diagnostics = no_diag();
    let result = build_namespaced_element(&NsScope::default(), &element, &mut diagnostics);
    let keys: Vec<&str> = result.attrs.iter().map(|a| a.key.value.as_str()).collect();
    assert!(keys.contains(&"id"));
    assert!(keys.contains(&"static-field"));
    assert!(
        !keys.iter().any(|k| k.starts_with("xmlns")),
        "xmlns declarations must be excluded from attrs: {keys:?}"
    );
}

#[test]
fn sb02c_depth_limit_downgrades_ref_harvest_with_diagnostic() {
    let element = parse_fragment(
        r#"<aop:aspect ref="a" xmlns:aop="http://www.springframework.org/schema/aop"><aop:pointcut id="p" expression="e"/></aop:aspect>"#,
    );
    let mut diagnostics = no_diag();
    let mut refs = Vec::new();
    harvest_refs(
        &NsScope::default(),
        &element,
        &mut refs,
        &mut diagnostics,
        DEPTH_LIMIT,
    );
    // The element itself is still checked before the guard trips
    // (matches `parse_inner_bean`'s "guard before descending further"
    // shape) — its own ref is harvested, but no deeper recursion runs.
    assert_eq!(refs.len(), 1);
    assert_eq!(refs[0].value.raw, "a");
    assert!(diagnostics
        .iter()
        .any(|d| d.code == DiagCode::NestingLimitExceeded));
}

fn nested_aop_config_chain(n: u32) -> String {
    let mut source = String::new();
    source.push_str(r#"<aop:config xmlns:aop="http://www.springframework.org/schema/aop">"#);
    for _ in 0..n {
        source.push_str("<aop:config>");
    }
    source.push_str(r#"<aop:aspect ref="deep"/>"#);
    for _ in 0..n {
        source.push_str("</aop:config>");
    }
    source.push_str("</aop:config>");
    source
}

#[test]
fn sb02c_real_deep_tree_below_limit_harvests_the_leaf_ref() {
    // Total real element depth (outer <aop:config> + wrappers +
    // innermost <aop:aspect>) stays comfortably under DEPTH_LIMIT, so
    // the innermost aspect's own `ref` must survive the actual
    // recursive descent through every real wrapper level.
    let n = DEPTH_LIMIT - 10;
    let source = nested_aop_config_chain(n);
    let element = parse_fragment(&source);
    let mut diagnostics = no_diag();
    let result = build_namespaced_element(&NsScope::default(), &element, &mut diagnostics);
    assert!(
        diagnostics.is_empty(),
        "unexpected diagnostics on a real chain under the limit: {diagnostics:?}"
    );
    assert_eq!(result.refs.len(), 1);
    assert_eq!(result.refs[0].value.raw, "deep");
}

#[test]
fn sb02c_real_deep_tree_beyond_limit_downgrades_before_reaching_the_leaf() {
    let n = DEPTH_LIMIT + 10;
    let source = nested_aop_config_chain(n);
    let element = parse_fragment(&source);
    let mut diagnostics = no_diag();
    let result = build_namespaced_element(&NsScope::default(), &element, &mut diagnostics);
    assert!(
        diagnostics
            .iter()
            .any(|d| d.code == DiagCode::NestingLimitExceeded),
        "expected a NestingLimitExceeded diagnostic on a real over-limit chain: {diagnostics:?}"
    );
    assert!(
        result.refs.is_empty(),
        "the innermost aspect's ref lies beyond DEPTH_LIMIT and must never be reached: {:?}",
        result.refs
    );
}

