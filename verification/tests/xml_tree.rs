//! The lenient XML tree: recovery rules, placeholder and entity checks,
//! and the byte spans every node carries.
use beans_xml::events::{build_tree, TreeResult, XmlElement, XmlNode};
use beans_xml::{ByteSpan, DiagCode};

fn slice(source: &str, span: ByteSpan) -> &str {
    &source[span.start as usize..span.end as usize]
}

fn diag_codes(result: &TreeResult) -> Vec<DiagCode> {
    result.diagnostics.iter().map(|d| d.code).collect()
}

#[test]
fn u1_recovery_unclosed_tag_implicit_close_at_parent_end() {
    let source = "<beans><bean id=\"a\"></beans>";
    let result = build_tree(source);
    assert_eq!(diag_codes(&result), vec![DiagCode::UnclosedTag]);
    let root = result.root.expect("root element found");
    assert_eq!(root.name, "beans");
    assert_eq!(root.children.len(), 1);
    let XmlNode::Element(bean) = &root.children[0] else {
        panic!("expected an element child")
    };
    assert_eq!(bean.name, "bean");
    assert!(bean.children.is_empty());
}

#[test]
fn u1_recovery_unclosed_tag_implicit_close_at_eof() {
    let source = "<beans><bean id=\"a\">";
    let result = build_tree(source);
    // Both <bean> and <beans> are unclosed at EOF.
    assert_eq!(
        diag_codes(&result),
        vec![DiagCode::UnclosedTag, DiagCode::UnclosedTag]
    );
    let root = result.root.expect("root element found despite truncation");
    assert_eq!(root.name, "beans");
    assert_eq!(root.span.end, source.len() as u32);
    assert_eq!(root.children.len(), 1);
}

#[test]
fn u1_recovery_orphan_close_tag_ignored() {
    let source = "<beans></foo></beans>";
    let result = build_tree(source);
    assert_eq!(diag_codes(&result), vec![DiagCode::UnexpectedCloseTag]);
    let root = result.root.expect("root element found");
    assert_eq!(root.name, "beans");
    // The orphan </foo> produced no structure at all.
    assert!(root.children.is_empty());
    assert_eq!(root.span.end, source.len() as u32);
}

#[test]
fn u1_recovery_duplicate_attribute_first_wins() {
    let source = "<bean id=\"a\" id=\"b\"/>";
    let result = build_tree(source);
    assert_eq!(diag_codes(&result), vec![DiagCode::DuplicateAttribute]);
    let root = result.root.expect("root element found");
    assert_eq!(root.attrs.len(), 1);
    assert_eq!(root.attrs[0].name, "id");
    assert_eq!(root.attrs[0].value.value, "a");
}

#[test]
fn u1_recovery_non_xml_residue_resyncs_and_structure_recovers() {
    // `<!zzz>` is not a valid comment/CDATA/DOCTYPE/PI opener — quick-xml
    // rejects it, and recovery rule 4 says: resynchronize at the next
    // recognizable token (no dedicated diagnostic code exists for this
    // rule). Both sibling <bean> elements must still show up.
    let source = "<beans><bean id=\"a\"/><!zzz><bean id=\"b\"/></beans>";
    let result = build_tree(source);
    let root = result.root.expect("root element found");
    assert_eq!(root.name, "beans");
    let element_children: Vec<&str> = root
        .children
        .iter()
        .filter_map(|c| match c {
            XmlNode::Element(e) => Some(e.name.as_str()),
            _ => None,
        })
        .collect();
    assert_eq!(element_children, vec!["bean", "bean"]);
}

#[test]
fn u1_recovery_span_after_resync_slices_correct_source_text() {
    let source = "<beans><bean id=\"a\"/><!zzz><bean id=\"recovered\" note=\"x\"/></beans>";
    let result = build_tree(source);
    let root = result.root.expect("root element found");
    let element_children: Vec<&XmlElement> = root
        .children
        .iter()
        .filter_map(|c| match c {
            XmlNode::Element(e) => Some(e),
            _ => None,
        })
        .collect();
    assert_eq!(element_children.len(), 2);
    let recovered = element_children[1];
    assert_eq!(recovered.name, "bean");
    assert_eq!(
        slice(source, recovered.span),
        "<bean id=\"recovered\" note=\"x\"/>"
    );
    let id_attr = recovered
        .attrs
        .iter()
        .find(|a| a.name == "id")
        .expect("id attribute present");
    assert_eq!(slice(source, id_attr.value.span), "recovered");
    let note_attr = recovered
        .attrs
        .iter()
        .find(|a| a.name == "note")
        .expect("note attribute present");
    assert_eq!(slice(source, note_attr.value.span), "x");
}

#[test]
fn u1_span_bom_prefixed_input_slices_correct_source_text() {
    let source = "\u{FEFF}<beans><bean id=\"a\">hello</bean></beans>";
    let result = build_tree(source);
    let root = result.root.expect("root element found");
    assert_eq!(root.name, "beans");
    assert_eq!(
        slice(source, root.span),
        "<beans><bean id=\"a\">hello</bean></beans>"
    );
    let XmlNode::Element(bean) = &root.children[0] else {
        panic!("expected an element child")
    };
    assert_eq!(slice(source, bean.span), "<bean id=\"a\">hello</bean>");
    assert_eq!(slice(source, bean.attrs[0].value.span), "a");
    let XmlNode::Text(text) = &bean.children[0] else {
        panic!("expected a text child")
    };
    assert_eq!(slice(source, text.span), "hello");
}

#[test]
fn u1_recovery_invalid_entity_kept_raw_and_diagnosed() {
    let source = "<value>&badentity;</value>";
    let result = build_tree(source);
    assert_eq!(diag_codes(&result), vec![DiagCode::InvalidEntity]);
    let root = result.root.expect("root element found");
    assert_eq!(root.children.len(), 1);
    let XmlNode::Text(text) = &root.children[0] else {
        panic!("expected a text child")
    };
    assert_eq!(text.value, "&badentity;");
    assert_eq!(slice(source, text.span), "&badentity;");
}

#[test]
fn u1_recovery_valid_predefined_entity_no_diagnostic() {
    let source = "<value>a &amp; b</value>";
    let result = build_tree(source);
    assert!(
        result.diagnostics.is_empty(),
        "predefined entity should not be diagnosed: {:?}",
        result.diagnostics
    );
}

#[test]
fn u1_recovery_dangling_ampersand_kept_raw_and_diagnosed() {
    let source = "<value>a & b</value>";
    let result = build_tree(source);
    assert_eq!(diag_codes(&result), vec![DiagCode::InvalidEntity]);
}

#[test]
fn u1_recovery_unterminated_dollar_placeholder_kept_raw_and_diagnosed() {
    let source = "<value>${unterminated</value>";
    let result = build_tree(source);
    assert_eq!(diag_codes(&result), vec![DiagCode::UnterminatedPlaceholder]);
    let root = result.root.expect("root element found");
    let XmlNode::Text(text) = &root.children[0] else {
        panic!("expected a text child")
    };
    assert_eq!(text.value, "${unterminated");
}

#[test]
fn u1_recovery_unterminated_spel_placeholder_kept_raw_and_diagnosed() {
    let source = "<value>#{unterminated</value>";
    let result = build_tree(source);
    assert_eq!(diag_codes(&result), vec![DiagCode::UnterminatedPlaceholder]);
}

#[test]
fn u1_recovery_terminated_placeholder_no_diagnostic() {
    let source = "<value>${a.b} and #{beanA.m()}</value>";
    let result = build_tree(source);
    assert!(
        result.diagnostics.is_empty(),
        "terminated placeholders should not be diagnosed: {:?}",
        result.diagnostics
    );
}

#[test]
fn u1_recovery_spel_string_literal_brace_not_flagged_unterminated() {
    let source = "<value>#{'{'}</value>";
    let result = build_tree(source);
    assert!(
        result.diagnostics.is_empty(),
        "quoted brace literal must not be flagged: {:?}",
        result.diagnostics
    );
}

#[test]
fn u1_recovery_spel_map_index_string_literal_brace_not_flagged_unterminated() {
    let source = "<value>#{map['{']}</value>";
    let result = build_tree(source);
    assert!(
        result.diagnostics.is_empty(),
        "quoted brace literal inside a map index must not be flagged: {:?}",
        result.diagnostics
    );
}

#[test]
fn u1_recovery_spel_double_quoted_string_literal_brace_not_flagged_unterminated() {
    let source = "<value>#{\"{\"}</value>";
    let result = build_tree(source);
    assert!(
        result.diagnostics.is_empty(),
        "double-quoted brace literal must not be flagged: {:?}",
        result.diagnostics
    );
}

#[test]
fn u1_recovery_genuinely_unterminated_placeholder_after_quoted_literal_still_flagged() {
    let source = "<value>#{'{' + unterminated</value>";
    let result = build_tree(source);
    assert_eq!(diag_codes(&result), vec![DiagCode::UnterminatedPlaceholder]);
}

#[test]
fn u1_recovery_property_placeholder_with_apostrophe_default_no_diagnostic() {
    // Quote-as-string-delimiter is a SpEL (`#{}`) notion only. A `${}`
    // property placeholder's default value routinely contains an
    // apostrophe (Spring's `${prop:default}` syntax) — that must not be
    // mistaken for a SpEL string-literal opener, or the real closing
    // `}` gets swallowed and a spurious UnterminatedPlaceholder fires
    // even though the braces are perfectly balanced.
    let source = "<value>${admin.name:O'Reilly}</value>";
    let result = build_tree(source);
    assert!(
        result.diagnostics.is_empty(),
        "a balanced ${{}} containing an apostrophe must not be flagged: {:?}",
        result.diagnostics
    );
}

#[test]
fn u1_recovery_property_placeholder_with_double_quote_default_no_diagnostic() {
    let source = "<value>${msg:say \"hi\"}</value>";
    let result = build_tree(source);
    assert!(
        result.diagnostics.is_empty(),
        "a balanced ${{}} containing a double quote must not be flagged: {:?}",
        result.diagnostics
    );
}

#[test]
fn u1_recovery_nested_terminated_placeholder_no_diagnostic() {
    let source = "<value>${a.${b}}</value>";
    let result = build_tree(source);
    assert!(
        result.diagnostics.is_empty(),
        "a fully-closed nested placeholder should not be diagnosed: {:?}",
        result.diagnostics
    );
}

#[test]
fn u1_recovery_dollar_default_containing_quoted_brace_spel_no_diagnostic() {
    let source = "<value>${x:#{'}'}}</value>";
    let result = build_tree(source);
    assert!(
        result.diagnostics.is_empty(),
        "a nested quote-protected brace must not be flagged: {:?}",
        result.diagnostics
    );
}

#[test]
fn u1_recovery_hash_default_containing_quoted_brace_dollar_no_diagnostic() {
    let source = "<value>#{${x:#{'}'}}}</value>";
    let result = build_tree(source);
    assert!(
        result.diagnostics.is_empty(),
        "a two-level nested quote-protected brace must not be flagged: {:?}",
        result.diagnostics
    );
}

#[test]
fn u1_recovery_unterminated_placeholder_in_attribute_value() {
    let source = "<property name=\"x\" value=\"${unterminated\"/>";
    let result = build_tree(source);
    assert_eq!(diag_codes(&result), vec![DiagCode::UnterminatedPlaceholder]);
    let root = result.root.expect("root element found");
    let value_attr = root
        .attrs
        .iter()
        .find(|a| a.name == "value")
        .expect("value attribute present");
    assert_eq!(value_attr.value.value, "${unterminated");
}

#[test]
fn u1_recovery_unterminated_placeholder_inside_cdata_kept_raw_and_diagnosed() {
    let source = "<value><![CDATA[${unterminated]]></value>";
    let result = build_tree(source);
    assert_eq!(diag_codes(&result), vec![DiagCode::UnterminatedPlaceholder]);
    let root = result.root.expect("root element found");
    let XmlNode::Text(text) = &root.children[0] else {
        panic!("expected a text child")
    };
    assert_eq!(text.value, "${unterminated");
    assert_eq!(slice(source, text.span), "${unterminated");
}

#[test]
fn u1_recovery_entity_like_text_inside_cdata_not_checked() {
    let source = "<value><![CDATA[&badentity;]]></value>";
    let result = build_tree(source);
    assert!(
        result.diagnostics.is_empty(),
        "CDATA content must not be entity-checked: {:?}",
        result.diagnostics
    );
    let root = result.root.expect("root element found");
    let XmlNode::Text(text) = &root.children[0] else {
        panic!("expected a text child")
    };
    assert_eq!(text.value, "&badentity;");
}

#[test]
fn u1_entity_split_spel_expression_not_flagged_unterminated() {
    let source = "<value>#{flagA &amp;&amp; flagB}</value>";
    let result = build_tree(source);
    assert!(
        result.diagnostics.is_empty(),
        "entity-split but well-formed #{{}} must not be diagnosed: {:?}",
        result.diagnostics
    );
}

#[test]
fn u1_entity_split_dollar_placeholder_not_flagged_unterminated() {
    let source = "<value>${url:http://x?a=1&amp;b=2}</value>";
    let result = build_tree(source);
    assert!(
        result.diagnostics.is_empty(),
        "entity-split but well-formed ${{}} must not be diagnosed: {:?}",
        result.diagnostics
    );
}

#[test]
fn u1_entity_split_still_diagnoses_a_genuinely_unterminated_placeholder() {
    // Regression guard the other direction: coalescing contiguous runs
    // must not suppress a real UnterminatedPlaceholder just because an
    // entity reference happens to sit somewhere inside the (still
    // unterminated) run.
    let source = "<value>#{flagA &amp;&amp; unterminated</value>";
    let result = build_tree(source);
    assert_eq!(diag_codes(&result), vec![DiagCode::UnterminatedPlaceholder]);
}

#[test]
fn u1_span_start_tag_slice_matches_source_text() {
    let source = "<bean id=\"a\">text</bean>";
    let result = build_tree(source);
    let root = result.root.unwrap();
    assert_eq!(slice(source, root.span), "<bean id=\"a\">text</bean>");
}

#[test]
fn u1_span_self_closed_tag_slice_matches_source_text() {
    let source = "<bean id=\"a\"/>";
    let result = build_tree(source);
    let root = result.root.unwrap();
    assert_eq!(slice(source, root.span), source);
}

#[test]
fn u1_span_attribute_value_slice_matches_source_text() {
    let source = "<bean id=\"myBean\"/>";
    let result = build_tree(source);
    let root = result.root.unwrap();
    assert_eq!(slice(source, root.attrs[0].value.span), "myBean");
}

#[test]
fn u1_span_text_node_slice_matches_source_text() {
    let source = "<description>hello world</description>";
    let result = build_tree(source);
    let root = result.root.unwrap();
    let XmlNode::Text(text) = &root.children[0] else {
        panic!("expected a text child")
    };
    assert_eq!(slice(source, text.span), "hello world");
}

#[test]
fn u1_span_multibyte_text_slice_matches_source_text() {
    let source = "<description>안녕하세요 세계</description>";
    let result = build_tree(source);
    let root = result.root.unwrap();
    let XmlNode::Text(text) = &root.children[0] else {
        panic!("expected a text child")
    };
    assert_eq!(slice(source, text.span), "안녕하세요 세계");
    assert_eq!(text.value, "안녕하세요 세계");
}

#[test]
fn u1_span_cdata_slice_matches_inner_content_only() {
    // The `CData` arm hand-computes the inner-content span (excludes
    // the `<![CDATA[`/`]]>` delimiters via hardcoded offsets) — pin
    // that arithmetic against a concrete fixture rather than leaving
    // it verified only by inline commentary.
    let source = "<value><![CDATA[hello]]></value>";
    let result = build_tree(source);
    let root = result.root.unwrap();
    let XmlNode::Text(text) = &root.children[0] else {
        panic!("expected a text child")
    };
    assert_eq!(text.value, "hello");
    assert_eq!(slice(source, text.span), "hello");
}

#[test]
fn u1_span_empty_cdata_slice_is_empty_and_does_not_underflow() {
    // Degenerate case for the `.min(inner_start)`/`.saturating_sub(3)`
    // guards: an empty CDATA section's inner span must collapse to a
    // valid zero-length range, not underflow or panic.
    let source = "<value><![CDATA[]]></value>";
    let result = build_tree(source);
    let root = result.root.unwrap();
    let XmlNode::Text(text) = &root.children[0] else {
        panic!("expected a text child")
    };
    assert_eq!(text.value, "");
    assert_eq!(text.span.start, text.span.end);
    assert_eq!(slice(source, text.span), "");
}

#[test]
fn u1_span_multibyte_cdata_slice_matches_source_text() {
    let source = "<value><![CDATA[한글]]></value>";
    let result = build_tree(source);
    let root = result.root.unwrap();
    let XmlNode::Text(text) = &root.children[0] else {
        panic!("expected a text child")
    };
    assert_eq!(text.value, "한글");
    assert_eq!(slice(source, text.span), "한글");
}

#[test]
fn u1_span_nested_element_slice_matches_source_text() {
    let source = "<beans><bean id=\"a\"><property name=\"p\" /></bean></beans>";
    let result = build_tree(source);
    let root = result.root.unwrap();
    let XmlNode::Element(bean) = &root.children[0] else {
        panic!("expected an element child")
    };
    assert_eq!(
        slice(source, bean.span),
        "<bean id=\"a\"><property name=\"p\" /></bean>"
    );
    let XmlNode::Element(property) = &bean.children[0] else {
        panic!("expected an element child")
    };
    assert_eq!(slice(source, property.span), "<property name=\"p\" />");
}

#[test]
fn u1_deeply_nested_input_does_not_overflow_stack_on_drop() {
    const N: usize = 60_000;
    let mut source = String::with_capacity(N * 11);
    for _ in 0..N {
        source.push_str("<foo>");
    }
    for _ in 0..N {
        source.push_str("</foo>");
    }

    let result = build_tree(&source);

    assert!(result.root.is_some(), "root element still found");
    assert!(
        result
            .diagnostics
            .iter()
            .any(|d| d.code == DiagCode::NestingLimitExceeded),
        "expected a NestingLimitExceeded diagnostic: {:?}",
        result.diagnostics
    );
    // `result` (and its `Option<XmlElement>`) drops here, at the end of
    // this scope — that drop, not `build_tree` itself, is what must
    // stay within a bounded number of stack frames.
}


fn assert_nested(e: &XmlElement) {
    assert!(e.span.start <= e.span.end);
    for c in e.children.iter() {
        let (s, t) = match c {
            XmlNode::Text(t) => (t.span.start, t.span.end),
            XmlNode::Element(x) => {
                assert_nested(x);
                (x.span.start, x.span.end)
            }
        };
        assert!(s <= t);
        assert!(e.span.start <= s && t <= e.span.end, "child {s}..{t} outside {:?}", e.span);
    }
}

#[test]
fn children_lie_inside_their_parents_and_every_diagnostic_has_a_span() {
    let sources = [
        "<beans><a><b>x</a>y<c/><![CDATA[z]]></d></beans>tail",
        "<beans><bean id=\"a\" id=\"b\">&bogus; ${open</bean><x><y>",
        "\u{FEFF}<r>t<!-- c --><s></r>",
        "<a><<>b</a>",
    ];
    for source in sources.iter() {
        let tree = build_tree(source);
        let root = tree.root.as_ref().expect("root element found");
        assert_nested(root);
        assert!(tree.diagnostics.iter().all(|d| d.span.is_some()));
    }
}

fn element_depth(e: &XmlElement) -> usize {
    let mut deepest = 0;
    for c in e.children.iter() {
        if let XmlNode::Element(x) = c {
            deepest = deepest.max(element_depth(x));
        }
    }
    deepest + 1
}

#[test]
fn no_element_nests_deeper_than_the_tree_cap() {
    let n = beans_xml::events::MAX_TREE_DEPTH + 500;
    let mut source = String::new();
    for _ in 0..n {
        source.push_str("<a><b/>");
    }
    for _ in 0..n {
        source.push_str("</a>");
    }
    let tree = build_tree(&source);
    let root = tree.root.as_ref().expect("root element found");
    assert_eq!(element_depth(root), beans_xml::events::MAX_TREE_DEPTH);
}
