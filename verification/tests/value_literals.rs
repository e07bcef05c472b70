//! Literal values: `${..}` placeholder keys and `#{..}` bean-reference
//! candidates collected from their text.
use beans_xml::events::{build_tree, XmlElement};
use beans_xml::literal::{build_value_lit, extract_placeholders_and_spel_refs, value_lit_from_element};
use beans_xml::{ByteSpan, Spanned, ValueLit};

fn parse_fragment(source: &str) -> XmlElement {
    build_tree(source).root.expect("root element found")
}

fn value_lit_for(text: &str) -> ValueLit {
    let element = parse_fragment(&format!("<value>{text}</value>"));
    value_lit_from_element(&element)
}

fn segs(pieces: &[(&str, u32)]) -> Vec<Spanned<String>> {
    pieces
        .iter()
        .map(|(s, start)| Spanned {
            value: s.to_string(),
            span: ByteSpan {
                start: *start,
                end: *start + s.len() as u32,
            },
        })
        .collect()
}

#[test]
fn sb06_build_value_lit_no_placeholder_or_spel_syntax_leaves_both_fields_empty() {
    let vl = build_value_lit(
        Spanned {
            value: "x".to_string(),
            span: ByteSpan { start: 0, end: 1 },
        },
        ByteSpan { start: 0, end: 1 },
        None,
    );
    assert!(vl.placeholders.is_empty());
    assert!(vl.spel_refs.is_empty());
}

#[test]
fn sb13_dollar_placeholder_key_extracted() {
    let vl = value_lit_for("${prop}");
    assert_eq!(
        vl.placeholders
            .iter()
            .map(|p| p.value.as_str())
            .collect::<Vec<_>>(),
        vec!["prop"]
    );
    assert!(vl.spel_refs.is_empty());
}

#[test]
fn sb13_spel_bean_ref_candidate_extracted_from_method_call() {
    let vl = value_lit_for("#{beanA.m()}");
    assert!(vl.placeholders.is_empty());
    assert_eq!(
        vl.spel_refs
            .iter()
            .map(|s| s.value.as_str())
            .collect::<Vec<_>>(),
        vec!["beanA"]
    );
}

#[test]
fn sb13_spel_bare_bean_ref_extracted() {
    let vl = value_lit_for("#{beanA}");
    assert_eq!(
        vl.spel_refs
            .iter()
            .map(|s| s.value.as_str())
            .collect::<Vec<_>>(),
        vec!["beanA"]
    );
}

#[test]
fn sb13_spel_partial_expression_string_literal_yields_no_bean_ref_candidate() {
    // "partial expression" edge case: a SpEL body that isn't bean-reference-shaped
    // (starts with a string literal, not an identifier) must not guess
    // a wrong candidate.
    let vl = value_lit_for("#{'literal'}");
    assert!(vl.spel_refs.is_empty());
}

#[test]
fn sb13_spel_partial_expression_arithmetic_yields_no_bean_ref_candidate() {
    let vl = value_lit_for("#{1 + 2}");
    assert!(vl.spel_refs.is_empty());
}

#[test]
fn sb13_quote_aware_brace_literal_extracts_cleanly_without_crashing() {
    let vl = value_lit_for("#{'{'}");
    assert!(vl.spel_refs.is_empty());

    let vl = value_lit_for("#{map['{']}");
    assert_eq!(
        vl.spel_refs
            .iter()
            .map(|s| s.value.as_str())
            .collect::<Vec<_>>(),
        vec!["map"]
    );
}

#[test]
fn sb13_dollar_placeholder_with_apostrophe_default_extracted_whole() {
    // Quote-as-string-delimiter is a SpEL (`#{}`) notion only — inside a
    // `${prop:default}` property placeholder, `'`/`"` are ordinary
    // literal characters (Spring default values routinely contain an
    // apostrophe). Regression: treating the apostrophe as a quote
    // opener swallowed the real closing `}`, dropping the whole
    // placeholder key.
    let vl = value_lit_for("${admin.name:O'Reilly}");
    assert_eq!(
        vl.placeholders
            .iter()
            .map(|p| p.value.as_str())
            .collect::<Vec<_>>(),
        vec!["admin.name:O'Reilly"]
    );
    assert!(vl.spel_refs.is_empty());
}

#[test]
fn sb13_dollar_placeholder_with_double_quote_default_extracted_whole() {
    let vl = value_lit_for("${msg:say \"hi\"}");
    assert_eq!(
        vl.placeholders
            .iter()
            .map(|p| p.value.as_str())
            .collect::<Vec<_>>(),
        vec!["msg:say \"hi\""]
    );
}

#[test]
fn sb13_multiple_placeholders_and_spel_refs_in_one_value_all_extracted() {
    let vl = value_lit_for("${host}:${port} routed via #{routerBean.pick()}");
    assert_eq!(
        vl.placeholders
            .iter()
            .map(|p| p.value.as_str())
            .collect::<Vec<_>>(),
        vec!["host", "port"]
    );
    assert_eq!(
        vl.spel_refs
            .iter()
            .map(|s| s.value.as_str())
            .collect::<Vec<_>>(),
        vec!["routerBean"]
    );
}

#[test]
fn sb13_nested_dollar_placeholder_collects_outer_and_inner_key() {
    let vl = value_lit_for("${a.${b}}");
    assert_eq!(
        vl.placeholders
            .iter()
            .map(|p| p.value.as_str())
            .collect::<Vec<_>>(),
        vec!["a.${b}", "b"]
    );
}

#[test]
fn sb13_triple_nested_dollar_placeholder_collects_every_level() {
    let vl = value_lit_for("${a.${b.${c}}}");
    assert_eq!(
        vl.placeholders
            .iter()
            .map(|p| p.value.as_str())
            .collect::<Vec<_>>(),
        vec!["a.${b.${c}}", "b.${c}", "c"]
    );
}

#[test]
fn sb13_spel_nested_call_argument_extracts_outer_and_inner_bean_ref() {
    let vl = value_lit_for("#{beanA.m(#{other})}");
    assert_eq!(
        vl.spel_refs
            .iter()
            .map(|s| s.value.as_str())
            .collect::<Vec<_>>(),
        vec!["beanA", "other"]
    );
}

#[test]
fn sb13_multiple_sibling_spel_refs_in_one_literal_all_extracted() {
    let vl = value_lit_for("#{a} #{b}");
    assert_eq!(
        vl.spel_refs
            .iter()
            .map(|s| s.value.as_str())
            .collect::<Vec<_>>(),
        vec!["a", "b"]
    );
}

#[test]
fn sb13_spel_string_literal_containing_dollar_brace_not_harvested_as_nested_placeholder() {
    let vl = value_lit_for("#{f('${x}')}");
    assert!(vl.placeholders.is_empty());
    assert_eq!(
        vl.spel_refs
            .iter()
            .map(|s| s.value.as_str())
            .collect::<Vec<_>>(),
        vec!["f"]
    );
}

#[test]
fn sb13_dollar_default_wrapping_quote_protected_hash_brace_extracted_whole() {
    let vl = value_lit_for("${x:#{'}'}}");
    assert_eq!(
        vl.placeholders
            .iter()
            .map(|p| p.value.as_str())
            .collect::<Vec<_>>(),
        vec!["x:#{'}'}"]
    );
    // The nested `#{'}'}` body is a string literal, not
    // bean-reference-shaped — no spurious candidate from the recursive
    // harvest either.
    assert!(vl.spel_refs.is_empty());
}

#[test]
fn sb13_literal_dollar_and_hash_without_brace_not_extracted() {
    let vl = value_lit_for("costs $100 and uses #comment style, no braces here");
    assert!(vl.placeholders.is_empty());
    assert!(vl.spel_refs.is_empty());
}

#[test]
fn sb13_literal_dollar_and_hash_with_space_before_brace_not_extracted() {
    // `$ {notAPlaceholder}` / `# {notASpelExpr}` — the opener must be
    // the exact two-byte `${`/`#{` sequence, not "somewhere nearby".
    let vl = value_lit_for("$ {notAPlaceholder} # {notASpelExpr}");
    assert!(vl.placeholders.is_empty());
    assert!(vl.spel_refs.is_empty());
}

#[test]
fn sb13_unterminated_dollar_placeholder_extracts_nothing() {
    let vl = value_lit_for("${unterminated");
    assert!(vl.placeholders.is_empty());
    assert!(vl.spel_refs.is_empty());
    assert_eq!(vl.text.value, "${unterminated");
}

#[test]
fn sb13_unterminated_hash_placeholder_extracts_nothing() {
    let vl = value_lit_for("#{unterminated");
    assert!(vl.placeholders.is_empty());
    assert!(vl.spel_refs.is_empty());
    assert_eq!(vl.text.value, "#{unterminated");
}

#[test]
fn sb13_entity_split_segments_coalesce_before_scanning() {
    // "#{flagA " (0..8) + "&amp;" (8..13) + "&amp;" (13..18) + " flagB}" (18..25)
    // — exactly the shape `element_text_segments` produces for
    // `#{flagA &amp;&amp; flagB}` element text: four byte-contiguous
    // runs, none of which contains a matched `#{...}` on its own.
    let segments = segs(&[
        ("#{flagA ", 0),
        ("&amp;", 8),
        ("&amp;", 13),
        (" flagB}", 18),
    ]);
    let (placeholders, spel_refs) = extract_placeholders_and_spel_refs(&segments);
    assert!(placeholders.is_empty());
    assert_eq!(
        spel_refs
            .iter()
            .map(|s| s.value.as_str())
            .collect::<Vec<_>>(),
        vec!["flagA"],
        "coalesced entity-split segments must still harvest one spel_ref"
    );
}

#[test]
fn sb13_non_contiguous_segments_are_not_coalesced() {
    let segments = segs(&[("${a", 0)]);
    let mut segments = segments;
    segments.push(Spanned {
        value: "}".to_string(),
        span: ByteSpan { start: 12, end: 13 },
    });
    let (placeholders, _spel_refs) = extract_placeholders_and_spel_refs(&segments);
    assert!(
        placeholders.is_empty(),
        "non-contiguous runs must not be stitched into a false placeholder: {placeholders:?}"
    );
}

#[test]
fn sb13_korean_bean_ref_candidate_extracted() {
    let vl = value_lit_for("#{한글빈.메서드()}");
    assert_eq!(
        vl.spel_refs
            .iter()
            .map(|s| s.value.as_str())
            .collect::<Vec<_>>(),
        vec!["한글빈"]
    );
}
