//! Matching of `${..}` / `#{..}` expressions.
use beans_xml::braces::scan_braced_expr;
use beans_xml::harvest::extract_from_slice;

#[test]
fn a_closed_expression_ends_at_its_brace_whatever_follows() {
    let cases: [&[u8]; 3] = [b"${a.b}", b"#{x['}'] + y}", b"${outer:${inner}}"];
    for b in cases.iter() {
        let k = scan_braced_expr(b, 0).expect("closes");
        assert!(3 <= k && k <= b.len());
        assert_eq!(b[k - 1], b'}');
        for tail in [&b"}"[..], &b" ${z}"[..], &b"{{{"[..]] {
            let longer = [*b, tail].concat();
            assert_eq!(scan_braced_expr(&longer, 0), Some(k));
        }
    }
}

#[test]
fn an_expression_with_no_closing_brace_after_it_never_closes() {
    assert_eq!(scan_braced_expr(b"${abc", 0), None);
    assert_eq!(scan_braced_expr(b"#{'x' + y", 0), None);
}

#[test]
fn harvested_values_are_the_text_at_their_spans_and_keys_are_never_empty() {
    let slice = "a ${db.url:${fallback}} #{ ctx.bean } ${} #{'x'} ${é}";
    let base = 7u32;
    let mut placeholders = Vec::new();
    let mut spel_refs = Vec::new();
    extract_from_slice(slice, base, 0, false, &mut placeholders, &mut spel_refs);
    assert!(!placeholders.is_empty() && !spel_refs.is_empty());
    for e in placeholders.iter().chain(spel_refs.iter()) {
        let (s, t) = ((e.span.start - base) as usize, (e.span.end - base) as usize);
        assert!(s <= t && t <= slice.len());
        assert_eq!(&slice[s..t], e.value.as_str());
    }
    assert!(placeholders.iter().all(|p| !p.value.is_empty()));
}
