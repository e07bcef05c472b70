//! Encoding detection and decoding of raw input bytes.
use beans_xml::encoding::decode;
use beans_xml::DiagCode;

const UTF8_BOM: &[u8] = &[0xEF, 0xBB, 0xBF];
const UTF16LE_BOM: &[u8] = &[0xFF, 0xFE];
const UTF16BE_BOM: &[u8] = &[0xFE, 0xFF];

fn euc_kr_bytes(s: &str) -> Vec<u8> {
    let (bytes, _, had_errors) = encoding_rs::EUC_KR.encode(s);
    assert!(!had_errors, "fixture text must be EUC-KR/CP949-encodable");
    bytes.into_owned()
}

fn utf16le_bytes(s: &str) -> Vec<u8> {
    let mut out = Vec::new();
    for unit in s.encode_utf16() {
        out.extend_from_slice(&unit.to_le_bytes());
    }
    out
}

fn utf16be_bytes(s: &str) -> Vec<u8> {
    let mut out = Vec::new();
    for unit in s.encode_utf16() {
        out.extend_from_slice(&unit.to_be_bytes());
    }
    out
}

#[test]
fn u2_utf8_no_declaration_decodes_cleanly() {
    let bytes = r#"<beans><bean id="a"/></beans>"#.as_bytes();
    let (source, diagnostics, encoding) = decode(bytes);
    assert_eq!(source, r#"<beans><bean id="a"/></beans>"#);
    assert!(diagnostics.is_empty());
    assert_eq!(encoding, "UTF-8");
}

#[test]
fn u2_utf8_declared_and_actual_agree_no_mismatch() {
    let bytes = br#"<?xml version="1.0" encoding="UTF-8"?><beans><bean id="a"/></beans>"#;
    let (_, diagnostics, encoding) = decode(bytes);
    assert!(diagnostics.is_empty());
    assert_eq!(encoding, "UTF-8");
}

#[test]
fn u2_utf8_actual_but_declared_euckr_reality_wins_with_mismatch() {
    let bytes = "<?xml version=\"1.0\" encoding=\"EUC-KR\"?><beans><bean id=\"안녕\"/></beans>"
        .as_bytes();
    let (source, diagnostics, encoding) = decode(bytes);
    assert!(source.contains("안녕"));
    assert_eq!(encoding, "UTF-8");
    assert_eq!(diagnostics.len(), 1);
    assert_eq!(diagnostics[0].code, DiagCode::EncodingMismatch);
}

#[test]
fn u2_euckr_declared_and_actual_agree_no_mismatch() {
    let mut bytes = b"<?xml version=\"1.0\" encoding=\"EUC-KR\"?><beans><bean id=\"".to_vec();
    bytes.extend_from_slice(&euc_kr_bytes("그룹"));
    bytes.extend_from_slice(b"\"/></beans>");

    let (source, diagnostics, encoding) = decode(&bytes);
    assert!(source.contains("그룹"));
    assert!(diagnostics.is_empty());
    assert_eq!(encoding, "EUC-KR");
}

#[test]
fn u2_euckr_declared_with_single_quotes_is_still_detected() {
    let mut bytes = b"<?xml version='1.0' encoding='EUC-KR'?><beans><bean id=\"".to_vec();
    bytes.extend_from_slice(&euc_kr_bytes("그룹"));
    bytes.extend_from_slice(b"\"/></beans>");

    let (source, diagnostics, encoding) = decode(&bytes);
    assert!(source.contains("그룹"));
    assert!(diagnostics.is_empty());
    assert_eq!(encoding, "EUC-KR");
}

#[test]
fn u2_euckr_actual_but_declared_utf8_reality_wins_with_mismatch() {
    let mut bytes = b"<?xml version=\"1.0\" encoding=\"UTF-8\"?><beans><bean id=\"".to_vec();
    bytes.extend_from_slice(&euc_kr_bytes("그룹"));
    bytes.extend_from_slice(b"\"/></beans>");

    let (source, diagnostics, encoding) = decode(&bytes);
    assert!(source.contains("그룹")); // reality (EUC-KR) wins, not the false UTF-8 claim
    assert_eq!(encoding, "EUC-KR");
    assert_eq!(diagnostics.len(), 1);
    assert_eq!(diagnostics[0].code, DiagCode::EncodingMismatch);
}

#[test]
fn u2_euckr_no_declaration_falls_back_to_heuristic() {
    let mut bytes = b"<beans><bean id=\"".to_vec();
    bytes.extend_from_slice(&euc_kr_bytes("그룹"));
    bytes.extend_from_slice(b"\"/></beans>");

    let (source, diagnostics, encoding) = decode(&bytes);
    assert!(source.contains("그룹"));
    assert!(diagnostics.is_empty());
    assert_eq!(encoding, "EUC-KR");
}

#[test]
fn u2_cp949_declared_label_resolves_and_matches_no_mismatch() {
    let mut bytes = b"<?xml version=\"1.0\" encoding=\"CP949\"?><beans><bean id=\"".to_vec();
    bytes.extend_from_slice(&euc_kr_bytes("뷁"));
    bytes.extend_from_slice(b"\"/></beans>");

    let (source, diagnostics, encoding) = decode(&bytes);
    assert!(source.contains("뷁"));
    assert!(diagnostics.is_empty());
    assert_eq!(encoding, "EUC-KR"); // CP949 and EUC-KR share one encoding_rs decoder
}

#[test]
fn u2_cp949_actual_but_declared_utf8_reality_wins_with_mismatch() {
    let mut bytes = b"<?xml version=\"1.0\" encoding=\"UTF-8\"?><beans><bean id=\"".to_vec();
    bytes.extend_from_slice(&euc_kr_bytes("뷁"));
    bytes.extend_from_slice(b"\"/></beans>");

    let (source, diagnostics, encoding) = decode(&bytes);
    assert!(source.contains("뷁"));
    assert_eq!(encoding, "EUC-KR");
    assert_eq!(diagnostics.len(), 1);
    assert_eq!(diagnostics[0].code, DiagCode::EncodingMismatch);
}

#[test]
fn u2_cp949_no_declaration_falls_back_to_heuristic() {
    let mut bytes = b"<beans><bean id=\"".to_vec();
    bytes.extend_from_slice(&euc_kr_bytes("뷁"));
    bytes.extend_from_slice(b"\"/></beans>");

    let (source, diagnostics, encoding) = decode(&bytes);
    assert!(source.contains("뷁"));
    assert!(diagnostics.is_empty());
    assert_eq!(encoding, "EUC-KR");
}

#[test]
fn u2_utf16le_bom_no_declaration_decodes_cleanly() {
    let body = r#"<beans><bean id="a"/></beans>"#;
    let mut bytes = UTF16LE_BOM.to_vec();
    bytes.extend_from_slice(&utf16le_bytes(body));

    let (source, diagnostics, encoding) = decode(&bytes);
    assert_eq!(source, body);
    assert!(diagnostics.is_empty());
    assert_eq!(encoding, "UTF-16LE");
}

#[test]
fn u2_utf16be_bom_no_declaration_decodes_cleanly() {
    let body = r#"<beans><bean id="a"/></beans>"#;
    let mut bytes = UTF16BE_BOM.to_vec();
    bytes.extend_from_slice(&utf16be_bytes(body));

    let (source, diagnostics, encoding) = decode(&bytes);
    assert_eq!(source, body);
    assert!(diagnostics.is_empty());
    assert_eq!(encoding, "UTF-16BE");
}

#[test]
fn u2_utf16le_bom_wins_even_against_a_competing_byte_pattern() {
    // "Declared-mismatch" sub-case for the BOM-only UTF-16 family: the
    // decoded body itself contains what would look like a conflicting
    // `encoding="EUC-KR"` declaration if this were ever byte-scanned —
    // it never is, because the BOM branch returns before
    // `detect_declared_encoding` is even called. The BOM's own choice
    // always wins, unconditionally, for this family.
    let body = r#"<beans><!-- encoding="EUC-KR" --><bean id="a"/></beans>"#;
    let mut bytes = UTF16LE_BOM.to_vec();
    bytes.extend_from_slice(&utf16le_bytes(body));

    let (source, diagnostics, encoding) = decode(&bytes);
    assert_eq!(source, body);
    assert!(diagnostics.is_empty());
    assert_eq!(encoding, "UTF-16LE");
}

#[test]
fn u2_utf16be_bom_wins_even_against_a_competing_byte_pattern() {
    let body = r#"<beans><!-- encoding="EUC-KR" --><bean id="a"/></beans>"#;
    let mut bytes = UTF16BE_BOM.to_vec();
    bytes.extend_from_slice(&utf16be_bytes(body));

    let (source, diagnostics, encoding) = decode(&bytes);
    assert_eq!(source, body);
    assert!(diagnostics.is_empty());
    assert_eq!(encoding, "UTF-16BE");
}

#[test]
fn u2_utf8_bom_no_declaration_stripped_and_absent_from_output() {
    let mut bytes = UTF8_BOM.to_vec();
    bytes.extend_from_slice(r#"<beans><bean id="a"/></beans>"#.as_bytes());

    let (source, diagnostics, encoding) = decode(&bytes);
    assert_eq!(source, r#"<beans><bean id="a"/></beans>"#);
    assert!(!source.contains('\u{FEFF}'));
    assert!(diagnostics.is_empty());
    assert_eq!(encoding, "UTF-8");
}

#[test]
fn u2_utf8_bom_declared_and_actual_agree_no_mismatch() {
    let mut bytes = UTF8_BOM.to_vec();
    bytes.extend_from_slice(
        br#"<?xml version="1.0" encoding="UTF-8"?><beans><bean id="a"/></beans>"#,
    );

    let (source, diagnostics, encoding) = decode(&bytes);
    assert!(source.starts_with("<?xml"));
    assert!(diagnostics.is_empty());
    assert_eq!(encoding, "UTF-8");
}

#[test]
fn u2_utf8_bom_before_declaration_does_not_defeat_mismatch_detection() {
    // A UTF-8 BOM directly followed by an XML declaration must not
    // make `detect_declared_encoding`'s "starts with <?xml" check fail
    // (`str::trim_start` doesn't strip U+FEFF) and silently lose the
    // declared label — the mismatch below must still fire.
    let mut bytes = UTF8_BOM.to_vec();
    bytes.extend_from_slice(
        br#"<?xml version="1.0" encoding="EUC-KR"?><beans><bean id="a"/></beans>"#,
    );

    let (source, diagnostics, encoding) = decode(&bytes);
    assert!(source.starts_with("<?xml"));
    assert!(!source.contains('\u{FEFF}'));
    assert_eq!(encoding, "UTF-8");
    assert_eq!(diagnostics.len(), 1);
    assert_eq!(diagnostics[0].code, DiagCode::EncodingMismatch);
}

#[test]
fn u2_undecodable_bytes_decode_lossily_with_encoding_undetectable() {
    let bytes: &[u8] = &[
        0x80, 0x81, 0x82, b'<', b'b', b'e', b'a', b'n', b's', b'/', b'>',
    ];
    let (_, diagnostics, encoding) = decode(bytes);
    assert_eq!(diagnostics.len(), 1);
    assert_eq!(diagnostics[0].code, DiagCode::EncodingUndetectable);
    assert_eq!(encoding, "UTF-8"); // lossy decode's own reported label
}

#[test]
fn u2_unknown_declared_label_falls_through_to_next_step_with_mismatch() {
    let bytes = br#"<?xml version="1.0" encoding="totally-not-a-real-encoding"?><beans/>"#;
    let (source, diagnostics, encoding) = decode(bytes);
    assert!(source.contains("<beans"));
    assert_eq!(encoding, "UTF-8");
    assert_eq!(diagnostics.len(), 1);
    assert_eq!(diagnostics[0].code, DiagCode::EncodingMismatch);
}

#[test]
fn u2_declared_scan_stops_at_prolog_end_no_false_mismatch_from_later_encoding_attr() {
    // The document is genuinely UTF-8 with no `encoding=` in its own
    // prolog; an unrelated `encoding` *attribute* on the root element
    // appears within the scan window. `detect_declared_encoding`
    // must stop scanning at the prolog's own terminator, not keep
    // scanning the whole window, or it would misread that
    // attribute's value as the declared document encoding and produce
    // a spurious `EncodingMismatch` (declared "utf-16" vs actual
    // UTF-8) even though nothing was actually declared.
    let bytes = br#"<?xml version="1.0"?><bean encoding="utf-16"/>"#;
    let (source, diagnostics, encoding) = decode(bytes);
    assert!(source.contains("encoding=\"utf-16\""));
    assert_eq!(encoding, "UTF-8");
    assert!(diagnostics.is_empty());
}

#[test]
fn u2_declared_label_past_old_200_byte_window_is_still_detected() {
    let padding = "x".repeat(220);
    let mut bytes =
        format!(r#"<?xml version="1.0" encoding="UTF-8" padding="{padding}"?>"#).into_bytes();
    assert!(
        bytes.len() > 200,
        "fixture must push '?>' past the old 200-byte cutoff"
    );
    assert!(
        bytes.len() < 1024,
        "fixture must still land inside the new 1 KiB window"
    );
    bytes.extend_from_slice(b"<beans><bean id=\"");
    bytes.extend_from_slice(&euc_kr_bytes("그룹"));
    bytes.extend_from_slice(b"\"/></beans>");

    let (source, diagnostics, encoding) = decode(&bytes);
    assert!(source.contains("그룹")); // reality (EUC-KR) wins
    assert_eq!(encoding, "EUC-KR");
    assert_eq!(diagnostics.len(), 1);
    assert_eq!(diagnostics[0].code, DiagCode::EncodingMismatch);
}

#[test]
fn u2_declaration_closed_with_bare_gt_declared_label_still_detected_matching() {
    // Malformed declaration missing the closing `?` (`>` instead of
    // `?>`) — still a common real-world typo. The declared label
    // ("EUC-KR") is discovered via the bare-`>` fallback and matches
    // reality, so no mismatch.
    let mut bytes = b"<?xml version=\"1.0\" encoding=\"EUC-KR\"><beans><bean id=\"".to_vec();
    bytes.extend_from_slice(&euc_kr_bytes("그룹"));
    bytes.extend_from_slice(b"\"/></beans>");

    let (source, diagnostics, encoding) = decode(&bytes);
    assert!(source.contains("그룹"));
    assert!(diagnostics.is_empty());
    assert_eq!(encoding, "EUC-KR");
}

#[test]
fn u2_declaration_closed_with_bare_gt_mismatch_still_detected() {
    let mut bytes = b"<?xml version=\"1.0\" encoding=\"UTF-8\"><beans><bean id=\"".to_vec();
    bytes.extend_from_slice(&euc_kr_bytes("그룹"));
    bytes.extend_from_slice(b"\"/></beans>");

    let (source, diagnostics, encoding) = decode(&bytes);
    assert!(source.contains("그룹")); // reality (EUC-KR) wins
    assert_eq!(encoding, "EUC-KR");
    assert_eq!(diagnostics.len(), 1);
    assert_eq!(diagnostics[0].code, DiagCode::EncodingMismatch);
}

#[test]
fn u2_declaration_closed_with_bare_gt_stops_before_later_pi_terminator() {
    let bytes = br#"<?xml version="1.0"><beans><bean encoding="utf-16"/></beans><?pi data?>"#;
    let (source, diagnostics, encoding) = decode(bytes);
    assert!(source.contains("encoding=\"utf-16\""));
    assert_eq!(encoding, "UTF-8");
    assert!(
        diagnostics.is_empty(),
        "bare-`>`-closed declaration must not misattribute later element/PI \
         content as the declared encoding: {diagnostics:?}"
    );
}

#[test]
fn u2_prolog_terminator_beyond_1kib_window_still_treated_as_no_declaration() {
    // The widened window has its own edge: content past 1 KiB is
    // still out of scan range by design (this is a bounded byte-level
    // sniff, not a full parse) — such a document is treated the same
    // as one with no discoverable declared encoding, same as any
    // other unresolvable case, and no mismatch is fabricated.
    let padding = "x".repeat(1100);
    let mut bytes =
        format!(r#"<?xml version="1.0" encoding="UTF-8" padding="{padding}"?>"#).into_bytes();
    assert!(
        bytes.len() > 1024,
        "fixture must push '?>' past the widened 1 KiB window"
    );
    bytes.extend_from_slice(b"<beans><bean id=\"");
    bytes.extend_from_slice(&euc_kr_bytes("그룹"));
    bytes.extend_from_slice(b"\"/></beans>");

    let (source, diagnostics, encoding) = decode(&bytes);
    assert!(source.contains("그룹")); // heuristic fallback still decodes it
    assert_eq!(encoding, "EUC-KR");
    assert!(diagnostics.is_empty()); // no declared label found -> no mismatch possible
}


#[test]
fn a_utf8_bom_in_front_decodes_like_the_bytes_after_it() {
    let samples: [&[u8]; 3] = [
        b"<beans/>",
        b"<?xml version=\"1.0\" encoding=\"EUC-KR\"?><beans/>",
        &[0x3C, 0x61, 0x3E, 0xB0, 0xA1, 0x3C, 0x2F, 0x61, 0x3E],
    ];
    for c in samples.iter() {
        let with_bom = [UTF8_BOM, c].concat();
        assert_eq!(decode(&with_bom), decode(c));
    }
}

#[test]
fn utf8_declaring_another_encoding_still_decodes_as_utf8() {
    let text = "<?xml version=\"1.0\" encoding=\"ISO-8859-1\"?><beans>é</beans>";
    let (decoded, diagnostics, encoding) = decode(text.as_bytes());
    assert_eq!(decoded, text);
    assert_eq!(encoding, "UTF-8");
    assert_eq!(diagnostics.iter().map(|d| d.code).collect::<Vec<_>>(), vec![DiagCode::EncodingMismatch]);
}
