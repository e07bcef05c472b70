//! Encoding detection: a byte-order mark, then strict UTF-8, then the
//! encoding the XML declaration names (used only when it decodes without
//! error), then EUC-KR, then lossy UTF-8 with `EncodingUndetectable`. When
//! the declared encoding disagrees with the one that worked, the one that
//! worked is used and `EncodingMismatch` is reported.
use vstd::prelude::*;
use vstd::utf8::{decode_utf8, valid_utf8, encode_utf8};
use crate::model::{DiagCode, Diagnostic};
use crate::text::{bytes_start_with, has_prefix, str_eq};
use crate::unicode::{char_is_whitespace, unicode_white_space};
use crate::codec::{decode_with, enc_euc_kr, enc_utf16be, enc_utf16le, enc_utf8, encoding_for_label, lossy_text, utf8_text, utf8_lossy, whatwg_decode, whatwg_label_name, Enc};

verus! {

pub open spec fn utf8_name() -> Seq<char> {
    seq!['U', 'T', 'F', '-', '8']
}

pub open spec fn utf16le_name() -> Seq<char> {
    seq!['U', 'T', 'F', '-', '1', '6', 'L', 'E']
}

pub open spec fn utf16be_name() -> Seq<char> {
    seq!['U', 'T', 'F', '-', '1', '6', 'B', 'E']
}

pub open spec fn euc_kr_name() -> Seq<char> {
    seq!['E', 'U', 'C', '-', 'K', 'R']
}

/// What `String::from_utf8_lossy` gives.
pub open spec fn lossy_of(b: Seq<u8>) -> Seq<char> {
    if valid_utf8(b) {
        decode_utf8(b)
    } else {
        utf8_lossy(b)
    }
}

/// First position from `i` holding a character that is not whitespace.
pub open spec fn skip_white(t: Seq<char>, i: int) -> int
    decreases t.len() - i,
{
    if 0 <= i < t.len() && unicode_white_space(t[i]) {
        skip_white(t, i + 1)
    } else {
        i
    }
}

/// First position from `i` holding `c`.
pub open spec fn index_of_char(t: Seq<char>, c: char, i: int) -> Option<int>
    decreases t.len() - i,
{
    if i < 0 || i >= t.len() {
        None
    } else if t[i] == c {
        Some(i)
    } else {
        index_of_char(t, c, i + 1)
    }
}

/// First position from `i` where `pat` occurs.
pub open spec fn index_of_seq(t: Seq<char>, pat: Seq<char>, i: int) -> Option<int>
    decreases t.len() + 1 - i,
{
    if i < 0 || i + pat.len() > t.len() {
        None
    } else if t.subrange(i, i + pat.len()) == pat {
        Some(i)
    } else {
        index_of_seq(t, pat, i + 1)
    }
}

pub open spec fn xml_decl_open() -> Seq<char> {
    seq!['<', '?', 'x', 'm', 'l']
}

pub open spec fn encoding_eq() -> Seq<char> {
    seq!['e', 'n', 'c', 'o', 'd', 'i', 'n', 'g', '=']
}

/// The `encoding="..."` (or `'...'`) value of an XML declaration at the
/// start of `t` (after whitespace), looked for only before the first `>`.
pub open spec fn xml_decl_label(t: Seq<char>) -> Option<Seq<char>> {
    let tr = t.subrange(skip_white(t, 0), t.len() as int);
    if !(tr.len() >= 5 && tr.subrange(0, 5) == xml_decl_open()) {
        None
    } else {
        match index_of_char(tr, '>', 0) {
            None => None,
            Some(pe) => {
                let prolog = tr.subrange(0, pe);
                match index_of_seq(prolog, encoding_eq(), 0) {
                    None => None,
                    Some(p) => {
                        let rest = prolog.subrange(p + 9, prolog.len() as int);
                        if rest.len() == 0 || !(rest[0] == '"' || rest[0] == '\'') {
                            None
                        } else {
                            let r2 = rest.subrange(1, rest.len() as int);
                            match index_of_char(r2, rest[0], 0) {
                                None => None,
                                Some(e) => Some(r2.subrange(0, e)),
                            }
                        }
                    },
                }
            },
        }
    }
}

/// How far into the input the XML declaration is looked for.
pub const PROLOG_SCAN_WINDOW: usize = 1024;

/// The encoding label the XML declaration in the first
/// `PROLOG_SCAN_WINDOW` bytes names, if any.
pub open spec fn declared_encoding(content: Seq<u8>) -> Option<Seq<char>> {
    let n = if content.len() < PROLOG_SCAN_WINDOW { content.len() as int } else { PROLOG_SCAN_WINDOW as int };
    xml_decl_label(lossy_of(content.subrange(0, n)))
}

/// The characters of `s`, one by one.
fn chars_of(s: &str) -> (v: Vec<char>)
    ensures
        v@ == s@,
{
    let n = s.unicode_len();
    let mut v: Vec<char> = Vec::new();
    let mut i: usize = 0;
    while i < n
        invariant
            n == s@.len(),
            i <= n,
            v@ == s@.subrange(0, i as int),
        decreases n - i,
    {
        v.push(s.get_char(i));
        i += 1;
        assert(v@ =~= s@.subrange(0, i as int));
    }
    assert(s@.subrange(0, n as int) =~= s@);
    v
}

/// `String::push`: appends the character at the end of the string.
#[verifier::external_body]
fn push_char(s: &mut String, c: char)
    ensures
        final(s)@ == old(s)@.push(c),
{
    s.push(c)
}

fn string_from_chars(v: &[char]) -> (r: String)
    ensures
        r@ == v@,
{
    let mut out = String::new();
    let mut i: usize = 0;
    while i < v.len()
        invariant
            i <= v@.len(),
            out@ == v@.subrange(0, i as int),
        decreases v@.len() - i,
    {
        push_char(&mut out, v[i]);
        i += 1;
        assert(out@ =~= v@.subrange(0, i as int));
    }
    assert(v@.subrange(0, v@.len() as int) =~= v@);
    out
}

fn find_char(t: &Vec<char>, c: char, from: usize) -> (r: Option<usize>)
    requires
        from <= t@.len(),
    ensures
        r == (match index_of_char(t@, c, from as int) {
            Some(k) => Some(k as usize),
            None => None::<usize>,
        }),
{
    let mut i = from;
    while i < t.len()
        invariant
            from <= i <= t@.len(),
            index_of_char(t@, c, from as int) == index_of_char(t@, c, i as int),
        decreases t@.len() - i,
    {
        if t[i] == c {
            return Some(i);
        }
        i += 1;
    }
    None
}

fn starts_at(t: &Vec<char>, pat: &Vec<char>, i: usize) -> (r: bool)
    requires
        i + pat@.len() <= t@.len(),
    ensures
        r == (t@.subrange(i as int, i + pat@.len()) == pat@),
{
    let tl = t.len();
    let mut k: usize = 0;
    while k < pat.len()
        invariant
            k <= pat@.len(),
            tl == t@.len(),
            i + pat@.len() <= t@.len(),
            forall|j: int| 0 <= j < k ==> t@[i + j] == pat@[j],
        decreases pat@.len() - k,
    {
        if t[i + k] != pat[k] {
            assert(t@.subrange(i as int, i + pat@.len())[k as int] != pat@[k as int]);
            return false;
        }
        k += 1;
    }
    assert(t@.subrange(i as int, i + pat@.len()) =~= pat@);
    true
}

fn find_seq(t: &Vec<char>, pat: &Vec<char>) -> (r: Option<usize>)
    ensures
        r == (match index_of_seq(t@, pat@, 0) {
            Some(k) => Some(k as usize),
            None => None::<usize>,
        }),
{
    if pat.len() > t.len() {
        return None;
    }
    let last = t.len() - pat.len();
    let mut i: usize = 0;
    while i <= last
        invariant
            i <= last + 1,
            last + pat@.len() == t@.len(),
            index_of_seq(t@, pat@, 0) == index_of_seq(t@, pat@, i as int),
        decreases last + 1 - i,
    {
        if starts_at(t, pat, i) {
            return Some(i);
        }
        if i == last {
            assert(index_of_seq(t@, pat@, i + 1) is None);
            return None;
        }
        i += 1;
    }
    None
}

fn subvec(t: &Vec<char>, from: usize, to: usize) -> (r: Vec<char>)
    requires
        from <= to <= t@.len(),
    ensures
        r@ == t@.subrange(from as int, to as int),
{
    let mut r: Vec<char> = Vec::new();
    let mut i = from;
    while i < to
        invariant
            from <= i <= to <= t@.len(),
            r@ == t@.subrange(from as int, i as int),
        decreases to - i,
    {
        r.push(t[i]);
        i += 1;
        assert(r@ =~= t@.subrange(from as int, i as int));
    }
    r
}

/// Reads the encoding label from an XML declaration at the start of the
/// first `PROLOG_SCAN_WINDOW` bytes: `<?xml` after optional whitespace,
/// `encoding=` before the first `>`, then a quoted value.
pub fn detect_declared_encoding(bytes: &[u8]) -> (r: Option<String>)
    ensures
        r is Some <==> declared_encoding(bytes@) is Some,
        r matches Some(s) ==> s@ == declared_encoding(bytes@)->0,
{
    let n = if bytes.len() < PROLOG_SCAN_WINDOW { bytes.len() } else { PROLOG_SCAN_WINDOW };
    let head = slice_prefix(bytes, n);
    let text = lossy_text(head);
    let t = chars_of(text.as_str());
    let ghost tv = t@;
    let mut s: usize = 0;
    while s < t.len() && char_is_whitespace(t[s])
        invariant
            s <= t@.len(),
            skip_white(t@, 0) == skip_white(t@, s as int),
        decreases t@.len() - s,
    {
        s += 1;
    }
    let tr = subvec(&t, s, t.len());
    let open = vec!['<', '?', 'x', 'm', 'l'];
    assert(open@ == xml_decl_open());
    if !(tr.len() >= 5 && starts_at(&tr, &open, 0)) {
        proof {
            if tr@.len() >= 5 {
                assert(tr@.subrange(0, 5) == tr@.subrange(0, 0 + open@.len() as int));
            }
        }
        return None;
    }
    proof {
        assert(tr@.subrange(0, 5) == tr@.subrange(0, 0 + open@.len() as int));
    }
    let pe = match find_char(&tr, '>', 0) {
        Some(p) => p,
        None => {
            return None;
        },
    };
    proof {
        lemma_index_of_char(tr@, '>', 0);
    }
    let prolog = subvec(&tr, 0, pe);
    let needle = vec!['e', 'n', 'c', 'o', 'd', 'i', 'n', 'g', '='];
    assert(needle@ == encoding_eq());
    let p = match find_seq(&prolog, &needle) {
        Some(p) => p,
        None => {
            return None;
        },
    };
    proof {
        lemma_index_of_seq(prolog@, needle@, 0);
    }
    let rest = subvec(&prolog, p + 9, prolog.len());
    if rest.len() == 0 || !(rest[0] == '"' || rest[0] == '\'') {
        return None;
    }
    let quote = rest[0];
    let r2 = subvec(&rest, 1, rest.len());
    let e = match find_char(&r2, quote, 0) {
        Some(e) => e,
        None => {
            return None;
        },
    };
    proof {
        lemma_index_of_char(r2@, quote, 0);
    }
    let label = subvec(&r2, 0, e);
    Some(string_from_chars(label.as_slice()))
}

proof fn lemma_index_of_char(t: Seq<char>, c: char, i: int)
    ensures
        index_of_char(t, c, i) matches Some(k) ==> i <= k < t.len() && t[k] == c,
    decreases t.len() - i,
{
    if 0 <= i < t.len() && t[i] != c {
        lemma_index_of_char(t, c, i + 1);
    }
}

proof fn lemma_index_of_seq(t: Seq<char>, pat: Seq<char>, i: int)
    ensures
        index_of_seq(t, pat, i) matches Some(k) ==> i <= k && k + pat.len() <= t.len(),
    decreases t.len() + 1 - i,
{
    if 0 <= i && i + pat.len() <= t.len() && t.subrange(i, i + pat.len()) != pat {
        lemma_index_of_seq(t, pat, i + 1);
    }
}

/// `&bytes[..n]`.
fn slice_prefix(bytes: &[u8], n: usize) -> (r: &[u8])
    requires
        n <= bytes@.len(),
    ensures
        r@ == bytes@.subrange(0, n as int),
{
    vstd::slice::slice_subrange(bytes, 0, n)
}

/// `&bytes[from..]`.
fn slice_from(bytes: &[u8], from: usize) -> (r: &[u8])
    requires
        from <= bytes@.len(),
    ensures
        r@ == bytes@.subrange(from as int, bytes@.len() as int),
{
    vstd::slice::slice_subrange(bytes, from, bytes.len())
}

pub open spec fn is_ascii_alnum(b: u8) -> bool {
    (0x30u8 <= b <= 0x39u8) || (0x41u8 <= b <= 0x5Au8) || (0x61u8 <= b <= 0x7Au8)
}

pub open spec fn ascii_upper(b: u8) -> u8 {
    if 0x61u8 <= b <= 0x7Au8 {
        (b - 0x20) as u8
    } else {
        b
    }
}

/// The ASCII letters and digits of `b`, upper-cased.
pub open spec fn normalized_label(b: Seq<u8>) -> Seq<u8>
    decreases b.len(),
{
    if b.len() == 0 {
        Seq::empty()
    } else {
        normalized_label(b.drop_last()) + if is_ascii_alnum(b.last()) {
            seq![ascii_upper(b.last())]
        } else {
            Seq::empty()
        }
    }
}

/// Code-page names for Korean text that the WHATWG registry does not
/// know, normalized: all of them are EUC-KR in practice.
pub open spec fn korean_code_page(n: Seq<u8>) -> bool {
    ||| n == seq![0x43u8, 0x50u8, 0x39u8, 0x34u8, 0x39u8]
    ||| n == seq![0x4Du8, 0x53u8, 0x39u8, 0x34u8, 0x39u8]
    ||| n == seq![0x58u8, 0x45u8, 0x55u8, 0x43u8, 0x4Bu8, 0x52u8]
    ||| n == seq![0x55u8, 0x48u8, 0x43u8]
}

/// The name of the encoding a declared label stands for.
pub open spec fn resolved_label(label: Seq<char>) -> Option<Seq<char>> {
    let lb = encode_utf8(label);
    if whatwg_label_name(lb) is Some {
        whatwg_label_name(lb)
    } else if korean_code_page(normalized_label(lb)) {
        Some(euc_kr_name())
    } else {
        None
    }
}

fn normalize_label(b: &[u8]) -> (r: Vec<u8>)
    ensures
        r@ == normalized_label(b@),
{
    let mut r: Vec<u8> = Vec::new();
    let mut i: usize = 0;
    while i < b.len()
        invariant
            i <= b@.len(),
            r@ == normalized_label(b@.subrange(0, i as int)),
        decreases b@.len() - i,
    {
        let c = b[i];
        proof {
            assert(b@.subrange(0, i + 1).drop_last() =~= b@.subrange(0, i as int));
        }
        if (0x30u8 <= c && c <= 0x39u8) || (0x41u8 <= c && c <= 0x5Au8) || (0x61u8 <= c && c <= 0x7Au8) {
            let u = if 0x61u8 <= c && c <= 0x7Au8 { c - 0x20 } else { c };
            r.push(u);
            proof {
                assert(r@ =~= normalized_label(b@.subrange(0, i + 1)));
            }
        } else {
            proof {
                assert(r@ =~= normalized_label(b@.subrange(0, i + 1)));
            }
        }
        i += 1;
    }
    assert(b@.subrange(0, b@.len() as int) =~= b@);
    r
}

fn bytes_eq(a: &[u8], b: &[u8]) -> (r: bool)
    ensures
        r == (a@ == b@),
{
    if a.len() != b.len() {
        return false;
    }
    let mut i: usize = 0;
    while i < a.len()
        invariant
            a@.len() == b@.len(),
            i <= a@.len(),
            forall|k: int| 0 <= k < i ==> a@[k] == b@[k],
        decreases a@.len() - i,
    {
        if a[i] != b[i] {
            return false;
        }
        i += 1;
    }
    assert(a@ =~= b@);
    true
}

/// Resolves a declared label: the WHATWG registry first, then the Korean
/// code-page names it lacks (`CP949`, `MS949`, `x-euc-kr`, `UHC`).
pub fn resolve_label(label: &str) -> (r: Option<Enc>)
    ensures
        r is Some <==> resolved_label(label@) is Some,
        r matches Some(e) ==> e.spec_name() == resolved_label(label@)->0,
{
    let lb = label.as_bytes();
    match encoding_for_label(lb) {
        Some(e) => {
            return Some(e);
        },
        None => {},
    }
    let n = normalize_label(lb);
    let cp949: [u8; 5] = [0x43u8, 0x50u8, 0x39u8, 0x34u8, 0x39u8];
    let ms949: [u8; 5] = [0x4Du8, 0x53u8, 0x39u8, 0x34u8, 0x39u8];
    let xeuckr: [u8; 6] = [0x58u8, 0x45u8, 0x55u8, 0x43u8, 0x4Bu8, 0x52u8];
    let uhc: [u8; 3] = [0x55u8, 0x48u8, 0x43u8];
    let known = bytes_eq(n.as_slice(), cp949.as_slice()) || bytes_eq(n.as_slice(), ms949.as_slice())
        || bytes_eq(n.as_slice(), xeuckr.as_slice()) || bytes_eq(n.as_slice(), uhc.as_slice());
    proof {
        assert(cp949@ =~= seq![0x43u8, 0x50u8, 0x39u8, 0x34u8, 0x39u8]);
        assert(ms949@ =~= seq![0x4Du8, 0x53u8, 0x39u8, 0x34u8, 0x39u8]);
        assert(xeuckr@ =~= seq![0x58u8, 0x45u8, 0x55u8, 0x43u8, 0x4Bu8, 0x52u8]);
        assert(uhc@ =~= seq![0x55u8, 0x48u8, 0x43u8]);
    }
    if known {
        Some(enc_euc_kr())
    } else {
        None
    }
}

/// A declared encoding that does not resolve to `actual` is a mismatch.
pub open spec fn mismatch_expected(declared: Option<Seq<char>>, actual: Seq<char>) -> bool {
    declared is Some && resolved_label(declared->0) != Some(actual)
}

/// The report of a declared label that does not stand for the encoding
/// `actual` used.
pub open spec fn mismatch_msg(label: Seq<char>, actual: Seq<char>) -> Seq<char> {
    "declared encoding '"@ + label + "' does not match the actual encoding ("@ + actual + "); using "@ + actual
}

/// The bytes after a leading UTF-8 byte-order mark, if any.
pub open spec fn decode_content(bytes: Seq<u8>) -> Seq<u8> {
    if has_prefix(bytes, seq![0xEFu8, 0xBBu8, 0xBFu8]) {
        bytes.subrange(3, bytes.len() as int)
    } else {
        bytes
    }
}

/// The message of a decoding diagnostic of code `c` for `bytes`.
pub open spec fn decode_msg(bytes: Seq<u8>, c: DiagCode) -> Seq<char> {
    if c == DiagCode::EncodingUndetectable {
        "could not confidently detect an encoding (tried UTF-8, the declared label, EUC-KR/CP949 heuristic); decoded lossily"@
    } else {
        mismatch_msg(declared_encoding(decode_content(bytes))->0, decode_outcome(bytes).1)
    }
}

/// `EncodingMismatch` when the declared label does not stand for the
/// encoding actually used.
pub fn declared_mismatch_diagnostic(declared: &Option<String>, actual: &Enc) -> (r: Option<Diagnostic>)
    ensures
        r is Some <==> mismatch_expected(
            match declared {
                Some(s) => Some(s@),
                None => None,
            },
            actual.spec_name(),
        ),
        r matches Some(d) ==> d.code == DiagCode::EncodingMismatch && d.span is None && d.message@ == mismatch_msg(
            declared->0@,
            actual.spec_name(),
        ),
{
    let label = match declared {
        Some(l) => l,
        None => {
            return None;
        },
    };
    match resolve_label(label.as_str()) {
        Some(e) => {
            if str_eq(e.name(), actual.name()) {
                return None;
            }
        },
        None => {},
    }
    let mut m = "declared encoding '".to_owned();
    m.append(label.as_str());
    m.append("' does not match the actual encoding (");
    m.append(actual.name());
    m.append("); using ");
    m.append(actual.name());
    Some(Diagnostic { code: DiagCode::EncodingMismatch, span: None, message: m })
}

pub open spec fn mismatch_codes(declared: Option<Seq<char>>, actual: Seq<char>) -> Seq<DiagCode> {
    if mismatch_expected(declared, actual) {
        seq![DiagCode::EncodingMismatch]
    } else {
        Seq::empty()
    }
}

/// The decoding chain, as (text, encoding name, diagnostic codes).
pub open spec fn decode_outcome(bytes: Seq<u8>) -> (Seq<char>, Seq<char>, Seq<DiagCode>) {
    let le_bom = seq![0xFFu8, 0xFEu8];
    let be_bom = seq![0xFEu8, 0xFFu8];
    let u8_bom = seq![0xEFu8, 0xBBu8, 0xBFu8];
    let le_rest = bytes.subrange(2, bytes.len() as int);
    if has_prefix(bytes, le_bom) && !whatwg_decode(utf16le_name(), le_rest).1 {
        (whatwg_decode(utf16le_name(), le_rest).0, utf16le_name(), Seq::empty())
    } else if !has_prefix(bytes, le_bom) && has_prefix(bytes, be_bom)
        && !whatwg_decode(utf16be_name(), le_rest).1 {
        (whatwg_decode(utf16be_name(), le_rest).0, utf16be_name(), Seq::empty())
    } else {
        let content = if has_prefix(bytes, u8_bom) {
            bytes.subrange(3, bytes.len() as int)
        } else {
            bytes
        };
        let declared = declared_encoding(content);
        if valid_utf8(content) {
            (decode_utf8(content), utf8_name(), mismatch_codes(declared, utf8_name()))
        } else if declared is Some && resolved_label(declared->0) is Some
            && !whatwg_decode(resolved_label(declared->0)->0, content).1 {
            let name = resolved_label(declared->0)->0;
            (whatwg_decode(name, content).0, name, mismatch_codes(declared, name))
        } else if !whatwg_decode(euc_kr_name(), content).1 {
            (whatwg_decode(euc_kr_name(), content).0, euc_kr_name(), mismatch_codes(declared, euc_kr_name()))
        } else {
            (utf8_lossy(content), utf8_name(), seq![DiagCode::EncodingUndetectable])
        }
    }
}

pub open spec fn diag_codes(ds: Seq<Diagnostic>) -> Seq<DiagCode> {
    ds.map_values(|d: Diagnostic| d.code)
}

fn single_or_none(d: Option<Diagnostic>) -> (r: Vec<Diagnostic>)
    ensures
        d is None ==> r@.len() == 0,
        d matches Some(x) ==> r@ == seq![x],
{
    let mut v = Vec::new();
    if let Some(x) = d {
        v.push(x);
    }
    proof {
        if d is Some {
            assert(v@ =~= seq![d->0]);
        }
    }
    v
}

/// Decodes raw input bytes into text, returning the text, the encoding
/// diagnostics, and the WHATWG name of the encoding used. Never fails: the
/// last step decodes lossily.
pub fn decode(bytes: &[u8]) -> (r: (String, Vec<Diagnostic>, &'static str))
    ensures
        r.0@ == decode_outcome(bytes@).0,
        r.2@ == decode_outcome(bytes@).1,
        diag_codes(r.1@) == decode_outcome(bytes@).2,
        forall|k: int| 0 <= k < r.1@.len() ==> (#[trigger] r.1@[k]).span is None,
        forall|k: int| 0 <= k < r.1@.len() ==> (#[trigger] r.1@[k]).message@ == decode_msg(bytes@, r.1@[k].code),
{
    let le_bom: [u8; 2] = [0xFFu8, 0xFEu8];
    let be_bom: [u8; 2] = [0xFEu8, 0xFFu8];
    let u8_bom: [u8; 3] = [0xEFu8, 0xBBu8, 0xBFu8];
    proof {
        assert(le_bom@ =~= seq![0xFFu8, 0xFEu8]);
        assert(be_bom@ =~= seq![0xFEu8, 0xFFu8]);
        assert(u8_bom@ =~= seq![0xEFu8, 0xBBu8, 0xBFu8]);
    }
    let is_le = bytes_start_with(bytes, le_bom.as_slice());
    let is_be = bytes_start_with(bytes, be_bom.as_slice());
    if is_le {
        let rest = slice_from(bytes, 2);
        let enc = enc_utf16le();
        let (text, had_errors) = decode_with(&enc, rest);
        if !had_errors {
            return (text, Vec::new(), enc.name());
        }
    } else if is_be {
        let rest = slice_from(bytes, 2);
        let enc = enc_utf16be();
        let (text, had_errors) = decode_with(&enc, rest);
        if !had_errors {
            return (text, Vec::new(), enc.name());
        }
    }
    let content = if bytes_start_with(bytes, u8_bom.as_slice()) {
        slice_from(bytes, 3)
    } else {
        bytes
    };
    let declared = detect_declared_encoding(content);
    let ghost dspec = declared_encoding(content@);
    proof {
        assert(content@ == decode_content(bytes@));
    }
    proof {
        assert(match declared {
            Some(s) => Some(s@),
            None => None::<Seq<char>>,
        } == dspec);
    }
    match utf8_text(content) {
        Some(s) => {
            let enc = enc_utf8();
            let diagnostics = single_or_none(declared_mismatch_diagnostic(&declared, &enc));
            proof {
                assert(diag_codes(diagnostics@) =~= mismatch_codes(dspec, utf8_name()));
            }
            return (s, diagnostics, enc.name());
        },
        None => {},
    }
    if let Some(label) = &declared {
        if let Some(enc) = resolve_label(label.as_str()) {
            let (text, had_errors) = decode_with(&enc, content);
            if !had_errors {
                let diagnostics = single_or_none(declared_mismatch_diagnostic(&declared, &enc));
                proof {
                    assert(diag_codes(diagnostics@) =~= mismatch_codes(dspec, enc.spec_name()));
                }
                return (text, diagnostics, enc.name());
            }
        }
    }
    let enc = enc_euc_kr();
    let (text, had_errors) = decode_with(&enc, content);
    if !had_errors {
        let diagnostics = single_or_none(declared_mismatch_diagnostic(&declared, &enc));
        proof {
            assert(diag_codes(diagnostics@) =~= mismatch_codes(dspec, euc_kr_name()));
        }
        return (text, diagnostics, enc.name());
    }
    let lossy = lossy_text(content);
    let mut diagnostics = Vec::new();
    diagnostics.push(
        Diagnostic {
            code: DiagCode::EncodingUndetectable,
            span: None,
            message: "could not confidently detect an encoding (tried UTF-8, the declared label, EUC-KR/CP949 heuristic); decoded lossily".to_owned(),
        },
    );
    proof {
        assert(diag_codes(diagnostics@) =~= seq![DiagCode::EncodingUndetectable]);
    }
    let utf8 = enc_utf8();
    (lossy, diagnostics, utf8.name())
}

/// Only the first `PROLOG_SCAN_WINDOW` bytes decide the declared encoding:
/// inputs that agree on them declare the same.
pub proof fn law_declaration_window(c1: Seq<u8>, c2: Seq<u8>)
    requires
        c1.len() >= PROLOG_SCAN_WINDOW,
        c2.len() >= PROLOG_SCAN_WINDOW,
        c1.subrange(0, PROLOG_SCAN_WINDOW as int) == c2.subrange(0, PROLOG_SCAN_WINDOW as int),
    ensures
        declared_encoding(c1) == declared_encoding(c2),
{
}

/// A UTF-8 byte-order mark in front of bytes that start with no
/// byte-order mark of their own decodes exactly as those bytes do.
pub proof fn law_bom_then_bytes(c: Seq<u8>)
    requires
        !has_prefix(c, seq![0xEFu8, 0xBBu8, 0xBFu8]),
        !has_prefix(c, seq![0xFFu8, 0xFEu8]),
        !has_prefix(c, seq![0xFEu8, 0xFFu8]),
    ensures
        decode_outcome(seq![0xEFu8, 0xBBu8, 0xBFu8] + c) == decode_outcome(c),
{
    let b = seq![0xEFu8, 0xBBu8, 0xBFu8] + c;
    assert(b.subrange(3, b.len() as int) =~= c);
    assert(b.subrange(0, 3) =~= seq![0xEFu8, 0xBBu8, 0xBFu8]);
    assert(b[0] == 0xEFu8);
    assert(!has_prefix(b, seq![0xFFu8, 0xFEu8])) by {
        if b.len() >= 2 {
            assert(b.subrange(0, 2)[0] == b[0]);
        }
    }
    assert(!has_prefix(b, seq![0xFEu8, 0xFFu8])) by {
        if b.len() >= 2 {
            assert(b.subrange(0, 2)[0] == b[0]);
        }
    }
}

/// Valid UTF-8 with no byte-order mark decodes as UTF-8 to its own text,
/// whatever its XML declaration names; a declared other encoding is only
/// reported (`mismatch_codes`).
pub proof fn law_utf8_decodes_as_utf8(c: Seq<u8>)
    requires
        valid_utf8(c),
        !has_prefix(c, seq![0xEFu8, 0xBBu8, 0xBFu8]),
    ensures
        decode_outcome(c) == (decode_utf8(c), utf8_name(), mismatch_codes(declared_encoding(c), utf8_name())),
{
    if c.len() >= 2 {
        assert(vstd::utf8::valid_first_scalar(c));
        assert(c[0] != 0xFFu8 && c[0] != 0xFEu8);
        assert(c.subrange(0, 2)[0] == c[0]);
    }
    assert(!has_prefix(c, seq![0xFFu8, 0xFEu8]));
    assert(!has_prefix(c, seq![0xFEu8, 0xFFu8]));
}


/// Bytes with no byte-order mark that are not UTF-8, whose XML declaration
/// names a label standing for an encoding that decodes them without error,
/// are decoded with that encoding and reported under its name, with no
/// diagnostic (in particular no `EncodingUndetectable`).
pub proof fn law_declared_encoding_decodes(c: Seq<u8>, label: Seq<char>, name: Seq<char>)
    requires
        !has_prefix(c, seq![0xEFu8, 0xBBu8, 0xBFu8]),
        !has_prefix(c, seq![0xFFu8, 0xFEu8]),
        !has_prefix(c, seq![0xFEu8, 0xFFu8]),
        !valid_utf8(c),
        declared_encoding(c) == Some(label),
        resolved_label(label) == Some(name),
        !whatwg_decode(name, c).1,
    ensures
        decode_outcome(c) == (whatwg_decode(name, c).0, name, Seq::<DiagCode>::empty()),
        !decode_outcome(c).2.contains(DiagCode::EncodingUndetectable),
{
    assert(mismatch_codes(Some(label), name) =~= Seq::<DiagCode>::empty());
}


/// A UTF-16LE byte-order mark followed by bytes that decode as UTF-16LE
/// without error gives that text, as `UTF-16LE`, with no diagnostic.
pub proof fn law_utf16le_bom(c: Seq<u8>)
    requires
        !whatwg_decode(seq!['U', 'T', 'F', '-', '1', '6', 'L', 'E'], c).1,
    ensures
        decode_outcome(seq![0xFFu8, 0xFEu8] + c) == (
            whatwg_decode(seq!['U', 'T', 'F', '-', '1', '6', 'L', 'E'], c).0,
            seq!['U', 'T', 'F', '-', '1', '6', 'L', 'E'],
            Seq::<DiagCode>::empty(),
        ),
{
    let b = seq![0xFFu8, 0xFEu8] + c;
    assert(b.subrange(0, 2) =~= seq![0xFFu8, 0xFEu8]);
    assert(b.subrange(2, b.len() as int) =~= c);
}

/// A UTF-16BE byte-order mark followed by bytes that decode as UTF-16BE
/// without error gives that text, as `UTF-16BE`, with no diagnostic.
pub proof fn law_utf16be_bom(c: Seq<u8>)
    requires
        !whatwg_decode(seq!['U', 'T', 'F', '-', '1', '6', 'B', 'E'], c).1,
    ensures
        decode_outcome(seq![0xFEu8, 0xFFu8] + c) == (
            whatwg_decode(seq!['U', 'T', 'F', '-', '1', '6', 'B', 'E'], c).0,
            seq!['U', 'T', 'F', '-', '1', '6', 'B', 'E'],
            Seq::<DiagCode>::empty(),
        ),
{
    let b = seq![0xFEu8, 0xFFu8] + c;
    assert(b.subrange(0, 2) =~= seq![0xFEu8, 0xFFu8]);
    assert(b.subrange(2, b.len() as int) =~= c);
    assert(!has_prefix(b, seq![0xFFu8, 0xFEu8])) by {
        assert(b.subrange(0, 2)[0] == 0xFEu8);
    }
}

/// Bytes with no byte-order mark that are neither UTF-8 nor decodable by
/// their declared encoding (if any), but decode as EUC-KR without error,
/// are taken as EUC-KR; a declaration, which then named something else or
/// nothing usable, is reported as `EncodingMismatch`.
pub proof fn law_euc_kr_fallback(c: Seq<u8>)
    requires
        !has_prefix(c, seq![0xEFu8, 0xBBu8, 0xBFu8]),
        !has_prefix(c, seq![0xFFu8, 0xFEu8]),
        !has_prefix(c, seq![0xFEu8, 0xFFu8]),
        !valid_utf8(c),
        declared_encoding(c) matches Some(l) ==> (resolved_label(l) matches Some(name) ==> whatwg_decode(name, c).1),
        !whatwg_decode(seq!['E', 'U', 'C', '-', 'K', 'R'], c).1,
    ensures
        decode_outcome(c) == (
            whatwg_decode(seq!['E', 'U', 'C', '-', 'K', 'R'], c).0,
            seq!['E', 'U', 'C', '-', 'K', 'R'],
            if declared_encoding(c) is Some { seq![DiagCode::EncodingMismatch] } else { Seq::<DiagCode>::empty() },
        ),
{
}

/// Bytes with no byte-order mark that are neither UTF-8, nor decodable by
/// their declared encoding, nor EUC-KR, are decoded lossily as UTF-8 with
/// exactly one `EncodingUndetectable`.
pub proof fn law_lossy_fallback(c: Seq<u8>)
    requires
        !has_prefix(c, seq![0xEFu8, 0xBBu8, 0xBFu8]),
        !has_prefix(c, seq![0xFFu8, 0xFEu8]),
        !has_prefix(c, seq![0xFEu8, 0xFFu8]),
        !valid_utf8(c),
        declared_encoding(c) matches Some(l) ==> (resolved_label(l) matches Some(name) ==> whatwg_decode(name, c).1),
        whatwg_decode(seq!['E', 'U', 'C', '-', 'K', 'R'], c).1,
    ensures
        decode_outcome(c) == (utf8_lossy(c), seq!['U', 'T', 'F', '-', '8'], seq![DiagCode::EncodingUndetectable]),
{
}

} // verus!
