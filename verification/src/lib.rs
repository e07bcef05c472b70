//! A lenient parser for Spring Framework bean XML configuration.
use vstd::prelude::*;

pub mod model;
pub mod text;
pub mod events;
pub mod braces;
pub mod tokenizer;
pub mod entities;
pub mod attrs;
pub mod unicode;
pub mod codec;
pub mod encoding;
pub mod scope;
pub mod wellformed;
pub mod reading;
pub mod harvest;
pub mod literal;
pub mod namespaced;
pub mod tokens;
pub mod bean_attrs;
pub mod bean_children;
pub mod inject_value;
pub mod collection;
pub mod property;
pub mod bean;
pub mod dispatch;
pub mod located;

use crate::dispatch::{body_adds, body_rel, dup_ids_reported, is_beans_root, is_beans_root_spec, lemma_tag_is_beans, parse_beans_body, tag_is_beans};
use crate::encoding::{decode, decode_outcome, declared_encoding, diag_codes, mismatch_expected, utf8_name};
use crate::events::{build_tree, element_grounded, first_tag, root_is_first, tree_of, XmlElement};
use crate::inject_value::extends;
use crate::literal::push_diag;
use crate::located::{block_located, lemma_body_located};
use crate::scope::{empty_scope, scope_for, NsScope};
use crate::text::{bytes_of, has_prefix};
use crate::wellformed::beans_file_ok;

pub use model::{
    Alias, AttrPair, Bean, BeanCtx, BeanRef, BeansFile, BeansFileCtx, ByteSpan, ClassRef, Collection, ComponentScan,
    ConstructorArg, DiagCode, Diagnostic, Import, ImportKind, InjectValue, LookupMethod, MapEntry,
    MetaEntry, NamespacedElement, ParseResult, PropEntry, Property, PropertySource, Qualifier,
    RefKind, ReplacedMethod, ScanFilter, Spanned, ValueLit,
};

verus! {

/// Maximum input size; larger input is rejected before decoding.
pub const MAX_INPUT_BYTES: usize = 10485760;

/// Maximum nesting depth for beans / collections.
pub const DEPTH_LIMIT: u32 = 256;

/// The tree root is a `<beans>` element.
pub open spec fn accepts_root(root: Option<XmlElement>) -> bool {
    root matches Some(e) && is_beans_root_spec(e)
}

/// What a document with tree root `root` parses to: for a `<beans>` root,
/// the block it gives (in its own scope, at nesting 0); otherwise nothing.
pub open spec fn parsed_root(root: Option<XmlElement>, beans: Option<BeansFile>) -> bool {
    if accepts_root(root) {
        beans matches Some(f) && body_rel(scope_for(empty_scope(), root->0), 0, root->0, f) && beans_file_ok(f)
    } else {
        beans is None
    }
}

/// The span of the root element, if any.
pub open spec fn root_span(root: Option<XmlElement>) -> Option<ByteSpan> {
    match root {
        Some(e) => Some(e.span),
        None => None,
    }
}

/// The report of a root that is not `<beans>`.
pub open spec fn not_beans_msg(root: Option<XmlElement>) -> Seq<char> {
    match root {
        Some(e) => "document root <"@ + e.name@ + "> is not <beans>"@,
        None => "no root element found"@,
    }
}

/// The diagnostics of parsing a document whose tree ended with `root` and
/// `tree_diags`: the tree's diagnostics first; then, for a `<beans>` root,
/// exactly what reading its block adds (`body_adds`); otherwise exactly
/// one `NotBeansRoot` at the root's span (none without a root).
pub open spec fn parse_diags(root: Option<XmlElement>, tree_diags: Seq<Diagnostic>, diags: Seq<Diagnostic>) -> bool {
    &&& extends(tree_diags, diags)
    &&& accepts_root(root) ==> body_adds(scope_for(empty_scope(), root->0), 0, root->0, tree_diags, diags)
    &&& !accepts_root(root) ==> crate::literal::one_more_msg(
        tree_diags,
        diags,
        DiagCode::NotBeansRoot,
        root_span(root),
        not_beans_msg(root),
    )
}

/// A parse of the text whose UTF-8 bytes are `src`, giving `beans` and the
/// diagnostics `diags`: the text's element tree (`tree_of`) has a root
/// (grounded in `src`, opened by the text's first tag) or none, `beans` is
/// what that root parses to, and `diags` follow `parse_diags`.
pub open spec fn parse_of(src: Seq<u8>, beans: Option<BeansFile>, diags: Seq<Diagnostic>) -> bool {
    exists|root: Option<XmlElement>, tree_diags: Seq<Diagnostic>|
        #[trigger] tree_of(src, root, tree_diags) && (root matches Some(e) ==> element_grounded(src, e))
            && root_is_first(src, root, first_tag(src)) && parsed_root(root, beans) && parse_diags(
            root,
            tree_diags,
            diags,
        )
}

/// The first tag of the text whose UTF-8 bytes are `src` opens a `<beans>`
/// element.
pub open spec fn beans_doc_of_text(src: Seq<u8>) -> bool {
    first_tag(src) matches Some(t) && tag_is_beans(src, t)
}

/// The bytes are within the input cap, decode to a text whose spans fit
/// `u32`, and that text's root is `<beans>`.
pub open spec fn beans_doc_spec(bytes: Seq<u8>) -> bool {
    &&& bytes.len() <= MAX_INPUT_BYTES
    &&& encode_utf8_len_ok(decode_outcome(bytes).0)
    &&& beans_doc_of_text(vstd::utf8::encode_utf8(decode_outcome(bytes).0))
}

/// A parse has a `BeansFile` exactly when the text's first tag opens a
/// `<beans>` element.
pub proof fn lemma_parse_of_beans(src: Seq<u8>, beans: Option<BeansFile>, diags: Seq<Diagnostic>)
    requires
        parse_of(src, beans, diags),
    ensures
        beans is Some <==> beans_doc_of_text(src),
{
    let (root, td) = choose|root: Option<XmlElement>, tree_diags: Seq<Diagnostic>|
        #[trigger] tree_of(src, root, tree_diags) && (root matches Some(e) ==> element_grounded(src, e))
            && root_is_first(src, root, first_tag(src)) && parsed_root(root, beans) && parse_diags(root, tree_diags, diags);
    if let Some(t) = first_tag(src) {
        lemma_tag_is_beans(src, root->0, t);
    }
}

/// `is_beans_doc` and `parse_bytes` agree: a byte slice is a `<beans>`
/// document exactly when parsing it gives a `BeansFile`.
pub proof fn law_beans_doc_agrees(bytes: Seq<u8>, doc: bool, beans: Option<BeansFile>)
    requires
        doc == beans_doc_spec(bytes),
        beans is Some <==> beans_doc_spec(bytes),
    ensures
        doc == beans is Some,
{
}

/// UTF-8 bytes with no byte-order mark, whose XML declaration (if any)
/// names no other encoding, decode to their own text, as `UTF-8`, with no
/// diagnostics: on them `parse_bytes` parses exactly what `parse` parses
/// on that text, and `is_beans_doc` answers what `parse` decides.
pub proof fn law_utf8_bytes_decode_to_themselves(bytes: Seq<u8>)
    requires
        vstd::utf8::valid_utf8(bytes),
        !has_prefix(bytes, seq![0xEFu8, 0xBBu8, 0xBFu8]),
        !mismatch_expected(declared_encoding(bytes), utf8_name()),
    ensures
        decode_outcome(bytes) == (vstd::utf8::decode_utf8(bytes), utf8_name(), Seq::<DiagCode>::empty()),
        vstd::utf8::encode_utf8(decode_outcome(bytes).0) == bytes,
        beans_doc_spec(bytes) <==> (bytes.len() <= MAX_INPUT_BYTES && bytes.len() <= u32::MAX && beans_doc_of_text(
            bytes,
        )),
{
    vstd::utf8::decode_utf8_encode_utf8(bytes);
    if bytes.len() >= 2 {
        assert(vstd::utf8::valid_first_scalar(bytes));
        assert(bytes[0] != 0xFFu8 && bytes[0] != 0xFEu8);
        assert(bytes.subrange(0, 2)[0] == bytes[0]);
    }
    assert(!has_prefix(bytes, seq![0xFFu8, 0xFEu8]));
    assert(!has_prefix(bytes, seq![0xFEu8, 0xFFu8]));
}

/// Parsing a tree and checking its root agree: the parse has a `BeansFile`
/// exactly when the root is a `<beans>` element.
pub proof fn law_root_check_agrees(root: Option<XmlElement>, beans: Option<BeansFile>)
    requires
        parsed_root(root, beans),
    ensures
        beans is Some <==> accepts_root(root),
{
}

/// Whatever a parse reads verbatim from attributes (the block header
/// values, and the `id`, `class`, `parent`, ... of every bean of the
/// document and of its nested blocks) is exactly the text at its span.
pub proof fn law_parsed_values_located(src: Seq<u8>, beans: Option<BeansFile>, diags: Seq<Diagnostic>)
    requires
        parse_of(src, beans, diags),
    ensures
        beans matches Some(f) ==> block_located(src, f),
{
    let (root, td) = choose|root: Option<XmlElement>, tree_diags: Seq<Diagnostic>|
        #[trigger] tree_of(src, root, tree_diags) && (root matches Some(e) ==> element_grounded(src, e))
            && root_is_first(src, root, first_tag(src)) && parsed_root(root, beans) && parse_diags(root, tree_diags, diags);
    if beans is Some {
        lemma_body_located(src, scope_for(empty_scope(), root->0), 0, root->0, beans->0);
    }
}

/// Resolves a tree's root into a `BeansFile`, or nothing with a
/// `NotBeansRoot` report when there is no root or it is not `<beans>`.
pub fn parse_root(root: Option<&XmlElement>, diagnostics: &mut Vec<Diagnostic>) -> (r: Option<BeansFile>)
    ensures
        parsed_root(
            match root {
                Some(e) => Some(*e),
                None => None,
            },
            r,
        ),
        !accepts_root(
            match root {
                Some(e) => Some(*e),
                None => None,
            },
        ) ==> crate::literal::one_more_msg(
            old(diagnostics)@,
            final(diagnostics)@,
            DiagCode::NotBeansRoot,
            match root {
                Some(e) => Some(e.span),
                None => None,
            },
            not_beans_msg(
                match root {
                    Some(e) => Some(*e),
                    None => None,
                },
            ),
        ),
        extends(old(diagnostics)@, final(diagnostics)@),
        r matches Some(f) ==> dup_ids_reported(f.beans@, final(diagnostics)@),
        accepts_root(
            match root {
                Some(e) => Some(*e),
                None => None,
            },
        ) ==> body_adds(scope_for(empty_scope(), *root->0), 0, *root->0, old(diagnostics)@, final(diagnostics)@),
{
    match root {
        None => {
            push_diag(diagnostics, DiagCode::NotBeansRoot, None, "no root element found".to_owned());
            proof { assert(diagnostics@.subrange(0, old(diagnostics)@.len() as int) =~= old(diagnostics)@); }
            None
        },
        Some(e) => {
            if !is_beans_root(e) {
                let mut m = "document root <".to_owned();
                m.append(e.name.as_str());
                m.append("> is not <beans>");
                push_diag(diagnostics, DiagCode::NotBeansRoot, Some(e.span), m);
                proof { assert(diagnostics@.subrange(0, old(diagnostics)@.len() as int) =~= old(diagnostics)@); }
                return None;
            }
            let scope = NsScope::from_element(e, None);
            let ctx = parse_beans_body(&scope, e, diagnostics, 0);
            let f = ctx.into_beans_file();
            Some(f)
        },
    }
}

/// Nothing was parsed, and the last diagnostic says why: the root is not
/// `<beans>` (`NotBeansRoot`), or the input is too large (`OversizeInput`).
pub open spec fn refusal_explained(beans: Option<BeansFile>, diagnostics: Seq<Diagnostic>) -> bool {
    beans is None ==> diagnostics.len() > 0 && (diagnostics.last().code == DiagCode::NotBeansRoot
        || diagnostics.last().code == DiagCode::OversizeInput)
}

/// The text, decoded, then its tree parsed; the text-level diagnostics
/// come first. A text too long for `u32` spans is refused
/// (`OversizeInput`).
fn parse_text(source: &str, diagnostics: &mut Vec<Diagnostic>) -> (r: Option<BeansFile>)
    requires
        old(diagnostics)@.len() == 0,
    ensures
        bytes_of(source).len() <= u32::MAX ==> parse_of(
            bytes_of(source),
            r,
            final(diagnostics)@.subrange(old(diagnostics)@.len() as int, final(diagnostics)@.len() as int),
        ),
        r is Some <==> (bytes_of(source).len() <= u32::MAX && beans_doc_of_text(bytes_of(source))),
        bytes_of(source).len() > u32::MAX ==> r is None && crate::literal::one_more_msg(
            old(diagnostics)@,
            final(diagnostics)@,
            DiagCode::OversizeInput,
            None,
            "input exceeds the span range"@,
        ),
        refusal_explained(r, final(diagnostics)@),
        extends(old(diagnostics)@, final(diagnostics)@),
        r matches Some(f) ==> dup_ids_reported(f.beans@, final(diagnostics)@),
        bytes_of(source).len() == 0 ==> r is None && crate::literal::one_more_msg(
            old(diagnostics)@,
            final(diagnostics)@,
            DiagCode::NotBeansRoot,
            None,
            "no root element found"@,
        ),
{
    if source.as_bytes().len() > 0xFFFF_FFFFusize {
        push_diag(diagnostics, DiagCode::OversizeInput, None, "input exceeds the span range".to_owned());
        proof { assert(diagnostics@.subrange(0, old(diagnostics)@.len() as int) =~= old(diagnostics)@); }
        return None;
    }
    let tree = build_tree(source);
    let mut tree_diags = tree.diagnostics;
    let ghost d0 = diagnostics@;
    diagnostics.append(&mut tree_diags);
    let ghost d1 = diagnostics@;
    let r = parse_root(tree.root.as_ref(), diagnostics);
    proof {
        assert(d1.subrange(0, d0.len() as int) =~= d0);
        crate::inject_value::lemma_extends_trans(d0, d1, diagnostics@);
        let root = tree.root;
        let td = tree.diagnostics@;
        let fin = diagnostics@;
        let sub = fin.subrange(d0.len() as int, fin.len() as int);
        assert(d1.subrange(d0.len() as int, d1.len() as int) =~= td);
        assert(sub.subrange(0, td.len() as int) =~= fin.subrange(0, d1.len() as int).subrange(d0.len() as int, d1.len() as int));
        assert(extends(td, sub));
        if accepts_root(root) {
            assert(d1 =~= td);
            assert(sub =~= fin);
        }
        if !accepts_root(root) {
            assert(sub.drop_last() =~= fin.drop_last().subrange(d0.len() as int, d1.len() as int));
            assert(sub.last() == fin.last());
            assert(crate::literal::one_more_msg(td, sub, DiagCode::NotBeansRoot, root_span(root), not_beans_msg(root)));
        }
        assert(root matches Some(e) ==> element_grounded(bytes_of(source), e));
        assert(parsed_root(root, r));
        assert(parse_diags(root, td, sub));
        assert(tree_of(bytes_of(source), root, td));
        lemma_parse_of_beans(bytes_of(source), r, sub);
        if bytes_of(source).len() == 0 {
            assert(d1 =~= d0);
        }
    }
    r
}

/// Parses decoded `<beans>` XML text. Never fails: every anomaly is a
/// diagnostic. The encoding reported is always UTF-8.
pub fn parse(source: &str) -> (r: ParseResult)
    ensures
        r.encoding matches Some(e) && e@ == "UTF-8"@,
        bytes_of(source).len() <= u32::MAX ==> parse_of(bytes_of(source), r.beans, r.diagnostics@),
        r.beans is Some <==> (bytes_of(source).len() <= u32::MAX && beans_doc_of_text(bytes_of(source))),
        r.beans matches Some(f) ==> beans_file_ok(f),
        r.beans matches Some(f) ==> dup_ids_reported(f.beans@, r.diagnostics@),
        refusal_explained(r.beans, r.diagnostics@),
        bytes_of(source).len() == 0 ==> r.beans is None && r.diagnostics@.len() == 1 && r.diagnostics@[0].code
            == DiagCode::NotBeansRoot && r.diagnostics@[0].span is None && r.diagnostics@[0].message@ == "no root element found"@,
{
    let mut diagnostics: Vec<Diagnostic> = Vec::new();
    let beans = parse_text(source, &mut diagnostics);
    proof {
        let src = bytes_of(source);
        let ds = diagnostics@;
        assert(ds.subrange(0, ds.len() as int) =~= ds);
        if src.len() == 0 {
            assert(ds[0] == ds.last());
        }
        if beans is Some {
            assert(src.len() <= u32::MAX);
            let (w, td) = choose|root: Option<XmlElement>, tree_diags: Seq<Diagnostic>|
                #[trigger] tree_of(src, root, tree_diags) && (root matches Some(e) ==> element_grounded(src, e))
                    && root_is_first(src, root, first_tag(src)) && parsed_root(root, beans) && parse_diags(root, tree_diags, ds);
            assert(parsed_root(w, beans));
        }
    }
    ParseResult { beans, encoding: Some("UTF-8".to_owned()), diagnostics }
}

/// Parses raw bytes, detecting their encoding (see `decode`). Input over
/// `MAX_INPUT_BYTES` is refused with `OversizeInput` before decoding.
/// Never fails otherwise.
pub fn parse_bytes(bytes: &[u8]) -> (r: ParseResult)
    ensures
        bytes@.len() > MAX_INPUT_BYTES ==> r.beans is None && r.encoding is None && r.diagnostics@.len() == 1
            && r.diagnostics@[0].code == DiagCode::OversizeInput && r.diagnostics@[0].span is None
            && r.diagnostics@[0].message@ == "input exceeds MAX_INPUT_BYTES"@,
        bytes@.len() <= MAX_INPUT_BYTES ==> {
            let out = decode_outcome(bytes@);
            &&& r.encoding matches Some(e) && e@ == out.1
            &&& out.2.len() <= r.diagnostics@.len()
            &&& diag_codes(r.diagnostics@.subrange(0, out.2.len() as int)) == out.2
            &&& encode_utf8_len_ok(out.0) ==> parse_of(
                vstd::utf8::encode_utf8(out.0),
                r.beans,
                r.diagnostics@.subrange(out.2.len() as int, r.diagnostics@.len() as int),
            )
        },
        r.beans is Some <==> beans_doc_spec(bytes@),
        r.beans matches Some(f) ==> beans_file_ok(f),
        r.beans matches Some(f) ==> dup_ids_reported(f.beans@, r.diagnostics@),
        refusal_explained(r.beans, r.diagnostics@),
        bytes@.len() <= MAX_INPUT_BYTES && bytes@.len() <= u32::MAX && vstd::utf8::valid_utf8(bytes@) && !has_prefix(
            bytes@,
            seq![0xEFu8, 0xBBu8, 0xBFu8],
        ) && !mismatch_expected(declared_encoding(bytes@), utf8_name()) ==> (r.encoding matches Some(e) && e@ == utf8_name()
            && parse_of(bytes@, r.beans, r.diagnostics@)),
{
    if bytes.len() > MAX_INPUT_BYTES {
        let mut diagnostics: Vec<Diagnostic> = Vec::new();
        push_diag(&mut diagnostics, DiagCode::OversizeInput, None, "input exceeds MAX_INPUT_BYTES".to_owned());
        proof { assert(diagnostics@.len() == 1); }
        return ParseResult { beans: None, encoding: None, diagnostics };
    }
    let (source, mut diagnostics, encoding) = decode(bytes);
    let ghost d0 = diagnostics@;
    let mut text_diags: Vec<Diagnostic> = Vec::new();
    let beans = parse_text(source.as_str(), &mut text_diags);
    let ghost td = text_diags@;
    diagnostics.append(&mut text_diags);
    proof {
        assert(diagnostics@ =~= d0 + td);
        assert(diagnostics@.subrange(0, d0.len() as int) =~= d0);
        assert(diagnostics@.subrange(d0.len() as int, diagnostics@.len() as int) =~= td);
        assert(td.subrange(0, td.len() as int) =~= td);
        if beans is None {
            assert(diagnostics@.last() == td.last());
        }
        if vstd::utf8::valid_utf8(bytes@) && !has_prefix(bytes@, seq![0xEFu8, 0xBBu8, 0xBFu8]) && !mismatch_expected(
            declared_encoding(bytes@),
            utf8_name(),
        ) {
            law_utf8_bytes_decode_to_themselves(bytes@);
            assert(diag_codes(d0).len() == d0.len());
            assert(d0.len() == 0);
            assert(diagnostics@ =~= td);
        }
        if beans is Some {
            crate::dispatch::lemma_dup_reports_shift(beans->0.beans@, d0, td);
        }
        if beans is Some {
            let src = vstd::utf8::encode_utf8(source@);
            let ds = diagnostics@.subrange(d0.len() as int, diagnostics@.len() as int);
            let (w, td) = choose|root: Option<XmlElement>, tree_diags: Seq<Diagnostic>|
                #[trigger] tree_of(src, root, tree_diags) && (root matches Some(e) ==> element_grounded(src, e))
                    && root_is_first(src, root, first_tag(src)) && parsed_root(root, beans) && parse_diags(root, tree_diags, ds);
            assert(parsed_root(w, beans));
        }
    }
    ParseResult { beans, encoding: Some(encoding.to_owned()), diagnostics }
}

/// The decoded text fits `u32` spans.
pub open spec fn encode_utf8_len_ok(t: Seq<char>) -> bool {
    vstd::utf8::encode_utf8(t).len() <= u32::MAX
}

/// Cheap check: is the document root `<beans>`? The same input cap and
/// decoding as `parse_bytes`, then only the tree's root is looked at.
pub fn is_beans_doc(bytes: &[u8]) -> (r: bool)
    ensures
        bytes@.len() > MAX_INPUT_BYTES ==> !r,
        r == beans_doc_spec(bytes@),
        bytes@.len() <= MAX_INPUT_BYTES && encode_utf8_len_ok(decode_outcome(bytes@).0) ==> exists|
            root: Option<XmlElement>,
            tree_diags: Seq<Diagnostic>,
        | #[trigger] tree_of(vstd::utf8::encode_utf8(decode_outcome(bytes@).0), root, tree_diags) && r == accepts_root(root),
{
    if bytes.len() > MAX_INPUT_BYTES {
        return false;
    }
    let (source, _diagnostics, _encoding) = decode(bytes);
    if source.as_str().as_bytes().len() > 0xFFFF_FFFFusize {
        return false;
    }
    let tree = build_tree(source.as_str());
    proof {
        assert(tree_of(vstd::utf8::encode_utf8(source@), tree.root, tree.diagnostics@));
    }
    match &tree.root {
        Some(e) => {
            let ok = is_beans_root(e);
            proof {
                lemma_tag_is_beans(vstd::utf8::encode_utf8(source@), *e, first_tag(vstd::utf8::encode_utf8(source@))->0);
            }
            ok
        },
        None => false,
    }
}

/// The crate version.
pub fn version() -> (r: &'static str)
    ensures
        r@ == "0.1.0"@,
{
    "0.1.0"
}

} // verus!
