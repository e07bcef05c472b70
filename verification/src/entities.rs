//! Recovery rule 5: entity references that do not resolve are reported and
//! kept as raw text.
use vstd::prelude::*;
use vstd::utf8::valid_utf8;
use crate::model::{ByteSpan, DiagCode, Diagnostic};
use crate::text::{bytes_of, byte_is_ws, is_ws, lemma_after_ascii_is_boundary, lemma_ascii_is_boundary, lemma_str_valid, slice_text, text_of, sliceable};
use crate::tokenizer::{unescape_fails, xml_unescape_fails};

verus! {

/// How far past a `&` the scan for its `;` goes before the `&` counts as
/// dangling.
pub const MAX_ENTITY_SCAN: usize = 64;

/// The `;` ending the reference whose `&` is at `i`, looking from `j`: none
/// when the scan window ends, or when a `&`, `<` or whitespace comes first.
pub open spec fn semi_scan(b: Seq<u8>, i: int, j: int) -> Option<int>
    decreases b.len() - j,
{
    if j < 0 || j >= b.len() || j - i > MAX_ENTITY_SCAN {
        None
    } else if b[j] == 0x3Bu8 {
        Some(j)
    } else if b[j] == 0x26u8 || b[j] == 0x3Cu8 || is_ws(b[j]) {
        None
    } else {
        semi_scan(b, i, j + 1)
    }
}

pub proof fn lemma_semi_scan(b: Seq<u8>, i: int, j: int)
    requires
        0 <= i < j,
    ensures
        semi_scan(b, i, j) matches Some(s) ==> j <= s < b.len() && b[s] == 0x3Bu8,
    decreases b.len() - j,
{
    if 0 <= j < b.len() && j - i <= MAX_ENTITY_SCAN && b[j] != 0x3Bu8 && !(b[j] == 0x26u8
        || b[j] == 0x3Cu8 || is_ws(b[j])) {
        lemma_semi_scan(b, i, j + 1);
    }
}

/// The spans (relative to the text) of every reference reported from
/// position `i` on: a terminated reference that does not unescape covers
/// `&..;`, a dangling `&` covers just itself.
pub open spec fn entity_findings(b: Seq<u8>, i: int) -> Seq<(int, int)>
    decreases b.len() - i,
{
    if i < 0 || i >= b.len() {
        Seq::empty()
    } else if b[i] != 0x26u8 {
        entity_findings(b, i + 1)
    } else {
        let s = semi_scan(b, i, i + 1);
        if s is Some && i < s->0 < b.len() {
            (if xml_unescape_fails(text_of(b, i, s->0 + 1)) {
                seq![(i, s->0 + 1)]
            } else {
                Seq::empty()
            }) + entity_findings(b, s->0 + 1)
        } else {
            seq![(i, i + 1)] + entity_findings(b, i + 1)
        }
    }
}

/// The report of the finding `f` in `b`: a dangling `&`, or a reference
/// that does not resolve (quoted).
pub open spec fn entity_msg(b: Seq<u8>, f: (int, int)) -> Seq<char> {
    if f.1 == f.0 + 1 {
        "dangling '&' without a terminating ';' is not a well-formed entity reference; kept as literal text"@
    } else {
        "unresolvable entity reference '"@ + text_of(b, f.0, f.1) + "'; kept as literal text"@
    }
}

/// The `InvalidEntity` diagnostics for `findings` in `b`, offset by `base`.
pub open spec fn entity_diags_match(diags: Seq<Diagnostic>, findings: Seq<(int, int)>, b: Seq<u8>, base: int) -> bool {
    &&& diags.len() == findings.len()
    &&& forall|k: int|
        0 <= k < diags.len() ==> {
            &&& (#[trigger] diags[k]).code == DiagCode::InvalidEntity
            &&& diags[k].span == Some(
                ByteSpan {
                    start: (base + findings[k].0) as u32,
                    end: (base + findings[k].1) as u32,
                },
            )
            &&& diags[k].message@ == entity_msg(b, findings[k])
        }
}

proof fn lemma_findings_step(
    found: Seq<(int, int)>,
    before: Seq<Diagnostic>,
    after: Seq<Diagnostic>,
    n0: int,
    rest: Seq<(int, int)>,
    next: Seq<(int, int)>,
    b: Seq<u8>,
    base: int,
    pushed: bool,
)
    requires
        0 <= n0 <= before.len(),
        before.len() - n0 <= found.len(),
        found.subrange(before.len() - n0, found.len() as int) == rest,
        entity_diags_match(before.subrange(n0, before.len() as int), found.subrange(0, before.len() - n0), b, base),
        pushed ==> {
            &&& rest.len() > 0
            &&& rest.drop_first() == next
            &&& after.len() == before.len() + 1
            &&& after.drop_last() == before
            &&& after.last().code == DiagCode::InvalidEntity
            &&& after.last().span == Some(
                ByteSpan { start: (base + rest[0].0) as u32, end: (base + rest[0].1) as u32 },
            )
            &&& after.last().message@ == entity_msg(b, rest[0])
        },
        !pushed ==> rest == next && after == before,
    ensures
        after.len() >= n0,
        after.subrange(0, n0) == before.subrange(0, n0),
        after.len() - n0 <= found.len(),
        found.subrange(after.len() - n0, found.len() as int) == next,
        entity_diags_match(after.subrange(n0, after.len() as int), found.subrange(0, after.len() - n0), b, base),
{
    if pushed {
        let c = before.len() - n0;
        assert(found[c] == rest[0]);
        assert(found.subrange(c + 1, found.len() as int) =~= rest.drop_first());
        let nd = after.subrange(n0, after.len() as int);
        let pd = before.subrange(n0, before.len() as int);
        assert(nd =~= pd.push(after.last()));
        assert(after.subrange(0, n0) =~= before.subrange(0, n0));
        let f1 = found.subrange(0, c + 1);
        let f0 = found.subrange(0, c);
        assert forall|k: int| 0 <= k < nd.len() implies {
            &&& (#[trigger] nd[k]).code == DiagCode::InvalidEntity
            &&& nd[k].span == Some(
                ByteSpan { start: (base + f1[k].0) as u32, end: (base + f1[k].1) as u32 },
            )
            &&& nd[k].message@ == entity_msg(b, f1[k])
        } by {
            if k < c {
                assert(nd[k] == pd[k]);
                assert(f1[k] == f0[k]);
            }
        }
    }
}

/// Reports every `&...;` in `text` (whose span starts at `span.start`) that
/// does not resolve, and every `&` with no `;` within reach, as
/// `InvalidEntity`. The text is never rewritten.
pub fn check_entities(text: &str, span: ByteSpan, diagnostics: &mut Vec<Diagnostic>)
    requires
        span.start + bytes_of(text).len() <= u32::MAX,
    ensures
        final(diagnostics)@.len() >= old(diagnostics)@.len(),
        final(diagnostics)@.subrange(0, old(diagnostics)@.len() as int) == old(diagnostics)@,
        entity_diags_match(
            final(diagnostics)@.subrange(old(diagnostics)@.len() as int, final(diagnostics)@.len() as int),
            entity_findings(bytes_of(text), 0),
            bytes_of(text),
            span.start as int,
        ),
{
    let bytes = text.as_bytes();
    let ghost b = bytes@;
    let ghost old_diags = diagnostics@;
    let ghost n0 = old_diags.len() as int;
    proof {
        lemma_str_valid(text);
        assert(diagnostics@.subrange(0, n0) =~= old_diags);
        assert(diagnostics@.subrange(n0, diagnostics@.len() as int) =~= Seq::<Diagnostic>::empty());
    }
    let mut i: usize = 0;
    while i < bytes.len()
        invariant
            b == bytes@,
            b == bytes_of(text),
            valid_utf8(b),
            i <= b.len(),
            span.start + b.len() <= u32::MAX,
            diagnostics@.len() >= n0,
            diagnostics@.subrange(0, n0) == old_diags,
            n0 == old_diags.len(),
            entity_diags_match(
                diagnostics@.subrange(n0, diagnostics@.len() as int),
                entity_findings(b, 0).subrange(0, diagnostics@.len() - n0),
                b,
                span.start as int,
            ),
            diagnostics@.len() - n0 <= entity_findings(b, 0).len(),
            entity_findings(b, 0).subrange(diagnostics@.len() - n0, entity_findings(b, 0).len() as int) == entity_findings(b, i as int),
        decreases b.len() - i,
    {
        if bytes[i] != 0x26u8 {
            i += 1;
            continue;
        }
        let ref_start = i;
        let mut j = i + 1;
        let mut semi: Option<usize> = None;
        while j < bytes.len() && j - i <= MAX_ENTITY_SCAN
            invariant_except_break
                semi is None,
                semi_scan(b, i as int, i as int + 1) == semi_scan(b, i as int, j as int),
            invariant
                b == bytes@,
                i < j <= b.len(),
            ensures
                semi is None ==> semi_scan(b, i as int, i as int + 1) is None,
                semi matches Some(s) ==> semi_scan(b, i as int, i as int + 1) == Some(s as int),
            decreases b.len() - j,
        {
            let c = bytes[j];
            if c == 0x3Bu8 {
                semi = Some(j);
                break;
            }
            if c == 0x26u8 || c == 0x3Cu8 || byte_is_ws(c) {
                break;
            }
            j += 1;
        }
        proof {
            lemma_semi_scan(b, i as int, i as int + 1);
        }
        let ghost found = entity_findings(b, 0);
        let ghost before = diagnostics@;
        let ghost rest = entity_findings(b, i as int);
        match semi {
            Some(s) => {
                proof {
                    assert(semi_scan(b, i as int, i as int + 1) == Some(s as int));
                    lemma_ascii_is_boundary(b, i as int);
                    lemma_after_ascii_is_boundary(b, s as int);
                    assert(sliceable(b, i as int, s as int + 1));
                }
                let raw = slice_text(text, ref_start, s + 1).unwrap();
                if unescape_fails(raw.as_str()) {
                    let mut m = "unresolvable entity reference '".to_owned();
                    m.append(raw.as_str());
                    m.append("'; kept as literal text");
                    diagnostics.push(
                        Diagnostic {
                            code: DiagCode::InvalidEntity,
                            span: Some(
                                ByteSpan {
                                    start: span.start + ref_start as u32,
                                    end: span.start + s as u32 + 1,
                                },
                            ),
                            message: m,
                        },
                    );
                }
                proof {
                    let next = entity_findings(b, s + 1);
                    if xml_unescape_fails(text_of(b, i as int, s + 1)) {
                        assert(rest =~= seq![(i as int, s + 1)] + next);
                        assert(rest.drop_first() =~= next);
                        assert(diagnostics@.drop_last() =~= before);
                        lemma_findings_step(found, before, diagnostics@, n0, rest, next, b, span.start as int, true);
                    } else {
                        assert(rest =~= next);
                        lemma_findings_step(found, before, diagnostics@, n0, rest, next, b, span.start as int, false);
                    }
                }
                i = s + 1;
            },
            None => {
                diagnostics.push(
                    Diagnostic {
                        code: DiagCode::InvalidEntity,
                        span: Some(
                            ByteSpan {
                                start: span.start + ref_start as u32,
                                end: span.start + ref_start as u32 + 1,
                            },
                        ),
                        message: "dangling '&' without a terminating ';' is not a well-formed entity reference; kept as literal text".to_owned(),
                    },
                );
                proof {
                    let next = entity_findings(b, i + 1);
                    assert(rest =~= seq![(i as int, i + 1)] + next);
                    assert(rest.drop_first() =~= next);
                    assert(diagnostics@.drop_last() =~= before);
                    lemma_findings_step(found, before, diagnostics@, n0, rest, next, b, span.start as int, true);
                }
                i = ref_start + 1;
            },
        }
    }
    proof {
        assert(entity_findings(b, i as int) =~= Seq::<(int, int)>::empty());
        let found = entity_findings(b, 0);
        assert(found.subrange(0, diagnostics@.len() - n0) =~= found);
    }
}

} // verus!
