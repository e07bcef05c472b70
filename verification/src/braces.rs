//! Matching of `${..}` / `#{..}` expressions: brace nesting, with quoted
//! string literals inside a `#{..}` (SpEL) expression not counting, and
//! every nested opener carrying its own quote rule.
use vstd::prelude::*;
use crate::model::{ByteSpan, DiagCode, Diagnostic};
use crate::text::bytes_of;

verus! {

pub open spec fn is_opener_at(b: Seq<u8>, j: int) -> bool {
    0 <= j && j + 1 < b.len() && (b[j] == 0x24u8 || b[j] == 0x23u8) && b[j + 1] == 0x7Bu8
}

/// The scanning automaton behind [`scan_braced_expr`], from position `j`
/// with the current expression's quote rule `qa`, open brace count
/// `depth`, open quote `quote`, and the saved state of every enclosing
/// expression in `parents`. The result is the position just past the
/// brace closing the outermost expression, or `None` when the bytes end
/// first or nested openers exceed the depth limit.
pub open spec fn brace_scan(
    b: Seq<u8>,
    j: int,
    qa: bool,
    depth: int,
    quote: Option<u8>,
    parents: Seq<(bool, int, Option<u8>)>,
) -> Option<int>
    decreases b.len() - j,
{
    if j < 0 || j >= b.len() {
        None
    } else {
        let c = b[j];
        if quote is Some {
            brace_scan(b, j + 1, qa, depth, if c == quote->0 { None } else { quote }, parents)
        } else if is_opener_at(b, j) {
            if parents.len() >= crate::DEPTH_LIMIT {
                None
            } else {
                brace_scan(b, j + 2, c == 0x23u8, 1, None, parents.push((qa, depth, quote)))
            }
        } else if qa && (c == 0x27u8 || c == 0x22u8) {
            brace_scan(b, j + 1, qa, depth, Some(c), parents)
        } else if c == 0x7Bu8 {
            brace_scan(b, j + 1, qa, depth + 1, quote, parents)
        } else if c == 0x7Du8 {
            if depth - 1 == 0 {
                if parents.len() > 0 {
                    let p = parents.last();
                    brace_scan(b, j + 1, p.0, p.1, p.2, parents.drop_last())
                } else {
                    Some(j + 1)
                }
            } else {
                brace_scan(b, j + 1, qa, depth - 1, quote, parents)
            }
        } else {
            brace_scan(b, j + 1, qa, depth, quote, parents)
        }
    }
}

/// The end of the expression opened at `open_pos`.
pub open spec fn braced_end(b: Seq<u8>, open_pos: int) -> Option<int> {
    brace_scan(b, open_pos + 2, b[open_pos] == 0x23u8, 1, None, Seq::empty())
}

pub proof fn lemma_brace_scan_range(
    b: Seq<u8>,
    j: int,
    qa: bool,
    depth: int,
    quote: Option<u8>,
    parents: Seq<(bool, int, Option<u8>)>,
)
    ensures
        brace_scan(b, j, qa, depth, quote, parents) matches Some(k) ==> j < k <= b.len() && b[k
            - 1] == 0x7Du8,
    decreases b.len() - j,
{
    if 0 <= j < b.len() {
        let c = b[j];
        if quote is Some {
            lemma_brace_scan_range(b, j + 1, qa, depth, if c == quote->0 { None } else { quote }, parents);
        } else if is_opener_at(b, j) {
            if parents.len() < crate::DEPTH_LIMIT {
                lemma_brace_scan_range(b, j + 2, c == 0x23u8, 1, None, parents.push((qa, depth, quote)));
            }
        } else if qa && (c == 0x27u8 || c == 0x22u8) {
            lemma_brace_scan_range(b, j + 1, qa, depth, Some(c), parents);
        } else if c == 0x7Bu8 {
            lemma_brace_scan_range(b, j + 1, qa, depth + 1, quote, parents);
        } else if c == 0x7Du8 {
            if depth - 1 == 0 {
                if parents.len() > 0 {
                    let p = parents.last();
                    lemma_brace_scan_range(b, j + 1, p.0, p.1, p.2, parents.drop_last());
                }
            } else {
                lemma_brace_scan_range(b, j + 1, qa, depth - 1, quote, parents);
            }
        } else {
            lemma_brace_scan_range(b, j + 1, qa, depth, quote, parents);
        }
    }
}

pub proof fn lemma_braced_end_range(b: Seq<u8>, open_pos: int)
    requires
        is_opener_at(b, open_pos),
    ensures
        braced_end(b, open_pos) matches Some(k) ==> open_pos + 2 < k <= b.len() && b[k - 1]
            == 0x7Du8,
{
    lemma_brace_scan_range(b, open_pos + 2, b[open_pos] == 0x23u8, 1, None, Seq::empty());
}

proof fn lemma_brace_scan_extend(
    b: Seq<u8>,
    x: Seq<u8>,
    j: int,
    qa: bool,
    depth: int,
    quote: Option<u8>,
    parents: Seq<(bool, int, Option<u8>)>,
)
    requires
        brace_scan(b, j, qa, depth, quote, parents) is Some,
    ensures
        brace_scan(b + x, j, qa, depth, quote, parents) == brace_scan(b, j, qa, depth, quote, parents),
    decreases b.len() - j,
{
    let bx = b + x;
    if 0 <= j < b.len() {
        let c = b[j];
        assert(bx[j] == c);
        if j + 1 < b.len() {
            assert(bx[j + 1] == b[j + 1]);
        }
        if quote is Some {
            lemma_brace_scan_extend(b, x, j + 1, qa, depth, if c == quote->0 { None } else { quote }, parents);
        } else if is_opener_at(b, j) {
            assert(is_opener_at(bx, j));
            if parents.len() < crate::DEPTH_LIMIT {
                lemma_brace_scan_extend(b, x, j + 2, c == 0x23u8, 1, None, parents.push((qa, depth, quote)));
            }
        } else {
            if is_opener_at(bx, j) {
                // only the last byte of `b` can start an opener that `x` completes;
                // there `b` ends without a closing brace
                assert(j + 1 == b.len());
                assert(brace_scan(b, j + 1, qa, depth, quote, parents) is None);
                assert(false);
            }
            if qa && (c == 0x27u8 || c == 0x22u8) {
                lemma_brace_scan_extend(b, x, j + 1, qa, depth, Some(c), parents);
            } else if c == 0x7Bu8 {
                lemma_brace_scan_extend(b, x, j + 1, qa, depth + 1, quote, parents);
            } else if c == 0x7Du8 {
                if depth - 1 == 0 {
                    if parents.len() > 0 {
                        let p = parents.last();
                        lemma_brace_scan_extend(b, x, j + 1, p.0, p.1, p.2, parents.drop_last());
                    }
                } else {
                    lemma_brace_scan_extend(b, x, j + 1, qa, depth - 1, quote, parents);
                }
            } else {
                lemma_brace_scan_extend(b, x, j + 1, qa, depth, quote, parents);
            }
        }
    }
}

/// An expression that closes within `b` closes at the same place however
/// the bytes go on; one whose bytes after the opener hold no `}` never
/// closes.
pub proof fn law_braced_end_prefix(b: Seq<u8>, x: Seq<u8>, open_pos: int)
    requires
        is_opener_at(b, open_pos),
    ensures
        braced_end(b, open_pos) is Some ==> braced_end(b + x, open_pos) == braced_end(b, open_pos),
        (forall|i: int| open_pos + 2 <= i < b.len() ==> b[i] != 0x7Du8) ==> braced_end(b, open_pos) is None,
{
    lemma_braced_end_range(b, open_pos);
    assert((b + x)[open_pos] == b[open_pos]);
    if braced_end(b, open_pos) is Some {
        lemma_brace_scan_extend(b, x, open_pos + 2, b[open_pos] == 0x23u8, 1, None, Seq::empty());
    }
}

pub open spec fn spec_parents(ps: Seq<(bool, usize, Option<u8>)>) -> Seq<(bool, int, Option<u8>)> {
    ps.map_values(|p: (bool, usize, Option<u8>)| (p.0, p.1 as int, p.2))
}

/// Finds the end of the `${`/`#{` expression whose `$`/`#` is at
/// `open_pos`: the index just past its matching `}`, or `None` when it
/// never closes (or nests deeper than the depth limit).
pub fn scan_braced_expr(bytes: &[u8], open_pos: usize) -> (r: Option<usize>)
    requires
        is_opener_at(bytes@, open_pos as int),
    ensures
        r == (match braced_end(bytes@, open_pos as int) {
            Some(k) => Some(k as usize),
            None => None::<usize>,
        }),
        r matches Some(k) ==> open_pos + 2 < k <= bytes@.len() && bytes@[k - 1] == 0x7Du8,
{
    proof {
        lemma_braced_end_range(bytes@, open_pos as int);
    }
    let mut quote_aware = bytes[open_pos] == 0x23u8;
    let mut depth: usize = 1;
    let mut quote: Option<u8> = None;
    let mut parents: Vec<(bool, usize, Option<u8>)> = Vec::new();
    let mut j = open_pos + 2;
    let ghost b = bytes@;
    assert(spec_parents(parents@) =~= Seq::<(bool, int, Option<u8>)>::empty());
    while j < bytes.len()
        invariant
            b == bytes@,
            open_pos + 2 <= j <= b.len(),
            1 <= depth <= j,
            forall|i: int| 0 <= i < parents@.len() ==> 1 <= #[trigger] parents@[i].1 <= j,
            braced_end(b, open_pos as int) == brace_scan(
                b,
                j as int,
                quote_aware,
                depth as int,
                quote,
                spec_parents(parents@),
            ),
        decreases b.len() - j,
    {
        let c = bytes[j];
        let ghost sp = spec_parents(parents@);
        if let Some(q) = quote {
            if c == q {
                quote = None;
            }
            j += 1;
            continue;
        }
        if (c == 0x24u8 || c == 0x23u8) && j + 1 < bytes.len() && bytes[j + 1] == 0x7Bu8 {
            if parents.len() >= crate::DEPTH_LIMIT as usize {
                return None;
            }
            parents.push((quote_aware, depth, quote));
            proof {
                assert(spec_parents(parents@) =~= sp.push((quote_aware, depth as int, quote)));
            }
            quote_aware = c == 0x23u8;
            depth = 1;
            quote = None;
            j += 2;
            continue;
        }
        if quote_aware && (c == 0x27u8 || c == 0x22u8) {
            quote = Some(c);
        } else if c == 0x7Bu8 {
            depth += 1;
        } else if c == 0x7Du8 {
            if depth == 1 {
                match parents.pop() {
                    Some(p) => {
                        proof {
                            assert(spec_parents(parents@) =~= sp.drop_last());
                        }
                        quote_aware = p.0;
                        depth = p.1;
                        quote = p.2;
                    },
                    None => {
                        return Some(j + 1);
                    },
                }
            } else {
                depth -= 1;
            }
        }
        j += 1;
    }
    None
}

/// The position of the first `${`/`#{` opener (scanning from `i`, and
/// skipping each closed expression whole) that never closes.
pub open spec fn first_unterminated(b: Seq<u8>, i: int) -> Option<int>
    decreases b.len() - i,
{
    if i < 0 || i + 1 >= b.len() {
        None
    } else if is_opener_at(b, i) {
        let e = braced_end(b, i);
        if e is None {
            Some(i)
        } else if i < e->0 <= b.len() {
            first_unterminated(b, e->0)
        } else {
            None
        }
    } else {
        first_unterminated(b, i + 1)
    }
}

/// `new` is `old` plus the report for the first unterminated placeholder
/// in the text `bytes` spanning `span`, if there is one.
pub open spec fn unterminated_reported(
    old: Seq<Diagnostic>,
    new: Seq<Diagnostic>,
    bytes: Seq<u8>,
    span: ByteSpan,
) -> bool {
    match first_unterminated(bytes, 0) {
        None => new == old,
        Some(p) => {
            &&& new.len() == old.len() + 1
            &&& new.drop_last() == old
            &&& new.last().code == DiagCode::UnterminatedPlaceholder
            &&& new.last().span == Some(ByteSpan { start: (span.start + p) as u32, end: span.end })
            &&& new.last().message@ == "'"@ + (if bytes[p] == 0x24u8 {
                "${"@
            } else {
                "#{"@
            }) + "' placeholder is missing its closing '}'; kept as literal text"@
        },
    }
}

/// Reports the first `${`/`#{` in `text` (whose span is `span`) that never
/// closes: one `UnterminatedPlaceholder` from that opener to the end of the
/// run. The text itself is kept as it is.
pub fn check_unterminated_placeholders(text: &str, span: ByteSpan, diagnostics: &mut Vec<Diagnostic>)
    requires
        span.start + bytes_of(text).len() <= u32::MAX,
    ensures
        unterminated_reported(old(diagnostics)@, final(diagnostics)@, bytes_of(text), span),
{
    let bytes = text.as_bytes();
    let ghost b = bytes@;
    let mut i: usize = 0;
    while bytes.len() > 0 && i < bytes.len() - 1
        invariant
            b == bytes@,
            b == bytes_of(text),
            i <= b.len(),
            span.start + b.len() <= u32::MAX,
            first_unterminated(b, 0) == first_unterminated(b, i as int),
            diagnostics@ == old(diagnostics)@,
        decreases b.len() - i,
    {
        if (bytes[i] == 0x24u8 || bytes[i] == 0x23u8) && bytes[i + 1] == 0x7Bu8 {
            match scan_braced_expr(bytes, i) {
                Some(next) => {
                    proof {
                        lemma_braced_end_range(b, i as int);
                        assert(first_unterminated(b, i as int) == first_unterminated(b, next as int));
                    }
                    i = next;
                    continue;
                },
                None => {
                    let mut m = "'".to_owned();
                    if bytes[i] == 0x24u8 {
                        m.append("${");
                    } else {
                        m.append("#{");
                    }
                    m.append("' placeholder is missing its closing '}'; kept as literal text");
                    diagnostics.push(
                        Diagnostic {
                            code: DiagCode::UnterminatedPlaceholder,
                            span: Some(ByteSpan { start: span.start + i as u32, end: span.end }),
                            message: m,
                        },
                    );
                    proof {
                        assert(diagnostics@.drop_last() =~= old(diagnostics)@);
                    }
                    return ;
                },
            }
        }
        i += 1;
    }
}

} // verus!
