//! The generic XML tree the rest of the parser walks, and the recovery
//! rules applied while building it from the tokenizer's events:
//! an unclosed tag is closed implicitly (`UnclosedTag`), an orphan closing
//! tag is ignored (`UnexpectedCloseTag`), a duplicate attribute keeps its
//! first value (`DuplicateAttribute`), markup the tokenizer cannot read is
//! skipped up to the next `<`, an unresolvable entity is kept raw
//! (`InvalidEntity`), and an unterminated `${`/`#{` is kept raw
//! (`UnterminatedPlaceholder`).
use vstd::prelude::*;
use crate::model::{ByteSpan, DiagCode, Diagnostic, Spanned};
use crate::text::{bytes_of, grounded_text, lemma_str_valid, slice_text, sliceable, span_sliceable, str_eq, text_of};
use crate::attrs::{attr_tokens, attrs_are_toks, attrs_begin, scan_attrs_for_tag, tag_attrs, toks_reported};
use crate::braces::{check_unterminated_placeholders, unterminated_reported};
use crate::entities::{check_entities, entity_diags_match, entity_findings};
use crate::tokenizer::{next_event, open_reader, reader_error_position, reader_position, xml_error_position, xml_event, xml_position, EventView, RawEvent};
use vstd::utf8::is_char_boundary;

verus! {

/// One raw attribute: name and value are the exact source text.
#[derive(Debug, Clone, PartialEq)]
pub struct XmlAttr {
    pub name: String,
    pub name_span: ByteSpan,
    pub value: Spanned<String>,
}

/// A generic element node: qualified name as written, extent, attributes
/// in source order (duplicates removed), children in source order.
#[derive(Debug, PartialEq)]
pub struct XmlElement {
    pub name: String,
    pub span: ByteSpan,
    pub attrs: Vec<XmlAttr>,
    pub children: Vec<XmlNode>,
}

#[derive(Debug, PartialEq)]
pub enum XmlNode {
    Element(XmlElement),
    /// Raw text or CDATA content: the exact source text of its span.
    Text(Spanned<String>),
}

/// The document's first top-level element, and every diagnostic found.
#[derive(Debug)]
pub struct TreeResult {
    pub root: Option<XmlElement>,
    pub diagnostics: Vec<Diagnostic>,
}

/// An element still open while its children are collected.
pub struct OpenTag {
    pub name: String,
    pub start: u32,
    pub attrs: Vec<XmlAttr>,
    pub children: Vec<XmlNode>,
}

// ---------------------------------------------------------------------
// Grounding: every text value equals the source text at its span.
// ---------------------------------------------------------------------

pub open spec fn attr_grounded(src: Seq<u8>, a: XmlAttr) -> bool {
    &&& grounded_text(src, Spanned { value: a.name, span: a.name_span })
    &&& grounded_text(src, a.value)
}

pub open spec fn attrs_grounded(src: Seq<u8>, attrs: Seq<XmlAttr>) -> bool {
    forall|i: int| 0 <= i < attrs.len() ==> #[trigger] attr_grounded(src, attrs[i])
}

pub open spec fn node_grounded(src: Seq<u8>, n: XmlNode) -> bool
    decreases n,
{
    match n {
        XmlNode::Text(t) => grounded_text(src, t),
        XmlNode::Element(e) => {
            &&& e.span.start <= e.span.end <= src.len()
            &&& attrs_grounded(src, e.attrs@)
            &&& forall|i: int|
                0 <= i < e.children@.len() ==> node_grounded(src, #[trigger] e.children@[i])
        },
    }
}

pub open spec fn nodes_grounded(src: Seq<u8>, nodes: Seq<XmlNode>) -> bool {
    forall|i: int| 0 <= i < nodes.len() ==> #[trigger] node_grounded(src, nodes[i])
}

/// An element whose extent lies in `src` and whose attribute and text
/// values, at any depth, are the source text at their spans.
pub open spec fn element_grounded(src: Seq<u8>, e: XmlElement) -> bool {
    &&& e.span.start <= e.span.end <= src.len()
    &&& attrs_grounded(src, e.attrs@)
    &&& nodes_grounded(src, e.children@)
}

pub proof fn lemma_element_node_grounded(src: Seq<u8>, e: XmlElement)
    ensures
        element_grounded(src, e) <==> node_grounded(src, XmlNode::Element(e)),
{
    let n = XmlNode::Element(e);
    if node_grounded(src, n) {
        assert forall|i: int| 0 <= i < e.children@.len() implies #[trigger] node_grounded(
            src,
            e.children@[i],
        ) by {
        }
    }
    if element_grounded(src, e) {
        assert forall|i: int| 0 <= i < e.children@.len() implies node_grounded(
            src,
            #[trigger] e.children@[i],
        ) by {
            assert(node_grounded(src, e.children@[i]));
        }
        assert(node_grounded(src, n));
    }
}

pub open spec fn open_tag_grounded(src: Seq<u8>, t: OpenTag) -> bool {
    &&& t.start <= src.len()
    &&& attrs_grounded(src, t.attrs@)
    &&& nodes_grounded(src, t.children@)
}

pub open spec fn stack_grounded(src: Seq<u8>, stack: Seq<OpenTag>) -> bool {
    forall|i: int| 0 <= i < stack.len() ==> #[trigger] open_tag_grounded(src, stack[i])
}

pub open spec fn root_grounded(src: Seq<u8>, root: Option<XmlElement>) -> bool {
    root matches Some(e) ==> element_grounded(src, e)
}

/// Where a completed element goes: into the innermost open element, or,
/// with nothing open, into the root slot if that is still empty.
pub open spec fn attached(
    old_stack: Seq<OpenTag>,
    old_root: Option<XmlElement>,
    e: XmlElement,
    new_stack: Seq<OpenTag>,
    new_root: Option<XmlElement>,
) -> bool {
    if old_stack.len() > 0 {
        let k = old_stack.len() - 1;
        &&& new_root == old_root
        &&& new_stack.len() == old_stack.len()
        &&& forall|i: int| 0 <= i < k ==> new_stack[i] == old_stack[i]
        &&& new_stack[k].name == old_stack[k].name
        &&& new_stack[k].start == old_stack[k].start
        &&& new_stack[k].attrs == old_stack[k].attrs
        &&& new_stack[k].children@ == old_stack[k].children@.push(XmlNode::Element(e))
    } else {
        &&& new_stack == old_stack
        &&& new_root == (if old_root is None { Some(e) } else { old_root })
    }
}

/// Attaches a completed element to the innermost open element, or makes it
/// the root when nothing is open and no root was found yet (later
/// top-level content is dropped).
pub fn push_completed(element: XmlElement, stack: &mut Vec<OpenTag>, root: &mut Option<XmlElement>)
    ensures
        attached(old(stack)@, *old(root), element, final(stack)@, *final(root)),
{
    let ghost e = element;
    match stack.pop() {
        Some(mut parent) => {
            parent.children.push(XmlNode::Element(element));
            stack.push(parent);
            proof {
                assert(final(stack)@.len() == old(stack)@.len());
            }
        },
        None => {
            if root.is_none() {
                *root = Some(element);
            }
        },
    }
}

pub proof fn lemma_attached_grounded(
    src: Seq<u8>,
    old_stack: Seq<OpenTag>,
    old_root: Option<XmlElement>,
    e: XmlElement,
    new_stack: Seq<OpenTag>,
    new_root: Option<XmlElement>,
)
    requires
        stack_grounded(src, old_stack),
        root_grounded(src, old_root),
        element_grounded(src, e),
        attached(old_stack, old_root, e, new_stack, new_root),
    ensures
        stack_grounded(src, new_stack),
        root_grounded(src, new_root),
{
    if old_stack.len() > 0 {
        let k = old_stack.len() - 1;
        assert(open_tag_grounded(src, old_stack[k]));
        lemma_element_node_grounded(src, e);
        let ch = new_stack[k].children@;
        assert forall|j: int| 0 <= j < ch.len() implies #[trigger] node_grounded(src, ch[j]) by {
            if j < old_stack[k].children@.len() {
                assert(ch[j] == old_stack[k].children@[j]);
            }
        }
        assert forall|i: int| 0 <= i < new_stack.len() implies #[trigger] open_tag_grounded(
            src,
            new_stack[i],
        ) by {
            if i < k {
                assert(new_stack[i] == old_stack[i]);
            }
        }
    }
}

/// Attaches a text run to the innermost open element; text outside every
/// element is dropped.
pub fn push_text(text: String, span: ByteSpan, stack: &mut Vec<OpenTag>)
    ensures
        old(stack)@.len() == 0 ==> final(stack)@ == old(stack)@,
        old(stack)@.len() > 0 ==> {
            let k = old(stack)@.len() - 1;
            &&& final(stack)@.len() == old(stack)@.len()
            &&& forall|i: int| 0 <= i < k ==> final(stack)@[i] == old(stack)@[i]
            &&& final(stack)@[k].name == old(stack)@[k].name
            &&& final(stack)@[k].start == old(stack)@[k].start
            &&& final(stack)@[k].attrs == old(stack)@[k].attrs
            &&& final(stack)@[k].children@ == old(stack)@[k].children@.push(
                XmlNode::Text(Spanned { value: text, span }),
            )
        },
{
    match stack.pop() {
        Some(mut parent) => {
            parent.children.push(XmlNode::Text(Spanned { value: text, span }));
            stack.push(parent);
        },
        None => {},
    }
}

} // verus!

verus! {

// ---------------------------------------------------------------------
// Recovery rules 1 and 2: implicit closing, orphan closing tags.
// ---------------------------------------------------------------------

/// Index of the innermost open tag named `name`, or -1 when none is open.
pub open spec fn innermost_open(stack: Seq<OpenTag>, name: Seq<char>) -> int
    decreases stack.len(),
{
    if stack.len() == 0 {
        -1
    } else if stack.last().name@ == name {
        stack.len() - 1
    } else {
        innermost_open(stack.drop_last(), name)
    }
}

pub proof fn lemma_innermost_open_bounds(stack: Seq<OpenTag>, name: Seq<char>)
    ensures
        -1 <= innermost_open(stack, name) < stack.len(),
        innermost_open(stack, name) >= 0 ==> stack[innermost_open(stack, name)].name@ == name,
        forall|j: int|
            innermost_open(stack, name) < j < stack.len() ==> #[trigger] stack[j].name@ != name,
    decreases stack.len(),
{
    if stack.len() > 0 && stack.last().name@ != name {
        lemma_innermost_open_bounds(stack.drop_last(), name);
        assert forall|j: int|
            innermost_open(stack, name) < j < stack.len() implies #[trigger] stack[j].name@
            != name by {
            if j < stack.len() - 1 {
                assert(stack.drop_last()[j] == stack[j]);
            }
        }
    }
}

/// `n` is what `stack[k]` becomes when it and every tag above it are closed:
/// each tag above is closed at `inner_end` and nested as the last child of
/// the tag below it, and `stack[k]` itself is closed at `end`.
pub open spec fn closes_chain(n: XmlNode, stack: Seq<OpenTag>, k: int, end: u32, inner_end: u32) -> bool
    decreases stack.len() - k,
{
    if 0 <= k < stack.len() {
        match n {
            XmlNode::Element(e) => {
                &&& e.name == stack[k].name
                &&& e.span == (ByteSpan { start: stack[k].start, end })
                &&& e.attrs == stack[k].attrs
                &&& if k + 1 < stack.len() {
                    &&& e.children@.len() == stack[k].children@.len() + 1
                    &&& e.children@.drop_last() == stack[k].children@
                    &&& closes_chain(e.children@.last(), stack, k + 1, inner_end, inner_end)
                } else {
                    e.children@ == stack[k].children@
                }
            },
            XmlNode::Text(_) => false,
        }
    } else {
        false
    }
}

/// The diagnostics of closing `stack[k..]` implicitly at `end`, innermost
/// first.
pub open spec fn unclosed_diags_at(diags: Seq<Diagnostic>, stack: Seq<OpenTag>, k: int, end: u32, at_eof: bool) -> bool {
    &&& diags.len() == stack.len() - k
    &&& forall|j: int|
        0 <= j < diags.len() ==> {
            &&& (#[trigger] diags[j]).code == DiagCode::UnclosedTag
            &&& diags[j].span == Some(ByteSpan { start: stack[stack.len() - 1 - j].start, end })
            &&& diags[j].message@ == unclosed_text(stack[stack.len() - 1 - j].name@, at_eof)
        }
}

pub open spec fn starts_before(stack: Seq<OpenTag>, pos: u32) -> bool {
    forall|i: int| 0 <= i < stack.len() ==> #[trigger] stack[i].start <= pos
}

pub proof fn lemma_chain_grounded(
    src: Seq<u8>,
    n: XmlNode,
    stack: Seq<OpenTag>,
    k: int,
    end: u32,
    inner_end: u32,
)
    requires
        closes_chain(n, stack, k, end, inner_end),
        stack_grounded(src, stack),
        starts_before(stack, inner_end),
        inner_end <= end <= src.len(),
    ensures
        node_grounded(src, n),
    decreases stack.len() - k,
{
    let e = n->Element_0;
    assert(open_tag_grounded(src, stack[k]));
    if k + 1 < stack.len() {
        lemma_chain_grounded(src, e.children@.last(), stack, k + 1, inner_end, inner_end);
        assert forall|i: int| 0 <= i < e.children@.len() implies #[trigger] node_grounded(
            src,
            e.children@[i],
        ) by {
            if i < e.children@.len() - 1 {
                assert(e.children@[i] == e.children@.drop_last()[i]);
            }
        }
    }
    lemma_element_node_grounded(src, e);
}

// ---------------------------------------------------------------------
// Nesting: every child lies inside its parent's span.
// ---------------------------------------------------------------------

pub open spec fn node_start(n: XmlNode) -> int {
    match n {
        XmlNode::Text(t) => t.span.start as int,
        XmlNode::Element(e) => e.span.start as int,
    }
}

pub open spec fn node_end(n: XmlNode) -> int {
    match n {
        XmlNode::Text(t) => t.span.end as int,
        XmlNode::Element(e) => e.span.end as int,
    }
}

/// Every span of `n` is ordered, and every child, at any depth, lies
/// inside its parent's span.
pub open spec fn node_nested(n: XmlNode) -> bool
    decreases n,
{
    match n {
        XmlNode::Text(t) => t.span.start <= t.span.end,
        XmlNode::Element(e) => {
            &&& e.span.start <= e.span.end
            &&& forall|i: int|
                0 <= i < e.children@.len() ==> {
                    &&& e.span.start <= node_start(#[trigger] e.children@[i])
                    &&& node_end(e.children@[i]) <= e.span.end
                    &&& node_nested(e.children@[i])
                }
        },
    }
}

pub open spec fn root_nested(root: Option<XmlElement>) -> bool {
    root matches Some(e) ==> node_nested(XmlNode::Element(e))
}

/// The children of the open tag `o` lie between its start and `pos`.
pub open spec fn open_nested(o: OpenTag, pos: int) -> bool {
    forall|i: int|
        0 <= i < o.children@.len() ==> {
            &&& o.start <= node_start(#[trigger] o.children@[i])
            &&& node_end(o.children@[i]) <= pos
            &&& node_nested(o.children@[i])
        }
}

/// Every open tag's children lie between its start and `pos`, and the open
/// tags start in order.
pub open spec fn stack_nested(stack: Seq<OpenTag>, pos: int) -> bool {
    &&& forall|i: int| 0 <= i < stack.len() ==> #[trigger] open_nested(stack[i], pos)
    &&& forall|i: int, j: int| 0 <= i <= j < stack.len() ==> #[trigger] stack[i].start <= #[trigger] stack[j].start
}

proof fn lemma_nested_later(stack: Seq<OpenTag>, pos: int, later: int)
    requires
        stack_nested(stack, pos),
        pos <= later,
    ensures
        stack_nested(stack, later),
{
    assert forall|i: int| 0 <= i < stack.len() implies #[trigger] open_nested(stack[i], later) by {
        assert(open_nested(stack[i], pos));
    }
}

proof fn lemma_chain_nested(n: XmlNode, stack: Seq<OpenTag>, k: int, end: u32, inner_end: u32)
    requires
        closes_chain(n, stack, k, end, inner_end),
        stack_nested(stack, inner_end as int),
        starts_before(stack, inner_end),
        inner_end <= end,
    ensures
        node_nested(n),
        node_start(n) == stack[k].start,
        node_end(n) == end,
    decreases stack.len() - k,
{
    let e = n->Element_0;
    assert(open_nested(stack[k], inner_end as int));
    assert(stack[k].start <= inner_end);
    if k + 1 < stack.len() {
        let last = e.children@.last();
        lemma_chain_nested(last, stack, k + 1, inner_end, inner_end);
        assert(stack[k].start <= stack[k + 1].start);
        assert forall|i: int| 0 <= i < e.children@.len() implies {
            &&& e.span.start <= node_start(#[trigger] e.children@[i])
            &&& node_end(e.children@[i]) <= e.span.end
            &&& node_nested(e.children@[i])
        } by {
            if i < e.children@.len() - 1 {
                assert(e.children@[i] == e.children@.drop_last()[i]);
                assert(e.children@[i] == stack[k].children@[i]);
            } else {
                assert(e.children@[i] == last);
            }
        }
    } else {
        assert forall|i: int| 0 <= i < e.children@.len() implies {
            &&& e.span.start <= node_start(#[trigger] e.children@[i])
            &&& node_end(e.children@[i]) <= e.span.end
            &&& node_nested(e.children@[i])
        } by {
            assert(e.children@[i] == stack[k].children@[i]);
        }
    }
}

proof fn lemma_attached_nested(
    old_stack: Seq<OpenTag>,
    old_root: Option<XmlElement>,
    e: XmlElement,
    new_stack: Seq<OpenTag>,
    new_root: Option<XmlElement>,
    pos: int,
)
    requires
        stack_nested(old_stack, pos),
        root_nested(old_root),
        node_nested(XmlNode::Element(e)),
        e.span.end <= pos,
        old_stack.len() > 0 ==> old_stack.last().start <= e.span.start,
        attached(old_stack, old_root, e, new_stack, new_root),
    ensures
        stack_nested(new_stack, pos),
        root_nested(new_root),
{
    if old_stack.len() > 0 {
        let k = old_stack.len() - 1;
        assert(open_nested(old_stack[k], pos));
        let ch = new_stack[k].children@;
        assert(open_nested(new_stack[k], pos)) by {
            assert forall|j: int| 0 <= j < ch.len() implies {
                &&& new_stack[k].start <= node_start(#[trigger] ch[j])
                &&& node_end(ch[j]) <= pos
                &&& node_nested(ch[j])
            } by {
                if j < old_stack[k].children@.len() {
                    assert(ch[j] == old_stack[k].children@[j]);
                }
            }
        }
        assert forall|i: int| 0 <= i < new_stack.len() implies #[trigger] open_nested(new_stack[i], pos) by {
            if i < k {
                assert(new_stack[i] == old_stack[i]);
            }
        }
        assert forall|i: int, j: int| 0 <= i <= j < new_stack.len() implies #[trigger] new_stack[i].start
            <= #[trigger] new_stack[j].start by {
            assert(old_stack[i].start <= old_stack[j].start);
            if i < k {
                assert(new_stack[i] == old_stack[i]);
            }
            if j < k {
                assert(new_stack[j] == old_stack[j]);
            }
        }
    }
}

proof fn lemma_text_nested(old_stack: Seq<OpenTag>, new_stack: Seq<OpenTag>, v: Seq<char>, span: ByteSpan, pos: int)
    requires
        stack_nested(old_stack, pos),
        span.start <= span.end <= pos,
        old_stack.len() > 0 ==> old_stack.last().start <= span.start,
        text_attached(old_stack, new_stack, v, span),
    ensures
        stack_nested(new_stack, pos),
{
    if old_stack.len() > 0 {
        let k = old_stack.len() - 1;
        assert(open_nested(old_stack[k], pos));
        let ch = new_stack[k].children@;
        assert(open_nested(new_stack[k], pos)) by {
            assert forall|j: int| 0 <= j < ch.len() implies {
                &&& new_stack[k].start <= node_start(#[trigger] ch[j])
                &&& node_end(ch[j]) <= pos
                &&& node_nested(ch[j])
            } by {
                if j < old_stack[k].children@.len() {
                    assert(ch[j] == ch.drop_last()[j]);
                    assert(ch[j] == old_stack[k].children@[j]);
                } else {
                    assert(ch[j] == ch.last());
                }
            }
        }
        assert forall|i: int| 0 <= i < new_stack.len() implies #[trigger] open_nested(new_stack[i], pos) by {
            if i < k {
                assert(new_stack[i] == old_stack[i]);
            }
        }
        assert forall|i: int, j: int| 0 <= i <= j < new_stack.len() implies #[trigger] new_stack[i].start
            <= #[trigger] new_stack[j].start by {
            assert(old_stack[i].start <= old_stack[j].start);
            if i < k {
                assert(new_stack[i] == old_stack[i]);
            }
            if j < k {
                assert(new_stack[j] == old_stack[j]);
            }
        }
    }
}

// ---------------------------------------------------------------------
// Depth: the tree never nests deeper than `MAX_TREE_DEPTH` elements.
// ---------------------------------------------------------------------

/// `n` fits in `k` levels of elements (text takes none).
pub open spec fn within_depth(n: XmlNode, k: int) -> bool
    decreases n,
{
    match n {
        XmlNode::Text(_) => true,
        XmlNode::Element(e) => k >= 1 && forall|i: int|
            0 <= i < e.children@.len() ==> within_depth(#[trigger] e.children@[i], k - 1),
    }
}

pub open spec fn root_within(root: Option<XmlElement>, k: int) -> bool {
    root matches Some(e) ==> within_depth(XmlNode::Element(e), k)
}

/// At most `MAX_TREE_DEPTH` tags are open, and the children of the tag at
/// index `i` fit in the levels below it.
pub open spec fn stack_within(stack: Seq<OpenTag>) -> bool {
    &&& stack.len() <= MAX_TREE_DEPTH
    &&& forall|i: int, j: int|
        0 <= i < stack.len() && 0 <= j < stack[i].children@.len() ==> within_depth(
            #[trigger] stack[i].children@[j],
            MAX_TREE_DEPTH - i - 1,
        )
}

proof fn lemma_chain_within(n: XmlNode, stack: Seq<OpenTag>, k: int, end: u32, inner_end: u32)
    requires
        0 <= k,
        closes_chain(n, stack, k, end, inner_end),
        stack_within(stack),
    ensures
        within_depth(n, MAX_TREE_DEPTH - k),
    decreases stack.len() - k,
{
    let e = n->Element_0;
    if k + 1 < stack.len() {
        let last = e.children@.last();
        lemma_chain_within(last, stack, k + 1, inner_end, inner_end);
        assert forall|i: int| 0 <= i < e.children@.len() implies within_depth(#[trigger] e.children@[i], MAX_TREE_DEPTH - k - 1) by {
            if i < e.children@.len() - 1 {
                assert(e.children@[i] == e.children@.drop_last()[i]);
                assert(e.children@[i] == stack[k].children@[i]);
            } else {
                assert(e.children@[i] == last);
            }
        }
    } else {
        assert forall|i: int| 0 <= i < e.children@.len() implies within_depth(#[trigger] e.children@[i], MAX_TREE_DEPTH - k - 1) by {
            assert(e.children@[i] == stack[k].children@[i]);
        }
    }
}

proof fn lemma_attached_within(
    old_stack: Seq<OpenTag>,
    old_root: Option<XmlElement>,
    e: XmlElement,
    new_stack: Seq<OpenTag>,
    new_root: Option<XmlElement>,
)
    requires
        stack_within(old_stack),
        root_within(old_root, MAX_TREE_DEPTH as int),
        within_depth(XmlNode::Element(e), MAX_TREE_DEPTH - old_stack.len()),
        attached(old_stack, old_root, e, new_stack, new_root),
    ensures
        stack_within(new_stack),
        root_within(new_root, MAX_TREE_DEPTH as int),
{
    if old_stack.len() > 0 {
        let k = old_stack.len() - 1;
        assert forall|i: int, j: int|
            0 <= i < new_stack.len() && 0 <= j < new_stack[i].children@.len() implies within_depth(
            #[trigger] new_stack[i].children@[j],
            MAX_TREE_DEPTH - i - 1,
        ) by {
            if i < k {
                assert(new_stack[i] == old_stack[i]);
            } else if j < old_stack[k].children@.len() {
                assert(new_stack[k].children@[j] == old_stack[k].children@[j]);
            }
        }
    }
}

proof fn lemma_text_within(old_stack: Seq<OpenTag>, new_stack: Seq<OpenTag>, v: Seq<char>, span: ByteSpan)
    requires
        stack_within(old_stack),
        text_attached(old_stack, new_stack, v, span),
    ensures
        stack_within(new_stack),
{
    if old_stack.len() > 0 {
        let k = old_stack.len() - 1;
        assert forall|i: int, j: int|
            0 <= i < new_stack.len() && 0 <= j < new_stack[i].children@.len() implies within_depth(
            #[trigger] new_stack[i].children@[j],
            MAX_TREE_DEPTH - i - 1,
        ) by {
            if i < k {
                assert(new_stack[i] == old_stack[i]);
            } else if j < old_stack[k].children@.len() {
                assert(new_stack[k].children@[j] == new_stack[k].children@.drop_last()[j]);
                assert(new_stack[k].children@[j] == old_stack[k].children@[j]);
            } else {
                assert(new_stack[k].children@[j] == new_stack[k].children@.last());
            }
        }
    }
}

/// Index of the innermost open tag named `name`.
pub fn find_open(stack: &Vec<OpenTag>, name: &str) -> (r: Option<usize>)
    ensures
        r is None <==> innermost_open(stack@, name@) == -1,
        r matches Some(d) ==> d == innermost_open(stack@, name@),
{
    let mut i = stack.len();
    assert(stack@.take(i as int) =~= stack@);
    while i > 0
        invariant
            i <= stack@.len(),
            innermost_open(stack@, name@) == innermost_open(stack@.take(i as int), name@),
        decreases i,
    {
        let ghost pre = stack@.take(i as int);
        assert(pre.drop_last() =~= stack@.take(i - 1));
        if str_eq(stack[i - 1].name.as_str(), name) {
            return Some(i - 1);
        }
        i -= 1;
    }
    None
}

/// The message of an `UnclosedTag` report for `<name>`: closed at end of
/// input, or implicitly by an outer closing tag.
pub open spec fn unclosed_text(name: Seq<char>, at_eof: bool) -> Seq<char> {
    "<"@ + name + if at_eof {
        "> was never closed before end of input"@
    } else {
        "> was never explicitly closed; implicitly closed here"@
    }
}

fn unclosed_message(name: &str, at_eof: bool) -> (r: String)
    ensures
        r@ == unclosed_text(name@, at_eof),
{
    let mut m = "<".to_owned();
    m.append(name);
    if at_eof {
        m.append("> was never closed before end of input");
    } else {
        m.append("> was never explicitly closed; implicitly closed here");
    }
    m
}

/// What a closing tag `</name>` spanning `[close_start, close_end)` does to
/// the open tags, the root and the diagnostics (recovery rules 1 and 2).
pub open spec fn closed_by(
    old_stack: Seq<OpenTag>,
    old_root: Option<XmlElement>,
    old_diags: Seq<Diagnostic>,
    name: Seq<char>,
    close_start: u32,
    close_end: u32,
    new_stack: Seq<OpenTag>,
    new_root: Option<XmlElement>,
    new_diags: Seq<Diagnostic>,
) -> bool {
    let d = innermost_open(old_stack, name);
    if d == -1 {
        &&& new_stack == old_stack
        &&& new_root == old_root
        &&& new_diags.len() == old_diags.len() + 1
        &&& new_diags.drop_last() == old_diags
        &&& new_diags.last().code == DiagCode::UnexpectedCloseTag
        &&& new_diags.last().span == Some(ByteSpan { start: close_start, end: close_end })
        &&& new_diags.last().message@ == "closing tag </"@ + name + "> has no matching open tag; ignored"@
    } else {
        &&& new_diags.len() >= old_diags.len()
        &&& new_diags.subrange(0, old_diags.len() as int) == old_diags
        &&& unclosed_diags_at(
            new_diags.subrange(old_diags.len() as int, new_diags.len() as int),
            old_stack,
            d + 1,
            close_start,
            false,
        )
        &&& exists|x: XmlElement|
            closes_chain(XmlNode::Element(x), old_stack, d, close_end, close_start)
                && attached(old_stack.take(d), old_root, x, new_stack, new_root)
    }
}

/// Recovery rules 1 and 2 for a closing tag `</name>` spanning
/// `[close_start, close_end)`. When an open tag of that name exists, every
/// tag above the innermost one is closed implicitly at `close_start` (one
/// `UnclosedTag` each, innermost first), and the matched tag is closed at
/// `close_end`. When none exists, the closing tag is ignored with one
/// `UnexpectedCloseTag`.
pub fn close_tag(
    name: &str,
    close_start: u32,
    close_end: u32,
    stack: &mut Vec<OpenTag>,
    root: &mut Option<XmlElement>,
    diagnostics: &mut Vec<Diagnostic>,
)
    requires
        close_start <= close_end,
    ensures
        closed_by(
            old(stack)@,
            *old(root),
            old(diagnostics)@,
            name@,
            close_start,
            close_end,
            final(stack)@,
            *final(root),
            final(diagnostics)@,
        ),
{
    proof {
        lemma_innermost_open_bounds(stack@, name@);
    }
    let depth = match find_open(stack, name) {
        Some(d) => d,
        None => {
            let mut m = "closing tag </".to_owned();
            m.append(name);
            m.append("> has no matching open tag; ignored");
            diagnostics.push(
                Diagnostic {
                    code: DiagCode::UnexpectedCloseTag,
                    span: Some(ByteSpan { start: close_start, end: close_end }),
                    message: m,
                },
            );
            proof {
                assert(final(diagnostics)@.drop_last() =~= old(diagnostics)@);
            }
            return ;
        },
    };
    let ghost old_stack = stack@;
    let ghost old_diags = diagnostics@;
    let ghost old_len = old_stack.len();
    let ghost mut chain: XmlNode = arbitrary();
    while stack.len() > depth + 1
        invariant
            depth < old_len,
            depth + 1 <= stack@.len() <= old_len,
            old_stack.len() == old_len,
            forall|i: int| 0 <= i < stack@.len() - 1 ==> #[trigger] stack@[i] == old_stack[i],
            stack@.len() == old_len ==> stack@ == old_stack,
            stack@.len() < old_len ==> {
                let m = stack@.len() - 1;
                &&& stack@[m].name == old_stack[m].name
                &&& stack@[m].start == old_stack[m].start
                &&& stack@[m].attrs == old_stack[m].attrs
                &&& stack@[m].children@ == old_stack[m].children@.push(chain)
                &&& closes_chain(chain, old_stack, m + 1, close_start, close_start)
            },
            *root == *old(root),
            diagnostics@.len() >= old_diags.len(),
            diagnostics@.subrange(0, old_diags.len() as int) == old_diags,
            unclosed_diags_at(
                diagnostics@.subrange(old_diags.len() as int, diagnostics@.len() as int),
                old_stack,
                stack@.len() as int,
                close_start,
                false,
            ),
        decreases stack.len(),
    {
        let ghost before = stack@;
        let ghost before_diags = diagnostics@;
        let unclosed = stack.pop().unwrap();
        let message = unclosed_message(unclosed.name.as_str(), false);
        diagnostics.push(
            Diagnostic {
                code: DiagCode::UnclosedTag,
                span: Some(ByteSpan { start: unclosed.start, end: close_start }),
                message,
            },
        );
        let element = XmlElement {
            name: unclosed.name,
            span: ByteSpan { start: unclosed.start, end: close_start },
            attrs: unclosed.attrs,
            children: unclosed.children,
        };
        let ghost el = element;
        push_completed(element, stack, root);
        proof {
            let m = stack@.len() - 1;
            let n = before.len() - 1;
            assert(closes_chain(XmlNode::Element(el), old_stack, n, close_start, close_start)) by {
                if n + 1 < old_len {
                    assert(el.children@.drop_last() =~= old_stack[n].children@);
                }
            }
            chain = XmlNode::Element(el);
            let nd = diagnostics@.subrange(old_diags.len() as int, diagnostics@.len() as int);
            let pd = before_diags.subrange(old_diags.len() as int, before_diags.len() as int);
            assert(nd =~= pd.push(diagnostics@.last()));
            assert(diagnostics@.subrange(0, old_diags.len() as int) =~= old_diags);
        }
    }
    let matched = stack.pop().unwrap();
    let element = XmlElement {
        name: matched.name,
        span: ByteSpan { start: matched.start, end: close_end },
        attrs: matched.attrs,
        children: matched.children,
    };
    let ghost x = element;
    let ghost popped = stack@;
    push_completed(element, stack, root);
    proof {
        assert(popped =~= old_stack.take(depth as int));
        if depth + 1 < old_len {
            assert(x.children@.drop_last() =~= old_stack[depth as int].children@);
        }
        assert(closes_chain(XmlNode::Element(x), old_stack, depth as int, close_end, close_start));
    }
}

/// What end of input at `doc_end` does to the open tags, the root and the
/// diagnostics: every open tag is closed implicitly.
pub open spec fn eof_closed(
    old_stack: Seq<OpenTag>,
    old_root: Option<XmlElement>,
    old_diags: Seq<Diagnostic>,
    doc_end: u32,
    new_stack: Seq<OpenTag>,
    new_root: Option<XmlElement>,
    new_diags: Seq<Diagnostic>,
) -> bool {
    &&& new_stack.len() == 0
    &&& new_diags.len() >= old_diags.len()
    &&& new_diags.subrange(0, old_diags.len() as int) == old_diags
    &&& unclosed_diags_at(new_diags.subrange(old_diags.len() as int, new_diags.len() as int), old_stack, 0, doc_end, true)
    &&& old_stack.len() == 0 ==> new_root == old_root
    &&& old_stack.len() > 0 ==> exists|x: XmlElement|
        closes_chain(XmlNode::Element(x), old_stack, 0, doc_end, doc_end) && new_root == (if old_root is None {
            Some(x)
        } else {
            old_root
        })
}

/// End of input with tags still open: every one is closed implicitly at
/// `doc_end` (one `UnclosedTag` each, innermost first), each nested into
/// the tag below it, the outermost attached as the root if none exists.
pub fn close_unclosed_at_eof(
    stack: &mut Vec<OpenTag>,
    root: &mut Option<XmlElement>,
    doc_end: u32,
    diagnostics: &mut Vec<Diagnostic>,
)
    ensures
        eof_closed(old(stack)@, *old(root), old(diagnostics)@, doc_end, final(stack)@, *final(root), final(diagnostics)@),
{
    let ghost old_stack = stack@;
    let ghost old_diags = diagnostics@;
    let ghost old_len = old_stack.len();
    let ghost mut chain: XmlNode = arbitrary();
    while stack.len() > 0
        invariant
            stack@.len() <= old_len,
            old_stack.len() == old_len,
            forall|i: int| 0 <= i < stack@.len() - 1 ==> #[trigger] stack@[i] == old_stack[i],
            stack@.len() == old_len ==> stack@ == old_stack,
            0 < stack@.len() < old_len ==> {
                let m = stack@.len() - 1;
                &&& stack@[m].name == old_stack[m].name
                &&& stack@[m].start == old_stack[m].start
                &&& stack@[m].attrs == old_stack[m].attrs
                &&& stack@[m].children@ == old_stack[m].children@.push(chain)
                &&& closes_chain(chain, old_stack, m + 1, doc_end, doc_end)
            },
            stack@.len() > 0 ==> *root == *old(root),
            stack@.len() == 0 && old_len > 0 ==> closes_chain(chain, old_stack, 0, doc_end, doc_end)
                && *root == (if *old(root) is None { Some(chain->Element_0) } else { *old(root) }),
            old_len == 0 ==> *root == *old(root),
            diagnostics@.len() >= old_diags.len(),
            diagnostics@.subrange(0, old_diags.len() as int) == old_diags,
            unclosed_diags_at(
                diagnostics@.subrange(old_diags.len() as int, diagnostics@.len() as int),
                old_stack,
                stack@.len() as int,
                doc_end,
                true,
            ),
        decreases stack.len(),
    {
        let ghost before = stack@;
        let ghost before_diags = diagnostics@;
        let unclosed = stack.pop().unwrap();
        let message = unclosed_message(unclosed.name.as_str(), true);
        diagnostics.push(
            Diagnostic {
                code: DiagCode::UnclosedTag,
                span: Some(ByteSpan { start: unclosed.start, end: doc_end }),
                message,
            },
        );
        let element = XmlElement {
            name: unclosed.name,
            span: ByteSpan { start: unclosed.start, end: doc_end },
            attrs: unclosed.attrs,
            children: unclosed.children,
        };
        let ghost el = element;
        push_completed(element, stack, root);
        proof {
            let n = before.len() - 1;
            assert(closes_chain(XmlNode::Element(el), old_stack, n, doc_end, doc_end)) by {
                if n + 1 < old_len {
                    assert(el.children@.drop_last() =~= old_stack[n].children@);
                }
            }
            chain = XmlNode::Element(el);
            let nd = diagnostics@.subrange(old_diags.len() as int, diagnostics@.len() as int);
            let pd = before_diags.subrange(old_diags.len() as int, before_diags.len() as int);
            assert(nd =~= pd.push(diagnostics@.last()));
            assert(diagnostics@.subrange(0, old_diags.len() as int) =~= old_diags);
        }
    }
    proof {
        if old_len > 0 {
            let x = chain->Element_0;
            assert(closes_chain(XmlNode::Element(x), old_stack, 0, doc_end, doc_end));
        }
    }
}

} // verus!

verus! {

// ---------------------------------------------------------------------
// Rule 6 across entity-split text: contiguous text runs are checked for
// unterminated placeholders as one run.
// ---------------------------------------------------------------------

/// What a text run `raw_span` does to the pending contiguous run and the
/// diagnostics: it extends a run it continues; otherwise the pending run
/// is checked for an unterminated placeholder and a new run starts.
pub open spec fn pending_extended(
    old_pending: Option<ByteSpan>,
    raw_span: ByteSpan,
    src: Seq<u8>,
    old_diags: Seq<Diagnostic>,
    new_pending: Option<ByteSpan>,
    new_diags: Seq<Diagnostic>,
) -> bool {
    match old_pending {
        Some(p) => if p.end == raw_span.start {
            &&& new_pending == Some(ByteSpan { start: p.start, end: raw_span.end })
            &&& new_diags == old_diags
        } else {
            &&& new_pending == Some(raw_span)
            &&& unterminated_reported(old_diags, new_diags, src.subrange(p.start as int, p.end as int), p)
        },
        None => new_pending == Some(raw_span) && new_diags == old_diags,
    }
}

/// What checking and clearing the pending run does to the diagnostics.
pub open spec fn pending_flushed(old_pending: Option<ByteSpan>, src: Seq<u8>, old_diags: Seq<Diagnostic>, new_diags: Seq<Diagnostic>) -> bool {
    match old_pending {
        Some(p) => unterminated_reported(old_diags, new_diags, src.subrange(p.start as int, p.end as int), p),
        None => new_diags == old_diags,
    }
}

/// Folds the text run `raw_span` into the pending contiguous run, or, when
/// it does not continue that run, checks the pending run for an
/// unterminated placeholder and starts a new one.
pub fn extend_pending_placeholder_span(
    pending: &mut Option<ByteSpan>,
    raw_span: ByteSpan,
    source: &str,
    diagnostics: &mut Vec<Diagnostic>,
)
    requires
        bytes_of(source).len() <= u32::MAX,
        *old(pending) matches Some(p) ==> span_sliceable(bytes_of(source), p),
        span_sliceable(bytes_of(source), raw_span),
    ensures
        pending_extended(*old(pending), raw_span, bytes_of(source), old(diagnostics)@, *final(pending), final(diagnostics)@),
        *final(pending) matches Some(p) ==> span_sliceable(bytes_of(source), p),
{
    match *pending {
        Some(p) => {
            if p.end == raw_span.start {
                *pending = Some(ByteSpan { start: p.start, end: raw_span.end });
            } else {
                let run = slice_text(source, p.start as usize, p.end as usize).unwrap();
                check_unterminated_placeholders(run.as_str(), p, diagnostics);
                *pending = Some(raw_span);
            }
        },
        None => {
            *pending = Some(raw_span);
        },
    }
}

/// Checks the pending contiguous text run, if any, and clears it.
pub fn flush_pending_placeholder_span(
    pending: &mut Option<ByteSpan>,
    source: &str,
    diagnostics: &mut Vec<Diagnostic>,
)
    requires
        bytes_of(source).len() <= u32::MAX,
        *old(pending) matches Some(p) ==> span_sliceable(bytes_of(source), p),
    ensures
        *final(pending) is None,
        pending_flushed(*old(pending), bytes_of(source), old(diagnostics)@, final(diagnostics)@),
{
    if let Some(span) = *pending {
        let run = slice_text(source, span.start as usize, span.end as usize).unwrap();
        check_unterminated_placeholders(run.as_str(), span, diagnostics);
    }
    *pending = None;
}

// ---------------------------------------------------------------------
// Which element becomes the root: the tokenizer's events, followed the way
// the tree builder follows them.
// ---------------------------------------------------------------------

/// The `k`-th event of the tree builder's tokenizer over `w` (dangling `&`
/// allowed, end names not checked, unmatched ends allowed).
pub open spec fn tree_event(w: Seq<u8>, k: nat) -> EventView {
    xml_event(w, true, false, true, k)
}

pub open spec fn tree_event_end(w: Seq<u8>, k: nat) -> int {
    xml_position(w, true, false, true, k) as int
}

pub open spec fn tree_error_pos(w: Seq<u8>, k: nat) -> int {
    xml_error_position(w, true, false, true, k) as int
}

/// Where the text starts after any leading byte-order marks.
pub open spec fn bom_end(src: Seq<u8>, base: int) -> int
    decreases src.len() - base,
{
    if 0 <= base && src.len() >= 3 && base <= src.len() - 3 && src[base] == 0xEFu8 && src[base + 1] == 0xBBu8
        && src[base + 2] == 0xBFu8 && is_char_boundary(src, base + 3) {
        bom_end(src, base + 3)
    } else {
        base
    }
}

/// The first `<` at or after `i`, or the end.
pub open spec fn next_lt(src: Seq<u8>, i: int) -> int
    decreases src.len() - i,
{
    if i < 0 || i >= src.len() || src[i] == 0x3Cu8 {
        i
    } else {
        next_lt(src, i + 1)
    }
}

/// Where, relative to the reader's start, the search for the next `<`
/// begins after unreadable markup reported at `err`.
pub open spec fn search_start(err: int, pos: int, wlen: int) -> int {
    let a = if err >= wlen { wlen } else { err + 1 };
    let b = if a <= pos { if pos < wlen { pos + 1 } else { wlen } } else { a };
    if b > wlen { wlen } else { b }
}

/// Where a fresh reader resumes after unreadable markup, if anywhere.
pub open spec fn resync_at(src: Seq<u8>, base: int, pos: int, err: int) -> Option<int> {
    let k = next_lt(src, base + search_start(err, pos, src.len() - base));
    if k < src.len() && k > base + pos && is_char_boundary(src, k) {
        Some(k)
    } else {
        None
    }
}

/// The first start or self-closing tag the tree builder meets, reading
/// from `base + pos` with a reader over `src[base..]` that has given `k`
/// events: its name and extent.
pub open spec fn first_tag_from(src: Seq<u8>, base: int, pos: int, k: nat) -> Option<(Seq<char>, int, int)>
    decreases src.len() - base, src.len() - base - pos,
    when 0 <= base && 0 <= pos && base + pos <= src.len()
{
    let w = src.subrange(base, src.len() as int);
    let wlen = src.len() - base;
    let ev = tree_event(w, k);
    let after = tree_event_end(w, k + 1);
    if ev is Eof || (!(ev is Malformed) && (after > wlen || after <= pos)) {
        None
    } else if ev is Malformed {
        match resync_at(src, base, pos, tree_error_pos(w, k + 1)) {
            Some(kk) => first_tag_from(src, kk, 0, 0),
            None => None,
        }
    } else {
        match ev {
            EventView::Start(nm) => Some((nm, base + pos, base + after)),
            EventView::Empty(nm) => Some((nm, base + pos, base + after)),
            _ => first_tag_from(src, base, after, k + 1),
        }
    }
}

/// The first start or self-closing tag of the text: the document's root.
pub open spec fn first_tag(src: Seq<u8>) -> Option<(Seq<char>, int, int)> {
    first_tag_from(src, bom_end(src, 0), 0, 0)
}

/// An element opened by the tag `t`: its name, start and attributes.
pub open spec fn elem_is_tag(src: Seq<u8>, e: XmlElement, t: (Seq<char>, int, int)) -> bool {
    &&& e.name@ == t.0
    &&& e.span.start == t.1
    &&& attrs_are_toks(src, e.attrs@, tag_attrs(src, t.1, t.2))
}

pub open spec fn open_is_tag(src: Seq<u8>, o: OpenTag, t: (Seq<char>, int, int)) -> bool {
    &&& o.name@ == t.0
    &&& o.start == t.1
    &&& attrs_are_toks(src, o.attrs@, tag_attrs(src, t.1, t.2))
}

/// The root is the element of the first tag, or there is none.
pub open spec fn root_is_first(src: Seq<u8>, root: Option<XmlElement>, ft: Option<(Seq<char>, int, int)>) -> bool {
    match ft {
        None => root is None,
        Some(t) => root matches Some(e) && elem_is_tag(src, e, t),
    }
}

/// The first tag has been met: it is the root, or still open at the bottom.
spec fn head_found(src: Seq<u8>, t: (Seq<char>, int, int), stack: Seq<OpenTag>, root: Option<XmlElement>) -> bool {
    ||| (root matches Some(e) && elem_is_tag(src, e, t))
    ||| (root is None && stack.len() > 0 && open_is_tag(src, stack[0], t))
}

proof fn lemma_head_kept(
    src: Seq<u8>,
    t: (Seq<char>, int, int),
    old_stack: Seq<OpenTag>,
    old_root: Option<XmlElement>,
    new_stack: Seq<OpenTag>,
    new_root: Option<XmlElement>,
)
    requires
        head_found(src, t, old_stack, old_root),
        new_root == old_root,
        old_stack.len() > 0 ==> new_stack.len() > 0 && new_stack[0].name == old_stack[0].name && new_stack[0].start
            == old_stack[0].start && new_stack[0].attrs == old_stack[0].attrs,
    ensures
        head_found(src, t, new_stack, new_root),
{
}

proof fn lemma_head_attached(
    src: Seq<u8>,
    t: (Seq<char>, int, int),
    old_stack: Seq<OpenTag>,
    old_root: Option<XmlElement>,
    e: XmlElement,
    new_stack: Seq<OpenTag>,
    new_root: Option<XmlElement>,
)
    requires
        head_found(src, t, old_stack, old_root),
        attached(old_stack, old_root, e, new_stack, new_root),
    ensures
        head_found(src, t, new_stack, new_root),
{
    if old_stack.len() > 0 {
        let k = old_stack.len() - 1;
        if 0 < k {
            assert(new_stack[0] == old_stack[0]);
        }
        lemma_head_kept(src, t, old_stack, old_root, new_stack, new_root);
    }
}

proof fn lemma_head_closed(
    src: Seq<u8>,
    t: (Seq<char>, int, int),
    old_stack: Seq<OpenTag>,
    old_root: Option<XmlElement>,
    old_diags: Seq<Diagnostic>,
    name: Seq<char>,
    close_start: u32,
    close_end: u32,
    new_stack: Seq<OpenTag>,
    new_root: Option<XmlElement>,
    new_diags: Seq<Diagnostic>,
)
    requires
        head_found(src, t, old_stack, old_root),
        closed_by(old_stack, old_root, old_diags, name, close_start, close_end, new_stack, new_root, new_diags),
    ensures
        head_found(src, t, new_stack, new_root),
{
    lemma_innermost_open_bounds(old_stack, name);
    let d = innermost_open(old_stack, name);
    if d >= 0 {
        let x = choose|x: XmlElement|
            closes_chain(XmlNode::Element(x), old_stack, d, close_end, close_start)
                && attached(old_stack.take(d), old_root, x, new_stack, new_root);
        if d > 0 {
            assert(old_stack.take(d)[0] == old_stack[0]);
            lemma_head_attached(src, t, old_stack.take(d), old_root, x, new_stack, new_root);
        }
    }
}

proof fn lemma_head_eof(
    src: Seq<u8>,
    t: (Seq<char>, int, int),
    old_stack: Seq<OpenTag>,
    old_root: Option<XmlElement>,
    old_diags: Seq<Diagnostic>,
    doc_end: u32,
    new_stack: Seq<OpenTag>,
    new_root: Option<XmlElement>,
    new_diags: Seq<Diagnostic>,
)
    requires
        head_found(src, t, old_stack, old_root),
        eof_closed(old_stack, old_root, old_diags, doc_end, new_stack, new_root, new_diags),
    ensures
        new_root matches Some(e) && elem_is_tag(src, e, t),
{
    if old_stack.len() > 0 {
        let x = choose|x: XmlElement|
            closes_chain(XmlNode::Element(x), old_stack, 0, doc_end, doc_end) && new_root == (if old_root is None {
                Some(x)
            } else {
                old_root
            });
    }
}

/// A text run keeps the bottom open tag's head and the root.
proof fn lemma_text_head(
    src: Seq<u8>,
    nf: bool,
    old_stack: Seq<OpenTag>,
    old_root: Option<XmlElement>,
    old_sup: u32,
    new_stack: Seq<OpenTag>,
    new_root: Option<XmlElement>,
)
    requires
        nf ==> old_stack.len() == 0,
        new_root == old_root,
        old_sup > 0 ==> new_stack == old_stack,
        old_sup == 0 ==> new_stack == old_stack || exists|v: Seq<char>, sp: ByteSpan| text_attached(old_stack, new_stack, v, sp),
    ensures
        nf ==> new_stack.len() == 0,
        forall|t: (Seq<char>, int, int)|
            head_found(src, t, old_stack, old_root) ==> head_found(src, t, new_stack, new_root),
{
    if old_sup == 0 && new_stack != old_stack {
        let (v, sp) = choose|v: Seq<char>, sp: ByteSpan| text_attached(old_stack, new_stack, v, sp);
        if old_stack.len() > 1 {
            assert(new_stack[0] == old_stack[0]);
        }
    }
}

// ---------------------------------------------------------------------
// The tree builder.
// ---------------------------------------------------------------------

/// Structural depth cap of the built tree: an element opening deeper than
/// this is dropped with its whole subtree (one `NestingLimitExceeded`).
pub const MAX_TREE_DEPTH: usize = 2048;

/// Everything the tree builder keeps between events.
struct TreeState {
    stack: Vec<OpenTag>,
    root: Option<XmlElement>,
    diagnostics: Vec<Diagnostic>,
    suppressed_depth: u32,
    pending: Option<ByteSpan>,
}

spec fn state_ok(st: TreeState, src: Seq<u8>, pos: int) -> bool {
    &&& stack_grounded(src, st.stack@)
    &&& root_grounded(src, st.root)
    &&& starts_before(st.stack@, pos as u32)
    &&& pos <= src.len()
    &&& st.pending matches Some(p) ==> span_sliceable(src, p)
}

proof fn lemma_state_later(st: TreeState, src: Seq<u8>, pos: int, later: int)
    requires
        state_ok(st, src, pos),
        0 <= pos <= later <= src.len(),
        src.len() <= u32::MAX,
    ensures
        state_ok(st, src, later),
{
    assert forall|i: int| 0 <= i < st.stack@.len() implies #[trigger] st.stack@[i].start <= later as u32 by {
        assert(st.stack@[i].start <= pos as u32);
        assert(pos as u32 == pos);
        assert(later as u32 == later);
    }
}

/// A code the tree builder reports.
pub open spec fn tree_code(c: DiagCode) -> bool {
    ||| c == DiagCode::UnclosedTag
    ||| c == DiagCode::UnexpectedCloseTag
    ||| c == DiagCode::DuplicateAttribute
    ||| c == DiagCode::InvalidEntity
    ||| c == DiagCode::UnterminatedPlaceholder
    ||| c == DiagCode::NestingLimitExceeded
}

/// Every diagnostic has a code the tree builder reports, and a span.
pub open spec fn tree_codes(ds: Seq<Diagnostic>) -> bool {
    forall|k: int| 0 <= k < ds.len() ==> tree_code(#[trigger] ds[k].code) && ds[k].span is Some
}

proof fn lemma_tree_codes_grow(old: Seq<Diagnostic>, new: Seq<Diagnostic>)
    requires
        tree_codes(old),
        old.len() <= new.len(),
        new.subrange(0, old.len() as int) == old,
        tree_codes(new.subrange(old.len() as int, new.len() as int)),
    ensures
        tree_codes(new),
{
    assert forall|k: int| 0 <= k < new.len() implies tree_code(#[trigger] new[k].code) && new[k].span is Some by {
        if k < old.len() {
            assert(new[k] == new.subrange(0, old.len() as int)[k]);
        } else {
            assert(new[k] == new.subrange(old.len() as int, new.len() as int)[k - old.len()]);
        }
    }
}

proof fn lemma_tree_codes_one_more(old: Seq<Diagnostic>, new: Seq<Diagnostic>)
    requires
        tree_codes(old),
        new.len() == old.len() + 1,
        new.drop_last() == old,
        tree_code(new.last().code),
        new.last().span is Some,
    ensures
        tree_codes(new),
{
    assert forall|k: int| 0 <= k < new.len() implies tree_code(#[trigger] new[k].code) && new[k].span is Some by {
        if k < old.len() {
            assert(new[k] == new.drop_last()[k]);
        }
    }
}

proof fn lemma_tree_codes_unterminated(old: Seq<Diagnostic>, new: Seq<Diagnostic>, b: Seq<u8>, span: ByteSpan)
    requires
        tree_codes(old),
        unterminated_reported(old, new, b, span),
    ensures
        tree_codes(new),
{
    if new != old {
        lemma_tree_codes_one_more(old, new);
    }
}

proof fn lemma_tree_codes_unclosed(old: Seq<Diagnostic>, new: Seq<Diagnostic>, stack: Seq<OpenTag>, k: int, end: u32, at_eof: bool)
    requires
        tree_codes(old),
        old.len() <= new.len(),
        new.subrange(0, old.len() as int) == old,
        unclosed_diags_at(new.subrange(old.len() as int, new.len() as int), stack, k, end, at_eof),
    ensures
        tree_codes(new),
{
    let part = new.subrange(old.len() as int, new.len() as int);
    assert forall|j: int| 0 <= j < part.len() implies tree_code(#[trigger] part[j].code) && part[j].span is Some by {}
    lemma_tree_codes_grow(old, new);
}

proof fn lemma_tree_codes_closed(
    old_stack: Seq<OpenTag>,
    old_root: Option<XmlElement>,
    old_diags: Seq<Diagnostic>,
    name: Seq<char>,
    close_start: u32,
    close_end: u32,
    new_stack: Seq<OpenTag>,
    new_root: Option<XmlElement>,
    new_diags: Seq<Diagnostic>,
)
    requires
        tree_codes(old_diags),
        closed_by(old_stack, old_root, old_diags, name, close_start, close_end, new_stack, new_root, new_diags),
    ensures
        tree_codes(new_diags),
{
    if innermost_open(old_stack, name) == -1 {
        lemma_tree_codes_one_more(old_diags, new_diags);
    } else {
        lemma_tree_codes_unclosed(old_diags, new_diags, old_stack, innermost_open(old_stack, name) + 1, close_start, false);
    }
}

/// Only diagnostics of an attribute scan were added: duplicates, entities,
/// placeholders.
pub open spec fn tag_diags(old: Seq<Diagnostic>, new: Seq<Diagnostic>) -> bool {
    &&& new.len() >= old.len()
    &&& new.subrange(0, old.len() as int) == old
    &&& forall|k: int| old.len() <= k < new.len() ==> {
        let c = (#[trigger] new[k]).code;
        &&& (c == DiagCode::DuplicateAttribute || c == DiagCode::InvalidEntity || c == DiagCode::UnterminatedPlaceholder)
        &&& new[k].span is Some
    }
}

proof fn lemma_tree_codes_tag(old: Seq<Diagnostic>, new: Seq<Diagnostic>)
    requires
        tree_codes(old),
        tag_diags(old, new),
    ensures
        tree_codes(new),
{
    let part = new.subrange(old.len() as int, new.len() as int);
    assert forall|j: int| 0 <= j < part.len() implies tree_code(#[trigger] part[j].code) && part[j].span is Some by {
        assert(part[j] == new[j + old.len()]);
    }
    lemma_tree_codes_grow(old, new);
}

proof fn lemma_tree_codes_entities(check: bool, old: Seq<Diagnostic>, new: Seq<Diagnostic>, b: Seq<u8>, base: int)
    requires
        tree_codes(old),
        entities_checked(check, old, new, b, base),
    ensures
        tree_codes(new),
{
    if check {
        let part = new.subrange(old.len() as int, new.len() as int);
        assert forall|j: int| 0 <= j < part.len() implies tree_code(#[trigger] part[j].code) && part[j].span is Some by {}
        lemma_tree_codes_grow(old, new);
    }
}

proof fn lemma_tree_codes_pending(
    old_pending: Option<ByteSpan>,
    raw_span: ByteSpan,
    src: Seq<u8>,
    old: Seq<Diagnostic>,
    new_pending: Option<ByteSpan>,
    new: Seq<Diagnostic>,
)
    requires
        tree_codes(old),
        pending_extended(old_pending, raw_span, src, old, new_pending, new),
    ensures
        tree_codes(new),
{
    if let Some(p) = old_pending {
        if p.end != raw_span.start {
            lemma_tree_codes_unterminated(old, new, src.subrange(p.start as int, p.end as int), p);
        }
    }
}

/// One `NestingLimitExceeded` for the tag `[start, end)` was added, with
/// the message `msg`.
pub open spec fn depth_cut(old: Seq<Diagnostic>, new: Seq<Diagnostic>, start: usize, end: usize, msg: Seq<char>) -> bool {
    &&& new.len() == old.len() + 1
    &&& new.drop_last() == old
    &&& new.last().code == DiagCode::NestingLimitExceeded
    &&& new.last().span == Some(ByteSpan { start: start as u32, end: end as u32 })
    &&& new.last().message@ == msg
}

/// The tag `[start, end)` named `name` was opened: pushed with the
/// attributes its own bytes hold and no children.
pub open spec fn opened(old: Seq<OpenTag>, new: Seq<OpenTag>, name: Seq<char>, start: usize, end: usize, src: Seq<u8>) -> bool {
    &&& new.len() == old.len() + 1
    &&& new.drop_last() == old
    &&& new.last().name@ == name
    &&& new.last().start == start as u32
    &&& attrs_are_toks(src, new.last().attrs@, tag_attrs(src, start as int, end as int))
    &&& new.last().children@.len() == 0
}

/// The self-closing tag `[start, end)` named `name`, with the attributes
/// its own bytes hold and no children.
pub open spec fn empty_element(e: XmlElement, name: Seq<char>, start: usize, end: usize, src: Seq<u8>) -> bool {
    &&& e.name@ == name
    &&& e.span == (ByteSpan { start: start as u32, end: end as u32 })
    &&& attrs_are_toks(src, e.attrs@, tag_attrs(src, start as int, end as int))
    &&& e.children@.len() == 0
}

/// The text `v` at `span` was attached to the innermost open tag (or
/// dropped, with nothing open).
pub open spec fn text_attached(old: Seq<OpenTag>, new: Seq<OpenTag>, v: Seq<char>, span: ByteSpan) -> bool {
    if old.len() == 0 {
        new == old
    } else {
        let k = old.len() - 1;
        &&& new.len() == old.len()
        &&& forall|i: int| 0 <= i < k ==> new[i] == old[i]
        &&& new[k].name == old[k].name
        &&& new[k].start == old[k].start
        &&& new[k].attrs == old[k].attrs
        &&& new[k].children@.len() == old[k].children@.len() + 1
        &&& new[k].children@.drop_last() == old[k].children@
        &&& new[k].children@.last() matches XmlNode::Text(t) && t.value@ == v && t.span == span
    }
}

/// The entity check of a text run `b` starting at `base`, when asked for.
pub open spec fn entities_checked(check: bool, old: Seq<Diagnostic>, new: Seq<Diagnostic>, b: Seq<u8>, base: int) -> bool {
    if check {
        &&& new.len() >= old.len()
        &&& new.subrange(0, old.len() as int) == old
        &&& entity_diags_match(new.subrange(old.len() as int, new.len() as int), entity_findings(b, 0), b, base)
    } else {
        new == old
    }
}

// ---------------------------------------------------------------------
// The whole tree as a function of the tokenizer's events: one step per
// event, as the handlers below take it.
// ---------------------------------------------------------------------

/// What the tree builder keeps between events, as values: the open tags
/// (outermost first), the root, the diagnostics so far, how deep inside a
/// dropped subtree it is, and the pending contiguous text run.
pub type TreeModel = (Seq<OpenTag>, Option<XmlElement>, Seq<Diagnostic>, u32, Option<ByteSpan>);

/// Nothing read yet.
pub open spec fn tree_start() -> TreeModel {
    (Seq::empty(), None, Seq::empty(), 0u32, None)
}

/// A start tag `[start, end)` named `nm` takes `s` to `t`: inside a dropped
/// subtree it only counts; past the depth cap it starts dropping (one
/// `NestingLimitExceeded`); otherwise it opens a tag.
pub open spec fn start_step(src: Seq<u8>, nm: Seq<char>, start: usize, end: usize, s: TreeModel, t: TreeModel) -> bool {
    &&& t.1 == s.1
    &&& t.4 == s.4
    &&& if s.3 > 0 {
        &&& t.0 == s.0
        &&& t.2 == s.2
        &&& t.3 == (if s.3 < u32::MAX { (s.3 + 1) as u32 } else { s.3 })
    } else if s.0.len() >= MAX_TREE_DEPTH {
        &&& t.0 == s.0
        &&& t.3 == 1
        &&& depth_cut(s.2, t.2, start, end, "element nesting exceeded 2048 levels; deeper subtree dropped to bound the tree's own depth"@)
    } else {
        &&& t.3 == 0
        &&& opened(s.0, t.0, nm, start, end, src)
        &&& tag_diags(s.2, t.2)
        &&& toks_reported(src, attr_tokens(src, attrs_begin(src, start as int, end as int), end as int), s.2, t.2)
    }
}

/// A self-closing tag `[start, end)` named `nm` takes `s` to `t`: a complete
/// element attached to the innermost open tag (or made the root).
pub open spec fn empty_step(src: Seq<u8>, nm: Seq<char>, start: usize, end: usize, s: TreeModel, t: TreeModel) -> bool {
    &&& t.3 == s.3
    &&& t.4 == s.4
    &&& if s.3 > 0 {
        &&& t.0 == s.0
        &&& t.1 == s.1
        &&& t.2 == s.2
    } else if s.0.len() >= MAX_TREE_DEPTH {
        &&& t.0 == s.0
        &&& t.1 == s.1
        &&& depth_cut(s.2, t.2, start, end, "element nesting exceeded 2048 levels; element dropped to bound the tree's own depth"@)
    } else {
        &&& exists|e: XmlElement| empty_element(e, nm, start, end, src) && attached(s.0, s.1, e, t.0, t.1)
        &&& tag_diags(s.2, t.2)
        &&& toks_reported(src, attr_tokens(src, attrs_begin(src, start as int, end as int), end as int), s.2, t.2)
    }
}

/// A closing tag `[start, end)` named `nm` takes `s` to `t` (recovery rules
/// 1 and 2 of `closed_by`; inside a dropped subtree it only counts down).
pub open spec fn end_step(nm: Seq<char>, start: usize, end: usize, s: TreeModel, t: TreeModel) -> bool {
    &&& t.4 == s.4
    &&& if s.3 > 0 {
        &&& t.3 == s.3 - 1
        &&& t.0 == s.0
        &&& t.1 == s.1
        &&& t.2 == s.2
    } else {
        &&& t.3 == 0
        &&& closed_by(s.0, s.1, s.2, nm, start as u32, end as u32, t.0, t.1, t.2)
    }
}

/// A text run at `span` takes `s` to `t`: attached to the innermost open
/// tag, entity-checked when `check` holds, and folded into the pending run.
pub open spec fn text_step(src: Seq<u8>, span: ByteSpan, check: bool, s: TreeModel, t: TreeModel) -> bool {
    &&& t.1 == s.1
    &&& t.3 == s.3
    &&& if s.3 > 0 || !sliceable(src, span.start as int, span.end as int) {
        &&& t.0 == s.0
        &&& t.2 == s.2
        &&& t.4 == s.4
    } else {
        &&& text_attached(s.0, t.0, text_of(src, span.start as int, span.end as int), span)
        &&& exists|d: Seq<Diagnostic>|
            entities_checked(check, s.2, d, src.subrange(span.start as int, span.end as int), span.start as int)
                && pending_extended(s.4, span, src, d, t.4, t.2)
    }
}

/// The content of a CDATA section spanning `[start, end)`, without its
/// `<![CDATA[` and `]]>`.
pub open spec fn cdata_inner(start: int, end: int) -> ByteSpan {
    let inner_start = if end - start > 9 { start + 9 } else { end };
    let inner_end = if end - inner_start >= 3 { end - 3 } else { inner_start };
    ByteSpan { start: inner_start as u32, end: inner_end as u32 }
}

/// The event `ev` spanning `[start, end)` takes `s` to `t`. Comments,
/// declarations, processing instructions and doctypes change nothing.
pub open spec fn event_step(src: Seq<u8>, ev: EventView, start: int, end: int, s: TreeModel, t: TreeModel) -> bool {
    match ev {
        EventView::Start(nm) => start_step(src, nm, start as usize, end as usize, s, t),
        EventView::Empty(nm) => empty_step(src, nm, start as usize, end as usize, s, t),
        EventView::End(nm) => end_step(nm, start as usize, end as usize, s, t),
        EventView::Text => text_step(src, ByteSpan { start: start as u32, end: end as u32 }, true, s, t),
        EventView::GeneralRef => text_step(src, ByteSpan { start: start as u32, end: end as u32 }, true, s, t),
        EventView::CData => text_step(src, cdata_inner(start, end), false, s, t),
        _ => t == s,
    }
}

/// End of input in state `s` gives the root `root` and the diagnostics
/// `diags`: the pending run is checked, then every open tag is closed.
pub open spec fn tree_finished(src: Seq<u8>, s: TreeModel, root: Option<XmlElement>, diags: Seq<Diagnostic>) -> bool {
    exists|d: Seq<Diagnostic>, stack: Seq<OpenTag>|
        pending_flushed(s.4, src, s.2, d) && #[trigger] eof_closed(s.0, s.1, d, src.len() as u32, stack, root, diags)
}

/// Reading on from `base + pos` in state `s`, with a reader over
/// `src[base..]` that has given `k` events, ends with `root` and `diags`:
/// each event is one `event_step`; unreadable markup resumes with a fresh
/// reader at the next `<` (as in `first_tag_from`); the end of input is
/// `tree_finished`.
pub open spec fn built_from(
    src: Seq<u8>,
    base: int,
    pos: int,
    k: nat,
    s: TreeModel,
    root: Option<XmlElement>,
    diags: Seq<Diagnostic>,
) -> bool
    decreases src.len() - base, src.len() - base - pos,
    when 0 <= base && 0 <= pos && base + pos <= src.len()
{
    let w = src.subrange(base, src.len() as int);
    let wlen = src.len() - base;
    let ev = tree_event(w, k);
    let after = tree_event_end(w, k + 1);
    if ev is Eof || (!(ev is Malformed) && (after > wlen || after <= pos)) {
        tree_finished(src, s, root, diags)
    } else if ev is Malformed {
        match resync_at(src, base, pos, tree_error_pos(w, k + 1)) {
            Some(kk) => built_from(src, kk, 0, 0, s, root, diags),
            None => tree_finished(src, s, root, diags),
        }
    } else {
        exists|t: TreeModel|
            #[trigger] event_step(src, ev, base + pos, base + after, s, t) && built_from(src, base, after, k + 1, t, root, diags)
    }
}

/// The tree of `src`: its events read from after any leading byte-order
/// marks, from nothing open, end with `root` and `diags`.
pub open spec fn tree_of(src: Seq<u8>, root: Option<XmlElement>, diags: Seq<Diagnostic>) -> bool {
    built_from(src, bom_end(src, 0), 0, 0, tree_start(), root, diags)
}

spec fn model_of(st: TreeState) -> TreeModel {
    (st.stack@, st.root, st.diagnostics@, st.suppressed_depth, st.pending)
}

/// Closes everything at end of input (after checking the pending text run).
fn finish_at_eof(st: &mut TreeState, source: &str)
    requires
        bytes_of(source).len() <= u32::MAX,
        state_ok(*old(st), bytes_of(source), bytes_of(source).len() as int),
    ensures
        tree_codes(old(st).diagnostics@) ==> tree_codes(final(st).diagnostics@),
        root_grounded(bytes_of(source), final(st).root),
        final(st).pending is None,
        final(st).suppressed_depth == old(st).suppressed_depth,
        exists|d: Seq<Diagnostic>|
            pending_flushed(old(st).pending, bytes_of(source), old(st).diagnostics@, d) && eof_closed(
                old(st).stack@,
                old(st).root,
                d,
                bytes_of(source).len() as u32,
                final(st).stack@,
                final(st).root,
                final(st).diagnostics@,
            ),
{
    let ghost src = bytes_of(source);
    flush_pending_placeholder_span(&mut st.pending, source, &mut st.diagnostics);
    let ghost d_flushed = st.diagnostics@;
    let ghost old_stack = st.stack@;
    let ghost old_root = st.root;
    let doc_end = source.as_bytes().len() as u32;
    close_unclosed_at_eof(&mut st.stack, &mut st.root, doc_end, &mut st.diagnostics);
    proof {
        if old_stack.len() > 0 {
            let x = choose|x: XmlElement|
                closes_chain(XmlNode::Element(x), old_stack, 0, doc_end, doc_end) && st.root == (
                if old_root is None {
                    Some(x)
                } else {
                    old_root
                });
            lemma_chain_grounded(src, XmlNode::Element(x), old_stack, 0, doc_end, doc_end);
            lemma_element_node_grounded(src, x);
        }
        assert(pending_flushed(old(st).pending, src, old(st).diagnostics@, d_flushed));
        if tree_codes(old(st).diagnostics@) {
            if let Some(p) = old(st).pending {
                lemma_tree_codes_unterminated(old(st).diagnostics@, d_flushed, src.subrange(p.start as int, p.end as int), p);
            }
            lemma_tree_codes_unclosed(d_flushed, st.diagnostics@, old_stack, 0, doc_end, true);
        }
    }
}

/// A start tag `[start, end)`: opens an element (attributes scanned from
/// the tag's own bytes), or, past the depth cap, starts dropping a subtree.
fn on_start(st: &mut TreeState, source: &str, name: String, start: usize, end: usize)
    requires
        bytes_of(source).len() <= u32::MAX,
        start <= end <= bytes_of(source).len(),
        state_ok(*old(st), bytes_of(source), start as int),
    ensures
        tree_codes(old(st).diagnostics@) ==> tree_codes(final(st).diagnostics@),
        state_ok(*final(st), bytes_of(source), end as int),
        final(st).root == old(st).root,
        final(st).pending == old(st).pending,
        old(st).suppressed_depth > 0 ==> {
            &&& final(st).stack@ == old(st).stack@
            &&& final(st).diagnostics@ == old(st).diagnostics@
            &&& final(st).suppressed_depth == (if old(st).suppressed_depth < u32::MAX {
                old(st).suppressed_depth + 1
            } else {
                old(st).suppressed_depth as int
            })
        },
        old(st).suppressed_depth == 0 && old(st).stack@.len() >= MAX_TREE_DEPTH ==> {
            &&& final(st).stack@ == old(st).stack@
            &&& final(st).suppressed_depth == 1
            &&& depth_cut(old(st).diagnostics@, final(st).diagnostics@, start, end, "element nesting exceeded 2048 levels; deeper subtree dropped to bound the tree's own depth"@)
        },
        old(st).suppressed_depth == 0 && old(st).stack@.len() < MAX_TREE_DEPTH ==> {
            &&& final(st).suppressed_depth == 0
            &&& opened(old(st).stack@, final(st).stack@, name@, start, end, bytes_of(source))
            &&& tag_diags(old(st).diagnostics@, final(st).diagnostics@)
            &&& toks_reported(
                bytes_of(source),
                attr_tokens(bytes_of(source), attrs_begin(bytes_of(source), start as int, end as int), end as int),
                old(st).diagnostics@,
                final(st).diagnostics@,
            )
        },
{
    proof { lemma_state_later(*st, bytes_of(source), start as int, end as int); }
    if st.suppressed_depth > 0 {
        if st.suppressed_depth < u32::MAX {
            st.suppressed_depth = st.suppressed_depth + 1;
        }
    } else if st.stack.len() >= MAX_TREE_DEPTH {
        st.diagnostics.push(
            Diagnostic {
                code: DiagCode::NestingLimitExceeded,
                span: Some(ByteSpan { start: start as u32, end: end as u32 }),
                message: "element nesting exceeded 2048 levels; deeper subtree dropped to bound the tree's own depth".to_owned(),
            },
        );
        proof { assert(st.diagnostics@.drop_last() =~= old(st).diagnostics@); }
        st.suppressed_depth = 1;
    } else {
        let attrs = scan_attrs_for_tag(source, start, end, &mut st.diagnostics);
        let ghost before = st.stack@;
        st.stack.push(OpenTag { name, start: start as u32, attrs, children: Vec::new() });
        proof {
            let src = bytes_of(source);
            assert(st.stack@.drop_last() =~= before);
            assert forall|i: int| 0 <= i < st.stack@.len() implies #[trigger] open_tag_grounded(src, st.stack@[i]) && st.stack@[i].start <= end as u32 by {
                if i < before.len() {
                    assert(st.stack@[i] == before[i]);
                }
            }
        }
    }
    proof {
        if tree_codes(old(st).diagnostics@) && old(st).suppressed_depth == 0 {
            if old(st).stack@.len() >= MAX_TREE_DEPTH {
                lemma_tree_codes_one_more(old(st).diagnostics@, st.diagnostics@);
            } else {
                lemma_tree_codes_tag(old(st).diagnostics@, st.diagnostics@);
            }
        }
    }
}

/// A self-closing tag `[start, end)`: a complete element with no children.
fn on_empty(st: &mut TreeState, source: &str, name: String, start: usize, end: usize)
    requires
        bytes_of(source).len() <= u32::MAX,
        start <= end <= bytes_of(source).len(),
        state_ok(*old(st), bytes_of(source), start as int),
    ensures
        tree_codes(old(st).diagnostics@) ==> tree_codes(final(st).diagnostics@),
        state_ok(*final(st), bytes_of(source), end as int),
        final(st).pending == old(st).pending,
        final(st).suppressed_depth == old(st).suppressed_depth,
        old(st).suppressed_depth > 0 ==> {
            &&& final(st).stack@ == old(st).stack@
            &&& final(st).root == old(st).root
            &&& final(st).diagnostics@ == old(st).diagnostics@
        },
        old(st).suppressed_depth == 0 && old(st).stack@.len() >= MAX_TREE_DEPTH ==> {
            &&& final(st).stack@ == old(st).stack@
            &&& final(st).root == old(st).root
            &&& depth_cut(old(st).diagnostics@, final(st).diagnostics@, start, end, "element nesting exceeded 2048 levels; element dropped to bound the tree's own depth"@)
        },
        old(st).suppressed_depth == 0 && old(st).stack@.len() < MAX_TREE_DEPTH ==> {
            &&& exists|e: XmlElement|
                empty_element(e, name@, start, end, bytes_of(source)) && attached(
                    old(st).stack@,
                    old(st).root,
                    e,
                    final(st).stack@,
                    final(st).root,
                )
            &&& tag_diags(old(st).diagnostics@, final(st).diagnostics@)
            &&& toks_reported(
                bytes_of(source),
                attr_tokens(bytes_of(source), attrs_begin(bytes_of(source), start as int, end as int), end as int),
                old(st).diagnostics@,
                final(st).diagnostics@,
            )
        },
{
    let ghost src = bytes_of(source);
    proof { lemma_state_later(*st, src, start as int, end as int); }
    if st.suppressed_depth == 0 {
        if st.stack.len() >= MAX_TREE_DEPTH {
            st.diagnostics.push(
                Diagnostic {
                    code: DiagCode::NestingLimitExceeded,
                    span: Some(ByteSpan { start: start as u32, end: end as u32 }),
                    message: "element nesting exceeded 2048 levels; element dropped to bound the tree's own depth".to_owned(),
                },
            );
            proof { assert(st.diagnostics@.drop_last() =~= old(st).diagnostics@); }
        } else {
            let attrs = scan_attrs_for_tag(source, start, end, &mut st.diagnostics);
            let element = XmlElement {
                name,
                span: ByteSpan { start: start as u32, end: end as u32 },
                attrs,
                children: Vec::new(),
            };
            let ghost e = element;
            let ghost old_stack = st.stack@;
            let ghost old_root = st.root;
            push_completed(element, &mut st.stack, &mut st.root);
            proof {
                assert(empty_element(e, e.name@, start, end, src));
                lemma_element_node_grounded(src, e);
                lemma_attached_grounded(src, old_stack, old_root, e, st.stack@, st.root);
                assert forall|i: int| 0 <= i < st.stack@.len() implies #[trigger] st.stack@[i].start <= end as u32 by {
                    if i < old_stack.len() - 1 || old_stack.len() == 0 {
                        assert(st.stack@[i] == old_stack[i]);
                    }
                    assert(st.stack@[i].start == old_stack[i].start);
                }
            }
        }
    }
    proof {
        if tree_codes(old(st).diagnostics@) && old(st).suppressed_depth == 0 {
            if old(st).stack@.len() >= MAX_TREE_DEPTH {
                lemma_tree_codes_one_more(old(st).diagnostics@, st.diagnostics@);
            } else {
                lemma_tree_codes_tag(old(st).diagnostics@, st.diagnostics@);
            }
        }
    }
}

/// A closing tag `[start, end)`: ends one level of a dropped subtree, or
/// applies recovery rules 1 and 2.
fn on_end(st: &mut TreeState, source: &str, name: String, start: usize, end: usize)
    requires
        bytes_of(source).len() <= u32::MAX,
        start <= end <= bytes_of(source).len(),
        state_ok(*old(st), bytes_of(source), start as int),
    ensures
        tree_codes(old(st).diagnostics@) ==> tree_codes(final(st).diagnostics@),
        state_ok(*final(st), bytes_of(source), end as int),
        final(st).pending == old(st).pending,
        old(st).suppressed_depth > 0 ==> {
            &&& final(st).suppressed_depth == old(st).suppressed_depth - 1
            &&& final(st).stack@ == old(st).stack@
            &&& final(st).root == old(st).root
            &&& final(st).diagnostics@ == old(st).diagnostics@
        },
        old(st).suppressed_depth == 0 ==> {
            &&& final(st).suppressed_depth == 0
            &&& closed_by(
                old(st).stack@,
                old(st).root,
                old(st).diagnostics@,
                name@,
                start as u32,
                end as u32,
                final(st).stack@,
                final(st).root,
                final(st).diagnostics@,
            )
        },
{
    let ghost src = bytes_of(source);
    if st.suppressed_depth > 0 {
        st.suppressed_depth = st.suppressed_depth - 1;
        proof { lemma_state_later(*st, src, start as int, end as int); }
    } else {
        let ghost old_stack = st.stack@;
        let ghost old_root = st.root;
        close_tag(name.as_str(), start as u32, end as u32, &mut st.stack, &mut st.root, &mut st.diagnostics);
        proof {
            lemma_innermost_open_bounds(old_stack, name@);
            let d = innermost_open(old_stack, name@);
            if d == -1 {
                lemma_state_later(*st, src, start as int, end as int);
            } else {
                let x = choose|x: XmlElement|
                    closes_chain(XmlNode::Element(x), old_stack, d, end as u32, start as u32)
                        && attached(old_stack.take(d), old_root, x, st.stack@, st.root);
                lemma_chain_grounded(src, XmlNode::Element(x), old_stack, d, end as u32, start as u32);
                lemma_element_node_grounded(src, x);
                let pre = old_stack.take(d);
                assert(stack_grounded(src, pre)) by {
                    assert forall|i: int| 0 <= i < pre.len() implies #[trigger] open_tag_grounded(src, pre[i]) by {
                        assert(pre[i] == old_stack[i]);
                    }
                }
                lemma_attached_grounded(src, pre, old_root, x, st.stack@, st.root);
                assert forall|i: int| 0 <= i < st.stack@.len() implies #[trigger] st.stack@[i].start <= end as u32 by {
                    assert(pre[i] == old_stack[i]);
                    assert(st.stack@[i].start == pre[i].start);
                }
            }
        }
    }
    proof {
        if tree_codes(old(st).diagnostics@) && old(st).suppressed_depth == 0 {
            lemma_tree_codes_closed(
                old(st).stack@,
                old(st).root,
                old(st).diagnostics@,
                name@,
                start as u32,
                end as u32,
                st.stack@,
                st.root,
                st.diagnostics@,
            );
        }
    }
}

/// A text-like run `raw_span` (text, entity reference, or CDATA content):
/// entity check (not for CDATA), placeholder bookkeeping, and attachment
/// to the innermost open element.
fn on_text(st: &mut TreeState, source: &str, raw_span: ByteSpan, check_entity_refs: bool, pos: usize)
    requires
        bytes_of(source).len() <= u32::MAX,
        raw_span.end <= pos <= bytes_of(source).len(),
        state_ok(*old(st), bytes_of(source), pos as int),
    ensures
        tree_codes(old(st).diagnostics@) ==> tree_codes(final(st).diagnostics@),
        state_ok(*final(st), bytes_of(source), pos as int),
        final(st).root == old(st).root,
        final(st).suppressed_depth == old(st).suppressed_depth,
        old(st).suppressed_depth > 0 || !sliceable(bytes_of(source), raw_span.start as int, raw_span.end as int) ==> {
            &&& final(st).stack@ == old(st).stack@
            &&& final(st).pending == old(st).pending
            &&& final(st).diagnostics@ == old(st).diagnostics@
        },
        old(st).suppressed_depth == 0 && sliceable(bytes_of(source), raw_span.start as int, raw_span.end as int) ==> {
            let src = bytes_of(source);
            &&& text_attached(
                old(st).stack@,
                final(st).stack@,
                text_of(src, raw_span.start as int, raw_span.end as int),
                raw_span,
            )
            &&& exists|d: Seq<Diagnostic>|
                entities_checked(
                    check_entity_refs,
                    old(st).diagnostics@,
                    d,
                    src.subrange(raw_span.start as int, raw_span.end as int),
                    raw_span.start as int,
                ) && pending_extended(old(st).pending, raw_span, src, d, final(st).pending, final(st).diagnostics@)
        },
{
    let ghost src = bytes_of(source);
    if st.suppressed_depth > 0 {
        return ;
    }
    match slice_text(source, raw_span.start as usize, raw_span.end as usize) {
        None => {},
        Some(raw_text) => {
            let ghost d0 = st.diagnostics@;
            if check_entity_refs {
                check_entities(raw_text.as_str(), raw_span, &mut st.diagnostics);
            }
            let ghost d1 = st.diagnostics@;
            proof {
                assert(entities_checked(
                    check_entity_refs,
                    d0,
                    d1,
                    src.subrange(raw_span.start as int, raw_span.end as int),
                    raw_span.start as int,
                ));
            }
            extend_pending_placeholder_span(&mut st.pending, raw_span, source, &mut st.diagnostics);
            let ghost old_stack = st.stack@;
            let ghost t = Spanned { value: raw_text, span: raw_span };
            push_text(raw_text, raw_span, &mut st.stack);
            proof {
                assert(grounded_text(src, t));
                if old_stack.len() > 0 {
                    let k = old_stack.len() - 1;
                    assert(st.stack@[k].children@.drop_last() =~= old_stack[k].children@);
                }
                assert(text_attached(old_stack, st.stack@, text_of(src, raw_span.start as int, raw_span.end as int), raw_span));
                assert(pending_extended(old(st).pending, raw_span, src, d1, st.pending, st.diagnostics@));
                if tree_codes(d0) {
                    lemma_tree_codes_entities(
                        check_entity_refs,
                        d0,
                        d1,
                        src.subrange(raw_span.start as int, raw_span.end as int),
                        raw_span.start as int,
                    );
                    lemma_tree_codes_pending(old(st).pending, raw_span, src, d1, st.pending, st.diagnostics@);
                }
                if old_stack.len() > 0 {
                    let k = old_stack.len() - 1;
                    assert(open_tag_grounded(src, old_stack[k]));
                    assert forall|i: int| 0 <= i < st.stack@.len() implies #[trigger] open_tag_grounded(src, st.stack@[i]) && st.stack@[i].start <= pos as u32 by {
                        if i < k {
                            assert(st.stack@[i] == old_stack[i]);
                        } else {
                            let ch = st.stack@[k].children@;
                            assert forall|j: int| 0 <= j < ch.len() implies #[trigger] node_grounded(src, ch[j]) by {
                                if j < ch.len() - 1 {
                                    assert(ch[j] == old_stack[k].children@[j]);
                                }
                            }
                        }
                    }
                }
            }
        },
    }
}

/// One event keeps the tree nested: whatever it attaches lies between the
/// start of the innermost open tag and the end of the event.
proof fn lemma_step_nested(src: Seq<u8>, ev: EventView, start: int, end: int, s: TreeModel, t: TreeModel)
    requires
        event_step(src, ev, start, end, s, t),
        0 <= start <= end <= u32::MAX,
        stack_nested(s.0, start),
        starts_before(s.0, start as u32),
        root_nested(s.1),
    ensures
        stack_nested(t.0, end),
        root_nested(t.1),
{
    lemma_nested_later(s.0, start, end);
    match ev {
        EventView::Start(nm) => {
            if s.3 == 0 && s.0.len() < MAX_TREE_DEPTH {
                assert(t.0.drop_last() == s.0);
                assert forall|i: int| 0 <= i < t.0.len() implies #[trigger] open_nested(t.0[i], end) by {
                    if i < s.0.len() {
                        assert(t.0[i] == t.0.drop_last()[i]);
                    }
                }
                assert forall|i: int, j: int| 0 <= i <= j < t.0.len() implies #[trigger] t.0[i].start
                    <= #[trigger] t.0[j].start by {
                    if i < s.0.len() {
                        assert(t.0[i] == t.0.drop_last()[i]);
                        assert(s.0[i].start <= start);
                    }
                    if j < s.0.len() {
                        assert(t.0[j] == t.0.drop_last()[j]);
                        assert(s.0[i].start <= s.0[j].start);
                    }
                }
            }
        },
        EventView::Empty(nm) => {
            if s.3 == 0 && s.0.len() < MAX_TREE_DEPTH {
                let e = choose|e: XmlElement|
                    empty_element(e, nm, start as usize, end as usize, src) && attached(s.0, s.1, e, t.0, t.1);
                assert(node_nested(XmlNode::Element(e)));
                if s.0.len() > 0 {
                    assert(s.0[s.0.len() - 1].start <= start);
                }
                lemma_attached_nested(s.0, s.1, e, t.0, t.1, end);
            }
        },
        EventView::End(nm) => {
            if s.3 == 0 {
                lemma_innermost_open_bounds(s.0, nm);
                let d = innermost_open(s.0, nm);
                if d != -1 {
                    let x = choose|x: XmlElement|
                        closes_chain(XmlNode::Element(x), s.0, d, end as u32, start as u32) && attached(
                            s.0.take(d),
                            s.1,
                            x,
                            t.0,
                            t.1,
                        );
                    lemma_chain_nested(XmlNode::Element(x), s.0, d, end as u32, start as u32);
                    let pre = s.0.take(d);
                    assert(stack_nested(pre, end)) by {
                        assert forall|i: int| 0 <= i < pre.len() implies #[trigger] open_nested(pre[i], end) by {
                            assert(pre[i] == s.0[i]);
                        }
                        assert forall|i: int, j: int| 0 <= i <= j < pre.len() implies #[trigger] pre[i].start
                            <= #[trigger] pre[j].start by {
                            assert(pre[i] == s.0[i]);
                            assert(pre[j] == s.0[j]);
                            assert(s.0[i].start <= s.0[j].start);
                        }
                    }
                    if d > 0 {
                        assert(pre.last() == s.0[d - 1]);
                        assert(s.0[d - 1].start <= s.0[d].start);
                    }
                    lemma_attached_nested(pre, s.1, x, t.0, t.1, end);
                }
            }
        },
        EventView::Text => {
            let sp = ByteSpan { start: start as u32, end: end as u32 };
            if s.3 == 0 && sliceable(src, sp.start as int, sp.end as int) {
                if s.0.len() > 0 {
                    assert(s.0[s.0.len() - 1].start <= start);
                }
                lemma_text_nested(s.0, t.0, text_of(src, sp.start as int, sp.end as int), sp, end);
            }
        },
        EventView::GeneralRef => {
            let sp = ByteSpan { start: start as u32, end: end as u32 };
            if s.3 == 0 && sliceable(src, sp.start as int, sp.end as int) {
                if s.0.len() > 0 {
                    assert(s.0[s.0.len() - 1].start <= start);
                }
                lemma_text_nested(s.0, t.0, text_of(src, sp.start as int, sp.end as int), sp, end);
            }
        },
        EventView::CData => {
            let sp = cdata_inner(start, end);
            if s.3 == 0 && sliceable(src, sp.start as int, sp.end as int) {
                if s.0.len() > 0 {
                    assert(s.0[s.0.len() - 1].start <= start);
                }
                lemma_text_nested(s.0, t.0, text_of(src, sp.start as int, sp.end as int), sp, end);
            }
        },
        _ => {},
    }
}

/// Closing everything at the end keeps the tree nested.
proof fn lemma_finished_nested(src: Seq<u8>, s: TreeModel, root: Option<XmlElement>, diags: Seq<Diagnostic>)
    requires
        tree_finished(src, s, root, diags),
        src.len() <= u32::MAX,
        stack_nested(s.0, src.len() as int),
        starts_before(s.0, src.len() as u32),
        root_nested(s.1),
    ensures
        root_nested(root),
{
    let (d, stack) = choose|d: Seq<Diagnostic>, stack: Seq<OpenTag>|
        pending_flushed(s.4, src, s.2, d) && #[trigger] eof_closed(s.0, s.1, d, src.len() as u32, stack, root, diags);
    if s.0.len() > 0 {
        let x = choose|x: XmlElement|
            closes_chain(XmlNode::Element(x), s.0, 0, src.len() as u32, src.len() as u32) && root == (if s.1 is None {
                Some(x)
            } else {
                s.1
            });
        lemma_chain_nested(XmlNode::Element(x), s.0, 0, src.len() as u32, src.len() as u32);
    }
}

/// One event from state `s` to `t` keeps the first tag's element as the
/// head of the tree: found before, it stays found; not found yet (nothing
/// open, no root, nothing dropped), the event is that tag or leaves the
/// state as empty as it was.
proof fn lemma_step_head(
    src: Seq<u8>,
    ev: EventView,
    start: int,
    end: int,
    s: TreeModel,
    t: TreeModel,
    ft: Option<(Seq<char>, int, int)>,
    nf: bool,
)
    requires
        event_step(src, ev, start, end, s, t),
        0 <= start <= end <= u32::MAX,
        nf ==> s.0.len() == 0 && s.1 is None && s.3 == 0,
        !nf ==> (ft matches Some(tg) && head_found(src, tg, s.0, s.1)),
        nf && (ev is Start || ev is Empty) ==> ft == Some((
            match ev {
                EventView::Start(nm) => nm,
                EventView::Empty(nm) => nm,
                _ => Seq::empty(),
            },
            start,
            end,
        )),
    ensures
        nf && !(ev is Start || ev is Empty) ==> t.0.len() == 0 && t.1 is None && t.3 == 0,
        !(nf && !(ev is Start || ev is Empty)) ==> (ft matches Some(tg) && head_found(src, tg, t.0, t.1)),
{
    match ev {
        EventView::Start(nm) => {
            if nf {
                assert(t.0[0] == t.0.last());
            } else {
                let tg = ft->0;
                if s.0.len() > 0 && s.3 == 0 && s.0.len() < MAX_TREE_DEPTH {
                    assert(t.0[0] == t.0.drop_last()[0]);
                }
                lemma_head_kept(src, tg, s.0, s.1, t.0, t.1);
            }
        },
        EventView::Empty(nm) => {
            if !nf {
                let tg = ft->0;
                if s.3 == 0 && s.0.len() < MAX_TREE_DEPTH {
                    let e = choose|e: XmlElement|
                        empty_element(e, nm, start as usize, end as usize, src) && attached(s.0, s.1, e, t.0, t.1);
                    lemma_head_attached(src, tg, s.0, s.1, e, t.0, t.1);
                } else {
                    lemma_head_kept(src, tg, s.0, s.1, t.0, t.1);
                }
            }
        },
        EventView::End(nm) => {
            if nf {
                assert(innermost_open(s.0, nm) == -1);
            } else {
                let tg = ft->0;
                if s.3 == 0 {
                    lemma_head_closed(src, tg, s.0, s.1, s.2, nm, start as u32, end as u32, t.0, t.1, t.2);
                } else {
                    lemma_head_kept(src, tg, s.0, s.1, t.0, t.1);
                }
            }
        },
        EventView::Text => {
            let sp = ByteSpan { start: start as u32, end: end as u32 };
            if s.3 == 0 && sliceable(src, sp.start as int, sp.end as int) {
                assert(text_attached(s.0, t.0, text_of(src, sp.start as int, sp.end as int), sp));
            }
            lemma_text_head(src, nf, s.0, s.1, s.3, t.0, t.1);
        },
        EventView::GeneralRef => {
            let sp = ByteSpan { start: start as u32, end: end as u32 };
            if s.3 == 0 && sliceable(src, sp.start as int, sp.end as int) {
                assert(text_attached(s.0, t.0, text_of(src, sp.start as int, sp.end as int), sp));
            }
            lemma_text_head(src, nf, s.0, s.1, s.3, t.0, t.1);
        },
        EventView::CData => {
            let sp = cdata_inner(start, end);
            if s.3 == 0 && sliceable(src, sp.start as int, sp.end as int) {
                assert(text_attached(s.0, t.0, text_of(src, sp.start as int, sp.end as int), sp));
            }
            lemma_text_head(src, nf, s.0, s.1, s.3, t.0, t.1);
        },
        _ => {},
    }
}

/// Reading on from a state with nothing found yet and the first tag ahead
/// being `ft`, or with `ft`'s element already found, ends with `ft`'s
/// element as the root.
proof fn lemma_built_head(
    src: Seq<u8>,
    base: int,
    pos: int,
    k: nat,
    s: TreeModel,
    root: Option<XmlElement>,
    diags: Seq<Diagnostic>,
    ft: Option<(Seq<char>, int, int)>,
)
    requires
        0 <= base,
        0 <= pos,
        base + pos <= src.len(),
        src.len() <= u32::MAX,
        built_from(src, base, pos, k, s, root, diags),
        (s.0.len() == 0 && s.1 is None && s.3 == 0 && first_tag_from(src, base, pos, k) == ft) || (ft matches Some(
            tg,
        ) && head_found(src, tg, s.0, s.1)),
    ensures
        root_is_first(src, root, ft),
    decreases src.len() - base, src.len() - base - pos,
{
    let nf = s.0.len() == 0 && s.1 is None && s.3 == 0 && first_tag_from(src, base, pos, k) == ft;
    let w = src.subrange(base, src.len() as int);
    let wlen = src.len() - base;
    let ev = tree_event(w, k);
    let after = tree_event_end(w, k + 1);
    if ev is Eof || (!(ev is Malformed) && (after > wlen || after <= pos)) {
        let (d, stack) = choose|d: Seq<Diagnostic>, stack: Seq<OpenTag>|
            pending_flushed(s.4, src, s.2, d) && #[trigger] eof_closed(s.0, s.1, d, src.len() as u32, stack, root, diags);
        if !nf {
            lemma_head_eof(src, ft->0, s.0, s.1, d, src.len() as u32, stack, root, diags);
        }
    } else if ev is Malformed {
        match resync_at(src, base, pos, tree_error_pos(w, k + 1)) {
            Some(kk) => {
                lemma_built_head(src, kk, 0, 0, s, root, diags, ft);
            },
            None => {
                let (d, stack) = choose|d: Seq<Diagnostic>, stack: Seq<OpenTag>|
                    pending_flushed(s.4, src, s.2, d) && #[trigger] eof_closed(s.0, s.1, d, src.len() as u32, stack, root, diags);
                if !nf {
                    lemma_head_eof(src, ft->0, s.0, s.1, d, src.len() as u32, stack, root, diags);
                }
            },
        }
    } else {
        let t = choose|t: TreeModel|
            #[trigger] event_step(src, ev, base + pos, base + after, s, t) && built_from(src, base, after, k + 1, t, root, diags);
        lemma_step_head(src, ev, base + pos, base + after, s, t, ft, nf);
        lemma_built_head(src, base, after, k + 1, t, root, diags, ft);
    }
}

/// The root of a tree `tree_of` gives is the element of the text's first
/// tag, or there is none when the text has no tag.
pub proof fn law_tree_root_is_first_tag(src: Seq<u8>, root: Option<XmlElement>, diags: Seq<Diagnostic>)
    requires
        src.len() <= u32::MAX,
        tree_of(src, root, diags),
    ensures
        root_is_first(src, root, first_tag(src)),
{
    lemma_bom_end_bounds(src, 0);
    lemma_built_head(src, bom_end(src, 0), 0, 0, tree_start(), root, diags, first_tag(src));
}

proof fn lemma_bom_end_bounds(src: Seq<u8>, base: int)
    requires
        0 <= base <= src.len(),
    ensures
        base <= bom_end(src, base) <= src.len(),
    decreases src.len() - base,
{
    if src.len() >= 3 && base <= src.len() - 3 && src[base] == 0xEFu8 && src[base + 1] == 0xBBu8
        && src[base + 2] == 0xBFu8 && is_char_boundary(src, base + 3) {
        lemma_bom_end_bounds(src, base + 3);
    }
}

/// One event keeps the tree within `MAX_TREE_DEPTH` levels.
proof fn lemma_step_within(src: Seq<u8>, ev: EventView, start: int, end: int, s: TreeModel, t: TreeModel)
    requires
        event_step(src, ev, start, end, s, t),
        0 <= start <= end <= u32::MAX,
        stack_within(s.0),
        root_within(s.1, MAX_TREE_DEPTH as int),
    ensures
        stack_within(t.0),
        root_within(t.1, MAX_TREE_DEPTH as int),
{
    match ev {
        EventView::Start(nm) => {
            if s.3 == 0 && s.0.len() < MAX_TREE_DEPTH {
                assert(t.0.drop_last() == s.0);
                assert forall|i: int, j: int|
                    0 <= i < t.0.len() && 0 <= j < t.0[i].children@.len() implies within_depth(
                    #[trigger] t.0[i].children@[j],
                    MAX_TREE_DEPTH - i - 1,
                ) by {
                    assert(i < s.0.len());
                    assert(t.0[i] == t.0.drop_last()[i]);
                }
            }
        },
        EventView::Empty(nm) => {
            if s.3 == 0 && s.0.len() < MAX_TREE_DEPTH {
                let e = choose|e: XmlElement|
                    empty_element(e, nm, start as usize, end as usize, src) && attached(s.0, s.1, e, t.0, t.1);
                assert(within_depth(XmlNode::Element(e), MAX_TREE_DEPTH - s.0.len()));
                lemma_attached_within(s.0, s.1, e, t.0, t.1);
            }
        },
        EventView::End(nm) => {
            if s.3 == 0 {
                lemma_innermost_open_bounds(s.0, nm);
                let d = innermost_open(s.0, nm);
                if d != -1 {
                    let x = choose|x: XmlElement|
                        closes_chain(XmlNode::Element(x), s.0, d, end as u32, start as u32) && attached(
                            s.0.take(d),
                            s.1,
                            x,
                            t.0,
                            t.1,
                        );
                    lemma_chain_within(XmlNode::Element(x), s.0, d, end as u32, start as u32);
                    let pre = s.0.take(d);
                    assert(stack_within(pre)) by {
                        assert forall|i: int, j: int|
                            0 <= i < pre.len() && 0 <= j < pre[i].children@.len() implies within_depth(
                            #[trigger] pre[i].children@[j],
                            MAX_TREE_DEPTH - i - 1,
                        ) by {
                            assert(pre[i] == s.0[i]);
                        }
                    }
                    lemma_attached_within(pre, s.1, x, t.0, t.1);
                }
            }
        },
        EventView::Text => {
            let sp = ByteSpan { start: start as u32, end: end as u32 };
            if s.3 == 0 && sliceable(src, sp.start as int, sp.end as int) {
                lemma_text_within(s.0, t.0, text_of(src, sp.start as int, sp.end as int), sp);
            }
        },
        EventView::GeneralRef => {
            let sp = ByteSpan { start: start as u32, end: end as u32 };
            if s.3 == 0 && sliceable(src, sp.start as int, sp.end as int) {
                lemma_text_within(s.0, t.0, text_of(src, sp.start as int, sp.end as int), sp);
            }
        },
        EventView::CData => {
            let sp = cdata_inner(start, end);
            if s.3 == 0 && sliceable(src, sp.start as int, sp.end as int) {
                lemma_text_within(s.0, t.0, text_of(src, sp.start as int, sp.end as int), sp);
            }
        },
        _ => {},
    }
}

/// Closing everything at the end keeps the tree within its levels.
proof fn lemma_finished_within(src: Seq<u8>, s: TreeModel, root: Option<XmlElement>, diags: Seq<Diagnostic>)
    requires
        tree_finished(src, s, root, diags),
        stack_within(s.0),
        root_within(s.1, MAX_TREE_DEPTH as int),
    ensures
        root_within(root, MAX_TREE_DEPTH as int),
{
    let (d, stack) = choose|d: Seq<Diagnostic>, stack: Seq<OpenTag>|
        pending_flushed(s.4, src, s.2, d) && #[trigger] eof_closed(s.0, s.1, d, src.len() as u32, stack, root, diags);
    if s.0.len() > 0 {
        let x = choose|x: XmlElement|
            closes_chain(XmlNode::Element(x), s.0, 0, src.len() as u32, src.len() as u32) && root == (if s.1 is None {
                Some(x)
            } else {
                s.1
            });
        lemma_chain_within(XmlNode::Element(x), s.0, 0, src.len() as u32, src.len() as u32);
    }
}

/// End of input met in state `m`: the events read on from there end with
/// what closing everything gives.
proof fn lemma_finished(
    src: Seq<u8>,
    m: TreeModel,
    base: int,
    pos: int,
    k: nat,
    stack: Seq<OpenTag>,
    root: Option<XmlElement>,
    diags: Seq<Diagnostic>,
)
    requires
        0 <= base,
        0 <= pos,
        base + pos <= src.len(),
        exists|d: Seq<Diagnostic>| pending_flushed(m.4, src, m.2, d) && eof_closed(m.0, m.1, d, src.len() as u32, stack, root, diags),
        ({
            let w = src.subrange(base, src.len() as int);
            let ev = tree_event(w, k);
            let after = tree_event_end(w, k + 1);
            ||| ev is Eof
            ||| (!(ev is Malformed) && (after > src.len() - base || after <= pos))
            ||| (ev is Malformed && resync_at(src, base, pos, tree_error_pos(w, k + 1)) is None)
        }),
    ensures
        built_from(src, base, pos, k, m, root, diags),
{
    let d = choose|d: Seq<Diagnostic>| pending_flushed(m.4, src, m.2, d) && eof_closed(m.0, m.1, d, src.len() as u32, stack, root, diags);
    assert(eof_closed(m.0, m.1, d, src.len() as u32, stack, root, diags));
    assert(tree_finished(src, m, root, diags));
}

/// Builds the element tree of `source` from the tokenizer's events,
/// applying the recovery rules (`tree_of`). A leading byte-order mark is
/// skipped, and markup the tokenizer cannot read is skipped up to the next
/// `<` with a fresh tokenizer. The root is the element of the first tag.
/// Every attribute and text value in the result, at any depth, is exactly
/// the source text at its span; every child lies inside its parent's span;
/// every diagnostic has a span; no element nests deeper than
/// `MAX_TREE_DEPTH` levels.
pub fn build_tree(source: &str) -> (r: TreeResult)
    requires
        bytes_of(source).len() <= u32::MAX,
    ensures
        root_grounded(bytes_of(source), r.root),
        root_is_first(bytes_of(source), r.root, first_tag(bytes_of(source))),
        tree_of(bytes_of(source), r.root, r.diagnostics@),
        tree_codes(r.diagnostics@),
        bytes_of(source).len() == 0 ==> r.root is None && r.diagnostics@.len() == 0,
        root_nested(r.root),
        root_within(r.root, MAX_TREE_DEPTH as int),
{
    let ghost src = bytes_of(source);
    let bytes = source.as_bytes();
    let n = bytes.len();
    let mut base: usize = 0;
    proof { lemma_str_valid(source); }
    while n >= 3 && base <= n - 3 && bytes[base] == 0xEFu8 && bytes[base + 1] == 0xBBu8 && bytes[base + 2] == 0xBFu8
        invariant
            base <= n,
            n == src.len(),
            bytes@ == src,
            src == bytes_of(source),
            vstd::utf8::valid_utf8(src),
            is_char_boundary(src, base as int),
            bom_end(src, base as int) == bom_end(src, 0),
        ensures
            bom_end(src, base as int) == base,
        decreases n - base,
    {
        let ok = source.is_char_boundary(base + 3);
        if !ok {
            break;
        }
        base = base + 3;
    }
    let (_, mut working) = source.split_at(base);
    let mut reader = open_reader(working);
    let mut st = TreeState {
        stack: Vec::new(),
        root: None,
        diagnostics: Vec::new(),
        suppressed_depth: 0,
        pending: None,
    };
    proof {
        assert(st.stack@ =~= Seq::<OpenTag>::empty());
        assert(st.diagnostics@ =~= Seq::<Diagnostic>::empty());
        assert(model_of(st) == tree_start());
    }
    let mut pos: usize = 0;
    loop
        invariant_except_break
            state_ok(st, src, (base + pos) as int),
            tree_codes(st.diagnostics@),
            (st.stack@.len() == 0 && st.root is None && st.suppressed_depth == 0 && first_tag_from(
                src,
                base as int,
                pos as int,
                reader.count(),
            ) == first_tag(src)) || (first_tag(src) matches Some(t) && head_found(src, t, st.stack@, st.root)),
            forall|rt: Option<XmlElement>, ds: Seq<Diagnostic>|
                built_from(src, base as int, pos as int, reader.count(), model_of(st), rt, ds) ==> #[trigger] tree_of(
                    src,
                    rt,
                    ds,
                ),
            src.len() == 0 ==> st.stack@.len() == 0 && st.root is None && st.diagnostics@.len() == 0 && st.pending is None,
            stack_nested(st.stack@, (base + pos) as int),
            root_nested(st.root),
            stack_within(st.stack@),
            root_within(st.root, MAX_TREE_DEPTH as int),
        invariant
            n == src.len(),
            src == bytes_of(source),
            bytes@ == src,
            src.len() <= u32::MAX,
            base + pos <= n,
            bytes_of(working) == src.subrange(base as int, n as int),
            reader.text() == src.subrange(base as int, n as int),
            reader.dangling_amp(),
            !reader.end_names(),
            reader.unmatched_ends(),
        ensures
            root_grounded(src, st.root),
            tree_codes(st.diagnostics@),
            root_is_first(src, st.root, first_tag(src)),
            tree_of(src, st.root, st.diagnostics@),
            src.len() == 0 ==> st.root is None && st.diagnostics@.len() == 0,
            root_nested(st.root),
            root_within(st.root, MAX_TREE_DEPTH as int),
        decreases n - base, n - base - pos,
    {
        let start = base + pos;
        let ghost k0 = reader.count();
        let ghost w = src.subrange(base as int, n as int);
        let ghost nf = st.stack@.len() == 0 && st.root is None && st.suppressed_depth == 0;
        let ghost old_stack = st.stack@;
        let ghost old_root = st.root;
        let ghost old_diags = st.diagnostics@;
        let ghost old_sup = st.suppressed_depth;
        let ghost old_pending = st.pending;
        let ghost m0 = model_of(st);
        let event = next_event(&mut reader);
        let after = reader_position(&reader);
        let wlen = n - base;
        let is_eof = match event {
            RawEvent::Eof => true,
            _ => false,
        };
        let is_malformed = match event {
            RawEvent::Malformed => true,
            _ => false,
        };
        proof {
            assert(event@ == tree_event(w, k0));
            assert(after as int == tree_event_end(w, (k0 + 1) as nat));
            assert(is_eof == (tree_event(w, k0) is Eof));
            assert(is_malformed == (tree_event(w, k0) is Malformed));
        }
        if is_eof || (!is_malformed && (after > wlen as u64 || after <= pos as u64)) {
            // End of input, or a position that cannot belong to this text.
            proof {
                lemma_state_later(st, src, start as int, n as int);
                if nf {
                    assert(first_tag_from(src, base as int, pos as int, k0) is None);
                }
            }
            finish_at_eof(&mut st, source);
            proof {
                if !nf {
                    let t = first_tag(src)->0;
                    let d = choose|d: Seq<Diagnostic>|
                        pending_flushed(old_pending, src, old_diags, d) && eof_closed(
                            old_stack,
                            old_root,
                            d,
                            src.len() as u32,
                            st.stack@,
                            st.root,
                            st.diagnostics@,
                        );
                    lemma_head_eof(src, t, old_stack, old_root, d, src.len() as u32, st.stack@, st.root, st.diagnostics@);
                }
                let d0 = choose|d: Seq<Diagnostic>|
                    pending_flushed(old_pending, src, old_diags, d) && eof_closed(old_stack, old_root, d, src.len() as u32, st.stack@, st.root, st.diagnostics@);
                assert(pending_flushed(m0.4, src, m0.2, d0) && eof_closed(m0.0, m0.1, d0, src.len() as u32, st.stack@, st.root, st.diagnostics@));
                lemma_finished(src, m0, base as int, pos as int, k0, st.stack@, st.root, st.diagnostics@);
                lemma_nested_later(m0.0, start as int, n as int);
                lemma_finished_nested(src, m0, st.root, st.diagnostics@);
                lemma_finished_within(src, m0, st.root, st.diagnostics@);
            }
            break;
        }
        if is_malformed {
            let err_pos = reader_error_position(&reader);
            let mut search_from: usize = if err_pos >= wlen as u64 { wlen } else { err_pos as usize + 1 };
            if search_from <= pos {
                search_from = if pos < wlen { pos + 1 } else { wlen };
            }
            if search_from > wlen {
                search_from = wlen;
            }
            proof {
                assert(search_from as int == search_start(tree_error_pos(w, (k0 + 1) as nat), pos as int, wlen as int));
            }
            let mut k = base + search_from;
            while k < n && bytes[k] != 0x3Cu8
                invariant
                    base + search_from <= k <= n,
                    n == bytes@.len(),
                    next_lt(bytes@, k as int) == next_lt(bytes@, (base + search_from) as int),
                decreases n - k,
            {
                k += 1;
            }
            proof {
                assert(next_lt(bytes@, k as int) == k);
            }
            if k < n && k > base + pos && source.is_char_boundary(k) {
                proof {
                    lemma_state_later(st, src, start as int, k as int);
                    assert(resync_at(src, base as int, pos as int, tree_error_pos(w, (k0 + 1) as nat)) == Some(k as int));
                    if nf {
                        assert(first_tag_from(src, base as int, pos as int, k0) == first_tag_from(src, k as int, 0, 0));
                    }
                    lemma_nested_later(st.stack@, start as int, k as int);
                    assert forall|rt: Option<XmlElement>, ds: Seq<Diagnostic>|
                        built_from(src, k as int, 0, 0, m0, rt, ds) implies #[trigger] tree_of(src, rt, ds) by {
                        assert(built_from(src, base as int, pos as int, k0, m0, rt, ds) == built_from(src, k as int, 0, 0, m0, rt, ds));
                    }
                }
                let (_, rest) = source.split_at(k);
                working = rest;
                base = k;
                pos = 0;
                reader = open_reader(working);
                continue;
            } else {
                proof {
                    lemma_state_later(st, src, start as int, n as int);
                    assert(resync_at(src, base as int, pos as int, tree_error_pos(w, (k0 + 1) as nat)) is None);
                    if nf {
                        assert(first_tag_from(src, base as int, pos as int, k0) is None);
                    }
                }
                finish_at_eof(&mut st, source);
                proof {
                    if !nf {
                        let t = first_tag(src)->0;
                        let d = choose|d: Seq<Diagnostic>|
                            pending_flushed(old_pending, src, old_diags, d) && eof_closed(
                                old_stack,
                                old_root,
                                d,
                                src.len() as u32,
                                st.stack@,
                                st.root,
                                st.diagnostics@,
                            );
                        lemma_head_eof(src, t, old_stack, old_root, d, src.len() as u32, st.stack@, st.root, st.diagnostics@);
                    }
                    let d0 = choose|d: Seq<Diagnostic>|
                        pending_flushed(old_pending, src, old_diags, d) && eof_closed(old_stack, old_root, d, src.len() as u32, st.stack@, st.root, st.diagnostics@);
                    assert(pending_flushed(m0.4, src, m0.2, d0) && eof_closed(m0.0, m0.1, d0, src.len() as u32, st.stack@, st.root, st.diagnostics@));
                    lemma_finished(src, m0, base as int, pos as int, k0, st.stack@, st.root, st.diagnostics@);
                    lemma_nested_later(m0.0, start as int, n as int);
                    lemma_finished_nested(src, m0, st.root, st.diagnostics@);
                    lemma_finished_within(src, m0, st.root, st.diagnostics@);
                }
                break;
            }
        }
        let after_pos = after as usize;
        let end = base + after_pos;
        proof {
            if nf {
                let ev = tree_event(w, k0);
                if !(ev is Start) && !(ev is Empty) {
                    assert(first_tag_from(src, base as int, pos as int, k0) == first_tag_from(
                        src,
                        base as int,
                        after_pos as int,
                        (k0 + 1) as nat,
                    ));
                } else {
                    assert(first_tag_from(src, base as int, pos as int, k0) matches Some(t) && t.1 == start && t.2
                        == end);
                }
            }
        }
        match event {
            RawEvent::Start(name) => {
                let ghost nm = name@;
                on_start(&mut st, source, name, start, end);
                proof {
                    if nf {
                        assert(st.stack@[0] == st.stack@.last());
                    } else {
                        let t = first_tag(src)->0;
                        if old_stack.len() > 0 && old_sup == 0 && old_stack.len() < MAX_TREE_DEPTH {
                            assert(st.stack@[0] == st.stack@.drop_last()[0]);
                        }
                        lemma_head_kept(src, t, old_stack, old_root, st.stack@, st.root);
                    }
                }
            },
            RawEvent::Empty(name) => {
                on_empty(&mut st, source, name, start, end);
                proof {
                    if !nf {
                        let t = first_tag(src)->0;
                        if old_sup == 0 && old_stack.len() < MAX_TREE_DEPTH {
                            let e = choose|e: XmlElement|
                                empty_element(e, event->Empty_0@, start, end, src) && attached(
                                    old_stack,
                                    old_root,
                                    e,
                                    st.stack@,
                                    st.root,
                                );
                            lemma_head_attached(src, t, old_stack, old_root, e, st.stack@, st.root);
                        } else {
                            lemma_head_kept(src, t, old_stack, old_root, st.stack@, st.root);
                        }
                    }
                }
            },
            RawEvent::End(name) => {
                let ghost nm = name@;
                on_end(&mut st, source, name, start, end);
                proof {
                    if nf {
                        assert(innermost_open(old_stack, nm) == -1);
                    } else {
                        let t = first_tag(src)->0;
                        if old_sup == 0 {
                            lemma_head_closed(
                                src,
                                t,
                                old_stack,
                                old_root,
                                old_diags,
                                nm,
                                start as u32,
                                end as u32,
                                st.stack@,
                                st.root,
                                st.diagnostics@,
                            );
                        } else {
                            lemma_head_kept(src, t, old_stack, old_root, st.stack@, st.root);
                        }
                    }
                }
            },
            RawEvent::Text => {
                on_text(&mut st, source, ByteSpan { start: start as u32, end: end as u32 }, true, end);
                proof { lemma_text_head(src, nf, old_stack, old_root, old_sup, st.stack@, st.root); }
                proof {
                    let sp = ByteSpan { start: start as u32, end: end as u32 };
                    if old_sup == 0 && sliceable(src, sp.start as int, sp.end as int) {
                        let d = choose|d: Seq<Diagnostic>|
                            entities_checked(true, old_diags, d, src.subrange(sp.start as int, sp.end as int), sp.start as int)
                                && pending_extended(old_pending, sp, src, d, st.pending, st.diagnostics@);
                        assert(entities_checked(true, m0.2, d, src.subrange(sp.start as int, sp.end as int), sp.start as int)
                            && pending_extended(m0.4, sp, src, d, model_of(st).4, model_of(st).2));
                    }
                    assert(text_step(src, sp, true, m0, model_of(st)));
                }
            },
            RawEvent::GeneralRef => {
                on_text(&mut st, source, ByteSpan { start: start as u32, end: end as u32 }, true, end);
                proof { lemma_text_head(src, nf, old_stack, old_root, old_sup, st.stack@, st.root); }
                proof {
                    let sp = ByteSpan { start: start as u32, end: end as u32 };
                    if old_sup == 0 && sliceable(src, sp.start as int, sp.end as int) {
                        let d = choose|d: Seq<Diagnostic>|
                            entities_checked(true, old_diags, d, src.subrange(sp.start as int, sp.end as int), sp.start as int)
                                && pending_extended(old_pending, sp, src, d, st.pending, st.diagnostics@);
                        assert(entities_checked(true, m0.2, d, src.subrange(sp.start as int, sp.end as int), sp.start as int)
                            && pending_extended(m0.4, sp, src, d, model_of(st).4, model_of(st).2));
                    }
                    assert(text_step(src, sp, true, m0, model_of(st)));
                }
            },
            RawEvent::CData => {
                let inner_start = if end - start > 9 { start + 9 } else { end };
                let inner_end = if end - inner_start >= 3 { end - 3 } else { inner_start };
                proof { assert(cdata_inner(start as int, end as int) == ByteSpan { start: inner_start as u32, end: inner_end as u32 }); }
                on_text(&mut st, source, ByteSpan { start: inner_start as u32, end: inner_end as u32 }, false, end);
                proof { lemma_text_head(src, nf, old_stack, old_root, old_sup, st.stack@, st.root); }
                proof {
                    let sp = cdata_inner(start as int, end as int);
                    if old_sup == 0 && sliceable(src, sp.start as int, sp.end as int) {
                        let d = choose|d: Seq<Diagnostic>|
                            entities_checked(false, old_diags, d, src.subrange(sp.start as int, sp.end as int), sp.start as int)
                                && pending_extended(old_pending, sp, src, d, st.pending, st.diagnostics@);
                        assert(entities_checked(false, m0.2, d, src.subrange(sp.start as int, sp.end as int), sp.start as int)
                            && pending_extended(m0.4, sp, src, d, model_of(st).4, model_of(st).2));
                    }
                    assert(text_step(src, sp, false, m0, model_of(st)));
                }
            },
            _ => {
                proof { lemma_state_later(st, src, start as int, end as int); }
            },
        }
        proof {
            let ev = tree_event(w, k0);
            assert(event_step(src, ev, start as int, end as int, m0, model_of(st)));
            lemma_step_nested(src, ev, start as int, end as int, m0, model_of(st));
            lemma_step_within(src, ev, start as int, end as int, m0, model_of(st));
            assert forall|rt: Option<XmlElement>, ds: Seq<Diagnostic>|
                built_from(src, base as int, after_pos as int, (k0 + 1) as nat, model_of(st), rt, ds) implies #[trigger] tree_of(
                src,
                rt,
                ds,
            ) by {
                assert(event_step(src, ev, base + pos, base + tree_event_end(w, (k0 + 1) as nat), m0, model_of(st)));
                assert(built_from(src, base as int, pos as int, k0, m0, rt, ds));
            }
        }
        pos = after_pos;
    }
    TreeResult { root: st.root, diagnostics: st.diagnostics }
}

} // verus!
