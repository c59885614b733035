//! The bridge to the `tl` HTML parser: reads a parsed DOM into a
//! [`Document`] and converts HTML text end to end.

use vstd::prelude::*;
use crate::emit::{
    dsl_text, dsl_text_within, emit, has_no_cycle, lemma_single_element_first_line,
};
use crate::text::{is_clean, split_lines};
use crate::tree::{
    attribute_views, node_views, optional_text, text_views, Attribute, Document, DocumentView,
    Element, Node, NodeView,
};

verus! {

/// `tl::VDom`, the parsed DOM. Nothing inside it is visible here; what it
/// holds is named by [`dom_nodes`] and [`dom_roots`].
#[verifier::external_type_specification]
#[verifier::external_body]
pub struct ExVDom<'a>(tl::VDom<'a>);

/// `tl::ParseError`, the parser's refusal.
#[verifier::external_type_specification]
#[verifier::external_body]
pub struct ExParseError(tl::ParseError);

/// The node table of a parsed DOM (`VDom::nodes`): the node behind each
/// handle, by the handle's index. Of a tag it holds the name, the `id`, the
/// class tokens as `Attributes::class_iter` yields them, the attributes as
/// `Attributes::iter` yields them, and the handles of its direct children.
pub uninterp spec fn dom_nodes(dom: tl::VDom) -> Seq<NodeView>;

/// The handles of the top-level nodes of a parsed DOM (`VDom::children`),
/// in document order, each as its index into the node table.
pub uninterp spec fn dom_roots(dom: tl::VDom) -> Seq<u32>;

/// Which of the three kinds a node is.
pub enum NodeKind {
    Element,
    Text,
    Comment,
}

/// The kind of a node.
pub open spec fn kind_of(n: NodeView) -> NodeKind {
    match n {
        NodeView::Element(_) => NodeKind::Element,
        NodeView::Text(_) => NodeKind::Text,
        NodeView::Comment => NodeKind::Comment,
    }
}

/// The node table that `tl::parse` builds for a text, with the attributes
/// of each tag in one fixed order. The parser keeps the attributes of a tag
/// in a hash map once there are more than a few, so the order in which a
/// DOM hands them out is not decided by the text; all else is.
pub uninterp spec fn parsed_nodes(html: Seq<char>) -> Seq<NodeView>;

/// The top-level handles that `tl::parse` finds for a text, in document
/// order.
pub uninterp spec fn parsed_roots(html: Seq<char>) -> Seq<u32>;

/// Two nodes are the same but for the order of their attributes: the same
/// kind, the same text, or the same name, `id`, class tokens and children,
/// and the same attributes, each as often, in whatever order.
pub open spec fn same_but_attribute_order(a: NodeView, b: NodeView) -> bool {
    match (a, b) {
        (NodeView::Element(x), NodeView::Element(y)) => {
            &&& x.name == y.name
            &&& x.id == y.id
            &&& x.classes == y.classes
            &&& x.children == y.children
            &&& x.attributes.to_multiset() == y.attributes.to_multiset()
        },
        (NodeView::Text(s), NodeView::Text(t)) => s == t,
        (NodeView::Comment, NodeView::Comment) => true,
        _ => false,
    }
}

/// Two tables are the same, node by node, but for the order of the
/// attributes.
pub open spec fn same_nodes_but_attribute_order(a: Seq<NodeView>, b: Seq<NodeView>) -> bool {
    &&& a.len() == b.len()
    &&& forall|i: int| 0 <= i < a.len() ==> same_but_attribute_order(#[trigger] a[i], b[i])
}

/// Calls `tl::parse` with the default options. Trusted: the parser takes
/// any text and refuses exactly those whose length in bytes does not fit in
/// a `u32`; the DOM it gives holds the top-level handles and the node table
/// that the text decides, the attributes of each tag in some order.
#[verifier::external_body]
fn parse_dom(html: &str) -> (result: Result<tl::VDom<'_>, tl::ParseError>)
    ensures
        result is Ok <==> html.len() <= u32::MAX,
        result is Ok ==> dom_roots(result->Ok_0) == parsed_roots(html@),
        result is Ok ==> same_nodes_but_attribute_order(
            dom_nodes(result->Ok_0),
            parsed_nodes(html@),
        ),
{
    tl::parse(html, tl::ParserOptions::default())
}

/// Calls `VDom::nodes`. Trusted: its length is the length of the node
/// table.
#[verifier::external_body]
fn node_count(dom: &tl::VDom) -> (result: usize)
    ensures
        result == dom_nodes(*dom).len(),
{
    dom.nodes().len()
}

/// Calls `VDom::children`. Trusted: these are the top-level handles, each
/// turned into its index by `NodeHandle::get_inner`.
#[verifier::external_body]
fn root_handles(dom: &tl::VDom) -> (result: Vec<u32>)
    ensures
        result@ == dom_roots(*dom),
{
    dom.children().iter().map(|h| h.get_inner()).collect()
}

/// Reads the variant of the `tl::Node` at index `i` of `VDom::nodes`.
/// Trusted: `Tag` is an element, `Raw` a text, `Comment` a comment.
#[verifier::external_body]
fn node_kind(dom: &tl::VDom, i: usize) -> (result: NodeKind)
    requires
        i < dom_nodes(*dom).len(),
    ensures
        result == kind_of(dom_nodes(*dom)[i as int]),
{
    match &dom.nodes()[i] {
        tl::Node::Tag(_) => NodeKind::Element,
        tl::Node::Raw(_) => NodeKind::Text,
        tl::Node::Comment(_) => NodeKind::Comment,
    }
}

/// Calls `Bytes::as_utf8_str` on the raw node at index `i`. Trusted: this
/// is the text that the table holds there.
#[verifier::external_body]
fn node_text(dom: &tl::VDom, i: usize) -> (result: String)
    requires
        i < dom_nodes(*dom).len(),
        dom_nodes(*dom)[i as int] is Text,
    ensures
        dom_nodes(*dom)[i as int] == NodeView::Text(result@),
{
    match &dom.nodes()[i] {
        tl::Node::Raw(bytes) => bytes.as_utf8_str().into_owned(),
        _ => String::new(),
    }
}

/// Calls `HTMLTag::name` on the tag at index `i`. Trusted: this is the
/// name that the table holds there.
#[verifier::external_body]
fn element_name(dom: &tl::VDom, i: usize) -> (result: String)
    requires
        i < dom_nodes(*dom).len(),
        dom_nodes(*dom)[i as int] is Element,
    ensures
        result@ == dom_nodes(*dom)[i as int]->Element_0.name,
{
    match dom.nodes()[i].as_tag() {
        Some(tag) => tag.name().as_utf8_str().into_owned(),
        None => String::new(),
    }
}

/// Calls `Attributes::id` on the tag at index `i`. Trusted: this is the
/// `id` that the table holds there.
#[verifier::external_body]
fn element_id(dom: &tl::VDom, i: usize) -> (result: Option<String>)
    requires
        i < dom_nodes(*dom).len(),
        dom_nodes(*dom)[i as int] is Element,
    ensures
        optional_text(result) == dom_nodes(*dom)[i as int]->Element_0.id,
{
    match dom.nodes()[i].as_tag() {
        Some(tag) => tag.attributes().id().map(|x| x.as_utf8_str().into_owned()),
        None => None,
    }
}

/// Calls `Attributes::class_iter` on the tag at index `i`. Trusted: the
/// tokens, in the order the iterator yields them, are the class tokens that
/// the table holds there; there are none where it gives no iterator.
#[verifier::external_body]
fn element_classes(dom: &tl::VDom, i: usize) -> (result: Vec<String>)
    requires
        i < dom_nodes(*dom).len(),
        dom_nodes(*dom)[i as int] is Element,
    ensures
        text_views(result@) == dom_nodes(*dom)[i as int]->Element_0.classes,
{
    match dom.nodes()[i].as_tag().and_then(|tag| tag.attributes().class_iter()) {
        Some(tokens) => tokens.map(|c| c.to_owned()).collect(),
        None => Vec::new(),
    }
}

/// Calls `Attributes::iter` on the tag at index `i`. Trusted: the pairs of
/// name and optional value, in the order the iterator yields them, are the
/// attributes that the table holds there.
#[verifier::external_body]
fn element_attributes(dom: &tl::VDom, i: usize) -> (result: Vec<Attribute>)
    requires
        i < dom_nodes(*dom).len(),
        dom_nodes(*dom)[i as int] is Element,
    ensures
        attribute_views(result@) == dom_nodes(*dom)[i as int]->Element_0.attributes,
{
    match dom.nodes()[i].as_tag() {
        Some(tag) => tag.attributes().iter().map(
            |(k, v)| Attribute { name: k.into_owned(), value: v.map(|x| x.into_owned()) },
        ).collect(),
        None => Vec::new(),
    }
}

/// Calls `Children::top` on the tag at index `i`. Trusted: these are the
/// handles of its direct children, each turned into its index by
/// `NodeHandle::get_inner`.
#[verifier::external_body]
fn element_children(dom: &tl::VDom, i: usize) -> (result: Vec<u32>)
    requires
        i < dom_nodes(*dom).len(),
        dom_nodes(*dom)[i as int] is Element,
    ensures
        result@ == dom_nodes(*dom)[i as int]->Element_0.children,
{
    match dom.nodes()[i].as_tag() {
        Some(tag) => tag.children().top().as_slice().iter().map(|h| h.get_inner()).collect(),
        None => Vec::new(),
    }
}

/// Reads the node at index `i` of the table.
fn node_of(dom: &tl::VDom, i: usize) -> (result: Node)
    requires
        i < dom_nodes(*dom).len(),
    ensures
        result@ == dom_nodes(*dom)[i as int],
{
    match node_kind(dom, i) {
        NodeKind::Comment => Node::Comment,
        NodeKind::Text => Node::Text(node_text(dom, i)),
        NodeKind::Element => {
            let e = Element {
                name: element_name(dom, i),
                id: element_id(dom, i),
                classes: element_classes(dom, i),
                attributes: element_attributes(dom, i),
                children: element_children(dom, i),
            };
            assert(e@ == dom_nodes(*dom)[i as int]->Element_0);
            Node::Element(e)
        },
    }
}

/// Reads a parsed DOM into a document: the whole node table, and the
/// top-level handles.
pub fn document_of(dom: &tl::VDom) -> (result: Document)
    ensures
        result@.nodes == dom_nodes(*dom),
        result@.roots == dom_roots(*dom),
{
    let n: usize = node_count(dom);
    let mut nodes: Vec<Node> = Vec::new();
    let mut i: usize = 0;
    while i < n
        invariant
            n == dom_nodes(*dom).len(),
            i <= n,
            nodes.len() == i,
            node_views(nodes@) == dom_nodes(*dom).take(i as int),
        decreases n - i,
    {
        let node = node_of(dom, i);
        let ghost before = nodes@;
        nodes.push(node);
        proof {
            assert forall|k: int| 0 <= k < i + 1 implies node_views(nodes@)[k] == dom_nodes(
                *dom,
            ).take(i + 1)[k] by {
                if k < i {
                    assert(nodes@[k] == before[k]);
                    assert(node_views(before)[k] == dom_nodes(*dom).take(i as int)[k]);
                }
            }
            assert(node_views(nodes@) =~= dom_nodes(*dom).take(i + 1));
        }
        i = i + 1;
    }
    proof {
        assert(dom_nodes(*dom).take(n as int) =~= dom_nodes(*dom));
    }
    Document { nodes, roots: root_handles(dom) }
}

/// The document that a parsed DOM holds: its node table and its top-level
/// handles.
pub open spec fn dom_document(dom: tl::VDom) -> DocumentView {
    DocumentView { nodes: dom_nodes(dom), roots: dom_roots(dom) }
}

/// The builder text of a parsed DOM: reads it into a document, walks the
/// tree, and cleans the result up.
pub fn dom2sl(dom: &tl::VDom) -> (result: String)
    ensures
        result@ == dsl_text(dom_document(*dom)),
        is_clean(result@),
        has_no_cycle(dom_nodes(*dom)) ==> forall|depth: nat|
            depth >= dom_nodes(*dom).len() ==> result@ == #[trigger] dsl_text_within(
                dom_document(*dom),
                depth,
            ),
{
    let doc = document_of(dom);
    assert(doc@ == dom_document(*dom));
    emit(&doc)
}

/// The tag name of the one top-level node that the parser finds for a
/// text, where that node is an element and its name is free of `'\n'`.
pub open spec fn sole_element_name(html: Seq<char>) -> Option<Seq<char>> {
    let roots = parsed_roots(html);
    let nodes = parsed_nodes(html);
    if roots.len() == 1 && roots[0] < nodes.len() && nodes[roots[0] as int] is Element {
        let name = nodes[roots[0] as int]->Element_0.name;
        if forall|j: int| 0 <= j < name.len() ==> name[j] != '\n' {
            Some(name)
        } else {
            None
        }
    } else {
        None
    }
}

/// Converts HTML text into builder text: parses it, then gives the builder
/// text of the DOM that the parser found. The result is the finished text
/// of a document with the top-level handles and the node table that the
/// text decides, the attributes of each tag in the order the parser hands
/// them out; and it is clean. Where the text holds one top-level node, an
/// element, the result begins with its tag call: no wrapping line is left
/// before it. The parser refuses a text of more than `u32::MAX` bytes, so
/// such a text is not taken.
pub fn html2sl(html: &str) -> (result: String)
    requires
        html.len() <= u32::MAX,
    ensures
        exists|d: DocumentView|
            d.roots == parsed_roots(html@) && same_nodes_but_attribute_order(
                d.nodes,
                parsed_nodes(html@),
            ) && result@ == dsl_text(d),
        is_clean(result@),
        sole_element_name(html@) matches Some(name) ==> split_lines(result@).len() >= 1
            && split_lines(result@)[0] == "    "@ + name + "()"@,
{
    match parse_dom(html) {
        Ok(dom) => {
            let out = dom2sl(&dom);
            proof {
                let d = dom_document(dom);
                assert(d.roots == parsed_roots(html@) && same_nodes_but_attribute_order(
                    d.nodes,
                    parsed_nodes(html@),
                ) && out@ == dsl_text(d));
                if let Some(name) = sole_element_name(html@) {
                    let root = d.roots[0] as int;
                    assert(same_but_attribute_order(d.nodes[root], parsed_nodes(html@)[root]));
                    lemma_single_element_first_line(d, d.nodes[root]->Element_0);
                }
            }
            out
        },
        Err(_) => {
            // Not reached: the parser refuses no text of this length.
            assert(html.len() > u32::MAX);
            String::new()
        },
    }
}

} // verus!
