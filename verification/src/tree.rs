//! The document model: a flat table of nodes and the handles that index it.

use vstd::prelude::*;

verus! {

/// One attribute of an element: a name and, unless it is a bare flag,
/// a value.
pub struct Attribute {
    pub name: String,
    pub value: Option<String>,
}

/// What an [`Attribute`] holds, as characters.
pub struct AttributeView {
    pub name: Seq<char>,
    pub value: Option<Seq<char>>,
}

/// The characters of an optional text.
pub open spec fn optional_text(t: Option<String>) -> Option<Seq<char>> {
    match t {
        Some(s) => Some(s@),
        None => None,
    }
}

/// The characters of each text of a sequence.
pub open spec fn text_views(v: Seq<String>) -> Seq<Seq<char>> {
    v.map_values(|s: String| s@)
}

/// The view of each attribute of a sequence.
pub open spec fn attribute_views(v: Seq<Attribute>) -> Seq<AttributeView> {
    v.map_values(|a: Attribute| a@)
}

impl View for Attribute {
    type V = AttributeView;

    open spec fn view(&self) -> AttributeView {
        AttributeView { name: self.name@, value: optional_text(self.value) }
    }
}

/// An element: its tag name, its `id`, the tokens of its `class`, every
/// attribute in the order the source collection walks them, and the handles
/// of its children in document order.
pub struct Element {
    pub name: String,
    pub id: Option<String>,
    pub classes: Vec<String>,
    pub attributes: Vec<Attribute>,
    pub children: Vec<u32>,
}

/// What an [`Element`] holds, as characters and handles.
pub struct ElementView {
    pub name: Seq<char>,
    pub id: Option<Seq<char>>,
    pub classes: Seq<Seq<char>>,
    pub attributes: Seq<AttributeView>,
    pub children: Seq<u32>,
}

impl View for Element {
    type V = ElementView;

    open spec fn view(&self) -> ElementView {
        ElementView {
            name: self.name@,
            id: optional_text(self.id),
            classes: text_views(self.classes@),
            attributes: attribute_views(self.attributes@),
            children: self.children@,
        }
    }
}

/// A node of the document.
pub enum Node {
    Element(Element),
    Text(String),
    Comment,
}

/// What a [`Node`] holds.
pub enum NodeView {
    Element(ElementView),
    Text(Seq<char>),
    Comment,
}

impl View for Node {
    type V = NodeView;

    open spec fn view(&self) -> NodeView {
        match self {
            Node::Element(e) => NodeView::Element(e@),
            Node::Text(t) => NodeView::Text(t@),
            Node::Comment => NodeView::Comment,
        }
    }
}

/// The view of each node of a sequence.
pub open spec fn node_views(v: Seq<Node>) -> Seq<NodeView> {
    v.map_values(|n: Node| n@)
}

/// A document: the table of all its nodes, and the handles of the top-level
/// ones. A handle is an index into the table; one that points past its end
/// resolves to nothing.
pub struct Document {
    pub nodes: Vec<Node>,
    pub roots: Vec<u32>,
}

/// What a [`Document`] holds: the table and the top-level handles.
pub struct DocumentView {
    pub nodes: Seq<NodeView>,
    pub roots: Seq<u32>,
}

impl View for Document {
    type V = DocumentView;

    open spec fn view(&self) -> DocumentView {
        DocumentView { nodes: node_views(self.nodes@), roots: self.roots@ }
    }
}

} // verus!
