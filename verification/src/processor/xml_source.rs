//! The XML parser that the library reads documents with, and what the
//! library takes from a parsed document: for each node its kind, its parent,
//! its name, the names of its attributes and where it starts in the text.

use vstd::prelude::*;

verus! {

/// `roxmltree::Document`: a parsed document, which holds its nodes in
/// document order.
#[verifier::external_type_specification]
#[verifier::external_body]
pub struct ExDocument<'input>(roxmltree::Document<'input>);

/// `roxmltree::Error`: why a text is no XML document.
#[verifier::external_type_specification]
#[verifier::external_body]
pub struct ExError(roxmltree::Error);

/// The kinds of node that a parsed document holds.
#[derive(Debug, Clone, Copy, PartialEq, Eq, Structural)]
pub enum NodeKind {
    Root,
    Element,
    ProcessingInstruction,
    Comment,
    Text,
}

/// What the library reads of one node of a parsed document.
pub struct NodeRecord {
    pub kind: NodeKind,
    /// The index of the parent node; the root node has none.
    pub parent: Option<int>,
    /// The local name of an element; empty for any other node.
    pub name: Seq<char>,
    /// The local names of an element's attributes, as written.
    pub attributes: Seq<Seq<char>>,
    /// The byte at which the node starts in the text.
    pub offset: nat,
}

/// One node of a parsed document, as plain values.
#[derive(Debug, PartialEq, Eq)]
pub struct RawNode {
    pub kind: NodeKind,
    pub parent: Option<usize>,
    pub name: String,
    pub attributes: Vec<String>,
    pub offset: usize,
}

impl View for RawNode {
    type V = NodeRecord;

    open spec fn view(&self) -> NodeRecord {
        NodeRecord {
            kind: self.kind,
            parent: match self.parent {
                Some(index) => Some(index as int),
                None => None,
            },
            name: self.name@,
            attributes: self.attributes@.map_values(|name: String| name@),
            offset: self.offset as nat,
        }
    }
}

/// The nodes of the document that the XML parser reads from a text, in
/// document order; `None` where the text is no well-formed XML document.
pub uninterp spec fn parsed_nodes(text: Seq<char>) -> Option<Seq<NodeRecord>>;

/// The nodes that a parsed document holds, in document order.
pub uninterp spec fn document_nodes(document: &roxmltree::Document) -> Seq<NodeRecord>;

/// `roxmltree::Document::parse`: the document that the text holds, or the
/// reason why it holds none. The outcome depends on the text alone.
#[verifier::external_body]
pub(crate) fn parse_document<'input>(text: &'input str) -> (outcome: Result<
    roxmltree::Document<'input>,
    roxmltree::Error,
>)
    ensures
        outcome is Ok <==> parsed_nodes(text@) is Some,
        outcome matches Ok(document) ==> parsed_nodes(text@) == Some(document_nodes(&document)),
{
    roxmltree::Document::parse(text)
}

/// `roxmltree::Document::descendants`, counted: the number of nodes of the
/// document, the root node included.
#[verifier::external_body]
pub(crate) fn node_count(document: &roxmltree::Document) -> (count: usize)
    ensures
        count == document_nodes(document).len(),
{
    document.descendants().len()
}

/// `roxmltree::Document::get_node`, with what the node's own methods give:
/// `node_type`, `parent`, `tag_name`, `attributes` and `range`.
#[verifier::external_body]
pub(crate) fn node_at(document: &roxmltree::Document, index: usize) -> (node: RawNode)
    requires
        index < document_nodes(document).len(),
    ensures
        node@ == document_nodes(document)[index as int],
{
    let node = document.get_node(roxmltree::NodeId::from(index)).unwrap();
    RawNode {
        kind: match node.node_type() {
            roxmltree::NodeType::Root => NodeKind::Root,
            roxmltree::NodeType::Element => NodeKind::Element,
            roxmltree::NodeType::PI => NodeKind::ProcessingInstruction,
            roxmltree::NodeType::Comment => NodeKind::Comment,
            roxmltree::NodeType::Text => NodeKind::Text,
        },
        parent: node.parent().map(|parent| parent.id().get_usize()),
        name: node.tag_name().name().to_string(),
        attributes: node.attributes().map(|attribute| attribute.name().to_string()).collect(),
        offset: node.range().start,
    }
}

/// `roxmltree::Error`'s `Display`: the error in words.
#[verifier::external_body]
pub(crate) fn error_text(error: &roxmltree::Error) -> (text: String) {
    error.to_string()
}

/// `roxmltree::Error::pos`: the line and the column that the error is
/// reported at, both counted from one.
#[verifier::external_body]
pub(crate) fn error_position(error: &roxmltree::Error) -> (place: (u32, u32)) {
    let place = error.pos();
    (place.row, place.col)
}

} // verus!
