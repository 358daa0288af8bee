//! From the text of a document to its structure, and from a batch of
//! documents to the groups of those that share a skeleton.

use crate::processor::attribute_keys::{listing_of, AttributeKeys};
use crate::processor::canonical::canonical_text;
use crate::processor::extraction_laws::lemma_document_shape_well_formed;
use crate::processor::grouping::{
    groups_well_formed, largest_first, lemma_offered, member_counts, offered, ranked,
    total_members, FingerprintGrouper,
};
use crate::processor::ranking::{rank_order, ranking};
use crate::processor::xml_source::{
    document_nodes, error_position, error_text, node_at, node_count, parse_document,
    parsed_nodes, NodeKind, NodeRecord, RawNode,
};
use crate::processor::xml_struct::{
    shape_well_formed, skeleton_of, GroupModel, ProcessingResult, ShapeNode, XmlStructure,
};
use vstd::prelude::*;
use vstd::string::StrSliceExecFns;
use vstd::string::StringExecFns;

verus! {

/// Whether the node at `index` is an element whose parent is the node at
/// `parent`.
pub open spec fn is_child(nodes: Seq<NodeRecord>, index: int, parent: int) -> bool {
    nodes[index].kind == NodeKind::Element && nodes[index].parent == Some(parent)
}

/// The shape of the element at `index`: its name, the set of its attribute
/// names, and the shapes of the elements among its children, in document
/// order. Text, comments and processing instructions leave no trace.
pub open spec fn element_shape(nodes: Seq<NodeRecord>, index: int) -> ShapeNode
    decreases nodes.len() - index, nodes.len() - index,
{
    if 0 <= index < nodes.len() {
        ShapeNode {
            name: nodes[index].name,
            attribute_keys: listing_of(nodes[index].attributes),
            children: child_shapes(nodes, index, index + 1),
        }
    } else {
        ShapeNode { name: Seq::empty(), attribute_keys: Seq::empty(), children: Seq::empty() }
    }
}

/// The shapes of the element children of the node at `parent` that stand at
/// `from` or later, in document order.
pub open spec fn child_shapes(nodes: Seq<NodeRecord>, parent: int, from: int) -> Seq<ShapeNode>
    decreases nodes.len() - parent, nodes.len() - from,
{
    if 0 <= parent < from < nodes.len() {
        (if is_child(nodes, from, parent) {
            seq![element_shape(nodes, from)]
        } else {
            Seq::empty()
        }) + child_shapes(nodes, parent, from + 1)
    } else {
        Seq::empty()
    }
}

/// The shape of a document: that of its root element, the first element
/// among the children of the root node. `None` where there is no such
/// element.
pub open spec fn document_shape(nodes: Seq<NodeRecord>) -> Option<ShapeNode> {
    if child_shapes(nodes, 0, 1).len() > 0 {
        Some(child_shapes(nodes, 0, 1)[0])
    } else {
        None
    }
}

/// What a listing of nodes stands for.
pub open spec fn node_records(nodes: Seq<RawNode>) -> Seq<NodeRecord> {
    nodes.map_values(|node: RawNode| node@)
}

/// What a listing of structures stands for.
pub open spec fn shapes_of(structures: Seq<Box<XmlStructure>>) -> Seq<ShapeNode> {
    structures.map_values(|structure: Box<XmlStructure>| structure@)
}

/// Why a text could not be read as an XML document.
#[derive(Debug)]
pub struct ParseError {
    /// The reason, in words.
    pub message: String,
    /// The line that the reason is about, counted from one; 0 where it is
    /// about no place in the text.
    pub line: usize,
    /// The column in that line, counted from one; 0 where there is none.
    pub column: usize,
}

/// The structure of the document that the nodes make up: that of the first
/// element among the children of the root node.
pub fn build_structure(nodes: &Vec<RawNode>) -> (structure: Option<XmlStructure>)
    ensures
        match structure {
            Some(root) => document_shape(node_records(nodes@)) == Some(root@),
            None => document_shape(node_records(nodes@)) is None,
        },
{
    let ghost records = node_records(nodes@);
    let count = nodes.len();
    if count == 0 {
        return None;
    }
    // pending[p] holds the children of node p that were built so far, the
    // last child first
    let mut pending: Vec<Vec<Box<XmlStructure>>> = Vec::new();
    let mut filled: usize = 0;
    while filled < count
        invariant
            filled <= count,
            pending@.len() == filled,
            forall|p: int| 0 <= p < filled ==> (#[trigger] pending@[p])@.len() == 0,
        decreases count - filled,
    {
        pending.push(Vec::new());
        filled = filled + 1;
    }
    let mut index: usize = count;
    while index > 1
        invariant
            1 <= index <= count,
            count == nodes@.len(),
            records == node_records(nodes@),
            pending@.len() == index,
            forall|p: int|
                0 <= p < index ==> shapes_of(#[trigger] pending@[p]@) == child_shapes(
                    records,
                    p,
                    index as int,
                ).reverse(),
        decreases index,
    {
        index = index - 1;
        let mut later = pending.pop().unwrap();
        let node = &nodes[index];
        let ghost before = pending@;
        let mut parent_index: Option<usize> = None;
        if let NodeKind::Element = node.kind {
            if let Some(parent) = node.parent {
                if parent < index {
                    parent_index = Some(parent);
                }
            }
        }
        match parent_index {
            Some(parent) => {
                let mut children: Vec<Box<XmlStructure>> = Vec::new();
                let ghost all = later@;
                while later.len() > 0
                    invariant
                        later@.len() <= all.len(),
                        later@ == all.take(later@.len() as int),
                        shapes_of(children@) == shapes_of(all).skip(later@.len() as int).reverse(),
                    decreases later.len(),
                {
                    let ghost done = shapes_of(children@);
                    let child = later.pop().unwrap();
                    children.push(child);
                    proof {
                        let n = later@.len() as int;
                        assert(shapes_of(children@) =~= done.push(shapes_of(all)[n]));
                        assert(shapes_of(all).skip(n).reverse() =~= shapes_of(all).skip(
                            n + 1,
                        ).reverse().push(shapes_of(all)[n]));
                        assert(later@ =~= all.take(n));
                    }
                }
                proof {
                    assert(shapes_of(all).skip(0) =~= shapes_of(all));
                    assert(shapes_of(all).reverse() =~= child_shapes(
                        records,
                        index as int,
                        index + 1,
                    ).reverse().reverse());
                    assert(shapes_of(children@) =~= child_shapes(records, index as int, index + 1));
                }
                let attributes = if node.attributes.len() > 0 {
                    Some(AttributeKeys::from_names(&node.attributes))
                } else {
                    None
                };
                let element = XmlStructure { name: node.name.clone(), attributes, children };
                proof {
                    assert(records[index as int] == node@);
                    assert(element@.children =~= shapes_of(children@));
                    assert(element@ == element_shape(records, index as int));
                }
                pending[parent].push(Box::new(element));
                proof {
                    assert(is_child(records, index as int, parent as int));
                    assert forall|p: int| 0 <= p < index implies shapes_of(
                        #[trigger] pending@[p]@,
                    ) == child_shapes(records, p, index as int).reverse() by {
                        if p == parent {
                            assert(shapes_of(pending@[p]@) =~= shapes_of(before[p]@).push(
                                element@,
                            ));
                            assert(child_shapes(records, p, index as int).reverse() =~= child_shapes(
                                records,
                                p,
                                index + 1,
                            ).reverse().push(element@));
                        } else {
                            assert(pending@[p] == before[p]);
                            assert(!is_child(records, index as int, p));
                            assert(child_shapes(records, p, index as int) =~= child_shapes(
                                records,
                                p,
                                index + 1,
                            ));
                        }
                    }
                }
            },
            None => {
                proof {
                    assert(records[index as int] == node@);
                    assert forall|p: int| 0 <= p < index implies shapes_of(
                        #[trigger] pending@[p]@,
                    ) == child_shapes(records, p, index as int).reverse() by {
                        assert(!is_child(records, index as int, p));
                        assert(child_shapes(records, p, index as int) =~= child_shapes(
                            records,
                            p,
                            index + 1,
                        ));
                    }
                }
            },
        }
    }
    let mut top = pending.pop().unwrap();
    let ghost tops = shapes_of(top@);
    assert(tops == child_shapes(records, 0, 1).reverse());
    match top.pop() {
        Some(root) => {
            proof {
                assert(tops.len() > 0);
                assert(child_shapes(records, 0, 1)[0] == tops[tops.len() - 1]);
                assert(root@ == tops[tops.len() - 1]);
            }
            Some(*root)
        },
        None => {
            assert(tops.len() == 0);
            None
        },
    }
}

/// The nodes of a parsed document, as plain values, in document order.
pub(crate) fn read_nodes(document: &roxmltree::Document) -> (nodes: Vec<RawNode>)
    ensures
        node_records(nodes@) == document_nodes(document),
{
    let count = node_count(document);
    let mut nodes: Vec<RawNode> = Vec::new();
    let mut index: usize = 0;
    while index < count
        invariant
            index <= count,
            count == document_nodes(document).len(),
            nodes@.len() == index,
            forall|i: int|
                0 <= i < index ==> (#[trigger] nodes@[i])@ == document_nodes(document)[i],
        decreases count - index,
    {
        nodes.push(node_at(document, index));
        index = index + 1;
    }
    assert(node_records(nodes@) =~= document_nodes(document));
    nodes
}

/// Reads the text of one XML document and extracts its structure: for each
/// element its name, the set of its attribute names and its child elements.
/// Fails where the text is no well-formed XML document.
pub fn parse_xml_structure(xml_content: &str) -> (outcome: Result<XmlStructure, ParseError>)
    ensures
        outcome is Ok <==> parsed_nodes(xml_content@) is Some && document_shape(
            parsed_nodes(xml_content@)->0,
        ) is Some,
        outcome matches Ok(structure) ==> document_shape(parsed_nodes(xml_content@)->0) == Some(
            structure@,
        ) && shape_well_formed(structure@),
{
    proof {
        if parsed_nodes(xml_content@) is Some {
            lemma_document_shape_well_formed(parsed_nodes(xml_content@)->0);
        }
    }
    match parse_document(xml_content) {
        Ok(document) => {
            let nodes = read_nodes(&document);
            match build_structure(&nodes) {
                Some(structure) => Ok(structure),
                None => Err(
                    ParseError {
                        message: "the document has no root element".to_string(),
                        line: 0,
                        column: 0,
                    },
                ),
            }
        },
        Err(error) => {
            let (row, column) = error_position(&error);
            Err(
                ParseError {
                    message: error_text(&error),
                    line: row as usize,
                    column: column as usize,
                },
            )
        },
    }
}

/// One document of a batch: its identifier, and its text or, where the
/// text could not be had, the reason.
#[derive(Debug)]
pub struct LoadedDocument {
    /// What the document is known by, such as its path.
    pub id: String,
    /// The text, or why there is none.
    pub content: Result<String, String>,
}

/// What a document of a batch stands for: its identifier and its text, if
/// it has one.
pub struct DocumentModel {
    pub id: Seq<char>,
    pub text: Option<Seq<char>>,
}

impl View for LoadedDocument {
    type V = DocumentModel;

    open spec fn view(&self) -> DocumentModel {
        DocumentModel {
            id: self.id@,
            text: match self.content {
                Ok(text) => Some(text@),
                Err(_) => None,
            },
        }
    }
}

/// What a listing of documents stands for.
pub open spec fn document_models(documents: Seq<LoadedDocument>) -> Seq<DocumentModel> {
    documents.map_values(|document: LoadedDocument| document@)
}

/// Why a document is not in the result.
#[derive(Debug, Clone, Copy, PartialEq, Eq, Structural)]
pub enum FailureKind {
    /// The text could not be read.
    Io,
    /// The text is no well-formed XML document.
    Parse,
}

/// A document that was skipped, and why.
#[derive(Debug)]
pub struct DocumentFailure {
    pub document_id: String,
    pub kind: FailureKind,
    pub message: String,
}

/// The outcome of a batch: the groups of the documents that could be read,
/// and the documents that could not.
#[derive(Debug)]
pub struct BatchReport {
    pub result: ProcessingResult,
    pub failures: Vec<DocumentFailure>,
}

/// The shape of a document of a batch: `None` where it has no text or its
/// text is no XML document.
pub open spec fn readable_shape(document: DocumentModel) -> Option<ShapeNode> {
    match document.text {
        Some(text) => match parsed_nodes(text) {
            Some(nodes) => document_shape(nodes),
            None => None,
        },
        None => None,
    }
}

/// The groups that a batch of documents falls into: each document that has
/// a shape is offered in turn, with its shape on display.
pub open spec fn grouped(documents: Seq<DocumentModel>) -> Seq<GroupModel>
    decreases documents.len(),
{
    if documents.len() == 0 {
        Seq::empty()
    } else {
        let earlier = grouped(documents.drop_last());
        match readable_shape(documents.last()) {
            Some(shape) => offered(earlier, documents.last().id, skeleton_of(shape), Some(shape)),
            None => earlier,
        }
    }
}

/// The documents of a batch that have no shape, with the kind of failure,
/// in the order of the batch.
pub open spec fn skipped(documents: Seq<DocumentModel>) -> Seq<(Seq<char>, FailureKind)>
    decreases documents.len(),
{
    if documents.len() == 0 {
        Seq::empty()
    } else {
        let earlier = skipped(documents.drop_last());
        match readable_shape(documents.last()) {
            Some(_) => earlier,
            None => earlier.push(
                (
                    documents.last().id,
                    if documents.last().text is None {
                        FailureKind::Io
                    } else {
                        FailureKind::Parse
                    },
                ),
            ),
        }
    }
}

/// Grouping conservation: every document of a batch is a member of one
/// group or is skipped, never both and never neither; and no two groups
/// have one skeleton.
pub proof fn lemma_grouped_conserves(documents: Seq<DocumentModel>)
    ensures
        groups_well_formed(grouped(documents)),
        total_members(grouped(documents)) + skipped(documents).len() == documents.len(),
    decreases documents.len(),
{
    if documents.len() > 0 {
        lemma_grouped_conserves(documents.drop_last());
        match readable_shape(documents.last()) {
            Some(shape) => {
                lemma_offered(
                    grouped(documents.drop_last()),
                    documents.last().id,
                    skeleton_of(shape),
                    Some(shape),
                );
            },
            None => {},
        }
    }
}

/// What a listing of failures says: for each the document and the kind.
pub open spec fn failure_models(failures: Seq<DocumentFailure>) -> Seq<(Seq<char>, FailureKind)> {
    failures.map_values(|failure: DocumentFailure| (failure.document_id@, failure.kind))
}

/// Groups a batch of documents by skeleton. A document that cannot be read
/// or parsed is skipped and reported; it stops nothing. Every other
/// document is in exactly one group, so the members of all groups and the
/// failures add up to the batch.
pub fn process_xml_files(files: &Vec<LoadedDocument>) -> (report: BatchReport)
    ensures
        report.result@.groups == ranked(grouped(document_models(files@))),
        report.result@.unique_structures == grouped(document_models(files@)).len(),
        report.result@.total_files == total_members(report.result@.groups),
        report.result@.total_files + report.failures@.len() == files@.len(),
        groups_well_formed(report.result@.groups),
        largest_first(report.result@.groups),
        failure_models(report.failures@) == skipped(document_models(files@)),
{
    let ghost documents = document_models(files@);
    let mut grouper = FingerprintGrouper::new();
    let mut failures: Vec<DocumentFailure> = Vec::new();
    let mut i: usize = 0;
    proof {
        assert(documents.take(0) =~= Seq::empty());
    }
    while i < files.len()
        invariant
            i <= files.len(),
            documents == document_models(files@),
            grouper@ == grouped(documents.take(i as int)),
            failure_models(failures@) == skipped(documents.take(i as int)),
            total_members(grouper@) + failures@.len() == i,
        decreases files.len() - i,
    {
        let file = &files[i];
        let ghost earlier = failure_models(failures@);
        proof {
            assert(documents.take(i + 1).drop_last() =~= documents.take(i as int));
            assert(documents.take(i + 1).last() == file@);
        }
        match &file.content {
            Ok(text) => {
                match parse_xml_structure(text.as_str()) {
                    Ok(structure) => {
                        let skeleton = structure.to_skeleton();
                        grouper.offer(file.id.clone(), skeleton, Some(structure));
                    },
                    Err(failure) => {
                        failures.push(
                            DocumentFailure {
                                document_id: file.id.clone(),
                                kind: FailureKind::Parse,
                                message: failure.message,
                            },
                        );
                        assert(failure_models(failures@) =~= earlier.push(
                            (file@.id, FailureKind::Parse),
                        ));
                    },
                }
            },
            Err(reason) => {
                failures.push(
                    DocumentFailure {
                        document_id: file.id.clone(),
                        kind: FailureKind::Io,
                        message: reason.clone(),
                    },
                );
                assert(failure_models(failures@) =~= earlier.push((file@.id, FailureKind::Io)));
            },
        }
        i = i + 1;
    }
    assert(documents.take(i as int) =~= documents);
    BatchReport { result: grouper.snapshot(), failures }
}

/// The width to which a signature is cut in a summary.
pub const SIGNATURE_WIDTH: usize = 80;

/// One line of a summary: a group's rank, counted from one, its size, the
/// hash of its skeleton and the skeleton as one line, cut to the summary's
/// width.
#[derive(Debug, PartialEq, Eq)]
pub struct SummaryLine {
    pub rank: usize,
    pub count: usize,
    pub hash: u64,
    pub signature: String,
}

/// What a line of a summary says.
pub struct LineModel {
    pub rank: nat,
    pub count: nat,
    pub hash: u64,
    pub signature: Seq<char>,
}

impl View for SummaryLine {
    type V = LineModel;

    open spec fn view(&self) -> LineModel {
        LineModel {
            rank: self.rank as nat,
            count: self.count as nat,
            hash: self.hash,
            signature: self.signature@,
        }
    }
}

/// A text cut to `width` characters; three dots mark the cut.
pub open spec fn truncated(text: Seq<char>, width: nat) -> Seq<char> {
    if text.len() > width {
        text.take(width as int) + seq!['.', '.', '.']
    } else {
        text
    }
}

/// The line of a group at the given rank.
pub open spec fn summary_line(group: GroupModel, rank: nat) -> LineModel {
    LineModel {
        rank,
        count: group.count,
        hash: group.skeleton.hash,
        signature: truncated(
            group.skeleton.root + seq![':'] + canonical_text(group.skeleton.skeleton),
            SIGNATURE_WIDTH as nat,
        ),
    }
}

/// The summary of the groups: one line for each, by rank.
pub open spec fn summary_of(groups: Seq<GroupModel>) -> Seq<LineModel> {
    Seq::new(
        ranked(groups).len(),
        |place: int| summary_line(ranked(groups)[place], (place + 1) as nat),
    )
}

/// Cuts a text to `width` characters and marks the cut with three dots.
pub fn truncate_signature(text: &str, width: usize) -> (cut: String)
    ensures
        cut@ == truncated(text@, width as nat),
{
    if text.unicode_len() > width {
        let mut cut = text.substring_char(0, width).to_string();
        proof {
            reveal_strlit("...");
        }
        cut.append("...");
        assert(cut@ =~= truncated(text@, width as nat));
        cut
    } else {
        text.to_string()
    }
}

/// The summary of a result: one line for each group, larger groups first
/// and, of two groups of one size, the one that stands first in the result.
pub fn summarize(result: &ProcessingResult) -> (lines: Vec<SummaryLine>)
    ensures
        lines@.map_values(|line: SummaryLine| line@) == summary_of(result@.groups),
{
    let ghost groups = result@.groups;
    let mut counts: Vec<usize> = Vec::new();
    let mut i: usize = 0;
    while i < result.groups.len()
        invariant
            i <= result.groups.len(),
            counts@.len() == i,
            forall|j: int| 0 <= j < i ==> (#[trigger] counts@[j]) == result.groups@[j].count,
        decreases result.groups.len() - i,
    {
        counts.push(result.groups[i].count);
        i = i + 1;
    }
    let ghost amounts = counts@.map_values(|count: usize| count as nat);
    assert(amounts =~= member_counts(groups));
    let order = rank_order(&counts);
    let mut lines: Vec<SummaryLine> = Vec::new();
    let mut place: usize = 0;
    while place < order.len()
        invariant
            place <= order.len(),
            groups == result@.groups,
            order@.len() == result.groups@.len(),
            order@.map_values(|index: usize| index as int) == ranking(
                member_counts(groups),
            ),
            forall|p: int|
                0 <= p < order@.len() ==> 0 <= #[trigger] order@[p] < result.groups@.len(),
            lines@.len() == place,
            forall|p: int|
                0 <= p < place ==> (#[trigger] lines@[p])@ == summary_line(
                    ranked(groups)[p],
                    (p + 1) as nat,
                ),
        decreases order.len() - place,
    {
        let group = &result.groups[order[place]];
        proof {
            assert(ranking(
                member_counts(groups),
            )[place as int] == order@[place as int] as int);
            assert(ranked(groups)[place as int] == groups[order@[place as int] as int]);
            assert(groups[order@[place as int] as int] == group@);
        }
        let text = group.signature_string();
        lines.push(
            SummaryLine {
                rank: place + 1,
                count: group.count,
                hash: group.hash(),
                signature: truncate_signature(text.as_str(), SIGNATURE_WIDTH),
            },
        );
        place = place + 1;
    }
    assert(lines@.map_values(|line: SummaryLine| line@) =~= summary_of(groups));
    lines
}

} // verus!
