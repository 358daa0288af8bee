//! The checks of TEI conventions: the root element's name, the attributes of
//! page breaks, and the place of headings.

use crate::processor::key_order::same_text;
use crate::processor::text::{holds_text, lowercase_of, text_contains, to_lowercase};
use crate::processor::struct_processor::{is_child, node_records, read_nodes};
use crate::processor::xml_source::{
    error_position, error_text, parse_document, parsed_nodes, NodeKind, NodeRecord, RawNode,
};
use crate::validation::report::{with_message, MessageModel, Report, ReportModel, Severity};
use vstd::prelude::*;
use vstd::string::StringExecFns;
use vstd::string::StringSliceAdditionalSpecFns;
use vstd::utf8::*;

verus! {

/// A number as the machine holds it: itself, or the largest number that the
/// machine can hold where it is larger.
pub open spec fn held(number: nat) -> nat {
    if number <= usize::MAX {
        number
    } else {
        usize::MAX as nat
    }
}

/// The number of line feeds among the first `end` bytes.
pub open spec fn line_feeds(bytes: Seq<u8>, end: int) -> nat
    decreases end,
{
    if end <= 0 || end > bytes.len() {
        0
    } else {
        line_feeds(bytes, end - 1) + if bytes[end - 1] == 0x0a {
            1nat
        } else {
            0nat
        }
    }
}

/// The number of characters that begin between the last line feed before
/// `end` and `end`: the bytes there that do not continue a character.
pub open spec fn characters_in_line(bytes: Seq<u8>, end: int) -> nat
    decreases end,
{
    if end <= 0 || end > bytes.len() || bytes[end - 1] == 0x0a {
        0
    } else {
        characters_in_line(bytes, end - 1) + if is_continuation_byte(bytes[end - 1]) {
            0nat
        } else {
            1nat
        }
    }
}

/// The byte at which a position is taken: the offset, or the end of the
/// text where the offset lies behind it.
pub open spec fn position_end(bytes: Seq<u8>, offset: nat) -> int {
    if offset <= bytes.len() {
        offset as int
    } else {
        bytes.len() as int
    }
}

/// The line of the byte at `offset`, counted from one.
pub open spec fn line_at(text: Seq<char>, offset: nat) -> nat {
    held(1 + line_feeds(encode_utf8(text), position_end(encode_utf8(text), offset)))
}

/// The column of the byte at `offset` in its line, counted in characters
/// from one.
pub open spec fn column_at(text: Seq<char>, offset: nat) -> nat {
    held(1 + characters_in_line(encode_utf8(text), position_end(encode_utf8(text), offset)))
}

/// The line and the column of the byte at `offset`, both counted from one.
pub fn position_at(text: &str, offset: usize) -> (place: (usize, usize))
    ensures
        place.0 == line_at(text@, offset as nat),
        place.1 == column_at(text@, offset as nat),
{
    let bytes = text.as_bytes();
    let end = if offset <= bytes.len() {
        offset
    } else {
        bytes.len()
    };
    let mut feeds: usize = 0;
    let mut i: usize = 0;
    while i < end
        invariant
            i <= end <= bytes.len(),
            feeds == line_feeds(bytes@, i as int),
            feeds <= i,
        decreases end - i,
    {
        if bytes[i] == 0x0a {
            feeds = feeds + 1;
        }
        i = i + 1;
    }
    let mut characters: usize = 0;
    let mut start: usize = end;
    while start > 0 && bytes[start - 1] != 0x0a
        invariant
            start <= end <= bytes.len(),
            forall|k: int| start <= k < end ==> bytes@[k] != 0x0a,
        decreases start,
    {
        start = start - 1;
    }
    let mut j: usize = start;
    assert(characters_in_line(bytes@, start as int) == 0);
    while j < end
        invariant
            start <= j <= end <= bytes.len(),
            forall|k: int| start <= k < end ==> bytes@[k] != 0x0a,
            characters == characters_in_line(bytes@, j as int),
            characters <= j - start,
        decreases end - j,
    {
        let byte = bytes[j];
        if byte < 0x80 || byte > 0xbf {
            characters = characters + 1;
        }
        j = j + 1;
    }
    (feeds.saturating_add(1), characters.saturating_add(1))
}

/// Whether the node at `index` or one of the nodes above it has the given
/// name.
pub open spec fn enclosed_by(nodes: Seq<NodeRecord>, index: int, name: Seq<char>) -> bool
    decreases index,
{
    if 0 <= index < nodes.len() {
        nodes[index].name == name || match nodes[index].parent {
            Some(parent) => 0 <= parent < index && enclosed_by(nodes, parent, name),
            None => false,
        }
    } else {
        false
    }
}

/// A finding at the place where a node starts.
pub open spec fn finding_at(text: Seq<char>, node: NodeRecord, words: Seq<char>) -> MessageModel {
    MessageModel {
        line: line_at(text, node.offset),
        column: column_at(text, node.offset),
        text: words,
    }
}

/// The report after the node at `index` has been checked: a page break
/// (`pb`) without the attribute `ed` is an error, and so is one without
/// `n`; a heading (`head`) that is not inside a `div` gets a warning.
pub open spec fn checked(
    report: ReportModel,
    nodes: Seq<NodeRecord>,
    text: Seq<char>,
    index: int,
) -> ReportModel {
    let node = nodes[index];
    if node.kind != NodeKind::Element {
        report
    } else if node.name == "pb"@ {
        let first = if node.attributes.contains("ed"@) {
            report
        } else {
            with_message(report, finding_at(text, node, "<pb> missing @ed"@), Severity::Error)
        };
        if node.attributes.contains("n"@) {
            first
        } else {
            with_message(first, finding_at(text, node, "<pb> missing @n"@), Severity::Error)
        }
    } else if node.name == "head"@ {
        if enclosed_by(nodes, index, "div"@) {
            report
        } else {
            with_message(
                report,
                finding_at(text, node, "<head> should be inside <div>"@),
                Severity::Warning,
            )
        }
    } else {
        report
    }
}

/// The report after the first `upto` nodes have been checked, in document
/// order.
pub open spec fn walked(
    report: ReportModel,
    nodes: Seq<NodeRecord>,
    text: Seq<char>,
    upto: int,
) -> ReportModel
    decreases upto,
{
    if upto <= 0 || upto > nodes.len() {
        report
    } else {
        checked(walked(report, nodes, text, upto - 1), nodes, text, upto - 1)
    }
}

/// The report after the root element's name has been checked, given the
/// name in lower case: a name that does not hold `tei` gets a warning.
pub open spec fn root_checked_with(
    report: ReportModel,
    name: Seq<char>,
    lowered: Seq<char>,
) -> ReportModel {
    if holds_text(lowered, "tei"@) {
        report
    } else {
        with_message(
            report,
            MessageModel {
                line: 0,
                column: 0,
                text: "Root element should contain 'tei' (case-insensitive), found <"@ + name
                    + ">"@,
            },
            Severity::Warning,
        )
    }
}

/// The report after the root element's name has been checked.
pub open spec fn root_checked(report: ReportModel, name: Seq<char>) -> ReportModel {
    root_checked_with(report, name, lowercase_of(name))
}

/// The index of the root element: the first element from `from` on whose
/// parent is the root node. `None` where there is none.
pub open spec fn root_element_from(nodes: Seq<NodeRecord>, from: int) -> Option<int>
    decreases nodes.len() - from,
{
    if from < 1 || from >= nodes.len() {
        None
    } else if is_child(nodes, from, 0) {
        Some(from)
    } else {
        root_element_from(nodes, from + 1)
    }
}

/// The report after the start of the text has been checked: a byte order
/// mark is noted.
pub open spec fn mark_checked(report: ReportModel, text: Seq<char>) -> ReportModel {
    if text.len() > 0 && text[0] == '\u{feff}' {
        with_message(
            report,
            MessageModel {
                line: 1,
                column: 1,
                text: "UTF-8 BOM detected (harmless but unnecessary)"@,
            },
            Severity::Info,
        )
    } else {
        report
    }
}

/// The report on a document with the given nodes: the note on a byte order
/// mark, the check of the root element's name, and the checks of all
/// nodes, in document order.
pub open spec fn validated(text: Seq<char>, nodes: Seq<NodeRecord>) -> ReportModel {
    let empty = ReportModel { errors: Seq::empty(), warnings: Seq::empty(), info: Seq::empty() };
    let marked = mark_checked(empty, text);
    let rooted = match root_element_from(nodes, 1) {
        Some(root) => root_checked(marked, nodes[root].name),
        None => marked,
    };
    walked(rooted, nodes, text, nodes.len() as int)
}

/// Whether one of the names is `name`.
fn has_name(names: &Vec<String>, name: &str) -> (found: bool)
    ensures
        found == names@.map_values(|text: String| text@).contains(name@),
{
    let ghost texts = names@.map_values(|text: String| text@);
    let mut i: usize = 0;
    while i < names.len()
        invariant
            i <= names.len(),
            texts == names@.map_values(|text: String| text@),
            forall|j: int| 0 <= j < i ==> texts[j] != name@,
        decreases names.len() - i,
    {
        if same_text(names[i].as_str(), name) {
            assert(texts[i as int] == name@);
            return true;
        }
        i = i + 1;
    }
    false
}

/// Whether the node at `index` or one of the nodes above it has the given
/// name.
fn is_enclosed_by(nodes: &Vec<RawNode>, index: usize, name: &str) -> (found: bool)
    requires
        index < nodes@.len(),
    ensures
        found == enclosed_by(node_records(nodes@), index as int, name@),
{
    let ghost records = node_records(nodes@);
    let mut at: usize = index;
    loop
        invariant
            at < nodes@.len(),
            records == node_records(nodes@),
            enclosed_by(records, index as int, name@) == enclosed_by(records, at as int, name@),
        decreases at,
    {
        assert(records[at as int] == nodes@[at as int]@);
        if same_text(nodes[at].name.as_str(), name) {
            return true;
        }
        match nodes[at].parent {
            Some(parent) => {
                if parent < at {
                    at = parent;
                } else {
                    return false;
                }
            },
            None => {
                return false;
            },
        }
    }
}

/// Checks the root element's name, given the name in lower case: a name
/// that does not hold `tei` gets a warning.
pub fn check_root(root_name: &str, lowered: &str, report: &mut Report)
    ensures
        final(report)@ == root_checked_with(old(report)@, root_name@, lowered@),
{
    if !text_contains(lowered, "tei") {
        let mut words = "Root element should contain 'tei' (case-insensitive), found <".to_string();
        words.append(root_name);
        words.append(">");
        report.push(0, 0, words, Severity::Warning);
    }
}

/// Checks the root element's name: it should hold `tei`, in whatever case.
pub fn validate_root(root_name: &str, report: &mut Report)
    ensures
        final(report)@ == root_checked(old(report)@, root_name@),
{
    let lowered = to_lowercase(root_name);
    check_root(root_name, lowered.as_str(), report);
}

/// Checks every node of a document, in document order: page breaks for
/// their attributes and headings for their place.
pub fn walk(nodes: &Vec<RawNode>, xml: &str, report: &mut Report)
    ensures
        final(report)@ == walked(
            old(report)@,
            node_records(nodes@),
            xml@,
            nodes@.len() as int,
        ),
{
    let ghost records = node_records(nodes@);
    let mut index: usize = 0;
    while index < nodes.len()
        invariant
            index <= nodes.len(),
            records == node_records(nodes@),
            report@ == walked(old(report)@, records, xml@, index as int),
        decreases nodes.len() - index,
    {
        let node = &nodes[index];
        assert(records[index as int] == node@);
        if let NodeKind::Element = node.kind {
            if same_text(node.name.as_str(), "pb") {
                if !has_name(&node.attributes, "ed") {
                    let (line, column) = position_at(xml, node.offset);
                    report.push(line, column, "<pb> missing @ed".to_string(), Severity::Error);
                }
                if !has_name(&node.attributes, "n") {
                    let (line, column) = position_at(xml, node.offset);
                    report.push(line, column, "<pb> missing @n".to_string(), Severity::Error);
                }
            } else if same_text(node.name.as_str(), "head") {
                if !is_enclosed_by(nodes, index, "div") {
                    let (line, column) = position_at(xml, node.offset);
                    report.push(
                        line,
                        column,
                        "<head> should be inside <div>".to_string(),
                        Severity::Warning,
                    );
                }
            }
        }
        index = index + 1;
    }
}

/// The index of the root element: the first element whose parent is the
/// root node.
fn root_element(nodes: &Vec<RawNode>) -> (root: Option<usize>)
    ensures
        match root {
            Some(index) => index < nodes@.len() && root_element_from(node_records(nodes@), 1)
                == Some(index as int),
            None => root_element_from(node_records(nodes@), 1) is None,
        },
{
    let ghost records = node_records(nodes@);
    let mut index: usize = 1;
    while index < nodes.len()
        invariant
            1 <= index,
            records == node_records(nodes@),
            root_element_from(records, 1) == root_element_from(records, index as int),
        decreases nodes.len() - index,
    {
        let node = &nodes[index];
        assert(records[index as int] == node@);
        if let NodeKind::Element = node.kind {
            if let Some(parent) = node.parent {
                if parent == 0 {
                    return Some(index);
                }
            }
        }
        index = index + 1;
    }
    None
}

/// Notes a byte order mark at the start of the text.
fn check_mark(xml: &str, report: &mut Report)
    ensures
        final(report)@ == mark_checked(old(report)@, xml@),
{
    let mut start = xml.chars();
    match start.next() {
        Some(first) => {
            assert(first == xml@[0]);
            if first == '\u{feff}' {
                report.push(
                    1,
                    1,
                    "UTF-8 BOM detected (harmless but unnecessary)".to_string(),
                    Severity::Info,
                );
            }
        },
        None => {},
    }
}

/// Validates one document. A text that is no well-formed XML document gets
/// a report with one error, which says why; any other text gets the note
/// on a byte order mark, the check of the root element's name and the
/// checks of all nodes.
pub fn run(xml: &str) -> (report: Report)
    ensures
        match parsed_nodes(xml@) {
            Some(nodes) => report@ == validated(xml@, nodes),
            None => report@.errors.len() == 1 && report@.warnings.len() == 0 && report@.info.len()
                == 0 && "XML parsing error: "@.is_prefix_of(report@.errors[0].text),
        },
{
    let mut report = Report::new();
    match parse_document(xml) {
        Ok(document) => {
            let nodes = read_nodes(&document);
            check_mark(xml, &mut report);
            match root_element(&nodes) {
                Some(root) => {
                    assert(node_records(nodes@)[root as int] == nodes@[root as int]@);
                    validate_root(nodes[root].name.as_str(), &mut report);
                },
                None => {},
            }
            walk(&nodes, xml, &mut report);
            report
        },
        Err(error) => {
            let (row, column) = error_position(&error);
            let mut words = "XML parsing error: ".to_string();
            words.append(error_text(&error).as_str());
            report.push(row as usize, column as usize, words, Severity::Error);
            report
        },
    }
}

} // verus!
