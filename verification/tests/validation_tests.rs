use xml_structer::validation::report::{Report, Severity};
use xml_structer::validation::validate::{check_root, position_at, run, validate_root, walk};
use xml_structer::processor::xml_source::{NodeKind, RawNode};

#[test]
fn test_broken_xml() {
    let report = run("<not>closed");
    assert!(!report.is_valid());
    assert_eq!(report.errors.len(), 1);
    // Just verify we got an error, don't check exact text
    assert!(!report.errors[0].text.is_empty());
    assert!(report.errors[0].text.starts_with("XML parsing error: "));
    assert!(report.warnings.is_empty());
    assert!(report.info.is_empty());
}

#[test]
fn test_valid_tei() {
    let xml = r#"<TEI><text><body><div><head>Title</head></div></body></text></TEI>"#;
    let report = run(xml);
    assert!(report.is_valid());
    assert_eq!(report.errors.len(), 0);
    assert_eq!(report.warnings.len(), 0);
}

#[test]
fn test_pb_missing_attributes() {
    let xml = r#"<TEI><text><body><pb/></body></text></TEI>"#;
    let report = run(xml);
    assert!(!report.is_valid());
    assert_eq!(report.errors.len(), 2); // missing @ed and @n
    assert_eq!(report.errors[0].text, "<pb> missing @ed");
    assert_eq!(report.errors[1].text, "<pb> missing @n");
    assert_eq!(report.errors[0].line, 1);
    assert_eq!(report.errors[0].column, 18);
}

#[test]
fn test_head_outside_div() {
    let xml = r#"<TEI><text><body><head>Title</head></body></text></TEI>"#;
    let report = run(xml);
    assert!(report.is_valid()); // just a warning
    assert_eq!(report.warnings.len(), 1);
    assert!(report.warnings[0].text.contains("<head> should be inside <div>"));
}

#[test]
fn page_break_with_one_attribute_misses_the_other() {
    let report = run("<tei>\n  <pb ed=\"a\"/>\n  <pb n=\"1\"/>\n  <pb ed=\"a\" n=\"1\"/>\n</tei>");
    assert_eq!(report.errors.len(), 2);
    assert_eq!(report.errors[0].text, "<pb> missing @n");
    assert_eq!((report.errors[0].line, report.errors[0].column), (2, 3));
    assert_eq!(report.errors[1].text, "<pb> missing @ed");
    assert_eq!((report.errors[1].line, report.errors[1].column), (3, 3));
}

#[test]
fn root_that_is_no_tei_gets_a_warning() {
    let report = run("<book><div><head/></div></book>");
    assert!(report.is_valid());
    assert_eq!(report.warnings.len(), 1);
    assert_eq!(
        report.warnings[0].text,
        "Root element should contain 'tei' (case-insensitive), found <book>"
    );
    assert_eq!((report.warnings[0].line, report.warnings[0].column), (0, 0));
    assert!(run("<teiCorpus/>").warnings.is_empty());
    assert!(run("<myTEIdoc/>").warnings.is_empty());
}

#[test]
fn byte_order_mark_is_noted() {
    let report = run("\u{feff}<TEI/>");
    assert!(report.is_valid());
    assert_eq!(report.info.len(), 1);
    assert_eq!(report.info[0].text, "UTF-8 BOM detected (harmless but unnecessary)");
    assert_eq!((report.info[0].line, report.info[0].column), (1, 1));
    assert!(run("<TEI/>").info.is_empty());
}

#[test]
fn root_check_on_given_names() {
    let mut report = Report::new();
    check_root("TEI", "tei", &mut report);
    assert!(report.warnings.is_empty());
    check_root("Book", "book", &mut report);
    assert_eq!(report.warnings.len(), 1);
    validate_root("TeI.2", &mut report);
    assert_eq!(report.warnings.len(), 1);
    validate_root("text", &mut report);
    assert_eq!(report.warnings.len(), 2);
}

#[test]
fn walk_checks_given_nodes() {
    let element = |name: &str, parent: usize, attributes: Vec<&str>, offset: usize| RawNode {
        kind: NodeKind::Element,
        parent: Some(parent),
        name: name.to_string(),
        attributes: attributes.into_iter().map(|a| a.to_string()).collect(),
        offset,
    };
    let nodes = vec![
        RawNode { kind: NodeKind::Root, parent: None, name: String::new(), attributes: vec![], offset: 0 },
        element("TEI", 0, vec![], 0),
        element("div", 1, vec![], 5),
        element("head", 2, vec![], 10),
        element("head", 1, vec![], 17),
        element("pb", 1, vec!["n"], 24),
    ];
    let mut report = Report::new();
    walk(&nodes, "<TEI><div><head/></div><head/><pb n='1'/></TEI>", &mut report);
    assert_eq!(report.warnings.len(), 1);
    assert_eq!(report.warnings[0].text, "<head> should be inside <div>");
    assert_eq!(report.warnings[0].column, 18);
    assert_eq!(report.errors.len(), 1);
    assert_eq!(report.errors[0].text, "<pb> missing @ed");
    assert_eq!(report.errors[0].column, 25);
}

#[test]
fn positions_count_lines_and_characters() {
    assert_eq!(position_at("abc", 0), (1, 1));
    assert_eq!(position_at("abc", 2), (1, 3));
    assert_eq!(position_at("a\nbc", 2), (2, 1));
    assert_eq!(position_at("a\nbc", 3), (2, 2));
    assert_eq!(position_at("a\n\né<x/>", 5), (3, 2));
    assert_eq!(position_at("<!-- comment -->\n<e/>", 9999), (2, 5));
    assert_eq!(position_at("<!-- comment -->\n<e/>", 10), (1, 11));
}

#[test]
fn report_sorts_findings_by_severity() {
    let mut report = Report::new();
    assert!(report.is_valid());
    report.push(1, 2, "w".to_string(), Severity::Warning);
    report.push(3, 4, "i".to_string(), Severity::Info);
    assert!(report.is_valid());
    report.push(5, 6, "e".to_string(), Severity::Error);
    assert!(!report.is_valid());
    assert_eq!(report.errors.len(), 1);
    assert_eq!(report.warnings.len(), 1);
    assert_eq!(report.info.len(), 1);
    assert_eq!((report.errors[0].line, report.errors[0].column), (5, 6));
    assert_eq!(report.errors[0].text, "e");
}

#[test]
fn positions_are_those_of_the_parser() {
    let text = "<!-- é -->\n<TEI>\n  <pb/>\n\t<div>ü<head/></div>\n</TEI>\n";
    let document = roxmltree::Document::parse(text).unwrap();
    for node in document.descendants() {
        let offset = node.range().start;
        let place = document.text_pos_at(offset);
        assert_eq!(position_at(text, offset), (place.row as usize, place.col as usize));
    }
    let end = document.text_pos_at(text.len());
    assert_eq!(position_at(text, text.len()), (end.row as usize, end.col as usize));
}
