use xml_structer::processor::grouping::FingerprintGrouper;
use xml_structer::processor::struct_processor::{
    parse_xml_structure, process_xml_files, summarize, truncate_signature, FailureKind,
    LoadedDocument,
};
use xml_structer::processor::xml_struct::StructureGroup;

fn loaded(id: &str, text: &str) -> LoadedDocument {
    LoadedDocument { id: id.to_string(), content: Ok(text.to_string()) }
}

#[test]
fn test_process_multiple_files() {
    let xml1 = r#"<book><title>Book 1</title><author>Author 1</author></book>"#;
    let xml2 = r#"<book><title>Book 2</title><author>Author 2</author></book>"#;

    let files = vec![loaded("book1.xml", xml1), loaded("book2.xml", xml2)];

    let result = process_xml_files(&files).result;

    assert_eq!(result.total_files, 2);
    assert_eq!(result.unique_structures, 1); // Same structure
    assert_eq!(result.groups[0].count, 2);
}

#[test]
fn test_process_different_structures() {
    let xml1 = r#"<book><title>Test</title></book>"#;
    let xml2 = r#"<article><heading>Test</heading></article>"#;

    let files = vec![loaded("doc1.xml", xml1), loaded("doc2.xml", xml2)];

    let result = process_xml_files(&files).result;

    assert_eq!(result.total_files, 2);
    assert_eq!(result.unique_structures, 2); // Different structures
    assert_eq!(result.groups[0].count, 1);
    assert_eq!(result.groups[1].count, 1);
    assert_eq!(result.groups[0].files, vec!["doc1.xml"]);
    assert_eq!(result.groups[1].files, vec!["doc2.xml"]);
}

#[test]
fn documents_that_differ_in_values_only_share_a_group() {
    let files = vec![
        loaded("a", r#"<book id="1"><title>A</title></book>"#),
        loaded("b", r#"<book id="2"><title>B</title></book>"#),
    ];
    let report = process_xml_files(&files);
    assert!(report.failures.is_empty());
    assert_eq!(report.result.groups.len(), 1);
    assert_eq!(report.result.groups[0].count, 2);
    assert_eq!(report.result.groups[0].files, vec!["a", "b"]);
    assert_eq!(
        report.result.groups[0].signature_string(),
        r#"book:{"@attributes":["id"],"title":{}}"#
    );
}

#[test]
fn malformed_document_is_skipped_and_reported() {
    let files = vec![
        loaded("good", "<a/>"),
        loaded("bad", "<not>closed"),
        LoadedDocument { id: "gone".to_string(), content: Err("no such file".to_string()) },
        loaded("also good", "<a></a>"),
    ];
    let report = process_xml_files(&files);
    assert_eq!(report.result.total_files, 2);
    assert_eq!(report.result.unique_structures, 1);
    assert_eq!(report.result.groups[0].files, vec!["good", "also good"]);
    assert_eq!(report.failures.len(), 2);
    assert_eq!(report.failures[0].document_id, "bad");
    assert_eq!(report.failures[0].kind, FailureKind::Parse);
    assert!(!report.failures[0].message.is_empty());
    assert_eq!(report.failures[1].document_id, "gone");
    assert_eq!(report.failures[1].kind, FailureKind::Io);
    assert_eq!(report.failures[1].message, "no such file");
    let members: usize = report.result.groups.iter().map(|group| group.count).sum();
    assert_eq!(members, files.len() - report.failures.len());
}

#[test]
fn groups_are_ranked_by_size_and_then_by_founding() {
    let files = vec![
        loaded("1", "<a/>"),
        loaded("2", "<b/>"),
        loaded("3", "<c/>"),
        loaded("4", "<c/>"),
        loaded("5", "<d/>"),
        loaded("6", "<b/>"),
        loaded("7", "<c/>"),
    ];
    let result = process_xml_files(&files).result;
    let roots: Vec<&str> = result.groups.iter().map(|group| group.skeleton.root.as_str()).collect();
    let counts: Vec<usize> = result.groups.iter().map(|group| group.count).collect();
    assert_eq!(roots, vec!["c", "b", "a", "d"]);
    assert_eq!(counts, vec![3, 2, 1, 1]);
    assert_eq!(result.total_files, 7);
    assert_eq!(result.unique_structures, 4);
    let lines = summarize(&result);
    assert_eq!(lines.len(), 4);
    assert_eq!(lines[0].rank, 1);
    assert_eq!(lines[0].count, 3);
    assert_eq!(lines[0].hash, result.groups[0].hash());
    assert_eq!(lines[0].signature, "c:{}");
    assert_eq!(lines[3].rank, 4);
    assert_eq!(lines[3].signature, "d:{}");
}

#[test]
fn same_merged_shape_under_another_root_is_another_group() {
    let book = parse_xml_structure("<book><title/></book>").unwrap().to_skeleton();
    let article = parse_xml_structure("<article><title/></article>").unwrap().to_skeleton();
    // the hash is that of the merged shape alone, so the two collide
    assert_eq!(book.hash, article.hash);
    assert!(!book.same_signature(&article));
    let mut grouper = FingerprintGrouper::new();
    grouper.offer("b".to_string(), book, None);
    grouper.offer("a".to_string(), article, None);
    assert_eq!(grouper.group_count(), 2);
    let result = grouper.snapshot();
    assert_eq!(result.unique_structures, 2);
    assert_eq!(result.total_files, 2);
}

#[test]
fn grouper_counts_every_offer_once() {
    let mut grouper = FingerprintGrouper::new();
    assert_eq!(grouper.snapshot().total_files, 0);
    let texts = ["<a/>", "<a x='1'/>", "<a/>", "<a><b/></a>", "<a><b/><b/></a>", "<a x='2'/>"];
    for (index, text) in texts.iter().enumerate() {
        let structure = parse_xml_structure(text).unwrap();
        let skeleton = structure.to_skeleton();
        grouper.offer(format!("doc{}", index), skeleton, Some(structure));
    }
    let result = grouper.snapshot();
    assert_eq!(result.total_files, 6);
    assert_eq!(result.unique_structures, 3);
    let counts: Vec<usize> = result.groups.iter().map(|group| group.count).collect();
    assert_eq!(counts, vec![2, 2, 2]);
    assert_eq!(result.groups[0].files, vec!["doc0", "doc2"]);
    assert_eq!(result.groups[1].files, vec!["doc1", "doc5"]);
    assert_eq!(result.groups[2].files, vec!["doc3", "doc4"]);
    let example = result.groups[2].example_structure.as_ref().unwrap();
    assert_eq!(example.signature(), "a{b}");
}

#[test]
fn group_of_one_and_added_members() {
    let structure = parse_xml_structure("<a><b/></a>").unwrap();
    let mut group = StructureGroup::new(structure, "first".to_string());
    assert_eq!(group.count, 1);
    assert_eq!(group.files, vec!["first"]);
    assert_eq!(group.hash(), group.skeleton.hash);
    group.add_file("second".to_string());
    assert_eq!(group.count, 2);
    assert_eq!(group.files, vec!["first", "second"]);
    assert_eq!(group.signature_string(), "a:{\"b\":{}}");
    let copy = group.clone();
    assert_eq!(copy.files, group.files);
    assert_eq!(copy.count, 2);
}

#[test]
fn long_signatures_are_cut_at_eighty_characters() {
    assert_eq!(truncate_signature("short", 80), "short");
    let long = "é".repeat(81);
    let cut = truncate_signature(&long, 80);
    assert_eq!(cut.chars().count(), 83);
    assert!(cut.ends_with("..."));
    assert_eq!(truncate_signature(&"x".repeat(80), 80), "x".repeat(80));
    assert_eq!(truncate_signature("abcdef", 3), "abc...");
}
