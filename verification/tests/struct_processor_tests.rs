use xml_structer::processor::struct_processor::parse_xml_structure;

#[test]
fn test_parse_simple_book() {
    let xml = r#"
    <book>
        <title>Test Book</title>
        <author>Test Author</author>
        <year>2024</year>
    </book>
    "#;

    let structure = parse_xml_structure(xml).unwrap();

    assert_eq!(structure.name, "book");
    assert_eq!(structure.children.len(), 3);

    let child_names: Vec<String> = structure.children.iter().map(|c| c.name.clone()).collect();

    assert!(child_names.contains(&"title".to_string()));
    assert!(child_names.contains(&"author".to_string()));
    assert!(child_names.contains(&"year".to_string()));
    assert_eq!(child_names, vec!["title", "author", "year"]);
}

#[test]
fn test_parse_with_attributes() {
    let xml = r#"<book id="123" type="fiction"><title lang="en">Test</title></book>"#;

    let structure = parse_xml_structure(xml).unwrap();

    assert_eq!(structure.name, "book");
    assert!(structure.attributes.is_some());

    let attrs = structure.attributes.as_ref().unwrap();
    assert!(attrs.contains_key("id"));
    assert!(attrs.contains_key("type"));

    assert_eq!(structure.children.len(), 1);
    let title = &structure.children[0];
    assert_eq!(title.name, "title");
    assert!(title.attributes.as_ref().unwrap().contains_key("lang"));
}

#[test]
fn test_same_structure_different_values() {
    let xml1 = r#"<book id="123"><title>Book One</title></book>"#;
    let xml2 = r#"<book id="456"><title>Book Two</title></book>"#;

    let structure1 = parse_xml_structure(xml1).unwrap();
    let structure2 = parse_xml_structure(xml2).unwrap();

    // Should have same structure despite different values
    assert_eq!(structure1, structure2);
    assert_eq!(structure1.structure_hash(), structure2.structure_hash());
}

#[test]
fn test_different_structures() {
    let xml1 = r#"<book><title>Test</title></book>"#;
    let xml2 = r#"<book><author>Test</author></book>"#;

    let structure1 = parse_xml_structure(xml1).unwrap();
    let structure2 = parse_xml_structure(xml2).unwrap();

    assert_ne!(structure1, structure2);
    assert_ne!(structure1.structure_hash(), structure2.structure_hash());
}

#[test]
fn test_structure_signature() {
    let xml = r#"<book id="1"><title>Test</title><author>Name</author></book>"#;

    let structure = parse_xml_structure(xml).unwrap();
    let signature = structure.signature();

    assert!(signature.contains("book"));
    assert!(signature.contains("id"));
    assert!(signature.contains("title"));
    assert!(signature.contains("author"));
    assert_eq!(signature, "book[id]{title,author}");
}

#[test]
fn test_deeply_nested_structure() {
    let xml = r#"
    <root>
        <level1>
            <level2>
                <level3>
                    <level4>Deep content</level4>
                </level3>
            </level2>
        </level1>
    </root>
    "#;

    let structure = parse_xml_structure(xml).unwrap();

    assert_eq!(structure.name, "root");
    assert_eq!(structure.children.len(), 1);

    let level1 = &structure.children[0];
    assert_eq!(level1.name, "level1");
    assert_eq!(level1.children.len(), 1);

    let level2 = &level1.children[0];
    assert_eq!(level2.name, "level2");
    assert_eq!(structure.signature(), "root{level1{level2{level3{level4}}}}");
}

#[test]
fn test_attribute_order_doesnt_matter() {
    let xml1 = r#"<book id="1" type="fiction" lang="en"></book>"#;
    let xml2 = r#"<book lang="en" type="fiction" id="2"></book>"#;

    let structure1 = parse_xml_structure(xml1).unwrap();
    let structure2 = parse_xml_structure(xml2).unwrap();

    // Should be equal despite different attribute order
    assert_eq!(structure1, structure2);
}

#[test]
fn test_empty_element() {
    let xml = r#"<book><empty/></book>"#;

    let structure = parse_xml_structure(xml).unwrap();

    assert_eq!(structure.name, "book");
    assert_eq!(structure.children.len(), 1);
    assert_eq!(structure.children[0].name, "empty");
    assert!(structure.children[0].children.is_empty());
}

#[test]
fn test_parse_simple_xml() {
    let xml = r#"<book id="123"><title>Test</title></book>"#;
    let result = parse_xml_structure(xml);

    assert!(result.is_ok());
    let structure = result.unwrap();
    assert_eq!(structure.name, "book");
    assert!(structure.attributes.is_some());
    assert_eq!(structure.children.len(), 1);
}

#[test]
fn test_parse_nested_xml() {
    let xml = r#"
        <book>
            <metadata>
                <author>John Doe</author>
                <year>2024</year>
            </metadata>
            <content>
                <chapter id="1">Chapter 1</chapter>
                <chapter id="2">Chapter 2</chapter>
            </content>
        </book>
        "#;

    let result = parse_xml_structure(xml);
    assert!(result.is_ok());

    let structure = result.unwrap();
    assert_eq!(structure.name, "book");
    assert_eq!(structure.children.len(), 2);
    assert_eq!(
        structure.signature(),
        "book{metadata{author,year},content{chapter[id],chapter[id]}}"
    );
}

#[test]
fn test_attribute_keys_only() {
    let xml = r#"<book id="123" type="fiction" lang="en"></book>"#;
    let structure = parse_xml_structure(xml).unwrap();

    let attrs = structure.attributes.unwrap();
    assert_eq!(attrs.len(), 3);
    assert!(attrs.contains_key("id"));
    assert!(attrs.contains_key("type"));
    assert!(attrs.contains_key("lang"));
}

#[test]
fn malformed_text_is_a_parse_error() {
    let failure = parse_xml_structure("<not>closed").unwrap_err();
    assert!(!failure.message.is_empty());
    assert!(failure.line >= 1);
}

#[test]
fn text_comments_and_instructions_leave_no_trace() {
    let plain = parse_xml_structure("<a><b/><c/></a>").unwrap();
    let noisy = parse_xml_structure(
        "<?xml version=\"1.0\"?><!-- head --><a>text<b><![CDATA[raw]]></b><!-- c --><?pi x?>\n  <c>tail</c></a>",
    )
    .unwrap();
    assert_eq!(plain, noisy);
}
