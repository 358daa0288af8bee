use xml_structer::processor::xml_struct::XmlStructure;

#[test]
fn xml_node_test_xml_structure_basic() {
    let mut root = XmlStructure::new("book".to_string());
    root.add_attribute("id".to_string());

    let mut title = XmlStructure::new("title".to_string());
    title.add_attribute("lang".to_string());

    root.add_child(title);

    assert_eq!(root.name, "book");
    assert!(root.attributes.is_some());
    assert_eq!(root.children.len(), 1);
}

#[test]
fn test_structure_equality() {
    let mut s1 = XmlStructure::new("book".to_string());
    s1.add_attribute("id".to_string());

    let mut s2 = XmlStructure::new("book".to_string());
    s2.add_attribute("id".to_string());

    assert_eq!(s1, s2);
    assert_eq!(s1.structure_hash(), s2.structure_hash());
}
