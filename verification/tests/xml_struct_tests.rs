use xml_structer::processor::key_order::{key_precedence, same_text, Precedence};
use xml_structer::processor::xml_struct::XmlStructure;

#[test]
fn xml_struct_test_xml_structure_basic() {
    let mut root = XmlStructure::new("book".to_string());
    root.add_attribute("id".to_string());

    let mut title = XmlStructure::new("title".to_string());
    title.add_attribute("lang".to_string());

    root.add_child(title);

    assert_eq!(root.name, "book");
    assert!(root.attributes.is_some());
    assert_eq!(root.children.len(), 1);
}

#[test]
fn test_signature_generation() {
    let mut root = XmlStructure::new("book".to_string());
    root.add_attribute("id".to_string());
    root.add_attribute("type".to_string());

    let title = XmlStructure::new("title".to_string());
    root.add_child(title);

    let sig = root.signature();
    assert!(sig.contains("book"));
    assert!(sig.contains("id"));
    assert!(sig.contains("type"));
    assert!(sig.contains("title"));
    assert_eq!(sig, "book[id,type]{title}");
    let skeleton = root.to_skeleton();
    assert_eq!(skeleton.to_compact_string(), "book:{\"@attributes\":[\"id\",\"type\"],\"title\":{}}");
}

#[test]
fn structures_of_one_shape_are_the_same() {
    let mut first = XmlStructure::new("book".to_string());
    first.add_attribute("id".to_string());
    first.add_attribute("type".to_string());
    first.add_child(XmlStructure::new("title".to_string()));

    let mut second = XmlStructure::new("book".to_string());
    second.add_attribute("type".to_string());
    second.add_attribute("id".to_string());
    second.add_attribute("id".to_string());
    second.add_child(XmlStructure::new("title".to_string()));

    assert!(first.same_structure(&second));
    assert_eq!(first, second);
    assert!(first.same_structure(&first.clone()));

    second.add_child(XmlStructure::new("title".to_string()));
    assert!(!first.same_structure(&second));
    let other_name = XmlStructure::new("Book".to_string());
    assert!(!other_name.same_structure(&XmlStructure::new("book".to_string())));
}

#[test]
fn attribute_keys_are_a_set_in_ascending_order() {
    let mut node = XmlStructure::new("n".to_string());
    for key in ["b", "a", "c", "a", "B"] {
        node.add_attribute(key.to_string());
    }
    let keys = node.attributes.as_ref().unwrap();
    assert_eq!(keys.len(), 4);
    assert_eq!(keys.keys(), &vec!["B".to_string(), "a".to_string(), "b".to_string(), "c".to_string()]);
    assert!(keys.contains_key("a"));
    assert!(!keys.contains_key("d"));
    assert_eq!(node.signature(), "n[B,a,b,c]");
}

#[test]
fn key_order_is_the_order_of_rust_strings() {
    let samples = ["", "a", "ab", "b", "B", "é", "e", "z", "日本", "\u{10000}", "\u{ffff}", "a\u{0}"];
    for left in samples {
        for right in samples {
            let wanted = if left < right {
                Precedence::Before
            } else if left == right {
                Precedence::Same
            } else {
                Precedence::After
            };
            assert_eq!(key_precedence(left, right), wanted);
            assert_eq!(same_text(left, right), left == right);
        }
    }
}
