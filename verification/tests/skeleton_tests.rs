use serde_json::Value;
use xml_structer::processor::skeleton::MergedShape;
use xml_structer::processor::struct_processor::parse_xml_structure;
use xml_structer::processor::xml_struct::{SkeletonSignature, XmlStructure};

fn as_json(shape: &MergedShape) -> Value {
    serde_json::from_str(&shape.canonical_text()).unwrap()
}

#[test]
fn test_skeleton_signature_generation() {
    let mut root = XmlStructure::new("book".to_string());
    root.add_attribute("id".to_string());
    root.add_attribute("type".to_string());

    let title = XmlStructure::new("title".to_string());
    root.add_child(title);

    let skeleton = root.to_skeleton();
    assert_eq!(skeleton.root, "book");

    let json = as_json(&skeleton.skeleton);
    let skeleton_obj = json.as_object().unwrap();
    assert!(skeleton_obj.contains_key("@attributes"));
    assert!(skeleton_obj.contains_key("title"));
    assert!(skeleton.skeleton.contains_key("@attributes"));
    assert!(skeleton.skeleton.contains_key("title"));
    assert!(!skeleton.skeleton.contains_key("author"));
}

#[test]
fn test_skeleton_merges_duplicate_children() {
    let mut root = XmlStructure::new("book".to_string());

    // Add two chapter children with same name
    let chapter1 = XmlStructure::new("chapter".to_string());
    let chapter2 = XmlStructure::new("chapter".to_string());

    root.add_child(chapter1);
    root.add_child(chapter2);

    let skeleton = root.to_skeleton();
    let json = as_json(&skeleton.skeleton);
    let skeleton_obj = json.as_object().unwrap();

    // Should only have ONE "chapter" key (merged)
    assert_eq!(skeleton_obj.len(), 1);
    assert!(skeleton_obj.contains_key("chapter"));
    assert_eq!(skeleton.skeleton.bucket_count(), 1);
    assert_eq!(skeleton.skeleton.child_names(), vec!["chapter"]);
}

#[test]
fn test_skeleton_equality_same_structure() {
    let mut s1 = XmlStructure::new("book".to_string());
    s1.add_attribute("id".to_string());
    let title1 = XmlStructure::new("title".to_string());
    s1.add_child(title1);

    let mut s2 = XmlStructure::new("book".to_string());
    s2.add_attribute("id".to_string());
    let title2 = XmlStructure::new("title".to_string());
    s2.add_child(title2);

    let skeleton1 = s1.to_skeleton();
    let skeleton2 = s2.to_skeleton();

    assert_eq!(skeleton1.hash, skeleton2.hash);
    assert_eq!(skeleton1.skeleton, skeleton2.skeleton);
    assert!(skeleton1.same_signature(&skeleton2));
}

#[test]
fn test_skeleton_merges_attributes() {
    let mut root = XmlStructure::new("book".to_string());

    let mut child1 = XmlStructure::new("chapter".to_string());
    child1.add_attribute("id".to_string());

    let mut child2 = XmlStructure::new("chapter".to_string());
    child2.add_attribute("title".to_string());

    root.add_child(child1);
    root.add_child(child2);

    let skeleton = root.to_skeleton();
    let json = as_json(&skeleton.skeleton);
    let skeleton_obj = json.as_object().unwrap();
    let chapter_obj = skeleton_obj.get("chapter").unwrap().as_object().unwrap();
    let attrs = chapter_obj.get("@attributes").unwrap().as_array().unwrap();

    // Should merge both attributes
    assert_eq!(attrs.len(), 2);
    assert!(attrs.contains(&Value::String("id".to_string())));
    assert!(attrs.contains(&Value::String("title".to_string())));
}

#[test]
fn sibling_attribute_keys_are_united() {
    let structure = parse_xml_structure(r#"<r><c x="1"/><c y="2"/></r>"#).unwrap();
    let skeleton = structure.to_skeleton();
    let bucket = skeleton.skeleton.child("c").unwrap();
    assert_eq!(bucket.attribute_keys().keys(), &vec!["x".to_string(), "y".to_string()]);
    assert_eq!(skeleton.to_compact_string(), r#"r:{"c":{"@attributes":["x","y"]}}"#);
}

#[test]
fn attributes_of_a_later_sibling_are_not_lost() {
    let first = parse_xml_structure(r#"<r><c/><c id="1"/></r>"#).unwrap().to_skeleton();
    let second = parse_xml_structure(r#"<r><c id="1"/><c/></r>"#).unwrap().to_skeleton();
    assert!(first.same_signature(&second));
    assert_eq!(first.to_compact_string(), r#"r:{"c":{"@attributes":["id"]}}"#);
}

#[test]
fn element_without_attributes_and_children_is_the_empty_mapping() {
    let skeleton = XmlStructure::new("leaf".to_string()).to_skeleton();
    assert_eq!(skeleton.skeleton.canonical_text(), "{}");
    assert_eq!(skeleton.skeleton.bucket_count(), 0);
    assert!(skeleton.skeleton.attribute_keys().is_empty());
    assert_eq!(skeleton.to_compact_string(), "leaf:{}");
    assert_eq!(as_json(&skeleton.skeleton), Value::Object(serde_json::Map::new()));
}

#[test]
fn single_child_reduces_to_its_own_reduction() {
    let structure = parse_xml_structure(r#"<a><b k="v"><c/></b></a>"#).unwrap();
    let child = parse_xml_structure(r#"<b k="v"><c/></b>"#).unwrap();
    let skeleton = structure.to_skeleton();
    let inner = skeleton.skeleton.child("b").unwrap();
    assert!(inner.same_shape(&child.to_skeleton().skeleton));
}

#[test]
fn names_differing_in_case_are_distinct() {
    let upper = parse_xml_structure("<Book><Title/></Book>").unwrap().to_skeleton();
    let lower = parse_xml_structure("<book><title/></book>").unwrap().to_skeleton();
    assert!(!upper.same_signature(&lower));
    assert_ne!(upper.hash, lower.hash);
    assert_ne!(upper.root, lower.root);
}

#[test]
fn reduction_is_repeatable() {
    let structure =
        parse_xml_structure(r#"<book id="1"><ch n="1"><p/></ch><ch><p a="b"/><q/></ch></book>"#)
            .unwrap();
    let once = structure.to_skeleton();
    let twice = structure.to_skeleton();
    assert_eq!(once, twice);
    assert_eq!(once.hash, twice.hash);
    assert_eq!(once.to_compact_string(), twice.to_compact_string());
    assert_eq!(
        once.to_compact_string(),
        r#"book:{"@attributes":["id"],"ch":{"@attributes":["n"],"p":{"@attributes":["a"]},"q":{}}}"#
    );
}

#[test]
fn buckets_come_in_ascending_order_of_their_names() {
    let structure = parse_xml_structure("<r><zeta/><alpha/><Mid/><alpha/></r>").unwrap();
    let skeleton = structure.to_skeleton();
    assert_eq!(skeleton.skeleton.child_names(), vec!["Mid", "alpha", "zeta"]);
    assert_eq!(skeleton.skeleton.canonical_text(), r#"{"Mid":{},"alpha":{},"zeta":{}}"#);
}

#[test]
fn merge_is_a_union_and_ignores_the_order_of_its_operands() {
    let a = parse_xml_structure(r#"<r x="1"><p/><q i="1"/></r>"#).unwrap().to_skeleton();
    let b = parse_xml_structure(r#"<r y="1"><q j="1"><s/></q><t/></r>"#).unwrap().to_skeleton();
    let ab = a.skeleton.merge(&b.skeleton);
    let ba = b.skeleton.merge(&a.skeleton);
    assert!(ab.same_shape(&ba));
    assert_eq!(
        ab.canonical_text(),
        r#"{"@attributes":["x","y"],"p":{},"q":{"@attributes":["i","j"],"s":{}},"t":{}}"#
    );
    assert!(a.skeleton.merge(&a.skeleton).same_shape(&a.skeleton));
    assert!(ab.merge(&MergedShape::new()).same_shape(&ab));
}

#[test]
fn canonical_text_escapes_as_json_does() {
    let mut node = XmlStructure::new("r".to_string());
    node.add_attribute("a\"b\\c\n\t\u{1}\u{1f}é".to_string());
    let skeleton = node.to_skeleton();
    let text = skeleton.skeleton.canonical_text();
    assert_eq!(text, "{\"@attributes\":[\"a\\\"b\\\\c\\n\\t\\u0001\\u001fé\"]}");
    let json = as_json(&skeleton.skeleton);
    let keys = json.get("@attributes").unwrap().as_array().unwrap();
    assert_eq!(keys[0], Value::String("a\"b\\c\n\t\u{1}\u{1f}é".to_string()));
    let mut expected = serde_json::Map::new();
    expected.insert(
        "@attributes".to_string(),
        Value::Array(vec![Value::String("a\"b\\c\n\t\u{1}\u{1f}é".to_string())]),
    );
    assert_eq!(text, Value::Object(expected).to_string());
}

#[test]
fn signature_copies_are_equal() {
    let skeleton =
        SkeletonSignature::from_structure(&parse_xml_structure("<a b='1'><c/></a>").unwrap());
    let copy = skeleton.clone();
    assert_eq!(skeleton, copy);
    assert!(skeleton.same_signature(&copy));
}

fn as_value(shape: &MergedShape) -> Value {
    let mut object = serde_json::Map::new();
    let keys = shape.attribute_keys().keys();
    if !keys.is_empty() {
        object.insert(
            "@attributes".to_string(),
            Value::Array(keys.iter().map(|key| Value::String(key.clone())).collect()),
        );
    }
    for name in shape.child_names() {
        let inner = as_value(shape.child(&name).unwrap());
        object.insert(name, inner);
    }
    Value::Object(object)
}

#[test]
fn canonical_text_is_the_text_of_the_json_value() {
    let documents = [
        "<a/>",
        r#"<book id="1"><title>A</title></book>"#,
        r#"<r b="1" a="2"><z/><y k="v"><x/><x j="1"/></y><z q="1"/></r>"#,
        "<TEI><text><body><div><head>Title</head><p/><p n='1'/></div></body></text></TEI>",
        "<a><b><c><d><e f='g'/></d></c></b></a>",
    ];
    for document in documents {
        let skeleton = parse_xml_structure(document).unwrap().to_skeleton();
        assert_eq!(skeleton.skeleton.canonical_text(), as_value(&skeleton.skeleton).to_string());
        assert_eq!(as_json(&skeleton.skeleton), as_value(&skeleton.skeleton));
    }
}

#[test]
fn two_chapters_make_one_bucket() {
    let skeleton = parse_xml_structure("<book><chapter/><chapter/></book>").unwrap().to_skeleton();
    assert_eq!(skeleton.skeleton.bucket_count(), 1);
    assert_eq!(skeleton.skeleton.child_names(), vec!["chapter"]);
    assert_eq!(skeleton.to_compact_string(), r#"book:{"chapter":{}}"#);
    let json = as_json(&skeleton.skeleton);
    assert_eq!(json.as_object().unwrap().len(), 1);
}

#[test]
fn order_of_siblings_does_not_matter() {
    let first = parse_xml_structure(r#"<r><a x="1"/><b/><a y="2"><c/></a></r>"#).unwrap();
    let second = parse_xml_structure(r#"<r><a y="2"><c/></a><a x="1"/><b/></r>"#).unwrap();
    assert_ne!(first, second);
    assert!(first.to_skeleton().same_signature(&second.to_skeleton()));
    assert_eq!(first.to_skeleton().hash, second.to_skeleton().hash);
}

#[test]
fn differences_at_depth_show_in_the_skeleton() {
    let base = parse_xml_structure("<r><a><b k='1'><c/></b></a></r>").unwrap().to_skeleton();
    let other_name = parse_xml_structure("<r><a><b k='1'><d/></b></a></r>").unwrap().to_skeleton();
    let other_key = parse_xml_structure("<r><a><b j='1'><c/></b></a></r>").unwrap().to_skeleton();
    let more_children =
        parse_xml_structure("<r><a><b k='1'><c/><e/></b></a></r>").unwrap().to_skeleton();
    for other in [&other_name, &other_key, &more_children] {
        assert!(!base.same_signature(other));
        assert_ne!(base.hash, other.hash);
        assert_ne!(base.to_compact_string(), other.to_compact_string());
    }
}

#[test]
fn repeated_siblings_hide_which_instance_had_what() {
    let spread = parse_xml_structure(r#"<r><c x=""/><c y=""/></r>"#).unwrap().to_skeleton();
    let joint = parse_xml_structure(r#"<r><c x="" y=""/></r>"#).unwrap().to_skeleton();
    assert!(spread.same_signature(&joint));
}
