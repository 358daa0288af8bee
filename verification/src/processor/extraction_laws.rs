//! What holds of the shape that is read from the nodes of a document.

use crate::processor::attribute_keys::{lemma_listing_ignores_order, lemma_listing_of};
use crate::processor::struct_processor::{child_shapes, document_shape, element_shape, is_child};
use crate::processor::xml_source::{NodeKind, NodeRecord};
use crate::processor::xml_struct::{shape_well_formed, skeleton_of};
use vstd::prelude::*;

verus! {

/// Two listings of nodes agree in all that the shape depends on: node for
/// node the same kind, the same parent, the same name, and the same
/// attribute names, in whatever order these are written. Where a node
/// starts in the text plays no part.
pub open spec fn same_outline(a: Seq<NodeRecord>, b: Seq<NodeRecord>) -> bool {
    &&& a.len() == b.len()
    &&& forall|i: int|
        0 <= i < a.len() ==> {
            &&& (#[trigger] a[i]).kind == b[i].kind
            &&& a[i].parent == b[i].parent
            &&& a[i].name == b[i].name
            &&& forall|key: Seq<char>|
                #![trigger a[i].attributes.contains(key)]
                #![trigger b[i].attributes.contains(key)]
                a[i].attributes.contains(key) <==> b[i].attributes.contains(key)
        }
}

/// The shape of an element is the same in two listings of the same outline.
pub proof fn lemma_element_shape_agrees(a: Seq<NodeRecord>, b: Seq<NodeRecord>, index: int)
    requires
        same_outline(a, b),
    ensures
        element_shape(a, index) == element_shape(b, index),
    decreases a.len() - index, a.len() - index,
{
    if 0 <= index < a.len() {
        assert(a[index].kind == b[index].kind);
        lemma_listing_ignores_order(a[index].attributes, b[index].attributes);
        lemma_child_shapes_agree(a, b, index, index + 1);
    }
}

/// The shapes of the children of a node are the same in two listings of
/// the same outline.
pub proof fn lemma_child_shapes_agree(
    a: Seq<NodeRecord>,
    b: Seq<NodeRecord>,
    parent: int,
    from: int,
)
    requires
        same_outline(a, b),
    ensures
        child_shapes(a, parent, from) == child_shapes(b, parent, from),
    decreases a.len() - parent, a.len() - from,
{
    if 0 <= parent < from < a.len() {
        assert(a[from].kind == b[from].kind);
        assert(is_child(a, from, parent) == is_child(b, from, parent));
        if is_child(a, from, parent) {
            lemma_element_shape_agrees(a, b, from);
        }
        lemma_child_shapes_agree(a, b, parent, from + 1);
    }
}

/// Value independence and attribute-order independence: documents whose
/// nodes have the same outline have the same shape and so the same
/// skeleton, with the same hash. Neither an attribute's value nor the text
/// of an element is among what is read of a node, and the order in which
/// the attributes of an element are written does not enter the shape.
pub proof fn lemma_shape_ignores_values_and_order(a: Seq<NodeRecord>, b: Seq<NodeRecord>)
    requires
        same_outline(a, b),
    ensures
        document_shape(a) == document_shape(b),
        document_shape(a) matches Some(shape) ==> skeleton_of(shape) == skeleton_of(
            document_shape(b)->0,
        ),
{
    lemma_child_shapes_agree(a, b, 0, 1);
}

/// The shape of an element is well-formed: at every level its attribute
/// names are an ascending listing.
pub proof fn lemma_element_shape_well_formed(nodes: Seq<NodeRecord>, index: int)
    ensures
        shape_well_formed(element_shape(nodes, index)),
    decreases nodes.len() - index, nodes.len() - index,
{
    if 0 <= index < nodes.len() {
        lemma_listing_of(nodes[index].attributes);
        lemma_child_shapes_well_formed(nodes, index, index + 1);
        let shape = element_shape(nodes, index);
        assert forall|i: int| 0 <= i < shape.children.len() implies shape_well_formed(
            #[trigger] shape.children[i],
        ) by {
            assert(shape.children[i] == child_shapes(nodes, index, index + 1)[i]);
        }
    }
}

/// The shapes of the children of a node are well-formed, and each is the
/// shape of an element that stands behind the node.
pub proof fn lemma_child_shapes_well_formed(nodes: Seq<NodeRecord>, parent: int, from: int)
    ensures
        forall|i: int|
            0 <= i < child_shapes(nodes, parent, from).len() ==> shape_well_formed(
                #[trigger] child_shapes(nodes, parent, from)[i],
            ),
    decreases nodes.len() - parent, nodes.len() - from,
{
    if 0 <= parent < from < nodes.len() {
        lemma_child_shapes_well_formed(nodes, parent, from + 1);
        let all = child_shapes(nodes, parent, from);
        let rest = child_shapes(nodes, parent, from + 1);
        if is_child(nodes, from, parent) {
            lemma_element_shape_well_formed(nodes, from);
            assert(all =~= seq![element_shape(nodes, from)] + rest);
            assert forall|i: int| 0 <= i < all.len() implies shape_well_formed(
                #[trigger] all[i],
            ) by {
                if i > 0 {
                    assert(all[i] == rest[i - 1]);
                }
            }
        } else {
            assert(all =~= rest);
        }
    }
}

/// The shape of a document is well-formed.
pub proof fn lemma_document_shape_well_formed(nodes: Seq<NodeRecord>)
    ensures
        document_shape(nodes) matches Some(shape) ==> shape_well_formed(shape),
{
    lemma_child_shapes_well_formed(nodes, 0, 1);
}

/// Where an index stands once the node at `gone` has been taken out.
pub open spec fn moved_up(index: int, gone: int) -> int {
    if index > gone {
        index - 1
    } else {
        index
    }
}

/// The listing without the node at `gone`: the nodes behind it move up by
/// one, and so do the parents that stood behind it.
pub open spec fn without_node(nodes: Seq<NodeRecord>, gone: int) -> Seq<NodeRecord> {
    Seq::new(
        (nodes.len() - 1) as nat,
        |i: int|
            {
                let node = if i < gone {
                    nodes[i]
                } else {
                    nodes[i + 1]
                };
                NodeRecord {
                    parent: match node.parent {
                        Some(parent) => Some(moved_up(parent, gone)),
                        None => None,
                    },
                    ..node
                }
            },
    )
}

/// The node at `gone` is no element and has no children: it is a text, a
/// comment or a processing instruction.
pub open spec fn is_leaf_without_shape(nodes: Seq<NodeRecord>, gone: int) -> bool {
    &&& 0 < gone < nodes.len()
    &&& nodes[gone].kind != NodeKind::Element
    &&& forall|i: int| 0 <= i < nodes.len() ==> (#[trigger] nodes[i]).parent != Some(gone)
}

/// The shape of an element is the same without a node that has no shape.
pub proof fn lemma_element_shape_without_node(nodes: Seq<NodeRecord>, gone: int, index: int)
    requires
        is_leaf_without_shape(nodes, gone),
        0 <= index < nodes.len(),
        index != gone,
    ensures
        element_shape(without_node(nodes, gone), moved_up(index, gone)) == element_shape(
            nodes,
            index,
        ),
    decreases nodes.len() - index, nodes.len() - index,
{
    lemma_child_shapes_without_node(nodes, gone, index, index + 1);
    assert(moved_up(index + 1, gone) == moved_up(index, gone) + 1);
}

/// The shapes of the children of a node are the same without a node that
/// has no shape.
pub proof fn lemma_child_shapes_without_node(
    nodes: Seq<NodeRecord>,
    gone: int,
    parent: int,
    from: int,
)
    requires
        is_leaf_without_shape(nodes, gone),
        0 <= parent < from,
        parent < nodes.len(),
        parent != gone,
    ensures
        child_shapes(without_node(nodes, gone), moved_up(parent, gone), moved_up(from, gone))
            == child_shapes(nodes, parent, from),
    decreases nodes.len() - parent, nodes.len() - from,
{
    let fewer = without_node(nodes, gone);
    let up_parent = moved_up(parent, gone);
    let up_from = moved_up(from, gone);
    if from < nodes.len() {
        lemma_child_shapes_without_node(nodes, gone, parent, from + 1);
        if from == gone {
            // the node that is taken out brings no shape
            assert(!is_child(nodes, from, parent));
            assert(moved_up(from + 1, gone) == up_from);
            assert(child_shapes(nodes, parent, from) =~= child_shapes(nodes, parent, from + 1));
        } else {
            assert(moved_up(from + 1, gone) == up_from + 1);
            assert(0 <= up_parent < up_from < fewer.len());
            assert(nodes[from].parent != Some(gone));
            assert(is_child(fewer, up_from, up_parent) == is_child(nodes, from, parent)) by {
                match nodes[from].parent {
                    Some(other) => {
                        assert(moved_up(other, gone) == up_parent <==> other == parent);
                    },
                    None => {},
                }
            }
            if is_child(nodes, from, parent) {
                lemma_element_shape_without_node(nodes, gone, from);
            }
        }
    } else {
        assert(up_from >= fewer.len());
    }
}

/// Text, comments and processing instructions leave no trace: a document
/// and the same document without one such node have the same shape, and so
/// the same skeleton.
pub proof fn lemma_shape_ignores_other_nodes(nodes: Seq<NodeRecord>, gone: int)
    requires
        is_leaf_without_shape(nodes, gone),
    ensures
        document_shape(without_node(nodes, gone)) == document_shape(nodes),
{
    lemma_child_shapes_without_node(nodes, gone, 0, 1);
}

} // verus!
