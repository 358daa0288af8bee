//! What holds of the reduction of a shape to its skeleton.

use crate::processor::attribute_keys::union_keys;
use crate::processor::canonical::canonical_text;
use crate::processor::skeleton::{
    bucket_names, lemma_merged_well_formed, lone_bucket, merged, merged_buckets,
    reduced, reduced_upto, well_formed, BucketModel, SkeletonModel,
};
use crate::processor::skeleton_laws::{
    lemma_merged_associative, lemma_merged_commutative, lemma_merged_holds_both,
};
use crate::processor::xml_struct::{
    shape_well_formed, skeleton_of, text_digest, ShapeNode, XmlStructure,
};
use vstd::prelude::*;

verus! {

/// The shape with two neighbouring children in each other's place.
pub open spec fn with_swapped_children(node: ShapeNode, at: int) -> ShapeNode {
    ShapeNode {
        children: node.children.update(at, node.children[at + 1]).update(at + 1, node.children[at]),
        ..node
    }
}

/// The bucket that one child brings to the skeleton of its parent.
pub open spec fn child_bucket(node: ShapeNode, index: int) -> SkeletonModel {
    lone_bucket(node.children[index].name, reduced(node.children[index]))
}

/// The skeleton of a well-formed shape is well-formed.
pub proof fn lemma_reduced_well_formed(node: ShapeNode)
    requires
        shape_well_formed(node),
    ensures
        well_formed(reduced(node)),
    decreases node, node.children.len() + 1,
{
    lemma_reduced_upto_well_formed(node, node.children.len() as int);
}

/// The skeleton of a well-formed shape with only its first children is
/// well-formed, and so is the bucket that each child brings.
pub proof fn lemma_reduced_upto_well_formed(node: ShapeNode, count: int)
    requires
        shape_well_formed(node),
    ensures
        well_formed(reduced_upto(node, count)),
        0 < count <= node.children.len() ==> well_formed(child_bucket(node, count - 1)),
    decreases node, count,
{
    if 0 < count <= node.children.len() {
        lemma_reduced_upto_well_formed(node, count - 1);
        lemma_reduced_well_formed(node.children[count - 1]);
        let lone = child_bucket(node, count - 1);
        assert(bucket_names(lone.children) =~= seq![node.children[count - 1].name]);
        lemma_merged_well_formed(reduced_upto(node, count - 1), lone);
    } else {
        assert(bucket_names(Seq::<BucketModel>::empty()) =~= Seq::empty());
    }
}

/// Reduction is a function of the shape alone: two structures of the same
/// shape have the same skeleton, with the same canonical text and the same
/// hash, however often and wherever they are reduced.
pub proof fn lemma_reduction_repeatable(first: XmlStructure, second: XmlStructure)
    requires
        first@ == second@,
    ensures
        skeleton_of(first@) == skeleton_of(second@),
        canonical_text(skeleton_of(first@).skeleton) == canonical_text(
            skeleton_of(second@).skeleton,
        ),
        skeleton_of(first@).hash == skeleton_of(second@).hash,
        skeleton_of(first@).hash == text_digest(canonical_text(reduced(first@))),
{
}

/// The skeleton of a shape with only its first `count` children does not
/// depend on the children from `count` on.
proof fn lemma_reduced_upto_same_prefix(a: ShapeNode, b: ShapeNode, count: int)
    requires
        a.attribute_keys == b.attribute_keys,
        0 <= count <= a.children.len(),
        count <= b.children.len(),
        forall|i: int| 0 <= i < count ==> a.children[i] == b.children[i],
    ensures
        reduced_upto(a, count) == reduced_upto(b, count),
    decreases count,
{
    if count > 0 {
        lemma_reduced_upto_same_prefix(a, b, count - 1);
    }
}

/// The order of siblings does not matter: a well-formed shape and the shape
/// with two neighbouring children in each other's place have the same
/// skeleton.
pub proof fn lemma_sibling_order_irrelevant(node: ShapeNode, at: int)
    requires
        shape_well_formed(node),
        0 <= at,
        at + 1 < node.children.len(),
    ensures
        reduced(with_swapped_children(node, at)) == reduced(node),
{
    let other = with_swapped_children(node, at);
    lemma_reduced_upto_same_prefix(node, other, at);
    let before = reduced_upto(node, at);
    let first = child_bucket(node, at);
    let second = child_bucket(node, at + 1);
    lemma_reduced_upto_well_formed(node, at);
    lemma_reduced_upto_well_formed(node, at + 1);
    lemma_reduced_upto_well_formed(node, at + 2);
    assert(reduced_upto(node, at + 2) == merged(merged(before, first), second));
    assert(reduced_upto(other, at + 1) == merged(before, second));
    assert(reduced_upto(other, at + 2) == merged(merged(before, second), first));
    lemma_merged_associative(before, first, second);
    lemma_merged_associative(before, second, first);
    lemma_merged_commutative(first, second);
    lemma_swapped_tail(node, at, node.children.len() as int);
}

/// From the swapped pair on, both shapes have the same children and so the
/// same skeleton.
proof fn lemma_swapped_tail(node: ShapeNode, at: int, count: int)
    requires
        0 <= at,
        at + 2 <= count <= node.children.len(),
        reduced_upto(with_swapped_children(node, at), at + 2) == reduced_upto(node, at + 2),
    ensures
        reduced_upto(with_swapped_children(node, at), count) == reduced_upto(node, count),
    decreases count,
{
    if count > at + 2 {
        lemma_swapped_tail(node, at, count - 1);
    }
}

/// Sibling-merge correctness: where an element has exactly two children,
/// both of one name, its skeleton has exactly one bucket, under that name,
/// which holds the union of the two children's skeletons; the attribute
/// names of that bucket are exactly those of either child.
pub proof fn lemma_two_siblings_of_one_name(node: ShapeNode)
    requires
        shape_well_formed(node),
        node.children.len() == 2,
        node.children[0].name == node.children[1].name,
    ensures
        reduced(node).attributes == node.attribute_keys,
        reduced(node).children == seq![
            BucketModel {
                name: node.children[0].name,
                shape: merged(reduced(node.children[0]), reduced(node.children[1])),
            },
        ],
        forall|key: Seq<char>| #[trigger]
            reduced(node).children[0].shape.attributes.contains(key)
                <==> node.children[0].attribute_keys.contains(key)
                || node.children[1].attribute_keys.contains(key),
{
    let first = reduced(node.children[0]);
    let second = reduced(node.children[1]);
    lemma_reduced_well_formed(node.children[0]);
    lemma_reduced_well_formed(node.children[1]);
    lemma_reduced_attributes(node.children[0]);
    lemma_reduced_attributes(node.children[1]);
    lemma_merged_holds_both(first, second);
    let start = reduced_upto(node, 0);
    let one = reduced_upto(node, 1);
    assert(one == merged(start, child_bucket(node, 0)));
    assert(union_keys(start.attributes, Seq::empty()) =~= node.attribute_keys);
    assert(merged_buckets(start.children, child_bucket(node, 0).children) =~= child_bucket(
        node,
        0,
    ).children);
    assert(reduced(node) == merged(one, child_bucket(node, 1)));
    assert(union_keys(one.attributes, Seq::empty()) =~= node.attribute_keys);
    let x = one.children;
    let y = child_bucket(node, 1).children;
    assert(x.drop_first() =~= Seq::<BucketModel>::empty());
    assert(y.drop_first() =~= Seq::<BucketModel>::empty());
    assert(merged_buckets(x.drop_first(), y.drop_first()) =~= Seq::<BucketModel>::empty());
    assert(merged_buckets(x, y) =~= seq![
        BucketModel { name: node.children[0].name, shape: merged(first, second) },
    ]);
}

/// The skeleton of a shape has the attribute names of the shape itself.
pub proof fn lemma_reduced_attributes(node: ShapeNode)
    ensures
        reduced(node).attributes == node.attribute_keys,
{
    lemma_reduced_upto_attributes(node, node.children.len() as int);
}

proof fn lemma_reduced_upto_attributes(node: ShapeNode, count: int)
    ensures
        reduced_upto(node, count).attributes == node.attribute_keys,
    decreases count,
{
    if 0 < count <= node.children.len() {
        lemma_reduced_upto_attributes(node, count - 1);
        assert(union_keys(node.attribute_keys, Seq::empty()) =~= node.attribute_keys);
    }
}

} // verus!
