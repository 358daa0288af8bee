//! What a skeleton tells of a document, and what it does not.
//!
//! A path is a sequence of element names, read downwards from the root
//! element. A skeleton records exactly two things beside the root's name:
//! the paths along which some element of the document is reached, and, for
//! each such path, the attribute names that occur on any element reached
//! along it. Documents that differ in either have different skeletons;
//! documents that agree in both have the same.

use crate::processor::attribute_keys::lemma_union_keys;
use crate::processor::key_order::lemma_ascending_unique;
use crate::processor::reduction_laws::{
    child_bucket, lemma_reduced_attributes, lemma_reduced_upto_well_formed,
    lemma_reduced_well_formed,
};
use crate::processor::skeleton::{
    bucket_of, merged, reduced, reduced_upto, well_formed, BucketModel, SkeletonModel,
};
use crate::processor::skeleton_laws::{
    lemma_bucket_of, lemma_buckets_unique, lemma_merged_buckets_lookup,
};
use crate::processor::xml_struct::{shape_well_formed, skeleton_of, ShapeNode};
use vstd::prelude::*;

verus! {

/// Whether some element is reached from `node` along `path`: the empty path
/// reaches the node itself, a longer one leads through a child of the
/// path's first name.
pub open spec fn reaches(node: ShapeNode, path: Seq<Seq<char>>) -> bool
    decreases path.len(),
{
    path.len() == 0 || exists|i: int|
        0 <= i < node.children.len() && (#[trigger] node.children[i]).name == path[0] && reaches(
            node.children[i],
            path.drop_first(),
        )
}

/// Whether some element that is reached from `node` along `path` has an
/// attribute of the name `key`.
pub open spec fn carries(node: ShapeNode, path: Seq<Seq<char>>, key: Seq<char>) -> bool
    decreases path.len(),
{
    if path.len() == 0 {
        node.attribute_keys.contains(key)
    } else {
        exists|i: int|
            0 <= i < node.children.len() && (#[trigger] node.children[i]).name == path[0]
                && carries(node.children[i], path.drop_first(), key)
    }
}

/// Whether the merged shape has a bucket at the end of `path`.
pub open spec fn skeleton_reaches(shape: SkeletonModel, path: Seq<Seq<char>>) -> bool
    decreases path.len(),
{
    path.len() == 0 || match bucket_of(shape.children, path[0]) {
        Some(inner) => skeleton_reaches(inner, path.drop_first()),
        None => false,
    }
}

/// Whether the merged shape records the attribute name `key` at the end of
/// `path`.
pub open spec fn skeleton_carries(
    shape: SkeletonModel,
    path: Seq<Seq<char>>,
    key: Seq<char>,
) -> bool
    decreases path.len(),
{
    if path.len() == 0 {
        shape.attributes.contains(key)
    } else {
        match bucket_of(shape.children, path[0]) {
            Some(inner) => skeleton_carries(inner, path.drop_first(), key),
            None => false,
        }
    }
}

/// The bucket that a well-formed shape has under a name is well-formed.
proof fn lemma_bucket_well_formed(shape: SkeletonModel, name: Seq<char>)
    requires
        well_formed(shape),
    ensures
        bucket_of(shape.children, name) matches Some(inner) ==> well_formed(inner),
{
    lemma_bucket_of(shape.children, name);
}

/// The union of two shapes reaches what either reaches and records what
/// either records.
pub proof fn lemma_merged_paths(
    a: SkeletonModel,
    b: SkeletonModel,
    path: Seq<Seq<char>>,
    key: Seq<char>,
)
    requires
        well_formed(a),
        well_formed(b),
    ensures
        skeleton_reaches(merged(a, b), path) == (skeleton_reaches(a, path) || skeleton_reaches(
            b,
            path,
        )),
        skeleton_carries(merged(a, b), path, key) == (skeleton_carries(a, path, key)
            || skeleton_carries(b, path, key)),
    decreases path.len(),
{
    if path.len() == 0 {
        lemma_union_keys(a.attributes, b.attributes);
    } else {
        lemma_merged_buckets_lookup(a.children, b.children, path[0]);
        lemma_bucket_well_formed(a, path[0]);
        lemma_bucket_well_formed(b, path[0]);
        match (bucket_of(a.children, path[0]), bucket_of(b.children, path[0])) {
            (Some(p), Some(q)) => {
                lemma_merged_paths(p, q, path.drop_first(), key);
            },
            _ => {},
        }
    }
}

/// Whether one of the first `count` children of `node` has the path's
/// first name and reaches along the rest of the path.
pub open spec fn reaches_among(node: ShapeNode, count: int, path: Seq<Seq<char>>) -> bool {
    exists|i: int|
        0 <= i < count && i < node.children.len() && (#[trigger] node.children[i]).name == path[0]
            && reaches(node.children[i], path.drop_first())
}

/// Whether one of the first `count` children of `node` has the path's
/// first name and carries `key` along the rest of the path.
pub open spec fn carries_among(
    node: ShapeNode,
    count: int,
    path: Seq<Seq<char>>,
    key: Seq<char>,
) -> bool {
    exists|i: int|
        0 <= i < count && i < node.children.len() && (#[trigger] node.children[i]).name == path[0]
            && carries(node.children[i], path.drop_first(), key)
}

/// The skeleton of a shape reaches exactly along the paths along which the
/// shape reaches, and records at each path exactly the attribute names that
/// the shape carries there.
pub proof fn lemma_reduced_paths(node: ShapeNode, path: Seq<Seq<char>>, key: Seq<char>)
    requires
        shape_well_formed(node),
    ensures
        skeleton_reaches(reduced(node), path) == reaches(node, path),
        skeleton_carries(reduced(node), path, key) == carries(node, path, key),
    decreases node, node.children.len() + 1,
{
    if path.len() == 0 {
        lemma_reduced_attributes(node);
    } else {
        lemma_reduced_upto_paths(node, node.children.len() as int, path, key);
    }
}

/// The skeleton of a shape with only its first `count` children reaches and
/// records what those children reach and carry.
pub proof fn lemma_reduced_upto_paths(
    node: ShapeNode,
    count: int,
    path: Seq<Seq<char>>,
    key: Seq<char>,
)
    requires
        shape_well_formed(node),
        0 <= count <= node.children.len(),
        path.len() > 0,
    ensures
        skeleton_reaches(reduced_upto(node, count), path) == reaches_among(node, count, path),
        skeleton_carries(reduced_upto(node, count), path, key) == carries_among(
            node,
            count,
            path,
            key,
        ),
    decreases node, count,
{
    if count > 0 {
        let child = node.children[count - 1];
        let earlier = reduced_upto(node, count - 1);
        let lone = child_bucket(node, count - 1);
        lemma_reduced_upto_paths(node, count - 1, path, key);
        lemma_reduced_upto_well_formed(node, count - 1);
        lemma_reduced_upto_well_formed(node, count);
        lemma_merged_paths(earlier, lone, path, key);
        lemma_reduced_paths(child, path.drop_first(), key);
        // what the lone bucket reaches and records
        assert(bucket_of(lone.children, path[0]) == if child.name == path[0] {
            Some(reduced(child))
        } else {
            None
        }) by {
            assert(lone.children.drop_first() =~= Seq::<BucketModel>::empty());
            assert(bucket_of(lone.children.drop_first(), path[0]) is None);
        }
        assert(skeleton_reaches(lone, path) == (child.name == path[0] && reaches(
            child,
            path.drop_first(),
        )));
        assert(skeleton_carries(lone, path, key) == (child.name == path[0] && carries(
            child,
            path.drop_first(),
            key,
        )));
        if reaches_among(node, count, path) {
            let i = choose|i: int|
                0 <= i < count && i < node.children.len() && (#[trigger] node.children[i]).name
                    == path[0] && reaches(node.children[i], path.drop_first());
            if i < count - 1 {
                assert(reaches_among(node, count - 1, path));
            }
        }
        if reaches_among(node, count - 1, path) {
            let i = choose|i: int|
                0 <= i < count - 1 && i < node.children.len() && (#[trigger] node.children[i]).name
                    == path[0] && reaches(node.children[i], path.drop_first());
            assert(reaches_among(node, count, path));
        }
        if child.name == path[0] && reaches(child, path.drop_first()) {
            assert(node.children[count - 1].name == path[0]);
            assert(reaches_among(node, count, path));
        }
        if carries_among(node, count, path, key) {
            let i = choose|i: int|
                0 <= i < count && i < node.children.len() && (#[trigger] node.children[i]).name
                    == path[0] && carries(node.children[i], path.drop_first(), key);
            if i < count - 1 {
                assert(carries_among(node, count - 1, path, key));
            }
        }
        if carries_among(node, count - 1, path, key) {
            let i = choose|i: int|
                0 <= i < count - 1 && i < node.children.len() && (#[trigger] node.children[i]).name
                    == path[0] && carries(node.children[i], path.drop_first(), key);
            assert(carries_among(node, count, path, key));
        }
        if child.name == path[0] && carries(child, path.drop_first(), key) {
            assert(node.children[count - 1].name == path[0]);
            assert(carries_among(node, count, path, key));
        }
    } else {
        assert(bucket_of(reduced_upto(node, count).children, path[0]) is None);
    }
}

/// Distinctness: two documents whose root elements have different names,
/// or of which one reaches an element along a path along which the other
/// reaches none, or of which one carries an attribute name at a path at
/// which the other does not, have different skeletons.
pub proof fn lemma_distinct_shapes_have_distinct_skeletons(
    a: ShapeNode,
    b: ShapeNode,
    path: Seq<Seq<char>>,
    key: Seq<char>,
)
    requires
        shape_well_formed(a),
        shape_well_formed(b),
        a.name != b.name || reaches(a, path) != reaches(b, path) || carries(a, path, key)
            != carries(b, path, key),
    ensures
        skeleton_of(a) != skeleton_of(b),
        a.name == b.name ==> reduced(a) != reduced(b),
{
    lemma_reduced_paths(a, path, key);
    lemma_reduced_paths(b, path, key);
}

/// Two well-formed merged shapes that reach along the same paths and record
/// the same attribute names at each are the same shape.
pub proof fn lemma_skeleton_is_its_paths(s: SkeletonModel, t: SkeletonModel)
    requires
        well_formed(s),
        well_formed(t),
        forall|path: Seq<Seq<char>>| #[trigger]
            skeleton_reaches(s, path) == skeleton_reaches(t, path),
        forall|path: Seq<Seq<char>>, key: Seq<char>| #[trigger]
            skeleton_carries(s, path, key) == skeleton_carries(t, path, key),
    ensures
        s == t,
    decreases s,
{
    assert forall|key: Seq<char>|
        #![trigger s.attributes.contains(key)]
        #![trigger t.attributes.contains(key)]
        s.attributes.contains(key) <==> t.attributes.contains(key) by {
        let empty = Seq::<Seq<char>>::empty();
        assert(skeleton_carries(s, empty, key) == skeleton_carries(t, empty, key));
    }
    lemma_ascending_unique(s.attributes, t.attributes);
    assert forall|name: Seq<char>| #[trigger]
        bucket_of(s.children, name) == bucket_of(t.children, name) by {
        let step = seq![name];
        assert(step.drop_first() =~= Seq::<Seq<char>>::empty());
        assert(skeleton_reaches(s, step) == skeleton_reaches(t, step));
        assert(skeleton_reaches(s, step) == bucket_of(s.children, name) is Some) by {
            if bucket_of(s.children, name) is Some {
                assert(skeleton_reaches(bucket_of(s.children, name)->0, step.drop_first()));
            }
        }
        assert(skeleton_reaches(t, step) == bucket_of(t.children, name) is Some) by {
            if bucket_of(t.children, name) is Some {
                assert(skeleton_reaches(bucket_of(t.children, name)->0, step.drop_first()));
            }
        }
        if bucket_of(s.children, name) is Some {
            lemma_bucket_of(s.children, name);
            lemma_bucket_of(t.children, name);
            let i = choose|i: int|
                0 <= i < s.children.len() && (#[trigger] s.children[i]).name == name && bucket_of(
                    s.children,
                    name,
                ) == Some(s.children[i].shape);
            let p = s.children[i].shape;
            let q = bucket_of(t.children, name)->0;
            lemma_bucket_well_formed(t, name);
            assert forall|path: Seq<Seq<char>>| #[trigger]
                skeleton_reaches(p, path) == skeleton_reaches(q, path) by {
                let longer = seq![name] + path;
                assert(longer.drop_first() =~= path);
                assert(longer[0] == name);
                assert(skeleton_reaches(s, longer) == skeleton_reaches(t, longer));
            }
            assert forall|path: Seq<Seq<char>>, key: Seq<char>| #[trigger]
                skeleton_carries(p, path, key) == skeleton_carries(q, path, key) by {
                let longer = seq![name] + path;
                assert(longer.drop_first() =~= path);
                assert(longer[0] == name);
                assert(skeleton_carries(s, longer, key) == skeleton_carries(t, longer, key));
            }
            lemma_skeleton_is_its_paths(p, q);
        }
    }
    lemma_buckets_unique(s.children, t.children);
}

/// Value independence, in full: two documents whose root elements have the
/// same name, that reach elements along the same paths and carry the same
/// attribute names at each path have the same skeleton, with the same hash,
/// whatever else is different between them: attribute values, text, the
/// order of siblings, the order of attributes, or how often an element is
/// repeated.
pub proof fn lemma_same_paths_same_skeleton(a: ShapeNode, b: ShapeNode)
    requires
        shape_well_formed(a),
        shape_well_formed(b),
        a.name == b.name,
        forall|path: Seq<Seq<char>>| #[trigger] reaches(a, path) == reaches(b, path),
        forall|path: Seq<Seq<char>>, key: Seq<char>| #[trigger]
            carries(a, path, key) == carries(b, path, key),
    ensures
        skeleton_of(a) == skeleton_of(b),
{
    lemma_reduced_well_formed(a);
    lemma_reduced_well_formed(b);
    assert forall|path: Seq<Seq<char>>| #[trigger]
        skeleton_reaches(reduced(a), path) == skeleton_reaches(reduced(b), path) by {
        lemma_reduced_paths(a, path, Seq::empty());
        lemma_reduced_paths(b, path, Seq::empty());
        assert(reaches(a, path) == reaches(b, path));
    }
    assert forall|path: Seq<Seq<char>>, key: Seq<char>| #[trigger]
        skeleton_carries(reduced(a), path, key) == skeleton_carries(reduced(b), path, key) by {
        lemma_reduced_paths(a, path, key);
        lemma_reduced_paths(b, path, key);
        assert(carries(a, path, key) == carries(b, path, key));
    }
    lemma_skeleton_is_its_paths(reduced(a), reduced(b));
}

/// The skeleton of a shape has a bucket under a name exactly where a child
/// of the shape has that name. So the key that is reserved for the
/// attribute names, which no XML element can have as its name, names no
/// bucket.
pub proof fn lemma_buckets_are_child_names(node: ShapeNode, name: Seq<char>)
    requires
        shape_well_formed(node),
    ensures
        bucket_of(reduced(node).children, name) is Some <==> exists|i: int|
            0 <= i < node.children.len() && (#[trigger] node.children[i]).name == name,
{
    let step = seq![name];
    assert(step.drop_first() =~= Seq::<Seq<char>>::empty());
    lemma_reduced_paths(node, step, Seq::empty());
    assert(skeleton_reaches(reduced(node), step) == bucket_of(reduced(node).children, name)
        is Some) by {
        if bucket_of(reduced(node).children, name) is Some {
            assert(skeleton_reaches(
                bucket_of(reduced(node).children, name)->0,
                step.drop_first(),
            ));
        }
    }
    if reaches(node, step) {
        let i = choose|i: int|
            0 <= i < node.children.len() && (#[trigger] node.children[i]).name == step[0]
                && reaches(node.children[i], step.drop_first());
        assert(node.children[i].name == name);
    }
    if exists|i: int| 0 <= i < node.children.len() && (#[trigger] node.children[i]).name == name {
        let i = choose|i: int|
            0 <= i < node.children.len() && (#[trigger] node.children[i]).name == name;
        assert(reaches(node.children[i], step.drop_first()));
        assert(node.children[i].name == step[0]);
    }
}

} // verus!
