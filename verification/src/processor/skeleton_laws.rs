//! What holds of the union of merged shapes: it is idempotent, commutative
//! and associative, so the skeleton of an element does not depend on the
//! order in which its children are merged.

use crate::processor::attribute_keys::{lemma_union_keys, lemma_union_keys_laws, union_keys};
use crate::processor::key_order::{
    key_before, lemma_ascending_tail, lemma_ascending_unique, lemma_key_before_asymmetric,
    lemma_key_before_irreflexive, lemma_key_before_total, lemma_key_before_transitive,
    strictly_ascending,
};
use crate::processor::skeleton::{
    bucket_names, bucket_of, buckets_well_formed, lemma_buckets_tail, lemma_merged_buckets,
    lemma_merged_well_formed, merged, merged_buckets, well_formed, BucketModel, SkeletonModel,
};
use vstd::prelude::*;

verus! {

/// What two listings have under one name, taken together: the union where
/// both have a bucket, else the one bucket that there is.
pub open spec fn combined(
    left: Option<SkeletonModel>,
    right: Option<SkeletonModel>,
) -> Option<SkeletonModel> {
    match (left, right) {
        (Some(p), Some(q)) => Some(merged(p, q)),
        (Some(p), None) => Some(p),
        (None, Some(q)) => Some(q),
        (None, None) => None,
    }
}

/// A listing has a bucket under a name exactly where the name is among its
/// names; the bucket is then one of the listing.
pub proof fn lemma_bucket_of(x: Seq<BucketModel>, name: Seq<char>)
    ensures
        bucket_of(x, name) is Some <==> bucket_names(x).contains(name),
        bucket_of(x, name) is Some ==> exists|i: int|
            0 <= i < x.len() && (#[trigger] x[i]).name == name && bucket_of(x, name) == Some(
                x[i].shape,
            ),
    decreases x.len(),
{
    if x.len() == 0 {
    } else if x[0].name == name {
        assert(bucket_names(x)[0] == name);
        assert(x[0].name == name);
    } else {
        let rest = x.drop_first();
        lemma_bucket_of(rest, name);
        assert(bucket_names(rest) =~= bucket_names(x).drop_first());
        if bucket_names(x).contains(name) {
            let i = choose|i: int| 0 <= i < bucket_names(x).len() && bucket_names(x)[i] == name;
            assert(bucket_names(rest)[i - 1] == name);
        }
        if bucket_of(rest, name) is Some {
            let i = choose|i: int|
                0 <= i < rest.len() && (#[trigger] rest[i]).name == name && bucket_of(rest, name)
                    == Some(rest[i].shape);
            assert(x[i + 1] == rest[i]);
            assert(bucket_names(x)[i + 1] == name);
        }
    }
}

/// In a well-formed listing the bucket under the name of the bucket at `i`
/// is that bucket.
pub proof fn lemma_bucket_at(x: Seq<BucketModel>, i: int)
    requires
        strictly_ascending(bucket_names(x)),
        0 <= i < x.len(),
    ensures
        bucket_of(x, x[i].name) == Some(x[i].shape),
    decreases x.len(),
{
    if i > 0 {
        let rest = x.drop_first();
        assert(bucket_names(rest) =~= bucket_names(x).skip(1));
        lemma_ascending_tail(bucket_names(x), 1);
        assert(bucket_names(x)[0] == x[0].name);
        assert(bucket_names(x)[i] == x[i].name);
        lemma_key_before_asymmetric(x[0].name, x[i].name);
        assert(rest[i - 1] == x[i]);
        lemma_bucket_at(rest, i - 1);
    }
}

/// The union of two well-formed listings has under each name what the two
/// have under it, taken together.
pub proof fn lemma_merged_buckets_lookup(x: Seq<BucketModel>, y: Seq<BucketModel>, name: Seq<char>)
    requires
        buckets_well_formed(x),
        buckets_well_formed(y),
    ensures
        bucket_of(merged_buckets(x, y), name) == combined(bucket_of(x, name), bucket_of(y, name)),
    decreases x.len() + y.len(),
{
    if x.len() == 0 || y.len() == 0 {
    } else {
        let x1 = x.drop_first();
        let y1 = y.drop_first();
        lemma_buckets_tail(x);
        lemma_buckets_tail(y);
        assert(bucket_names(x)[0] == x[0].name);
        assert(bucket_names(y)[0] == y[0].name);
        if x[0].name == y[0].name {
            let head = BucketModel { name: x[0].name, shape: merged(x[0].shape, y[0].shape) };
            assert(merged_buckets(x, y).drop_first() =~= merged_buckets(x1, y1));
            if name != x[0].name {
                lemma_merged_buckets_lookup(x1, y1, name);
            }
        } else if key_before(x[0].name, y[0].name) {
            assert(merged_buckets(x, y).drop_first() =~= merged_buckets(x1, y));
            if name != x[0].name {
                lemma_merged_buckets_lookup(x1, y, name);
            } else {
                lemma_no_bucket_before_first(y, name);
            }
        } else {
            lemma_key_before_total(x[0].name, y[0].name);
            assert(merged_buckets(x, y).drop_first() =~= merged_buckets(x, y1));
            if name != y[0].name {
                lemma_merged_buckets_lookup(x, y1, name);
            } else {
                lemma_no_bucket_before_first(x, name);
            }
        }
    }
}

/// A well-formed listing has no bucket under a name that stands before its
/// first name.
pub proof fn lemma_no_bucket_before_first(x: Seq<BucketModel>, name: Seq<char>)
    requires
        strictly_ascending(bucket_names(x)),
        x.len() > 0,
        key_before(name, x[0].name),
    ensures
        bucket_of(x, name) is None,
{
    lemma_bucket_of(x, name);
    if bucket_names(x).contains(name) {
        let i = choose|i: int| 0 <= i < bucket_names(x).len() && bucket_names(x)[i] == name;
        assert(bucket_names(x)[0] == x[0].name);
        if i > 0 {
            lemma_key_before_transitive(name, bucket_names(x)[0], bucket_names(x)[i]);
        }
        lemma_key_before_irreflexive(name);
    }
}

/// Two well-formed listings that have the same bucket under every name are
/// the same listing.
pub proof fn lemma_buckets_unique(x: Seq<BucketModel>, y: Seq<BucketModel>)
    requires
        strictly_ascending(bucket_names(x)),
        strictly_ascending(bucket_names(y)),
        forall|name: Seq<char>| #[trigger] bucket_of(x, name) == bucket_of(y, name),
    ensures
        x == y,
{
    assert forall|name: Seq<char>|
        #![trigger bucket_names(x).contains(name)]
        #![trigger bucket_names(y).contains(name)]
        bucket_names(x).contains(name) <==> bucket_names(y).contains(name) by {
        lemma_bucket_of(x, name);
        lemma_bucket_of(y, name);
        assert(bucket_of(x, name) == bucket_of(y, name));
    }
    lemma_ascending_unique(bucket_names(x), bucket_names(y));
    assert(x.len() == bucket_names(x).len());
    assert(y.len() == bucket_names(y).len());
    assert forall|i: int| 0 <= i < x.len() implies x[i] == y[i] by {
        assert(bucket_names(x)[i] == x[i].name);
        assert(bucket_names(y)[i] == y[i].name);
        lemma_bucket_at(x, i);
        lemma_bucket_at(y, i);
        assert(bucket_of(x, x[i].name) == bucket_of(y, x[i].name));
    }
    assert(x =~= y);
}

/// Merging is idempotent: the union of a shape with itself is the shape.
pub proof fn lemma_merged_idempotent(a: SkeletonModel)
    requires
        well_formed(a),
    ensures
        merged(a, a) == a,
    decreases a,
{
    lemma_union_keys_laws(a.attributes, a.attributes, a.attributes);
    let x = a.children;
    lemma_merged_buckets(x, x);
    assert forall|name: Seq<char>| #[trigger]
        bucket_of(merged_buckets(x, x), name) == bucket_of(x, name) by {
        lemma_merged_buckets_lookup(x, x, name);
        lemma_bucket_of(x, name);
        if bucket_of(x, name) is Some {
            let i = choose|i: int|
                0 <= i < x.len() && (#[trigger] x[i]).name == name && bucket_of(x, name) == Some(
                    x[i].shape,
                );
            lemma_merged_idempotent(x[i].shape);
        }
    }
    lemma_buckets_unique(merged_buckets(x, x), x);
}

/// Merging is commutative: the union does not depend on the order of the
/// two shapes.
pub proof fn lemma_merged_commutative(a: SkeletonModel, b: SkeletonModel)
    requires
        well_formed(a),
        well_formed(b),
    ensures
        merged(a, b) == merged(b, a),
    decreases a,
{
    lemma_union_keys_laws(a.attributes, b.attributes, a.attributes);
    let x = a.children;
    let y = b.children;
    lemma_merged_buckets(x, y);
    lemma_merged_buckets(y, x);
    assert forall|name: Seq<char>| #[trigger]
        bucket_of(merged_buckets(x, y), name) == bucket_of(merged_buckets(y, x), name) by {
        lemma_merged_buckets_lookup(x, y, name);
        lemma_merged_buckets_lookup(y, x, name);
        lemma_bucket_of(x, name);
        lemma_bucket_of(y, name);
        if bucket_of(x, name) is Some && bucket_of(y, name) is Some {
            let i = choose|i: int|
                0 <= i < x.len() && (#[trigger] x[i]).name == name && bucket_of(x, name) == Some(
                    x[i].shape,
                );
            let j = choose|j: int|
                0 <= j < y.len() && (#[trigger] y[j]).name == name && bucket_of(y, name) == Some(
                    y[j].shape,
                );
            lemma_merged_commutative(x[i].shape, y[j].shape);
        }
    }
    lemma_buckets_unique(merged_buckets(x, y), merged_buckets(y, x));
}

/// Merging is associative: the union of three shapes does not depend on
/// which two are united first.
pub proof fn lemma_merged_associative(a: SkeletonModel, b: SkeletonModel, c: SkeletonModel)
    requires
        well_formed(a),
        well_formed(b),
        well_formed(c),
    ensures
        merged(merged(a, b), c) == merged(a, merged(b, c)),
    decreases a, b, c,
{
    lemma_union_keys_laws(a.attributes, b.attributes, c.attributes);
    let x = a.children;
    let y = b.children;
    let z = c.children;
    lemma_merged_buckets(x, y);
    lemma_merged_buckets(y, z);
    lemma_merged_buckets(merged_buckets(x, y), z);
    lemma_merged_buckets(x, merged_buckets(y, z));
    let left = merged_buckets(merged_buckets(x, y), z);
    let right = merged_buckets(x, merged_buckets(y, z));
    assert forall|name: Seq<char>| #[trigger] bucket_of(left, name) == bucket_of(right, name) by {
        lemma_merged_buckets_lookup(x, y, name);
        lemma_merged_buckets_lookup(y, z, name);
        lemma_merged_buckets_lookup(merged_buckets(x, y), z, name);
        lemma_merged_buckets_lookup(x, merged_buckets(y, z), name);
        lemma_bucket_of(x, name);
        lemma_bucket_of(y, name);
        lemma_bucket_of(z, name);
        if bucket_of(x, name) is Some && bucket_of(y, name) is Some && bucket_of(z, name) is Some {
            let i = choose|i: int|
                0 <= i < x.len() && (#[trigger] x[i]).name == name && bucket_of(x, name) == Some(
                    x[i].shape,
                );
            let j = choose|j: int|
                0 <= j < y.len() && (#[trigger] y[j]).name == name && bucket_of(y, name) == Some(
                    y[j].shape,
                );
            let k = choose|k: int|
                0 <= k < z.len() && (#[trigger] z[k]).name == name && bucket_of(z, name) == Some(
                    z[k].shape,
                );
            lemma_merged_associative(x[i].shape, y[j].shape, z[k].shape);
        }
    }
    lemma_buckets_unique(left, right);
}

/// The shape without attributes and children is the unit of merging.
pub proof fn lemma_merged_unit(a: SkeletonModel)
    ensures
        merged(a, SkeletonModel { attributes: Seq::empty(), children: Seq::empty() }) == a,
        merged(SkeletonModel { attributes: Seq::empty(), children: Seq::empty() }, a) == a,
{
    let unit = SkeletonModel { attributes: Seq::empty(), children: Seq::empty() };
    assert(union_keys(a.attributes, unit.attributes) =~= a.attributes);
    assert(union_keys(unit.attributes, a.attributes) =~= a.attributes);
    assert(merged_buckets(a.children, unit.children) =~= a.children);
    assert(merged_buckets(unit.children, a.children) =~= a.children);
}

/// Sibling-merge correctness: the union of two well-formed shapes has
/// exactly the attribute names of both, and a bucket under exactly the
/// names under which either has one.
pub proof fn lemma_merged_holds_both(a: SkeletonModel, b: SkeletonModel)
    requires
        well_formed(a),
        well_formed(b),
    ensures
        well_formed(merged(a, b)),
        forall|key: Seq<char>| #[trigger]
            merged(a, b).attributes.contains(key) <==> a.attributes.contains(key)
                || b.attributes.contains(key),
        forall|name: Seq<char>| #[trigger]
            bucket_of(merged(a, b).children, name) == combined(
                bucket_of(a.children, name),
                bucket_of(b.children, name),
            ),
{
    lemma_merged_well_formed(a, b);
    lemma_union_keys(a.attributes, b.attributes);
    assert forall|name: Seq<char>| #[trigger]
        bucket_of(merged(a, b).children, name) == combined(
            bucket_of(a.children, name),
            bucket_of(b.children, name),
        ) by {
        lemma_merged_buckets_lookup(a.children, b.children, name);
    }
}

} // verus!
