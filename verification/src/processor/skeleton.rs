//! The skeleton of a document: its shape with all children of one name merged
//! into a single bucket.

use crate::processor::attribute_keys::{lemma_union_keys, union_keys, AttributeKeys};
use crate::processor::canonical::{
    append_quoted, attributes_entry, canonical_text, entry_texts, quoted, reserved_key,
    ATTRIBUTES_KEY,
};
use crate::processor::key_order::{
    key_before, key_precedence, lemma_ascending_tail, lemma_key_before_asymmetric, same_text,
    strictly_ascending, Precedence,
};
use crate::processor::text::append_comma_joined;
use crate::processor::xml_struct::{shape_well_formed, ShapeNode, XmlStructure};
use vstd::prelude::*;
use vstd::string::StringExecFns;

verus! {

/// The merged shape of an element: the ascending listing of the attribute
/// names seen on any of the merged instances, and one bucket for each name
/// that a child of any instance has, in ascending order of the names.
pub struct SkeletonModel {
    pub attributes: Seq<Seq<char>>,
    pub children: Seq<BucketModel>,
}

/// All children of one name, merged.
pub struct BucketModel {
    pub name: Seq<char>,
    pub shape: SkeletonModel,
}

/// The names of the buckets, in their order.
pub open spec fn bucket_names(buckets: Seq<BucketModel>) -> Seq<Seq<char>> {
    buckets.map_values(|bucket: BucketModel| bucket.name)
}

/// At every level the attribute names and the bucket names are ascending, so
/// that every name occurs once.
pub open spec fn well_formed(shape: SkeletonModel) -> bool
    decreases shape,
{
    &&& strictly_ascending(shape.attributes)
    &&& strictly_ascending(bucket_names(shape.children))
    &&& forall|i: int|
        0 <= i < shape.children.len() ==> well_formed((#[trigger] shape.children[i]).shape)
}

/// The union of two merged shapes: the union of the attribute names, and the
/// union of the buckets, bucket by bucket.
pub open spec fn merged(a: SkeletonModel, b: SkeletonModel) -> SkeletonModel
    decreases a, b,
{
    SkeletonModel {
        attributes: union_keys(a.attributes, b.attributes),
        children: merged_buckets(a.children, b.children),
    }
}

/// The union of two ascending listings of buckets: a name that both have
/// gets the union of its two buckets.
pub open spec fn merged_buckets(x: Seq<BucketModel>, y: Seq<BucketModel>) -> Seq<BucketModel>
    decreases x, y,
{
    if x.len() == 0 {
        y
    } else if y.len() == 0 {
        x
    } else if x[0].name == y[0].name {
        seq![BucketModel { name: x[0].name, shape: merged(x[0].shape, y[0].shape) }]
            + merged_buckets(x.drop_first(), y.drop_first())
    } else if key_before(x[0].name, y[0].name) {
        seq![x[0]] + merged_buckets(x.drop_first(), y)
    } else {
        seq![y[0]] + merged_buckets(x, y.drop_first())
    }
}

/// The shape in the bucket of the given name, if the listing has one.
pub open spec fn bucket_of(buckets: Seq<BucketModel>, name: Seq<char>) -> Option<SkeletonModel>
    decreases buckets.len(),
{
    if buckets.len() == 0 {
        None
    } else if buckets[0].name == name {
        Some(buckets[0].shape)
    } else {
        bucket_of(buckets.drop_first(), name)
    }
}

/// Whether the mapping of a merged shape has an entry under `key`: the
/// attribute names under the reserved key, where there are any, or a bucket.
pub open spec fn has_entry(shape: SkeletonModel, key: Seq<char>) -> bool {
    (key == reserved_key() && shape.attributes.len() > 0) || bucket_of(shape.children, key) is Some
}

/// The merged shape that holds one bucket and nothing else.
pub open spec fn lone_bucket(name: Seq<char>, shape: SkeletonModel) -> SkeletonModel {
    SkeletonModel { attributes: Seq::empty(), children: seq![BucketModel { name, shape }] }
}

/// The skeleton of a shape: its attribute names, and the union, name by
/// name, of the skeletons of its children.
pub open spec fn reduced(node: ShapeNode) -> SkeletonModel
    decreases node, node.children.len() + 1,
{
    reduced_upto(node, node.children.len() as int)
}

/// The skeleton of a shape with only its first `count` children.
pub open spec fn reduced_upto(node: ShapeNode, count: int) -> SkeletonModel
    decreases node, count,
{
    if 0 < count <= node.children.len() {
        merged(
            reduced_upto(node, count - 1),
            lone_bucket(node.children[count - 1].name, reduced(node.children[count - 1])),
        )
    } else {
        SkeletonModel { attributes: node.attribute_keys, children: Seq::empty() }
    }
}

/// Every bucket of the listing holds a well-formed shape.
pub open spec fn buckets_well_formed(buckets: Seq<BucketModel>) -> bool {
    &&& strictly_ascending(bucket_names(buckets))
    &&& forall|i: int| 0 <= i < buckets.len() ==> well_formed((#[trigger] buckets[i]).shape)
}

/// The union of two well-formed shapes is well-formed.
pub proof fn lemma_merged_well_formed(a: SkeletonModel, b: SkeletonModel)
    requires
        well_formed(a),
        well_formed(b),
    ensures
        well_formed(merged(a, b)),
    decreases a, b,
{
    lemma_union_keys(a.attributes, b.attributes);
    lemma_merged_buckets(a.children, b.children);
}

/// The union of two listings of buckets has the union of their names, and
/// is well-formed where both are.
pub proof fn lemma_merged_buckets(x: Seq<BucketModel>, y: Seq<BucketModel>)
    requires
        buckets_well_formed(x),
        buckets_well_formed(y),
    ensures
        bucket_names(merged_buckets(x, y)) == union_keys(bucket_names(x), bucket_names(y)),
        buckets_well_formed(merged_buckets(x, y)),
    decreases x, y,
{
    let out = merged_buckets(x, y);
    lemma_union_keys(bucket_names(x), bucket_names(y));
    if x.len() == 0 || y.len() == 0 {
        assert(bucket_names(out) =~= union_keys(bucket_names(x), bucket_names(y)));
    } else {
        let x1 = x.drop_first();
        let y1 = y.drop_first();
        lemma_buckets_tail(x);
        lemma_buckets_tail(y);
        if x[0].name == y[0].name {
            lemma_merged_well_formed(x[0].shape, y[0].shape);
            lemma_merged_buckets(x1, y1);
            let head = BucketModel { name: x[0].name, shape: merged(x[0].shape, y[0].shape) };
            assert(out == seq![head] + merged_buckets(x1, y1));
            assert(bucket_names(out) =~= seq![x[0].name] + bucket_names(merged_buckets(x1, y1)));
            assert forall|i: int| 0 <= i < out.len() implies well_formed(
                (#[trigger] out[i]).shape,
            ) by {
                if i > 0 {
                    assert(out[i] == merged_buckets(x1, y1)[i - 1]);
                }
            }
        } else if key_before(x[0].name, y[0].name) {
            lemma_merged_buckets(x1, y);
            assert(out == seq![x[0]] + merged_buckets(x1, y));
            assert(bucket_names(out) =~= seq![x[0].name] + bucket_names(merged_buckets(x1, y)));
            assert forall|i: int| 0 <= i < out.len() implies well_formed(
                (#[trigger] out[i]).shape,
            ) by {
                if i > 0 {
                    assert(out[i] == merged_buckets(x1, y)[i - 1]);
                }
            }
        } else {
            lemma_merged_buckets(x, y1);
            assert(out == seq![y[0]] + merged_buckets(x, y1));
            assert(bucket_names(out) =~= seq![y[0].name] + bucket_names(merged_buckets(x, y1)));
            assert forall|i: int| 0 <= i < out.len() implies well_formed(
                (#[trigger] out[i]).shape,
            ) by {
                if i > 0 {
                    assert(out[i] == merged_buckets(x, y1)[i - 1]);
                }
            }
        }
    }
}

/// All but the first bucket of a well-formed listing form a well-formed
/// listing, whose names are all but the first name.
pub proof fn lemma_buckets_tail(x: Seq<BucketModel>)
    requires
        buckets_well_formed(x),
        x.len() > 0,
    ensures
        buckets_well_formed(x.drop_first()),
        bucket_names(x.drop_first()) == bucket_names(x).drop_first(),
{
    let x1 = x.drop_first();
    assert(bucket_names(x1) =~= bucket_names(x).drop_first());
    lemma_ascending_tail(bucket_names(x), 1);
    assert(bucket_names(x).skip(1) =~= bucket_names(x).drop_first());
    assert forall|i: int| 0 <= i < x1.len() implies well_formed((#[trigger] x1[i]).shape) by {
        assert(x1[i] == x[i + 1]);
    }
}

/// All children of one name, merged into one shape.
#[derive(Debug, PartialEq, Eq)]
pub struct MergedBucket {
    name: String,
    shape: MergedShape,
}

/// A merged shape: the mapping from each child name to the merged shape of
/// the children of that name, with the attribute names seen at this level.
#[derive(Debug, PartialEq, Eq)]
pub struct MergedShape {
    attributes: AttributeKeys,
    children: Vec<MergedBucket>,
}

/// What a listing of buckets stands for.
pub closed spec fn bucket_models(buckets: Seq<MergedBucket>) -> Seq<BucketModel>
    decreases buckets,
{
    Seq::new(
        buckets.len(),
        |i: int|
            if 0 <= i < buckets.len() {
                buckets[i].model()
            } else {
                arbitrary()
            },
    )
}

impl MergedBucket {
    /// What the bucket stands for.
    pub closed spec fn model(&self) -> BucketModel
        decreases self,
    {
        BucketModel { name: self.name@, shape: self.shape.model() }
    }
}

impl View for MergedShape {
    type V = SkeletonModel;

    closed spec fn view(&self) -> SkeletonModel {
        self.model()
    }
}

impl MergedShape {
    /// What the value stands for.
    pub closed spec fn model(&self) -> SkeletonModel
        decreases self,
    {
        SkeletonModel { attributes: self.attributes@, children: bucket_models(self.children@) }
    }

    #[verifier::type_invariant]
    closed spec fn canonical(&self) -> bool {
        well_formed(self.model())
    }

    /// The shape of an element without attributes and without children.
    pub fn new() -> (shape: MergedShape)
        ensures
            shape@ == (SkeletonModel { attributes: Seq::empty(), children: Seq::empty() }),
    {
        let attributes = AttributeKeys::new();
        let children: Vec<MergedBucket> = Vec::new();
        assert(bucket_models(children@) =~= Seq::empty());
        assert(bucket_names(Seq::<BucketModel>::empty()) =~= Seq::empty());
        MergedShape { attributes, children }
    }

    /// A copy of the shape.
    pub fn clone(&self) -> (copy: MergedShape)
        ensures
            copy@ == self@,
        decreases self,
    {
        proof {
            use_type_invariant(self);
        }
        let mut children: Vec<MergedBucket> = Vec::new();
        let mut i: usize = 0;
        while i < self.children.len()
            invariant
                i <= self.children.len(),
                children@.len() == i,
                forall|j: int|
                    0 <= j < i ==> (#[trigger] children@[j]).model() == self.children@[j].model(),
            decreases self.children.len() - i,
        {
            let bucket = MergedBucket {
                name: self.children[i].name.clone(),
                shape: self.children[i].shape.clone(),
            };
            children.push(bucket);
            i = i + 1;
        }
        assert(bucket_models(children@) =~= bucket_models(self.children@));
        MergedShape { attributes: self.attributes.clone(), children }
    }

    /// The union of this shape and another: the union of the attribute
    /// names, and the union of the buckets, bucket by bucket.
    pub fn merge(&self, other: &MergedShape) -> (both: MergedShape)
        ensures
            both@ == merged(self@, other@),
            well_formed(both@),
        decreases self, other,
    {
        proof {
            use_type_invariant(self);
            use_type_invariant(other);
            lemma_merged_well_formed(self@, other@);
        }
        let attributes = self.attributes.union(&other.attributes);
        let ghost x = bucket_models(self.children@);
        let ghost y = bucket_models(other.children@);
        let mut out: Vec<MergedBucket> = Vec::new();
        let mut i: usize = 0;
        let mut j: usize = 0;
        proof {
            assert(x.skip(0) =~= x);
            assert(y.skip(0) =~= y);
            assert(bucket_models(out@) =~= Seq::empty());
        }
        while i < self.children.len() || j < other.children.len()
            invariant
                i <= self.children.len(),
                j <= other.children.len(),
                x == bucket_models(self.children@),
                y == bucket_models(other.children@),
                merged_buckets(x, y) == bucket_models(out@) + merged_buckets(
                    x.skip(i as int),
                    y.skip(j as int),
                ),
            decreases self.children.len() - i + other.children.len() - j,
        {
            let ghost a = x.skip(i as int);
            let ghost b = y.skip(j as int);
            let ghost done = bucket_models(out@);
            proof {
                if i < self.children.len() {
                    assert(a.drop_first() =~= x.skip(i + 1));
                    assert(a[0] == self.children@[i as int].model());
                }
                if j < other.children.len() {
                    assert(b.drop_first() =~= y.skip(j + 1));
                    assert(b[0] == other.children@[j as int].model());
                }
            }
            let take: Precedence = if i >= self.children.len() {
                Precedence::After
            } else if j >= other.children.len() {
                Precedence::Before
            } else {
                key_precedence(self.children[i].name.as_str(), other.children[j].name.as_str())
            };
            let bucket = match take {
                Precedence::Same => {
                    let shape = self.children[i].shape.merge(&other.children[j].shape);
                    let bucket = MergedBucket { name: self.children[i].name.clone(), shape };
                    i = i + 1;
                    j = j + 1;
                    bucket
                },
                Precedence::Before => {
                    proof {
                        if j < other.children.len() {
                            lemma_key_before_asymmetric(a[0].name, b[0].name);
                        }
                    }
                    let bucket = MergedBucket {
                        name: self.children[i].name.clone(),
                        shape: self.children[i].shape.clone(),
                    };
                    i = i + 1;
                    bucket
                },
                Precedence::After => {
                    proof {
                        if i < self.children.len() {
                            lemma_key_before_asymmetric(b[0].name, a[0].name);
                        }
                    }
                    let bucket = MergedBucket {
                        name: other.children[j].name.clone(),
                        shape: other.children[j].shape.clone(),
                    };
                    j = j + 1;
                    bucket
                },
            };
            proof {
                assert(bucket.model() == merged_buckets(a, b)[0]);
                assert(merged_buckets(a, b) =~= seq![bucket.model()] + merged_buckets(
                    x.skip(i as int),
                    y.skip(j as int),
                ));
            }
            out.push(bucket);
            assert(bucket_models(out@) =~= done.push(bucket.model()));
            assert(merged_buckets(x, y) =~= bucket_models(out@) + merged_buckets(
                x.skip(i as int),
                y.skip(j as int),
            ));
        }
        assert(bucket_models(out@) =~= merged_buckets(x, y));
        MergedShape { attributes, children: out }
    }

    /// The shape that holds one bucket and nothing else.
    pub fn lone(name: String, shape: MergedShape) -> (lone: MergedShape)
        ensures
            lone@ == lone_bucket(name@, shape@),
    {
        proof {
            use_type_invariant(&shape);
        }
        let mut children: Vec<MergedBucket> = Vec::new();
        children.push(MergedBucket { name, shape });
        let attributes = AttributeKeys::new();
        proof {
            assert(bucket_models(children@) =~= seq![BucketModel { name: name@, shape: shape@ }]);
            assert(bucket_names(bucket_models(children@)) =~= seq![name@]);
        }
        MergedShape { attributes, children }
    }

    /// The skeleton of a structure: its attribute names, and for each name
    /// that a child has, the union of the skeletons of the children of that
    /// name.
    pub fn of_structure(node: &XmlStructure) -> (shape: MergedShape)
        ensures
            shape@ == reduced(node@),
            well_formed(shape@),
            shape_well_formed(node@),
        decreases node,
    {
        let attributes = match &node.attributes {
            Some(keys) => keys.clone(),
            None => AttributeKeys::new(),
        };
        let children: Vec<MergedBucket> = Vec::new();
        proof {
            assert(bucket_models(children@) =~= Seq::empty());
            assert(bucket_names(Seq::<BucketModel>::empty()) =~= Seq::empty());
        }
        let mut shape = MergedShape { attributes, children };
        let mut i: usize = 0;
        while i < node.children.len()
            invariant
                i <= node.children.len(),
                shape@ == reduced_upto(node@, i as int),
                forall|j: int| 0 <= j < i ==> shape_well_formed(#[trigger] node@.children[j]),
            decreases node.children.len() - i,
        {
            let child = &node.children[i];
            let lone = MergedShape::lone(child.name.clone(), MergedShape::of_structure(child));
            shape = shape.merge(&lone);
            i = i + 1;
        }
        proof {
            use_type_invariant(&shape);
        }
        shape
    }

    /// The attribute names seen at this level.
    pub fn attribute_keys(&self) -> (keys: &AttributeKeys)
        ensures
            keys@ == self@.attributes,
            well_formed(self@),
    {
        proof {
            use_type_invariant(self);
        }
        &self.attributes
    }

    /// The number of buckets, that is, of different child names.
    pub fn bucket_count(&self) -> (count: usize)
        ensures
            count == self@.children.len(),
    {
        self.children.len()
    }

    /// The names of the buckets, in ascending order.
    pub fn child_names(&self) -> (names: Vec<String>)
        ensures
            names@.map_values(|name: String| name@) == bucket_names(self@.children),
            strictly_ascending(bucket_names(self@.children)),
    {
        proof {
            use_type_invariant(self);
        }
        let mut names: Vec<String> = Vec::new();
        let mut i: usize = 0;
        while i < self.children.len()
            invariant
                i <= self.children.len(),
                names@.len() == i,
                forall|j: int| 0 <= j < i ==> (#[trigger] names@[j])@ == self.children@[j].name@,
            decreases self.children.len() - i,
        {
            names.push(self.children[i].name.clone());
            i = i + 1;
        }
        assert(names@.map_values(|name: String| name@) =~= bucket_names(self@.children));
        names
    }

    /// The merged shape of the children of the given name, if there are any.
    pub fn child(&self, name: &str) -> (found: Option<&MergedShape>)
        ensures
            match found {
                Some(shape) => bucket_of(self@.children, name@) == Some(shape@),
                None => bucket_of(self@.children, name@) is None,
            },
    {
        let ghost all = bucket_models(self.children@);
        let mut i: usize = 0;
        assert(all.skip(0) =~= all);
        while i < self.children.len()
            invariant
                i <= self.children.len(),
                all == bucket_models(self.children@),
                bucket_of(all, name@) == bucket_of(all.skip(i as int), name@),
            decreases self.children.len() - i,
        {
            proof {
                assert(all.skip(i as int).drop_first() =~= all.skip(i + 1));
                assert(all.skip(i as int)[0] == self.children@[i as int].model());
            }
            if same_text(self.children[i].name.as_str(), name) {
                return Some(&self.children[i].shape);
            }
            i = i + 1;
        }
        None
    }

    /// Whether the mapping has an entry under `key`: the attribute names
    /// under the reserved key, or a bucket of that name.
    pub fn contains_key(&self, key: &str) -> (found: bool)
        ensures
            found == has_entry(self@, key@),
    {
        proof {
            reveal_strlit("@attributes");
            assert(ATTRIBUTES_KEY@ =~= reserved_key());
        }
        if same_text(key, ATTRIBUTES_KEY) && !self.attributes.is_empty() {
            return true;
        }
        self.child(key).is_some()
    }

    /// Whether both shapes are the same: the same attribute names and the
    /// same buckets at every level.
    pub fn same_shape(&self, other: &MergedShape) -> (same: bool)
        ensures
            same == (self@ == other@),
        decreases self,
    {
        if !self.attributes.same_keys(&other.attributes) {
            return false;
        }
        if self.children.len() != other.children.len() {
            assert(self@.children.len() != other@.children.len());
            return false;
        }
        let mut i: usize = 0;
        while i < self.children.len()
            invariant
                i <= self.children.len(),
                self.children.len() == other.children.len(),
                forall|j: int|
                    0 <= j < i ==> (#[trigger] self.children@[j]).model()
                        == other.children@[j].model(),
            decreases self.children.len() - i,
        {
            if self.children[i].name != other.children[i].name {
                assert(self@.children[i as int] != other@.children[i as int]);
                return false;
            }
            if !self.children[i].shape.same_shape(&other.children[i].shape) {
                assert(self@.children[i as int] != other@.children[i as int]);
                return false;
            }
            i = i + 1;
        }
        assert(self@.children =~= other@.children);
        true
    }

    /// The canonical text of the shape: a JSON object with the attribute
    /// names under the reserved key and each bucket under its name.
    pub fn canonical_text(&self) -> (text: String)
        ensures
            text@ == canonical_text(self@),
        decreases self,
    {
        let mut entries: Vec<String> = Vec::new();
        if !self.attributes.is_empty() {
            let listing = self.attributes.keys();
            let mut names: Vec<String> = Vec::new();
            let mut i: usize = 0;
            while i < listing.len()
                invariant
                    i <= listing.len(),
                    names@.len() == i,
                    forall|j: int| 0 <= j < i ==> (#[trigger] names@[j])@ == quoted(listing@[j]@),
                decreases listing.len() - i,
            {
                let mut name = String::new();
                append_quoted(&mut name, listing[i].as_str());
                assert(name@ =~= quoted(listing@[i as int]@));
                names.push(name);
                i = i + 1;
            }
            let mut entry = String::new();
            append_quoted(&mut entry, ATTRIBUTES_KEY);
            proof {
                reveal_strlit("@attributes");
                reveal_strlit(":[");
                reveal_strlit("]");
                assert(ATTRIBUTES_KEY@ =~= reserved_key());
                assert(names@.map_values(|name: String| name@) =~= self@.attributes.map_values(
                    |key: Seq<char>| quoted(key),
                ));
            }
            entry.append(":[");
            append_comma_joined(&mut entry, &names);
            entry.append("]");
            assert(entry@ =~= attributes_entry(self@.attributes));
            entries.push(entry);
        }
        let ghost first = entries@.map_values(|entry: String| entry@);
        assert(first =~= (if self@.attributes.len() > 0 {
            seq![attributes_entry(self@.attributes)]
        } else {
            Seq::empty()
        }));
        let mut i: usize = 0;
        while i < self.children.len()
            invariant
                i <= self.children.len(),
                entries@.len() == first.len() + i,
                first == (if self@.attributes.len() > 0 {
                    seq![attributes_entry(self@.attributes)]
                } else {
                    Seq::<Seq<char>>::empty()
                }),
                forall|j: int| 0 <= j < first.len() ==> (#[trigger] entries@[j])@ == first[j],
                forall|j: int|
                    0 <= j < i ==> (#[trigger] entries@[first.len() + j])@ == quoted(
                        self@.children[j].name,
                    ) + seq![':'] + canonical_text(self@.children[j].shape),
            decreases self.children.len() - i,
        {
            let mut entry = String::new();
            append_quoted(&mut entry, self.children[i].name.as_str());
            proof {
                reveal_strlit(":");
            }
            entry.append(":");
            let inner = self.children[i].shape.canonical_text();
            entry.append(inner.as_str());
            assert(entry@ =~= quoted(self@.children[i as int].name) + seq![':'] + canonical_text(
                self@.children[i as int].shape,
            ));
            entries.push(entry);
            i = i + 1;
        }
        let mut text = String::new();
        proof {
            reveal_strlit("{");
            reveal_strlit("}");
            let texts = entries@.map_values(|entry: String| entry@);
            let wanted = entry_texts(self@);
            assert(texts.len() == wanted.len());
            assert forall|k: int| 0 <= k < texts.len() implies texts[k] == wanted[k] by {
                if k >= first.len() {
                    let j = k - first.len();
                    assert(entries@[first.len() + j]@ == quoted(self@.children[j].name) + seq![':']
                        + canonical_text(self@.children[j].shape));
                } else {
                    assert(entries@[k]@ == first[k]);
                }
            }
            assert(texts =~= wanted);
        }
        text.append("{");
        append_comma_joined(&mut text, &entries);
        text.append("}");
        assert(text@ =~= canonical_text(self@));
        text
    }
}

} // verus!
