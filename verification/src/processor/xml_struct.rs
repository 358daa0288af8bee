//! The shape of an XML element: its name, the names of its attributes and its
//! child elements, in document order. No attribute value and no text is kept.

use crate::processor::attribute_keys::{with_key, AttributeKeys};
use crate::processor::canonical::canonical_text;
use crate::processor::key_order::strictly_ascending;
use crate::processor::skeleton::{reduced, well_formed, MergedShape, SkeletonModel};
use crate::processor::text::{append_comma_joined, comma_joined};
use std::collections::hash_map::DefaultHasher;
use std::hash::Hasher;
use vstd::prelude::*;
use vstd::std_specs::hash::DefaultHasherAdditionalSpecFns;
use vstd::string::StringExecFns;
use vstd::utf8::*;

verus! {

/// What an element is to the library: a name, the ascending listing of its
/// attribute names, and the shapes of its child elements in document order.
pub struct ShapeNode {
    pub name: Seq<char>,
    pub attribute_keys: Seq<Seq<char>>,
    pub children: Seq<ShapeNode>,
}

/// At every level the attribute names of the shape are an ascending
/// listing. The shape of every structure is of this kind.
pub open spec fn shape_well_formed(node: ShapeNode) -> bool
    decreases node,
{
    &&& strictly_ascending(node.attribute_keys)
    &&& forall|i: int|
        0 <= i < node.children.len() ==> shape_well_formed(#[trigger] node.children[i])
}

/// The compact signature of a shape: the name, then the attribute names in
/// square brackets where there are any, then the signatures of the children
/// in curly brackets where there are any.
pub open spec fn signature_text(node: ShapeNode) -> Seq<char>
    decreases node, 1nat,
{
    node.name + (if node.attribute_keys.len() > 0 {
        seq!['['] + comma_joined(node.attribute_keys) + seq![']']
    } else {
        Seq::empty()
    }) + (if node.children.len() > 0 {
        seq!['{'] + comma_joined(child_signatures(node)) + seq!['}']
    } else {
        Seq::empty()
    })
}

/// The signatures of the children of a shape, in document order.
pub open spec fn child_signatures(node: ShapeNode) -> Seq<Seq<char>>
    decreases node, 0nat,
{
    Seq::new(
        node.children.len(),
        |i: int|
            if 0 <= i < node.children.len() {
                signature_text(node.children[i])
            } else {
                Seq::empty()
            },
    )
}

/// What a string feeds to a hasher: its bytes, then one byte that marks its
/// end.
pub open spec fn text_stream(text: Seq<char>) -> Seq<Seq<u8>> {
    seq![encode_utf8(text), seq![0xffu8]]
}

/// What a listing of keys feeds to a hasher: each key in turn.
pub open spec fn keys_stream(keys: Seq<Seq<char>>) -> Seq<Seq<u8>>
    decreases keys.len(),
{
    if keys.len() == 0 {
        Seq::empty()
    } else {
        keys_stream(keys.drop_last()) + text_stream(keys.last())
    }
}

/// What a shape feeds to a hasher: its name, its attribute names, then its
/// children in document order.
pub open spec fn shape_stream(node: ShapeNode) -> Seq<Seq<u8>>
    decreases node, node.children.len() + 1,
{
    text_stream(node.name) + keys_stream(node.attribute_keys) + children_stream(
        node,
        node.children.len() as int,
    )
}

/// What the first `count` children of a shape feed to a hasher.
pub open spec fn children_stream(node: ShapeNode, count: int) -> Seq<Seq<u8>>
    decreases node, count,
{
    if 0 < count <= node.children.len() {
        children_stream(node, count - 1) + shape_stream(node.children[count - 1])
    } else {
        Seq::empty()
    }
}

/// The hash of a text: of its bytes and the byte that ends it.
pub open spec fn text_digest(text: Seq<char>) -> u64 {
    DefaultHasher::spec_finish(text_stream(text))
}

/// What a skeleton signature is: the root element's name, the merged shape
/// of the document, and the hash of that shape's canonical text.
pub struct SignatureModel {
    pub root: Seq<char>,
    pub skeleton: SkeletonModel,
    pub hash: u64,
}

/// The skeleton signature of a shape.
pub open spec fn skeleton_of(node: ShapeNode) -> SignatureModel {
    SignatureModel {
        root: node.name,
        skeleton: reduced(node),
        hash: text_digest(canonical_text(reduced(node))),
    }
}

/// What a group is: the skeleton that its members share, the identifiers of
/// the members in the order of their arrival, their number, and the full
/// shape of one member, where one is kept.
pub struct GroupModel {
    pub skeleton: SignatureModel,
    pub files: Seq<Seq<char>>,
    pub count: nat,
    pub example: Option<ShapeNode>,
}

/// What a processing result is.
pub struct ResultModel {
    pub total_files: nat,
    pub unique_structures: nat,
    pub groups: Seq<GroupModel>,
}

/// The full structural tree of an XML element.
#[derive(Debug, PartialEq, Eq, PartialOrd, Ord)]
pub struct XmlStructure {
    /// Element name (e.g., "book", "TEI", "title").
    pub name: String,
    /// Attribute names only; `None` until the first one is added.
    pub attributes: Option<AttributeKeys>,
    /// Child elements, in document order.
    pub children: Vec<Box<XmlStructure>>,
}

impl View for XmlStructure {
    type V = ShapeNode;

    open spec fn view(&self) -> ShapeNode {
        self.shape()
    }
}

impl XmlStructure {
    /// The shape that this value stands for.
    pub open spec fn shape(&self) -> ShapeNode
        decreases self,
    {
        ShapeNode {
            name: self.name@,
            attribute_keys: match self.attributes {
                Some(keys) => keys@,
                None => Seq::empty(),
            },
            children: Seq::new(
                self.children@.len(),
                |i: int|
                    if 0 <= i < self.children@.len() {
                        (*self.children@[i]).shape()
                    } else {
                        arbitrary()
                    },
            ),
        }
    }

    /// A new node with the given name, no attributes and no children.
    pub fn new(name: String) -> (node: Self)
        ensures
            node.name == name,
            node.attributes is None,
            node.children@.len() == 0,
            node@ == (ShapeNode {
                name: name@,
                attribute_keys: Seq::empty(),
                children: Seq::empty(),
            }),
    {
        let node = XmlStructure { name, attributes: None, children: Vec::new() };
        assert(node@.children =~= Seq::empty());
        node
    }

    /// Adds an attribute name; the attribute's value is not kept. Adding a
    /// name twice changes nothing.
    pub fn add_attribute(&mut self, key: String)
        ensures
            final(self).attributes is Some,
            final(self)@ == (ShapeNode {
                attribute_keys: with_key(old(self)@.attribute_keys, key@),
                ..old(self)@
            }),
            final(self).name == old(self).name,
            final(self).children == old(self).children,
            strictly_ascending(final(self)@.attribute_keys),
            forall|k: Seq<char>|
                final(self)@.attribute_keys.contains(k) <==> old(self)@.attribute_keys.contains(k)
                    || k == key@,
    {
        let mut keys = match self.attributes.take() {
            Some(keys) => keys,
            None => AttributeKeys::new(),
        };
        keys.insert(key);
        self.attributes = Some(keys);
        assert(final(self)@.children =~= old(self)@.children);
    }

    /// Adds a child element after the children already there.
    pub fn add_child(&mut self, child: XmlStructure)
        ensures
            final(self)@ == (ShapeNode {
                children: old(self)@.children.push(child@),
                ..old(self)@
            }),
            final(self).name == old(self).name,
            final(self).attributes == old(self).attributes,
    {
        self.children.push(Box::new(child));
        assert(final(self)@.children =~= old(self)@.children.push(child@));
    }

    /// The compact signature of this structure, in the form
    /// `name[attr1,attr2]{child1,child2}`.
    pub fn signature(&self) -> (sig: String)
        ensures
            sig@ == signature_text(self@),
        decreases self,
    {
        let mut sig = self.name.clone();
        let ghost keys_part = if self@.attribute_keys.len() > 0 {
            seq!['['] + comma_joined(self@.attribute_keys) + seq![']']
        } else {
            Seq::empty()
        };
        match &self.attributes {
            Some(keys) => {
                if !keys.is_empty() {
                    proof {
                        reveal_strlit("[");
                        reveal_strlit("]");
                    }
                    sig.append("[");
                    append_comma_joined(&mut sig, keys.keys());
                    sig.append("]");
                }
            },
            None => {},
        }
        assert(sig@ =~= self.name@ + keys_part);
        if self.children.len() > 0 {
            let mut parts: Vec<String> = Vec::new();
            let mut i: usize = 0;
            while i < self.children.len()
                invariant
                    i <= self.children.len(),
                    parts@.len() == i,
                    forall|j: int|
                        0 <= j < i ==> (#[trigger] parts@[j])@ == signature_text(self@.children[j]),
                decreases self.children.len() - i,
            {
                let part = self.children[i].signature();
                parts.push(part);
                i = i + 1;
            }
            proof {
                reveal_strlit("{");
                reveal_strlit("}");
                assert(parts@.map_values(|part: String| part@) =~= child_signatures(self@));
            }
            sig.append("{");
            append_comma_joined(&mut sig, &parts);
            sig.append("}");
            assert(sig@ =~= self.name@ + keys_part + (seq!['{'] + comma_joined(
                parts@.map_values(|part: String| part@),
            ) + seq!['}']));
        } else {
            assert(sig@ =~= self.name@ + keys_part + Seq::<char>::empty());
        }
        sig
    }

    /// The skeleton signature of this structure: the children of one name
    /// merged at every level, with the hash of the merged shape.
    pub fn to_skeleton(&self) -> (signature: SkeletonSignature)
        ensures
            signature@ == skeleton_of(self@),
            signature.well_formed(),
            well_formed(signature@.skeleton),
            shape_well_formed(self@),
    {
        SkeletonSignature::from_structure(self)
    }

    /// A hash of the whole structure: of the name, the attribute names and,
    /// in document order, the children.
    pub fn structure_hash(&self) -> (hash: u64)
        ensures
            hash == DefaultHasher::spec_finish(shape_stream(self@)),
    {
        let mut hasher = DefaultHasher::new();
        self.feed(&mut hasher);
        assert(hasher@ =~= shape_stream(self@));
        hasher.finish()
    }

    /// Writes the structure to a hasher.
    fn feed(&self, hasher: &mut DefaultHasher)
        ensures
            final(hasher)@ == old(hasher)@ + shape_stream(self@),
        decreases self,
    {
        feed_text(hasher, self.name.as_str());
        match &self.attributes {
            Some(keys) => {
                let listing = keys.keys();
                let mut i: usize = 0;
                while i < listing.len()
                    invariant
                        i <= listing.len(),
                        listing@.map_values(|key: String| key@) == keys@,
                        hasher@ == old(hasher)@ + text_stream(self.name@) + keys_stream(
                            keys@.take(i as int),
                        ),
                    decreases listing.len() - i,
                {
                    feed_text(hasher, listing[i].as_str());
                    proof {
                        assert(keys@.take(i + 1).drop_last() =~= keys@.take(i as int));
                        assert(keys@.take(i + 1).last() == listing@[i as int]@);
                    }
                    i = i + 1;
                }
                assert(keys@.take(i as int) =~= keys@);
            },
            None => {},
        }
        let mut i: usize = 0;
        while i < self.children.len()
            invariant
                i <= self.children.len(),
                hasher@ == old(hasher)@ + text_stream(self.name@) + keys_stream(
                    self@.attribute_keys,
                ) + children_stream(self@, i as int),
            decreases self.children.len() - i,
        {
            self.children[i].feed(hasher);
            i = i + 1;
        }
    }

    /// Whether both structures have the same shape: the same name, the same
    /// attribute names and, in the same order, children of the same shapes.
    pub fn same_structure(&self, other: &XmlStructure) -> (same: bool)
        ensures
            same == (self@ == other@),
        decreases self,
    {
        if self.name != other.name {
            return false;
        }
        let same_keys = match (&self.attributes, &other.attributes) {
            (Some(mine), Some(theirs)) => mine.same_keys(theirs),
            (Some(mine), None) => mine.is_empty(),
            (None, Some(theirs)) => theirs.is_empty(),
            (None, None) => true,
        };
        if !same_keys {
            assert(self@.attribute_keys.len() != other@.attribute_keys.len()
                || self@.attribute_keys != other@.attribute_keys);
            return false;
        }
        assert(self@.attribute_keys =~= other@.attribute_keys);
        if self.children.len() != other.children.len() {
            assert(self@.children.len() != other@.children.len());
            return false;
        }
        let mut i: usize = 0;
        while i < self.children.len()
            invariant
                i <= self.children.len(),
                self.children.len() == other.children.len(),
                forall|j: int| 0 <= j < i ==> self@.children[j] == other@.children[j],
            decreases self.children.len() - i,
        {
            if !self.children[i].same_structure(&other.children[i]) {
                assert(self@.children[i as int] != other@.children[i as int]);
                return false;
            }
            i = i + 1;
        }
        assert(self@.children =~= other@.children);
        true
    }

    /// A copy of the structure.
    pub fn clone(&self) -> (copy: XmlStructure)
        ensures
            copy@ == self@,
        decreases self,
    {
        let mut children: Vec<Box<XmlStructure>> = Vec::new();
        let mut i: usize = 0;
        while i < self.children.len()
            invariant
                i <= self.children.len(),
                children@.len() == i,
                forall|j: int| 0 <= j < i ==> (#[trigger] children@[j])@ == self@.children[j],
            decreases self.children.len() - i,
        {
            children.push(Box::new(self.children[i].clone()));
            i = i + 1;
        }
        let attributes = match &self.attributes {
            Some(keys) => Some(keys.clone()),
            None => None,
        };
        let copy = XmlStructure { name: self.name.clone(), attributes, children };
        assert(copy@.children =~= self@.children);
        copy
    }
}

/// Writes a string to a hasher: its bytes, then the byte that ends it.
fn feed_text(hasher: &mut DefaultHasher, text: &str)
    ensures
        final(hasher)@ == old(hasher)@ + text_stream(text@),
{
    hasher.write(text.as_bytes());
    let end: [u8; 1] = [0xff];
    hasher.write(end.as_slice());
    assert(end@ =~= seq![0xffu8]);
    assert(hasher@ =~= old(hasher)@ + text_stream(text@));
}

/// The hash of the canonical text of a merged shape.
pub fn hash_skeleton(skeleton: &MergedShape) -> (hash: u64)
    ensures
        hash == text_digest(canonical_text(skeleton@)),
{
    let text = skeleton.canonical_text();
    let mut hasher = DefaultHasher::new();
    feed_text(&mut hasher, text.as_str());
    assert(hasher@ =~= text_stream(text@));
    hasher.finish()
}

/// The compact skeleton signature of a document: what is compared and kept
/// when documents are grouped.
#[derive(Debug, PartialEq, Eq)]
pub struct SkeletonSignature {
    /// Root element name.
    pub root: String,
    /// The merged shape of the document.
    pub skeleton: MergedShape,
    /// Hash of the canonical text of the merged shape, for quick comparison.
    pub hash: u64,
}

impl View for SkeletonSignature {
    type V = SignatureModel;

    open spec fn view(&self) -> SignatureModel {
        SignatureModel { root: self.root@, skeleton: self.skeleton@, hash: self.hash }
    }
}

impl SkeletonSignature {
    /// The hash is that of the merged shape.
    pub open spec fn well_formed(&self) -> bool {
        self.hash == text_digest(canonical_text(self.skeleton@))
    }

    /// The skeleton signature of a full structure.
    pub fn from_structure(structure: &XmlStructure) -> (signature: SkeletonSignature)
        ensures
            signature@ == skeleton_of(structure@),
            signature.well_formed(),
            well_formed(signature@.skeleton),
            shape_well_formed(structure@),
    {
        let skeleton = MergedShape::of_structure(structure);
        let hash = hash_skeleton(&skeleton);
        SkeletonSignature { root: structure.name.clone(), skeleton, hash }
    }

    /// The signature as one line: the root name, a colon, and the canonical
    /// text of the merged shape.
    pub fn to_compact_string(&self) -> (text: String)
        ensures
            text@ == self@.root + seq![':'] + canonical_text(self@.skeleton),
    {
        let mut text = self.root.clone();
        proof {
            reveal_strlit(":");
        }
        text.append(":");
        let shape = self.skeleton.canonical_text();
        text.append(shape.as_str());
        text
    }

    /// A copy of the signature.
    pub fn clone(&self) -> (copy: SkeletonSignature)
        ensures
            copy@ == self@,
    {
        SkeletonSignature {
            root: self.root.clone(),
            skeleton: self.skeleton.clone(),
            hash: self.hash,
        }
    }

    /// Whether both signatures are the same: the same root name, the same
    /// merged shape and the same hash. The hashes are compared first.
    pub fn same_signature(&self, other: &SkeletonSignature) -> (same: bool)
        ensures
            same == (self@ == other@),
    {
        self.hash == other.hash && self.root == other.root && self.skeleton.same_shape(
            &other.skeleton,
        )
    }
}

/// The shape of the structure that is kept for display, if one is kept.
pub open spec fn example_shape(example: Option<XmlStructure>) -> Option<ShapeNode> {
    match example {
        Some(structure) => Some(structure@),
        None => None,
    }
}

/// The documents that share one skeleton.
#[derive(Debug)]
pub struct StructureGroup {
    /// The skeleton that the members share.
    pub skeleton: SkeletonSignature,
    /// The identifiers of the members, in the order of their arrival.
    pub files: Vec<String>,
    /// Number of members.
    pub count: usize,
    /// The full structure of the first member, where it is kept.
    pub example_structure: Option<XmlStructure>,
}

impl View for StructureGroup {
    type V = GroupModel;

    open spec fn view(&self) -> GroupModel {
        GroupModel {
            skeleton: self.skeleton@,
            files: self.files@.map_values(|file: String| file@),
            count: self.count as nat,
            example: example_shape(self.example_structure),
        }
    }
}

impl StructureGroup {
    /// The group has a member, counts its members rightly, and the hash of
    /// its skeleton is that of the merged shape.
    pub open spec fn well_formed(&self) -> bool {
        &&& self.files@.len() > 0
        &&& self.count == self.files@.len()
        &&& self.skeleton.well_formed()
    }

    /// A group of one: the given document, with the skeleton of its
    /// structure, which is kept as the example.
    pub fn new(structure: XmlStructure, file_path: String) -> (group: StructureGroup)
        ensures
            group@ == (GroupModel {
                skeleton: skeleton_of(structure@),
                files: seq![file_path@],
                count: 1,
                example: Some(structure@),
            }),
            group.well_formed(),
    {
        let skeleton = structure.to_skeleton();
        let mut files: Vec<String> = Vec::new();
        files.push(file_path);
        let group = StructureGroup {
            skeleton,
            files,
            count: 1,
            example_structure: Some(structure),
        };
        assert(group@.files =~= seq![file_path@]);
        group
    }

    /// A group of one, of a skeleton that was computed before.
    pub fn with_skeleton(
        skeleton: SkeletonSignature,
        file_path: String,
        example: Option<XmlStructure>,
    ) -> (group: StructureGroup)
        ensures
            group@ == (GroupModel {
                skeleton: skeleton@,
                files: seq![file_path@],
                count: 1,
                example: example_shape(example),
            }),
            group.skeleton == skeleton,
    {
        let mut files: Vec<String> = Vec::new();
        files.push(file_path);
        let group = StructureGroup { skeleton, files, count: 1, example_structure: example };
        assert(group@.files =~= seq![file_path@]);
        group
    }

    /// Adds a member. The count is the number of members afterwards.
    pub fn add_file(&mut self, file_path: String)
        ensures
            final(self)@ == (GroupModel {
                files: old(self)@.files.push(file_path@),
                count: old(self)@.files.len() + 1,
                ..old(self)@
            }),
            final(self).skeleton == old(self).skeleton,
            final(self).example_structure == old(self).example_structure,
            old(self).skeleton.well_formed() ==> final(self).well_formed(),
    {
        self.files.push(file_path);
        self.count = self.files.len();
        assert(final(self)@.files =~= old(self)@.files.push(file_path@));
    }

    /// The hash of the group's skeleton.
    pub fn hash(&self) -> (hash: u64)
        ensures
            hash == self@.skeleton.hash,
    {
        self.skeleton.hash
    }

    /// The group's skeleton as one line.
    pub fn signature_string(&self) -> (text: String)
        ensures
            text@ == self@.skeleton.root + seq![':'] + canonical_text(self@.skeleton.skeleton),
    {
        self.skeleton.to_compact_string()
    }

    /// A copy of the group.
    pub fn clone(&self) -> (copy: StructureGroup)
        ensures
            copy@ == self@,
    {
        let mut files: Vec<String> = Vec::new();
        let mut i: usize = 0;
        while i < self.files.len()
            invariant
                i <= self.files.len(),
                files@.len() == i,
                forall|j: int| 0 <= j < i ==> (#[trigger] files@[j])@ == self.files@[j]@,
            decreases self.files.len() - i,
        {
            files.push(self.files[i].clone());
            i = i + 1;
        }
        let example_structure = match &self.example_structure {
            Some(structure) => Some(structure.clone()),
            None => None,
        };
        let copy = StructureGroup {
            skeleton: self.skeleton.clone(),
            files,
            count: self.count,
            example_structure,
        };
        assert(copy@.files =~= self@.files);
        copy
    }
}

/// What a listing of groups stands for.
pub open spec fn group_models(groups: Seq<StructureGroup>) -> Seq<GroupModel> {
    groups.map_values(|group: StructureGroup| group@)
}

/// Result of processing a batch of documents.
#[derive(Debug)]
pub struct ProcessingResult {
    /// Number of documents that were grouped.
    pub total_files: usize,
    /// Number of different skeletons found.
    pub unique_structures: usize,
    /// The groups, largest first.
    pub groups: Vec<StructureGroup>,
}

impl View for ProcessingResult {
    type V = ResultModel;

    open spec fn view(&self) -> ResultModel {
        ResultModel {
            total_files: self.total_files as nat,
            unique_structures: self.unique_structures as nat,
            groups: group_models(self.groups@),
        }
    }
}

} // verus!
