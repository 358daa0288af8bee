//! Accumulates documents into groups, one for each skeleton.

use crate::processor::ranking::{
    lemma_rank_slot_splits, lemma_ranking_upto, outranks, rank_order, rank_slot, ranking,
    ranking_upto,
};
use crate::processor::xml_struct::{
    example_shape, group_models, GroupModel, ProcessingResult, ShapeNode, SignatureModel,
    SkeletonSignature, StructureGroup, XmlStructure,
};
use std::collections::HashMap;
use vstd::prelude::*;

verus! {

/// The index of the first group of the given skeleton, or the number of
/// groups where there is none.
pub open spec fn group_slot(groups: Seq<GroupModel>, skeleton: SignatureModel) -> int
    decreases groups.len(),
{
    if groups.len() == 0 || groups[0].skeleton == skeleton {
        0
    } else {
        1 + group_slot(groups.drop_first(), skeleton)
    }
}

/// A group with one more member, at the end of its members.
pub open spec fn joined(group: GroupModel, document_id: Seq<char>) -> GroupModel {
    GroupModel {
        files: group.files.push(document_id),
        count: group.files.len() + 1,
        ..group
    }
}

/// The groups after a document with the given skeleton has been offered:
/// the document joins the group of that skeleton, or, where there is none
/// yet, founds a new group, which comes last.
pub open spec fn offered(
    groups: Seq<GroupModel>,
    document_id: Seq<char>,
    skeleton: SignatureModel,
    example: Option<ShapeNode>,
) -> Seq<GroupModel> {
    let at = group_slot(groups, skeleton);
    if at < groups.len() {
        groups.update(at, joined(groups[at], document_id))
    } else {
        groups.push(GroupModel { skeleton, files: seq![document_id], count: 1, example })
    }
}

/// The number of members of all groups together.
pub open spec fn total_members(groups: Seq<GroupModel>) -> nat
    decreases groups.len(),
{
    if groups.len() == 0 {
        0
    } else {
        total_members(groups.drop_last()) + groups.last().files.len()
    }
}

/// Every group has a member and counts its members rightly, and no two
/// groups have the same skeleton.
pub open spec fn groups_well_formed(groups: Seq<GroupModel>) -> bool {
    &&& forall|i: int|
        0 <= i < groups.len() ==> (#[trigger] groups[i]).files.len() > 0 && groups[i].count
            == groups[i].files.len()
    &&& forall|i: int, j: int|
        0 <= i < groups.len() && 0 <= j < groups.len() && i != j ==> (#[trigger] groups[i]).skeleton
            != (#[trigger] groups[j]).skeleton
}

/// The member counts of the groups, in their order.
pub open spec fn member_counts(groups: Seq<GroupModel>) -> Seq<nat> {
    groups.map_values(|group: GroupModel| group.count)
}

/// Larger groups stand before smaller ones.
pub open spec fn largest_first(groups: Seq<GroupModel>) -> bool {
    forall|p: int, q: int|
        0 <= p < q < groups.len() ==> (#[trigger] groups[p]).count >= (#[trigger] groups[q]).count
}

/// The groups in the order of their rank: larger groups first, and of two
/// groups of one size the one that was founded first.
pub open spec fn ranked(groups: Seq<GroupModel>) -> Seq<GroupModel> {
    ranking(member_counts(groups)).map_values(|index: int| groups[index])
}

/// `at` is the slot of the skeleton where no group before `at` has it and
/// the group at `at`, if any, has it.
pub proof fn lemma_group_slot_found(groups: Seq<GroupModel>, skeleton: SignatureModel, at: int)
    requires
        0 <= at <= groups.len(),
        forall|i: int| 0 <= i < at ==> (#[trigger] groups[i]).skeleton != skeleton,
        at < groups.len() ==> groups[at].skeleton == skeleton,
    ensures
        group_slot(groups, skeleton) == at,
    decreases groups.len(),
{
    if at > 0 {
        let rest = groups.drop_first();
        assert forall|i: int| 0 <= i < at - 1 implies (#[trigger] rest[i]).skeleton != skeleton by {
            assert(rest[i] == groups[i + 1]);
        }
        if at - 1 < rest.len() {
            assert(rest[at - 1] == groups[at]);
        }
        assert(groups[0].skeleton != skeleton);
        lemma_group_slot_found(rest, skeleton, at - 1);
    }
}

/// The slot of a skeleton lies within the listing or just behind it; no
/// group before it has the skeleton, and the group at it, if any, has it.
pub proof fn lemma_group_slot(groups: Seq<GroupModel>, skeleton: SignatureModel)
    ensures
        0 <= group_slot(groups, skeleton) <= groups.len(),
        forall|i: int|
            0 <= i < group_slot(groups, skeleton) ==> (#[trigger] groups[i]).skeleton != skeleton,
        group_slot(groups, skeleton) < groups.len() ==> groups[group_slot(
            groups,
            skeleton,
        )].skeleton == skeleton,
    decreases groups.len(),
{
    if groups.len() > 0 && groups[0].skeleton != skeleton {
        let rest = groups.drop_first();
        lemma_group_slot(rest, skeleton);
        let at = group_slot(groups, skeleton);
        assert forall|i: int| 0 <= i < at implies (#[trigger] groups[i]).skeleton != skeleton by {
            if i > 0 {
                assert(rest[i - 1] == groups[i]);
            }
        }
        if at < groups.len() {
            assert(rest[at - 1] == groups[at]);
        }
    }
}

/// Changing one group by a member changes the total by one.
pub proof fn lemma_total_after_join(groups: Seq<GroupModel>, at: int, document_id: Seq<char>)
    requires
        0 <= at < groups.len(),
    ensures
        total_members(groups.update(at, joined(groups[at], document_id))) == total_members(groups)
            + 1,
    decreases groups.len(),
{
    let after = groups.update(at, joined(groups[at], document_id));
    if at == groups.len() - 1 {
        assert(after.drop_last() =~= groups.drop_last());
    } else {
        assert(after.drop_last() =~= groups.drop_last().update(
            at,
            joined(groups.drop_last()[at], document_id),
        ));
        lemma_total_after_join(groups.drop_last(), at, document_id);
    }
}

/// Offering a document to well-formed groups leaves them well-formed and
/// adds one member: to the one group of its skeleton, which is new where
/// there was none.
pub proof fn lemma_offered(
    groups: Seq<GroupModel>,
    document_id: Seq<char>,
    skeleton: SignatureModel,
    example: Option<ShapeNode>,
)
    requires
        groups_well_formed(groups),
    ensures
        groups_well_formed(offered(groups, document_id, skeleton, example)),
        total_members(offered(groups, document_id, skeleton, example)) == total_members(groups) + 1,
        offered(groups, document_id, skeleton, example).len() == groups.len() + (if exists|i: int|
            0 <= i < groups.len() && (#[trigger] groups[i]).skeleton == skeleton {
            0int
        } else {
            1int
        }),
{
    lemma_group_slot(groups, skeleton);
    let at = group_slot(groups, skeleton);
    let after = offered(groups, document_id, skeleton, example);
    if at < groups.len() {
        lemma_total_after_join(groups, at, document_id);
        assert forall|i: int, j: int|
            0 <= i < after.len() && 0 <= j < after.len() && i != j implies (
        #[trigger] after[i]).skeleton != (#[trigger] after[j]).skeleton by {
            assert(after[i].skeleton == groups[i].skeleton);
            assert(after[j].skeleton == groups[j].skeleton);
        }
        assert forall|i: int| 0 <= i < after.len() implies (#[trigger] after[i]).files.len() > 0
            && after[i].count == after[i].files.len() by {
            if i != at {
                assert(after[i] == groups[i]);
            }
        }
    } else {
        assert(after.drop_last() =~= groups);
        assert forall|i: int, j: int|
            0 <= i < after.len() && 0 <= j < after.len() && i != j implies (
        #[trigger] after[i]).skeleton != (#[trigger] after[j]).skeleton by {
            if i < groups.len() {
                assert(after[i] == groups[i]);
            }
            if j < groups.len() {
                assert(after[j] == groups[j]);
            }
        }
        assert forall|i: int| 0 <= i < after.len() implies (#[trigger] after[i]).files.len() > 0
            && after[i].count == after[i].files.len() by {
            if i < groups.len() {
                assert(after[i] == groups[i]);
            }
        }
    }
}

/// A document that is offered lands in the group of its own skeleton, at
/// the end of its members, and in no other group: every other group is as
/// it was and has another skeleton.
pub proof fn lemma_offer_lands_in_own_group(
    groups: Seq<GroupModel>,
    document_id: Seq<char>,
    skeleton: SignatureModel,
    example: Option<ShapeNode>,
)
    requires
        groups_well_formed(groups),
    ensures
        ({
            let after = offered(groups, document_id, skeleton, example);
            let at = group_slot(groups, skeleton);
            &&& 0 <= at < after.len()
            &&& after[at].skeleton == skeleton
            &&& after[at].files.last() == document_id
            &&& forall|j: int|
                0 <= j < after.len() && j != at ==> (#[trigger] after[j]).skeleton != skeleton
                    && after[j] == groups[j]
        }),
{
    lemma_group_slot(groups, skeleton);
    lemma_offered(groups, document_id, skeleton, example);
    let after = offered(groups, document_id, skeleton, example);
    let at = group_slot(groups, skeleton);
    assert forall|j: int| 0 <= j < after.len() && j != at implies (#[trigger] after[j]).skeleton
        != skeleton && after[j] == groups[j] by {
        assert(after[at].skeleton == skeleton);
    }
}

/// Putting a group into a listing adds its members to the total.
pub proof fn lemma_total_insert(groups: Seq<GroupModel>, at: int, group: GroupModel)
    requires
        0 <= at <= groups.len(),
    ensures
        total_members(groups.insert(at, group)) == total_members(groups) + group.files.len(),
    decreases groups.len(),
{
    let after = groups.insert(at, group);
    if at == groups.len() {
        assert(after.drop_last() =~= groups);
    } else {
        assert(after.drop_last() =~= groups.drop_last().insert(at, group));
        assert(after.last() == groups.last());
        lemma_total_insert(groups.drop_last(), at, group);
    }
}

/// The first `upto` groups in the order of their rank.
pub open spec fn ranked_upto(groups: Seq<GroupModel>, upto: int) -> Seq<GroupModel> {
    ranking_upto(member_counts(groups), upto).map_values(|index: int| groups[index])
}

proof fn lemma_ranked_upto(groups: Seq<GroupModel>, upto: int)
    requires
        0 <= upto <= groups.len(),
    ensures
        total_members(ranked_upto(groups, upto)) == total_members(groups.take(upto)),
    decreases upto,
{
    let counts = member_counts(groups);
    if upto > 0 {
        lemma_ranked_upto(groups, upto - 1);
        lemma_ranking_upto(counts, upto - 1);
        let earlier = ranking_upto(counts, upto - 1);
        lemma_rank_slot_splits(counts, earlier, upto - 1);
        let at = rank_slot(counts, earlier, upto - 1);
        assert(ranked_upto(groups, upto) =~= ranked_upto(groups, upto - 1).insert(
            at,
            groups[upto - 1],
        ));
        lemma_total_insert(ranked_upto(groups, upto - 1), at, groups[upto - 1]);
        assert(groups.take(upto).drop_last() =~= groups.take(upto - 1));
    } else {
        assert(ranked_upto(groups, upto) =~= Seq::<GroupModel>::empty());
        assert(groups.take(upto) =~= Seq::<GroupModel>::empty());
    }
}

/// Ranking conserves the groups: the ranked listing holds each group once,
/// larger groups stand before smaller ones, of two groups of one size the
/// one that was founded first stands first, and the members of all groups
/// are as many as before.
pub proof fn lemma_ranked(groups: Seq<GroupModel>)
    requires
        groups_well_formed(groups),
    ensures
        ranked(groups).len() == groups.len(),
        groups_well_formed(ranked(groups)),
        total_members(ranked(groups)) == total_members(groups),
        forall|index: int|
            0 <= index < groups.len() ==> ranked(groups).contains(#[trigger] groups[index]),
        largest_first(ranked(groups)),
        forall|p: int, q: int|
            #![trigger ranking(member_counts(groups))[p], ranking(member_counts(groups))[q]]
            0 <= p < q < groups.len() && ranked(groups)[p].count == ranked(groups)[q].count
                ==> ranking(member_counts(groups))[p] < ranking(member_counts(groups))[q],
{
    let counts = member_counts(groups);
    let order = ranking(counts);
    let out = ranked(groups);
    lemma_ranking_upto(counts, counts.len() as int);
    lemma_ranked_upto(groups, groups.len() as int);
    assert(groups.take(groups.len() as int) =~= groups);
    assert(ranked_upto(groups, groups.len() as int) == out);
    assert forall|index: int| 0 <= index < groups.len() implies out.contains(
        #[trigger] groups[index],
    ) by {
        assert(order.contains(index));
        let p = choose|p: int| 0 <= p < order.len() && order[p] == index;
        assert(out[p] == groups[index]);
    }
    assert forall|p: int, q: int| 0 <= p < q < groups.len() implies (#[trigger] out[p]).count >= (
    #[trigger] out[q]).count by {
        assert(outranks(counts, order[p], order[q]));
    }
    assert forall|p: int, q: int|
        #![trigger order[p], order[q]]
        0 <= p < q < groups.len() && out[p].count == out[q].count implies order[p] < order[q] by {
        assert(outranks(counts, order[p], order[q]));
    }
    assert forall|i: int, j: int|
        0 <= i < out.len() && 0 <= j < out.len() && i != j implies (#[trigger] out[i]).skeleton != (
    #[trigger] out[j]).skeleton by {
        if i < j {
            assert(outranks(counts, order[i], order[j]));
        } else {
            assert(outranks(counts, order[j], order[i]));
        }
        assert(order[i] != order[j]);
        assert(out[i] == groups[order[i]]);
        assert(out[j] == groups[order[j]]);
    }
    assert forall|i: int| 0 <= i < out.len() implies (#[trigger] out[i]).files.len() > 0
        && out[i].count == out[i].files.len() by {
        assert(out[i] == groups[order[i]]);
    }
}

/// What the index of a grouper holds: under each hash the places of the
/// groups whose skeletons have that hash, and of no others; and every group
/// is listed under the hash of its skeleton. A hash is a shelf, not a name:
/// several groups may stand under one.
pub open spec fn index_holds(groups: Seq<GroupModel>, index: Map<u64, Vec<usize>>) -> bool {
    &&& forall|hash: u64, k: int|
        index.contains_key(hash) && 0 <= k < index[hash]@.len() ==> (#[trigger] index[hash]@[k])
            < groups.len() && groups[index[hash]@[k] as int].skeleton.hash == hash
    &&& forall|i: int|
        0 <= i < groups.len() ==> index.contains_key((#[trigger] groups[i]).skeleton.hash)
            && index[groups[i].skeleton.hash]@.contains(i as usize)
}

/// Collects documents into groups by skeleton. The groups are found through
/// an index from hash to groups. Safe to share behind one lock: a document
/// is offered in one call, which finds its group or founds it.
#[derive(Debug)]
pub struct FingerprintGrouper {
    groups: Vec<StructureGroup>,
    index: HashMap<u64, Vec<usize>>,
}

impl View for FingerprintGrouper {
    type V = Seq<GroupModel>;

    /// The groups, in the order in which they were founded.
    closed spec fn view(&self) -> Seq<GroupModel> {
        group_models(self.groups@)
    }
}

impl FingerprintGrouper {
    #[verifier::type_invariant]
    closed spec fn canonical(&self) -> bool {
        groups_well_formed(self@) && index_holds(self@, self.index@)
    }

    /// A grouper that has seen no document.
    pub fn new() -> (grouper: FingerprintGrouper)
        ensures
            grouper@ == Seq::<GroupModel>::empty(),
    {
        let grouper = FingerprintGrouper { groups: Vec::new(), index: HashMap::new() };
        assert(grouper@ =~= Seq::<GroupModel>::empty());
        grouper
    }

    /// The number of groups.
    pub fn group_count(&self) -> (count: usize)
        ensures
            count == self@.len(),
            groups_well_formed(self@),
    {
        proof {
            use_type_invariant(self);
        }
        self.groups.len()
    }

    /// Takes one document. It joins the group whose skeleton is the same as
    /// its own, root name, merged shape and hash; where there is none, it
    /// founds a group, with `example` as the structure on display. The
    /// groups of the skeleton's hash are looked up, and each is compared in
    /// full: two skeletons of one hash that differ are kept apart.
    pub fn offer(
        &mut self,
        document_id: String,
        skeleton: SkeletonSignature,
        example: Option<XmlStructure>,
    )
        ensures
            final(self)@ == offered(old(self)@, document_id@, skeleton@, example_shape(example)),
            groups_well_formed(final(self)@),
            total_members(final(self)@) == total_members(old(self)@) + 1,
    {
        let ghost before = self@;
        let ghost listed = self.index@;
        let ghost shown = example_shape(example);
        proof {
            use_type_invariant(&*self);
            lemma_offered(before, document_id@, skeleton@, shown);
        }
        let mut taken = FingerprintGrouper::new();
        std::mem::swap(self, &mut taken);
        let FingerprintGrouper { groups, index } = taken;
        let mut groups = groups;
        let mut index = index;
        assert(group_models(groups@) == before);
        let hash = skeleton.hash;
        let mut found: Option<usize> = None;
        match index.get(&hash) {
            Some(shelf) => {
                let mut k: usize = 0;
                while k < shelf.len()
                    invariant_except_break
                        found is None,
                        forall|j: int|
                            0 <= j < k ==> before[(#[trigger] shelf@[j]) as int].skeleton
                                != skeleton@,
                    invariant
                        k <= shelf.len(),
                        group_models(groups@) == before,
                        index@ == listed,
                        index_holds(before, listed),
                        listed.contains_key(hash),
                        listed[hash] == *shelf,
                    ensures
                        match found {
                            Some(at) => at < groups.len() && before[at as int].skeleton
                                == skeleton@,
                            None => forall|j: int|
                                0 <= j < listed[hash]@.len() ==> before[(
                                #[trigger] listed[hash]@[j]) as int].skeleton != skeleton@,
                        },
                    decreases shelf.len() - k,
                {
                    let at = shelf[k];
                    assert(listed[hash]@[k as int] < before.len());
                    assert(before[at as int] == groups@[at as int]@);
                    if groups[at].skeleton.same_signature(&skeleton) {
                        found = Some(at);
                        break ;
                    }
                    k = k + 1;
                }
            },
            None => {},
        }
        assert(found is None && listed.contains_key(hash) ==> forall|j: int|
            0 <= j < listed[hash]@.len() ==> before[(#[trigger] listed[hash]@[j]) as int].skeleton
                != skeleton@);
        assert(found matches Some(at) ==> at < groups.len() && before[at as int].skeleton
            == skeleton@);
        match found {
            Some(at) => {
                proof {
                    assert forall|i: int| 0 <= i < at implies (#[trigger] before[i]).skeleton
                        != skeleton@ by {
                        assert(before[i].skeleton != before[at as int].skeleton);
                    }
                    lemma_group_slot_found(before, skeleton@, at as int);
                    assert(before[at as int] == groups@[at as int]@);
                }
                groups[at].add_file(document_id);
                proof {
                    let after = group_models(groups@);
                    assert(after =~= before.update(
                        at as int,
                        joined(before[at as int], document_id@),
                    ));
                    assert forall|i: int| 0 <= i < after.len() implies (
                    #[trigger] after[i]).skeleton == before[i].skeleton by {}
                    assert(index_holds(after, listed)) by {
                        assert forall|h: u64, k: int|
                            listed.contains_key(h) && 0 <= k < listed[h]@.len() implies (
                        #[trigger] listed[h]@[k]) < after.len() && after[listed[h]@[k]
                            as int].skeleton.hash == h by {
                            let at_k = listed[h]@[k] as int;
                            assert(after[at_k].skeleton == before[at_k].skeleton);
                        }
                        assert forall|i: int| 0 <= i < after.len() implies listed.contains_key(
                            (#[trigger] after[i]).skeleton.hash,
                        ) && listed[after[i].skeleton.hash]@.contains(i as usize) by {
                            assert(after[i].skeleton == before[i].skeleton);
                        }
                    }
                }
            },
            None => {
                let place = groups.len();
                proof {
                    assert forall|i: int| 0 <= i < before.len() implies (
                    #[trigger] before[i]).skeleton != skeleton@ by {
                        if before[i].skeleton == skeleton@ {
                            assert(i < place);
                            assert(listed[hash]@.contains(i as usize));
                            let j = choose|j: int|
                                0 <= j < listed[hash]@.len() && listed[hash]@[j] == i as usize;
                            assert(before[listed[hash]@[j] as int].skeleton != skeleton@);
                        }
                    }
                    lemma_group_slot_found(before, skeleton@, before.len() as int);
                }
                groups.push(StructureGroup::with_skeleton(skeleton, document_id, example));
                let mut shelf = match index.remove(&hash) {
                    Some(shelf) => shelf,
                    None => Vec::new(),
                };
                let ghost earlier = shelf@;
                shelf.push(place);
                index.insert(hash, shelf);
                proof {
                    let after = group_models(groups@);
                    assert(after =~= before.push(
                        GroupModel {
                            skeleton: skeleton@,
                            files: seq![document_id@],
                            count: 1,
                            example: shown,
                        },
                    ));
                    assert(earlier == if listed.contains_key(hash) {
                        listed[hash]@
                    } else {
                        Seq::empty()
                    });
                    assert(index_holds(after, index@)) by {
                        assert forall|h: u64, k: int|
                            index@.contains_key(h) && 0 <= k < index@[h]@.len() implies (
                        #[trigger] index@[h]@[k]) < after.len() && after[index@[h]@[k]
                            as int].skeleton.hash == h by {
                            if h == hash {
                                if k < earlier.len() {
                                    assert(index@[h]@[k] == listed[h]@[k]);
                                    let at_k = listed[h]@[k] as int;
                                    assert(after[at_k] == before[at_k]);
                                }
                            } else {
                                assert(index@[h] == listed[h]);
                                assert(after[listed[h]@[k] as int] == before[listed[h]@[k] as int]);
                            }
                        }
                        assert forall|i: int| 0 <= i < after.len() implies index@.contains_key(
                            (#[trigger] after[i]).skeleton.hash,
                        ) && index@[after[i].skeleton.hash]@.contains(i as usize) by {
                            if i < before.len() {
                                assert(after[i] == before[i]);
                                let h = before[i].skeleton.hash;
                                assert(listed[h]@.contains(i as usize));
                                let j = choose|j: int|
                                    0 <= j < listed[h]@.len() && listed[h]@[j] == i as usize;
                                if h == hash {
                                    assert(index@[h]@[j] == i as usize);
                                } else {
                                    assert(index@[h] == listed[h]);
                                }
                            } else {
                                assert(index@[hash]@[earlier.len() as int] == i as usize);
                            }
                        }
                    }
                }
            },
        }
        *self = FingerprintGrouper { groups, index };
    }

    /// What was collected so far: the number of documents taken, the number
    /// of groups, and the groups by rank, larger groups first and, of two
    /// groups of one size, the one that was founded first. A number that the
    /// machine cannot hold is given as the largest that it can.
    pub fn snapshot(&self) -> (result: ProcessingResult)
        ensures
            result@.groups == ranked(self@),
            groups_well_formed(result@.groups),
            largest_first(result@.groups),
            total_members(result@.groups) == total_members(self@),
            result@.unique_structures == self@.len(),
            result@.total_files == if total_members(self@) <= usize::MAX {
                total_members(self@)
            } else {
                usize::MAX as nat
            },
    {
        proof {
            use_type_invariant(self);
            lemma_ranked(self@);
        }
        let mut counts: Vec<usize> = Vec::new();
        let mut total: usize = 0;
        let mut i: usize = 0;
        while i < self.groups.len()
            invariant
                i <= self.groups.len(),
                groups_well_formed(self@),
                counts@.len() == i,
                forall|j: int| 0 <= j < i ==> (#[trigger] counts@[j]) as nat == self@[j].count,
                total as nat == if total_members(self@.take(i as int)) <= usize::MAX {
                    total_members(self@.take(i as int))
                } else {
                    usize::MAX as nat
                },
            decreases self.groups.len() - i,
        {
            proof {
                assert(self@.take(i + 1).drop_last() =~= self@.take(i as int));
                assert(self@.take(i + 1).last() == self@[i as int]);
                assert(self@[i as int] == self.groups@[i as int]@);
            }
            counts.push(self.groups[i].count);
            total = total.saturating_add(self.groups[i].count);
            i = i + 1;
        }
        assert(self@.take(i as int) =~= self@);
        let ghost amounts = counts@.map_values(|count: usize| count as nat);
        assert(amounts =~= member_counts(self@));
        let order = rank_order(&counts);
        let mut groups: Vec<StructureGroup> = Vec::new();
        let mut place: usize = 0;
        while place < order.len()
            invariant
                place <= order.len(),
                order@.len() == self.groups@.len(),
                order@.map_values(|index: usize| index as int) == ranking(amounts),
                forall|p: int|
                    0 <= p < order@.len() ==> 0 <= #[trigger] order@[p] < self.groups@.len(),
                groups@.len() == place,
                forall|p: int|
                    0 <= p < place ==> (#[trigger] groups@[p])@ == self.groups@[order@[p] as int]@,
            decreases order.len() - place,
        {
            groups.push(self.groups[order[place]].clone());
            place = place + 1;
        }
        let result = ProcessingResult {
            total_files: total,
            unique_structures: self.groups.len(),
            groups,
        };
        proof {
            let wanted = ranked(self@);
            assert(result@.groups.len() == wanted.len());
            assert forall|p: int| 0 <= p < wanted.len() implies result@.groups[p] == wanted[p] by {
                assert(ranking(amounts)[p] == order@[p] as int);
                assert(self@[order@[p] as int] == self.groups@[order@[p] as int]@);
            }
            assert(result@.groups =~= wanted);
        }
        result
    }
}

} // verus!
