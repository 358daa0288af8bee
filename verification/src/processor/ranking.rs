//! The order of rank: by falling size, and among equals by rising index.

use vstd::prelude::*;

verus! {

/// Whether entry `i` comes before entry `j` in the order of rank: it is
/// larger, or as large and earlier.
pub open spec fn outranks(counts: Seq<nat>, i: int, j: int) -> bool {
    counts[i] > counts[j] || (counts[i] == counts[j] && i < j)
}

/// The place of `index` in a ranked listing: the number of leading entries
/// that outrank it.
pub open spec fn rank_slot(counts: Seq<nat>, order: Seq<int>, index: int) -> int
    decreases order.len(),
{
    if order.len() == 0 || !outranks(counts, order[0], index) {
        0
    } else {
        1 + rank_slot(counts, order.drop_first(), index)
    }
}

/// The first `upto` indices in the order of rank.
pub open spec fn ranking_upto(counts: Seq<nat>, upto: int) -> Seq<int>
    decreases upto,
{
    if upto <= 0 {
        Seq::empty()
    } else {
        let earlier = ranking_upto(counts, upto - 1);
        earlier.insert(rank_slot(counts, earlier, upto - 1), upto - 1)
    }
}

/// The indices of all entries in the order of rank.
pub open spec fn ranking(counts: Seq<nat>) -> Seq<int> {
    ranking_upto(counts, counts.len() as int)
}

/// `order` is in the order of rank: every entry outranks all that follow
/// it. No index occurs twice in such a listing.
pub open spec fn in_rank_order(counts: Seq<nat>, order: Seq<int>) -> bool {
    forall|p: int, q: int|
        0 <= p < q < order.len() ==> outranks(counts, #[trigger] order[p], #[trigger] order[q])
}

/// `order` lists each of the first `upto` indices of `counts` once, in the
/// order of rank.
pub open spec fn is_ranking_upto(counts: Seq<nat>, order: Seq<int>, upto: int) -> bool {
    &&& order.len() == upto
    &&& forall|p: int| 0 <= p < order.len() ==> 0 <= #[trigger] order[p] < upto
    &&& forall|index: int| 0 <= index < upto ==> #[trigger] order.contains(index)
    &&& in_rank_order(counts, order)
}

/// `order` lists each index of `counts` once, in the order of rank: larger
/// entries first, and equal entries in the order of their indices.
pub open spec fn is_ranking(counts: Seq<nat>, order: Seq<int>) -> bool {
    is_ranking_upto(counts, order, counts.len() as int)
}

/// `at` is the rank slot of `index` where all entries before `at` outrank
/// it and the entry at `at`, if any, does not.
pub proof fn lemma_rank_slot_found(counts: Seq<nat>, order: Seq<int>, index: int, at: int)
    requires
        0 <= at <= order.len(),
        forall|p: int| 0 <= p < at ==> outranks(counts, #[trigger] order[p], index),
        at < order.len() ==> !outranks(counts, order[at], index),
    ensures
        rank_slot(counts, order, index) == at,
    decreases order.len(),
{
    if at > 0 {
        let rest = order.drop_first();
        assert forall|p: int| 0 <= p < at - 1 implies outranks(
            counts,
            #[trigger] rest[p],
            index,
        ) by {
            assert(rest[p] == order[p + 1]);
        }
        if at - 1 < rest.len() {
            assert(rest[at - 1] == order[at]);
        }
        assert(outranks(counts, order[0], index));
        lemma_rank_slot_found(counts, rest, index, at - 1);
    }
}

/// In a listing in rank order the entries before the rank slot of `index`
/// outrank it, and those from the slot on do not.
pub proof fn lemma_rank_slot_splits(counts: Seq<nat>, order: Seq<int>, index: int)
    requires
        in_rank_order(counts, order),
    ensures
        0 <= rank_slot(counts, order, index) <= order.len(),
        forall|p: int|
            0 <= p < rank_slot(counts, order, index) ==> outranks(
                counts,
                #[trigger] order[p],
                index,
            ),
        forall|p: int|
            rank_slot(counts, order, index) <= p < order.len() ==> !outranks(
                counts,
                #[trigger] order[p],
                index,
            ),
    decreases order.len(),
{
    if order.len() == 0 {
    } else if !outranks(counts, order[0], index) {
        assert forall|p: int| 0 <= p < order.len() implies !outranks(
            counts,
            #[trigger] order[p],
            index,
        ) by {
            if p > 0 {
                assert(outranks(counts, order[0], order[p]));
            }
        }
    } else {
        let rest = order.drop_first();
        assert forall|p: int, q: int| 0 <= p < q < rest.len() implies outranks(
            counts,
            #[trigger] rest[p],
            #[trigger] rest[q],
        ) by {
            assert(rest[p] == order[p + 1]);
            assert(rest[q] == order[q + 1]);
        }
        lemma_rank_slot_splits(counts, rest, index);
        let at = rank_slot(counts, order, index);
        assert forall|p: int| 0 <= p < at implies outranks(counts, #[trigger] order[p], index) by {
            if p > 0 {
                assert(rest[p - 1] == order[p]);
            }
        }
        assert forall|p: int| at <= p < order.len() implies !outranks(
            counts,
            #[trigger] order[p],
            index,
        ) by {
            assert(rest[p - 1] == order[p]);
        }
    }
}

/// The ranking lists each index once, in the order of rank.
pub proof fn lemma_ranking_upto(counts: Seq<nat>, upto: int)
    requires
        0 <= upto <= counts.len(),
    ensures
        is_ranking_upto(counts, ranking_upto(counts, upto), upto),
    decreases upto,
{
    if upto > 0 {
        let earlier = ranking_upto(counts, upto - 1);
        let index = upto - 1;
        lemma_ranking_upto(counts, upto - 1);
        lemma_rank_slot_splits(counts, earlier, index);
        let at = rank_slot(counts, earlier, index);
        let order = earlier.insert(at, index);
        assert forall|p: int| 0 <= p < order.len() implies 0 <= #[trigger] order[p] < upto by {
            if p < at {
                assert(order[p] == earlier[p]);
            } else if p > at {
                assert(order[p] == earlier[p - 1]);
            }
        }
        assert forall|i: int| 0 <= i < upto implies #[trigger] order.contains(i) by {
            if i == index {
                assert(order[at] == i);
            } else {
                assert(earlier.contains(i));
                let p = choose|p: int| 0 <= p < earlier.len() && earlier[p] == i;
                if p < at {
                    assert(order[p] == i);
                } else {
                    assert(order[p + 1] == i);
                }
            }
        }
        assert forall|p: int, q: int| 0 <= p < q < order.len() implies outranks(
            counts,
            #[trigger] order[p],
            #[trigger] order[q],
        ) by {
            if q == at {
                assert(order[p] == earlier[p]);
            } else if p == at {
                assert(order[q] == earlier[q - 1]);
                assert(!outranks(counts, earlier[q - 1], index));
                assert(0 <= earlier[q - 1] < index);
            } else {
                let before_p = if p < at { p } else { p - 1 };
                let before_q = if q < at { q } else { q - 1 };
                assert(order[p] == earlier[before_p]);
                assert(order[q] == earlier[before_q]);
            }
        }
    } else {
        assert(ranking_upto(counts, upto) =~= Seq::<int>::empty());
    }
}

/// The ranking of the entries lists each index once, larger entries first
/// and equal entries in the order of their indices.
pub proof fn lemma_ranking(counts: Seq<nat>)
    ensures
        is_ranking(counts, ranking(counts)),
{
    lemma_ranking_upto(counts, counts.len() as int);
}

/// There is one ranking only: two listings in rank order that hold the same
/// indices are the same.
pub proof fn lemma_rank_order_unique(counts: Seq<nat>, a: Seq<int>, b: Seq<int>)
    requires
        in_rank_order(counts, a),
        in_rank_order(counts, b),
        forall|index: int|
            #![trigger a.contains(index)]
            #![trigger b.contains(index)]
            a.contains(index) <==> b.contains(index),
    ensures
        a == b,
    decreases a.len(),
{
    if a.len() == 0 {
        if b.len() > 0 {
            assert(b.contains(b[0]));
            assert(a.contains(b[0]));
        }
        assert(a =~= b);
    } else {
        assert(a.contains(a[0]));
        assert(b.contains(a[0]));
        let j = choose|j: int| 0 <= j < b.len() && b[j] == a[0];
        assert(b.contains(b[0]));
        assert(a.contains(b[0]));
        let i = choose|i: int| 0 <= i < a.len() && a[i] == b[0];
        if j > 0 {
            assert(outranks(counts, b[0], b[j]));
            if i > 0 {
                assert(outranks(counts, a[0], a[i]));
            }
        }
        assert(a[0] == b[0]);
        let a1 = a.skip(1);
        let b1 = b.skip(1);
        assert forall|p: int, q: int| 0 <= p < q < a1.len() implies outranks(
            counts,
            #[trigger] a1[p],
            #[trigger] a1[q],
        ) by {
            assert(a1[p] == a[p + 1] && a1[q] == a[q + 1]);
        }
        assert forall|p: int, q: int| 0 <= p < q < b1.len() implies outranks(
            counts,
            #[trigger] b1[p],
            #[trigger] b1[q],
        ) by {
            assert(b1[p] == b[p + 1] && b1[q] == b[q + 1]);
        }
        assert forall|index: int|
            #![trigger a1.contains(index)]
            #![trigger b1.contains(index)]
            a1.contains(index) <==> b1.contains(index) by {
            if a1.contains(index) {
                let p = choose|p: int| 0 <= p < a1.len() && a1[p] == index;
                assert(a[p + 1] == index);
                assert(a.contains(index));
                assert(outranks(counts, a[0], a[p + 1]));
                let q = choose|q: int| 0 <= q < b.len() && b[q] == index;
                assert(q != 0);
                assert(b1[q - 1] == index);
            }
            if b1.contains(index) {
                let p = choose|p: int| 0 <= p < b1.len() && b1[p] == index;
                assert(b[p + 1] == index);
                assert(b.contains(index));
                assert(outranks(counts, b[0], b[p + 1]));
                let q = choose|q: int| 0 <= q < a.len() && a[q] == index;
                assert(q != 0);
                assert(a1[q - 1] == index);
            }
        }
        lemma_rank_order_unique(counts, a1, b1);
        assert(a =~= seq![a[0]] + a1);
        assert(b =~= seq![b[0]] + b1);
    }
}

/// Every ranking of the entries is the ranking.
pub proof fn lemma_ranking_unique(counts: Seq<nat>, order: Seq<int>)
    requires
        is_ranking(counts, order),
    ensures
        order == ranking(counts),
{
    lemma_ranking(counts);
    let other = ranking(counts);
    assert forall|index: int|
        #![trigger order.contains(index)]
        #![trigger other.contains(index)]
        order.contains(index) <==> other.contains(index) by {
        if order.contains(index) {
            let p = choose|p: int| 0 <= p < order.len() && order[p] == index;
            assert(0 <= order[p] < counts.len());
        }
        if other.contains(index) {
            let p = choose|p: int| 0 <= p < other.len() && other[p] == index;
            assert(0 <= other[p] < counts.len());
        }
    }
    lemma_rank_order_unique(counts, order, other);
}

/// The indices of the entries in the order of rank: larger entries first,
/// and of two entries of one size the earlier one.
pub fn rank_order(counts: &Vec<usize>) -> (order: Vec<usize>)
    ensures
        order@.map_values(|index: usize| index as int) == ranking(
            counts@.map_values(|count: usize| count as nat),
        ),
        order@.len() == counts@.len(),
        forall|p: int| 0 <= p < order@.len() ==> 0 <= #[trigger] order@[p] < counts@.len(),
{
    let ghost amounts = counts@.map_values(|count: usize| count as nat);
    let mut order: Vec<usize> = Vec::new();
    let mut next: usize = 0;
    while next < counts.len()
        invariant
            next <= counts.len(),
            amounts == counts@.map_values(|count: usize| count as nat),
            order@.len() == next,
            forall|p: int| 0 <= p < order@.len() ==> 0 <= #[trigger] order@[p] < next,
            order@.map_values(|index: usize| index as int) == ranking_upto(amounts, next as int),
        decreases counts.len() - next,
    {
        let ghost earlier = order@.map_values(|index: usize| index as int);
        let mut at: usize = 0;
        while at < order.len()
            invariant
                at <= order.len(),
                next < counts.len(),
                amounts == counts@.map_values(|count: usize| count as nat),
                earlier == order@.map_values(|index: usize| index as int),
                forall|p: int| 0 <= p < order@.len() ==> 0 <= #[trigger] order@[p] < next,
                forall|p: int|
                    0 <= p < at ==> outranks(amounts, #[trigger] earlier[p], next as int),
            ensures
                at <= order.len(),
                at < order.len() ==> !outranks(amounts, earlier[at as int], next as int),
            decreases order.len() - at,
        {
            assert(earlier[at as int] == order@[at as int]);
            if counts[order[at]] < counts[next] {
                break ;
            }
            at = at + 1;
        }
        proof {
            lemma_rank_slot_found(amounts, earlier, next as int, at as int);
        }
        order.insert(at, next);
        proof {
            assert(order@.map_values(|index: usize| index as int) =~= earlier.insert(
                at as int,
                next as int,
            ));
        }
        next = next + 1;
    }
    order
}

} // verus!
