//! The set of attribute names seen on an element, kept as its ascending
//! listing.

use crate::processor::key_order::{
    key_before, key_precedence, lemma_ascending_tail, lemma_ascending_unique,
    lemma_key_before_asymmetric, lemma_key_before_irreflexive, lemma_key_before_total,
    lemma_key_before_transitive, strictly_ascending, Precedence,
};
use vstd::prelude::*;

verus! {

/// The place of `key` in an ascending listing: the number of leading keys
/// that stand before it.
pub open spec fn slot(keys: Seq<Seq<char>>, key: Seq<char>) -> int
    decreases keys.len(),
{
    if keys.len() == 0 || !key_before(keys[0], key) {
        0
    } else {
        1 + slot(keys.drop_first(), key)
    }
}

/// The listing with `key` put in its place; unchanged where the key is there
/// already.
pub open spec fn with_key(keys: Seq<Seq<char>>, key: Seq<char>) -> Seq<Seq<char>> {
    let at = slot(keys, key);
    if at < keys.len() && keys[at] == key {
        keys
    } else {
        keys.insert(at, key)
    }
}

/// The ascending listing of the keys that a sequence holds, whatever their
/// order and however often each occurs.
pub open spec fn listing_of(keys: Seq<Seq<char>>) -> Seq<Seq<char>>
    decreases keys.len(),
{
    if keys.len() == 0 {
        Seq::empty()
    } else {
        with_key(listing_of(keys.drop_last()), keys.last())
    }
}

/// The ascending listing of the keys of two ascending listings.
pub open spec fn union_keys(a: Seq<Seq<char>>, b: Seq<Seq<char>>) -> Seq<Seq<char>>
    decreases a.len() + b.len(),
{
    if a.len() == 0 {
        b
    } else if b.len() == 0 {
        a
    } else if a[0] == b[0] {
        seq![a[0]] + union_keys(a.drop_first(), b.drop_first())
    } else if key_before(a[0], b[0]) {
        seq![a[0]] + union_keys(a.drop_first(), b)
    } else {
        seq![b[0]] + union_keys(a, b.drop_first())
    }
}

/// `at` is the slot of `key` where all keys before `at` stand before `key`
/// and the key at `at`, if any, does not.
pub proof fn lemma_slot_found(keys: Seq<Seq<char>>, key: Seq<char>, at: int)
    requires
        0 <= at <= keys.len(),
        forall|i: int| 0 <= i < at ==> key_before(#[trigger] keys[i], key),
        at < keys.len() ==> !key_before(keys[at], key),
    ensures
        slot(keys, key) == at,
    decreases keys.len(),
{
    if at > 0 {
        let rest = keys.drop_first();
        assert forall|i: int| 0 <= i < at - 1 implies key_before(#[trigger] rest[i], key) by {
            assert(rest[i] == keys[i + 1]);
        }
        if at - 1 < rest.len() {
            assert(rest[at - 1] == keys[at]);
        }
        assert(key_before(keys[0], key));
        lemma_slot_found(rest, key, at - 1);
    }
}

/// The slot lies within the listing; in an ascending listing the keys before
/// it stand before `key`, and those from it on do not.
pub proof fn lemma_slot_splits(keys: Seq<Seq<char>>, key: Seq<char>)
    requires
        strictly_ascending(keys),
    ensures
        0 <= slot(keys, key) <= keys.len(),
        forall|i: int| 0 <= i < slot(keys, key) ==> key_before(#[trigger] keys[i], key),
        forall|i: int| slot(keys, key) <= i < keys.len() ==> !key_before(#[trigger] keys[i], key),
    decreases keys.len(),
{
    if keys.len() == 0 {
    } else if !key_before(keys[0], key) {
        assert forall|i: int| 0 <= i < keys.len() implies !key_before(#[trigger] keys[i], key) by {
            if i > 0 && key_before(keys[i], key) {
                lemma_key_before_transitive(keys[0], keys[i], key);
            }
        }
    } else {
        let rest = keys.drop_first();
        lemma_ascending_tail(keys, 1);
        assert(rest =~= keys.skip(1));
        lemma_slot_splits(rest, key);
        let at = slot(keys, key);
        assert forall|i: int| 0 <= i < at implies key_before(#[trigger] keys[i], key) by {
            if i > 0 {
                assert(rest[i - 1] == keys[i]);
            }
        }
        assert forall|i: int| at <= i < keys.len() implies !key_before(#[trigger] keys[i], key) by {
            assert(rest[i - 1] == keys[i]);
        }
    }
}

/// Putting a key into an ascending listing gives the ascending listing of
/// the old keys and the new one.
pub proof fn lemma_with_key(keys: Seq<Seq<char>>, key: Seq<char>)
    requires
        strictly_ascending(keys),
    ensures
        strictly_ascending(with_key(keys, key)),
        forall|k: Seq<char>| #[trigger]
            with_key(keys, key).contains(k) <==> keys.contains(k) || k == key,
{
    lemma_slot_splits(keys, key);
    let at = slot(keys, key);
    let out = with_key(keys, key);
    if at < keys.len() && keys[at] == key {
        assert(keys.contains(key));
    } else {
        assert forall|i: int, j: int| 0 <= i < j < out.len() implies key_before(out[i], out[j]) by {
            if j == at {
                assert(out[i] == keys[i]);
            } else if i == at {
                assert(out[j] == keys[j - 1]);
                lemma_key_before_total(keys[j - 1], key);
            } else {
                let i0 = if i < at { i } else { i - 1 };
                let j0 = if j < at { j } else { j - 1 };
                assert(out[i] == keys[i0]);
                assert(out[j] == keys[j0]);
            }
        }
        assert forall|k: Seq<char>| out.contains(k) <==> keys.contains(k) || k == key by {
            if out.contains(k) {
                let i = choose|i: int| 0 <= i < out.len() && out[i] == k;
                if i < at {
                    assert(keys[i] == k);
                } else if i > at {
                    assert(keys[i - 1] == k);
                }
            }
            if keys.contains(k) {
                let i = choose|i: int| 0 <= i < keys.len() && keys[i] == k;
                if i < at {
                    assert(out[i] == k);
                } else {
                    assert(out[i + 1] == k);
                }
            }
            if k == key {
                assert(out[at] == k);
            }
        }
    }
}

/// The union of two ascending listings is ascending and holds exactly the
/// keys of both.
pub proof fn lemma_union_keys(a: Seq<Seq<char>>, b: Seq<Seq<char>>)
    requires
        strictly_ascending(a),
        strictly_ascending(b),
    ensures
        strictly_ascending(union_keys(a, b)),
        forall|k: Seq<char>| #[trigger]
            union_keys(a, b).contains(k) <==> a.contains(k) || b.contains(k),
        union_keys(a, b).len() > 0 ==> (a.len() > 0 && union_keys(a, b)[0] == a[0]) || (b.len() > 0
            && union_keys(a, b)[0] == b[0]),
    decreases a.len() + b.len(),
{
    let out = union_keys(a, b);
    if a.len() == 0 || b.len() == 0 {
        if a.len() == 0 {
            assert forall|k: Seq<char>| !a.contains(k) by {}
        } else {
            assert forall|k: Seq<char>| !b.contains(k) by {}
        }
    } else {
        let a1 = a.drop_first();
        let b1 = b.drop_first();
        lemma_ascending_tail(a, 1);
        lemma_ascending_tail(b, 1);
        assert(a1 =~= a.skip(1));
        assert(b1 =~= b.skip(1));
        let (head, x, y) = if a[0] == b[0] {
            (a[0], a1, b1)
        } else if key_before(a[0], b[0]) {
            (a[0], a1, b)
        } else {
            (b[0], a, b1)
        };
        lemma_union_keys(x, y);
        let rest = union_keys(x, y);
        assert(out == seq![head] + rest);
        lemma_key_before_total(a[0], b[0]);
        // the head stands before every key of the rest
        assert forall|k: Seq<char>| rest.contains(k) implies key_before(head, k) by {
            if x.contains(k) {
                let i = choose|i: int| 0 <= i < x.len() && x[i] == k;
                if a[0] == b[0] || key_before(a[0], b[0]) {
                    assert(a[i + 1] == k);
                } else {
                    assert(a[i] == k);
                    if i > 0 {
                        lemma_key_before_transitive(b[0], a[0], a[i]);
                    }
                }
            } else {
                let i = choose|i: int| 0 <= i < y.len() && y[i] == k;
                if a[0] == b[0] {
                    assert(b[i + 1] == k);
                } else if key_before(a[0], b[0]) {
                    assert(b[i] == k);
                    if i > 0 {
                        lemma_key_before_transitive(a[0], b[0], b[i]);
                    }
                } else {
                    assert(b[i + 1] == k);
                }
            }
        }
        assert forall|i: int, j: int| 0 <= i < j < out.len() implies key_before(out[i], out[j]) by {
            assert(out[j] == rest[j - 1]);
            if i == 0 {
                assert(rest.contains(rest[j - 1]));
            } else {
                assert(out[i] == rest[i - 1]);
            }
        }
        assert forall|k: Seq<char>| out.contains(k) <==> a.contains(k) || b.contains(k) by {
            if out.contains(k) {
                let i = choose|i: int| 0 <= i < out.len() && out[i] == k;
                if i == 0 {
                    assert(a[0] == head || b[0] == head);
                } else {
                    assert(rest[i - 1] == k);
                    assert(rest.contains(k));
                    if x.contains(k) {
                        let p = choose|p: int| 0 <= p < x.len() && x[p] == k;
                        assert(a[p] == k || a[p + 1] == k);
                    } else {
                        let p = choose|p: int| 0 <= p < y.len() && y[p] == k;
                        assert(b[p] == k || b[p + 1] == k);
                    }
                }
            }
            if a.contains(k) || b.contains(k) {
                if k == head {
                    assert(out[0] == k);
                } else {
                    if a.contains(k) {
                        let p = choose|p: int| 0 <= p < a.len() && a[p] == k;
                        if p > 0 {
                            assert(a1[p - 1] == k);
                        }
                        assert(x.contains(k));
                    } else {
                        let p = choose|p: int| 0 <= p < b.len() && b[p] == k;
                        if p > 0 {
                            assert(b1[p - 1] == k);
                        }
                        assert(y.contains(k));
                    }
                    assert(rest.contains(k));
                    let q = choose|q: int| 0 <= q < rest.len() && rest[q] == k;
                    assert(out[q + 1] == k);
                }
            }
        }
    }
}

/// The listing of a sequence of keys is ascending and holds exactly the keys
/// of the sequence.
pub proof fn lemma_listing_of(keys: Seq<Seq<char>>)
    ensures
        strictly_ascending(listing_of(keys)),
        forall|k: Seq<char>| #[trigger] listing_of(keys).contains(k) <==> keys.contains(k),
    decreases keys.len(),
{
    if keys.len() > 0 {
        let earlier = keys.drop_last();
        lemma_listing_of(earlier);
        lemma_with_key(listing_of(earlier), keys.last());
        assert forall|k: Seq<char>| listing_of(keys).contains(k) <==> keys.contains(k) by {
            if keys.contains(k) {
                let i = choose|i: int| 0 <= i < keys.len() && keys[i] == k;
                if i < keys.len() - 1 {
                    assert(earlier[i] == k);
                    assert(earlier.contains(k));
                }
            }
            if earlier.contains(k) {
                let i = choose|i: int| 0 <= i < earlier.len() && earlier[i] == k;
                assert(keys[i] == k);
            }
            assert(keys[keys.len() - 1] == keys.last());
        }
    } else {
        assert forall|k: Seq<char>| !listing_of(keys).contains(k) by {}
    }
}

/// Attribute order independence: two sequences of keys that hold the same
/// keys, in whatever order and however often, have the same listing.
pub proof fn lemma_listing_ignores_order(a: Seq<Seq<char>>, b: Seq<Seq<char>>)
    requires
        forall|k: Seq<char>| a.contains(k) <==> b.contains(k),
    ensures
        listing_of(a) == listing_of(b),
{
    lemma_listing_of(a);
    lemma_listing_of(b);
    lemma_ascending_unique(listing_of(a), listing_of(b));
}

/// The listing of an ascending listing is the listing itself.
pub proof fn lemma_listing_of_listing(keys: Seq<Seq<char>>)
    requires
        strictly_ascending(keys),
    ensures
        listing_of(keys) == keys,
{
    lemma_listing_of(keys);
    lemma_ascending_unique(listing_of(keys), keys);
}

/// The union of listings is idempotent, commutative and associative, and
/// the empty listing is its unit.
pub proof fn lemma_union_keys_laws(a: Seq<Seq<char>>, b: Seq<Seq<char>>, c: Seq<Seq<char>>)
    requires
        strictly_ascending(a),
        strictly_ascending(b),
        strictly_ascending(c),
    ensures
        union_keys(a, a) == a,
        union_keys(a, b) == union_keys(b, a),
        union_keys(union_keys(a, b), c) == union_keys(a, union_keys(b, c)),
        union_keys(a, Seq::empty()) == a,
        union_keys(Seq::empty(), a) == a,
{
    lemma_union_keys(a, a);
    lemma_ascending_unique(union_keys(a, a), a);
    lemma_union_keys(a, b);
    lemma_union_keys(b, a);
    lemma_ascending_unique(union_keys(a, b), union_keys(b, a));
    lemma_union_keys(b, c);
    lemma_union_keys(union_keys(a, b), c);
    lemma_union_keys(a, union_keys(b, c));
    lemma_ascending_unique(union_keys(union_keys(a, b), c), union_keys(a, union_keys(b, c)));
}

/// The order in which two keys are added does not matter.
pub proof fn lemma_with_key_commutes(keys: Seq<Seq<char>>, first: Seq<char>, second: Seq<char>)
    requires
        strictly_ascending(keys),
    ensures
        with_key(with_key(keys, first), second) == with_key(with_key(keys, second), first),
{
    lemma_with_key(keys, first);
    lemma_with_key(keys, second);
    lemma_with_key(with_key(keys, first), second);
    lemma_with_key(with_key(keys, second), first);
    lemma_ascending_unique(
        with_key(with_key(keys, first), second),
        with_key(with_key(keys, second), first),
    );
}

/// Adding a key is the union with the listing of that key alone.
pub proof fn lemma_with_key_is_union(keys: Seq<Seq<char>>, key: Seq<char>)
    requires
        strictly_ascending(keys),
    ensures
        with_key(keys, key) == union_keys(keys, seq![key]),
{
    lemma_with_key(keys, key);
    assert(strictly_ascending(seq![key]));
    lemma_union_keys(keys, seq![key]);
    assert forall|k: Seq<char>| seq![key].contains(k) <==> k == key by {
        if k == key {
            assert(seq![key][0] == k);
        }
    }
    lemma_ascending_unique(with_key(keys, key), union_keys(keys, seq![key]));
}

/// The attribute names of an element. Values are never kept. The names are
/// held in ascending key order, each once, so two sets of the same names are
/// the same value whatever the order in which the names came.
#[derive(Debug, PartialEq, Eq, PartialOrd, Ord)]
pub struct AttributeKeys {
    keys: Vec<String>,
}

impl View for AttributeKeys {
    type V = Seq<Seq<char>>;

    /// The names, in ascending key order.
    closed spec fn view(&self) -> Seq<Seq<char>> {
        self.keys@.map_values(|key: String| key@)
    }
}

impl AttributeKeys {
    #[verifier::type_invariant]
    closed spec fn canonical(&self) -> bool {
        strictly_ascending(self@)
    }

    /// The empty set.
    pub fn new() -> (keys: Self)
        ensures
            keys@ == Seq::<Seq<char>>::empty(),
    {
        let keys = AttributeKeys { keys: Vec::new() };
        assert(keys@ =~= Seq::<Seq<char>>::empty());
        keys
    }

    /// The set of the given names.
    pub fn from_names(names: &Vec<String>) -> (keys: Self)
        ensures
            keys@ == listing_of(names@.map_values(|name: String| name@)),
            strictly_ascending(keys@),
    {
        let ghost texts = names@.map_values(|name: String| name@);
        let mut keys = AttributeKeys::new();
        let mut i: usize = 0;
        while i < names.len()
            invariant
                i <= names.len(),
                texts == names@.map_values(|name: String| name@),
                keys@ == listing_of(texts.take(i as int)),
            decreases names.len() - i,
        {
            proof {
                assert(texts.take(i + 1).drop_last() =~= texts.take(i as int));
            }
            keys.insert(names[i].clone());
            i = i + 1;
        }
        proof {
            assert(texts.take(i as int) =~= texts);
            use_type_invariant(&keys);
        }
        keys
    }

    /// The number of names.
    pub fn len(&self) -> (count: usize)
        ensures
            count == self@.len(),
    {
        self.keys.len()
    }

    /// Whether the set holds no name.
    pub fn is_empty(&self) -> (empty: bool)
        ensures
            empty == (self@.len() == 0),
    {
        self.keys.len() == 0
    }

    /// The names in ascending key order.
    pub fn keys(&self) -> (listing: &Vec<String>)
        ensures
            listing@.map_values(|key: String| key@) == self@,
            strictly_ascending(self@),
    {
        proof {
            use_type_invariant(self);
        }
        &self.keys
    }

    /// Whether `key` is one of the names.
    pub fn contains_key(&self, key: &str) -> (found: bool)
        ensures
            found == self@.contains(key@),
    {
        proof {
            use_type_invariant(self);
        }
        let mut i: usize = 0;
        while i < self.keys.len()
            invariant
                i <= self.keys.len(),
                strictly_ascending(self@),
                forall|j: int| 0 <= j < i ==> self@[j] != key@,
            decreases self.keys.len() - i,
        {
            match key_precedence(self.keys[i].as_str(), key) {
                Precedence::Same => {
                    assert(self@[i as int] == key@);
                    return true;
                },
                Precedence::After => {
                    proof {
                        assert forall|j: int| 0 <= j < self@.len() implies self@[j] != key@ by {
                            if j > i {
                                lemma_key_before_transitive(key@, self@[i as int], self@[j]);
                                lemma_key_before_irreflexive(key@);
                            } else if j == i {
                                lemma_key_before_irreflexive(key@);
                            }
                        }
                    }
                    return false;
                },
                Precedence::Before => {
                    proof {
                        lemma_key_before_irreflexive(key@);
                    }
                },
            }
            i = i + 1;
        }
        false
    }

    /// Adds `key` to the set. Returns whether the key is new to it.
    pub fn insert(&mut self, key: String) -> (added: bool)
        ensures
            final(self)@ == with_key(old(self)@, key@),
            added == !old(self)@.contains(key@),
            strictly_ascending(final(self)@),
            forall|k: Seq<char>| final(self)@.contains(k) <==> old(self)@.contains(k) || k == key@,
    {
        proof {
            use_type_invariant(&*self);
            lemma_with_key(self@, key@);
            lemma_slot_splits(self@, key@);
        }
        let mut at: usize = 0;
        while at < self.keys.len()
            invariant
                at <= self.keys.len(),
                *self == *old(self),
                strictly_ascending(self@),
                forall|j: int| 0 <= j < at ==> key_before(#[trigger] self@[j], key@),
            ensures
                at < self.keys.len() ==> key_before(key@, self@[at as int]),
            decreases self.keys.len() - at,
        {
            match key_precedence(self.keys[at].as_str(), key.as_str()) {
                Precedence::Same => {
                    proof {
                        lemma_key_before_irreflexive(key@);
                        lemma_slot_found(self@, key@, at as int);
                        assert(self@[at as int] == key@);
                        assert(self@.contains(key@));
                    }
                    return false;
                },
                Precedence::After => {
                    break;
                },
                Precedence::Before => {},
            }
            at = at + 1;
        }
        proof {
            if at < self@.len() {
                lemma_key_before_asymmetric(key@, self@[at as int]);
            }
            lemma_slot_found(self@, key@, at as int);
            assert(!self@.contains(key@)) by {
                if self@.contains(key@) {
                    let i = choose|i: int| 0 <= i < self@.len() && self@[i] == key@;
                    lemma_key_before_irreflexive(key@);
                }
            }
        }
        let ghost before = self@;
        let ghost key_view = key@;
        let mut keys: Vec<String> = Vec::new();
        std::mem::swap(&mut self.keys, &mut keys);
        keys.insert(at, key);
        assert(keys@.map_values(|key: String| key@) =~= before.insert(at as int, key_view));
        self.keys = keys;
        true
    }

    /// The set of the names of both sets.
    pub fn union(&self, other: &AttributeKeys) -> (both: AttributeKeys)
        ensures
            both@ == union_keys(self@, other@),
            strictly_ascending(both@),
            forall|k: Seq<char>| both@.contains(k) <==> self@.contains(k) || other@.contains(k),
    {
        proof {
            use_type_invariant(self);
            use_type_invariant(other);
            lemma_union_keys(self@, other@);
        }
        let mut out: Vec<String> = Vec::new();
        let mut i: usize = 0;
        let mut j: usize = 0;
        let ghost whole = union_keys(self@, other@);
        proof {
            assert(self@.skip(0) =~= self@);
            assert(other@.skip(0) =~= other@);
        }
        while i < self.keys.len() || j < other.keys.len()
            invariant
                i <= self.keys.len(),
                j <= other.keys.len(),
                whole == union_keys(self@, other@),
                whole == out@.map_values(|key: String| key@) + union_keys(
                    self@.skip(i as int),
                    other@.skip(j as int),
                ),
            decreases self.keys.len() - i + other.keys.len() - j,
        {
            let ghost a = self@.skip(i as int);
            let ghost b = other@.skip(j as int);
            let ghost done = out@.map_values(|key: String| key@);
            proof {
                if i < self.keys.len() {
                    assert(a.drop_first() =~= self@.skip(i + 1));
                }
                if j < other.keys.len() {
                    assert(b.drop_first() =~= other@.skip(j + 1));
                }
            }
            if i >= self.keys.len() {
                out.push(other.keys[j].clone());
                j = j + 1;
                proof {
                    assert(union_keys(a, b) == b);
                    assert(union_keys(a, b.drop_first()) == b.drop_first());
                    assert(b =~= seq![b[0]] + b.drop_first());
                }
            } else if j >= other.keys.len() {
                out.push(self.keys[i].clone());
                i = i + 1;
                proof {
                    assert(union_keys(a, b) == a);
                    assert(union_keys(a.drop_first(), b) == a.drop_first()) by {
                        if a.drop_first().len() == 0 {
                            assert(a.drop_first() =~= b);
                        }
                    }
                    assert(a =~= seq![a[0]] + a.drop_first());
                }
            } else {
                match key_precedence(self.keys[i].as_str(), other.keys[j].as_str()) {
                    Precedence::Same => {
                        out.push(self.keys[i].clone());
                        i = i + 1;
                        j = j + 1;
                    },
                    Precedence::Before => {
                        proof {
                            lemma_key_before_asymmetric(a[0], b[0]);
                        }
                        out.push(self.keys[i].clone());
                        i = i + 1;
                    },
                    Precedence::After => {
                        proof {
                            lemma_key_before_asymmetric(b[0], a[0]);
                        }
                        out.push(other.keys[j].clone());
                        j = j + 1;
                    },
                }
            }
            assert(out@.map_values(|key: String| key@) =~= done.push(union_keys(a, b)[0]));
            assert(whole =~= out@.map_values(|key: String| key@) + union_keys(
                self@.skip(i as int),
                other@.skip(j as int),
            ));
        }
        let both = AttributeKeys { keys: out };
        assert(both@ =~= whole);
        both
    }

    /// A copy of the set.
    pub fn clone(&self) -> (copy: AttributeKeys)
        ensures
            copy@ == self@,
            strictly_ascending(copy@),
    {
        proof {
            use_type_invariant(self);
        }
        let mut out: Vec<String> = Vec::new();
        let mut i: usize = 0;
        while i < self.keys.len()
            invariant
                i <= self.keys.len(),
                out@.map_values(|key: String| key@) =~= self@.take(i as int),
            decreases self.keys.len() - i,
        {
            let ghost done = out@.map_values(|key: String| key@);
            out.push(self.keys[i].clone());
            assert(out@.map_values(|key: String| key@) =~= done.push(self@[i as int]));
            i = i + 1;
        }
        assert(self@.take(i as int) =~= self@);
        AttributeKeys { keys: out }
    }

    /// Whether both sets hold the same names.
    pub fn same_keys(&self, other: &AttributeKeys) -> (same: bool)
        ensures
            same == (self@ == other@),
    {
        if self.keys.len() != other.keys.len() {
            assert(self@.len() != other@.len());
            return false;
        }
        let mut i: usize = 0;
        while i < self.keys.len()
            invariant
                i <= self.keys.len(),
                self.keys.len() == other.keys.len(),
                forall|j: int| 0 <= j < i ==> self@[j] == other@[j],
            decreases self.keys.len() - i,
        {
            if self.keys[i] != other.keys[i] {
                assert(self@[i as int] != other@[i as int]);
                return false;
            }
            i = i + 1;
        }
        assert(self@ =~= other@);
        true
    }
}

} // verus!
