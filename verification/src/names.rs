//! Maps keyed by name, walked in name order.
//!
//! Hardware ids, gang members and scene names are all strings, and every place
//! that walks one of these collections walks it alphabetically. [`NameMap`]
//! holds its entries in that order, so a walk is deterministic and the
//! mathematical map says everything there is to know about it.

use vstd::prelude::*;

use crate::strings::{is_before, lemma_precedes_irreflexive, lemma_precedes_total,
    lemma_precedes_transitive, precedes, texts};

verus! {

/// Are these names in strictly ascending order?
pub open spec fn ascending(names: Seq<Seq<char>>) -> bool {
    forall|i: int, j: int|
        0 <= i < j < names.len() ==> precedes(#[trigger] names[i], #[trigger] names[j])
}

/// The names of a finite set, in ascending order.
pub open spec fn in_order(names: Set<Seq<char>>) -> Seq<Seq<char>> {
    choose|order: Seq<Seq<char>>| ascending(order) && #[trigger] order.to_set() == names
}

/// The alphabetically first name of a set, if it has any.
pub open spec fn least(names: Set<Seq<char>>) -> Option<Seq<char>> {
    if in_order(names).len() > 0 {
        Some(in_order(names)[0])
    } else {
        None
    }
}

/// Ascending names are all different.
pub proof fn lemma_ascending_distinct(names: Seq<Seq<char>>)
    requires
        ascending(names),
    ensures
        names.no_duplicates(),
{
    assert forall|i: int, j: int|
        0 <= i < names.len() && 0 <= j < names.len() && i != j implies names[i] != names[j] by {
        lemma_precedes_irreflexive(names[i]);
        if i < j {
            assert(precedes(names[i], names[j]));
        } else {
            assert(precedes(names[j], names[i]));
        }
    }
}

/// There is only one way to put a set of names in ascending order.
pub proof fn lemma_ascending_unique(a: Seq<Seq<char>>, b: Seq<Seq<char>>)
    requires
        ascending(a),
        ascending(b),
        a.to_set() == b.to_set(),
    ensures
        a == b,
    decreases a.len(),
{
    lemma_ascending_distinct(a);
    lemma_ascending_distinct(b);
    if a.len() == 0 {
        if b.len() > 0 {
            assert(b.to_set().contains(b[0]));
            assert(a.to_set().contains(b[0]));
        }
        assert(a =~= b);
    } else {
        assert(a.to_set().contains(a[0]));
        assert(b.to_set().contains(a[0]));
        let k = choose|k: int| 0 <= k < b.len() && b[k] == a[0];
        assert(b.to_set().contains(b[0]));
        assert(a.to_set().contains(b[0]));
        let m = choose|m: int| 0 <= m < a.len() && a[m] == b[0];
        if k != 0 {
            assert(precedes(b[0], b[k]));
            if m != 0 {
                assert(precedes(a[0], a[m]));
                lemma_precedes_transitive(a[0], b[0], a[0]);
            }
            lemma_precedes_irreflexive(a[0]);
        }
        let ta = a.drop_first();
        let tb = b.drop_first();
        assert forall|x: Seq<char>| ta.to_set().contains(x) == tb.to_set().contains(x) by {
            if ta.contains(x) {
                let i = choose|i: int| 0 <= i < ta.len() && ta[i] == x;
                assert(a[i + 1] == x);
                assert(a.to_set().contains(x));
                assert(b.to_set().contains(x));
                let j = choose|j: int| 0 <= j < b.len() && b[j] == x;
                assert(j != 0);
                assert(tb[j - 1] == x);
            }
            if tb.contains(x) {
                let i = choose|i: int| 0 <= i < tb.len() && tb[i] == x;
                assert(b[i + 1] == x);
                assert(b.to_set().contains(x));
                assert(a.to_set().contains(x));
                let j = choose|j: int| 0 <= j < a.len() && a[j] == x;
                assert(j != 0);
                assert(ta[j - 1] == x);
            }
        }
        assert(ta.to_set() =~= tb.to_set());
        lemma_ascending_unique(ta, tb);
        assert(a =~= seq![a[0]] + ta);
        assert(b =~= seq![b[0]] + tb);
    }
}

/// Any ascending listing of a set is *the* listing of it.
pub proof fn lemma_in_order(order: Seq<Seq<char>>)
    requires
        ascending(order),
    ensures
        in_order(order.to_set()) == order,
{
    lemma_ascending_unique(in_order(order.to_set()), order);
}

/// Every finite set of names can be put in ascending order.
pub proof fn lemma_in_order_exists(names: Set<Seq<char>>)
    requires
        names.finite(),
    ensures
        ascending(in_order(names)),
        in_order(names).to_set() == names,
        in_order(names).len() == names.len(),
    decreases names.len(),
{
    if names.len() == 0 {
        let order = Seq::<Seq<char>>::empty();
        assert(order.to_set() =~= names);
        assert(ascending(order) && order.to_set() == names);
    } else {
        let x = names.choose();
        let rest = names.remove(x);
        lemma_in_order_exists(rest);
        let tail = in_order(rest);
        assert(!tail.contains(x)) by {
            if tail.contains(x) {
                assert(tail.to_set().contains(x));
            }
        }
        let order = inserted(tail, x);
        lemma_inserted(tail, x);
        assert(order.to_set() =~= names) by {
            assert(rest.insert(x) =~= names);
        }
        assert(ascending(order) && order.to_set() == names);
    }
    lemma_ascending_distinct(in_order(names));
    in_order(names).unique_seq_to_set();
}

/// An ascending listing with one more name put in its place.
spec fn inserted(order: Seq<Seq<char>>, name: Seq<char>) -> Seq<Seq<char>>
    decreases order.len(),
{
    if order.len() == 0 {
        seq![name]
    } else if precedes(order.last(), name) {
        order.push(name)
    } else {
        inserted(order.drop_last(), name).push(order.last())
    }
}

proof fn lemma_inserted(order: Seq<Seq<char>>, name: Seq<char>)
    requires
        ascending(order),
        !order.contains(name),
    ensures
        ascending(inserted(order, name)),
        inserted(order, name).to_set() == order.to_set().insert(name),
    decreases order.len(),
{
    broadcast use Seq::lemma_push_to_set_commute;

    let r = inserted(order, name);
    if order.len() == 0 {
        assert(r =~= order.push(name));
    } else if precedes(order.last(), name) {
        assert forall|i: int, j: int| 0 <= i < j < r.len() implies precedes(
            #[trigger] r[i],
            #[trigger] r[j],
        ) by {
            if j == order.len() && i < order.len() - 1 {
                assert(precedes(order[i], order[order.len() - 1]));
                lemma_precedes_transitive(order[i], order.last(), name);
            }
        }
    } else {
        let short = order.drop_last();
        lemma_precedes_total(order.last(), name);
        assert(order[order.len() - 1] == order.last());
        assert(precedes(name, order.last()));
        assert(!short.contains(name)) by {
            if short.contains(name) {
                let k = choose|k: int| 0 <= k < short.len() && short[k] == name;
                assert(order[k] == name);
            }
        }
        lemma_inserted(short, name);
        let q = inserted(short, name);
        assert forall|i: int, j: int| 0 <= i < j < r.len() implies precedes(
            #[trigger] r[i],
            #[trigger] r[j],
        ) by {
            if j == q.len() {
                assert(q.to_set().contains(q[i]));
                if q[i] != name {
                    assert(short.to_set().contains(q[i]));
                    let k = choose|k: int| 0 <= k < short.len() && short[k] == q[i];
                    assert(precedes(order[k], order[order.len() - 1]));
                }
            }
        }
        assert(order =~= short.push(order.last()));
        assert(r.to_set() =~= order.to_set().insert(name));
    }
}

/// The least name of a set belongs to it and comes before every other.
pub proof fn lemma_least(names: Set<Seq<char>>)
    requires
        names.finite(),
    ensures
        least(names) is None <==> names =~= Set::empty(),
        least(names) matches Some(name) ==> names.contains(name) && forall|other: Seq<char>|
            #![auto]
            names.contains(other) && other != name ==> precedes(name, other),
{
    lemma_in_order_exists(names);
    let order = in_order(names);
    if order.len() > 0 {
        assert(order.to_set().contains(order[0]));
        assert forall|other: Seq<char>| #![auto]
            names.contains(other) && other != order[0] implies precedes(order[0], other) by {
            assert(order.to_set().contains(other));
            let k = choose|k: int| 0 <= k < order.len() && order[k] == other;
            assert(precedes(order[0], order[k]));
        }
    } else {
        assert(names =~= Set::empty());
    }
}

/// A name that comes before every other name of a set is its least.
pub proof fn lemma_least_is(names: Set<Seq<char>>, name: Seq<char>)
    requires
        names.finite(),
        names.contains(name),
        forall|other: Seq<char>|
            #![auto]
            names.contains(other) && other != name ==> precedes(name, other),
    ensures
        least(names) == Some(name),
{
    lemma_least(names);
    let first = least(names)->0;
    if first != name {
        lemma_precedes_transitive(first, name, first);
        lemma_precedes_irreflexive(first);
    }
}

/// The listing of a set holds each of its names once, and no other.
pub proof fn lemma_listed(names: Set<Seq<char>>)
    requires
        names.finite(),
    ensures
        ascending(in_order(names)),
        in_order(names).no_duplicates(),
        in_order(names).len() == names.len(),
        forall|name: Seq<char>| #[trigger]
            in_order(names).contains(name) <==> names.contains(name),
        forall|i: int| 0 <= i < names.len() ==> names.contains(#[trigger] in_order(names)[i]),
{
    lemma_in_order_exists(names);
    lemma_ascending_distinct(in_order(names));
    let order = in_order(names);
    assert forall|name: Seq<char>| #[trigger] order.contains(name) <==> names.contains(name) by {
        assert(order.to_set().contains(name) <==> order.contains(name));
    }
    assert forall|i: int| 0 <= i < names.len() implies names.contains(#[trigger] order[i]) by {
        assert(order.contains(order[i]));
    }
}

/// One more name of a listing adds exactly that name.
pub proof fn lemma_taken<X>(order: Seq<X>, i: int)
    requires
        0 <= i < order.len(),
    ensures
        order.take(i + 1) == order.take(i).push(order[i]),
        forall|x: X| #[trigger]
            order.take(i + 1).contains(x) <==> order.take(i).contains(x) || x == order[i],
        order.no_duplicates() ==> !order.take(i).contains(order[i]),
{
    assert(order.take(i + 1) =~= order.take(i).push(order[i]));
    assert forall|x: X| #[trigger] order.take(i + 1).contains(x) <==> order.take(i).contains(x) || x
        == order[i] by {
        let grown = order.take(i + 1);
        let before = order.take(i);
        if grown.contains(x) {
            let k = choose|k: int| 0 <= k < grown.len() && grown[k] == x;
            if k < i {
                assert(before[k] == x);
            }
        }
        if before.contains(x) {
            let k = choose|k: int| 0 <= k < before.len() && before[k] == x;
            assert(grown[k] == x);
        }
        if x == order[i] {
            assert(grown[i] == x);
        }
    }
}

/// The first name of a listing that is in a part of the set is the least of
/// that part.
pub proof fn lemma_first_match(names: Set<Seq<char>>, chosen: Set<Seq<char>>, i: int)
    requires
        names.finite(),
        chosen.subset_of(names),
        0 <= i < names.len(),
        chosen.contains(in_order(names)[i]),
        forall|j: int| 0 <= j < i ==> !chosen.contains(#[trigger] in_order(names)[j]),
    ensures
        least(chosen) == Some(in_order(names)[i]),
{
    lemma_listed(names);
    vstd::set_lib::lemma_set_subset_finite(names, chosen);
    let order = in_order(names);
    assert forall|other: Seq<char>|
        #![auto]
        chosen.contains(other) && other != order[i] implies precedes(order[i], other) by {
        assert(order.contains(other));
        let k = choose|k: int| 0 <= k < order.len() && order[k] == other;
        assert(precedes(order[i], order[k]));
    }
    lemma_least_is(chosen, order[i]);
}

/// A part of a set that holds no name of its listing has no least.
pub proof fn lemma_no_match(names: Set<Seq<char>>, chosen: Set<Seq<char>>)
    requires
        names.finite(),
        chosen.subset_of(names),
        forall|j: int| 0 <= j < names.len() ==> !chosen.contains(#[trigger] in_order(names)[j]),
    ensures
        chosen =~= Set::empty(),
        least(chosen) is None,
{
    lemma_listed(names);
    vstd::set_lib::lemma_set_subset_finite(names, chosen);
    let order = in_order(names);
    assert forall|other: Seq<char>| !chosen.contains(other) by {
        if chosen.contains(other) {
            assert(order.contains(other));
            let k = choose|k: int| 0 <= k < order.len() && order[k] == other;
            assert(!chosen.contains(order[k]));
        }
    }
    assert(chosen =~= Set::empty());
    lemma_least(chosen);
}

/// The map that pairs each key with the value at the same position.
pub open spec fn paired<X>(keys: Seq<Seq<char>>, values: Seq<X>) -> Map<Seq<char>, X> {
    Map::new(|name: Seq<char>| keys.contains(name), |name: Seq<char>| values[keys.index_of(name)])
}

proof fn lemma_paired_at<X>(keys: Seq<Seq<char>>, values: Seq<X>, i: int)
    requires
        keys.no_duplicates(),
        keys.len() == values.len(),
        0 <= i < keys.len(),
    ensures
        paired(keys, values).contains_key(keys[i]),
        paired(keys, values)[keys[i]] == values[i],
{
    assert(keys.contains(keys[i]));
    assert(keys.index_of(keys[i]) == i);
}

proof fn lemma_paired_insert<X>(keys: Seq<Seq<char>>, values: Seq<X>, i: int, key: Seq<char>, value: X)
    requires
        keys.no_duplicates(),
        keys.len() == values.len(),
        0 <= i <= keys.len(),
        !keys.contains(key),
    ensures
        paired(keys.insert(i, key), values.insert(i, value)) == paired(keys, values).insert(key, value),
{
    let k2 = keys.insert(i, key);
    let v2 = values.insert(i, value);
    assert(k2.no_duplicates()) by {
        assert forall|a: int, b: int| 0 <= a < k2.len() && 0 <= b < k2.len() && a != b implies k2[a]
            != k2[b] by {
            let a1 = if a < i { a } else { a - 1 };
            let b1 = if b < i { b } else { b - 1 };
            if a != i {
                assert(keys.contains(keys[a1]));
            }
            if b != i {
                assert(keys.contains(keys[b1]));
            }
        }
    }
    assert forall|n: Seq<char>| #[trigger] paired(k2, v2).contains_key(n) == paired(
        keys,
        values,
    ).insert(key, value).contains_key(n) by {
        if k2.contains(n) {
            let j = choose|j: int| 0 <= j < k2.len() && k2[j] == n;
            if j < i {
                assert(keys[j] == n);
            } else if j > i {
                assert(keys[j - 1] == n);
            }
        }
        if keys.contains(n) {
            let j = choose|j: int| 0 <= j < keys.len() && keys[j] == n;
            if j < i {
                assert(k2[j] == n);
            } else {
                assert(k2[j + 1] == n);
            }
        }
        assert(k2[i] == key);
    }
    assert forall|n: Seq<char>| #[trigger] paired(k2, v2).contains_key(n) implies paired(k2, v2)[n]
        == paired(keys, values).insert(key, value)[n] by {
        let j = choose|j: int| 0 <= j < k2.len() && k2[j] == n;
        lemma_paired_at(k2, v2, j);
        if j < i {
            lemma_paired_at(keys, values, j);
        } else if j > i {
            lemma_paired_at(keys, values, j - 1);
        }
        if j != i {
            assert(n != key) by {
                assert(k2[i] == key);
            }
        }
    }
    assert(paired(k2, v2) =~= paired(keys, values).insert(key, value));
}

proof fn lemma_paired_update<X>(keys: Seq<Seq<char>>, values: Seq<X>, i: int, value: X)
    requires
        keys.no_duplicates(),
        keys.len() == values.len(),
        0 <= i < keys.len(),
    ensures
        paired(keys, values.update(i, value)) == paired(keys, values).insert(keys[i], value),
{
    let v2 = values.update(i, value);
    assert(keys.contains(keys[i]));
    assert forall|n: Seq<char>| #[trigger] paired(keys, v2).contains_key(n) implies paired(
        keys,
        v2,
    )[n] == paired(keys, values).insert(keys[i], value)[n] by {
        let j = choose|j: int| 0 <= j < keys.len() && keys[j] == n;
        lemma_paired_at(keys, v2, j);
        lemma_paired_at(keys, values, j);
    }
    assert(paired(keys, v2) =~= paired(keys, values).insert(keys[i], value));
}

proof fn lemma_paired_remove<X>(keys: Seq<Seq<char>>, values: Seq<X>, i: int)
    requires
        keys.no_duplicates(),
        keys.len() == values.len(),
        0 <= i < keys.len(),
    ensures
        paired(keys.remove(i), values.remove(i)) == paired(keys, values).remove(keys[i]),
{
    let k2 = keys.remove(i);
    let v2 = values.remove(i);
    assert(k2.no_duplicates());
    assert forall|n: Seq<char>| #[trigger] paired(k2, v2).contains_key(n) == paired(
        keys,
        values,
    ).remove(keys[i]).contains_key(n) by {
        if k2.contains(n) {
            let j = choose|j: int| 0 <= j < k2.len() && k2[j] == n;
            if j < i {
                assert(keys[j] == n);
            } else {
                assert(keys[j + 1] == n);
            }
        }
        if keys.contains(n) && n != keys[i] {
            let j = choose|j: int| 0 <= j < keys.len() && keys[j] == n;
            if j < i {
                assert(k2[j] == n);
            } else {
                assert(k2[j - 1] == n);
            }
        }
    }
    assert forall|n: Seq<char>| #[trigger] paired(k2, v2).contains_key(n) implies paired(k2, v2)[n]
        == paired(keys, values).remove(keys[i])[n] by {
        let j = choose|j: int| 0 <= j < k2.len() && k2[j] == n;
        lemma_paired_at(k2, v2, j);
        if j < i {
            lemma_paired_at(keys, values, j);
        } else {
            lemma_paired_at(keys, values, j + 1);
        }
    }
    assert(paired(k2, v2) =~= paired(keys, values).remove(keys[i]));
}

/// A map from names to values that lists its entries in name order.
#[derive(Debug, PartialEq, Eq)]
pub struct NameMap<V> {
    keys: Vec<String>,
    values: Vec<V>,
}

impl<V> NameMap<V> {
    #[verifier::type_invariant]
    spec fn inv(self) -> bool {
        &&& ascending(texts(self.keys@))
        &&& self.keys@.len() == self.values@.len()
    }
}

impl<V: View> View for NameMap<V> {
    type V = Map<Seq<char>, V::V>;

    closed spec fn view(&self) -> Map<Seq<char>, V::V> {
        paired(texts(self.keys@), self.values@.map_values(|v: V| v@))
    }
}

impl<V: View> NameMap<V> {
    /// A map with nothing in it.
    pub fn new() -> (r: Self)
        ensures
            r@ == Map::<Seq<char>, V::V>::empty(),
    {
        let r = NameMap { keys: Vec::new(), values: Vec::new() };
        assert(r@ =~= Map::<Seq<char>, V::V>::empty());
        r
    }

    proof fn lemma_listing(&self)
        requires
            self.inv(),
        ensures
            texts(self.keys@).no_duplicates(),
            self@.dom() == texts(self.keys@).to_set(),
            self@.dom().finite(),
            in_order(self@.dom()) == texts(self.keys@),
            self@.dom().len() == self.keys@.len(),
            forall|i: int|
                0 <= i < self.keys@.len() ==> {
                    &&& self@.contains_key(#[trigger] self.keys@[i]@)
                    &&& self@[self.keys@[i]@] == self.values@[i]@
                },
    {
        let names = texts(self.keys@);
        let values = self.values@.map_values(|v: V| v@);
        lemma_ascending_distinct(names);
        assert(self@.dom() =~= names.to_set());
        lemma_in_order(names);
        names.unique_seq_to_set();
        assert forall|i: int| 0 <= i < self.keys@.len() implies {
            &&& self@.contains_key(#[trigger] self.keys@[i]@)
            &&& self@[self.keys@[i]@] == self.values@[i]@
        } by {
            lemma_paired_at(names, values, i);
            assert(names[i] == self.keys@[i]@);
        }
    }

    /// How many entries there are.
    pub fn len(&self) -> (r: usize)
        ensures
            r == self@.dom().len(),
            r == in_order(self@.dom()).len(),
            self@.dom().finite(),
    {
        proof {
            use_type_invariant(self);
            self.lemma_listing();
        }
        self.keys.len()
    }

    /// Whether there are no entries.
    pub fn is_empty(&self) -> (r: bool)
        ensures
            r == (self@ =~= Map::<Seq<char>, V::V>::empty()),
            r == (self@.dom().len() == 0),
            self@.dom().finite(),
    {
        proof {
            use_type_invariant(self);
            self.lemma_listing();
            if self.keys@.len() > 0 {
                assert(self@.contains_key(self.keys@[0]@));
            }
        }
        self.keys.len() == 0
    }

    /// The name at a position of the listing.
    pub fn name_at(&self, i: usize) -> (r: &String)
        requires
            i < self@.dom().len(),
        ensures
            r@ == in_order(self@.dom())[i as int],
            self@.contains_key(r@),
            self@.dom().finite(),
    {
        proof {
            use_type_invariant(self);
            self.lemma_listing();
        }
        &self.keys[i]
    }

    /// The value at a position of the listing.
    pub fn value_at(&self, i: usize) -> (r: &V)
        requires
            i < self@.dom().len(),
        ensures
            self@.contains_key(in_order(self@.dom())[i as int]),
            r@ == self@[in_order(self@.dom())[i as int]],
            self@.dom().finite(),
    {
        proof {
            use_type_invariant(self);
            self.lemma_listing();
            assert(texts(self.keys@)[i as int] == self.keys@[i as int]@);
        }
        &self.values[i]
    }

    /// How many names come before this one.
    fn position(&self, name: &str) -> (r: usize)
        ensures
            r <= self.keys@.len(),
            forall|i: int| 0 <= i < r ==> precedes(#[trigger] self.keys@[i]@, name@),
            forall|i: int| r <= i < self.keys@.len() ==> !precedes(#[trigger] self.keys@[i]@, name@),
    {
        proof {
            use_type_invariant(self);
        }
        let mut i: usize = 0;
        while i < self.keys.len() && is_before(self.keys[i].as_str(), name)
            invariant
                i <= self.keys@.len(),
                forall|j: int| 0 <= j < i ==> precedes(#[trigger] self.keys@[j]@, name@),
            decreases self.keys@.len() - i,
        {
            i += 1;
        }
        proof {
            let names = texts(self.keys@);
            assert forall|j: int| i <= j < self.keys@.len() implies !precedes(
                #[trigger] self.keys@[j]@,
                name@,
            ) by {
                assert(names[j] == self.keys@[j]@);
                assert(names[i as int] == self.keys@[i as int]@);
                if precedes(self.keys@[j]@, name@) && j > i {
                    lemma_precedes_transitive(names[i as int], names[j], name@);
                }
            }
        }
        i
    }

    /// Where a name stands in the listing, if it is there.
    fn find(&self, name: &str) -> (r: Option<usize>)
        ensures
            match r {
                Some(i) => i < self.keys@.len() && self.keys@[i as int]@ == name@
                    && self@.contains_key(name@),
                None => !self@.contains_key(name@),
            },
    {
        proof {
            use_type_invariant(self);
            self.lemma_listing();
        }
        let i: usize = self.position(name);
        if i < self.keys.len() && !is_before(name, self.keys[i].as_str()) {
            proof {
                lemma_precedes_total(self.keys@[i as int]@, name@);
            }
            Some(i)
        } else {
            proof {
                let names = texts(self.keys@);
                if self@.contains_key(name@) {
                    assert(names.to_set().contains(name@));
                    let k = choose|k: int| 0 <= k < names.len() && names[k] == name@;
                    assert(self.keys@[k]@ == name@);
                    lemma_precedes_irreflexive(name@);
                    assert(k >= i);
                    if k > i {
                        assert(precedes(names[i as int], names[k]));
                        assert(precedes(self.keys@[i as int]@, name@));
                    }
                }
            }
            None
        }
    }

    /// Whether a name has a value.
    pub fn contains_key(&self, name: &str) -> (r: bool)
        ensures
            r == self@.contains_key(name@),
            self@.dom().finite(),
    {
        proof {
            use_type_invariant(self);
            self.lemma_listing();
        }
        self.find(name).is_some()
    }

    /// The value under a name.
    pub fn get(&self, name: &str) -> (r: Option<&V>)
        ensures
            match r {
                Some(value) => self@.contains_key(name@) && value@ == self@[name@],
                None => !self@.contains_key(name@),
            },
            self@.dom().finite(),
    {
        proof {
            use_type_invariant(self);
            self.lemma_listing();
        }
        match self.find(name) {
            Some(i) => Some(&self.values[i]),
            None => None,
        }
    }

    /// Every name, in order.
    pub fn names(&self) -> (r: Vec<String>)
        ensures
            texts(r@) == in_order(self@.dom()),
            self@.dom().finite(),
    {
        let total: usize = self.len();
        let mut out: Vec<String> = Vec::new();
        let mut i: usize = 0;
        while i < total
            invariant
                i <= total,
                total == self@.dom().len(),
                total == in_order(self@.dom()).len(),
                out@.len() == i,
                forall|j: int| 0 <= j < i ==> (#[trigger] out@[j])@ == in_order(self@.dom())[j],
            decreases total - i,
        {
            out.push(self.name_at(i).clone());
            i += 1;
        }
        assert(texts(out@) =~= in_order(self@.dom()));
        out
    }

    /// The value under a name, borrowed to be changed in place.
    pub fn get_mut(&mut self, name: &str) -> (r: Option<&mut V>)
        ensures
            match r {
                Some(value) => {
                    &&& old(self)@.contains_key(name@)
                    &&& value@ == old(self)@[name@]
                    &&& final(self)@ == old(self)@.insert(name@, final(value)@)
                },
                None => !old(self)@.contains_key(name@) && final(self)@ == old(self)@,
            },
    {
        proof {
            use_type_invariant(&*self);
            self.lemma_listing();
        }
        match self.find(name) {
            Some(i) => {
                let ghost before = *self;
                let value = &mut self.values[i];
                proof {
                    let names = texts(before.keys@);
                    let values = before.values@.map_values(|v: V| v@);
                    let changed = before.values@.update(i as int, *final(value));
                    lemma_paired_update(names, values, i as int, final(value)@);
                    assert(changed.map_values(|v: V| v@) =~= values.update(
                        i as int,
                        final(value)@,
                    ));
                    assert(names[i as int] == name@);
                }
                Some(value)
            },
            None => None,
        }
    }

    /// File a value under a name, returning the value that was there.
    pub fn insert(&mut self, name: String, value: V) -> (r: Option<V>)
        ensures
            final(self)@ == old(self)@.insert(name@, value@),
            match r {
                Some(previous) => old(self)@.contains_key(name@) && previous@ == old(self)@[name@],
                None => !old(self)@.contains_key(name@),
            },
    {
        proof {
            use_type_invariant(&*self);
            self.lemma_listing();
        }
        let ghost names = texts(self.keys@);
        let ghost values = self.values@.map_values(|v: V| v@);
        let found = self.find(name.as_str());
        let at: usize = self.position(name.as_str());
        let mut taken: NameMap<V> = NameMap::new();
        std::mem::swap(self, &mut taken);
        let mut all_keys: Vec<String> = taken.keys;
        let mut all_values: Vec<V> = taken.values;
        let ghost keys_before = all_keys@;
        let ghost values_before = all_values@;
        match found {
            Some(i) => {
                let mut spare: V = value;
                std::mem::swap(&mut all_values[i], &mut spare);
                proof {
                    lemma_paired_update(names, values, i as int, value@);
                    assert(all_values@.map_values(|v: V| v@) =~= values.update(i as int, value@));
                    assert(names[i as int] == name@);
                }
                *self = NameMap { keys: all_keys, values: all_values };
                Some(spare)
            },
            None => {
                proof {
                    assert(!names.contains(name@)) by {
                        if names.contains(name@) {
                            assert(names.to_set().contains(name@));
                        }
                    }
                    lemma_paired_insert(names, values, at as int, name@, value@);
                }
                all_keys.insert(at, name);
                all_values.insert(at, value);
                proof {
                    let grown = texts(all_keys@);
                    assert(grown =~= names.insert(at as int, name@));
                    assert(all_values@.map_values(|v: V| v@) =~= values.insert(at as int, value@));
                    assert forall|i: int, j: int| 0 <= i < j < grown.len() implies precedes(
                        #[trigger] grown[i],
                        #[trigger] grown[j],
                    ) by {
                        let i1 = if i < at { i } else { i - 1 };
                        let j1 = if j < at { j } else { j - 1 };
                        if i != at && j != at {
                            assert(precedes(names[i1], names[j1]));
                        } else if j == at {
                            assert(names[i] == keys_before[i]@);
                        } else {
                            assert(names[j1] == keys_before[j1]@);
                            lemma_precedes_total(names[j1], name@);
                            assert(names.contains(names[j1]));
                        }
                    }
                }
                *self = NameMap { keys: all_keys, values: all_values };
                None
            },
        }
    }

    /// Take a name out, returning the value that was there.
    pub fn remove(&mut self, name: &str) -> (r: Option<V>)
        ensures
            final(self)@ == old(self)@.remove(name@),
            match r {
                Some(previous) => old(self)@.contains_key(name@) && previous@ == old(self)@[name@],
                None => !old(self)@.contains_key(name@),
            },
    {
        proof {
            use_type_invariant(&*self);
            self.lemma_listing();
        }
        let ghost names = texts(self.keys@);
        let ghost values = self.values@.map_values(|v: V| v@);
        match self.find(name) {
            Some(i) => {
                let mut taken: NameMap<V> = NameMap::new();
                std::mem::swap(self, &mut taken);
                let mut all_keys: Vec<String> = taken.keys;
                let mut all_values: Vec<V> = taken.values;
                proof {
                    lemma_paired_remove(names, values, i as int);
                    assert(names[i as int] == name@);
                }
                let _ = all_keys.remove(i);
                let previous = all_values.remove(i);
                proof {
                    let shrunk = texts(all_keys@);
                    assert(shrunk =~= names.remove(i as int));
                    assert(all_values@.map_values(|v: V| v@) =~= values.remove(i as int));
                    assert forall|a: int, b: int| 0 <= a < b < shrunk.len() implies precedes(
                        #[trigger] shrunk[a],
                        #[trigger] shrunk[b],
                    ) by {
                        let a1 = if a < i { a } else { a + 1 };
                        let b1 = if b < i { b } else { b + 1 };
                        assert(precedes(names[a1], names[b1]));
                    }
                }
                *self = NameMap { keys: all_keys, values: all_values };
                Some(previous)
            },
            None => {
                assert(self@.remove(name@) =~= self@);
                None
            },
        }
    }
}

/// A set of names, walked in name order.
#[derive(Debug, PartialEq, Eq)]
pub struct NameSet {
    entries: NameMap<()>,
}

impl View for NameSet {
    type V = Set<Seq<char>>;

    closed spec fn view(&self) -> Set<Seq<char>> {
        self.entries@.dom()
    }
}

impl NameSet {
    /// A set with nothing in it.
    pub fn new() -> (r: Self)
        ensures
            r@ == Set::<Seq<char>>::empty(),
    {
        let r = NameSet { entries: NameMap::new() };
        assert(r@ =~= Set::<Seq<char>>::empty());
        r
    }

    /// How many names there are.
    pub fn len(&self) -> (r: usize)
        ensures
            r == self@.len(),
            r == in_order(self@).len(),
            self@.finite(),
    {
        self.entries.len()
    }

    /// Whether there is no name.
    pub fn is_empty(&self) -> (r: bool)
        ensures
            r == (self@ == Set::<Seq<char>>::empty()),
            self@.finite(),
    {
        let r = self.entries.is_empty();
        assert(self@ =~= Set::<Seq<char>>::empty() <==> self.entries@ =~= Map::<
            Seq<char>,
            (),
        >::empty());
        r
    }

    /// Whether a name is in the set.
    pub fn contains(&self, name: &str) -> (r: bool)
        ensures
            r == self@.contains(name@),
            self@.finite(),
    {
        self.entries.contains_key(name)
    }

    /// The name at a position of the listing.
    pub fn name_at(&self, i: usize) -> (r: &String)
        requires
            i < self@.len(),
        ensures
            r@ == in_order(self@)[i as int],
            self@.contains(r@),
            self@.finite(),
    {
        self.entries.name_at(i)
    }

    /// Every name, in order.
    pub fn names(&self) -> (r: Vec<String>)
        ensures
            texts(r@) == in_order(self@),
            self@.finite(),
    {
        self.entries.names()
    }

    /// Put a name in, saying whether it is new.
    pub fn insert(&mut self, name: String) -> (r: bool)
        ensures
            final(self)@ == old(self)@.insert(name@),
            r == !old(self)@.contains(name@),
    {
        let ghost before = self@;
        let ghost added = name@;
        let r = self.entries.insert(name, ()).is_none();
        assert(self@ =~= before.insert(added));
        r
    }
}

impl<V: Copy + View> Clone for NameMap<V> {
    fn clone(&self) -> (r: Self)
        ensures
            r@ == self@,
    {
        proof {
            use_type_invariant(self);
        }
        let mut keys: Vec<String> = Vec::new();
        let mut values: Vec<V> = Vec::new();
        let mut i: usize = 0;
        while i < self.keys.len()
            invariant
                i <= self.keys@.len(),
                self.keys@.len() == self.values@.len(),
                keys@ == self.keys@.take(i as int),
                values@ == self.values@.take(i as int),
            decreases self.keys@.len() - i,
        {
            keys.push(self.keys[i].clone());
            values.push(self.values[i]);
            i += 1;
            assert(keys@ =~= self.keys@.take(i as int));
            assert(values@ =~= self.values@.take(i as int));
        }
        assert(keys@ =~= self.keys@);
        assert(values@ =~= self.values@);
        NameMap { keys, values }
    }
}

} // verus!
