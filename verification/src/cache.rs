//! The cache itself: a fixed-capacity store with least-recently-used eviction.

use crate::key::Key;
use vstd::prelude::*;

verus! {

/// The sequence of keys of an association sequence, in the same order.
pub open spec fn keys_of<A, B>(s: Seq<(A, B)>) -> Seq<A> {
    s.map_values(|p: (A, B)| p.0)
}

/// The map described by an association sequence; a later pair overrides
/// an earlier one with the same key.
pub open spec fn map_of<A, B>(s: Seq<(A, B)>) -> Map<A, B>
    decreases s.len(),
{
    if s.len() == 0 {
        Map::empty()
    } else {
        map_of(s.drop_last()).insert(s.last().0, s.last().1)
    }
}

/// The recency order after a touch of `x`: if present, `x` moves to the
/// back (most recently used); an absent key leaves the order unchanged.
pub open spec fn touch<A>(s: Seq<A>, x: A) -> Seq<A> {
    if s.contains(x) {
        s.remove_value(x).push(x)
    } else {
        s
    }
}

/// Removing position `i` from a duplicate-free sequence keeps it
/// duplicate-free and removes exactly the element that stood there.
proof fn lemma_remove_no_dup<A>(s: Seq<A>, i: int)
    requires
        s.no_duplicates(),
        0 <= i < s.len(),
    ensures
        s.remove(i).no_duplicates(),
        forall|a: A| s.remove(i).contains(a) <==> (s.contains(a) && a != s[i]),
{
    s.remove_ensures(i);
    assert forall|a: A| s.remove(i).contains(a) implies s.contains(a) && a != s[i] by {
        let j = choose|j: int| 0 <= j < s.remove(i).len() && s.remove(i)[j] == a;
        if j < i {
            assert(s[j] == a);
        } else {
            assert(s[j + 1] == a);
        }
    }
    assert forall|a: A| s.contains(a) && a != s[i] implies s.remove(i).contains(a) by {
        let j = choose|j: int| 0 <= j < s.len() && s[j] == a;
        if j < i {
            assert(s.remove(i)[j] == a);
        } else {
            assert(s.remove(i)[j - 1] == a);
        }
    }
}

/// Appending a fresh element to a duplicate-free sequence keeps it
/// duplicate-free.
proof fn lemma_push_no_dup<A>(s: Seq<A>, x: A)
    requires
        s.no_duplicates(),
        !s.contains(x),
    ensures
        s.push(x).no_duplicates(),
{
    assert forall|i: int, j: int|
        0 <= i < s.push(x).len() && 0 <= j < s.push(x).len() && i != j implies s.push(x)[i]
        != s.push(x)[j] by {
        if i < s.len() && j < s.len() {
        } else if i < s.len() {
            assert(s.contains(s[i]));
        } else {
            assert(s.contains(s[j]));
        }
    }
}

/// Mapping a function over a sequence commutes with removing a position.
proof fn lemma_map_values_remove<A, B>(s: Seq<A>, f: spec_fn(A) -> B, i: int)
    requires
        0 <= i < s.len(),
    ensures
        s.remove(i).map_values(f) =~= s.map_values(f).remove(i),
{
    s.remove_ensures(i);
    s.map_values(f).remove_ensures(i);
}

/// Mapping a function over a sequence commutes with appending an element.
proof fn lemma_map_values_push<A, B>(s: Seq<A>, f: spec_fn(A) -> B, x: A)
    ensures
        s.push(x).map_values(f) =~= s.map_values(f).push(f(x)),
{
}

/// The keys of the map of an association sequence are the keys of the
/// sequence.
proof fn lemma_map_of_dom<A, B>(s: Seq<(A, B)>)
    ensures
        map_of(s).dom() =~= keys_of(s).to_set(),
    decreases s.len(),
{
    broadcast use vstd::set::group_set_axioms;

    if s.len() == 0 {
    } else {
        lemma_map_of_dom(s.drop_last());
        assert forall|a: A| keys_of(s).contains(a) implies map_of(s).dom().contains(a) by {
            let j = choose|j: int| 0 <= j < keys_of(s).len() && keys_of(s)[j] == a;
            if j < s.len() - 1 {
                assert(keys_of(s.drop_last())[j] == a);
            }
        }
        assert forall|a: A| map_of(s).dom().contains(a) implies keys_of(s).contains(a) by {
            if a == s.last().0 {
                assert(keys_of(s)[s.len() - 1] == a);
            } else {
                let j = choose|j: int|
                    0 <= j < keys_of(s.drop_last()).len() && keys_of(s.drop_last())[j] == a;
                assert(keys_of(s)[j] == a);
            }
        }
    }
}

/// In an association sequence with distinct keys, the map of the
/// sequence sends each key to the value paired with it.
proof fn lemma_map_of_index<A, B>(s: Seq<(A, B)>, i: int)
    requires
        keys_of(s).no_duplicates(),
        0 <= i < s.len(),
    ensures
        map_of(s).contains_key(s[i].0),
        map_of(s)[s[i].0] == s[i].1,
    decreases s.len(),
{
    if i == s.len() - 1 {
    } else {
        assert(keys_of(s.drop_last()) =~= keys_of(s).drop_last());
        assert(keys_of(s.drop_last()).no_duplicates());
        assert(keys_of(s)[i] != keys_of(s)[s.len() - 1]);
        lemma_map_of_index(s.drop_last(), i);
        assert(s.drop_last()[i] == s[i]);
    }
}

/// In an association sequence with distinct keys, removing the pair at
/// a position removes exactly its key from the map of the sequence.
proof fn lemma_map_of_remove<A, B>(s: Seq<(A, B)>, i: int)
    requires
        keys_of(s).no_duplicates(),
        0 <= i < s.len(),
    ensures
        map_of(s.remove(i)) =~= map_of(s).remove(s[i].0),
    decreases s.len(),
{
    broadcast use vstd::set::group_set_axioms;

    if i == s.len() - 1 {
        assert(s.remove(i) =~= s.drop_last());
        lemma_map_of_dom(s.drop_last());
        assert(keys_of(s.drop_last()) =~= keys_of(s).drop_last());
        assert forall|a: A| !keys_of(s.drop_last()).contains(a) || a != s[i].0 by {
            if keys_of(s.drop_last()).contains(a) {
                let j = choose|j: int|
                    0 <= j < keys_of(s.drop_last()).len() && keys_of(s.drop_last())[j] == a;
                assert(keys_of(s)[j] == a);
                assert(keys_of(s)[j] != keys_of(s)[s.len() - 1]);
            }
        }
        assert(map_of(s.drop_last()) =~= map_of(s).remove(s[i].0));
    } else {
        let r = s.remove(i);
        let dl = s.drop_last();
        assert(keys_of(dl) =~= keys_of(s).drop_last());
        assert(keys_of(dl).no_duplicates());
        lemma_map_of_remove(dl, i);
        assert(r.drop_last() =~= dl.remove(i));
        assert(r.last() == s.last());
        assert(dl[i] == s[i]);
        assert(s[i].0 != s.last().0) by {
            assert(keys_of(s)[i] != keys_of(s)[s.len() - 1]);
        }
        assert(map_of(r) =~= map_of(s).remove(s[i].0));
    }
}

/// In a duplicate-free order, a touch of the key standing at position
/// `i` removes exactly that position and appends the key at the back.
pub proof fn lemma_touch_present<A>(s: Seq<A>, x: A, i: int)
    requires
        s.no_duplicates(),
        0 <= i < s.len(),
        s[i] == x,
    ensures
        touch(s, x) == s.remove(i).push(x),
{
    assert(s.contains(x));
    s.index_of_first_ensures(x);
    let j = s.index_of_first(x)->Some_0;
    assert(j == i);
}

/// A touch makes its key the most recently used and permutes nothing
/// else: the set of keys, the length, and freedom from duplicates are
/// all preserved. In particular, while at least one other key is
/// cached, the touched key is no longer the first in line for eviction.
pub proof fn lemma_touch_protects<A>(s: Seq<A>, x: A)
    requires
        s.no_duplicates(),
        s.contains(x),
    ensures
        touch(s, x).last() == x,
        touch(s, x).len() == s.len(),
        touch(s, x).to_set() == s.to_set(),
        touch(s, x).no_duplicates(),
        s.len() >= 2 ==> touch(s, x).first() != x,
{
    broadcast use vstd::set::group_set_axioms;

    s.index_of_first_ensures(x);
    let i = s.index_of_first(x)->Some_0;
    assert(touch(s, x) == s.remove(i).push(x));
    lemma_remove_no_dup(s, i);
    assert(!s.remove(i).contains(x));
    lemma_push_no_dup(s.remove(i), x);
    let t = s.remove(i).push(x);
    assert forall|a: A| t.contains(a) implies s.contains(a) by {
        let j = choose|j: int| 0 <= j < t.len() && t[j] == a;
        if j < s.remove(i).len() {
            assert(s.remove(i)[j] == a);
        } else {
            assert(a == x);
        }
    }
    assert forall|a: A| s.contains(a) implies t.contains(a) by {
        if a == x {
            assert(t[t.len() - 1] == a);
        } else {
            assert(s.remove(i).contains(a));
            let j = choose|j: int| 0 <= j < s.remove(i).len() && s.remove(i)[j] == a;
            assert(t[j] == a);
        }
    }
    assert(touch(s, x).to_set() =~= s.to_set());
    if s.len() >= 2 {
        assert(touch(s, x).first() == s.remove(i)[0]);
        assert(s.remove(i).contains(s.remove(i)[0]));
    }
}

/// A cache holding at most `capacity` key/value pairs, evicting the
/// least recently used entry when a new key arrives while it is full.
///
/// `items` holds the entries from least to most recently used; a key
/// occurs at most once.
#[derive(Debug)]
pub struct LRUCache<K, V> {
    capacity: usize,
    items: Vec<(K, V)>,
}

impl<K: Key + Copy, V> LRUCache<K, V> {
    /// The association sequence of the cache, by key value, from least
    /// to most recently used.
    pub closed spec fn pairs(&self) -> Seq<(K::V, V)> {
        self.items@.map_values(|p: (K, V)| (p.0@, p.1))
    }

    /// The keys currently cached, from least to most recently used.
    pub open spec fn order(&self) -> Seq<K::V> {
        keys_of(self.pairs())
    }

    /// The map from cached key values to their stored values.
    pub open spec fn entries(&self) -> Map<K::V, V> {
        map_of(self.pairs())
    }

    /// The fixed capacity chosen at construction.
    pub closed spec fn spec_capacity(&self) -> int {
        self.capacity as int
    }

    /// Well-formedness: the capacity is positive, the cache never holds
    /// more entries than it, and no key occurs twice in the order.
    pub closed spec fn wf(&self) -> bool {
        &&& 1 <= self.capacity
        &&& self.items@.len() <= self.capacity
        &&& self.order().no_duplicates()
    }

    /// Finds the position of a key in the recency order, scanning from
    /// the least recently used end.
    fn find_index(&self, key: &K) -> (r: Option<usize>)
        ensures
            match r {
                Some(i) => 0 <= i < self.pairs().len() && self.pairs()[i as int].0 == key@,
                None => !self.order().contains(key@),
            },
    {
        let mut i: usize = 0;
        while i < self.items.len()
            invariant
                i <= self.items@.len(),
                forall|j: int| 0 <= j < i ==> self.items@[j].0@ != key@,
            decreases self.items@.len() - i,
        {
            if self.items[i].0.key_eq(key) {
                return Some(i);
            }
            i += 1;
        }
        proof {
            assert forall|j: int| 0 <= j < self.order().len() implies self.order()[j] != key@ by {
                assert(self.order()[j] == self.items@[j].0@);
            }
        }
        None
    }

    /// Marks the given key as the most recently used, leaving the stored
    /// values untouched; an absent key changes nothing.
    pub fn update_order(&mut self, key: K)
        requires
            old(self).wf(),
        ensures
            final(self).wf(),
            final(self).spec_capacity() == old(self).spec_capacity(),
            final(self).entries() == old(self).entries(),
            final(self).order() == touch(old(self).order(), key@),
    {
        let ghost pre = self.pairs();
        match self.find_index(&key) {
            None => {
            }
            Some(i) => {
                let pair = self.items.remove(i);
                self.items.push(pair);
                proof {
                    let f = |p: (K, V)| (p.0@, p.1);
                    lemma_map_values_remove(old(self).items@, f, i as int);
                    lemma_map_values_push(old(self).items@.remove(i as int), f, pair);
                    assert(pre[i as int] == (pre[i as int].0, pre[i as int].1));
                    assert(self.pairs() =~= pre.remove(i as int).push(
                        (pre[i as int].0, pre[i as int].1),
                    ));
                    self.lemma_replace_at(pre, i as int, pair.1);
                    lemma_map_of_index(pre, i as int);
                    assert(map_of(pre).insert(pre[i as int].0, pre[i as int].1) =~= map_of(pre));
                }
            }
        }
    }

    /// After removing the pair at position `i` of `pre` and pushing its
    /// key back with value `v`, the model is: that key now maps to `v`,
    /// and the order is the old order touched at that key.
    proof fn lemma_replace_at(&self, pre: Seq<(K::V, V)>, i: int, v: V)
        requires
            keys_of(pre).no_duplicates(),
            0 <= i < pre.len(),
            self.pairs() == pre.remove(i).push((pre[i].0, v)),
        ensures
            keys_of(self.pairs()).no_duplicates(),
            self.pairs().len() == pre.len(),
            map_of(self.pairs()) == map_of(pre).insert(pre[i].0, v),
            keys_of(self.pairs()) == touch(keys_of(pre), pre[i].0),
    {
        let kv = pre[i].0;
        let keys = keys_of(pre);
        let f = |p: (K::V, V)| p.0;
        lemma_map_values_remove(pre, f, i);
        lemma_map_values_push(pre.remove(i), f, (kv, v));
        assert(keys[i] == kv);
        assert(keys_of(self.pairs()) =~= keys.remove(i).push(kv));
        lemma_remove_no_dup(keys, i);
        assert(!keys.remove(i).contains(kv));
        lemma_push_no_dup(keys.remove(i), kv);
        lemma_map_of_remove(pre, i);
        assert(self.pairs().drop_last() =~= pre.remove(i));
        assert(self.pairs().last() == (kv, v));
        assert(map_of(self.pairs()) =~= map_of(pre.remove(i)).insert(kv, v));
        assert(map_of(self.pairs()) =~= map_of(pre).insert(kv, v));
        assert(keys.contains(kv));
        keys.index_of_first_ensures(kv);
        let j = keys.index_of_first(kv)->Some_0;
        assert(j == i);
        assert(touch(keys, kv) == keys.remove(i).push(kv));
    }

    /// Creates an empty cache with the given positive capacity.
    pub fn new(capacity: usize) -> (c: Self)
        requires
            1 <= capacity,
        ensures
            c.wf(),
            c.spec_capacity() == capacity,
            c.order() == Seq::<K::V>::empty(),
            c.entries() == Map::<K::V, V>::empty(),
    {
        let c = LRUCache { capacity, items: Vec::new() };
        proof {
            assert(c.pairs() =~= Seq::<(K::V, V)>::empty());
            assert(c.order() =~= Seq::<K::V>::empty());
        }
        c
    }

    /// Returns the value stored under `key`, or `None` if the key is
    /// absent. A present key becomes the most recently used; an absent
    /// key changes nothing. The stored values are never altered.
    pub fn get<'a>(&'a mut self, key: K) -> (r: Option<&'a V>)
        requires
            old(self).wf(),
        ensures
            final(self).wf(),
            final(self).spec_capacity() == old(self).spec_capacity(),
            final(self).entries() == old(self).entries(),
            final(self).order() == touch(old(self).order(), key@),
            match r {
                Some(v) => old(self).entries().contains_key(key@) && *v == old(
                    self,
                ).entries()[key@],
                None => !old(self).entries().contains_key(key@),
            },
    {
        proof {
            broadcast use vstd::set::group_set_axioms;

            lemma_map_of_dom(self.pairs());
        }
        match self.find_index(&key) {
            None => {
                None
            },
            Some(_) => {
                proof {
                    assert(old(self).order().contains(key@)) by {
                        let i = choose|i: int|
                            0 <= i < old(self).pairs().len() && old(self).pairs()[i].0 == key@;
                        assert(old(self).order()[i] == key@);
                    }
                    old(self).order().index_of_first_ensures(key@);
                }
                self.update_order(key);
                let n = self.items.len();
                proof {
                    assert(self.order().len() == n);
                    assert(self.order().last() == key@);
                    lemma_map_of_index(self.pairs(), n - 1);
                    assert(self.pairs()[n - 1].0 == key@);
                    assert(self.entries()[key@] == self.pairs()[n - 1].1);
                }
                Some(&self.items[n - 1].1)
            },
        }
    }

    /// Stores `value` under `key` and makes that key the most recently
    /// used. A key already present keeps the cache size unchanged and
    /// only has its value replaced; a new key grows the cache, evicting
    /// the least recently used entry first when the cache is full.
    pub fn put(&mut self, key: K, value: V)
        requires
            old(self).wf(),
        ensures
            final(self).wf(),
            final(self).spec_capacity() == old(self).spec_capacity(),
            old(self).entries().contains_key(key@) ==> {
                &&& final(self).entries() == old(self).entries().insert(key@, value)
                &&& final(self).order() == touch(old(self).order(), key@)
                &&& final(self).order().len() == old(self).order().len()
            },
            !old(self).entries().contains_key(key@) && old(self).order().len() < old(
                self,
            ).spec_capacity() ==> {
                &&& final(self).entries() == old(self).entries().insert(key@, value)
                &&& final(self).order() == old(self).order().push(key@)
            },
            !old(self).entries().contains_key(key@) && old(self).order().len() == old(
                self,
            ).spec_capacity() ==> {
                &&& final(self).entries() == old(self).entries().remove(
                    old(self).order().first(),
                ).insert(key@, value)
                &&& final(self).order() == old(self).order().drop_first().push(key@)
            },
    {
        let ghost pre = self.pairs();
        proof {
            broadcast use vstd::set::group_set_axioms;

            lemma_map_of_dom(pre);
        }
        match self.find_index(&key) {
            Some(i) => {
                let _replaced = self.items.remove(i);
                self.items.push((key, value));
                proof {
                    let f = |p: (K, V)| (p.0@, p.1);
                    lemma_map_values_remove(old(self).items@, f, i as int);
                    lemma_map_values_push(old(self).items@.remove(i as int), f, (key, value));
                    assert(self.pairs() =~= pre.remove(i as int).push((pre[i as int].0, value)));
                    self.lemma_replace_at(pre, i as int, value);
                    assert(old(self).order()[i as int] == key@);
                }
            },
            None => {
                let ghost mid = pre;
                if self.items.len() == self.capacity {
                    let _evicted = self.items.remove(0);
                    proof {
                        let f = |p: (K, V)| (p.0@, p.1);
                        lemma_map_values_remove(old(self).items@, f, 0);
                        assert(self.pairs() =~= pre.remove(0));
                        mid = pre.remove(0);
                        let fk = |p: (K::V, V)| p.0;
                        lemma_map_values_remove(pre, fk, 0);
                        assert(keys_of(mid) =~= keys_of(pre).remove(0));
                        lemma_remove_no_dup(keys_of(pre), 0);
                        lemma_map_of_remove(pre, 0);
                        assert(keys_of(pre)[0] == pre[0].0);
                        assert(keys_of(mid) =~= keys_of(pre).drop_first());
                    }
                }
                self.items.push((key, value));
                proof {
                    let prev = self.items@.drop_last();
                    let f = |p: (K, V)| (p.0@, p.1);
                    lemma_map_values_push(prev, f, (key, value));
                    assert(prev.map_values(f) == mid);
                    assert(self.pairs() =~= mid.push((key@, value)));
                    let fk = |p: (K::V, V)| p.0;
                    lemma_map_values_push(mid, fk, (key@, value));
                    assert(keys_of(self.pairs()) =~= keys_of(mid).push(key@));
                    assert(self.pairs().drop_last() =~= mid);
                    assert(map_of(self.pairs()) =~= map_of(mid).insert(key@, value));
                    assert(!keys_of(mid).contains(key@)) by {
                        if keys_of(mid).contains(key@) {
                            let j = choose|j: int|
                                0 <= j < keys_of(mid).len() && keys_of(mid)[j] == key@;
                            assert(keys_of(pre).contains(key@));
                        }
                    }
                    lemma_push_no_dup(keys_of(mid), key@);
                }
            },
        }
    }

    /// Removes `key` and its value from the cache. Deleting an absent
    /// key is a no-op, not an error, and leaves the cache unchanged.
    pub fn delete(&mut self, key: K)
        requires
            old(self).wf(),
        ensures
            final(self).wf(),
            final(self).spec_capacity() == old(self).spec_capacity(),
            final(self).entries() == old(self).entries().remove(key@),
            final(self).order() == old(self).order().remove_value(key@),
            old(self).entries().contains_key(key@) ==> final(self).order().len() == old(
                self,
            ).order().len() - 1,
            !old(self).entries().contains_key(key@) ==> *final(self) == *old(self),
    {
        let ghost pre = self.pairs();
        proof {
            broadcast use vstd::set::group_set_axioms;

            lemma_map_of_dom(pre);
        }
        match self.find_index(&key) {
            None => {
                proof {
                    old(self).order().index_of_first_ensures(key@);
                    assert(self.entries() =~= old(self).entries().remove(key@));
                }
            },
            Some(i) => {
                let _removed = self.items.remove(i);
                proof {
                    let f = |p: (K, V)| (p.0@, p.1);
                    lemma_map_values_remove(old(self).items@, f, i as int);
                    assert(self.pairs() =~= pre.remove(i as int));
                    let fk = |p: (K::V, V)| p.0;
                    lemma_map_values_remove(pre, fk, i as int);
                    assert(self.order() =~= keys_of(pre).remove(i as int));
                    lemma_remove_no_dup(keys_of(pre), i as int);
                    lemma_map_of_remove(pre, i as int);
                    assert(keys_of(pre)[i as int] == key@);
                    assert(keys_of(pre).contains(key@));
                    keys_of(pre).index_of_first_ensures(key@);
                    let j = keys_of(pre).index_of_first(key@)->Some_0;
                    assert(j == i as int);
                    assert(old(self).order().remove_value(key@) == keys_of(pre).remove(i as int));
                }
            },
        }
    }

    /// Returns the value stored under `key` without touching the
    /// recency order, or `None` if the key is absent.
    pub fn peek<'a>(&'a self, key: &K) -> (r: Option<&'a V>)
        requires
            self.wf(),
        ensures
            match r {
                Some(v) => self.entries().contains_key(key@) && *v == self.entries()[key@],
                None => !self.entries().contains_key(key@),
            },
    {
        proof {
            broadcast use vstd::set::group_set_axioms;

            lemma_map_of_dom(self.pairs());
        }
        match self.find_index(key) {
            None => None,
            Some(i) => {
                proof {
                    lemma_map_of_index(self.pairs(), i as int);
                }
                Some(&self.items[i].1)
            },
        }
    }

    /// Returns the cached keys from least to most recently used, without
    /// touching the recency order.
    pub fn keys_in_order(&self) -> (ks: Vec<K>)
        ensures
            ks@.map_values(|k: K| k@) == self.order(),
    {
        let mut ks: Vec<K> = Vec::new();
        let mut i: usize = 0;
        while i < self.items.len()
            invariant
                i <= self.items@.len(),
                ks@.len() == i,
                forall|j: int| 0 <= j < i ==> ks@[j] == self.items@[j].0,
            decreases self.items@.len() - i,
        {
            ks.push(self.items[i].0);
            i += 1;
        }
        proof {
            assert(ks@.map_values(|k: K| k@) =~= self.order());
        }
        ks
    }

    /// The number of entries currently cached.
    pub fn len(&self) -> (n: usize)
        ensures
            n == self.order().len(),
    {
        self.items.len()
    }

    /// The fixed capacity chosen at construction.
    pub fn capacity(&self) -> (n: usize)
        ensures
            n == self.spec_capacity(),
    {
        self.capacity
    }

    /// The invariants of every well-formed cache: it never holds more
    /// entries than its capacity, no key is tracked twice, and the keys
    /// of the lookup map are exactly the keys of the recency order.
    pub proof fn lemma_invariants(&self)
        requires
            self.wf(),
        ensures
            self.order().len() <= self.spec_capacity(),
            self.order().no_duplicates(),
            self.entries().dom() == self.order().to_set(),
            self.entries().dom().len() == self.order().len(),
    {
        broadcast use vstd::set::group_set_axioms;

        lemma_map_of_dom(self.pairs());
        assert(self.entries().dom() =~= self.order().to_set());
        self.order().unique_seq_to_set();
    }

    /// Creates an empty cache, rejecting the degenerate capacity `0`
    /// as a configuration error.
    pub fn try_new(capacity: usize) -> (r: Option<Self>)
        ensures
            r is Some <==> 1 <= capacity,
            r matches Some(c) ==> {
                &&& c.wf()
                &&& c.spec_capacity() == capacity
                &&& c.order() == Seq::<K::V>::empty()
                &&& c.entries() == Map::<K::V, V>::empty()
            },
    {
        if capacity >= 1 {
            Some(Self::new(capacity))
        } else {
            None
        }
    }
}

} // verus!
