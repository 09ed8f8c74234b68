//! A map keyed by strings that remembers the order in which its keys arrived.
//!
//! Both the term table of a document and the corpus index are such maps:
//! lookups go through a hash table, and walking the entries follows the
//! order of first insertion, so every walk of an unchanged map is the same.

use vstd::prelude::*;
use vstd::hash_map::StringHashMap;

verus! {

/// String keys with their values, in order of first insertion.
pub struct OrderedMap<V> {
    keys: Vec<String>,
    values: Vec<V>,
    slots: StringHashMap<usize>,
}

impl<V> OrderedMap<V> {
    /// The keys, in order of first insertion.
    pub closed spec fn keys(&self) -> Seq<Seq<char>> {
        self.keys.deep_view()
    }

    /// The values, each at the position of its key.
    pub closed spec fn values(&self) -> Seq<V> {
        self.values@
    }

    /// The hash table agrees with the key list: it sends each key to its
    /// position, and holds nothing else.
    pub closed spec fn wf(&self) -> bool {
        &&& self.keys@.len() == self.values@.len()
        &&& forall|i: int|
            0 <= i < self.keys@.len() ==> self.slots@.contains_key(#[trigger] self.keys@[i]@)
                && self.slots@[self.keys@[i]@] == i
        &&& forall|k: Seq<char>| #[trigger]
            self.slots@.contains_key(k) ==> self.slots@[k] < self.keys@.len()
                && self.keys@[self.slots@[k] as int]@ == k
    }

    /// In a well-formed map no key occurs twice, and every key has a value.
    pub proof fn lemma_keys_distinct(&self)
        requires
            self.wf(),
        ensures
            self.keys().no_duplicates(),
            self.keys().len() == self.values().len(),
    {
        assert forall|i: int, j: int|
            0 <= i < self.keys().len() && 0 <= j < self.keys().len() && i != j implies self.keys()[i]
            != self.keys()[j] by {
            assert(self.keys()[i] == self.keys@[i]@);
            assert(self.keys()[j] == self.keys@[j]@);
        }
    }

    /// An empty map.
    pub fn new() -> (m: Self)
        ensures
            m.wf(),
            m.keys() == Seq::<Seq<char>>::empty(),
            m.values() == Seq::<V>::empty(),
    {
        let m = OrderedMap { keys: Vec::new(), values: Vec::new(), slots: StringHashMap::new() };
        assert(m.keys() =~= Seq::<Seq<char>>::empty());
        m
    }

    /// The number of keys.
    pub fn len(&self) -> (n: usize)
        requires
            self.wf(),
        ensures
            n == self.keys().len(),
    {
        self.keys.len()
    }

    /// Where `key` stands among the keys, if it is one.
    pub fn position(&self, key: &str) -> (at: Option<usize>)
        requires
            self.wf(),
        ensures
            match at {
                Some(i) => i < self.keys().len() && self.keys()[i as int] == key@,
                None => !self.keys().contains(key@),
            },
    {
        match self.slots.get(key) {
            Some(slot) => {
                assert(self.keys()[*slot as int] == self.keys@[*slot as int]@);
                Some(*slot)
            },
            None => {
                assert forall|i: int| 0 <= i < self.keys().len() implies self.keys()[i] != key@ by {
                    assert(self.keys()[i] == self.keys@[i]@);
                }
                None
            },
        }
    }

    /// The key at position `i`.
    pub fn key(&self, i: usize) -> (k: &String)
        requires
            i < self.keys().len(),
        ensures
            k@ == self.keys()[i as int],
    {
        &self.keys[i]
    }

    /// The value at position `i`.
    pub fn value(&self, i: usize) -> (v: &V)
        requires
            i < self.values().len(),
        ensures
            *v == self.values()[i as int],
    {
        &self.values[i]
    }

    /// Replaces the value at position `i`.
    pub fn set_value(&mut self, i: usize, value: V)
        requires
            old(self).wf(),
            i < old(self).values().len(),
        ensures
            final(self).wf(),
            final(self).keys() == old(self).keys(),
            final(self).values() == old(self).values().update(i as int, value),
    {
        self.values.set(i, value);
    }

    /// Appends a key that the map does not hold yet, with its value.
    pub fn push(&mut self, key: String, value: V)
        requires
            old(self).wf(),
            !old(self).keys().contains(key@),
        ensures
            final(self).wf(),
            final(self).keys() == old(self).keys().push(key@),
            final(self).values() == old(self).values().push(value),
    {
        let at = self.keys.len();
        proof {
            if old(self).slots@.contains_key(key@) {
                let i = old(self).slots@[key@] as int;
                assert(old(self).keys()[i] == old(self).keys@[i]@);
            }
        }
        self.slots.insert(key.clone(), at);
        self.keys.push(key);
        self.values.push(value);
        assert(self.keys() =~= old(self).keys().push(key@));
    }

    /// Gives `key` the value `value`: in its place where the map holds the
    /// key already, at the end where it does not. Returns the key's position.
    pub fn insert(&mut self, key: String, value: V) -> (at: usize)
        requires
            old(self).wf(),
        ensures
            final(self).wf(),
            at < final(self).keys().len(),
            final(self).keys()[at as int] == key@,
            old(self).keys().contains(key@) ==> final(self).keys() == old(self).keys()
                && final(self).values() == old(self).values().update(at as int, value),
            !old(self).keys().contains(key@) ==> final(self).keys() == old(self).keys().push(key@)
                && final(self).values() == old(self).values().push(value),
    {
        proof {
            self.lemma_keys_distinct();
        }
        match self.position(key.as_str()) {
            Some(i) => {
                self.set_value(i, value);
                i
            },
            None => {
                let at = self.len();
                self.push(key, value);
                at
            },
        }
    }
}

/// In a sequence without repeats, the index of an element is where it stands.
pub proof fn lemma_index_of<A>(s: Seq<A>, i: int)
    requires
        s.no_duplicates(),
        0 <= i < s.len(),
    ensures
        s.index_of(s[i]) == i,
{
    let j = s.index_of(s[i]);
    assert(0 <= j < s.len() && s[j] == s[i]);
}

} // verus!
