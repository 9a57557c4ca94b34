//! A map keyed by strings that remembers the order in which its keys came.
//!
//! The entries stand in two vectors, in the order of their first insertion;
//! a hash table leads from each key to its place. The map is viewed as a
//! `Map` from the characters of a key to its value, and the order of the keys
//! as a sequence without repetition.

use vstd::prelude::*;
use vstd::hash_map::StringHashMap;

verus! {

/// The characters that each of the strings holds.
pub open spec fn texts(strings: Seq<String>) -> Seq<Seq<char>> {
    strings.map_values(|s: String| s@)
}

/// An insertion-ordered map from strings to values of type `V`.
pub struct StrMap<V> {
    keys: Vec<String>,
    vals: Vec<V>,
    slot: StringHashMap<usize>,
}

impl<V> View for StrMap<V> {
    type V = Map<Seq<char>, V>;

    /// The mapping itself: each key with the value that was last given to it.
    closed spec fn view(&self) -> Map<Seq<char>, V> {
        Map::new(
            |k: Seq<char>| self.slot@.contains_key(k),
            |k: Seq<char>| self.vals@[self.slot@[k] as int],
        )
    }
}

impl<V> StrMap<V> {
    /// The keys, in the order in which they were first inserted.
    pub closed spec fn keys(&self) -> Seq<Seq<char>> {
        texts(self.keys@)
    }

    /// The table leads from every key to its place, and to nothing else.
    pub closed spec fn wf(&self) -> bool {
        &&& self.keys@.len() == self.vals@.len()
        &&& forall|i: int|
            0 <= i < self.keys().len() ==> self.slot@.contains_key(#[trigger] self.keys()[i])
                && self.slot@[self.keys()[i]] == i
        &&& forall|k: Seq<char>| #[trigger]
            self.slot@.contains_key(k) ==> self.slot@[k] < self.keys().len() && self.keys()[self.slot@[k] as int]
                == k
    }

    /// The keys of a well-formed map are the domain of its view, each of
    /// them once.
    pub proof fn lemma_keys(&self)
        requires
            self.wf(),
        ensures
            self.keys().no_duplicates(),
            self.keys().to_set() == self@.dom(),
            self@.dom().finite(),
            self@.dom().len() == self.keys().len(),
    {
        let ks = self.keys();
        assert forall|i: int, j: int| 0 <= i < ks.len() && 0 <= j < ks.len() && i != j implies ks[i]
            != ks[j] by {
            assert(self.slot@[ks[i]] == i);
            assert(self.slot@[ks[j]] == j);
        }
        assert forall|k: Seq<char>| ks.to_set().contains(k) <==> self@.dom().contains(k) by {
            if self@.dom().contains(k) {
                assert(ks[self.slot@[k] as int] == k);
            }
        }
        assert(ks.to_set() =~= self@.dom());
        ks.unique_seq_to_set();
        vstd::seq_lib::seq_to_set_is_finite(ks);
    }

    /// An empty map.
    pub fn new() -> (m: Self)
        ensures
            m.wf(),
            m@ == Map::<Seq<char>, V>::empty(),
            m.keys() == Seq::<Seq<char>>::empty(),
    {
        let m = StrMap { keys: Vec::new(), vals: Vec::new(), slot: StringHashMap::new() };
        assert(m@ =~= Map::<Seq<char>, V>::empty());
        assert(m.keys() =~= Seq::<Seq<char>>::empty());
        m
    }

    /// The number of keys.
    pub fn len(&self) -> (n: usize)
        requires
            self.wf(),
        ensures
            n == self.keys().len(),
            n == self@.dom().len(),
    {
        proof {
            self.lemma_keys();
        }
        self.keys.len()
    }

    /// Whether `key` has a value.
    pub fn contains_key(&self, key: &str) -> (found: bool)
        requires
            self.wf(),
        ensures
            found == self@.contains_key(key@),
    {
        self.slot.contains_key(key)
    }

    /// The value of `key`, if it has one.
    pub fn get(&self, key: &str) -> (value: Option<&V>)
        requires
            self.wf(),
        ensures
            value is Some <==> self@.contains_key(key@),
            value is Some ==> *value->Some_0 == self@[key@],
    {
        match self.slot.get(key) {
            Some(i) => Some(&self.vals[*i]),
            None => None,
        }
    }

    /// The `i`th key in the order of insertion.
    pub fn key(&self, i: usize) -> (key: &String)
        requires
            self.wf(),
            i < self.keys().len(),
        ensures
            key@ == self.keys()[i as int],
    {
        &self.keys[i]
    }

    /// The value of the `i`th key in the order of insertion.
    pub fn value(&self, i: usize) -> (value: &V)
        requires
            self.wf(),
            i < self.keys().len(),
        ensures
            self@.contains_key(self.keys()[i as int]),
            *value == self@[self.keys()[i as int]],
    {
        &self.vals[i]
    }

    /// Gives `key` the value `value`. A key that is new goes behind the
    /// others; one that is known keeps its place.
    pub fn insert(&mut self, key: String, value: V)
        requires
            old(self).wf(),
        ensures
            final(self).wf(),
            final(self)@ == old(self)@.insert(key@, value),
            final(self).keys() == if old(self)@.contains_key(key@) {
                old(self).keys()
            } else {
                old(self).keys().push(key@)
            },
    {
        let ghost before = *self;
        let found = match self.slot.get(key.as_str()) {
            Some(i) => Some(*i),
            None => None,
        };
        match found {
            Some(i) => {
                self.vals[i] = value;
                assert(self.keys() == before.keys());
                assert(self@ =~= before@.insert(key@, value)) by {
                    assert forall|k: Seq<char>| self@.contains_key(k) implies #[trigger] self@[k]
                        == before@.insert(key@, value)[k] by {
                        if k != key@ {
                            assert(before.keys()[before.slot@[k] as int] == k);
                        }
                    }
                }
            },
            None => {
                let at = self.keys.len();
                self.slot.insert(key.clone(), at);
                self.keys.push(key);
                self.vals.push(value);
                assert(self.keys() =~= before.keys().push(key@));
                assert(self@ =~= before@.insert(key@, value));
            },
        }
    }
}

} // verus!
