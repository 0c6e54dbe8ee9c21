use vstd::prelude::*;

use std::collections::hash_map::RandomState;
use std::collections::HashMap;
use std::hash::Hash;
use std::marker::PhantomData;

use vstd::std_specs::hash::{builds_valid_hashers, obeys_key_model};

verus! {

/// Handle of an interned value: its position in the interner's table.
#[derive(Debug, PartialEq, Eq, Hash)]
pub struct InternKey<T> {
    index: u32,
    _marker: PhantomData<T>,
}

impl<T> InternKey<T> {
    pub closed spec fn spec_index(&self) -> nat {
        self.index as nat
    }
}

impl<T> Clone for InternKey<T> {
    fn clone(&self) -> (r: Self)
        ensures
            r.spec_index() == self.spec_index(),
    {
        InternKey { index: self.index, _marker: PhantomData }
    }
}

impl<T> Copy for InternKey<T> {
}

/// The map follows the values' equality, and a clone of a value equals it.
pub open spec fn model_ok<T: Clone>() -> bool {
    &&& obeys_key_model::<T>()
    &&& builds_valid_hashers::<RandomState>()
    &&& forall|a: T, b: T| #[trigger] cloned(a, b) ==> a == b
}

/// Stores each distinct value once and hands out a small key for it.
pub struct Intern<T: Hash + Eq + Clone> {
    map: HashMap<T, InternKey<T>>,
    vec: Vec<T>,
}

impl<T: Hash + Eq + Clone> Default for Intern<T> {
    fn default() -> (r: Self)
        ensures
            r.wf(),
            r.values() == Seq::<T>::empty(),
            r.keys() == Map::<T, InternKey<T>>::empty(),
    {
        Intern { map: HashMap::new(), vec: Vec::new() }
    }
}

impl<T: Hash + Eq + Clone> Intern<T> {
    /// The interned values, in the order they were first interned.
    pub closed spec fn values(&self) -> Seq<T> {
        self.vec@
    }

    /// The key handed out for each interned value.
    pub closed spec fn keys(&self) -> Map<T, InternKey<T>> {
        self.map@
    }

    /// The table of values and the key map agree: each key points at a stored
    /// value, and there are fewer values than `u32` can count. Where the map
    /// follows the values' equality and a clone equals what it was cloned
    /// from, each key points at the stored value equal to it, and each stored
    /// value is a key pointing at its own position.
    pub closed spec fn wf(&self) -> bool {
        &&& self.vec@.len() <= u32::MAX
        &&& obeys_key_model::<T>() && builds_valid_hashers::<RandomState>() ==> forall|v: T|
            #[trigger] self.map@.contains_key(v) ==> self.map@[v].spec_index() < self.vec@.len()
        &&& model_ok::<T>() ==> {
            &&& forall|v: T| #[trigger] self.map@.contains_key(v) ==> self.vec@[self.map@[v].spec_index() as int] == v
            &&& forall|i: int|
                0 <= i < self.vec@.len() ==> self.map@.contains_key(#[trigger] self.vec@[i]) && self.map@[self.vec@[i]].spec_index()
                    == i
        }
    }

    /// Each value is stored once: no two positions hold equal values.
    pub proof fn lemma_values_distinct(&self)
        requires
            self.wf(),
            model_ok::<T>(),
        ensures
            forall|i: int, j: int| 0 <= i < j < self.values().len() ==> self.values()[i] != self.values()[j],
    {
        assert forall|i: int, j: int| 0 <= i < j < self.values().len() implies self.values()[i] != self.values()[j] by {
            assert(self.map@[self.vec@[i]].spec_index() == i);
            assert(self.map@[self.vec@[j]].spec_index() == j);
        }
    }

    /// Number of distinct values interned so far.
    pub fn count(&self) -> (r: usize)
        ensures
            r == self.values().len(),
    {
        self.vec.len()
    }

    /// The key for `value`, interning it first if it is new.
    pub fn intern(&mut self, value: &T) -> (key: InternKey<T>)
        requires
            old(self).wf(),
            old(self).values().len() < u32::MAX,
        ensures
            final(self).wf(),
            obeys_key_model::<T>() && builds_valid_hashers::<RandomState>() ==> {
                if old(self).keys().contains_key(*value) {
                    &&& key == old(self).keys()[*value]
                    &&& final(self).values() == old(self).values()
                    &&& final(self).keys() == old(self).keys()
                } else {
                    &&& key.spec_index() == old(self).values().len()
                    &&& final(self).values().len() == old(self).values().len() + 1
                    &&& final(self).values().take(old(self).values().len() as int)
                        == old(self).values()
                    &&& cloned(*value, final(self).values().last())
                    &&& exists|k: T|
                        cloned(*value, k) && final(self).keys() == old(self).keys().insert(k, key)
                }
            },
            model_ok::<T>() ==> {
                &&& key.spec_index() < final(self).values().len()
                &&& final(self).values()[key.spec_index() as int] == *value
                &&& final(self).keys().contains_key(*value)
                &&& final(self).keys()[*value] == key
                &&& !old(self).keys().contains_key(*value) ==> final(self).values() == old(self).values().push(*value)
                    && final(self).keys() == old(self).keys().insert(*value, key)
            },
    {
        broadcast use vstd::std_specs::hash::group_hash_axioms;

        if let Some(key) = self.map.get(value) {
            proof {
                if model_ok::<T>() {
                    assert(self.map@.contains_key(*value));
                }
            }
            return *key;
        }
        let key = InternKey { index: self.vec.len() as u32, _marker: PhantomData };
        let kept = value.clone();
        self.vec.push(kept);
        let stored = value.clone();
        proof {
            assert(cloned(*value, stored));
            assert(self.vec@.last() == kept);
        }
        let ghost old_map = self.map@;
        self.map.insert(stored, key);
        proof {
            if obeys_key_model::<T>() && builds_valid_hashers::<RandomState>() {
                assert(self.map@ == old_map.insert(stored, key));
                assert(self.vec@.take(old(self).vec@.len() as int) =~= old(self).vec@);
            }
            if model_ok::<T>() {
                assert(cloned(*value, kept));
                assert(kept == *value);
                assert(stored == *value);
                assert(self.vec@ =~= old(self).vec@.push(*value));
                assert forall|v: T| #[trigger] self.map@.contains_key(v) implies self.vec@[self.map@[v].spec_index() as int] == v by {
                    if v != *value {
                        assert(old_map.contains_key(v));
                    }
                }
                assert forall|i: int| 0 <= i < self.vec@.len() implies self.map@.contains_key(#[trigger] self.vec@[i])
                    && self.map@[self.vec@[i]].spec_index() == i by {
                    if i < old(self).vec@.len() {
                        assert(old(self).vec@[i] == self.vec@[i]);
                        assert(old_map.contains_key(old(self).vec@[i]));
                        assert(self.vec@[i] != *value);
                    }
                }
            }
        }
        key
    }

    /// The value stored under `key`.
    pub fn get(&self, key: InternKey<T>) -> (r: &T)
        requires
            key.spec_index() < self.values().len(),
        ensures
            *r == self.values()[key.spec_index() as int],
    {
        &self.vec[key.index as usize]
    }
}

} // verus!
