//! A map keyed by node identity.

use crate::axis::NodeKey;
use std::collections::hash_map::Entry;
use std::collections::HashMap;
use vstd::prelude::*;

verus! {

broadcast use vstd::std_specs::hash::group_hash_axioms;

/// A hash map whose keys are node identities.
#[derive(Debug)]
pub struct KeyMap<V> {
    map: HashMap<u64, V>,
}

impl<V> View for KeyMap<V> {
    type V = Map<NodeKey, V>;

    closed spec fn view(&self) -> Map<NodeKey, V> {
        keyed(self.map@)
    }
}

/// A map from numbers as one from the identities they stand for.
spec fn keyed<V>(map: Map<u64, V>) -> Map<NodeKey, V> {
    Map::new(|key: NodeKey| map.contains_key(key.id), |key: NodeKey| map[key.id])
}

impl<V> KeyMap<V> {
    pub fn new() -> (r: Self)
        ensures
            r@ == Map::<NodeKey, V>::empty(),
    {
        let r = KeyMap { map: HashMap::new() };
        assert(r@ =~= Map::<NodeKey, V>::empty());
        r
    }

    pub fn contains_key(&self, key: NodeKey) -> (r: bool)
        ensures
            r == self@.contains_key(key),
    {
        self.map.contains_key(&key.id)
    }

    pub fn get(&self, key: NodeKey) -> (r: Option<&V>)
        ensures
            r is Some <==> self@.contains_key(key),
            r matches Some(v) ==> *v == self@[key],
    {
        self.map.get(&key.id)
    }

    /// The value of a key, to be changed in place.
    pub fn get_mut(&mut self, key: NodeKey) -> (r: Option<&mut V>)
        ensures
            r is Some <==> old(self)@.contains_key(key),
            match r {
                Some(v) => *v == old(self)@[key] && final(self)@ == old(self)@.insert(
                    key,
                    *final(v),
                ),
                None => final(self)@ == old(self)@,
            },
    {
        let ghost before = self.map@;
        proof {
            assert forall|v: V| #[trigger]
                keyed(before.insert(key.id, v)) == keyed(before).insert(key, v) by {
                assert(keyed(before.insert(key.id, v)) =~= keyed(before).insert(key, v));
            }
        }
        match self.map.entry(key.id) {
            Entry::Occupied(entry) => Some(entry.into_mut()),
            Entry::Vacant(_) => {
                assert(keyed(before.remove(key.id)) =~= keyed(before));
                None
            },
        }
    }

    pub fn insert(&mut self, key: NodeKey, value: V)
        ensures
            final(self)@ == old(self)@.insert(key, value),
    {
        self.map.insert(key.id, value);
        assert(self@ =~= old(self)@.insert(key, value));
    }

    pub fn remove(&mut self, key: NodeKey) -> (r: Option<V>)
        ensures
            final(self)@ == old(self)@.remove(key),
            r is Some <==> old(self)@.contains_key(key),
            r matches Some(v) ==> v == old(self)@[key],
    {
        let r = self.map.remove(&key.id);
        assert(self@ =~= old(self)@.remove(key));
        r
    }
}

} // verus!
