//! The table of routes: an `IndexMap` and what it holds.
//!
//! Everything in this file is believed, not proved: each function makes one
//! call into `indexmap`, and its contract says what that call does to the
//! table's contents. The contents are a ghost value beside the map, which
//! these functions alone set: the fields are private to this file.

use indexmap::IndexMap;
use std::hash::Hash;
use vstd::prelude::*;
use vstd::std_specs::hash::obeys_key_model;

verus! {

/// `indexmap::IndexMap`, as an opaque type.
#[verifier::external_type_specification]
#[verifier::external_body]
#[verifier::reject_recursive_types(K)]
#[verifier::reject_recursive_types(V)]
#[verifier::reject_recursive_types(S)]
pub struct ExIndexMap<K, V, S>(IndexMap<K, V, S>);

/// A table of values by key; its view is the map that it holds.
#[verifier::reject_recursive_types(K)]
#[verifier::reject_recursive_types(V)]
pub struct RouteMap<K, V> {
    map: IndexMap<K, V>,
    contents: Ghost<Map<K, V>>,
}

impl<K, V> View for RouteMap<K, V> {
    type V = Map<K, V>;

    closed spec fn view(&self) -> Map<K, V> {
        self.contents@
    }
}

impl<K, V> RouteMap<K, V> {
    /// `IndexMap::default`: a table that holds nothing.
    #[verifier::external_body]
    pub(crate) fn new() -> (r: RouteMap<K, V>)
        ensures
            (r@ == Map::<K, V>::empty()),
    {
        RouteMap { map: IndexMap::default(), contents: Ghost(Map::empty()) }
    }

    /// `IndexMap::len`: how many keys the table holds.
    #[verifier::external_body]
    pub(crate) fn len(&self) -> (n: usize)
        ensures
            n == self@.len(),
    {
        self.map.len()
    }
}

impl<K: Eq + Hash, V> RouteMap<K, V> {
    /// `IndexMap::get`: the value stored for `key`, or `None` where there is
    /// none.
    #[verifier::external_body]
    pub(crate) fn get(&self, key: &K) -> (r: Option<&V>)
        requires
            obeys_key_model::<K>(),
        ensures
            match r {
                Some(v) => self@.contains_key(*key) && *v == self@[*key],
                None => !self@.contains_key(*key),
            },
    {
        self.map.get(key)
    }

    /// `IndexMap::get_mut`: the place of the value stored for `key`, or `None`
    /// where there is none. What is written through it is then stored for
    /// `key`; nothing else in the table changes.
    #[verifier::external_body]
    pub(crate) fn get_mut(&mut self, key: &K) -> (r: Option<&mut V>)
        requires
            obeys_key_model::<K>(),
        ensures
            match r {
                Some(v) => {
                    &&& old(self)@.contains_key(*key)
                    &&& *v == old(self)@[*key]
                    &&& final(self)@ == old(self)@.insert(*key, *final(v))
                },
                None => !old(self)@.contains_key(*key) && final(self)@ == old(self)@,
            },
    {
        self.map.get_mut(key)
    }

    /// `IndexMap::insert`: stores `value` for `key` and returns the value that
    /// was stored for it before, if any.
    #[verifier::external_body]
    pub(crate) fn insert(&mut self, key: K, value: V) -> (r: Option<V>)
        requires
            obeys_key_model::<K>(),
        ensures
            final(self)@ == old(self)@.insert(key, value),
            match r {
                Some(v) => old(self)@.contains_key(key) && v == old(self)@[key],
                None => !old(self)@.contains_key(key),
            },
    {
        self.map.insert(key, value)
    }

    /// `IndexMap::remove`: takes out `key` and the value stored for it, and
    /// returns that value; changes nothing where the table has no such key.
    #[verifier::external_body]
    pub(crate) fn remove(&mut self, key: &K) -> (r: Option<V>)
        requires
            obeys_key_model::<K>(),
        ensures
            final(self)@ == old(self)@.remove(*key),
            match r {
                Some(v) => old(self)@.contains_key(*key) && v == old(self)@[*key],
                None => !old(self)@.contains_key(*key),
            },
    {
        self.map.remove(key)
    }
}

} // verus!
