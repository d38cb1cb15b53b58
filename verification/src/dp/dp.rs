//! A memo table for hand-written dynamic programs.

use std::collections::HashMap;
use vstd::prelude::*;
use vstd::std_specs::hash::obeys_key_model;

verus! {

/// A value of a dynamic program, boxed in a struct.
#[derive(Clone)]
pub struct DpValue<V> {
    pub value: V,
}

/// A table from keys to values; a key may be bound to nothing yet.
pub struct DpTable<K, V> {
    pub table: HashMap<K, Option<V>>,
}

/// What a memo table offers.
pub trait DP<K, V> {
    /// The values that the table holds, by key.
    spec fn bindings(&self) -> Map<K, V>;

    /// The value under `key`, if the table holds one.
    fn get(&self, key: &K) -> (r: Option<&V>)
        requires
            obeys_key_model::<K>(),
        ensures
            match r {
                Some(v) => self.bindings().contains_key(*key) && self.bindings()[*key] == *v,
                None => !self.bindings().contains_key(*key),
            },
    ;

    /// Binds `key` to `value`.
    fn set(&mut self, key: K, value: V)
        requires
            obeys_key_model::<K>(),
        ensures
            final(self).bindings() == old(self).bindings().insert(key, value),
    ;
}

impl<K, V> Default for DpTable<K, V> where K: std::hash::Hash + Eq {
    fn default() -> (r: Self)
        ensures
            r.table@ == Map::<K, Option<V>>::empty(),
    {
        Self { table: HashMap::new() }
    }
}

impl<K, V> DP<K, V> for DpTable<K, V> where K: std::hash::Hash + Eq + Clone, V: Clone {
    open spec fn bindings(&self) -> Map<K, V> {
        Map::new(
            |k: K| self.table@.contains_key(k) && self.table@[k] is Some,
            |k: K| self.table@[k]->0,
        )
    }

    fn get(&self, key: &K) -> (r: Option<&V>) {
        match self.table.get(key) {
            Some(slot) => slot.as_ref(),
            None => None,
        }
    }

    fn set(&mut self, key: K, value: V) {
        self.table.insert(key, Some(value));
        assert(self.bindings() =~= old(self).bindings().insert(key, value));
    }
}

} // verus!
