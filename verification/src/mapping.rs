//! A hash map that keeps count of its keys.

use std::collections::HashMap;
use std::hash::Hash;
use vstd::prelude::*;
use vstd::std_specs::hash::obeys_key_model;

verus! {

/// A map from keys to values together with the number of keys it holds.
///
/// The fields are public; a value is *well formed* ([`IterableMapping::wf`])
/// when `total` is the number of keys of `map`. [`IterableMapping::new`] and
/// [`IterableMapping::put`] keep it so.
///
/// What the methods promise rests on the model that `vstd` gives of
/// `HashMap`, which asks of the key type that equal keys hash alike and that
/// `==` on it is equality (`obeys_key_model`); the primitive integers are
/// such types.
pub struct IterableMapping<T, K> {
    pub map: HashMap<T, K>,
    pub total: usize,
}

impl<T, K> View for IterableMapping<T, K> {
    type V = Map<T, K>;

    /// The mapping as a mathematical map: the contents of `map`.
    open spec fn view(&self) -> Map<T, K> {
        self.map@
    }
}

impl<T: Eq + Hash + Copy, K> IterableMapping<T, K> {
    /// `total` counts the keys of `map`.
    pub open spec fn wf(&self) -> bool {
        self.total == self@.dom().len()
    }

    /// The empty mapping.
    pub fn new() -> (result: Self)
        ensures
            result.wf(),
            result@ == Map::<T, K>::empty(),
            result.total == 0,
    {
        IterableMapping { map: HashMap::new(), total: 0 }
    }

    /// Binds `key` to `value` unless `key` is bound already; a key that is
    /// present keeps its value, and the count grows only with a new key.
    pub fn put(self, key: T, value: K) -> (result: Self)
        requires
            obeys_key_model::<T>(),
            self.wf(),
        ensures
            result.wf(),
            self@.contains_key(key) ==> result@ == self@ && result.total == self.total,
            !self@.contains_key(key) ==> result@ == self@.insert(key, value) && result.total
                == self.total + 1,
    {
        let mut this = self;
        if this.at(key).is_none() {
            this.map.insert(key, value);
            proof {
                assert(this.map.len() == this.map@.len());
            }
            this.total = this.total + 1;
        }
        this
    }

    /// The value bound to `key`, if there is one.
    pub fn at(&self, key: T) -> (result: Option<&K>)
        requires
            obeys_key_model::<T>(),
        ensures
            match result {
                Some(value) => self@.contains_key(key) && *value == self@[key],
                None => !self@.contains_key(key),
            },
    {
        self.map.get(&key)
    }
}

} // verus!
