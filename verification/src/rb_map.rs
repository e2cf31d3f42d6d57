//! A persistent map, stored as a red-black tree of key-value pairs
//! ordered by key.

use crate::rb_tree::{spec_contains, spec_get, spec_inserted, spec_inserted_or_replaced, RBTree,
    SpecTree};
use vstd::pervasive::cloned;
use vstd::prelude::*;
use vstd::std_specs::cmp::{PartialEqSpec, PartialOrdSpec};

verus! {

/// A key together with its value; ordering and equality consult the
/// key alone.
#[derive(Debug)]
pub struct KeyValue<K, V>(pub K, pub V);

impl<K, V> KeyValue<K, V> {
    /// The key.
    pub open spec fn key(self) -> K {
        self.0
    }

    /// The value.
    pub open spec fn value(self) -> V {
        self.1
    }
}

impl<K: Clone, V: Clone> Clone for KeyValue<K, V> {
    /// Clones both components.
    fn clone(&self) -> (r: Self)
        ensures
            cloned::<K>(self.0, r.0),
            cloned::<V>(self.1, r.1),
    {
        KeyValue(self.0.clone(), self.1.clone())
    }
}

impl<K: PartialEqSpec, V> PartialEq for KeyValue<K, V> {
    /// Pairs are equal when their keys are.
    fn eq(&self, other: &Self) -> (r: bool) {
        self.0 == other.0
    }
}

impl<K: PartialEqSpec, V> vstd::std_specs::cmp::PartialEqSpecImpl for KeyValue<K, V> {
    open spec fn obeys_eq_spec() -> bool {
        K::obeys_eq_spec()
    }

    open spec fn eq_spec(&self, other: &Self) -> bool {
        self.0.eq_spec(&other.0)
    }
}

impl<K: PartialEqSpec + PartialOrdSpec, V> PartialOrd for KeyValue<K, V> {
    /// Pairs are ordered by their keys.
    fn partial_cmp(&self, other: &Self) -> (r: Option<core::cmp::Ordering>) {
        self.0.partial_cmp(&other.0)
    }
}

impl<K: PartialEqSpec + PartialOrdSpec, V> vstd::std_specs::cmp::PartialOrdSpecImpl for KeyValue<K, V> {
    open spec fn obeys_partial_cmp_spec() -> bool {
        K::obeys_partial_cmp_spec()
    }

    open spec fn partial_cmp_spec(&self, other: &Self) -> Option<core::cmp::Ordering> {
        self.0.partial_cmp_spec(&other.0)
    }
}

impl<K: PartialEqSpec, V> PartialEq<K> for KeyValue<K, V> {
    /// A pair equals a bare key when its own key does.
    fn eq(&self, other: &K) -> (r: bool) {
        self.0 == *other
    }
}

impl<K: PartialEqSpec, V> vstd::std_specs::cmp::PartialEqSpecImpl<K> for KeyValue<K, V> {
    open spec fn obeys_eq_spec() -> bool {
        K::obeys_eq_spec()
    }

    open spec fn eq_spec(&self, other: &K) -> bool {
        self.0.eq_spec(other)
    }
}

impl<K: PartialEqSpec + PartialOrdSpec, V> PartialOrd<K> for KeyValue<K, V> {
    /// A pair compares against a bare key by its own key.
    fn partial_cmp(&self, other: &K) -> (r: Option<core::cmp::Ordering>) {
        self.0.partial_cmp(other)
    }
}

impl<K: PartialEqSpec + PartialOrdSpec, V> vstd::std_specs::cmp::PartialOrdSpecImpl<K> for KeyValue<K, V> {
    open spec fn obeys_partial_cmp_spec() -> bool {
        K::obeys_partial_cmp_spec()
    }

    open spec fn partial_cmp_spec(&self, other: &K) -> Option<core::cmp::Ordering> {
        self.0.partial_cmp_spec(other)
    }
}

/// A persistent key-value map over a red-black tree.
#[derive(Debug)]
pub struct RBMap<K, V>(RBTree<KeyValue<K, V>>);

impl<K, V> View for RBMap<K, V> {
    type V = SpecTree<KeyValue<K, V>>;

    closed spec fn view(&self) -> SpecTree<KeyValue<K, V>> {
        self.0@
    }
}

impl<K, V> Clone for RBMap<K, V> {
    /// Cloning shares the whole structure, so the model is unchanged.
    fn clone(&self) -> (r: Self)
        ensures
            r@ == self@,
    {
        RBMap(self.0.clone())
    }
}

impl<K: PartialEqSpec + PartialOrdSpec, V> RBMap<K, V> {
    /// The empty map.
    pub fn new() -> (r: Self)
        ensures
            r@ == SpecTree::<KeyValue<K, V>>::Leaf,
    {
        RBMap(RBTree::new())
    }

    /// Whether the map has no entries.
    pub fn is_empty(&self) -> (r: bool)
        ensures
            r == (self@ is Leaf),
    {
        self.0.is_empty()
    }

    /// Whether some entry has this key.
    pub fn contains_key(&self, k: &K) -> (r: bool)
        ensures
            K::obeys_partial_cmp_spec() ==> r == spec_contains(self@, *k),
    {
        self.0.contains(k)
    }

    /// The map with the entry `k -> v` added; an entry whose key is
    /// already present is left in place.
    pub fn inserted(&self, k: K, v: V) -> (r: Self)
        ensures
            K::obeys_partial_cmp_spec() ==> r@ == spec_inserted(self@, KeyValue(k, v)),
    {
        RBMap(self.0.inserted(KeyValue(k, v)))
    }

    /// The map with the entry `k -> v` added, replacing an entry whose
    /// key is already present.
    pub fn inserted_or_replaced(&self, k: K, v: V) -> (r: Self)
        ensures
            K::obeys_partial_cmp_spec() ==> r@ == spec_inserted_or_replaced(
                self@,
                KeyValue(k, v),
            ),
    {
        RBMap(self.0.inserted_or_replaced(KeyValue(k, v)))
    }

    /// The value stored under `k`, if any.
    pub fn get<'a>(&'a self, k: &K) -> (r: Option<&'a V>)
        ensures
            K::obeys_partial_cmp_spec() ==> match spec_get(self@, *k) {
                None => r is None,
                Some(kv) => r matches Some(rv) && *rv == kv.value(),
            },
    {
        match self.0.get(k) {
            None => None,
            Some(kv) => Some(&kv.1),
        }
    }

    /// The value stored under `k`, or `default` when the key is absent.
    pub fn get_or_default<'a>(&'a self, k: &K, default: &'a V) -> (r: &'a V)
        ensures
            K::obeys_partial_cmp_spec() ==> match spec_get(self@, *k) {
                None => r == default,
                Some(kv) => *r == kv.value(),
            },
    {
        match self.0.get(k) {
            None => default,
            Some(kv) => &kv.1,
        }
    }

    /// The stored key and value for `k`, if any.
    pub fn get_key_value<'a>(&'a self, k: &K) -> (r: Option<(&'a K, &'a V)>)
        ensures
            K::obeys_partial_cmp_spec() ==> match spec_get(self@, *k) {
                None => r is None,
                Some(kv) => r matches Some(p) && *p.0 == kv.key() && *p.1 == kv.value(),
            },
    {
        match self.0.get(k) {
            None => None,
            Some(kv) => Some((&kv.0, &kv.1)),
        }
    }
}

} // verus!
