//! Two small state-based CRDTs: a last-writer-wins register and an observed-remove set.

use vstd::prelude::*;
use std::collections::HashMap;
use vstd::std_specs::hash::{obeys_key_model, spec_keys_iter};
use vstd::std_specs::iter::IteratorSpec;

verus! {

/// Kinds of replicated data types.
#[derive(Clone, Copy, Debug, PartialEq, Eq, Structural)]
pub enum CrdtType {
    OrSet,
    LwwRegister,
    Rga,
}

/// Why a delta could not be merged.
#[derive(Clone, Copy, Debug, PartialEq, Eq, Structural)]
pub enum CrdtError {
    IncompatibleDelta,
}

/// A replicated type that exchanges deltas.
pub trait DeltaCrdt {
    type Delta;

    /// Merges a delta into this replica.
    fn merge(&mut self, delta: Self::Delta) -> Result<(), CrdtError>;

    /// The changes since `since_version`, if any.
    fn delta(&self, since_version: u64) -> Option<Self::Delta>;
}

/// A register whose value is the one written with the greatest timestamp.
#[derive(Clone, Debug)]
pub struct LwwRegister<T> {
    value: T,
    timestamp: u64,
}

impl<T: Clone> LwwRegister<T> {
    pub closed spec fn spec_value(&self) -> T {
        self.value
    }

    pub closed spec fn spec_timestamp(&self) -> u64 {
        self.timestamp
    }

    /// A register holding `value` at timestamp 0.
    pub fn new(value: T) -> (r: LwwRegister<T>)
        ensures
            r.spec_value() == value,
            r.spec_timestamp() == 0,
    {
        LwwRegister { value, timestamp: 0 }
    }

    /// Writes `value` if `timestamp` is newer than the current one.
    pub fn set(&mut self, value: T, timestamp: u64)
        ensures
            timestamp > old(self).spec_timestamp() ==> final(self).spec_value() == value
                && final(self).spec_timestamp() == timestamp,
            timestamp <= old(self).spec_timestamp() ==> *final(self) == *old(self),
    {
        if timestamp > self.timestamp {
            self.value = value;
            self.timestamp = timestamp;
        }
    }

    /// The current value.
    pub fn get(&self) -> (r: &T)
        ensures
            *r == self.spec_value(),
    {
        &self.value
    }
}

/// An observed-remove set: each present element carries the tag it was added with.
#[derive(Clone, Debug)]
pub struct OrSet<T: std::hash::Hash + Eq + Clone> {
    elements: HashMap<T, u64>,
}

impl<T: std::hash::Hash + Eq + Clone> OrSet<T> {
    /// The present elements with their tags.
    pub closed spec fn view(&self) -> Map<T, u64> {
        self.elements@
    }

    /// An empty set.
    pub fn new() -> (r: OrSet<T>)
        ensures
            r@ == Map::<T, u64>::empty(),
    {
        OrSet { elements: HashMap::new() }
    }

    /// Adds `element` with the unique tag `tag`.
    pub fn add(&mut self, element: T, tag: u64)
        ensures
            obeys_key_model::<T>() ==> final(self)@ == old(self)@.insert(element, tag),
    {
        self.elements.insert(element, tag);
    }

    /// Removes `element`.
    pub fn remove(&mut self, element: &T)
        ensures
            obeys_key_model::<T>() ==> final(self)@ == old(self)@.remove(*element),
    {
        self.elements.remove(element);
    }

    /// Whether `element` is present.
    pub fn contains(&self, element: &T) -> (r: bool)
        ensures
            obeys_key_model::<T>() ==> r == self@.contains_key(*element),
    {
        self.elements.contains_key(element)
    }

    /// Every present element, each once.
    pub fn elements(&self) -> (r: Vec<&T>)
        requires
            obeys_key_model::<T>(),
        ensures
            r@.len() == self@.len(),
            forall|x: T| self@.contains_key(x) <==> exists|i: int| 0 <= i < r@.len() && *r@[i] == x,
    {
        let mut r: Vec<&T> = Vec::new();
        let ghost keys = spec_keys_iter(&self.elements).remaining();
        proof {
            assert forall|x: T| self@.contains_key(x) <==> exists|i: int| 0 <= i < keys.len() && *keys[i] == x by {
                if self@.contains_key(x) {
                    assert(keys.unref().to_set().contains(x));
                    let i = choose|i: int| 0 <= i < keys.unref().len() && keys.unref()[i] == x;
                    assert(*keys[i] == x);
                }
                if exists|i: int| 0 <= i < keys.len() && *keys[i] == x {
                    let i = choose|i: int| 0 <= i < keys.len() && *keys[i] == x;
                    assert(keys.unref()[i] == x);
                    assert(keys.unref().to_set().contains(x));
                }
            }
        }
        for k in it: self.elements.keys()
            invariant
                r@ == it.seq().take(it.index()),
                it.seq() == keys,
                keys.len() == self@.len(),
                forall|x: T|
                    self@.contains_key(x) <==> exists|i: int| 0 <= i < keys.len() && *keys[i] == x,
                it.index() == it.seq().len() ==> r@ =~= it.seq(),
        {
            r.push(k);
            assert(it.seq().take(it.index() + 1) =~= it.seq().take(it.index()).push(k));
        }
        r
    }
}

} // verus!
