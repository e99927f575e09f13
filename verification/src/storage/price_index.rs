//! One side of the book as an ordered index from priority key to order id.
use std::collections::BTreeMap;
use vstd::prelude::*;

verus! {

broadcast use {vstd::laws_cmp::group_laws_cmp, vstd::std_specs::btree::group_btree_axioms};

/// A priority key: price key, arrival time, order id. The entry with the
/// least key is the best order of its side.
pub type PriceKey = (u128, u64, u64);

/// The order of priority keys: by price key, then arrival time, then id.
pub open spec fn key_le(a: PriceKey, b: PriceKey) -> bool {
    a.0 < b.0 || (a.0 == b.0 && (a.1 < b.1 || (a.1 == b.1 && a.2 <= b.2)))
}

/// `BTreeMap::first_key_value`, which returns the entry whose key is the
/// minimum of the map, or nothing for an empty map. Keys are tuples of
/// integers, which std orders lexicographically; `key_le` spells that order
/// out.
#[verifier::external_body]
fn first_entry(entries: &BTreeMap<(u128, u64, u64), u64>) -> (first: Option<
    ((u128, u64, u64), u64),
>)
    ensures
        match first {
            None => entries@ == Map::<(u128, u64, u64), u64>::empty(),
            Some((key, id)) => {
                &&& entries@.contains_key(key)
                &&& entries@[key] == id
                &&& forall|other: (u128, u64, u64)|
                    entries@.contains_key(other) ==> key_le(key, other)
            },
        },
{
    match entries.first_key_value() {
        Some((key, id)) => Some((*key, *id)),
        None => None,
    }
}

/// An ordered index from priority key to order id.
#[derive(Debug)]
pub struct PriceIndex {
    entries: BTreeMap<(u128, u64, u64), u64>,
}

impl View for PriceIndex {
    type V = Map<PriceKey, u64>;

    closed spec fn view(&self) -> Map<PriceKey, u64> {
        self.entries@
    }
}

impl PriceIndex {
    /// An index without entries.
    pub fn new() -> (index: Self)
        ensures
            index@ == Map::<PriceKey, u64>::empty(),
    {
        PriceIndex { entries: BTreeMap::new() }
    }

    /// Files `id` under `key`.
    pub fn insert(&mut self, key: PriceKey, id: u64)
        ensures
            final(self)@ == old(self)@.insert(key, id),
    {
        self.entries.insert(key, id);
    }

    /// Drops the entry of `key`, if there is one.
    pub fn remove(&mut self, key: PriceKey)
        ensures
            final(self)@ == old(self)@.remove(key),
    {
        self.entries.remove(&key);
    }

    /// The entry with the least key, if the index is not empty.
    pub fn first(&self) -> (first: Option<(PriceKey, u64)>)
        ensures
            match first {
                None => self@ == Map::<PriceKey, u64>::empty(),
                Some((key, id)) => {
                    &&& self@.contains_key(key)
                    &&& self@[key] == id
                    &&& forall|other: PriceKey| self@.contains_key(other) ==> key_le(key, other)
                },
            },
    {
        first_entry(&self.entries)
    }

    /// An index has finitely many entries.
    pub proof fn lemma_finite(&self)
        ensures
            self@.dom().finite(),
    {
    }

    /// A copy of the index.
    pub fn snapshot(&self) -> (copy: Self)
        ensures
            copy@ == self@,
    {
        PriceIndex { entries: self.entries.clone() }
    }
}

} // verus!
