//! The table of resting orders, by id.
use crate::types::Order;
use std::collections::BTreeMap;
use vstd::prelude::*;

verus! {

broadcast use {vstd::laws_cmp::group_laws_cmp, vstd::std_specs::btree::group_btree_axioms};

/// The resting orders of a book, each under its id.
#[derive(Debug)]
pub struct OrderTable {
    rows: BTreeMap<u64, Order>,
}

impl View for OrderTable {
    type V = Map<u64, Order>;

    closed spec fn view(&self) -> Map<u64, Order> {
        self.rows@
    }
}

impl OrderTable {
    /// A table without orders.
    pub fn new() -> (table: Self)
        ensures
            table@ == Map::<u64, Order>::empty(),
    {
        OrderTable { rows: BTreeMap::new() }
    }

    /// The order stored under `id`, if there is one.
    pub fn get(&self, id: u64) -> (found: Option<Order>)
        ensures
            found == if self@.contains_key(id) {
                Some(self@[id])
            } else {
                None
            },
    {
        match self.rows.get(&id) {
            Some(order) => Some(*order),
            None => None,
        }
    }

    /// Stores `order` under `id`, in place of what was there.
    pub fn insert(&mut self, id: u64, order: Order)
        ensures
            final(self)@ == old(self)@.insert(id, order),
    {
        self.rows.insert(id, order);
    }

    /// Drops the order stored under `id`, if there is one.
    pub fn remove(&mut self, id: u64)
        ensures
            final(self)@ == old(self)@.remove(id),
    {
        self.rows.remove(&id);
    }

    /// A copy of the table.
    pub fn snapshot(&self) -> (copy: Self)
        ensures
            copy@ == self@,
    {
        OrderTable { rows: self.rows.clone() }
    }
}

} // verus!
