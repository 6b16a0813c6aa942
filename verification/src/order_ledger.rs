//! The ledger of live orders, keyed by order identifier.
//!
//! Identifiers are handed out densely, in creation order, so the ledger is
//! a vector of slots: a slot holds the live order record, or nothing once
//! the order has been fully filled and removed. Removal is explicit and
//! irreversible; slots are never reused.

use vstd::prelude::*;
use vstd::pervasive::VecAdditionalExecFns;
use crate::order::Order;

verus! {

/// Keyed map from order identifier to order record.
pub struct OrderLedger {
    pub slots: Vec<Option<Order>>,
}

impl OrderLedger {
    pub open spec fn view(&self) -> Seq<Option<Order>> {
        self.slots@
    }

    /// An empty ledger.
    pub fn new() -> (r: OrderLedger)
        ensures
            r@ =~= Seq::<Option<Order>>::empty(),
    {
        OrderLedger { slots: Vec::new() }
    }

    /// How many identifiers have ever been issued.
    pub fn issued(&self) -> (n: usize)
        ensures
            n == self@.len(),
    {
        self.slots.len()
    }

    /// Record a new order under the next fresh identifier.
    pub fn insert(&mut self, order: Order) -> (id: usize)
        ensures
            id == old(self)@.len(),
            final(self)@ =~= old(self)@.push(Some(order)),
    {
        let id = self.slots.len();
        self.slots.push(Some(order));
        id
    }

    /// The record under `id`, if the ledger still holds one.
    pub fn get(&self, id: usize) -> (r: Option<Order>)
        ensures
            r == if id < self@.len() {
                self@[id as int]
            } else {
                None::<Order>
            },
    {
        if id < self.slots.len() {
            self.slots[id]
        } else {
            None
        }
    }

    /// Overwrite the record under a live identifier.
    pub fn set(&mut self, id: usize, order: Order)
        requires
            id < old(self)@.len(),
        ensures
            final(self)@ =~= old(self)@.update(id as int, Some(order)),
    {
        self.slots.set(id, Some(order));
    }

    /// Remove the record under `id`: the order was fully consumed.
    pub fn remove(&mut self, id: usize)
        requires
            id < old(self)@.len(),
        ensures
            final(self)@ =~= old(self)@.update(id as int, None::<Order>),
    {
        self.slots.set(id, None);
    }
}

} // verus!
