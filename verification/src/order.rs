//! Order records and the receipt handed to a bidder.

use vstd::prelude::*;

verus! {

/// Lifecycle state of an order. It only ever advances
/// `OPEN -> PARTIAL -> FILLED` or `OPEN -> FILLED`, never backward.
#[derive(Clone, Copy, Debug, PartialEq, Eq)]
pub enum OrderStatus {
    FILLED,
    PARTIAL,
    OPEN,
}

/// A standing bid: a fixed quantity of inventory units wanted at a fixed
/// price per unit, backed by escrowed collateral.
///
/// `order_qty` is the remaining whole number of units; `order_total` is the
/// collateral still escrowed for them, in subunits. The pair
/// `(order_time, order_sequence)` is the arrival tie-break key among orders
/// at the same price.
#[derive(Clone, Copy, Debug, PartialEq, Eq)]
pub struct Order {
    pub order_id: usize,
    pub order_qty: u128,
    pub order_price: u128,
    pub order_total: u128,
    pub order_time: i64,
    pub order_sequence: u64,
    pub order_status: OrderStatus,
}

/// The token returned by `place_bid`: the bidder's record of the order as it
/// was created.
#[derive(Clone, Copy, Debug, PartialEq, Eq)]
pub struct OrderReceipt {
    pub order_id: usize,
    pub order_qty: u128,
    pub order_price: u128,
    pub order_total: u128,
    pub order_time: i64,
    pub order_sequence: u64,
    pub order_status: OrderStatus,
}

impl Order {
    /// A ledger order is live: positive remaining quantity at a positive
    /// price, enough escrow for the remainder, and not yet fully filled.
    pub open spec fn wf(self) -> bool {
        &&& self.order_qty >= 1
        &&& self.order_price >= 1
        &&& self.order_qty * self.order_price <= self.order_total
        &&& (self.order_status is OPEN || self.order_status is PARTIAL)
    }
}

} // verus!
