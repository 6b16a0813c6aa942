//! Per-price book lines and their store.
//!
//! A book line aggregates the orders queued at one price: their remaining
//! unit count, their remaining escrowed value, and the order identifiers in
//! arrival (FIFO) order. The store keeps the lines sorted by price, highest
//! first, mirroring the price index.

use vstd::prelude::*;
use crate::order::Order;
use crate::price_index::strictly_descending;
use crate::sums::{ids_qty_sum, ids_total_sum};

verus! {

/// The aggregate state of one price level.
#[derive(Debug, Clone, PartialEq, Eq)]
pub struct OrderbookLine {
    pub level_price: u128,
    pub level_qty: u128,
    pub level_total: u128,
    pub level_orders: Vec<usize>,
}

/// Entry `k` of `line` names a live ledger order at the line's price.
pub open spec fn line_entry_ok(line: OrderbookLine, ledger: Seq<Option<Order>>, k: int) -> bool {
    let id = line.level_orders@[k];
    &&& id < ledger.len()
    &&& ledger[id as int] is Some
    &&& ledger[id as int]->Some_0.order_id == id
    &&& ledger[id as int]->Some_0.order_price == line.level_price
    &&& ledger[id as int]->Some_0.wf()
}

/// A book line is consistent with the ledger: each queued identifier names
/// a live order at this price, and the two aggregates equal the sums over
/// the queued orders. The line may be momentarily empty in the middle of a
/// fill, before it is retired.
pub open spec fn line_wf_loose(line: OrderbookLine, ledger: Seq<Option<Order>>) -> bool {
    &&& line.level_price >= 1
    &&& line.level_qty == ids_qty_sum(line.level_orders@, ledger)
    &&& line.level_total == ids_total_sum(line.level_orders@, ledger)
    &&& forall|k: int| 0 <= k < line.level_orders@.len() ==> #[trigger] line_entry_ok(line, ledger, k)
}

/// A settled book line: consistent with the ledger and queueing at least
/// one order. A line is empty exactly when it is eligible for retirement,
/// and retirement happens within the same operation.
pub open spec fn line_wf(line: OrderbookLine, ledger: Seq<Option<Order>>) -> bool {
    &&& line_wf_loose(line, ledger)
    &&& line.level_orders@.len() >= 1
}

/// No order identifier is queued twice, neither within one line nor across
/// two lines.
pub open spec fn ids_distinct(s: Seq<OrderbookLine>) -> bool {
    forall|m1: int, k1: int, m2: int, k2: int|
        #![trigger s[m1].level_orders@[k1], s[m2].level_orders@[k2]]
        0 <= m1 < s.len() && 0 <= k1 < s[m1].level_orders@.len() && 0 <= m2 < s.len() && 0 <= k2
            < s[m2].level_orders@.len() && (m1 != m2 || k1 != k2) ==> s[m1].level_orders@[k1]
            != s[m2].level_orders@[k2]
}

/// A line's consistency only reads the ledger slots of its own queued
/// orders: a ledger change that leaves those slots alone leaves the line
/// consistent, with unchanged aggregates.
pub proof fn lemma_line_stable(
    line: OrderbookLine,
    led0: Seq<Option<Order>>,
    led1: Seq<Option<Order>>,
)
    requires
        forall|k: int|
            0 <= k < line.level_orders@.len() ==> #[trigger] line_entry_ok(line, led0, k),
        forall|k: int|
            0 <= k < line.level_orders@.len() ==> {
                let id = #[trigger] line.level_orders@[k];
                id < led1.len() && led1[id as int] == led0[id as int]
            },
    ensures
        ids_qty_sum(line.level_orders@, led1) == ids_qty_sum(line.level_orders@, led0),
        ids_total_sum(line.level_orders@, led1) == ids_total_sum(line.level_orders@, led0),
        forall|k: int|
            0 <= k < line.level_orders@.len() ==> #[trigger] line_entry_ok(line, led1, k),
        line_wf_loose(line, led0) ==> line_wf_loose(line, led1),
        line_wf(line, led0) ==> line_wf(line, led1),
{
    assert forall|k: int| 0 <= k < line.level_orders@.len() implies crate::sums::qty_at(
        led0,
        line.level_orders@[k],
    ) == crate::sums::qty_at(led1, line.level_orders@[k]) && crate::sums::total_at(
        led0,
        line.level_orders@[k],
    ) == crate::sums::total_at(led1, line.level_orders@[k]) by {
        assert(line_entry_ok(line, led0, k));
    }
    crate::sums::lemma_ids_sums_untouched(line.level_orders@, led0, led1);
    assert forall|k: int| 0 <= k < line.level_orders@.len() implies #[trigger] line_entry_ok(
        line,
        led1,
        k,
    ) by {
        assert(line_entry_ok(line, led0, k));
    }
}

/// The price of each line, in store order.
pub open spec fn line_prices(s: Seq<OrderbookLine>) -> Seq<u128> {
    Seq::new(s.len(), |i: int| s[i].level_price)
}

/// The keyed store of book lines, one per queued price, highest first.
pub struct LineStore {
    pub lines: Vec<OrderbookLine>,
}

impl LineStore {
    pub open spec fn view(&self) -> Seq<OrderbookLine> {
        self.lines@
    }

    /// An empty store.
    pub fn new() -> (r: LineStore)
        ensures
            r@ =~= Seq::<OrderbookLine>::empty(),
    {
        LineStore { lines: Vec::new() }
    }

    /// The position of the line at `price`, if the store has one.
    pub fn find(&self, price: u128) -> (r: Option<usize>)
        ensures
            match r {
                Some(i) => i < self@.len() && self@[i as int].level_price == price,
                None => forall|i: int| 0 <= i < self@.len() ==> self@[i].level_price != price,
            },
    {
        let mut i: usize = 0;
        while i < self.lines.len()
            invariant
                0 <= i <= self.lines.len(),
                forall|j: int| 0 <= j < i ==> self@[j].level_price != price,
            decreases self.lines.len() - i,
        {
            if self.lines[i].level_price == price {
                return Some(i);
            }
            i += 1;
        }
        None
    }

    /// Insert a new line for a price not yet present, keeping the price
    /// order; returns the position at which it now stands.
    pub fn insert_sorted(&mut self, line: OrderbookLine) -> (pos: usize)
        requires
            strictly_descending(line_prices(old(self)@)),
            forall|i: int|
                0 <= i < old(self)@.len() ==> old(self)@[i].level_price != line.level_price,
        ensures
            0 <= pos <= old(self)@.len(),
            final(self)@ =~= old(self)@.insert(pos as int, line),
            forall|j: int| 0 <= j < pos ==> old(self)@[j].level_price > line.level_price,
            forall|j: int|
                pos <= j < old(self)@.len() ==> old(self)@[j].level_price < line.level_price,
    {
        let price = line.level_price;
        let mut i: usize = 0;
        while i < self.lines.len() && self.lines[i].level_price > price
            invariant
                0 <= i <= self.lines.len(),
                forall|j: int| 0 <= j < i ==> self@[j].level_price > price,
                self@ == old(self)@,
                price == line.level_price,
            decreases self.lines.len() - i,
        {
            i += 1;
        }
        proof {
            let s0 = self@;
            let ps = line_prices(s0);
            if i < s0.len() {
                assert(ps[i as int] == s0[i as int].level_price);
                assert(s0[i as int].level_price < price);
            }
            assert forall|j: int| i <= j < s0.len() implies s0[j].level_price < price by {
                if j > i {
                    assert(ps[i as int] > ps[j]);
                    assert(ps[j] == s0[j].level_price);
                }
            }
        }
        self.lines.insert(i, line);
        i
    }

    /// Append an order to the line at position `pos` and grow its
    /// aggregates.
    pub fn append_order(&mut self, pos: usize, id: usize, qty_add: u128, total_add: u128)
        requires
            pos < old(self)@.len(),
            old(self)@[pos as int].level_qty + qty_add <= u128::MAX,
            old(self)@[pos as int].level_total + total_add <= u128::MAX,
        ensures
            final(self)@.len() == old(self)@.len(),
            forall|j: int|
                0 <= j < old(self)@.len() && j != pos ==> final(self)@[j] == old(self)@[j],
            final(self)@[pos as int].level_price == old(self)@[pos as int].level_price,
            final(self)@[pos as int].level_qty == old(self)@[pos as int].level_qty + qty_add,
            final(self)@[pos as int].level_total == old(self)@[pos as int].level_total
                + total_add,
            final(self)@[pos as int].level_orders@ =~= old(
                self,
            )@[pos as int].level_orders@.push(id),
    {
        let mut line = self.lines.remove(pos);
        line.level_qty = line.level_qty + qty_add;
        line.level_total = line.level_total + total_add;
        line.level_orders.push(id);
        self.lines.insert(pos, line);
    }

    /// Drop the first queued order of the line at position `pos` and shrink
    /// its aggregates: the order was fully consumed.
    pub fn pop_front_order(&mut self, pos: usize, qty_sub: u128, total_sub: u128)
        requires
            pos < old(self)@.len(),
            old(self)@[pos as int].level_orders@.len() >= 1,
            qty_sub <= old(self)@[pos as int].level_qty,
            total_sub <= old(self)@[pos as int].level_total,
        ensures
            final(self)@.len() == old(self)@.len(),
            forall|j: int|
                0 <= j < old(self)@.len() && j != pos ==> final(self)@[j] == old(self)@[j],
            final(self)@[pos as int].level_price == old(self)@[pos as int].level_price,
            final(self)@[pos as int].level_qty == old(self)@[pos as int].level_qty - qty_sub,
            final(self)@[pos as int].level_total == old(self)@[pos as int].level_total
                - total_sub,
            final(self)@[pos as int].level_orders@ =~= old(
                self,
            )@[pos as int].level_orders@.drop_first(),
    {
        let mut line = self.lines.remove(pos);
        line.level_qty = line.level_qty - qty_sub;
        line.level_total = line.level_total - total_sub;
        let _ = line.level_orders.remove(0);
        self.lines.insert(pos, line);
        proof {
            assert(self@[pos as int].level_orders@ =~= old(
                self,
            )@[pos as int].level_orders@.drop_first());
        }
    }

    /// Shrink the aggregates of the line at position `pos` without removing
    /// its first order: that order was only partially consumed.
    pub fn reduce_front_order(&mut self, pos: usize, qty_sub: u128, total_sub: u128)
        requires
            pos < old(self)@.len(),
            qty_sub <= old(self)@[pos as int].level_qty,
            total_sub <= old(self)@[pos as int].level_total,
        ensures
            final(self)@.len() == old(self)@.len(),
            forall|j: int|
                0 <= j < old(self)@.len() && j != pos ==> final(self)@[j] == old(self)@[j],
            final(self)@[pos as int].level_price == old(self)@[pos as int].level_price,
            final(self)@[pos as int].level_qty == old(self)@[pos as int].level_qty - qty_sub,
            final(self)@[pos as int].level_total == old(self)@[pos as int].level_total
                - total_sub,
            final(self)@[pos as int].level_orders@ =~= old(self)@[pos as int].level_orders@,
    {
        let mut line = self.lines.remove(pos);
        line.level_qty = line.level_qty - qty_sub;
        line.level_total = line.level_total - total_sub;
        self.lines.insert(pos, line);
    }

    /// Retire the first (highest-priced) line.
    pub fn remove_front(&mut self)
        requires
            old(self)@.len() >= 1,
        ensures
            final(self)@ =~= old(self)@.drop_first(),
    {
        let _ = self.lines.remove(0);
        proof {
            assert(self@ =~= old(self)@.drop_first());
        }
    }
}

} // verus!
