//! The matching engine: one bid book over one non-fungible collection.
//!
//! `place_bid` escrows collateral as a standing bid; `fill_bid` consumes an
//! inventory batch against the queued bids, best price first and FIFO
//! within a price level. Each operation either takes effect completely or,
//! on a refused input, leaves the book untouched.

use vstd::prelude::*;
use crate::book_line::{
    ids_distinct, lemma_line_stable, line_entry_ok, line_prices, line_wf, line_wf_loose,
    LineStore, OrderbookLine,
};
use crate::custody::VaultStore;
use crate::errors::SwapError;
use crate::order::{Order, OrderReceipt, OrderStatus};
use crate::order_ledger::OrderLedger;
use crate::price_index::PriceIndex;
use crate::quantity::{derive_quantity, spec_quantity, whole_quantity};
use crate::sums::{
    ids_qty_sum, ids_total_sum, lemma_ids_sums_nonneg, lemma_ids_sums_push,
    lemma_ids_sums_untouched, lemma_seq_sum_push, lemma_seq_sum_update, qty_at, seq_sum, total_at,
};

verus! {

/// One bid book: the ordered price index, the per-price book lines, the
/// order ledger, the two custody stores, the cached price bounds, and the
/// arrival cursor.
pub struct HelloSwap {
    pub price_levels: PriceIndex,
    pub orderbook_lines: LineStore,
    pub orders: OrderLedger,
    pub nft_vaults: VaultStore,
    pub bid_vaults: VaultStore,
    pub highest_bid: Option<u128>,
    pub lowest_bid: Option<u128>,
    pub latest_order: i64,
    pub sequence_number: u64,
    pub collection: u128,
}

impl HelloSwap {
    /// The order ledger, as a map from identifier to live order.
    pub open spec fn ledger(self) -> Seq<Option<Order>> {
        self.orders@
    }

    /// The book lines, highest price first.
    pub open spec fn lines(self) -> Seq<OrderbookLine> {
        self.orderbook_lines@
    }

    /// Each identifier is backed by one ledger slot, one collateral vault
    /// and one inventory vault; a live order owns exactly its remaining
    /// escrow.
    pub open spec fn ledger_links_ok(self) -> bool {
        &&& self.orders@.len() == self.bid_vaults@.len()
        &&& self.orders@.len() == self.nft_vaults@.len()
        &&& forall|id: int|
            0 <= id < self.orders@.len() && (#[trigger] self.orders@[id]) is Some ==> {
                let o = self.orders@[id]->Some_0;
                &&& o.order_id == id
                &&& o.wf()
                &&& self.bid_vaults@[id] == o.order_total
                &&& self.nft_vaults@[id] + o.order_qty <= u128::MAX
            }
    }

    /// The cached bounds name the first and last queued price, and are
    /// absent exactly while the book is empty.
    pub open spec fn bounds_ok(self) -> bool {
        &&& self.lines().len() == 0 <==> self.highest_bid is None
        &&& self.lines().len() == 0 <==> self.lowest_bid is None
        &&& self.lines().len() > 0 ==> self.highest_bid == Some(self.lines()[0].level_price)
            && self.lowest_bid == Some(self.lines()[self.lines().len() - 1].level_price)
    }

    /// The whole book is consistent: the price index and the line store
    /// share one strictly descending key set, every line is consistent with
    /// the ledger, no order is queued twice, custody matches the ledger,
    /// and the cached bounds are the true extremes.
    pub open spec fn wf(self) -> bool {
        &&& self.price_levels.wf()
        &&& self.price_levels@ == line_prices(self.lines())
        &&& forall|m: int|
            0 <= m < self.lines().len() ==> line_wf(#[trigger] self.lines()[m], self.ledger())
        &&& ids_distinct(self.lines())
        &&& self.ledger_links_ok()
        &&& self.bounds_ok()
    }

    /// Open an empty bid book over one non-fungible collection.
    pub fn instantiate_collection_bidbook(collection: u128) -> (book: HelloSwap)
        ensures
            book.wf(),
            book.lines().len() == 0,
            book.ledger().len() == 0,
            book.highest_bid is None,
            book.lowest_bid is None,
            book.latest_order == 0,
            book.sequence_number == 0,
            book.collection == collection,
    {
        let book = HelloSwap {
            price_levels: PriceIndex::new(),
            orderbook_lines: LineStore::new(),
            orders: OrderLedger::new(),
            nft_vaults: VaultStore::new(),
            bid_vaults: VaultStore::new(),
            highest_bid: None,
            lowest_bid: None,
            latest_order: 0,
            sequence_number: 0,
            collection,
        };
        proof {
            assert(book.price_levels@ =~= line_prices(book.lines()));
        }
        book
    }

    /// Whether the ledger still holds an order under `order_id`.
    pub fn has_order(&self, order_id: usize) -> (b: bool)
        ensures
            b == (order_id < self.ledger().len() && self.ledger()[order_id as int] is Some),
    {
        match self.orders.get(order_id) {
            Some(_) => true,
            None => false,
        }
    }

    /// The live order under `order_id`.
    pub fn get_order(&self, order_id: usize) -> (order: Order)
        requires
            order_id < self.ledger().len(),
            self.ledger()[order_id as int] is Some,
        ensures
            order == self.ledger()[order_id as int]->Some_0,
    {
        match self.orders.get(order_id) {
            Some(order) => order,
            None => {
                proof {
                    assert(false);
                }
                Order {
                    order_id: 0,
                    order_qty: 0,
                    order_price: 0,
                    order_total: 0,
                    order_time: 0,
                    order_sequence: 0,
                    order_status: OrderStatus::OPEN,
                }
            },
        }
    }

    /// Drop a fully consumed order from the ledger.
    fn remove_order(&mut self, order_id: usize)
        requires
            order_id < old(self).ledger().len(),
        ensures
            final(self).orders@ =~= old(self).orders@.update(order_id as int, None::<Order>),
            final(self).price_levels == old(self).price_levels,
            final(self).orderbook_lines == old(self).orderbook_lines,
            final(self).nft_vaults == old(self).nft_vaults,
            final(self).bid_vaults == old(self).bid_vaults,
            final(self).highest_bid == old(self).highest_bid,
            final(self).lowest_bid == old(self).lowest_bid,
            final(self).latest_order == old(self).latest_order,
            final(self).sequence_number == old(self).sequence_number,
            final(self).collection == old(self).collection,
    {
        self.orders.remove(order_id);
    }

    /// Mark an order as fully filled, just before it leaves the ledger.
    fn update_order_to_filled(&mut self, order_id: usize)
        requires
            order_id < old(self).ledger().len(),
            old(self).ledger()[order_id as int] is Some,
        ensures
            ({
                let o = old(self).ledger()[order_id as int]->Some_0;
                final(self).orders@ =~= old(self).orders@.update(
                    order_id as int,
                    Some(Order { order_status: OrderStatus::FILLED, ..o }),
                )
            }),
            final(self).price_levels == old(self).price_levels,
            final(self).orderbook_lines == old(self).orderbook_lines,
            final(self).nft_vaults == old(self).nft_vaults,
            final(self).bid_vaults == old(self).bid_vaults,
            final(self).highest_bid == old(self).highest_bid,
            final(self).lowest_bid == old(self).lowest_bid,
            final(self).latest_order == old(self).latest_order,
            final(self).sequence_number == old(self).sequence_number,
            final(self).collection == old(self).collection,
    {
        let o = self.get_order(order_id);
        self.orders.set(order_id, Order { order_status: OrderStatus::FILLED, ..o });
    }

    /// The machine-size room a new bid needs: the arrival counter and the
    /// aggregates of the line it joins must not overflow their fixed-width
    /// carriers.
    pub open spec fn place_fits(self, collateral: u128, order_price: u128, now: i64) -> bool {
        &&& now == self.latest_order ==> self.sequence_number < u64::MAX
        &&& forall|m: int|
            0 <= m < self.lines().len() && (#[trigger] self.lines()[m]).level_price == order_price
                ==> self.lines()[m].level_qty + spec_quantity(
                collateral as int,
                order_price as int,
            ) <= u128::MAX && self.lines()[m].level_total + collateral <= u128::MAX
    }

    /// The receipt a successful `place_bid` returns: the derived quantity,
    /// the bid's terms, the arrival key, and status OPEN, under the next
    /// fresh identifier.
    pub open spec fn receipt_matches(
        self,
        receipt: OrderReceipt,
        collateral: u128,
        order_price: u128,
        now: i64,
    ) -> bool {
        &&& receipt.order_id == self.ledger().len()
        &&& receipt.order_qty == spec_quantity(collateral as int, order_price as int)
        &&& receipt.order_price == order_price
        &&& receipt.order_total == collateral
        &&& receipt.order_time == now
        &&& receipt.order_sequence == if now == self.latest_order {
            self.sequence_number + 1
        } else {
            0
        }
        &&& receipt.order_status is OPEN
    }

    /// The ledger record created for a receipt.
    pub open spec fn placed_order(receipt: OrderReceipt) -> Order {
        Order {
            order_id: receipt.order_id,
            order_qty: receipt.order_qty,
            order_price: receipt.order_price,
            order_total: receipt.order_total,
            order_time: receipt.order_time,
            order_sequence: receipt.order_sequence,
            order_status: OrderStatus::OPEN,
        }
    }

    /// Everything a successful `place_bid` does to the book, `self` being
    /// the state before the call: one ledger record, one collateral vault
    /// holding the whole bid, one empty inventory vault, the arrival cursor
    /// advanced, and the order appended to its price level's FIFO queue —
    /// joining the line at its price if one stands, else on a fresh line at
    /// the sorted position.
    pub open spec fn place_effect(
        self,
        post: HelloSwap,
        receipt: OrderReceipt,
        collateral: u128,
        order_price: u128,
        now: i64,
    ) -> bool {
        &&& self.receipt_matches(receipt, collateral, order_price, now)
        &&& post.orders@ == self.orders@.push(Some(Self::placed_order(receipt)))
        &&& post.bid_vaults@ == self.bid_vaults@.push(collateral)
        &&& post.nft_vaults@ == self.nft_vaults@.push(0)
        &&& post.latest_order == now
        &&& post.sequence_number == receipt.order_sequence
        &&& post.collection == self.collection
        &&& seq_sum(post.bid_vaults@) == seq_sum(self.bid_vaults@) + collateral
        &&& seq_sum(post.nft_vaults@) == seq_sum(self.nft_vaults@)
        &&& if line_prices(self.lines()).contains(order_price) {
            exists|i: int|
                {
                    &&& 0 <= i < self.lines().len()
                    &&& (#[trigger] self.lines()[i]).level_price == order_price
                    &&& post.lines().len() == self.lines().len()
                    &&& forall|m: int|
                        0 <= m < self.lines().len() && m != i ==> post.lines()[m]
                            == self.lines()[m]
                    &&& post.lines()[i].level_price == order_price
                    &&& post.lines()[i].level_qty == self.lines()[i].level_qty
                        + receipt.order_qty
                    &&& post.lines()[i].level_total == self.lines()[i].level_total + collateral
                    &&& post.lines()[i].level_orders@ == self.lines()[i].level_orders@.push(
                        receipt.order_id,
                    )
                }
        } else {
            exists|i: int|
                {
                    &&& 0 <= i <= self.lines().len()
                    &&& post.lines() == self.lines().insert(
                        i,
                        (#[trigger] post.lines()[i]),
                    )
                    &&& post.lines()[i].level_price == order_price
                    &&& post.lines()[i].level_qty == receipt.order_qty
                    &&& post.lines()[i].level_total == collateral
                    &&& post.lines()[i].level_orders@ == seq![receipt.order_id]
                    &&& forall|j: int|
                        0 <= j < i ==> self.lines()[j].level_price > order_price
                    &&& forall|j: int|
                        i <= j < self.lines().len() ==> self.lines()[j].level_price
                            < order_price
                }
        }
    }

    /// What a matching pass never touches, `self` being the state before
    /// the call: the arrival cursor, the configured collection, the set of
    /// issued identifiers — and what it only ever does to a ledger order:
    /// keep its identity, price and arrival key, shrink its remainder, and
    /// advance its status forward.
    pub open spec fn fill_frame(self, post: HelloSwap) -> bool {
        &&& post.latest_order == self.latest_order
        &&& post.sequence_number == self.sequence_number
        &&& post.collection == self.collection
        &&& post.orders@.len() == self.orders@.len()
        &&& post.ledger_links_ok()
        &&& forall|id: int|
            0 <= id < self.orders@.len() && (#[trigger] post.orders@[id]) is Some ==> {
                let o0 = self.orders@[id]->Some_0;
                let o1 = post.orders@[id]->Some_0;
                &&& self.orders@[id] is Some
                &&& o1.order_id == o0.order_id
                &&& o1.order_price == o0.order_price
                &&& o1.order_time == o0.order_time
                &&& o1.order_sequence == o0.order_sequence
                &&& o1.order_qty <= o0.order_qty
                &&& o1.order_total <= o0.order_total
                &&& (o1.order_status == o0.order_status || (o0.order_status is OPEN
                    && o1.order_status is PARTIAL))
            }
    }

    /// The book in the middle of a matching pass, `self` being the state
    /// before the call: no level has been retired yet, prices and index are
    /// as they were, every line is still consistent with the ledger though
    /// possibly emptied, and no order is queued twice.
    pub open spec fn mid_fill_ok(self, post: HelloSwap) -> bool {
        &&& self.fill_frame(post)
        &&& post.price_levels == self.price_levels
        &&& post.highest_bid == self.highest_bid
        &&& post.lowest_bid == self.lowest_bid
        &&& post.lines().len() == self.lines().len()
        &&& forall|m: int|
            0 <= m < self.lines().len() ==> (#[trigger] post.lines()[m]).level_price
                == self.lines()[m].level_price
        &&& forall|m: int|
            0 <= m < post.lines().len() ==> line_wf_loose(
                #[trigger] post.lines()[m],
                post.ledger(),
            )
        &&& ids_distinct(post.lines())
    }

    /// What consuming one queued order whole did, `self` being the state
    /// before the call: its ledger slot is cleared, its escrow was paid
    /// out, and the units it wanted were delivered into its inventory
    /// vault.
    pub open spec fn consumed_whole(self, post: HelloSwap, id: usize) -> bool {
        &&& post.orders@[id as int] is None
        &&& post.bid_vaults@[id as int] == 0
        &&& post.nft_vaults@[id as int] == self.nft_vaults@[id as int]
            + self.ledger()[id as int]->Some_0.order_qty
    }

    /// The order under `id` and all its custody stand exactly as before
    /// the call.
    pub open spec fn untouched_order(self, post: HelloSwap, id: usize) -> bool {
        &&& post.orders@[id as int] == self.orders@[id as int]
        &&& post.bid_vaults@[id as int] == self.bid_vaults@[id as int]
        &&& post.nft_vaults@[id as int] == self.nft_vaults@[id as int]
    }

    /// The order under `id` absorbed `d` units of a larger batch and stays
    /// queued: it paid `d * price` of its escrow out, received the `d`
    /// units, and its remainder shrank by `d`, now PARTIAL.
    pub open spec fn partially_filled_order(self, post: HelloSwap, id: usize, d: int) -> bool {
        let o0 = self.ledger()[id as int]->Some_0;
        let o1 = post.ledger()[id as int]->Some_0;
        &&& post.orders@[id as int] is Some
        &&& 0 < d < o0.order_qty
        &&& o1 == Order {
            order_qty: (o0.order_qty - d) as u128,
            order_total: (o0.order_total - d * o0.order_price) as u128,
            order_status: OrderStatus::PARTIAL,
            ..o0
        }
        &&& post.bid_vaults@[id as int] == o0.order_total - d * o0.order_price
        &&& post.nft_vaults@[id as int] == self.nft_vaults@[id as int] + d
    }

    /// How far a matching pass has come, `self` being the state before the
    /// call: the levels before `b` are fully consumed and emptied; at
    /// level `b` the first `j` queued orders are consumed and the order at
    /// position `j`, if any, has absorbed `d` units; every other queued
    /// order, and every level beyond `b`, stands untouched.
    pub open spec fn drained_to(self, post: HelloSwap, b: int, j: int, d: int) -> bool {
        &&& 0 <= b <= self.lines().len()
        &&& 0 <= d
        &&& forall|m: int|
            0 <= m < b ==> (#[trigger] post.lines()[m]).level_orders@.len() == 0
        &&& b < self.lines().len() ==> {
            &&& 0 <= j <= self.lines()[b].level_orders@.len()
            &&& post.lines()[b].level_orders@ == self.lines()[b].level_orders@.skip(j)
        }
        &&& forall|m: int, k: int|
            #![trigger self.lines()[m].level_orders@[k]]
            0 <= m < b && 0 <= k < self.lines()[m].level_orders@.len()
                ==> self.consumed_whole(post, self.lines()[m].level_orders@[k])
        &&& b < self.lines().len() ==> forall|k: int|
            0 <= k < j ==> self.consumed_whole(
                post,
                (#[trigger] self.lines()[b].level_orders@[k]),
            )
        &&& b < self.lines().len() && j < self.lines()[b].level_orders@.len() ==> {
            let hid = self.lines()[b].level_orders@[j];
            if d == 0 {
                self.untouched_order(post, hid)
            } else {
                self.partially_filled_order(post, hid, d)
            }
        }
        &&& b < self.lines().len() ==> forall|k: int|
            j < k < self.lines()[b].level_orders@.len() ==> self.untouched_order(
                post,
                (#[trigger] self.lines()[b].level_orders@[k]),
            )
        &&& forall|m: int, k: int|
            #![trigger self.lines()[m].level_orders@[k]]
            b < m < self.lines().len() && 0 <= k < self.lines()[m].level_orders@.len()
                ==> self.untouched_order(post, self.lines()[m].level_orders@[k])
        &&& forall|m: int| b < m < self.lines().len() ==> #[trigger] post.lines()[m] == self.lines()[m]
    }

    /// What a finished fill did to the book, `self` being the state before
    /// the call: the `kk` highest price levels were fully consumed and
    /// retired; on the next level — now the top of the book — the first
    /// `j` orders, and only they, were consumed in FIFO position, and the
    /// order behind them absorbed `d` units if `d > 0`. Every consumed
    /// order was paid out whole and left the ledger; every other queued
    /// order, its escrow and its delivered inventory stand untouched.
    pub open spec fn fill_shape(self, post: HelloSwap, kk: int, j: int, d: int) -> bool {
        &&& 0 <= kk <= self.lines().len()
        &&& 0 <= d
        &&& post.lines().len() == self.lines().len() - kk
        &&& forall|m: int|
            1 <= m < post.lines().len() ==> #[trigger] post.lines()[m] == self.lines()[kk + m]
        &&& post.lines().len() > 0 ==> {
            &&& 0 <= j <= self.lines()[kk].level_orders@.len()
            &&& post.lines()[0].level_price == self.lines()[kk].level_price
            &&& post.lines()[0].level_orders@ == self.lines()[kk].level_orders@.skip(j)
        }
        &&& forall|m: int, k: int|
            #![trigger self.lines()[m].level_orders@[k]]
            0 <= m < kk && 0 <= k < self.lines()[m].level_orders@.len()
                ==> self.consumed_whole(post, self.lines()[m].level_orders@[k])
        &&& post.lines().len() > 0 ==> forall|k: int|
            0 <= k < j ==> self.consumed_whole(
                post,
                (#[trigger] self.lines()[kk].level_orders@[k]),
            )
        &&& post.lines().len() > 0 && j < self.lines()[kk].level_orders@.len() ==> {
            let hid = self.lines()[kk].level_orders@[j];
            if d == 0 {
                self.untouched_order(post, hid)
            } else {
                self.partially_filled_order(post, hid, d)
            }
        }
        &&& post.lines().len() > 0 ==> forall|k: int|
            j < k < self.lines()[kk].level_orders@.len() ==> self.untouched_order(
                post,
                (#[trigger] self.lines()[kk].level_orders@[k]),
            )
        &&& forall|m: int, k: int|
            #![trigger self.lines()[m].level_orders@[k]]
            kk < m < self.lines().len() && 0 <= k < self.lines()[m].level_orders@.len()
                ==> self.untouched_order(post, self.lines()[m].level_orders@[k])
    }

    /// Escrow `collateral` as a standing bid at `order_price`, observed at
    /// time `now`.
    ///
    /// Refuses, in this order of checks: a zero price, zero collateral, a
    /// quotient with a fractional part, and a zero quantity; a refused bid
    /// leaves the book untouched. An accepted bid escrows the whole
    /// collateral and returns the receipt.
    #[verifier::rlimit(80)]
    pub fn place_bid(&mut self, collateral: u128, order_price: u128, now: i64) -> (r: Result<
        OrderReceipt,
        SwapError,
    >)
        requires
            old(self).wf(),
            old(self).place_fits(collateral, order_price, now),
        ensures
            final(self).wf(),
            r is Ok <==> order_price >= 1 && collateral >= 1 && whole_quantity(
                collateral as int,
                order_price as int,
            ) && spec_quantity(collateral as int, order_price as int) >= 1,
            order_price == 0 <==> r == Err::<OrderReceipt, SwapError>(SwapError::InvalidPrice),
            (order_price >= 1 && collateral == 0) <==> r == Err::<OrderReceipt, SwapError>(
                SwapError::InvalidAmount,
            ),
            (order_price >= 1 && collateral >= 1 && !whole_quantity(
                collateral as int,
                order_price as int,
            )) <==> r == Err::<OrderReceipt, SwapError>(SwapError::FractionalQuantity),
            (order_price >= 1 && collateral >= 1 && whole_quantity(
                collateral as int,
                order_price as int,
            ) && spec_quantity(collateral as int, order_price as int) == 0) <==> r == Err::<
                OrderReceipt,
                SwapError,
            >(SwapError::InvalidQuantity),
            r is Err ==> *final(self) == *old(self),
            r is Ok ==> old(self).place_effect(*final(self), r->Ok_0, collateral, order_price, now),
    {
        if order_price == 0 {
            return Err(SwapError::InvalidPrice);
        }
        if collateral == 0 {
            return Err(SwapError::InvalidAmount);
        }
        let order_qty = match derive_quantity(collateral, order_price) {
            Ok(q) => q,
            Err(e) => {
                return Err(e);
            },
        };
        if now != self.latest_order {
            self.latest_order = now;
            self.sequence_number = 0;
        } else {
            self.sequence_number = self.sequence_number + 1;
        }
        let order_sequence = self.sequence_number;
        let order_id = self.orders.issued();
        let receipt = OrderReceipt {
            order_id,
            order_qty,
            order_price,
            order_total: collateral,
            order_time: now,
            order_sequence,
            order_status: OrderStatus::OPEN,
        };
        let order = Order {
            order_id,
            order_qty,
            order_price,
            order_total: collateral,
            order_time: now,
            order_sequence,
            order_status: OrderStatus::OPEN,
        };
        let _ = self.orders.insert(order);
        self.bid_vaults.open_vault(collateral);
        self.nft_vaults.open_vault(0);
        proof {
            lemma_seq_sum_push(old(self).bid_vaults@, collateral);
            lemma_seq_sum_push(old(self).nft_vaults@, 0);
        }
        let ghost led0 = old(self).ledger();
        let ghost led1 = self.ledger();
        let ghost lines0 = old(self).lines();
        proof {
            assert(led1 =~= led0.push(Some(order)));
            assert forall|m: int|
                0 <= m < lines0.len() implies line_wf(#[trigger] lines0[m], led1) by {
                assert(line_wf(lines0[m], led0));
                assert forall|k: int|
                    0 <= k < lines0[m].level_orders@.len() implies {
                    let id = #[trigger] lines0[m].level_orders@[k];
                    id < led1.len() && led1[id as int] == led0[id as int]
                } by {
                    assert(line_entry_ok(lines0[m], led0, k));
                }
                lemma_line_stable(lines0[m], led0, led1);
            }
        }
        let price_level_exists = self.price_levels.contains_price(order_price);
        let ghost mut gip: int = 0;
        if !price_level_exists {
            let ip = self.price_levels.insert(order_price);
            proof {
                gip = ip as int;
            }
        }
        let line_pos = self.orderbook_lines.find(order_price);
        let ghost mut gpos: int = 0;
        let ghost line_existed = line_pos is Some;
        match line_pos {
            Some(pos) => {
                proof {
                    gpos = pos as int;
                    if !price_level_exists {
                        assert(line_prices(lines0)[pos as int] == order_price);
                        assert(old(self).price_levels@.contains(order_price));
                        assert(false);
                    }
                    assert(lines0[pos as int].level_price == order_price);
                    assert(lines0[pos as int].level_qty + order_qty <= u128::MAX);
                    assert(lines0[pos as int].level_total + collateral <= u128::MAX);
                }
                self.orderbook_lines.append_order(pos, order_id, order_qty, collateral);
                proof {
                    let lines1 = self.lines();
                    assert(self.price_levels@ =~= line_prices(lines1));
                    assert forall|k: int|
                        0 <= k < lines0[pos as int].level_orders@.len() implies {
                        let id = #[trigger] lines0[pos as int].level_orders@[k];
                        id < led1.len() && led1[id as int] == led0[id as int]
                    } by {
                        assert(line_entry_ok(lines0[pos as int], led0, k));
                    }
                    lemma_line_stable(lines0[pos as int], led0, led1);
                    lemma_ids_sums_push(lines0[pos as int].level_orders@, led1, order_id);
                    assert(qty_at(led1, order_id) == order_qty);
                    assert(total_at(led1, order_id) == collateral);
                    assert forall|k: int|
                        0 <= k < lines1[pos as int].level_orders@.len() implies
                        #[trigger] line_entry_ok(lines1[pos as int], led1, k) by {
                        if k < lines0[pos as int].level_orders@.len() {
                            assert(line_entry_ok(lines0[pos as int], led1, k));
                            assert(lines1[pos as int].level_orders@[k]
                                == lines0[pos as int].level_orders@[k]);
                        } else {
                            assert(lines1[pos as int].level_orders@[k] == order_id);
                        }
                    }
                    assert(line_wf(lines1[pos as int], led1));
                    assert forall|m: int|
                        0 <= m < lines1.len() implies line_wf(#[trigger] lines1[m], led1) by {
                        if m != pos {
                            assert(lines1[m] == lines0[m]);
                        }
                    }
                    let oldlen = lines0[pos as int].level_orders@.len() as int;
                    assert forall|m1: int, k1: int, m2: int, k2: int|
                        #![trigger lines1[m1].level_orders@[k1], lines1[m2].level_orders@[k2]]
                        0 <= m1 < lines1.len() && 0 <= k1 < lines1[m1].level_orders@.len() && 0
                            <= m2 < lines1.len() && 0 <= k2 < lines1[m2].level_orders@.len() && (
                        m1 != m2 || k1 != k2) implies lines1[m1].level_orders@[k1]
                        != lines1[m2].level_orders@[k2] by {
                        if m1 == pos && k1 == oldlen {
                            assert(lines1[m1].level_orders@[k1] == order_id);
                            assert(lines1[m2].level_orders@[k2]
                                == lines0[m2].level_orders@[k2]);
                            assert(line_entry_ok(lines0[m2], led0, k2));
                        } else if m2 == pos && k2 == oldlen {
                            assert(lines1[m2].level_orders@[k2] == order_id);
                            assert(lines1[m1].level_orders@[k1]
                                == lines0[m1].level_orders@[k1]);
                            assert(line_entry_ok(lines0[m1], led0, k1));
                        } else {
                            assert(lines1[m1].level_orders@[k1]
                                == lines0[m1].level_orders@[k1]);
                            assert(lines1[m2].level_orders@[k2]
                                == lines0[m2].level_orders@[k2]);
                        }
                    }
                }
            },
            None => {
                proof {
                    if price_level_exists {
                        let w = choose|w: int|
                            0 <= w < old(self).price_levels@.len() && old(
                                self,
                            ).price_levels@[w] == order_price;
                        assert(line_prices(lines0)[w] == order_price);
                        assert(lines0[w].level_price == order_price);
                        assert(false);
                    }
                    assert(!line_prices(lines0).contains(order_price)) by {
                        if line_prices(lines0).contains(order_price) {
                            let w = choose|w: int|
                                0 <= w < line_prices(lines0).len() && line_prices(lines0)[w]
                                    == order_price;
                            assert(lines0[w].level_price == order_price);
                        }
                    }
                }
                let mut level_orders: Vec<usize> = Vec::new();
                level_orders.push(order_id);
                let new_line = OrderbookLine {
                    level_price: order_price,
                    level_qty: order_qty,
                    level_total: collateral,
                    level_orders,
                };
                let pos = self.orderbook_lines.insert_sorted(new_line);
                proof {
                    gpos = pos as int;
                    let lines1 = self.lines();
                    if gip < pos {
                        assert(old(self).price_levels@[gip] < order_price);
                        assert(lines0[gip].level_price > order_price);
                        assert(line_prices(lines0)[gip] == lines0[gip].level_price);
                        assert(false);
                    }
                    if pos < gip {
                        assert(old(self).price_levels@[pos as int] > order_price);
                        assert(lines0[pos as int].level_price < order_price);
                        assert(line_prices(lines0)[pos as int] == lines0[pos as int].level_price);
                        assert(false);
                    }
                    assert(self.price_levels@ =~= line_prices(lines1));
                    assert(lines1[pos as int].level_orders@ =~= seq![order_id]);
                    let single: Seq<usize> = seq![order_id];
                    assert(single.len() == 1 && single[0] == order_id);
                    assert(single.drop_first() =~= Seq::<usize>::empty());
                    assert(ids_qty_sum(single.drop_first(), led1) == 0);
                    assert(ids_total_sum(single.drop_first(), led1) == 0);
                    assert(ids_qty_sum(single, led1) == qty_at(led1, order_id) + ids_qty_sum(
                        single.drop_first(),
                        led1,
                    ));
                    assert(ids_total_sum(single, led1) == total_at(led1, order_id)
                        + ids_total_sum(single.drop_first(), led1));
                    assert(qty_at(led1, order_id) == order_qty);
                    assert(total_at(led1, order_id) == collateral);
                    assert(ids_qty_sum(seq![order_id], led1) == order_qty);
                    assert(ids_total_sum(seq![order_id], led1) == collateral);
                    assert(line_entry_ok(lines1[pos as int], led1, 0));
                    assert(line_wf(lines1[pos as int], led1));
                    assert forall|m: int|
                        0 <= m < lines1.len() implies line_wf(#[trigger] lines1[m], led1) by {
                        if m < pos {
                            assert(lines1[m] == lines0[m]);
                        } else if m > pos {
                            assert(lines1[m] == lines0[m - 1]);
                        }
                    }
                    assert forall|m1: int, k1: int, m2: int, k2: int|
                        #![trigger lines1[m1].level_orders@[k1], lines1[m2].level_orders@[k2]]
                        0 <= m1 < lines1.len() && 0 <= k1 < lines1[m1].level_orders@.len() && 0
                            <= m2 < lines1.len() && 0 <= k2 < lines1[m2].level_orders@.len() && (
                        m1 != m2 || k1 != k2) implies lines1[m1].level_orders@[k1]
                        != lines1[m2].level_orders@[k2] by {
                        let mm1: int = if m1 < pos { m1 } else { m1 - 1 };
                        let mm2: int = if m2 < pos { m2 } else { m2 - 1 };
                        if m1 == pos {
                            assert(lines1[m1].level_orders@[k1] == order_id);
                            assert(lines1[m2].level_orders@[k2]
                                == lines0[mm2].level_orders@[k2]);
                            assert(line_entry_ok(lines0[mm2], led0, k2));
                        } else if m2 == pos {
                            assert(lines1[m2].level_orders@[k2] == order_id);
                            assert(lines1[m1].level_orders@[k1]
                                == lines0[mm1].level_orders@[k1]);
                            assert(line_entry_ok(lines0[mm1], led0, k1));
                        } else {
                            assert(lines1[m1].level_orders@[k1]
                                == lines0[mm1].level_orders@[k1]);
                            assert(lines1[m2].level_orders@[k2]
                                == lines0[mm2].level_orders@[k2]);
                        }
                    }
                }
            },
        }
        match self.highest_bid {
            None => {
                self.highest_bid = Some(order_price);
            },
            Some(h) => {
                if order_price > h {
                    self.highest_bid = Some(order_price);
                }
            },
        }
        match self.lowest_bid {
            None => {
                self.lowest_bid = Some(order_price);
            },
            Some(l) => {
                if order_price < l {
                    self.lowest_bid = Some(order_price);
                }
            },
        }
        proof {
            let lines1 = self.lines();
            if line_existed {
                assert(lines1.len() == lines0.len());
                if gpos == 0 {
                    assert(lines1[0].level_price == order_price);
                } else {
                    assert(lines0[0].level_price > lines0[gpos].level_price) by {
                        assert(line_prices(lines0)[0] > line_prices(lines0)[gpos]);
                    }
                    assert(lines1[0] == lines0[0]);
                }
                if gpos == lines0.len() - 1 {
                    assert(lines1[lines1.len() - 1].level_price == order_price);
                } else {
                    assert(lines0[lines0.len() - 1].level_price < lines0[gpos].level_price) by {
                        assert(line_prices(lines0)[lines0.len() - 1]
                            < line_prices(lines0)[gpos]);
                    }
                    assert(lines1[lines1.len() - 1] == lines0[lines0.len() - 1]);
                }
                assert(self.bounds_ok());
            } else {
                assert(lines1.len() == lines0.len() + 1);
                if lines0.len() == 0 {
                    assert(lines1[0].level_price == order_price);
                    assert(self.bounds_ok());
                } else {
                    if gpos == 0 {
                        assert(lines0[0].level_price < order_price);
                        assert(lines1[0].level_price == order_price);
                    } else {
                        assert(lines0[0].level_price > order_price);
                        assert(lines1[0] == lines0[0]);
                    }
                    if gpos == lines0.len() {
                        assert(lines0[lines0.len() - 1].level_price > order_price);
                        assert(lines1[lines1.len() - 1].level_price == order_price);
                    } else {
                        assert(lines0[lines0.len() - 1].level_price < order_price);
                        assert(lines1[lines1.len() - 1] == lines0[lines0.len() - 1]);
                    }
                    assert(self.bounds_ok());
                }
            }
            assert(self.wf());
            if line_existed {
                assert(line_prices(lines0).contains(order_price)) by {
                    assert(line_prices(lines0)[gpos] == order_price);
                }
            }
            assert(old(self).place_effect(*self, receipt, collateral, order_price, now));
        }
        Ok(receipt)
    }

    /// Mark an order as partially filled: `delivered` of its units were
    /// consumed and `paid` of its escrow went to the seller; the remainder
    /// stays queued.
    fn update_order_to_partial(&mut self, order_id: usize, delivered: u128, paid: u128)
        requires
            order_id < old(self).ledger().len(),
            old(self).ledger()[order_id as int] is Some,
            delivered < old(self).ledger()[order_id as int]->Some_0.order_qty,
            paid <= old(self).ledger()[order_id as int]->Some_0.order_total,
        ensures
            ({
                let o = old(self).ledger()[order_id as int]->Some_0;
                final(self).orders@ =~= old(self).orders@.update(
                    order_id as int,
                    Some(
                        Order {
                            order_qty: (o.order_qty - delivered) as u128,
                            order_total: (o.order_total - paid) as u128,
                            order_status: OrderStatus::PARTIAL,
                            ..o
                        },
                    ),
                )
            }),
            final(self).price_levels == old(self).price_levels,
            final(self).orderbook_lines == old(self).orderbook_lines,
            final(self).nft_vaults == old(self).nft_vaults,
            final(self).bid_vaults == old(self).bid_vaults,
            final(self).highest_bid == old(self).highest_bid,
            final(self).lowest_bid == old(self).lowest_bid,
            final(self).latest_order == old(self).latest_order,
            final(self).sequence_number == old(self).sequence_number,
            final(self).collection == old(self).collection,
    {
        let o = self.get_order(order_id);
        self.orders.set(
            order_id,
            Order {
                order_qty: o.order_qty - delivered,
                order_total: o.order_total - paid,
                order_status: OrderStatus::PARTIAL,
                ..o
            },
        );
    }

    /// Consume a batch of `units` inventory units against the queued bids.
    ///
    /// The pass walks the price levels from the highest bid downward and
    /// each level's queue in FIFO order. An order wanting no more than the
    /// remaining batch is filled whole: its entire escrow joins the
    /// proceeds and it leaves the ledger and its level. An order wanting
    /// more takes the whole remainder, pays `remainder * price` into the
    /// proceeds, and stays queued as PARTIAL with its remainder reduced.
    /// Levels whose queue empties are retired from the index and the
    /// store; the cached bounds are re-derived at the end. Units that no
    /// bid absorbs come back as the leftover.
    #[verifier::rlimit(100)]
    pub fn fill_bid(&mut self, units: u128) -> (r: Result<(Vec<u128>, Option<u128>), SwapError>)
        requires
            old(self).wf(),
        ensures
            final(self).wf(),
            r is Err <==> (units == 0 || old(self).highest_bid is None),
            units == 0 ==> r == Err::<(Vec<u128>, Option<u128>), SwapError>(
                SwapError::InvalidAmount,
            ),
            units >= 1 && old(self).highest_bid is None ==> r == Err::<
                (Vec<u128>, Option<u128>),
                SwapError,
            >(SwapError::NoLiquidity),
            r is Err ==> *final(self) == *old(self),
            r is Ok ==> ({
                let proceeds = r->Ok_0.0;
                let leftover = r->Ok_0.1;
                let left: int = if leftover is Some {
                    leftover->Some_0 as int
                } else {
                    0
                };
                &&& old(self).fill_frame(*final(self))
                &&& seq_sum(final(self).bid_vaults@) + seq_sum(proceeds@) == seq_sum(
                    old(self).bid_vaults@,
                )
                &&& seq_sum(final(self).nft_vaults@) == seq_sum(old(self).nft_vaults@) + units
                    - left
                &&& 0 <= left < units
                &&& proceeds@.len() >= 1
                &&& (leftover is Some ==> leftover->Some_0 >= 1 && final(self).lines().len()
                    == 0)
                &&& exists|kk: int, j: int, d: int| old(self).fill_shape(*final(self), kk, j, d)
            }),
    {
        if units == 0 {
            return Err(SwapError::InvalidAmount);
        }
        let highest = match self.highest_bid {
            None => {
                return Err(SwapError::NoLiquidity);
            },
            Some(h) => h,
        };
        let lowest = match self.lowest_bid {
            Some(l) => l,
            None => {
                proof {
                    assert(false);
                }
                0
            },
        };
        let prices = self.price_levels.range_descending(highest, lowest);
        proof {
            let s = self.price_levels@;
            let (a, b): (int, int) = choose|a: int, b: int|
                {
                    &&& 0 <= a <= b <= s.len()
                    &&& prices@ =~= s.subrange(a, b)
                    &&& forall|j: int| 0 <= j < a ==> s[j] > highest
                    &&& forall|j: int| a <= j < b ==> lowest <= #[trigger] s[j] <= highest
                    &&& forall|j: int| b <= j < s.len() ==> s[j] < lowest
                };
            assert(s[0] == line_prices(self.lines())[0]);
            assert(s[0] == highest);
            assert(s[s.len() - 1] == line_prices(self.lines())[s.len() - 1]);
            assert(s[s.len() - 1] == lowest);
            if a > 0 {
                assert(s[0] > highest);
                assert(false);
            }
            if b < s.len() {
                assert(s[s.len() - 1] < lowest);
                assert(false);
            }
            assert(prices@ =~= s);
        }
        let mut proceeds: Vec<u128> = Vec::new();
        let mut remaining: u128 = units;
        let ghost mut gb: int = 0;
        let ghost mut gj: int = 0;
        let ghost mut gd: int = 0;
        proof {
            if old(self).lines().len() > 0 {
                assert(old(self).lines()[0].level_orders@.skip(0) =~= old(
                    self,
                ).lines()[0].level_orders@);
            }
            assert forall|m: int|
                0 <= m < self.lines().len() implies line_wf_loose(
                #[trigger] self.lines()[m],
                self.ledger(),
            ) by {
                assert(line_wf(self.lines()[m], self.ledger()));
            }
            assert(old(self).drained_to(*self, 0, 0, 0));
            assert(old(self).mid_fill_ok(*self));
        }
        let mut i: usize = 0;
        while i < prices.len()
            invariant
                old(self).wf(),
                units >= 1,
                prices@ == line_prices(old(self).lines()),
                prices@.len() == old(self).lines().len(),
                0 <= i <= prices.len(),
                old(self).mid_fill_ok(*self),
                old(self).drained_to(*self, gb, gj, gd),
                0 <= remaining <= units,
                0 <= gb <= i,
                remaining > 0 ==> gb == i && gj == 0 && gd == 0,
                remaining == units ==> gb == 0 && gj == 0,
                remaining < units ==> proceeds@.len() >= 1,
                seq_sum(self.bid_vaults@) + seq_sum(proceeds@) == seq_sum(old(self).bid_vaults@),
                seq_sum(self.nft_vaults@) == seq_sum(old(self).nft_vaults@) + units - remaining,
            decreases prices.len() - i,
        {
            while remaining > 0 && self.orderbook_lines.lines[i].level_orders.len() > 0
                invariant
                    old(self).wf(),
                    units >= 1,
                    prices@ == line_prices(old(self).lines()),
                    prices@.len() == old(self).lines().len(),
                    0 <= i < prices.len(),
                    old(self).mid_fill_ok(*self),
                    old(self).drained_to(*self, gb, gj, gd),
                    0 <= remaining <= units,
                    0 <= gb <= i,
                    remaining > 0 ==> gb == i && gd == 0,
                    remaining == units ==> gb == 0 && gj == 0,
                    remaining < units ==> proceeds@.len() >= 1,
                    seq_sum(self.bid_vaults@) + seq_sum(proceeds@) == seq_sum(
                        old(self).bid_vaults@,
                    ),
                    seq_sum(self.nft_vaults@) == seq_sum(old(self).nft_vaults@) + units
                        - remaining,
                decreases remaining,
            {
                let ghost cur = *self;
                let ghost led_a = self.ledger();
                let ghost lines_a = self.lines();
                let ghost ids_a = self.lines()[i as int].level_orders@;
                let id = self.orderbook_lines.lines[i].level_orders[0];
                proof {
                    assert(line_wf_loose(lines_a[i as int], led_a));
                    assert(line_entry_ok(lines_a[i as int], led_a, 0));
                }
                let order = self.get_order(id);
                proof {
                    assert(order.wf());
                    assert(order.order_price == lines_a[i as int].level_price);
                    assert(ids_qty_sum(ids_a, led_a) == qty_at(led_a, id) + ids_qty_sum(
                        ids_a.drop_first(),
                        led_a,
                    ));
                    assert(ids_total_sum(ids_a, led_a) == total_at(led_a, id) + ids_total_sum(
                        ids_a.drop_first(),
                        led_a,
                    ));
                    lemma_ids_sums_nonneg(ids_a.drop_first(), led_a);
                    assert(order.order_qty <= lines_a[i as int].level_qty);
                    assert(order.order_total <= lines_a[i as int].level_total);
                    assert(self.bid_vaults@[id as int] == order.order_total);
                    assert(self.nft_vaults@[id as int] + order.order_qty <= u128::MAX);
                    assert forall|k: int|
                        0 <= k < ids_a.len() implies ids_a[k] < led_a.len() && (k != 0
                        ==> ids_a[k] != id) by {
                        assert(line_entry_ok(lines_a[i as int], led_a, k));
                        if k != 0 {
                            assert(lines_a[i as int].level_orders@[k]
                                != lines_a[i as int].level_orders@[0]);
                        }
                    }
                    // the head order has not been touched yet
                    assert(ids_a == old(self).lines()[i as int].level_orders@.skip(gj));
                    assert(gj < old(self).lines()[i as int].level_orders@.len());
                    assert(id == old(self).lines()[i as int].level_orders@[gj]);
                    assert(old(self).untouched_order(cur, id));
                    assert(cur.orders@[id as int] == old(self).orders@[id as int]);
                    assert(cur.bid_vaults@[id as int] == old(self).bid_vaults@[id as int]);
                    assert(cur.nft_vaults@[id as int] == old(self).nft_vaults@[id as int]);
                }
                if remaining >= order.order_qty {
                    // the order is filled whole: its entire escrow is paid
                    // out, the units it wanted go to its inventory vault,
                    // and it leaves the ledger and the level queue
                    let pay = self.bid_vaults.withdraw_all(id);
                    self.nft_vaults.deposit(id, order.order_qty);
                    self.update_order_to_filled(id);
                    self.remove_order(id);
                    self.orderbook_lines.pop_front_order(i, order.order_qty, pay);
                    let ghost pp = proceeds@;
                    proceeds.push(pay);
                    remaining = remaining - order.order_qty;
                    proof {
                        let led_b = self.ledger();
                        let lines_b = self.lines();
                        assert(led_b =~= led_a.update(id as int, None::<Order>));
                        assert(lines_b[i as int].level_orders@ =~= ids_a.drop_first());
                        lemma_seq_sum_update(cur.bid_vaults@, id as int, 0);
                        lemma_seq_sum_update(
                            cur.nft_vaults@,
                            id as int,
                            (cur.nft_vaults@[id as int] + order.order_qty) as u128,
                        );
                        lemma_seq_sum_push(pp, pay);
                        assert(proceeds@ == pp.push(pay));
                        // every other line reads none of the changed slots
                        assert forall|m: int|
                            0 <= m < lines_b.len() implies line_wf_loose(
                            #[trigger] lines_b[m],
                            led_b,
                        ) by {
                            if m != i {
                                assert(lines_b[m] == lines_a[m]);
                                assert(line_wf_loose(lines_a[m], led_a));
                                assert forall|k: int|
                                    0 <= k < lines_a[m].level_orders@.len() implies {
                                    let oid = #[trigger] lines_a[m].level_orders@[k];
                                    oid < led_b.len() && led_b[oid as int] == led_a[oid as int]
                                } by {
                                    assert(line_entry_ok(lines_a[m], led_a, k));
                                    assert(lines_a[m].level_orders@[k]
                                        != lines_a[i as int].level_orders@[0]);
                                }
                                lemma_line_stable(lines_a[m], led_a, led_b);
                            } else {
                                assert forall|k: int|
                                    0 <= k < lines_b[i as int].level_orders@.len() implies {
                                    let oid = #[trigger] lines_b[i as int].level_orders@[k];
                                    &&& #[trigger] line_entry_ok(lines_b[i as int], led_a, k)
                                    &&& oid < led_b.len()
                                    &&& led_b[oid as int] == led_a[oid as int]
                                } by {
                                    assert(lines_b[i as int].level_orders@[k] == ids_a[k + 1]);
                                    assert(line_entry_ok(lines_a[i as int], led_a, k + 1));
                                    assert(ids_a[k + 1] != id);
                                }
                                lemma_line_stable(lines_b[i as int], led_a, led_b);
                                assert(ids_qty_sum(lines_b[i as int].level_orders@, led_a)
                                    == ids_qty_sum(ids_a.drop_first(), led_a));
                                assert(qty_at(led_a, id) == order.order_qty);
                                assert(total_at(led_a, id) == order.order_total);
                            }
                        }
                        // distinct ids, by mapping each entry to its place
                        // before the pop
                        assert forall|m1: int, k1: int, m2: int, k2: int|
                            #![trigger lines_b[m1].level_orders@[k1], lines_b[m2].level_orders@[k2]]
                            0 <= m1 < lines_b.len() && 0 <= k1 < lines_b[m1].level_orders@.len()
                                && 0 <= m2 < lines_b.len() && 0 <= k2
                                < lines_b[m2].level_orders@.len() && (m1 != m2 || k1 != k2) implies
                            lines_b[m1].level_orders@[k1] != lines_b[m2].level_orders@[k2] by {
                            let kk1: int = if m1 == i {
                                k1 + 1
                            } else {
                                k1
                            };
                            let kk2: int = if m2 == i {
                                k2 + 1
                            } else {
                                k2
                            };
                            assert(lines_b[m1].level_orders@[k1]
                                == lines_a[m1].level_orders@[kk1]);
                            assert(lines_b[m2].level_orders@[k2]
                                == lines_a[m2].level_orders@[kk2]);
                        }
                        // frame and custody links
                        assert forall|id2: int|
                            0 <= id2 < old(self).orders@.len() && (#[trigger] self.orders@[id2])
                                is Some implies {
                            let o0 = old(self).orders@[id2]->Some_0;
                            let o1 = self.orders@[id2]->Some_0;
                            &&& old(self).orders@[id2] is Some
                            &&& o1.order_id == o0.order_id && o1.order_id == id2
                            &&& o1.order_price == o0.order_price
                            &&& o1.order_time == o0.order_time
                            &&& o1.order_sequence == o0.order_sequence
                            &&& o1.order_qty <= o0.order_qty
                            &&& o1.order_total <= o0.order_total
                            &&& (o1.order_status == o0.order_status || (o0.order_status is OPEN
                                && o1.order_status is PARTIAL))
                            &&& o1.wf()
                            &&& self.bid_vaults@[id2] == o1.order_total
                            &&& self.nft_vaults@[id2] + o1.order_qty <= u128::MAX
                        } by {
                            assert(id2 != id);
                            assert(self.orders@[id2] == led_a[id2]);
                            assert(cur.orders@[id2] == led_a[id2]);
                        }
                        // the consumed order's slot is gone and its escrow
                        // paid out; older consumed slots were already gone
                        assert(old(self).consumed_whole(*self, id)) by {
                            assert(self.orders@[id as int] is None);
                            assert(self.bid_vaults@[id as int] == 0);
                            assert(self.nft_vaults@[id as int] == cur.nft_vaults@[id as int]
                                + order.order_qty);
                        }
                        assert forall|m: int, k: int|
                            #![trigger old(self).lines()[m].level_orders@[k]]
                            0 <= m < gb && 0 <= k < old(
                            self,
                        ).lines()[m].level_orders@.len() implies old(self).consumed_whole(
                            *self,
                            old(self).lines()[m].level_orders@[k],
                        ) by {
                            let cid = old(self).lines()[m].level_orders@[k];
                            assert(line_entry_ok(old(self).lines()[m], old(self).ledger(), k));
                            assert(old(self).consumed_whole(cur, cid));
                            assert(cur.orders@[cid as int] is None);
                            assert(led_a[cid as int] is None);
                            assert(led_a[id as int] is Some);
                            assert(cid != id);
                            assert(self.orders@[cid as int] == led_a[cid as int]);
                            assert(self.bid_vaults@[cid as int] == cur.bid_vaults@[cid as int]);
                            assert(self.nft_vaults@[cid as int] == cur.nft_vaults@[cid as int]);
                        }
                        gj = gj + 1;
                        assert(cur.lines()[i as int].level_orders@ == old(
                            self,
                        ).lines()[i as int].level_orders@.skip(gj - 1));
                        assert(self.lines()[i as int].level_orders@ =~= old(
                            self,
                        ).lines()[i as int].level_orders@.skip(gj));
                        assert(old(self).lines()[i as int].level_orders@[gj - 1] == id);
                        assert forall|k: int| 0 <= k < gj implies old(self).consumed_whole(
                            *self,
                            (#[trigger] old(self).lines()[gb as int].level_orders@[k]),
                        ) by {
                            let cid = old(self).lines()[gb as int].level_orders@[k];
                            assert(line_entry_ok(old(self).lines()[gb as int], old(self).ledger(), k));
                            if k < gj - 1 {
                                assert(old(self).consumed_whole(cur, cid));
                                assert(cur.orders@[cid as int] is None);
                                assert(led_a[cid as int] is None);
                                assert(led_a[id as int] is Some);
                                assert(cid != id);
                                assert(self.orders@[cid as int] == led_a[cid as int]);
                                assert(self.bid_vaults@[cid as int]
                                    == cur.bid_vaults@[cid as int]);
                                assert(self.nft_vaults@[cid as int]
                                    == cur.nft_vaults@[cid as int]);
                            } else {
                                assert(cid == id);
                            }
                        }
                        // every order not yet reached stands untouched
                        assert forall|k: int|
                            gj <= k < old(self).lines()[gb as int].level_orders@.len() implies
                            old(self).untouched_order(
                                *self,
                                (#[trigger] old(self).lines()[gb as int].level_orders@[k]),
                            ) by {
                            let cid = old(self).lines()[gb as int].level_orders@[k];
                            assert(line_entry_ok(old(self).lines()[gb as int], old(self).ledger(), k));
                            assert(old(self).untouched_order(cur, cid));
                            assert(old(self).lines()[gb as int].level_orders@[gj - 1] == id);
                            assert(cid != id);
                            assert(self.orders@[cid as int] == led_a[cid as int]);
                            assert(self.bid_vaults@[cid as int] == cur.bid_vaults@[cid as int]);
                            assert(self.nft_vaults@[cid as int] == cur.nft_vaults@[cid as int]);
                        }
                        assert forall|m: int, k: int|
                            #![trigger old(self).lines()[m].level_orders@[k]]
                            gb < m < old(self).lines().len() && 0 <= k < old(
                            self,
                        ).lines()[m].level_orders@.len() implies old(self).untouched_order(
                            *self,
                            old(self).lines()[m].level_orders@[k],
                        ) by {
                            let cid = old(self).lines()[m].level_orders@[k];
                            assert(line_entry_ok(old(self).lines()[m], old(self).ledger(), k));
                            assert(old(self).untouched_order(cur, cid));
                            assert(old(self).lines()[gb as int].level_orders@[gj - 1] == id);
                            assert(cid != id);
                            assert(self.orders@[cid as int] == led_a[cid as int]);
                            assert(self.bid_vaults@[cid as int] == cur.bid_vaults@[cid as int]);
                            assert(self.nft_vaults@[cid as int] == cur.nft_vaults@[cid as int]);
                        }
                        assert forall|m: int|
                            gb < m < old(self).lines().len() implies #[trigger] self.lines()[m]
                            == old(self).lines()[m] by {
                            assert(cur.lines()[m] == old(self).lines()[m]);
                            assert(self.lines()[m] == cur.lines()[m]);
                        }
                        assert(old(self).drained_to(*self, gb, gj, gd));
                        assert(old(self).mid_fill_ok(*self));
                    }
                } else {
                    // the order wants more than the batch still holds: it
                    // takes every remaining unit, pays the matching share
                    // of its escrow, and stays queued with the remainder
                    proof {
                        assert(remaining * order.order_price <= order.order_qty
                            * order.order_price) by (nonlinear_arith)
                            requires
                                remaining <= order.order_qty,
                                0 <= order.order_price,
                        ;
                        assert(order.order_qty * order.order_price <= order.order_total);
                    }
                    let pay = remaining * order.order_price;
                    self.bid_vaults.withdraw(id, pay);
                    self.nft_vaults.deposit(id, remaining);
                    self.update_order_to_partial(id, remaining, pay);
                    self.orderbook_lines.reduce_front_order(i, remaining, pay);
                    let ghost pp = proceeds@;
                    proceeds.push(pay);
                    let ghost delivered = remaining;
                    remaining = 0;
                    proof {
                        let led_b = self.ledger();
                        let lines_b = self.lines();
                        let o2 = led_b[id as int]->Some_0;
                        assert((order.order_qty - delivered) * order.order_price
                            == order.order_qty * order.order_price - delivered
                            * order.order_price) by (nonlinear_arith);
                        assert(o2.order_qty * o2.order_price <= o2.order_total);
                        assert(o2.wf());
                        lemma_seq_sum_update(
                            cur.bid_vaults@,
                            id as int,
                            (cur.bid_vaults@[id as int] - pay) as u128,
                        );
                        lemma_seq_sum_update(
                            cur.nft_vaults@,
                            id as int,
                            (cur.nft_vaults@[id as int] + delivered) as u128,
                        );
                        lemma_seq_sum_push(pp, pay);
                        assert(proceeds@ == pp.push(pay));
                        assert forall|m: int|
                            0 <= m < lines_b.len() implies line_wf_loose(
                            #[trigger] lines_b[m],
                            led_b,
                        ) by {
                            if m != i {
                                assert(lines_b[m] == lines_a[m]);
                                assert(line_wf_loose(lines_a[m], led_a));
                                assert forall|k: int|
                                    0 <= k < lines_a[m].level_orders@.len() implies {
                                    let oid = #[trigger] lines_a[m].level_orders@[k];
                                    oid < led_b.len() && led_b[oid as int] == led_a[oid as int]
                                } by {
                                    assert(line_entry_ok(lines_a[m], led_a, k));
                                    assert(lines_a[m].level_orders@[k]
                                        != lines_a[i as int].level_orders@[0]);
                                }
                                lemma_line_stable(lines_a[m], led_a, led_b);
                            } else {
                                assert(lines_b[i as int].level_orders@ == ids_a);
                                assert(ids_qty_sum(ids_a.drop_first(), led_b) == ids_qty_sum(
                                    ids_a.drop_first(),
                                    led_a,
                                ) && ids_total_sum(ids_a.drop_first(), led_b) == ids_total_sum(
                                    ids_a.drop_first(),
                                    led_a,
                                )) by {
                                    assert forall|k: int|
                                        0 <= k < ids_a.drop_first().len() implies qty_at(
                                        led_a,
                                        ids_a.drop_first()[k],
                                    ) == qty_at(led_b, ids_a.drop_first()[k]) && total_at(
                                        led_a,
                                        ids_a.drop_first()[k],
                                    ) == total_at(led_b, ids_a.drop_first()[k]) by {
                                        assert(ids_a.drop_first()[k] == ids_a[k + 1]);
                                        assert(line_entry_ok(lines_a[i as int], led_a, k + 1));
                                        assert(ids_a[k + 1] != id);
                                    }
                                    lemma_ids_sums_untouched(ids_a.drop_first(), led_a, led_b);
                                }
                                assert(ids_qty_sum(ids_a, led_b) == qty_at(led_b, id)
                                    + ids_qty_sum(ids_a.drop_first(), led_b));
                                assert(ids_total_sum(ids_a, led_b) == total_at(led_b, id)
                                    + ids_total_sum(ids_a.drop_first(), led_b));
                                assert(qty_at(led_b, id) == order.order_qty - delivered);
                                assert(total_at(led_b, id) == order.order_total - pay);
                                assert forall|k: int|
                                    0 <= k < lines_b[i as int].level_orders@.len() implies
                                    #[trigger] line_entry_ok(lines_b[i as int], led_b, k) by {
                                    assert(line_entry_ok(lines_a[i as int], led_a, k));
                                    if k != 0 {
                                        assert(ids_a[k] != id);
                                    }
                                }
                            }
                        }
                        assert forall|m1: int, k1: int, m2: int, k2: int|
                            #![trigger lines_b[m1].level_orders@[k1], lines_b[m2].level_orders@[k2]]
                            0 <= m1 < lines_b.len() && 0 <= k1 < lines_b[m1].level_orders@.len()
                                && 0 <= m2 < lines_b.len() && 0 <= k2
                                < lines_b[m2].level_orders@.len() && (m1 != m2 || k1 != k2) implies
                            lines_b[m1].level_orders@[k1] != lines_b[m2].level_orders@[k2] by {
                            assert(lines_b[m1].level_orders@[k1]
                                == lines_a[m1].level_orders@[k1]);
                            assert(lines_b[m2].level_orders@[k2]
                                == lines_a[m2].level_orders@[k2]);
                        }
                        assert forall|id2: int|
                            0 <= id2 < old(self).orders@.len() && (#[trigger] self.orders@[id2])
                                is Some implies {
                            let o0 = old(self).orders@[id2]->Some_0;
                            let o1 = self.orders@[id2]->Some_0;
                            &&& old(self).orders@[id2] is Some
                            &&& o1.order_id == o0.order_id && o1.order_id == id2
                            &&& o1.order_price == o0.order_price
                            &&& o1.order_time == o0.order_time
                            &&& o1.order_sequence == o0.order_sequence
                            &&& o1.order_qty <= o0.order_qty
                            &&& o1.order_total <= o0.order_total
                            &&& (o1.order_status == o0.order_status || (o0.order_status is OPEN
                                && o1.order_status is PARTIAL))
                            &&& o1.wf()
                            &&& self.bid_vaults@[id2] == o1.order_total
                            &&& self.nft_vaults@[id2] + o1.order_qty <= u128::MAX
                        } by {
                            if id2 != id {
                                assert(self.orders@[id2] == led_a[id2]);
                                assert(cur.orders@[id2] == led_a[id2]);
                            } else {
                                assert(self.orders@[id2] == Some(o2));
                                assert(led_a[id2] is Some);
                            }
                        }
                        gd = delivered as int;
                        // the head order absorbed the whole remainder and
                        // stays queued; nothing else moved
                        assert(old(self).partially_filled_order(*self, id, gd)) by {
                            assert(old(self).orders@[id as int]->Some_0 == order);
                            assert(pay == delivered * order.order_price);
                            assert(cur.bid_vaults@[id as int] == order.order_total);
                            assert(self.orders@[id as int] == Some(o2));
                        }
                        assert forall|m: int, k: int|
                            #![trigger old(self).lines()[m].level_orders@[k]]
                            0 <= m < gb && 0 <= k < old(
                            self,
                        ).lines()[m].level_orders@.len() implies old(self).consumed_whole(
                            *self,
                            old(self).lines()[m].level_orders@[k],
                        ) by {
                            let cid = old(self).lines()[m].level_orders@[k];
                            assert(line_entry_ok(old(self).lines()[m], old(self).ledger(), k));
                            assert(old(self).consumed_whole(cur, cid));
                            assert(cur.orders@[cid as int] is None);
                            assert(led_a[cid as int] is None);
                            assert(led_a[id as int] is Some);
                            assert(cid != id);
                            assert(self.orders@[cid as int] == led_a[cid as int]);
                            assert(self.bid_vaults@[cid as int] == cur.bid_vaults@[cid as int]);
                            assert(self.nft_vaults@[cid as int] == cur.nft_vaults@[cid as int]);
                        }
                        assert forall|k: int| 0 <= k < gj implies old(self).consumed_whole(
                            *self,
                            (#[trigger] old(self).lines()[gb as int].level_orders@[k]),
                        ) by {
                            let cid = old(self).lines()[gb as int].level_orders@[k];
                            assert(line_entry_ok(old(self).lines()[gb as int], old(self).ledger(), k));
                            assert(old(self).consumed_whole(cur, cid));
                            assert(cur.orders@[cid as int] is None);
                            assert(led_a[cid as int] is None);
                            assert(led_a[id as int] is Some);
                            assert(cid != id);
                            assert(self.orders@[cid as int] == led_a[cid as int]);
                            assert(self.bid_vaults@[cid as int] == cur.bid_vaults@[cid as int]);
                            assert(self.nft_vaults@[cid as int] == cur.nft_vaults@[cid as int]);
                        }
                        assert forall|k: int|
                            gj < k < old(self).lines()[gb as int].level_orders@.len() implies
                            old(self).untouched_order(
                                *self,
                                (#[trigger] old(self).lines()[gb as int].level_orders@[k]),
                            ) by {
                            let cid = old(self).lines()[gb as int].level_orders@[k];
                            assert(line_entry_ok(old(self).lines()[gb as int], old(self).ledger(), k));
                            assert(old(self).untouched_order(cur, cid));
                            assert(old(self).lines()[gb as int].level_orders@[gj] == id);
                            assert(cid != id);
                            assert(self.orders@[cid as int] == led_a[cid as int]);
                            assert(self.bid_vaults@[cid as int] == cur.bid_vaults@[cid as int]);
                            assert(self.nft_vaults@[cid as int] == cur.nft_vaults@[cid as int]);
                        }
                        assert forall|m: int, k: int|
                            #![trigger old(self).lines()[m].level_orders@[k]]
                            gb < m < old(self).lines().len() && 0 <= k < old(
                            self,
                        ).lines()[m].level_orders@.len() implies old(self).untouched_order(
                            *self,
                            old(self).lines()[m].level_orders@[k],
                        ) by {
                            let cid = old(self).lines()[m].level_orders@[k];
                            assert(line_entry_ok(old(self).lines()[m], old(self).ledger(), k));
                            assert(old(self).untouched_order(cur, cid));
                            assert(old(self).lines()[gb as int].level_orders@[gj] == id);
                            assert(cid != id);
                            assert(self.orders@[cid as int] == led_a[cid as int]);
                            assert(self.bid_vaults@[cid as int] == cur.bid_vaults@[cid as int]);
                            assert(self.nft_vaults@[cid as int] == cur.nft_vaults@[cid as int]);
                        }
                        assert(self.lines()[i as int].level_orders@ == old(
                            self,
                        ).lines()[i as int].level_orders@.skip(gj));
                        assert forall|m: int|
                            gb < m < old(self).lines().len() implies #[trigger] self.lines()[m]
                            == old(self).lines()[m] by {
                            assert(cur.lines()[m] == old(self).lines()[m]);
                            assert(self.lines()[m] == cur.lines()[m]);
                        }
                        assert(old(self).drained_to(*self, gb, gj, gd));
                        assert(old(self).mid_fill_ok(*self));
                    }
                }
            }
            proof {
                if remaining > 0 {
                    assert(gb == i && gd == 0);
                    assert(self.lines()[i as int].level_orders@.len() == 0);
                    assert(old(self).lines()[i as int].level_orders@.skip(gj).len() == 0);
                    assert(gj == old(self).lines()[i as int].level_orders@.len());
                    let ghost oldgj = gj;
                    gb = i + 1;
                    gj = 0;
                    assert forall|m: int, k: int|
                        #![trigger old(self).lines()[m].level_orders@[k]]
                        0 <= m < gb && 0 <= k < old(
                        self,
                    ).lines()[m].level_orders@.len() implies old(self).consumed_whole(
                        *self,
                        old(self).lines()[m].level_orders@[k],
                    ) by {
                        if m == i {
                            assert(k < oldgj);
                            assert(old(self).consumed_whole(
                                *self,
                                old(self).lines()[i as int].level_orders@[k],
                            ));
                        }
                    }
                    assert forall|m: int, k: int|
                        #![trigger old(self).lines()[m].level_orders@[k]]
                        gb < m < old(self).lines().len() && 0 <= k < old(
                        self,
                    ).lines()[m].level_orders@.len() implies old(self).untouched_order(
                        *self,
                        old(self).lines()[m].level_orders@[k],
                    ) by {
                    }
                    if gb < old(self).lines().len() {
                        assert(self.lines()[gb as int] == old(self).lines()[gb as int]);
                        assert(old(self).lines()[gb as int].level_orders@.skip(0) =~= old(
                            self,
                        ).lines()[gb as int].level_orders@);
                        assert forall|k: int|
                            0 <= k < old(self).lines()[gb as int].level_orders@.len() implies
                            old(self).untouched_order(
                                *self,
                                (#[trigger] old(self).lines()[gb as int].level_orders@[k]),
                            ) by {
                        }
                    }
                    assert(old(self).drained_to(*self, gb, gj, gd));
                }
            }
            i += 1;
        }
        let ghost lmid = self.lines();
        let ghost ledmid = self.ledger();
        let ghost bvmid = self.bid_vaults@;
        let ghost nvmid = self.nft_vaults@;
        let ghost pre = *old(self);
        let ghost smid = *self;
        let ghost mut gk: int = 0;
        proof {
            assert(self.lines() =~= lmid.skip(0));
            assert(pre.drained_to(smid, gb, gj, gd));
            // spell the progress facts out over the snapshots, so that they
            // survive the retirement loop
            assert(lmid.len() == pre.lines().len());
            assert(forall|m: int|
                0 <= m < gb ==> (#[trigger] lmid[m]).level_orders@.len() == 0);
            assert(forall|m: int| gb < m < pre.lines().len() ==> #[trigger] lmid[m] == pre.lines()[m]);
            assert(gb < lmid.len() ==> lmid[gb as int].level_orders@ == pre.lines()[gb as int].level_orders@.skip(gj));
            assert(forall|m: int|
                0 <= m < pre.lines().len() ==> (#[trigger] lmid[m]).level_price == pre.lines()[m].level_price);
            assert(forall|m: int, k: int|
                #![trigger pre.lines()[m].level_orders@[k]]
                0 <= m < gb && 0 <= k < pre.lines()[m].level_orders@.len()
                    ==> ledmid[pre.lines()[m].level_orders@[k] as int] is None);
            assert(gb < pre.lines().len() ==> forall|k: int|
                0 <= k < gj ==> ledmid[(#[trigger] pre.lines()[gb as int].level_orders@[k]) as int] is None);
            assert(remaining > 0 ==> gb == pre.lines().len());
        }
        while self.orderbook_lines.lines.len() > 0 && self.orderbook_lines.lines[0].level_orders.len() == 0
            invariant
                old(self).wf(),
                units >= 1,
                old(self).fill_frame(*self),
                0 <= gk <= lmid.len(),
                self.lines() == lmid.skip(gk),
                forall|m: int| 0 <= m < gk ==> (#[trigger] lmid[m]).level_orders@.len() == 0,
                self.orders@ == ledmid,
                self.bid_vaults@ == bvmid,
                self.nft_vaults@ == nvmid,
                self.price_levels.wf(),
                self.price_levels@ == line_prices(self.lines()),
                forall|m: int|
                    0 <= m < self.lines().len() ==> line_wf_loose(
                        #[trigger] self.lines()[m],
                        self.ledger(),
                    ),
                ids_distinct(self.lines()),
                self.highest_bid == old(self).highest_bid,
                self.lowest_bid == old(self).lowest_bid,
            decreases self.orderbook_lines.lines.len(),
        {
            let p = self.orderbook_lines.lines[0].level_price;
            let ghost idx0 = self.price_levels@;
            let ghost lns0 = self.lines();
            proof {
                assert(line_prices(lns0)[0] == p);
                assert(idx0[0] == p);
                assert(idx0.contains(p));
            }
            self.price_levels.remove(p);
            proof {
                let w = choose|w: int|
                    0 <= w < idx0.len() && idx0[w] == p && self.price_levels@ =~= idx0.remove(w);
                if w > 0 {
                    assert(idx0[0] > idx0[w]);
                    assert(false);
                }
                assert(self.price_levels@ =~= idx0.remove(0));
            }
            self.orderbook_lines.remove_front();
            proof {
                gk = gk + 1;
                assert(self.lines() =~= lmid.skip(gk)) by {
                    assert(lns0 == lmid.skip(gk - 1));
                    assert(self.lines() =~= lns0.drop_first());
                }
                assert(self.price_levels@ =~= line_prices(self.lines())) by {
                    assert(self.price_levels@ =~= idx0.remove(0));
                }
                assert forall|m: int|
                    0 <= m < self.lines().len() implies line_wf_loose(
                    #[trigger] self.lines()[m],
                    self.ledger(),
                ) by {
                    assert(self.lines()[m] == lns0[m + 1]);
                    assert(line_wf_loose(lns0[m + 1], ledmid));
                }
                assert forall|m1: int, k1: int, m2: int, k2: int|
                    #![trigger self.lines()[m1].level_orders@[k1], self.lines()[m2].level_orders@[k2]]
                    0 <= m1 < self.lines().len() && 0 <= k1 < self.lines()[m1].level_orders@.len()
                        && 0 <= m2 < self.lines().len() && 0 <= k2
                        < self.lines()[m2].level_orders@.len() && (m1 != m2 || k1 != k2) implies
                    self.lines()[m1].level_orders@[k1] != self.lines()[m2].level_orders@[k2] by {
                    assert(self.lines()[m1].level_orders@[k1]
                        == lns0[m1 + 1].level_orders@[k1]);
                    assert(self.lines()[m2].level_orders@[k2]
                        == lns0[m2 + 1].level_orders@[k2]);
                    assert(ids_distinct(lns0));
                }
            }
        }
        if self.orderbook_lines.lines.len() == 0 {
            self.highest_bid = None;
            self.lowest_bid = None;
        } else {
            let hb = self.orderbook_lines.lines[0].level_price;
            let lb = self.orderbook_lines.lines[self.orderbook_lines.lines.len() - 1].level_price;
            self.highest_bid = Some(hb);
            self.lowest_bid = Some(lb);
        }
        let leftover = if remaining > 0 {
            Some(remaining)
        } else {
            None
        };
        proof {
            // the retired prefix covers exactly the fully drained levels
            assert(gk >= gb) by {
                if gk < gb {
                    assert(lmid[gk].level_orders@.len() == 0);
                    assert(self.lines().len() == lmid.len() - gk);
                    assert(self.lines().len() > 0);
                    assert(self.lines()[0] == lmid[gk]);
                    assert(false);
                }
            }
            assert(gk <= gb + 1) by {
                if gk > gb + 1 {
                    assert(lmid[gb + 1].level_orders@.len() == 0);
                    assert(lmid[gb + 1] == pre.lines()[gb + 1]);
                    assert(line_wf(pre.lines()[gb + 1], pre.ledger()));
                    assert(false);
                }
            }
            // every surviving line below the top is an untouched level
            assert forall|m: int| 1 <= m < self.lines().len() implies #[trigger] self.lines()[m]
                == pre.lines()[gk + m] by {
                assert(self.lines()[m] == lmid[gk + m]);
                assert(gk + m > gb);
            }
            assert forall|m: int|
                0 <= m < self.lines().len() implies line_wf(
                #[trigger] self.lines()[m],
                self.ledger(),
            ) by {
                assert(line_wf_loose(self.lines()[m], self.ledger()));
                if m == 0 {
                    assert(self.lines()[0].level_orders@.len() > 0);
                } else {
                    assert(self.lines()[m] == pre.lines()[gk + m]);
                    assert(line_wf(pre.lines()[gk + m], pre.ledger()));
                }
            }
            assert(self.wf());
            let jj: int = if gk == gb {
                gj
            } else {
                0
            };
            let dd: int = if gk == gb {
                gd
            } else {
                0
            };
            assert(self.orders@ == smid.orders@);
            assert(self.bid_vaults@ == smid.bid_vaults@);
            assert(self.nft_vaults@ == smid.nft_vaults@);
            assert(pre.fill_shape(*self, gk, jj, dd)) by {
                if self.lines().len() > 0 {
                    assert(self.lines()[0] == lmid[gk]);
                    if gk == gb {
                        assert(lmid[gb as int].level_orders@ == pre.lines()[
                            gb as int].level_orders@.skip(gj));
                    } else {
                        assert(gk == gb + 1);
                        assert(lmid[gk] == pre.lines()[gk]);
                        assert(pre.lines()[gk].level_orders@.skip(0) =~= pre.lines()[
                            gk].level_orders@);
                    }
                }
                assert forall|m: int, k: int|
                    #![trigger pre.lines()[m].level_orders@[k]]
                    0 <= m < gk && 0 <= k < pre.lines()[m].level_orders@.len() implies
                    pre.consumed_whole(*self, pre.lines()[m].level_orders@[k]) by {
                    if m < gb {
                        assert(pre.consumed_whole(smid, pre.lines()[m].level_orders@[k]));
                    } else {
                        assert(m == gb && gk == gb + 1);
                        assert(lmid[gb as int].level_orders@.len() == 0);
                        assert(pre.lines()[gb as int].level_orders@.skip(gj).len() == 0);
                        assert(gj == pre.lines()[gb as int].level_orders@.len());
                        assert(k < gj);
                        assert(pre.consumed_whole(smid, pre.lines()[gb as int].level_orders@[k]));
                    }
                }
                if self.lines().len() > 0 {
                    assert forall|k: int| 0 <= k < jj implies pre.consumed_whole(
                        *self,
                        (#[trigger] pre.lines()[gk as int].level_orders@[k]),
                    ) by {
                        assert(gk == gb);
                        assert(pre.consumed_whole(smid, pre.lines()[gb as int].level_orders@[k]));
                    }
                    if jj < pre.lines()[gk as int].level_orders@.len() {
                        let hid = pre.lines()[gk as int].level_orders@[jj];
                        if gk == gb {
                            if gd == 0 {
                                assert(pre.untouched_order(smid, hid));
                            } else {
                                assert(pre.partially_filled_order(smid, hid, gd));
                            }
                        } else {
                            assert(pre.untouched_order(smid, hid));
                        }
                    }
                    assert forall|k: int|
                        jj < k < pre.lines()[gk as int].level_orders@.len() implies
                        pre.untouched_order(
                            *self,
                            (#[trigger] pre.lines()[gk as int].level_orders@[k]),
                        ) by {
                        if gk == gb {
                            assert(pre.untouched_order(smid, pre.lines()[gb as int].level_orders@[k]));
                        } else {
                            assert(pre.untouched_order(smid, pre.lines()[gk as int].level_orders@[k]));
                        }
                    }
                }
                assert forall|m: int, k: int|
                    #![trigger pre.lines()[m].level_orders@[k]]
                    gk < m < pre.lines().len() && 0 <= k < pre.lines()[m].level_orders@.len()
                    implies pre.untouched_order(*self, pre.lines()[m].level_orders@[k]) by {
                    assert(m > gb);
                    assert(pre.untouched_order(smid, pre.lines()[m].level_orders@[k]));
                }
            }
            if remaining > 0 {
                assert(gb == pre.lines().len());
                assert(self.lines().len() == 0) by {
                    if self.lines().len() > 0 {
                        assert(self.lines()[0] == lmid[gk]);
                        assert(gk >= gb);
                        assert(gk < lmid.len());
                        assert(false);
                    }
                }
            }
            assert(remaining < units) by {
                if remaining == units {
                    assert(gb == 0 && gb == pre.lines().len());
                    assert(pre.lines().len() > 0);
                    assert(false);
                }
            }
            assert(proceeds@.len() >= 1);
            assert(pre.fill_frame(*self));
        }
        Ok((proceeds, leftover))
    }
}

} // verus!
