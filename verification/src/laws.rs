//! The book-wide laws of the matching engine.
//!
//! Conservation of collateral and of inventory is stated on the contracts
//! of `place_bid` and `fill_bid` themselves. The laws here relate the two
//! operations to arrival order and to price priority, and pin down the
//! bounds of a drained book.

use vstd::prelude::*;
use crate::book_line::line_prices;
use crate::engine::HelloSwap;
use crate::order::{Order, OrderReceipt};

verus! {

/// `a` arrived strictly before `b`: its coarse timestamp is earlier, or
/// equal with a smaller per-timestamp sequence number.
pub open spec fn arrives_before(a: Order, b: Order) -> bool {
    ||| a.order_time < b.order_time
    ||| (a.order_time == b.order_time && a.order_sequence < b.order_sequence)
}

/// The live order under `id`.
pub open spec fn order_of(e: HelloSwap, id: usize) -> Order {
    e.ledger()[id as int]->Some_0
}

/// The identifiers in `ids` name ledger orders queued in arrival order.
pub open spec fn fifo_sorted(ids: Seq<usize>, e: HelloSwap) -> bool {
    forall|k1: int, k2: int|
        0 <= k1 < k2 < ids.len() ==> arrives_before(
            order_of(e, #[trigger] ids[k1]),
            order_of(e, #[trigger] ids[k2]),
        )
}

/// Every queued line of the book is in arrival order.
pub open spec fn book_fifo_sorted(e: HelloSwap) -> bool {
    forall|m: int|
        0 <= m < e.lines().len() ==> fifo_sorted((#[trigger] e.lines()[m]).level_orders@, e)
}

/// Every ledger order arrived no later than the cursor: its timestamp is
/// older than `latest_order`, or equal with a sequence number at most
/// `sequence_number`. A monotone clock keeps this true.
pub open spec fn cursor_fresh(e: HelloSwap) -> bool {
    forall|id: int|
        0 <= id < e.ledger().len() && (#[trigger] e.ledger()[id]) is Some ==> {
            let o = e.ledger()[id]->Some_0;
            o.order_time < e.latest_order || (o.order_time == e.latest_order
                && o.order_sequence <= e.sequence_number)
        }
}

/// FIFO order is an invariant of `place_bid` under a monotone clock: a bid
/// observed at `now`, no earlier than the cursor, joins the back of its
/// price level's queue with an arrival key strictly after every queued
/// order's, so every queue stays in arrival order.
pub proof fn lemma_place_bid_keeps_fifo(
    pre: HelloSwap,
    post: HelloSwap,
    receipt: OrderReceipt,
    collateral: u128,
    order_price: u128,
    now: i64,
)
    requires
        pre.wf(),
        pre.place_effect(post, receipt, collateral, order_price, now),
        cursor_fresh(pre),
        book_fifo_sorted(pre),
        now >= pre.latest_order,
    ensures
        cursor_fresh(post),
        book_fifo_sorted(post),
{
    let id = receipt.order_id;
    let newo = HelloSwap::placed_order(receipt);
    assert(post.orders@[id as int] == Some(newo));
    assert forall|id2: int|
        0 <= id2 < post.ledger().len() && (#[trigger] post.ledger()[id2]) is Some implies {
        let o = post.ledger()[id2]->Some_0;
        o.order_time < post.latest_order || (o.order_time == post.latest_order
            && o.order_sequence <= post.sequence_number)
    } by {
        if id2 < pre.ledger().len() {
            assert(post.ledger()[id2] == pre.ledger()[id2]);
        }
    }
    assert forall|id2: int|
        0 <= id2 < pre.ledger().len() && (#[trigger] pre.ledger()[id2]) is Some implies
        arrives_before(pre.ledger()[id2]->Some_0, newo) by {
        let o = pre.ledger()[id2]->Some_0;
        if now == pre.latest_order {
            assert(newo.order_sequence == pre.sequence_number + 1);
        }
    }
    if line_prices(pre.lines()).contains(order_price) {
        let i = choose|i: int|
            {
                &&& 0 <= i < pre.lines().len()
                &&& (#[trigger] pre.lines()[i]).level_price == order_price
                &&& post.lines().len() == pre.lines().len()
                &&& forall|m: int|
                    0 <= m < pre.lines().len() && m != i ==> post.lines()[m] == pre.lines()[m]
                &&& post.lines()[i].level_price == order_price
                &&& post.lines()[i].level_qty == pre.lines()[i].level_qty + receipt.order_qty
                &&& post.lines()[i].level_total == pre.lines()[i].level_total + collateral
                &&& post.lines()[i].level_orders@ == pre.lines()[i].level_orders@.push(
                    receipt.order_id,
                )
            };
        assert forall|m: int|
            0 <= m < post.lines().len() implies fifo_sorted(
            (#[trigger] post.lines()[m]).level_orders@,
            post,
        ) by {
            if m == i {
                let ids0 = pre.lines()[i].level_orders@;
                let ids1 = post.lines()[i].level_orders@;
                assert forall|k1: int, k2: int|
                    0 <= k1 < k2 < ids1.len() implies arrives_before(
                    order_of(post, #[trigger] ids1[k1]),
                    order_of(post, #[trigger] ids1[k2]),
                ) by {
                    assert(crate::book_line::line_entry_ok(pre.lines()[i], pre.ledger(), k1));
                    assert(ids1[k1] == ids0[k1]);
                    assert(post.ledger()[ids0[k1] as int] == pre.ledger()[ids0[k1] as int]);
                    if k2 < ids0.len() {
                        assert(crate::book_line::line_entry_ok(
                            pre.lines()[i],
                            pre.ledger(),
                            k2,
                        ));
                        assert(post.ledger()[ids0[k2] as int] == pre.ledger()[ids0[k2] as int]);
                        assert(arrives_before(order_of(pre, ids0[k1]), order_of(pre, ids0[k2])));
                    } else {
                        assert(ids1[k2] == id);
                    }
                }
            } else {
                assert(post.lines()[m] == pre.lines()[m]);
                let ids0 = pre.lines()[m].level_orders@;
                assert forall|k1: int, k2: int|
                    0 <= k1 < k2 < ids0.len() implies arrives_before(
                    order_of(post, #[trigger] ids0[k1]),
                    order_of(post, #[trigger] ids0[k2]),
                ) by {
                    assert(crate::book_line::line_entry_ok(pre.lines()[m], pre.ledger(), k1));
                    assert(crate::book_line::line_entry_ok(pre.lines()[m], pre.ledger(), k2));
                    assert(post.ledger()[ids0[k1] as int] == pre.ledger()[ids0[k1] as int]);
                    assert(post.ledger()[ids0[k2] as int] == pre.ledger()[ids0[k2] as int]);
                    assert(arrives_before(order_of(pre, ids0[k1]), order_of(pre, ids0[k2])));
                }
            }
        }
    } else {
        let i = choose|i: int|
            {
                &&& 0 <= i <= pre.lines().len()
                &&& post.lines() == pre.lines().insert(i, (#[trigger] post.lines()[i]))
                &&& post.lines()[i].level_price == order_price
                &&& post.lines()[i].level_qty == receipt.order_qty
                &&& post.lines()[i].level_total == collateral
                &&& post.lines()[i].level_orders@ == seq![receipt.order_id]
                &&& forall|j: int| 0 <= j < i ==> pre.lines()[j].level_price > order_price
                &&& forall|j: int|
                    i <= j < pre.lines().len() ==> pre.lines()[j].level_price < order_price
            };
        assert forall|m: int|
            0 <= m < post.lines().len() implies fifo_sorted(
            (#[trigger] post.lines()[m]).level_orders@,
            post,
        ) by {
            if m == i {
                assert(post.lines()[m].level_orders@.len() == 1);
            } else {
                let mm: int = if m < i {
                    m
                } else {
                    m - 1
                };
                assert(post.lines()[m] == pre.lines()[mm]);
                let ids0 = pre.lines()[mm].level_orders@;
                assert forall|k1: int, k2: int|
                    0 <= k1 < k2 < ids0.len() implies arrives_before(
                    order_of(post, #[trigger] ids0[k1]),
                    order_of(post, #[trigger] ids0[k2]),
                ) by {
                    assert(crate::book_line::line_entry_ok(pre.lines()[mm], pre.ledger(), k1));
                    assert(crate::book_line::line_entry_ok(pre.lines()[mm], pre.ledger(), k2));
                    assert(post.ledger()[ids0[k1] as int] == pre.ledger()[ids0[k1] as int]);
                    assert(post.ledger()[ids0[k2] as int] == pre.ledger()[ids0[k2] as int]);
                    assert(arrives_before(order_of(pre, ids0[k1]), order_of(pre, ids0[k2])));
                }
            }
        }
    }
}

/// FIFO order is an invariant of `fill_bid` as well: a fill consumes each
/// level's queue from the front and never reorders what it leaves, so
/// every surviving queue is still in arrival order, under the unchanged
/// cursor.
pub proof fn lemma_fill_bid_keeps_fifo(pre: HelloSwap, post: HelloSwap, kk: int, j: int, d: int)
    requires
        pre.wf(),
        post.wf(),
        pre.fill_shape(post, kk, j, d),
        pre.fill_frame(post),
        book_fifo_sorted(pre),
        cursor_fresh(pre),
    ensures
        book_fifo_sorted(post),
        cursor_fresh(post),
{
    assert forall|id2: int|
        0 <= id2 < post.ledger().len() && (#[trigger] post.ledger()[id2]) is Some implies {
        let o = post.ledger()[id2]->Some_0;
        o.order_time < post.latest_order || (o.order_time == post.latest_order
            && o.order_sequence <= post.sequence_number)
    } by {
        assert(pre.ledger()[id2] is Some);
    }
    assert forall|m: int|
        0 <= m < post.lines().len() implies fifo_sorted(
        (#[trigger] post.lines()[m]).level_orders@,
        post,
    ) by {
        let src: int = kk + m;
        let ids0 = pre.lines()[src].level_orders@;
        let ids1 = post.lines()[m].level_orders@;
        let off: int = if m == 0 {
            j
        } else {
            0
        };
        assert(fifo_sorted(ids0, pre));
        if m == 0 {
            assert(ids1 == ids0.skip(j));
        } else {
            assert(post.lines()[m] == pre.lines()[src]);
            assert(ids1 == ids0.skip(0));
        }
        assert forall|k1: int, k2: int|
            0 <= k1 < k2 < ids1.len() implies arrives_before(
            order_of(post, #[trigger] ids1[k1]),
            order_of(post, #[trigger] ids1[k2]),
        ) by {
            assert(ids1[k1] == ids0[k1 + off]);
            assert(ids1[k2] == ids0[k2 + off]);
            assert(arrives_before(order_of(pre, ids0[k1 + off]), order_of(pre, ids0[k2 + off])));
            assert(crate::book_line::line_entry_ok(post.lines()[m], post.ledger(), k1));
            assert(crate::book_line::line_entry_ok(post.lines()[m], post.ledger(), k2));
            assert(crate::book_line::line_entry_ok(pre.lines()[src], pre.ledger(), k1 + off));
            assert(crate::book_line::line_entry_ok(pre.lines()[src], pre.ledger(), k2 + off));
        }
    }
}

/// FIFO fairness: in one fill, within the one price level that was only
/// partly consumed, the consumed orders form a prefix of the queue — so
/// when the queue stands in arrival order, every consumed order arrived
/// strictly before every order left waiting at that price.
pub proof fn lemma_fifo_fairness(
    pre: HelloSwap,
    post: HelloSwap,
    kk: int,
    j: int,
    d: int,
    k1: int,
    k2: int,
)
    requires
        pre.wf(),
        pre.fill_shape(post, kk, j, d),
        post.lines().len() > 0,
        fifo_sorted(pre.lines()[kk].level_orders@, pre),
        0 <= k1 < j,
        j <= k2 < pre.lines()[kk].level_orders@.len(),
    ensures
        arrives_before(
            order_of(pre, pre.lines()[kk].level_orders@[k1]),
            order_of(pre, pre.lines()[kk].level_orders@[k2]),
        ),
        post.ledger()[pre.lines()[kk].level_orders@[k1] as int] is None,
        post.bid_vaults@[pre.lines()[kk].level_orders@[k1] as int] == 0,
        post.lines()[0].level_orders@.contains(pre.lines()[kk].level_orders@[k2]),
{
    let ids = pre.lines()[kk].level_orders@;
    assert(post.lines()[0].level_orders@ == ids.skip(j));
    assert(ids.skip(j)[k2 - j] == ids[k2]);
    assert(post.lines()[0].level_orders@.contains(ids[k2]));
}

/// Best-price priority: a fill never consumes from a lower price level
/// while a higher one keeps outstanding quantity. Every level a fill
/// consumed from stands at or above every level it left standing.
pub proof fn lemma_best_price_priority(
    pre: HelloSwap,
    post: HelloSwap,
    kk: int,
    j: int,
    d: int,
    m1: int,
    m2: int,
)
    requires
        pre.wf(),
        pre.fill_shape(post, kk, j, d),
        0 <= m1 <= kk,
        m1 < pre.lines().len(),
        0 <= m2 < post.lines().len(),
    ensures
        pre.lines()[m1].level_price >= post.lines()[m2].level_price,
{
    let ps = line_prices(pre.lines());
    if m2 == 0 {
        assert(post.lines()[0].level_price == pre.lines()[kk].level_price);
        if m1 < kk {
            assert(ps[m1] > ps[kk]);
        }
    } else {
        assert(post.lines()[m2] == pre.lines()[kk + m2]);
        assert(ps[m1] > ps[kk + m2]);
    }
}

/// A fully drained book: when no book line remains, both cached bounds are
/// absent — and `fill_bid` on such a book refuses with `NoLiquidity`, by
/// its own contract.
pub proof fn lemma_drained_book_bounds(e: HelloSwap)
    requires
        e.wf(),
        e.lines().len() == 0,
    ensures
        e.highest_bid is None,
        e.lowest_bid is None,
{
}

} // verus!
