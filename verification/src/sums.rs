//! Sums over sequences of balances and over queued orders.
//!
//! These spec functions give the conservation contracts their vocabulary:
//! the total collateral held in custody, the total inventory delivered, and
//! the aggregate quantity and escrow of the orders queued at one price.

use vstd::prelude::*;
use crate::order::Order;

verus! {

/// The sum of a sequence of balances.
pub open spec fn seq_sum(s: Seq<u128>) -> int
    decreases s.len(),
{
    if s.len() == 0 {
        0
    } else {
        seq_sum(s.drop_last()) + s.last()
    }
}

pub proof fn lemma_seq_sum_push(s: Seq<u128>, x: u128)
    ensures
        seq_sum(s.push(x)) == seq_sum(s) + x,
{
    assert(s.push(x).drop_last() =~= s);
}

pub proof fn lemma_seq_sum_update(s: Seq<u128>, i: int, x: u128)
    requires
        0 <= i < s.len(),
    ensures
        seq_sum(s.update(i, x)) == seq_sum(s) - s[i] + x,
    decreases s.len(),
{
    if i == s.len() - 1 {
        assert(s.update(i, x).drop_last() =~= s.drop_last());
    } else {
        assert(s.update(i, x).drop_last() =~= s.drop_last().update(i, x));
        lemma_seq_sum_update(s.drop_last(), i, x);
    }
}

/// The remaining quantity recorded in the ledger for order `id`, or zero
/// when the ledger holds no such order.
pub open spec fn qty_at(ledger: Seq<Option<Order>>, id: usize) -> int {
    if id < ledger.len() && ledger[id as int] is Some {
        ledger[id as int]->Some_0.order_qty as int
    } else {
        0
    }
}

/// The escrowed total recorded in the ledger for order `id`, or zero when
/// the ledger holds no such order.
pub open spec fn total_at(ledger: Seq<Option<Order>>, id: usize) -> int {
    if id < ledger.len() && ledger[id as int] is Some {
        ledger[id as int]->Some_0.order_total as int
    } else {
        0
    }
}

/// The aggregate remaining unit count of the orders named by `ids`.
pub open spec fn ids_qty_sum(ids: Seq<usize>, ledger: Seq<Option<Order>>) -> int
    decreases ids.len(),
{
    if ids.len() == 0 {
        0
    } else {
        qty_at(ledger, ids[0]) + ids_qty_sum(ids.drop_first(), ledger)
    }
}

/// The aggregate escrowed value of the orders named by `ids`.
pub open spec fn ids_total_sum(ids: Seq<usize>, ledger: Seq<Option<Order>>) -> int
    decreases ids.len(),
{
    if ids.len() == 0 {
        0
    } else {
        total_at(ledger, ids[0]) + ids_total_sum(ids.drop_first(), ledger)
    }
}

/// Appending an order id adds that order's quantity and total to the
/// aggregates.
pub proof fn lemma_ids_sums_push(ids: Seq<usize>, ledger: Seq<Option<Order>>, id: usize)
    ensures
        ids_qty_sum(ids.push(id), ledger) == ids_qty_sum(ids, ledger) + qty_at(ledger, id),
        ids_total_sum(ids.push(id), ledger) == ids_total_sum(ids, ledger) + total_at(ledger, id),
    decreases ids.len(),
{
    let s = ids.push(id);
    assert(s.len() == ids.len() + 1);
    assert(ids_qty_sum(s, ledger) == qty_at(ledger, s[0]) + ids_qty_sum(s.drop_first(), ledger));
    assert(ids_total_sum(s, ledger) == total_at(ledger, s[0]) + ids_total_sum(
        s.drop_first(),
        ledger,
    ));
    if ids.len() == 0 {
        assert(s[0] == id);
        assert(s.drop_first() =~= Seq::<usize>::empty());
        assert(ids_qty_sum(s.drop_first(), ledger) == 0);
        assert(ids_total_sum(s.drop_first(), ledger) == 0);
    } else {
        assert(s.drop_first() =~= ids.drop_first().push(id));
        assert(s[0] == ids[0]);
        lemma_ids_sums_push(ids.drop_first(), ledger, id);
    }
}

pub proof fn lemma_ids_sums_nonneg(ids: Seq<usize>, ledger: Seq<Option<Order>>)
    ensures
        0 <= ids_qty_sum(ids, ledger),
        0 <= ids_total_sum(ids, ledger),
    decreases ids.len(),
{
    if ids.len() > 0 {
        lemma_ids_sums_nonneg(ids.drop_first(), ledger);
    }
}

/// The aggregates over `ids` do not read ledger slots outside `ids`, so
/// changing such a slot leaves them unchanged.
pub proof fn lemma_ids_sums_untouched(
    ids: Seq<usize>,
    ledger: Seq<Option<Order>>,
    other: Seq<Option<Order>>,
)
    requires
        forall|k: int|
            0 <= k < ids.len() ==> qty_at(ledger, ids[k]) == qty_at(other, ids[k])
                && total_at(ledger, ids[k]) == total_at(other, ids[k]),
    ensures
        ids_qty_sum(ids, ledger) == ids_qty_sum(ids, other),
        ids_total_sum(ids, ledger) == ids_total_sum(ids, other),
    decreases ids.len(),
{
    if ids.len() > 0 {
        assert(qty_at(ledger, ids[0]) == qty_at(other, ids[0]));
        assert(forall|k: int|
            0 <= k < ids.drop_first().len() ==> ids.drop_first()[k] == ids[k + 1]);
        lemma_ids_sums_untouched(ids.drop_first(), ledger, other);
    }
}

} // verus!
