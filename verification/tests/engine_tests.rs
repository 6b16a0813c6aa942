use hello_swap::engine::HelloSwap;
use hello_swap::errors::SwapError;
use hello_swap::order::OrderStatus;
use hello_swap::quantity::SUBUNITS;

// one whole value unit, in subunits
const E: u128 = SUBUNITS;

fn dec(n: u128) -> u128 {
    n * E
}

#[test]
fn test_instantiate_price_one() {
    let book = HelloSwap::instantiate_collection_bidbook(1);
    assert_eq!(book.collection, 1);
    assert_eq!(book.highest_bid, None);
    assert_eq!(book.lowest_bid, None);
    assert_eq!(book.latest_order, 0);
    assert_eq!(book.sequence_number, 0);
    assert!(!book.has_order(0));
}

#[test]
fn place_bid_quantity_example() {
    // collateral 100 at price 10 buys exactly 10 units
    let mut book = HelloSwap::instantiate_collection_bidbook(7);
    let receipt = book.place_bid(dec(100), dec(10), 60).unwrap();
    assert_eq!(receipt.order_id, 0);
    assert_eq!(receipt.order_qty, 10);
    assert_eq!(receipt.order_price, dec(10));
    assert_eq!(receipt.order_total, dec(100));
    assert_eq!(receipt.order_time, 60);
    assert_eq!(receipt.order_sequence, 0);
    assert_eq!(receipt.order_status, OrderStatus::OPEN);
    assert_eq!(book.highest_bid, Some(dec(10)));
    assert_eq!(book.lowest_bid, Some(dec(10)));
    let order = book.get_order(0);
    assert_eq!(order.order_qty, 10);
    assert_eq!(order.order_status, OrderStatus::OPEN);
}

#[test]
fn place_bid_rejects_zero_price() {
    let mut book = HelloSwap::instantiate_collection_bidbook(7);
    assert_eq!(book.place_bid(dec(100), 0, 60), Err(SwapError::InvalidPrice));
}

#[test]
fn place_bid_rejects_zero_collateral() {
    let mut book = HelloSwap::instantiate_collection_bidbook(7);
    assert_eq!(book.place_bid(0, dec(10), 60), Err(SwapError::InvalidAmount));
}

#[test]
fn place_bid_rejects_fractional_quantity() {
    // 105 / 10 = 10.5 units: not a whole number
    let mut book = HelloSwap::instantiate_collection_bidbook(7);
    assert_eq!(
        book.place_bid(dec(105), dec(10), 60),
        Err(SwapError::FractionalQuantity)
    );
    assert!(!book.has_order(0));
    assert_eq!(book.highest_bid, None);
}

#[test]
fn place_bid_rejects_zero_quantity() {
    // one subunit of collateral at price 2 floors to exactly zero units
    let mut book = HelloSwap::instantiate_collection_bidbook(7);
    assert_eq!(book.place_bid(1, dec(2), 60), Err(SwapError::InvalidQuantity));
}

#[test]
fn place_bid_admits_sub_subunit_slack() {
    // at price 10, collateral 100 + 5e-18 still floors to 10.000...0 at 18
    // digits: the bid is accepted and the whole collateral is escrowed
    let mut book = HelloSwap::instantiate_collection_bidbook(7);
    let receipt = book.place_bid(dec(100) + 5, dec(10), 60).unwrap();
    assert_eq!(receipt.order_qty, 10);
    assert_eq!(receipt.order_total, dec(100) + 5);
    let (proceeds, leftover) = book.fill_bid(10).unwrap();
    assert_eq!(proceeds, vec![dec(100) + 5]);
    assert_eq!(leftover, None);
}

#[test]
fn sequence_counter_tracks_timestamps() {
    let mut book = HelloSwap::instantiate_collection_bidbook(7);
    let r0 = book.place_bid(dec(10), dec(10), 60).unwrap();
    let r1 = book.place_bid(dec(20), dec(10), 60).unwrap();
    let r2 = book.place_bid(dec(30), dec(10), 120).unwrap();
    assert_eq!((r0.order_time, r0.order_sequence), (60, 0));
    assert_eq!((r1.order_time, r1.order_sequence), (60, 1));
    assert_eq!((r2.order_time, r2.order_sequence), (120, 0));
    assert_eq!(book.latest_order, 120);
    assert_eq!(book.sequence_number, 0);
}

#[test]
fn fill_bid_exact_match() {
    // place_bid(100, 10) then fill 10 units: proceeds [100], no leftover,
    // the order leaves the ledger and the book line at price 10 is retired
    let mut book = HelloSwap::instantiate_collection_bidbook(7);
    let receipt = book.place_bid(dec(100), dec(10), 60).unwrap();
    assert_eq!(receipt.order_qty, 10);
    let (proceeds, leftover) = book.fill_bid(10).unwrap();
    assert_eq!(proceeds, vec![dec(100)]);
    assert_eq!(leftover, None);
    assert!(!book.has_order(0));
    assert_eq!(book.orderbook_lines.lines.len(), 0);
    assert_eq!(book.price_levels.prices.len(), 0);
    assert_eq!(book.highest_bid, None);
    assert_eq!(book.lowest_bid, None);
    // the delivered units sit in the order's inventory vault
    assert_eq!(book.nft_vaults.balances[0], 10);
    assert_eq!(book.bid_vaults.balances[0], 0);
}

#[test]
fn fill_bid_surplus_returns_leftover() {
    // place_bid(50, 10) buys 5 units; filling 8 leaves 3 undelivered
    let mut book = HelloSwap::instantiate_collection_bidbook(7);
    let receipt = book.place_bid(dec(50), dec(10), 60).unwrap();
    assert_eq!(receipt.order_qty, 5);
    let (proceeds, leftover) = book.fill_bid(8).unwrap();
    assert_eq!(proceeds, vec![dec(50)]);
    assert_eq!(leftover, Some(3));
    assert!(!book.has_order(0));
    assert_eq!(book.highest_bid, None);
    assert_eq!(book.lowest_bid, None);
}

#[test]
fn fill_bid_deficit_leaves_partial_order() {
    // place_bid(100, 10) buys 10 units; filling 4 pays out 40 and leaves
    // the order PARTIAL with 6 units and 60 still escrowed
    let mut book = HelloSwap::instantiate_collection_bidbook(7);
    let receipt = book.place_bid(dec(100), dec(10), 60).unwrap();
    assert_eq!(receipt.order_qty, 10);
    let (proceeds, leftover) = book.fill_bid(4).unwrap();
    assert_eq!(proceeds, vec![dec(40)]);
    assert_eq!(leftover, None);
    let order = book.get_order(0);
    assert_eq!(order.order_status, OrderStatus::PARTIAL);
    assert_eq!(order.order_qty, 6);
    assert_eq!(order.order_total, dec(60));
    assert_eq!(book.bid_vaults.balances[0], dec(60));
    assert_eq!(book.nft_vaults.balances[0], 4);
    // the level keeps the remainder queued and stays the best bid
    assert_eq!(book.highest_bid, Some(dec(10)));
    assert_eq!(book.orderbook_lines.lines[0].level_qty, 6);
    assert_eq!(book.orderbook_lines.lines[0].level_total, dec(60));
}

#[test]
fn fill_bid_follows_fifo_within_level() {
    // two bids at one price: the earlier (time, sequence) fills first
    let mut book = HelloSwap::instantiate_collection_bidbook(7);
    book.place_bid(dec(100), dec(10), 60).unwrap();
    book.place_bid(dec(100), dec(10), 60).unwrap();
    let (proceeds, leftover) = book.fill_bid(12).unwrap();
    assert_eq!(proceeds, vec![dec(100), dec(20)]);
    assert_eq!(leftover, None);
    assert!(!book.has_order(0));
    let second = book.get_order(1);
    assert_eq!(second.order_status, OrderStatus::PARTIAL);
    assert_eq!(second.order_qty, 8);
    assert_eq!(second.order_sequence, 1);
}

#[test]
fn fill_bid_takes_best_price_first() {
    // a bid at 5 arrives before a bid at 10; the fill still consumes the
    // higher price level first
    let mut book = HelloSwap::instantiate_collection_bidbook(7);
    book.place_bid(dec(50), dec(5), 60).unwrap();
    book.place_bid(dec(100), dec(10), 61).unwrap();
    assert_eq!(book.highest_bid, Some(dec(10)));
    assert_eq!(book.lowest_bid, Some(dec(5)));
    let (proceeds, leftover) = book.fill_bid(12).unwrap();
    assert_eq!(proceeds, vec![dec(100), dec(10)]);
    assert_eq!(leftover, None);
    assert!(!book.has_order(1));
    let low = book.get_order(0);
    assert_eq!(low.order_status, OrderStatus::PARTIAL);
    assert_eq!(low.order_qty, 8);
    assert_eq!(book.highest_bid, Some(dec(5)));
    assert_eq!(book.lowest_bid, Some(dec(5)));
}

#[test]
fn fill_bid_drains_levels_and_returns_leftover() {
    let mut book = HelloSwap::instantiate_collection_bidbook(7);
    book.place_bid(dec(50), dec(10), 60).unwrap();
    book.place_bid(dec(25), dec(5), 60).unwrap();
    let (proceeds, leftover) = book.fill_bid(13).unwrap();
    assert_eq!(proceeds, vec![dec(50), dec(25)]);
    assert_eq!(leftover, Some(3));
    assert_eq!(book.orderbook_lines.lines.len(), 0);
    assert_eq!(book.highest_bid, None);
    assert_eq!(book.lowest_bid, None);
}

#[test]
fn fill_bid_rejects_empty_batch() {
    let mut book = HelloSwap::instantiate_collection_bidbook(7);
    book.place_bid(dec(100), dec(10), 60).unwrap();
    assert_eq!(book.fill_bid(0), Err(SwapError::InvalidAmount));
}

#[test]
fn fill_bid_without_bids_is_no_liquidity() {
    let mut book = HelloSwap::instantiate_collection_bidbook(7);
    assert_eq!(book.fill_bid(5), Err(SwapError::NoLiquidity));
}

#[test]
fn drained_book_refuses_further_fills() {
    // once the book is fully drained both bounds are gone and the next
    // fill refuses with NoLiquidity
    let mut book = HelloSwap::instantiate_collection_bidbook(7);
    book.place_bid(dec(100), dec(10), 60).unwrap();
    let (_, leftover) = book.fill_bid(10).unwrap();
    assert_eq!(leftover, None);
    assert_eq!(book.highest_bid, None);
    assert_eq!(book.lowest_bid, None);
    assert_eq!(book.fill_bid(1), Err(SwapError::NoLiquidity));
}

#[test]
fn collateral_and_inventory_are_conserved() {
    // custody plus proceeds equals everything deposited; delivered units
    // plus leftover equals everything submitted
    let mut book = HelloSwap::instantiate_collection_bidbook(7);
    let deposited = dec(100) + dec(50) + dec(30);
    book.place_bid(dec(100), dec(10), 60).unwrap();
    book.place_bid(dec(50), dec(10), 60).unwrap();
    book.place_bid(dec(30), dec(5), 61).unwrap();
    let custody_after_place: u128 = book.bid_vaults.balances.iter().sum();
    assert_eq!(custody_after_place, deposited);

    let submitted: u128 = 13;
    let (proceeds, leftover) = book.fill_bid(submitted).unwrap();
    let paid_out: u128 = proceeds.iter().sum();
    let custody: u128 = book.bid_vaults.balances.iter().sum();
    assert_eq!(custody + paid_out, deposited);

    let delivered: u128 = book.nft_vaults.balances.iter().sum();
    assert_eq!(delivered + leftover.unwrap_or(0), submitted);
}

#[test]
fn partial_order_can_finish_filling() {
    // a PARTIAL order is matched against its remaining quantity later
    let mut book = HelloSwap::instantiate_collection_bidbook(7);
    book.place_bid(dec(100), dec(10), 60).unwrap();
    book.fill_bid(4).unwrap();
    let (proceeds, leftover) = book.fill_bid(6).unwrap();
    assert_eq!(proceeds, vec![dec(60)]);
    assert_eq!(leftover, None);
    assert!(!book.has_order(0));
    assert_eq!(book.nft_vaults.balances[0], 10);
    assert_eq!(book.highest_bid, None);
}

#[test]
fn bounds_follow_the_extreme_prices() {
    let mut book = HelloSwap::instantiate_collection_bidbook(7);
    book.place_bid(dec(10), dec(10), 60).unwrap();
    assert_eq!(book.highest_bid, Some(dec(10)));
    assert_eq!(book.lowest_bid, Some(dec(10)));
    book.place_bid(dec(10), dec(2), 60).unwrap();
    assert_eq!(book.highest_bid, Some(dec(10)));
    assert_eq!(book.lowest_bid, Some(dec(2)));
    book.place_bid(dec(20), dec(20), 60).unwrap();
    assert_eq!(book.highest_bid, Some(dec(20)));
    assert_eq!(book.lowest_bid, Some(dec(2)));
}
