//! A single-collection limit-order bid book.
//!
//! Buyers escrow fungible collateral as standing bids against a fixed
//! non-fungible collection; sellers deliver inventory units that are matched,
//! best price first and FIFO within a price level, against the queued bids.
//! Amounts and prices are fixed-point values counted in subunits of
//! `10^-18`; inventory is counted in whole units.

pub mod errors;
pub mod order;
pub mod quantity;
pub mod sums;
pub mod price_index;
pub mod book_line;
pub mod order_ledger;
pub mod custody;
pub mod engine;
pub mod laws;
