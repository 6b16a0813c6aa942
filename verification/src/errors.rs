//! The failure taxonomy of the bid book.
//!
//! Every failure is an eager precondition check: a failed operation leaves
//! the book untouched and escrows nothing.

use vstd::prelude::*;

verus! {

/// Why an operation on the bid book was refused.
#[derive(Clone, Copy, Debug, PartialEq, Eq)]
pub enum SwapError {
    /// The bid price was not positive.
    InvalidPrice,
    /// The supplied collateral or inventory amount was not positive.
    InvalidAmount,
    /// Collateral was not the accepted settlement asset, or inventory was
    /// not from the configured collection. The engine itself never raises
    /// this: asset identity is checked by the embedding host.
    WrongAsset,
    /// The derived order quantity is not a whole number of units.
    FractionalQuantity,
    /// The derived order quantity is zero.
    InvalidQuantity,
    /// A fill was requested while no bids were queued.
    NoLiquidity,
    /// An arithmetic branch reached a state that should be unreachable.
    /// The engine itself never raises this: the unreachable branches are
    /// proved unreachable.
    InvariantViolation,
}

} // verus!
