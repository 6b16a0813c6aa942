use hello_swap::errors::SwapError;
use hello_swap::quantity::{derive_quantity, SUBUNITS};

const E: u128 = SUBUNITS;

#[test]
fn whole_quotients_are_accepted() {
    assert_eq!(derive_quantity(100 * E, 10 * E), Ok(10));
    assert_eq!(derive_quantity(E, E), Ok(1));
    assert_eq!(derive_quantity(1, 1), Ok(1));
    assert_eq!(derive_quantity(21 * E, 3 * E), Ok(7));
}

#[test]
fn fractional_quotients_are_refused() {
    assert_eq!(derive_quantity(15 * E, 2 * E), Err(SwapError::FractionalQuantity));
    assert_eq!(derive_quantity(E + 1, E), Err(SwapError::FractionalQuantity));
}

#[test]
fn zero_quantities_are_refused() {
    assert_eq!(derive_quantity(1, 2 * E), Err(SwapError::InvalidQuantity));
    assert_eq!(derive_quantity(1, E + 1), Err(SwapError::InvalidQuantity));
}

#[test]
fn slack_below_one_subunit_of_quantity_floors_away() {
    // at price 10, anything in [100, 100 + 1e-17) floors to exactly 10
    assert_eq!(derive_quantity(100 * E + 9, 10 * E), Ok(10));
    assert_eq!(derive_quantity(100 * E + 10, 10 * E), Err(SwapError::FractionalQuantity));
}

#[test]
fn extreme_values_divide_exactly() {
    assert_eq!(derive_quantity(u128::MAX, 1), Ok(u128::MAX));
    let c = u128::MAX - (u128::MAX % (3 * E));
    assert_eq!(derive_quantity(c, 3 * E), Ok(c / (3 * E)));
}
