//! Deriving an order quantity from collateral and price.
//!
//! Collateral and prices are fixed-point values counted in subunits of
//! `10^-18`. The quantity of an order is the quotient `collateral / price`,
//! rounded toward negative infinity at the full 18 fractional digits; a bid
//! is accepted only when that floored quotient has no fractional part at all
//! and is positive.

use vstd::prelude::*;
use vstd::arithmetic::div_mod::lemma_fundamental_div_mod;
use vstd::arithmetic::div_mod::lemma_fundamental_div_mod_converse;
use crate::errors::SwapError;

verus! {

/// Subunits per whole unit of value: fixed-point scale of 18 fractional
/// digits.
pub const SUBUNITS: u128 = 1_000_000_000_000_000_000;

/// The quotient `c / p`, expressed in quantity subunits and rounded toward
/// negative infinity: 18 fractional digits of precision.
pub open spec fn floored_quotient_subunits(c: int, p: int) -> int {
    (c * SUBUNITS) / p
}

/// The floored quotient `c / p` has no nonzero digit after the decimal
/// point.
pub open spec fn whole_quantity(c: int, p: int) -> bool {
    floored_quotient_subunits(c, p) % (SUBUNITS as int) == 0
}

/// The whole number of units bought by collateral `c` at price `p`.
pub open spec fn spec_quantity(c: int, p: int) -> int {
    c / p
}

/// The floored 18-digit quotient splits into a whole part `c / p` and a
/// fractional part `(c % p) * SUBUNITS / p` below one unit; the quotient is
/// whole exactly when `(c % p) * SUBUNITS < p`, and then it equals `c / p`.
pub proof fn lemma_whole_quantity(c: int, p: int)
    requires
        0 <= c,
        1 <= p,
    ensures
        whole_quantity(c, p) <==> (c % p) * SUBUNITS < p,
        whole_quantity(c, p) ==> floored_quotient_subunits(c, p) == spec_quantity(c, p) * SUBUNITS,
{
    let e = SUBUNITS as int;
    let q = c / p;
    let r = c % p;
    let t = (r * e) / p;
    let u = (r * e) % p;
    lemma_fundamental_div_mod(c, p);
    lemma_fundamental_div_mod(r * e, p);
    assert(0 <= r < p);
    assert(0 <= u < p);
    assert(c * e == (q * e) * p + (t * p + u)) by (nonlinear_arith)
        requires
            c == p * q + r,
            r * e == p * t + u,
    ;
    assert(t * p + u < e * p ==> t < e) by (nonlinear_arith)
        requires
            0 <= u,
            0 < p,
    ;
    assert(r * e <= (p - 1) * e) by (nonlinear_arith)
        requires
            r <= p - 1,
            0 < e,
    ;
    assert((p - 1) * e == p * e - e) by (nonlinear_arith);
    assert(t * p + u < e * p);
    assert(0 <= t < e);
    assert((q * e) * p + (t * p + u) == (q * e + t) * p + u) by (nonlinear_arith);
    lemma_fundamental_div_mod_converse(c * e, p, q * e + t, u);
    assert(floored_quotient_subunits(c, p) == q * e + t);
    lemma_fundamental_div_mod_converse(q * e + t, e, q, t);
    assert(floored_quotient_subunits(c, p) % e == t);
    assert(t == 0 <==> r * e < p) by {
        lemma_fundamental_div_mod(r * e, p);
        if r * e < p {
            lemma_fundamental_div_mod_converse(r * e, p, 0, r * e);
        }
        if t == 0 {
            assert(r * e == p * 0 + u < p);
        }
    }
    if t == 0 {
        assert((q * e + 0) == q * e);
        assert(floored_quotient_subunits(c, p) == q * e);
    }
}

/// Derive the whole-unit quantity bought by `collateral` at `price`.
///
/// Succeeds with `floor(collateral / price)` exactly when that quotient,
/// floored at 18 fractional digits, is a whole positive number of units;
/// refuses a fractional quotient with `FractionalQuantity` and a zero
/// quotient with `InvalidQuantity`.
pub fn derive_quantity(collateral: u128, price: u128) -> (r: Result<u128, SwapError>)
    requires
        1 <= collateral,
        1 <= price,
    ensures
        match r {
            Ok(q) => {
                &&& whole_quantity(collateral as int, price as int)
                &&& q == spec_quantity(collateral as int, price as int)
                &&& 1 <= q
                &&& q * price <= collateral
            },
            Err(e) => {
                &&& e == SwapError::FractionalQuantity
                    <==> !whole_quantity(collateral as int, price as int)
                &&& e == SwapError::InvalidQuantity <==> whole_quantity(
                    collateral as int,
                    price as int,
                ) && spec_quantity(collateral as int, price as int) == 0
                &&& (e == SwapError::FractionalQuantity || e == SwapError::InvalidQuantity)
            },
        },
{
    proof {
        lemma_whole_quantity(collateral as int, price as int);
        lemma_fundamental_div_mod(collateral as int, price as int);
    }
    let q: u128 = collateral / price;
    let rem: u128 = collateral % price;
    let whole: bool = if rem > u128::MAX / SUBUNITS {
        proof {
            let e = SUBUNITS as int;
            let cap = u128::MAX as int / e;
            lemma_fundamental_div_mod(u128::MAX as int, e);
            assert(rem * e >= (cap + 1) * e) by (nonlinear_arith)
                requires
                    rem >= cap + 1,
                    0 < e,
            ;
            assert((cap + 1) * e == cap * e + e) by (nonlinear_arith);
            assert(rem * e > u128::MAX);
        }
        false
    } else {
        proof {
            let e = SUBUNITS as int;
            let cap = u128::MAX as int / e;
            lemma_fundamental_div_mod(u128::MAX as int, e);
            assert(rem * e <= cap * e) by (nonlinear_arith)
                requires
                    rem <= cap,
                    0 < e,
            ;
            assert(cap * e <= u128::MAX);
        }
        rem * SUBUNITS < price
    };
    if !whole {
        Err(SwapError::FractionalQuantity)
    } else if q == 0 {
        Err(SwapError::InvalidQuantity)
    } else {
        proof {
            let ci = collateral as int;
            let pi = price as int;
            assert(ci / pi * pi <= ci) by {
                lemma_fundamental_div_mod(ci, pi);
                assert(ci == pi * (ci / pi) + ci % pi);
            }
        }
        Ok(q)
    }
}

} // verus!
