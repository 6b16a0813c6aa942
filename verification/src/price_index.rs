//! The ordered set of distinct bid prices.
//!
//! Prices are kept strictly descending, so the first entry is the highest
//! bid and the last entry the lowest. The engine keeps this key set
//! identical to the key set of the book-line store at all times.

use vstd::prelude::*;

verus! {

/// An ordered set of distinct prices, highest first.
pub struct PriceIndex {
    pub prices: Vec<u128>,
}

/// `s` is strictly descending.
pub open spec fn strictly_descending(s: Seq<u128>) -> bool {
    forall|i: int, j: int| 0 <= i < j < s.len() ==> #[trigger] s[i] > #[trigger] s[j]
}

impl PriceIndex {
    pub open spec fn view(&self) -> Seq<u128> {
        self.prices@
    }

    pub open spec fn wf(&self) -> bool {
        strictly_descending(self@)
    }

    /// An empty index.
    pub fn new() -> (r: PriceIndex)
        ensures
            r.wf(),
            r@ =~= Seq::<u128>::empty(),
    {
        PriceIndex { prices: Vec::new() }
    }

    /// Whether `price` is present.
    pub fn contains_price(&self, price: u128) -> (b: bool)
        ensures
            b == self@.contains(price),
    {
        let mut i: usize = 0;
        while i < self.prices.len()
            invariant
                0 <= i <= self.prices.len(),
                forall|j: int| 0 <= j < i ==> self.prices@[j] != price,
            decreases self.prices.len() - i,
        {
            if self.prices[i] == price {
                assert(self@[i as int] == price);
                return true;
            }
            i += 1;
        }
        false
    }

    /// Insert a price that is not yet present, keeping the order; returns
    /// the position at which it now stands.
    pub fn insert(&mut self, price: u128) -> (pos: usize)
        requires
            old(self).wf(),
            !old(self)@.contains(price),
        ensures
            final(self).wf(),
            0 <= pos <= old(self)@.len(),
            final(self)@ =~= old(self)@.insert(pos as int, price),
            forall|j: int| 0 <= j < pos ==> old(self)@[j] > price,
            forall|j: int| pos <= j < old(self)@.len() ==> old(self)@[j] < price,
    {
        let ghost s0 = self@;
        let mut i: usize = 0;
        while i < self.prices.len() && self.prices[i] > price
            invariant
                0 <= i <= self.prices.len(),
                self@ == s0,
                forall|j: int| 0 <= j < i ==> s0[j] > price,
            decreases self.prices.len() - i,
        {
            i += 1;
        }
        proof {
            if i < s0.len() {
                assert(s0[i as int] != price);
                assert(s0[i as int] < price);
            }
            assert forall|j: int| i <= j < s0.len() implies s0[j] < price by {
                if j > i {
                    assert(s0[i as int] > s0[j]);
                }
            }
        }
        self.prices.insert(i, price);
        proof {
            let t = self@;
            assert(t =~= s0.insert(i as int, price));
            assert forall|a: int, b: int| 0 <= a < b < t.len() implies t[a] > t[b] by {
                if b < i {
                    assert(t[a] == s0[a] && t[b] == s0[b]);
                } else if a > i {
                    assert(t[a] == s0[a - 1] && t[b] == s0[b - 1]);
                } else if a == i {
                    assert(t[a] == price && t[b] == s0[b - 1]);
                } else if b == i {
                    assert(t[a] == s0[a] && t[b] == price);
                } else {
                    assert(t[a] == s0[a] && t[b] == s0[b - 1]);
                    assert(s0[a] > price || a < i);
                }
            }
        }
        i
    }

    /// Remove a price that is present.
    pub fn remove(&mut self, price: u128)
        requires
            old(self).wf(),
            old(self)@.contains(price),
        ensures
            final(self).wf(),
            exists|i: int|
                {
                    &&& 0 <= i < old(self)@.len()
                    &&& old(self)@[i] == price
                    &&& final(self)@ =~= old(self)@.remove(i)
                },
    {
        let ghost s0 = self@;
        let mut i: usize = 0;
        while i < self.prices.len() && self.prices[i] != price
            invariant
                0 <= i <= self.prices.len(),
                self@ == s0,
                forall|j: int| 0 <= j < i ==> s0[j] != price,
                s0.contains(price),
            decreases self.prices.len() - i,
        {
            i += 1;
        }
        proof {
            let w = choose|w: int| 0 <= w < s0.len() && s0[w] == price;
            assert(i < s0.len());
        }
        self.prices.remove(i);
        proof {
            let t = self@;
            assert(t =~= s0.remove(i as int));
            assert forall|a: int, b: int| 0 <= a < b < t.len() implies t[a] > t[b] by {
                let aa = if a < i { a } else { a + 1 };
                let bb = if b < i { b } else { b + 1 };
                assert(t[a] == s0[aa] && t[b] == s0[bb]);
            }
        }
    }

    /// The prices between `to` and `from`, both ends admitted, in strictly
    /// descending order: a snapshot for one matching pass.
    pub fn range_descending(&self, from: u128, to: u128) -> (r: Vec<u128>)
        requires
            self.wf(),
        ensures
            exists|a: int, b: int|
                {
                    &&& 0 <= a <= b <= self@.len()
                    &&& r@ =~= self@.subrange(a, b)
                    &&& forall|j: int| 0 <= j < a ==> self@[j] > from
                    &&& forall|j: int| a <= j < b ==> to <= #[trigger] self@[j] <= from
                    &&& forall|j: int| b <= j < self@.len() ==> self@[j] < to
                },
    {
        let mut a: usize = 0;
        while a < self.prices.len() && self.prices[a] > from
            invariant
                0 <= a <= self.prices.len(),
                forall|j: int| 0 <= j < a ==> self@[j] > from,
            decreases self.prices.len() - a,
        {
            a += 1;
        }
        let mut b: usize = a;
        let mut out: Vec<u128> = Vec::new();
        while b < self.prices.len() && self.prices[b] >= to
            invariant
                0 <= a <= b <= self.prices.len(),
                forall|j: int| 0 <= j < a ==> self@[j] > from,
                forall|j: int| a <= j < b ==> to <= #[trigger] self@[j] <= from,
                out@ =~= self@.subrange(a as int, b as int),
                self.wf(),
                a == self.prices.len() || self@[a as int] <= from,
            decreases self.prices.len() - b,
        {
            proof {
                if b > a {
                    assert(self@[a as int] > self@[b as int]);
                }
                assert(self@[b as int] <= from);
                assert(self@.subrange(a as int, b as int + 1) =~= self@.subrange(
                    a as int,
                    b as int,
                ).push(self@[b as int]));
            }
            out.push(self.prices[b]);
            b += 1;
        }
        proof {
            assert forall|j: int| b <= j < self@.len() implies self@[j] < to by {
                if j > b {
                    assert(self@[b as int] > self@[j]);
                }
            }
        }
        out
    }
}

} // verus!
