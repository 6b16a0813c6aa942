//! Escrow holders, one per order.
//!
//! A vault store is a keyed map from order identifier to a held balance.
//! The engine owns two of them: one holding the unconsumed collateral of
//! each order, one holding the inventory units already delivered against
//! it. Vaults are created in identifier order, so the store is a dense
//! vector of balances.

use vstd::prelude::*;
use vstd::pervasive::VecAdditionalExecFns;

verus! {

/// Keyed map from order identifier to an escrowed balance.
pub struct VaultStore {
    pub balances: Vec<u128>,
}

impl VaultStore {
    pub open spec fn view(&self) -> Seq<u128> {
        self.balances@
    }

    /// An empty store.
    pub fn new() -> (r: VaultStore)
        ensures
            r@ =~= Seq::<u128>::empty(),
    {
        VaultStore { balances: Vec::new() }
    }

    /// Open the vault for the next order identifier with an initial
    /// balance.
    pub fn open_vault(&mut self, amount: u128)
        ensures
            final(self)@ =~= old(self)@.push(amount),
    {
        self.balances.push(amount);
    }

    /// The balance held for `id`.
    pub fn balance_of(&self, id: usize) -> (b: u128)
        requires
            id < self@.len(),
        ensures
            b == self@[id as int],
    {
        self.balances[id]
    }

    /// Add to the balance held for `id`.
    pub fn deposit(&mut self, id: usize, amount: u128)
        requires
            id < old(self)@.len(),
            old(self)@[id as int] + amount <= u128::MAX,
        ensures
            final(self)@ =~= old(self)@.update(
                id as int,
                (old(self)@[id as int] + amount) as u128,
            ),
    {
        let b = self.balances[id];
        self.balances.set(id, b + amount);
    }

    /// Take part of the balance held for `id`; the balance must suffice.
    pub fn withdraw(&mut self, id: usize, amount: u128)
        requires
            id < old(self)@.len(),
            amount <= old(self)@[id as int],
        ensures
            final(self)@ =~= old(self)@.update(
                id as int,
                (old(self)@[id as int] - amount) as u128,
            ),
    {
        let b = self.balances[id];
        self.balances.set(id, b - amount);
    }

    /// Empty the vault for `id` and return everything it held.
    pub fn withdraw_all(&mut self, id: usize) -> (amount: u128)
        requires
            id < old(self)@.len(),
        ensures
            amount == old(self)@[id as int],
            final(self)@ =~= old(self)@.update(id as int, 0u128),
    {
        let b = self.balances[id];
        self.balances.set(id, 0);
        b
    }
}

} // verus!
