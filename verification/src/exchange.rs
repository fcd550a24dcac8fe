//! The record kept by the escrowed two-party order-swap register that
//! accompanies the asset engine: a maker escrows an amount of one currency
//! and asks an amount of another in return.

use vstd::prelude::*;

verus! {

/// An open swap order. The maker (`owner`) has `base_amount` of the base
/// currency held in escrow and asks `target_amount` of the target
/// currency from whoever takes the order.
#[derive(Clone, PartialEq, Eq, Debug)]
pub struct Order<CurrencyId, Balance, AccountId> {
    pub base_currency_id: CurrencyId,
    pub base_amount: Balance,
    pub target_currency_id: CurrencyId,
    pub target_amount: Balance,
    pub owner: AccountId,
}

} // verus!
