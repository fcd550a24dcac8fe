//! The errors an operation can return. Every failed operation leaves the
//! engine exactly as it was.

use vstd::prelude::*;

verus! {

/// Why an operation was refused.
#[derive(Clone, Copy, PartialEq, Eq, Structural, Debug)]
pub enum Error {
    /// The identifier counter has reached the largest representable value;
    /// no further asset can be minted.
    KittiesCountOverflow,
    /// A referenced asset does not exist.
    InvalidKittyId,
    /// Breeding was asked for with the same asset as both parents.
    RequireDifferentParent,
    /// A transfer named an asset with no recorded owner.
    KittyNotExit,
    /// The caller does not own the asset the operation needs.
    NotKittyOwner,
    /// The currency ledger could not move the funds the operation needs.
    NotEnoughBalance,
    /// A transfer named the caller as its own destination.
    CantTransferToSelf,
    /// A purchase named an asset that carries no ask price.
    NotForSale,
    /// The offered price is below the listed ask price.
    PriceTooLow,
}

} // verus!
