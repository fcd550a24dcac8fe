//! The domain events a successful operation emits, in order, into the
//! engine's event log.

use vstd::prelude::*;

verus! {

/// A domain event. Each is appended exactly once per successful operation
/// that produces the corresponding effect, never for a failed one.
#[derive(Clone, Copy, PartialEq, Eq, Structural, Debug)]
pub enum Event {
    /// An asset was minted: the owner and the new identifier.
    Created(u64, u32),
    /// Ownership moved: the source, the destination and the asset.
    Transfered(u64, u64, u32),
    /// Collateral was asked to be reserved against an owner: the owner and
    /// the configured stake amount.
    StakeForKitty(u64, u64),
    /// Collateral was released back to an owner: the owner and the amount.
    UnstakeForKitty(u64, u64),
}

} // verus!
