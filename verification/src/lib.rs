//! An asset lifecycle and marketplace engine: unique assets ("kitties") are
//! minted with a 16-byte trait payload, owned by accounts, bred pairwise into
//! new assets whose traits are mixed bit by bit from the two parents, staked
//! with a fixed collateral amount, and traded through an optional ask price.
//!
//! All state lives in an explicit [`engine::Engine`] value; every operation
//! either applies atomically or returns an error and leaves the state as it
//! was. The [`ledger`] module models the currency collaborator the stake
//! escrow runs on, [`dna`] holds the payload combination engine, and
//! [`randomness`] derives fresh payloads from an externally fetched seed.

pub mod dna;
pub mod engine;
pub mod errors;
pub mod events;
pub mod exchange;
pub mod ledger;
pub mod randomness;

pub use dna::Kitty;
pub use errors::Error;
pub use events::Event;
