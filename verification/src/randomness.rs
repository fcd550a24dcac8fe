//! Derivation of the 16 pseudo-random bytes a minting operation consumes:
//! the randomness collaborator's seed is combined with the caller's
//! identity and the operation's sequence number, and the combination is
//! hashed down to a 16-byte payload.
//!
//! The seed itself comes from outside: the caller of the engine fetches it
//! and passes it in, and the surrounding ledger guarantees that the same
//! (seed, caller, sequence) triple never recurs within one history.

use parity_scale_codec::Encode;
use vstd::prelude::*;

verus! {

/// What the SCALE codec produces for a minting operation's payload triple:
/// the randomness seed, the caller and the operation's sequence number.
pub uninterp spec fn payload_encoding_of(
    seed: Seq<u8>,
    sender: u64,
    extrinsic_index: Option<u32>,
) -> Seq<u8>;

/// The 128-bit Blake2b digest of a byte string.
pub uninterp spec fn blake2_128_of(data: Seq<u8>) -> Seq<u8>;

/// The payload derived for one minting operation: the digest of the
/// encoded (seed, caller, sequence) triple.
pub open spec fn spec_random_value(
    seed: Seq<u8>,
    sender: u64,
    extrinsic_index: Option<u32>,
) -> Seq<u8> {
    blake2_128_of(payload_encoding_of(seed, sender, extrinsic_index))
}

/// Relies on `parity_scale_codec::Encode::encode` for the triple
/// `([u8; 32], u64, Option<u32>)`: the encoding concatenates the fixed
/// encodings of the three fields and so depends on their values alone.
#[verifier::external_body]
fn encode_random_payload(seed: &[u8; 32], sender: u64, extrinsic_index: Option<u32>) -> (r: Vec<
    u8,
>)
    ensures
        r@ == payload_encoding_of(seed@, sender, extrinsic_index),
{
    (*seed, sender, extrinsic_index).encode()
}

/// Relies on `sp_io::hashing::blake2_128`: a 16-byte Blake2b digest
/// computed from the input bytes alone.
#[verifier::external_body]
fn blake2_128(data: &Vec<u8>) -> (r: [u8; 16])
    ensures
        r@ == blake2_128_of(data@),
{
    sp_io::hashing::blake2_128(data.as_slice())
}

/// Derives the 16 pseudo-random payload bytes for one minting operation
/// from the externally fetched randomness seed, the caller and the
/// operation's sequence number.
pub fn random_value(sender: u64, seed: &[u8; 32], extrinsic_index: Option<u32>) -> (r: [u8; 16])
    ensures
        r@ == spec_random_value(seed@, sender, extrinsic_index),
{
    let payload = encode_random_payload(seed, sender, extrinsic_index);
    blake2_128(&payload)
}

} // verus!
