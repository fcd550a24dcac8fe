//! The trait payload of an asset and the combination engine that mixes two
//! parents' payloads into a child's.

use vstd::prelude::*;

verus! {

/// An asset's intrinsic traits: a fixed payload of 16 bytes, set once at
/// creation and never changed afterwards.
#[derive(Clone, Copy, PartialEq, Eq, Debug)]
pub struct Kitty(pub [u8; 16]);

/// One byte of trait mixing: each bit of `selector` that is set picks the
/// corresponding bit of `dna1`, each bit that is clear picks the bit of
/// `dna2`.
pub open spec fn spec_combine_dna(dna1: u8, dna2: u8, selector: u8) -> u8 {
    (selector & dna1) | (!selector & dna2)
}

/// The whole child payload: position by position, the byte mixed from the
/// parents' bytes under the selector byte.
pub open spec fn spec_combine(dna1: Seq<u8>, dna2: Seq<u8>, selector: Seq<u8>) -> Seq<u8> {
    Seq::new(dna1.len(), |i: int| spec_combine_dna(dna1[i], dna2[i], selector[i]))
}

/// Mixes one byte of two parents' payloads under one byte of the selector
/// mask.
pub fn combine_dna(dna1: u8, dna2: u8, selector: u8) -> (r: u8)
    ensures
        r == spec_combine_dna(dna1, dna2, selector),
{
    (selector & dna1) | (!selector & dna2)
}

/// The selection works bit by bit within each byte, not byte by byte: bit
/// `i` of the mixed byte equals bit `i` of `dna1` where bit `i` of the
/// selector is set, and bit `i` of `dna2` where it is clear.
pub proof fn lemma_combine_dna_selects_bits(dna1: u8, dna2: u8, selector: u8, i: u8)
    requires
        i < 8,
    ensures
        (spec_combine_dna(dna1, dna2, selector) >> i) & 1 == if (selector >> i) & 1 == 1 {
            (dna1 >> i) & 1
        } else {
            (dna2 >> i) & 1
        },
{
    assert((((selector & dna1) | (!selector & dna2)) >> i) & 1 == if (selector >> i) & 1 == 1 {
        (dna1 >> i) & 1
    } else {
        (dna2 >> i) & 1
    }) by (bit_vector)
        requires
            i < 8,
    ;
}

/// Derives a child payload from two parent payloads and a selector mask,
/// mixing every byte bit by bit.
pub fn combine(dna1: &[u8; 16], dna2: &[u8; 16], selector: &[u8; 16]) -> (r: [u8; 16])
    ensures
        r@ == spec_combine(dna1@, dna2@, selector@),
{
    let mut new_dna: [u8; 16] = [0u8; 16];
    let mut i: usize = 0;
    while i < 16
        invariant
            i <= 16,
            forall|j: int|
                0 <= j < i ==> new_dna@[j] == spec_combine_dna(dna1@[j], dna2@[j], selector@[j]),
        decreases 16 - i,
    {
        new_dna[i] = combine_dna(dna1[i], dna2[i], selector[i]);
        i = i + 1;
    }
    proof {
        assert(new_dna@ =~= spec_combine(dna1@, dna2@, selector@));
    }
    new_dna
}

} // verus!
