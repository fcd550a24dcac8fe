use kitties::dna::{combine, combine_dna, Kitty};
use kitties::engine::Engine;
use kitties::randomness::random_value;

const STAKE: u64 = 1_000_000;

fn new_test_ext() -> Engine {
    let mut engine = Engine::new(STAKE);
    for account in 1u64..=5 {
        engine.set_balance(account, 1_000_000_000);
    }
    engine
}

#[test]
fn combine_dna_mixes_bit_by_bit() {
    // Selector 0b1111_0000 takes the high nibble from the first parent
    // and the low nibble from the second.
    assert_eq!(combine_dna(0b1010_1010, 0b0101_0101, 0b1111_0000), 0b1010_0101);
    // An all-ones selector copies the first parent, all-zeroes the second.
    assert_eq!(combine_dna(0x3c, 0x99, 0xff), 0x3c);
    assert_eq!(combine_dna(0x3c, 0x99, 0x00), 0x99);
    // Mixing is bitwise, not a per-byte coin flip: the result can differ
    // from both parents' bytes.
    assert_eq!(combine_dna(0b1100_0000, 0b0000_0011, 0b1010_1010), 0b1000_0001);
}

#[test]
fn combine_mixes_every_position() {
    let first = [0xffu8; 16];
    let second = [0x00u8; 16];
    let mut selector = [0x00u8; 16];
    selector[3] = 0xff;
    selector[7] = 0x0f;
    let child = combine(&first, &second, &selector);
    let mut expected = [0x00u8; 16];
    expected[3] = 0xff;
    expected[7] = 0x0f;
    assert_eq!(child, expected);
}

#[test]
fn random_value_depends_on_all_inputs() {
    let seed = [7u8; 32];
    let base = random_value(1, &seed, Some(0));
    // The digest is not the seed handed back.
    assert_ne!(base, [7u8; 16]);
    // Caller, seed and sequence number each change the outcome.
    assert_ne!(base, random_value(2, &seed, Some(0)));
    assert_ne!(base, random_value(1, &[8u8; 32], Some(0)));
    assert_ne!(base, random_value(1, &seed, Some(1)));
    assert_ne!(base, random_value(1, &seed, None));
    // The same triple always gives the same payload.
    assert_eq!(base, random_value(1, &seed, Some(0)));
}

#[test]
fn created_kitty_carries_the_derived_payload() {
    let seed = [42u8; 32];
    let mut kitties = new_test_ext();
    assert_eq!(kitties.create(1, &seed, Some(5)), Ok(()));
    let stored = kitties.kitties(0).unwrap();
    assert_eq!(stored, Kitty(random_value(1, &seed, Some(5))));
    assert_eq!(kitties.kitties(1), None);
}

#[test]
fn bred_kitty_combines_both_parents() {
    let mut kitties = new_test_ext();
    assert_eq!(kitties.create(1, &[1u8; 32], Some(0)), Ok(()));
    assert_eq!(kitties.create(1, &[2u8; 32], Some(1)), Ok(()));
    let breed_seed = [3u8; 32];
    assert_eq!(kitties.breed(1, 0, 1, &breed_seed, Some(2)), Ok(()));

    let parent1 = kitties.kitties(0).unwrap();
    let parent2 = kitties.kitties(1).unwrap();
    let child = kitties.kitties(2).unwrap();
    let selector = random_value(1, &breed_seed, Some(2));
    assert_eq!(child, Kitty(combine(&parent1.0, &parent2.0, &selector)));
}
