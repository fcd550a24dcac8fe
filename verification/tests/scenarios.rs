use kitties::engine::{Engine, Relation};
use kitties::errors::Error;

const STAKE: u64 = 1_000_000;

fn new_test_ext() -> Engine {
    let mut engine = Engine::new(STAKE);
    for account in 1u64..=5 {
        engine.set_balance(account, 1_000_000_000);
    }
    engine
}

fn seed(n: u8) -> [u8; 32] {
    [n; 32]
}

#[test]
fn create_create_breed_scenario() {
    let mut kitties = new_test_ext();

    assert_eq!(kitties.create(1, &seed(1), Some(0)), Ok(()));
    assert_eq!(kitties.kitties_count(), 1);
    assert_eq!(kitties.kitty_owner(0), Some(1));
    assert_eq!(kitties.account_kitty(1), vec![0]);

    assert_eq!(kitties.create(1, &seed(2), Some(1)), Ok(()));
    assert_eq!(kitties.kitties_count(), 2);
    assert_eq!(kitties.account_kitty(1), vec![0, 1]);

    assert_eq!(kitties.breed(1, 0, 1, &seed(3), Some(2)), Ok(()));
    assert_eq!(kitties.kitties_count(), 3);
    assert_eq!(kitties.sibling((0, 1)), vec![2]);
    assert_eq!(kitties.kitty_parents(2), (0, 1));

    assert_eq!(
        kitties.breed(1, 0, 0, &seed(4), Some(3)),
        Err(Error::RequireDifferentParent)
    );
    assert_eq!(kitties.kitties_count(), 3);
}

#[test]
fn transfer_scenario_updates_both_owner_sets() {
    let mut kitties = new_test_ext();

    assert_eq!(kitties.create(1, &seed(1), Some(0)), Ok(()));
    assert_eq!(kitties.transfer(1, 2, 0), Ok(()));
    assert_eq!(kitties.account_kitty(1), Vec::<u32>::new());
    assert_eq!(kitties.account_kitty(2), vec![0]);
    assert_eq!(kitties.kitty_owner(0), Some(2));

    assert_eq!(kitties.transfer(1, 3, 0), Err(Error::NotKittyOwner));
    assert_eq!(kitties.kitty_owner(0), Some(2));
}

#[test]
fn breed_order_gives_same_canonical_pair() {
    let mut forward = new_test_ext();
    assert_eq!(forward.create(1, &seed(1), Some(0)), Ok(()));
    assert_eq!(forward.create(1, &seed(2), Some(1)), Ok(()));
    assert_eq!(forward.breed(1, 0, 1, &seed(3), Some(2)), Ok(()));

    let mut backward = new_test_ext();
    assert_eq!(backward.create(1, &seed(1), Some(0)), Ok(()));
    assert_eq!(backward.create(1, &seed(2), Some(1)), Ok(()));
    assert_eq!(backward.breed(1, 1, 0, &seed(3), Some(2)), Ok(()));

    assert_eq!(forward.kitty_parents(2), (0, 1));
    assert_eq!(backward.kitty_parents(2), (0, 1));
    assert_eq!(forward.sibling((0, 1)), vec![2]);
    assert_eq!(backward.sibling((0, 1)), vec![2]);
}

#[test]
fn breeding_twice_keeps_partners_recorded_once() {
    let mut kitties = new_test_ext();
    assert_eq!(kitties.create(1, &seed(1), Some(0)), Ok(()));
    assert_eq!(kitties.create(1, &seed(2), Some(1)), Ok(()));
    assert_eq!(kitties.breed(1, 0, 1, &seed(3), Some(2)), Ok(()));
    assert_eq!(kitties.breed(1, 1, 0, &seed(4), Some(3)), Ok(()));

    assert_eq!(kitties.family_map(0, Relation::Partner), vec![1]);
    assert_eq!(kitties.family_map(1, Relation::Partner), vec![0]);
    assert_eq!(kitties.family_map(0, Relation::Children), vec![2, 3]);
    assert_eq!(kitties.family_map(1, Relation::Children), vec![2, 3]);
    assert_eq!(kitties.sibling((0, 1)), vec![2, 3]);
    assert_eq!(kitties.kitty_parents(3), (0, 1));
}

#[test]
fn transfer_of_missing_kitty_fails() {
    let mut kitties = new_test_ext();
    assert_eq!(kitties.transfer(1, 2, 99), Err(Error::KittyNotExit));
}

#[test]
fn create_reserves_stake_best_effort() {
    let mut kitties = new_test_ext();
    assert_eq!(kitties.create(1, &seed(1), Some(0)), Ok(()));
    assert_eq!(kitties.free_balance(1), 999_000_000);
    assert_eq!(kitties.reserved_balance(1), 1_000_000);

    // An account with no funds still gets its asset: the reservation is
    // deliberately best-effort.
    assert_eq!(kitties.create(6, &seed(2), Some(1)), Ok(()));
    assert_eq!(kitties.kitty_owner(1), Some(6));
    assert_eq!(kitties.free_balance(6), 0);
    assert_eq!(kitties.reserved_balance(6), 0);
}

#[test]
fn transfer_moves_stake_to_destination() {
    let mut kitties = new_test_ext();
    assert_eq!(kitties.create(1, &seed(1), Some(0)), Ok(()));
    assert_eq!(kitties.transfer(1, 2, 0), Ok(()));
    assert_eq!(kitties.free_balance(1), 999_000_000);
    assert_eq!(kitties.reserved_balance(1), 0);
    assert_eq!(kitties.free_balance(2), 1_000_000_000);
    assert_eq!(kitties.reserved_balance(2), 1_000_000);
}

#[test]
fn transfer_fails_when_stake_cannot_move() {
    let mut kitties = new_test_ext();
    // Account 6 was never endowed: its asset carries no stake, and no
    // stake can be raised for a transfer either.
    assert_eq!(kitties.create(6, &seed(1), Some(0)), Ok(()));
    assert_eq!(kitties.transfer(6, 1, 0), Err(Error::NotEnoughBalance));
    assert_eq!(kitties.kitty_owner(0), Some(6));
    assert_eq!(kitties.account_kitty(6), vec![0]);
}
