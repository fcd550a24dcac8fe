use kitties::engine::Engine;
use kitties::errors::Error;
use kitties::events::Event;

const STAKE: u64 = 1_000_000;

fn new_test_ext() -> Engine {
    let mut engine = Engine::new(STAKE);
    for account in 1u64..=5 {
        engine.set_balance(account, 1_000_000_000);
    }
    engine
}

fn seed(n: u8) -> [u8; 32] {
    [n; 32]
}

#[test]
fn owned_kitties_can_append_values() {
    let mut kitties = new_test_ext();
    assert_eq!(kitties.create(1, &seed(10), Some(0)), Ok(()));
}

#[test]
fn create_kitty_success() {
    let mut kitties = new_test_ext();
    assert_eq!(kitties.create(1, &seed(10), Some(0)), Ok(()));
    assert_eq!(kitties.events()[0], Event::StakeForKitty(1, 1000000));
    assert_eq!(kitties.events()[1], Event::Created(1, 0));
}

#[test]
fn transfer_kitty_success() {
    let mut kitties = new_test_ext();
    assert_eq!(kitties.create(1, &seed(10), Some(0)), Ok(()));
    assert!(kitties.transfer(1, 2, 0).is_ok());
    assert_eq!(kitties.events()[2], Event::Transfered(1, 2, 0));
}

#[test]
fn transfer_kitty_failed_not_owner() {
    let mut kitties = new_test_ext();
    assert_eq!(kitties.create(1, &seed(10), Some(0)), Ok(()));
    assert_eq!(kitties.events()[0], Event::StakeForKitty(1, 1000000));
    assert_eq!(kitties.events()[1], Event::Created(1, 0));
    assert_eq!(kitties.transfer(2, 3, 0), Err(Error::NotKittyOwner));
}

#[test]
fn transfer_kitty_failed_to_self() {
    let mut kitties = new_test_ext();
    assert_eq!(kitties.create(1, &seed(10), Some(0)), Ok(()));
    assert_eq!(kitties.events()[0], Event::StakeForKitty(1, 1000000));
    assert_eq!(kitties.events()[1], Event::Created(1, 0));
    assert_eq!(kitties.transfer(1, 1, 0), Err(Error::CantTransferToSelf));
}

#[test]
fn breed_kitty_success() {
    let mut kitties = new_test_ext();
    assert_eq!(kitties.create(1, &seed(10), Some(0)), Ok(()));
    assert_eq!(kitties.create(1, &seed(11), Some(1)), Ok(()));
    assert!(kitties.breed(1, 0, 1, &seed(12), Some(2)).is_ok());
    assert_eq!(kitties.events()[5], Event::Created(1, 2));
}

#[test]
fn breed_kitty_failed_invalid_id() {
    let mut kitties = new_test_ext();
    assert_eq!(kitties.create(1, &seed(10), Some(0)), Ok(()));
    assert_eq!(kitties.create(1, &seed(11), Some(1)), Ok(()));
    assert_eq!(
        kitties.breed(1, 0, 2, &seed(12), Some(2)),
        Err(Error::InvalidKittyId)
    );
}

#[test]
fn breed_kitty_failed_same_parent() {
    let mut kitties = new_test_ext();
    assert_eq!(kitties.create(1, &seed(10), Some(0)), Ok(()));
    assert_eq!(kitties.create(1, &seed(11), Some(1)), Ok(()));
    assert_eq!(
        kitties.breed(1, 0, 0, &seed(12), Some(2)),
        Err(Error::RequireDifferentParent)
    );
}
