use kitties::engine::Engine;
use kitties::errors::Error;

const STAKE: u64 = 1_000_000;

fn new_test_ext() -> Engine {
    let mut engine = Engine::new(STAKE);
    for account in 1u64..=5 {
        engine.set_balance(account, 1_000_000_000);
    }
    engine
}

fn seed(n: u8) -> [u8; 32] {
    [n; 32]
}

#[test]
fn ask_requires_owner() {
    let mut kitties = new_test_ext();
    assert_eq!(kitties.create(1, &seed(1), Some(0)), Ok(()));
    assert_eq!(kitties.ask(2, 0, Some(100)), Err(Error::NotKittyOwner));
    assert_eq!(kitties.kitty_price(0), None);
}

#[test]
fn ask_sets_and_clears_the_listing() {
    let mut kitties = new_test_ext();
    assert_eq!(kitties.create(1, &seed(1), Some(0)), Ok(()));
    assert_eq!(kitties.ask(1, 0, Some(500)), Ok(()));
    assert_eq!(kitties.kitty_price(0), Some(500));
    assert_eq!(kitties.ask(1, 0, None), Ok(()));
    assert_eq!(kitties.kitty_price(0), None);
}

#[test]
fn buy_missing_kitty_fails() {
    let mut kitties = new_test_ext();
    assert_eq!(kitties.buy(2, 7, 100), Err(Error::InvalidKittyId));
}

#[test]
fn buy_unlisted_kitty_fails() {
    let mut kitties = new_test_ext();
    assert_eq!(kitties.create(1, &seed(1), Some(0)), Ok(()));
    assert_eq!(kitties.buy(2, 0, 100), Err(Error::NotForSale));
}

#[test]
fn buy_below_listed_price_fails() {
    let mut kitties = new_test_ext();
    assert_eq!(kitties.create(1, &seed(1), Some(0)), Ok(()));
    assert_eq!(kitties.ask(1, 0, Some(1000)), Ok(()));
    assert_eq!(kitties.buy(2, 0, 999), Err(Error::PriceTooLow));
    assert_eq!(kitties.kitty_price(0), Some(1000));
    assert_eq!(kitties.kitty_owner(0), Some(1));
}

#[test]
fn buy_at_listed_price_clears_listing_and_reassigns() {
    let mut kitties = new_test_ext();
    assert_eq!(kitties.create(1, &seed(1), Some(0)), Ok(()));
    assert_eq!(kitties.ask(1, 0, Some(1000)), Ok(()));
    assert_eq!(kitties.buy(2, 0, 1000), Ok(()));
    assert_eq!(kitties.kitty_owner(0), Some(2));
    assert_eq!(kitties.kitty_price(0), None);
    assert_eq!(kitties.account_kitty(1), Vec::<u32>::new());
    assert_eq!(kitties.account_kitty(2), vec![0]);
    // The listed price, not the offered excess, is what moves.
    assert_eq!(kitties.free_balance(1), 999_001_000);
    assert_eq!(kitties.free_balance(2), 999_999_000);
}

#[test]
fn buy_above_listed_price_pays_listed_price() {
    let mut kitties = new_test_ext();
    assert_eq!(kitties.create(1, &seed(1), Some(0)), Ok(()));
    assert_eq!(kitties.ask(1, 0, Some(1000)), Ok(()));
    assert_eq!(kitties.buy(2, 0, 2000), Ok(()));
    assert_eq!(kitties.free_balance(1), 999_001_000);
    assert_eq!(kitties.free_balance(2), 999_999_000);
}

#[test]
fn listing_cannot_be_bought_twice() {
    let mut kitties = new_test_ext();
    assert_eq!(kitties.create(1, &seed(1), Some(0)), Ok(()));
    assert_eq!(kitties.ask(1, 0, Some(1000)), Ok(()));
    assert_eq!(kitties.buy(2, 0, 1000), Ok(()));
    assert_eq!(kitties.buy(3, 0, 1000), Err(Error::NotForSale));
    assert_eq!(kitties.kitty_owner(0), Some(2));
}

#[test]
fn buy_fails_without_funds() {
    let mut kitties = new_test_ext();
    assert_eq!(kitties.create(1, &seed(1), Some(0)), Ok(()));
    assert_eq!(kitties.ask(1, 0, Some(1000)), Ok(()));
    // Account 6 was never endowed and cannot pay.
    assert_eq!(kitties.buy(6, 0, 1000), Err(Error::NotEnoughBalance));
    assert_eq!(kitties.kitty_owner(0), Some(1));
    assert_eq!(kitties.kitty_price(0), Some(1000));
}
