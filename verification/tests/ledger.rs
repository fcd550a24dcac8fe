use kitties::errors::Error;
use kitties::ledger::Ledger;

#[test]
fn reserve_moves_free_funds_into_reserve() {
    let mut ledger = Ledger::new();
    ledger.set_balance(1, 1000);
    assert_eq!(ledger.reserve(1, 400), Ok(()));
    assert_eq!(ledger.free_balance(1), 600);
    assert_eq!(ledger.reserved_balance(1), 400);
}

#[test]
fn reserve_fails_without_cover() {
    let mut ledger = Ledger::new();
    ledger.set_balance(1, 100);
    assert_eq!(ledger.reserve(1, 101), Err(Error::NotEnoughBalance));
    assert_eq!(ledger.free_balance(1), 100);
    assert_eq!(ledger.reserved_balance(1), 0);
}

#[test]
fn unreserve_returns_the_part_not_reserved() {
    let mut ledger = Ledger::new();
    ledger.set_balance(1, 1000);
    assert_eq!(ledger.reserve(1, 400), Ok(()));
    assert_eq!(ledger.unreserve(1, 500), 100);
    assert_eq!(ledger.free_balance(1), 1000);
    assert_eq!(ledger.reserved_balance(1), 0);
}

#[test]
fn transfer_moves_liquid_funds() {
    let mut ledger = Ledger::new();
    ledger.set_balance(1, 1000);
    ledger.set_balance(2, 50);
    assert_eq!(ledger.transfer(1, 2, 300), Ok(()));
    assert_eq!(ledger.free_balance(1), 700);
    assert_eq!(ledger.free_balance(2), 350);
}

#[test]
fn transfer_fails_without_cover_and_changes_nothing() {
    let mut ledger = Ledger::new();
    ledger.set_balance(1, 100);
    assert_eq!(ledger.transfer(1, 2, 300), Err(Error::NotEnoughBalance));
    assert_eq!(ledger.free_balance(1), 100);
    assert_eq!(ledger.free_balance(2), 0);
}

#[test]
fn transfer_to_self_moves_nothing() {
    let mut ledger = Ledger::new();
    ledger.set_balance(1, 100);
    assert_eq!(ledger.transfer(1, 1, 40), Ok(()));
    assert_eq!(ledger.free_balance(1), 100);
    assert_eq!(ledger.transfer(1, 1, 200), Err(Error::NotEnoughBalance));
}
