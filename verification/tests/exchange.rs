use kitties::exchange::Order;

#[test]
fn order_keeps_its_fields() {
    let order: Order<u32, u64, u64> = Order {
        base_currency_id: 1,
        base_amount: 500,
        target_currency_id: 2,
        target_amount: 750,
        owner: 9,
    };
    let copy = order.clone();
    assert_eq!(order, copy);
    assert_eq!(copy.base_currency_id, 1);
    assert_eq!(copy.base_amount, 500);
    assert_eq!(copy.target_currency_id, 2);
    assert_eq!(copy.target_amount, 750);
    assert_eq!(copy.owner, 9);
}
