use order_book::book::OrderBook;
use order_book::error::BookError;
use order_book::limit::Limit;
use order_book::order::{Order, OrderType};

fn order(id: u128, side: OrderType, size: u64) -> Order {
    Order::with_identity(id, side, size, 0).unwrap()
}

#[test]
fn successfully_adds_a_buy_order_to_a_limit() {
    // Given
    let mut limit = Limit::new(10_000);
    let buy_order = Order::new(OrderType::Bid, 5).unwrap();

    // When
    limit.add_order(buy_order);

    // Then
    assert_eq!(limit.orders.len(), 1);
}

#[test]
fn successfully_removes_a_buy_order_from_a_limit() {
    // Given
    let mut limit = Limit::new(10_000);
    let buy_order_a = Order::new(OrderType::Bid, 5).unwrap();
    let buy_order_b = Order::new(OrderType::Bid, 8).unwrap();
    let buy_order_c = Order::new(OrderType::Bid, 10).unwrap();

    // Store the ID before moving the order
    let buy_order_b_id = buy_order_b.id;

    limit.add_order(buy_order_a);
    limit.add_order(buy_order_b);
    limit.add_order(buy_order_c);

    // When
    let _result = limit.remove_order(buy_order_b_id);

    // Then
    assert_eq!(limit.total_volume, 15);
}

#[test]
fn successfully_adds_a_buy_order_to_an_order_book() {
    //Given
    let mut order_book = OrderBook::new();
    let buy_order = Order::new(OrderType::Bid, 10).unwrap();

    //When
    let _result = order_book.add_order(15_000, buy_order);

    //Then
    assert_eq!(order_book.limit_count(OrderType::Bid), 1);
}

#[test]
fn limit_admission_sets_back_reference_and_volume() {
    let mut limit = Limit::new(10_000);
    limit.add_order(order(1, OrderType::Bid, 5));
    limit.add_order(order(2, OrderType::Bid, 8));
    assert_eq!(limit.len(), 2);
    assert_eq!(limit.total_volume, 13);
    for o in limit.orders() {
        assert_eq!(o.limit_id, Some(limit.id));
    }
    assert_eq!(limit.price, 10_000);
}

#[test]
fn limit_removal_keeps_arrival_order() {
    let mut limit = Limit::new(10_000);
    limit.add_order(order(1, OrderType::Bid, 5));
    limit.add_order(order(2, OrderType::Bid, 8));
    limit.add_order(order(3, OrderType::Bid, 10));
    assert_eq!(limit.remove_order(1), Ok(()));
    let ids: Vec<u128> = limit.orders().iter().map(|o| o.id).collect();
    assert_eq!(ids, vec![2, 3]);
    assert_eq!(limit.total_volume, 18);
}

#[test]
fn limit_removal_of_unknown_order_fails() {
    let mut limit = Limit::new(10_000);
    limit.add_order(order(1, OrderType::Ask, 5));
    assert_eq!(limit.remove_order(9), Err(BookError::OrderNotFound));
    assert_eq!(limit.len(), 1);
    assert_eq!(limit.total_volume, 5);
}

#[test]
fn order_of_size_zero_is_refused() {
    assert_eq!(Order::new(OrderType::Bid, 0), Err(BookError::InvalidSize));
    assert_eq!(Order::with_identity(7, OrderType::Ask, 0, 0), Err(BookError::InvalidSize));
}

#[test]
fn order_with_identity_is_detached() {
    let o = Order::with_identity(7, OrderType::Ask, 3, 42).unwrap();
    assert_eq!(o.id, 7);
    assert_eq!(o.order_type, OrderType::Ask);
    assert_eq!(o.size, 3);
    assert_eq!(o.timestamp, 42);
    assert_eq!(o.limit_id, None);
}

#[test]
fn new_orders_carry_random_version_four_identities() {
    let a = Order::new(OrderType::Bid, 1).unwrap();
    let b = Order::new(OrderType::Bid, 1).unwrap();
    assert_ne!(a.id, b.id);
    assert_eq!((a.id >> 76) & 0xF, 4);
    assert_eq!((a.id >> 62) & 0x3, 2);
    assert_eq!(a.limit_id, None);
    assert!(a.timestamp > 1_500_000_000);
}

#[test]
fn new_limits_get_distinct_identities() {
    let a = Limit::new(1);
    let b = Limit::new(1);
    assert_ne!(a.id, b.id);
    assert_eq!((a.id >> 76) & 0xF, 4);
}

#[test]
fn limit_volume_follows_every_admission() {
    let mut limit = Limit::new(7);
    let mut expected = 0u64;
    for i in 1..=6u64 {
        limit.add_order(order(i as u128, OrderType::Ask, i * 3));
        expected += i * 3;
        assert_eq!(limit.total_volume, expected);
        assert_eq!(limit.orders().last().unwrap().id, i as u128);
    }
    assert_eq!(limit.len(), 6);
}
